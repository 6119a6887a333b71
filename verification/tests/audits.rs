use first_rust::audits::{contents_url, get_audit_links, push_links, repo_name};
use first_rust::contracts::{compile_target, contract_file_name, get_repo_bytecodes, local_contract_path};

const PAGE: &str = r#"<html><body>
<a aria-label="Go to audit competition repo (Opens in a new window)" href="https://github.com/code-423n4/2023-06-lybra">Repo</a>
<a href="https://example.com">Other</a>
<div><a aria-label="Go to audit competition repo (Opens in a new window)" href="https://github.com/code-423n4/2023-07-amm">Repo</a></div>
</body></html>"#;

#[test]
fn audit_links_from_contests_page() {
    let mut audits = vec!["earlier".to_string()];
    assert!(get_audit_links(PAGE, &mut audits));
    assert_eq!(
        audits,
        vec![
            "earlier",
            "https://github.com/code-423n4/2023-06-lybra",
            "https://github.com/code-423n4/2023-07-amm",
        ]
    );
}

#[test]
fn audit_link_without_address_is_refused() {
    let page = r#"<a aria-label="Go to audit competition repo (Opens in a new window)">Repo</a>"#;
    let mut audits = vec!["kept".to_string()];
    assert!(!get_audit_links(page, &mut audits));
    assert_eq!(audits, vec!["kept"]);
}

#[test]
fn page_without_audit_links() {
    let mut audits = Vec::new();
    assert!(get_audit_links("<p>nothing</p>", &mut audits));
    assert!(audits.is_empty());
}

#[test]
fn push_present_links() {
    let mut audits = Vec::new();
    push_links(&vec![Some("a".to_string()), Some("b".to_string())], &mut audits);
    assert_eq!(audits, vec!["a", "b"]);
}

#[test]
fn contents_url_of_audit_link() {
    assert_eq!(
        contents_url("https://github.com/code-423n4/2023-06-lybra"),
        "https://api.github.com/repos/code-423n4/2023-06-lybra/contents"
    );
    assert_eq!(repo_name("https://github.com/code-423n4/2023-06-lybra"), "2023-06-lybra");
    assert_eq!(contents_url("plain"), "https://api.github.com/repos/code-423n4/plain/contents");
    assert_eq!(repo_name("trailing/"), "");
}

#[test]
fn contract_paths() {
    let url = "https://raw.githubusercontent.com/code-423n4/2023-06-lybra/main/contracts/Pool.sol";
    assert_eq!(contract_file_name(url), "Pool.sol");
    assert_eq!(local_contract_path(url), "./contracts/Pool.sol");
    assert_eq!(compile_target(url), "contracts/Pool.sol");
}

#[test]
fn bytecodes_of_compiled_contracts_only() {
    let urls = vec!["x/A.sol".to_string(), "x/B.sol".to_string(), "C.sol".to_string()];
    let outcomes = vec![Some("0x60".to_string()), None, Some("0x61".to_string())];
    assert_eq!(
        get_repo_bytecodes(&urls, &outcomes),
        vec![("A.sol".to_string(), "0x60".to_string()), ("C.sol".to_string(), "0x61".to_string())]
    );
    assert!(get_repo_bytecodes(&urls, &vec![None, None, None]).is_empty());
}
