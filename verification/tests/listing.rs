use first_rust::listing::{
    entries_from_fields, is_walkable, parse_json, parse_json_by_repo, plan_listing, url_segment,
    GroupingStep, ListingStep, RepoEntry,
};
use first_rust::repo_files::RepoFiles;

const LISTING: &str = r#"[
  {"name": "Pool.sol", "type": "file",
   "download_url": "https://raw.githubusercontent.com/code-423n4/2023-06-lybra/main/Pool.sol",
   "url": "https://api.github.com/repos/code-423n4/2023-06-lybra/contents/Pool.sol?ref=main"},
  {"name": "Pool.t.sol", "type": "file",
   "download_url": "https://raw.githubusercontent.com/code-423n4/2023-06-lybra/main/Pool.t.sol",
   "url": "https://api.github.com/repos/code-423n4/2023-06-lybra/contents/Pool.t.sol?ref=main"},
  {"name": "README.md", "type": "file",
   "download_url": "https://raw.githubusercontent.com/code-423n4/2023-06-lybra/main/README.md",
   "url": "https://api.github.com/repos/code-423n4/2023-06-lybra/contents/README.md?ref=main"},
  {"name": "contracts", "type": "dir", "download_url": null,
   "url": "https://api.github.com/repos/code-423n4/2023-06-lybra/contents/contracts?ref=main"}
]"#;

fn contract(u: &str) -> String {
    u.to_string()
}

#[test]
fn walk_fetches_contracts_and_descends_into_directories() {
    let steps = parse_json(LISTING).expect("walkable listing");
    assert_eq!(steps.len(), 2);
    match &steps[0] {
        ListingStep::Contract(u) => assert_eq!(
            u,
            &contract("https://raw.githubusercontent.com/code-423n4/2023-06-lybra/main/Pool.sol")
        ),
        _ => panic!("expected a contract"),
    }
    match &steps[1] {
        ListingStep::Descend(u) => assert_eq!(
            u,
            "https://api.github.com/repos/code-423n4/2023-06-lybra/contents/contracts?ref=main"
        ),
        _ => panic!("expected a directory"),
    }
}

#[test]
fn walk_refuses_what_is_not_a_listing() {
    assert!(parse_json("not json").is_none());
    assert!(parse_json("{\"type\": \"file\"}").is_none());
    assert!(parse_json("[{\"name\": \"A.sol\"}]").is_none());
    assert!(parse_json("[{\"type\": \"file\", \"name\": \"A.sol\", \"download_url\": null}]").is_none());
    assert!(parse_json("[{\"type\": \"dir\"}]").is_none());
    assert!(parse_json("[{\"type\": 3, \"url\": \"u\"}]").is_none());
}

#[test]
fn walk_skips_other_files() {
    let steps = parse_json("[{\"type\": \"file\", \"name\": \"notes.txt\"}, {\"type\": \"file\", \"name\": \"A.t.sol\"}]")
        .expect("walkable");
    assert!(steps.is_empty());
    assert!(parse_json("[]").expect("empty listing").is_empty());
}

#[test]
fn plan_listing_on_entries() {
    let entries = vec![
        RepoEntry {
            kind: Some("symlink".to_string()),
            name: None,
            download_url: None,
            url: Some("u1".to_string()),
        },
        RepoEntry {
            kind: Some("file".to_string()),
            name: Some("B.sol".to_string()),
            download_url: Some("d2".to_string()),
            url: None,
        },
    ];
    assert!(entries.iter().all(is_walkable));
    let steps = plan_listing(&entries);
    assert!(matches!(&steps[0], ListingStep::Descend(u) if u == "u1"));
    assert!(matches!(&steps[1], ListingStep::Contract(u) if u == "d2"));
}

#[test]
fn entries_need_one_field_per_key() {
    let rows = vec![vec![Some("file".to_string()), None, None, None]];
    let entries = entries_from_fields(&rows).expect("four fields");
    assert_eq!(entries[0].kind.as_deref(), Some("file"));
    assert!(entries_from_fields(&vec![vec![None, None]]).is_none());
}

#[test]
fn grouping_walk_records_solidity_files_by_repository() {
    let steps = parse_json_by_repo(LISTING).expect("groupable listing");
    assert_eq!(steps.len(), 3);
    let mut files = RepoFiles::new();
    let mut dirs = Vec::new();
    for step in steps {
        match step {
            GroupingStep::File { repo, name, download_url } => {
                assert_eq!(repo, "2023-06-lybra");
                files.record_file(repo, name, download_url)
            }
            GroupingStep::Descend(u) => dirs.push(u),
        }
    }
    assert_eq!(dirs.len(), 1);
    // The first file found for a repository only adds the repository.
    let groups = files.groups();
    assert_eq!(groups.len(), 1);
    assert_eq!(groups[0].0, "2023-06-lybra");
    assert_eq!(
        groups[0].1,
        vec![(
            "Pool.t.sol".to_string(),
            "https://raw.githubusercontent.com/code-423n4/2023-06-lybra/main/Pool.t.sol".to_string()
        )]
    );
}

#[test]
fn grouping_walk_needs_a_repository_segment() {
    assert!(parse_json_by_repo("[{\"type\": \"file\", \"name\": \"A.sol\", \"download_url\": \"d\", \"url\": \"https://x/y\"}]").is_none());
    assert!(parse_json_by_repo("[{\"type\": \"file\", \"name\": \"A.md\"}]").expect("groupable").is_empty());
}

#[test]
fn repo_files_keep_each_repository_once() {
    let mut files = RepoFiles::new();
    files.record_file("r".to_string(), "A.sol".to_string(), "a".to_string());
    files.record_file("s".to_string(), "B.sol".to_string(), "b".to_string());
    files.record_file("r".to_string(), "C.sol".to_string(), "c".to_string());
    files.record_file("r".to_string(), "D.sol".to_string(), "d".to_string());
    let groups = files.groups();
    assert_eq!(groups.len(), 2);
    assert_eq!(groups[0].0, "r");
    assert_eq!(groups[0].1, vec![("C.sol".to_string(), "c".to_string()), ("D.sol".to_string(), "d".to_string())]);
    assert_eq!(groups[1].0, "s");
    assert!(groups[1].1.is_empty());
}

#[test]
fn url_segments() {
    let u = "https://api.github.com/repos/code-423n4/repo/contents".to_string();
    assert_eq!(url_segment(&u, 5).as_deref(), Some("repo"));
    assert_eq!(url_segment(&u, 1).as_deref(), Some(""));
    assert!(url_segment(&u, 7).is_none());
}
