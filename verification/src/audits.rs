//! The audit competitions listed on the contests page: their repository links and the
//! API URL of each repository's contents.

use vstd::prelude::*;
use crate::text::{
    chars_of, concat_chars, last_segment, last_segment_chars, lemma_split_nonempty,
    lemma_split_pieces_free_of, string_from_chars,
};

verus! {

/// The CSS selector of the links to the audit competitions' repositories.
pub const AUDIT_LINK_SELECTOR: &'static str = "a[aria-label=\"Go to audit competition repo (Opens in a new window)\"]";

/// The attribute of such a link that holds the repository's address.
pub const LINK_ATTRIBUTE: &'static str = "href";

/// The API address under which the competitions' repositories are listed.
pub const GITHUB_API_URL: &'static str = "https://api.github.com/repos/code-423n4/";

/// What scraper gives for `html` parsed as a document and `selector` parsed as a CSS
/// selector (`None` when the selector does not parse): for each element that the selector
/// matches, in the order in which scraper visits them, its attribute `attr` if present.
pub uninterp spec fn html_select_attr(html: Seq<char>, selector: Seq<char>, attr: Seq<char>) -> Option<
    Seq<Option<Seq<char>>>,
>;

/// Trusted: `scraper::Selector::parse`, `scraper::Html::parse_document`, `Html::select` and
/// `Element::attr`. The result is a function of the three texts alone; HTML parsing and
/// selector matching are left to scraper and not stated.
#[verifier::external_body]
fn select_attribute(html: &str, selector: &str, attr: &str) -> (values: Option<Vec<Option<String>>>)
    ensures
        values.deep_view() == html_select_attr(html@, selector@, attr@),
{
    let selector = scraper::Selector::parse(selector).ok()?;
    let document = scraper::Html::parse_document(html);
    Some(document.select(&selector).map(|e| e.value().attr(attr).map(|v| v.to_string())).collect())
}

/// All values are present.
pub open spec fn all_present(values: Seq<Option<Seq<char>>>) -> bool {
    forall|i: int| 0 <= i < values.len() ==> (#[trigger] values[i]) is Some
}

/// The present values, in order.
pub open spec fn present_values(values: Seq<Option<Seq<char>>>) -> Seq<Seq<char>> {
    values.map_values(|v: Option<Seq<char>>| v->0)
}

/// Appends the link values to `audits`, in order.
pub fn push_links(values: &Vec<Option<String>>, audits: &mut Vec<String>)
    requires
        all_present(values.deep_view()),
    ensures
        final(audits).deep_view() == old(audits).deep_view() + present_values(values.deep_view()),
{
    let ghost start = audits.deep_view();
    let mut i: usize = 0;
    while i < values.len()
        invariant
            0 <= i <= values.len(),
            all_present(values.deep_view()),
            audits.deep_view() == start + present_values(values.deep_view().take(i as int)),
        decreases values.len() - i,
    {
        assert(values.deep_view()[i as int] is Some);
        match &values[i] {
            Some(v) => {
                let ghost before = audits.deep_view();
                audits.push(v.clone());
                assert(audits.deep_view() =~= before.push(v@));
            },
            None => {},
        }
        assert(present_values(values.deep_view().take(i + 1)) =~= present_values(
            values.deep_view().take(i as int),
        ).push(values.deep_view()[i as int]->0));
        i += 1;
    }
    assert(values.deep_view().take(values.len() as int) =~= values.deep_view());
}

/// The audit links of the contests page `raw_html` (its links to the competitions'
/// repositories), appended to `audits`. Returns false, leaving `audits` as it was, when
/// the selector does not parse or a matched link has no address.
pub fn get_audit_links(raw_html: &str, audits: &mut Vec<String>) -> (ok: bool)
    ensures
        ok <==> (html_select_attr(raw_html@, AUDIT_LINK_SELECTOR@, LINK_ATTRIBUTE@) matches Some(
            values,
        ) && all_present(values)),
        ok ==> final(audits).deep_view() == old(audits).deep_view() + present_values(
            html_select_attr(raw_html@, AUDIT_LINK_SELECTOR@, LINK_ATTRIBUTE@)->0,
        ),
        !ok ==> *final(audits) == *old(audits),
{
    let ghost found = html_select_attr(raw_html@, AUDIT_LINK_SELECTOR@, LINK_ATTRIBUTE@);
    let selected = select_attribute(raw_html, AUDIT_LINK_SELECTOR, LINK_ATTRIBUTE);
    let values = match selected {
        Some(v) => v,
        None => {
            return false;
        },
    };
    assert(found == Some(values.deep_view()));
    let mut i: usize = 0;
    while i < values.len()
        invariant
            0 <= i <= values.len(),
            found == Some(values.deep_view()),
            found == html_select_attr(raw_html@, AUDIT_LINK_SELECTOR@, LINK_ATTRIBUTE@),
            forall|j: int| 0 <= j < i ==> (#[trigger] values.deep_view()[j]) is Some,
        decreases values.len() - i,
    {
        if values[i].is_none() {
            assert(values.deep_view()[i as int] is None);
            assert(!all_present(values.deep_view()));
            return false;
        }
        i += 1;
    }
    push_links(&values, audits);
    true
}

/// The repository named by an audit link: its last `/`-segment.
pub fn repo_name(audit_link: &str) -> (name: String)
    ensures
        name@ == last_segment(audit_link@, '/'),
{
    let seg = last_segment_chars(audit_link, '/');
    string_from_chars(&seg)
}

/// The API URL of the contents of the repository named by an audit link:
/// `GITHUB_API_URL`, the repository name, `/contents`.
pub fn contents_url(audit_link: &str) -> (url: String)
    ensures
        url@ == GITHUB_API_URL@ + last_segment(audit_link@, '/') + "/contents"@,
{
    let base = chars_of(GITHUB_API_URL);
    let seg = last_segment_chars(audit_link, '/');
    let tail = chars_of("/contents");
    let head = concat_chars(&base, &seg);
    let all = concat_chars(&head, &tail);
    string_from_chars(&all)
}

/// The repository name taken from an audit link holds no `/`, so the contents URL names
/// exactly one repository under `GITHUB_API_URL`.
pub proof fn lemma_repo_name_single_segment(audit_link: Seq<char>)
    ensures
        forall|j: int|
            0 <= j < last_segment(audit_link, '/').len() ==> #[trigger] last_segment(
                audit_link,
                '/',
            )[j] != '/',
{
    lemma_split_nonempty(audit_link, '/');
    lemma_split_pieces_free_of(audit_link, '/');
}

} // verus!
