//! Walking a repository's contents listing (the JSON array of the GitHub contents API):
//! which entries are Solidity contracts to fetch and which are directories to descend into.

use vstd::prelude::*;
use crate::text::{
    chars_of, ends_with_chars, ends_with_seq, lemma_chars_deep_view, split_chars, split_on,
    string_from_chars,
};

verus! {

/// The fields of a listing entry that the walk reads, each present when it is a JSON
/// string: `type`, `name`, `download_url` and `url`.
pub struct RepoEntry {
    pub kind: Option<String>,
    pub name: Option<String>,
    pub download_url: Option<String>,
    pub url: Option<String>,
}

/// A listing entry as a value.
pub struct EntryView {
    pub kind: Option<Seq<char>>,
    pub name: Option<Seq<char>>,
    pub download_url: Option<Seq<char>>,
    pub url: Option<Seq<char>>,
}

impl View for RepoEntry {
    type V = EntryView;

    open spec fn view(&self) -> EntryView {
        EntryView {
            kind: self.kind.deep_view(),
            name: self.name.deep_view(),
            download_url: self.download_url.deep_view(),
            url: self.url.deep_view(),
        }
    }
}

/// What the walk does with one listing entry.
pub enum ListingStep {
    /// Fetch the contract at this download URL.
    Contract(String),
    /// Walk the listing of the directory at this API URL.
    Descend(String),
}

/// A walk step as a value.
pub enum StepView {
    Contract(Seq<char>),
    Descend(Seq<char>),
}

impl View for ListingStep {
    type V = StepView;

    open spec fn view(&self) -> StepView {
        match self {
            ListingStep::Contract(u) => StepView::Contract(u@),
            ListingStep::Descend(u) => StepView::Descend(u@),
        }
    }
}

/// The entry type of a file.
pub open spec fn file_kind() -> Seq<char> {
    seq!['f', 'i', 'l', 'e']
}

/// The ending of a Solidity file name.
pub open spec fn sol_suffix() -> Seq<char> {
    seq!['.', 's', 'o', 'l']
}

/// The ending of a Solidity test file name.
pub open spec fn test_sol_suffix() -> Seq<char> {
    seq!['.', 't', '.', 's', 'o', 'l']
}

/// A contract file: a Solidity file that is not a test file.
pub open spec fn is_contract_name(name: Seq<char>) -> bool {
    ends_with_seq(name, sol_suffix()) && !ends_with_seq(name, test_sol_suffix())
}

/// The entries that the walk reads without missing a field: each has a type; a file has
/// a name, and a contract file a download URL; anything else has a URL.
pub open spec fn entry_walkable(e: EntryView) -> bool {
    match e.kind {
        None => false,
        Some(k) => if k == file_kind() {
            match e.name {
                None => false,
                Some(n) => is_contract_name(n) ==> e.download_url is Some,
            }
        } else {
            e.url is Some
        },
    }
}

/// The step for one entry: a contract file is fetched, any other file skipped, and
/// anything that is not a file descended into.
pub open spec fn entry_step(e: EntryView) -> Option<StepView> {
    if e.kind->0 == file_kind() {
        if is_contract_name(e.name->0) {
            Some(StepView::Contract(e.download_url->0))
        } else {
            None
        }
    } else {
        Some(StepView::Descend(e.url->0))
    }
}

/// The steps for a listing, in the order of its entries.
pub open spec fn walk_steps(entries: Seq<EntryView>) -> Seq<StepView>
    decreases entries.len(),
{
    if entries.len() == 0 {
        Seq::<StepView>::empty()
    } else {
        let init = walk_steps(entries.drop_last());
        match entry_step(entries.last()) {
            Some(s) => init.push(s),
            None => init,
        }
    }
}

/// Whether `s` holds the characters of `pat`.
fn str_is(s: &String, pat: &Vec<char>) -> (b: bool)
    ensures
        b == (s@ == pat@),
{
    let other = string_from_chars(pat);
    *s == other
}

/// `is_contract_name` on a string.
fn contract_name(name: &String) -> (b: bool)
    ensures
        b == is_contract_name(name@),
{
    let chars = crate::text::chars_of(name.as_str());
    let sol: Vec<char> = vec!['.', 's', 'o', 'l'];
    let test_sol: Vec<char> = vec!['.', 't', '.', 's', 'o', 'l'];
    assert(sol@ =~= sol_suffix());
    assert(test_sol@ =~= test_sol_suffix());
    ends_with_chars(chars.as_slice(), sol.as_slice()) && !ends_with_chars(
        chars.as_slice(),
        test_sol.as_slice(),
    )
}

/// Whether the walk reads `e` without missing a field, as `entry_walkable` states.
pub fn is_walkable(e: &RepoEntry) -> (b: bool)
    ensures
        b == entry_walkable(e@),
{
    let file: Vec<char> = vec!['f', 'i', 'l', 'e'];
    assert(file@ =~= file_kind());
    match &e.kind {
        None => false,
        Some(k) => {
            if str_is(k, &file) {
                match &e.name {
                    None => false,
                    Some(n) => !contract_name(n) || e.download_url.is_some(),
                }
            } else {
                e.url.is_some()
            }
        },
    }
}

/// The walk steps of a listing whose entries are all walkable, as `walk_steps` states.
pub fn plan_listing(entries: &Vec<RepoEntry>) -> (steps: Vec<ListingStep>)
    requires
        forall|i: int| 0 <= i < entries.len() ==> entry_walkable(#[trigger] entries@[i]@),
    ensures
        steps@.map_values(|s: ListingStep| s@) == walk_steps(entries@.map_values(|e: RepoEntry| e@)),
{
    let ghost views = entries@.map_values(|e: RepoEntry| e@);
    let file: Vec<char> = vec!['f', 'i', 'l', 'e'];
    assert(file@ =~= file_kind());
    let mut steps: Vec<ListingStep> = Vec::new();
    let mut i: usize = 0;
    while i < entries.len()
        invariant
            0 <= i <= entries.len(),
            views == entries@.map_values(|e: RepoEntry| e@),
            file@ == file_kind(),
            forall|j: int| 0 <= j < entries.len() ==> entry_walkable(#[trigger] entries@[j]@),
            steps@.map_values(|s: ListingStep| s@) == walk_steps(views.take(i as int)),
        decreases entries.len() - i,
    {
        let e = &entries[i];
        let ghost before = steps@.map_values(|s: ListingStep| s@);
        proof {
            assert(views.take(i + 1).drop_last() =~= views.take(i as int));
            assert(views.take(i + 1).last() == e@);
            assert(entry_walkable(entries@[i as int]@));
        }
        match &e.kind {
            Some(k) => {
                if str_is(k, &file) {
                    match &e.name {
                        Some(n) => {
                            if contract_name(n) {
                                match &e.download_url {
                                    Some(u) => {
                                        steps.push(ListingStep::Contract(u.clone()));
                                        assert(steps@.map_values(|s: ListingStep| s@) =~= before.push(
                                            StepView::Contract(u@),
                                        ));
                                    },
                                    None => {},
                                }
                            }
                        },
                        None => {},
                    }
                } else {
                    match &e.url {
                        Some(u) => {
                            steps.push(ListingStep::Descend(u.clone()));
                            assert(steps@.map_values(|s: ListingStep| s@) =~= before.push(
                                StepView::Descend(u@),
                            ));
                        },
                        None => {},
                    }
                }
            },
            None => {},
        }
        i += 1;
    }
    assert(views.take(entries.len() as int) =~= views);
    steps
}

/// What serde_json gives for `text` read as a JSON array (`None` when it is not valid JSON
/// or not an array): for each element, in order, and for each of `keys`, in order, the
/// element's field of that name when it is a JSON string.
pub uninterp spec fn json_array_string_fields(text: Seq<char>, keys: Seq<Seq<char>>) -> Option<
    Seq<Seq<Option<Seq<char>>>>,
>;

/// Trusted: `serde_json::from_str::<serde_json::Value>`, then `Value::as_array`, indexing an
/// element by each key (`Value::Null` when the field is missing) and `Value::as_str`. The
/// result is a function of the text and the keys alone; what it is on given values
/// (JSON's grammar) is left to serde_json and not stated.
#[verifier::external_body]
fn json_string_fields(text: &str, keys: &Vec<String>) -> (rows: Option<Vec<Vec<Option<String>>>>)
    ensures
        rows.deep_view() == json_array_string_fields(text@, keys.deep_view()),
{
    let value: serde_json::Value = serde_json::from_str(text).ok()?;
    let items = value.as_array()?;
    Some(
        items.iter().map(
            |item| keys.iter().map(|key| item[key.as_str()].as_str().map(|s| s.to_string())).collect(),
        ).collect(),
    )
}

/// The fields that the walk reads, in the order of `RepoEntry`.
pub open spec fn listing_keys() -> Seq<Seq<char>> {
    seq![
        seq!['t', 'y', 'p', 'e'],
        seq!['n', 'a', 'm', 'e'],
        seq!['d', 'o', 'w', 'n', 'l', 'o', 'a', 'd', '_', 'u', 'r', 'l'],
        seq!['u', 'r', 'l'],
    ]
}

/// `listing_keys` as strings.
fn listing_key_strings() -> (keys: Vec<String>)
    ensures
        keys.deep_view() == listing_keys(),
{
    let mut keys: Vec<String> = Vec::new();
    keys.push(string_from_chars(&vec!['t', 'y', 'p', 'e']));
    keys.push(string_from_chars(&vec!['n', 'a', 'm', 'e']));
    keys.push(
        string_from_chars(&vec!['d', 'o', 'w', 'n', 'l', 'o', 'a', 'd', '_', 'u', 'r', 'l']),
    );
    keys.push(string_from_chars(&vec!['u', 'r', 'l']));
    assert(keys.deep_view() =~= listing_keys());
    keys
}

/// The entry read from one row of fields (in the order of `listing_keys`).
pub open spec fn row_entry(row: Seq<Option<Seq<char>>>) -> EntryView {
    EntryView { kind: row[0], name: row[1], download_url: row[2], url: row[3] }
}

/// The entries read from rows of fields, when every row has one field per key.
pub open spec fn rows_entries(rows: Seq<Seq<Option<Seq<char>>>>) -> Option<Seq<EntryView>> {
    if forall|i: int| 0 <= i < rows.len() ==> (#[trigger] rows[i]).len() == 4 {
        Some(rows.map_values(|row: Seq<Option<Seq<char>>>| row_entry(row)))
    } else {
        None
    }
}

/// The entries of the listing `response`, when it is a JSON array.
pub open spec fn listing_entries(response: Seq<char>) -> Option<Seq<EntryView>> {
    match json_array_string_fields(response, listing_keys()) {
        Some(rows) => rows_entries(rows),
        None => None,
    }
}

/// The listings that the walk reads without missing a field.
pub open spec fn listing_walkable(response: Seq<char>) -> bool {
    &&& listing_entries(response) is Some
    &&& forall|i: int|
        0 <= i < listing_entries(response)->0.len() ==> entry_walkable(
            #[trigger] listing_entries(response)->0[i],
        )
}

/// A copy of an optional string.
fn copy_field(o: &Option<String>) -> (c: Option<String>)
    ensures
        c.deep_view() == o.deep_view(),
{
    match o {
        Some(s) => Some(s.clone()),
        None => None,
    }
}

/// The entries read from rows of fields, as `rows_entries` states.
pub fn entries_from_fields(rows: &Vec<Vec<Option<String>>>) -> (entries: Option<Vec<RepoEntry>>)
    ensures
        entries is Some <==> rows_entries(rows.deep_view()) is Some,
        entries matches Some(es) ==> es@.map_values(|e: RepoEntry| e@) == rows_entries(
            rows.deep_view(),
        )->0,
{
    let ghost rv = rows.deep_view();
    let mut entries: Vec<RepoEntry> = Vec::new();
    let mut i: usize = 0;
    while i < rows.len()
        invariant
            0 <= i <= rows.len(),
            rv == rows.deep_view(),
            forall|j: int| 0 <= j < i ==> (#[trigger] rv[j]).len() == 4,
            entries@.map_values(|e: RepoEntry| e@) == rv.take(i as int).map_values(
                |row: Seq<Option<Seq<char>>>| row_entry(row),
            ),
        decreases rows.len() - i,
    {
        let row = &rows[i];
        assert(rv[i as int] == row.deep_view());
        if row.len() != 4 {
            return None;
        }
        let e = RepoEntry {
            kind: copy_field(&row[0]),
            name: copy_field(&row[1]),
            download_url: copy_field(&row[2]),
            url: copy_field(&row[3]),
        };
        let ghost before = entries@.map_values(|e: RepoEntry| e@);
        entries.push(e);
        assert(e@ == row_entry(rv[i as int]));
        assert(entries@.map_values(|e: RepoEntry| e@) =~= before.push(e@));
        assert(rv.take(i + 1).map_values(|row: Seq<Option<Seq<char>>>| row_entry(row)) =~= rv.take(
            i as int,
        ).map_values(|row: Seq<Option<Seq<char>>>| row_entry(row)).push(row_entry(rv[i as int])));
        i += 1;
    }
    assert(rv.take(rows.len() as int) =~= rv);
    Some(entries)
}

/// The walk steps of the listing `response`: `None` when it is not a JSON array of
/// entries that the walk reads without missing a field; else the steps of `walk_steps`.
pub fn parse_json(response: &str) -> (steps: Option<Vec<ListingStep>>)
    ensures
        steps is Some <==> listing_walkable(response@),
        steps matches Some(s) ==> s@.map_values(|st: ListingStep| st@) == walk_steps(
            listing_entries(response@)->0,
        ),
{
    let keys = listing_key_strings();
    let rows = match json_string_fields(response, &keys) {
        Some(rows) => rows,
        None => {
            return None;
        },
    };
    let entries = match entries_from_fields(&rows) {
        Some(es) => es,
        None => {
            return None;
        },
    };
    let ghost views = entries@.map_values(|e: RepoEntry| e@);
    assert(views == listing_entries(response@)->0);
    let mut i: usize = 0;
    while i < entries.len()
        invariant
            0 <= i <= entries.len(),
            views == entries@.map_values(|e: RepoEntry| e@),
            views == listing_entries(response@)->0,
            listing_entries(response@) is Some,
            forall|j: int| 0 <= j < i ==> entry_walkable(#[trigger] entries@[j]@),
        decreases entries.len() - i,
    {
        if !is_walkable(&entries[i]) {
            assert(views[i as int] == entries@[i as int]@);
            assert(!entry_walkable(listing_entries(response@)->0[i as int]));
            return None;
        }
        i += 1;
    }
    assert forall|j: int| 0 <= j < views.len() implies entry_walkable(#[trigger] views[j]) by {
        assert(views[j] == entries@[j]@);
    }
    Some(plan_listing(&entries))
}

/// The walk fetches only contract files and descends only into entries that are not
/// files: each step comes from an entry of the listing, a fetch from a Solidity file that
/// is not a test file, with that entry's download URL; and there are no more steps than
/// entries.
pub proof fn lemma_walk_steps_sound(entries: Seq<EntryView>)
    requires
        forall|i: int| 0 <= i < entries.len() ==> entry_walkable(#[trigger] entries[i]),
    ensures
        walk_steps(entries).len() <= entries.len(),
        forall|k: int|
            0 <= k < walk_steps(entries).len() ==> match #[trigger] walk_steps(entries)[k] {
                StepView::Contract(u) => exists|i: int|
                    0 <= i < entries.len() && entries[i].kind == Some(file_kind())
                        && is_contract_name(entries[i].name->0) && entries[i].download_url
                        == Some(u),
                StepView::Descend(u) => exists|i: int|
                    0 <= i < entries.len() && entries[i].kind->0 != file_kind() && entries[i].url
                        == Some(u),
            },
    decreases entries.len(),
{
    if entries.len() > 0 {
        let init = entries.drop_last();
        assert forall|i: int| 0 <= i < init.len() implies entry_walkable(#[trigger] init[i]) by {
            assert(init[i] == entries[i]);
        }
        lemma_walk_steps_sound(init);
        let n = entries.len() - 1;
        assert(entry_walkable(entries[n]));
        let steps = walk_steps(entries);
        assert forall|k: int| 0 <= k < steps.len() implies match #[trigger] steps[k] {
            StepView::Contract(u) => exists|i: int|
                0 <= i < entries.len() && entries[i].kind == Some(file_kind())
                    && is_contract_name(entries[i].name->0) && entries[i].download_url == Some(u),
            StepView::Descend(u) => exists|i: int|
                0 <= i < entries.len() && entries[i].kind->0 != file_kind() && entries[i].url
                    == Some(u),
        } by {
            if k < walk_steps(init).len() {
                assert(steps[k] == walk_steps(init)[k]);
                match walk_steps(init)[k] {
                    StepView::Contract(u) => {
                        let i = choose|i: int|
                            0 <= i < init.len() && init[i].kind == Some(file_kind())
                                && is_contract_name(init[i].name->0) && init[i].download_url
                                == Some(u);
                        assert(entries[i] == init[i]);
                    },
                    StepView::Descend(u) => {
                        let i = choose|i: int|
                            0 <= i < init.len() && init[i].kind->0 != file_kind() && init[i].url
                                == Some(u);
                        assert(entries[i] == init[i]);
                    },
                }
            } else {
                assert(entries.last() == entries[n]);
            }
        }
    }
}

/// What the walk that groups files by repository does with one listing entry.
pub enum GroupingStep {
    /// Record this Solidity file of this repository.
    File { repo: String, name: String, download_url: String },
    /// Walk the listing of the directory at this API URL.
    Descend(String),
}

/// A grouping step as a value.
pub enum GroupingStepView {
    File { repo: Seq<char>, name: Seq<char>, download_url: Seq<char> },
    Descend(Seq<char>),
}

impl View for GroupingStep {
    type V = GroupingStepView;

    open spec fn view(&self) -> GroupingStepView {
        match self {
            GroupingStep::File { repo, name, download_url } => GroupingStepView::File {
                repo: repo@,
                name: name@,
                download_url: download_url@,
            },
            GroupingStep::Descend(u) => GroupingStepView::Descend(u@),
        }
    }
}

/// The position, among the `/`-segments of an entry's API URL, of the repository name
/// (`https:`, ``, the host, `repos`, the owner, the repository).
pub open spec fn repo_segment_index() -> int {
    5
}

/// The entries that the grouping walk reads without missing a field: each has a type;
/// a file has a name, and a Solidity file a download URL and an API URL with a
/// repository segment; anything else has a URL.
pub open spec fn entry_groupable(e: EntryView) -> bool {
    match e.kind {
        None => false,
        Some(k) => if k == file_kind() {
            match e.name {
                None => false,
                Some(n) => ends_with_seq(n, sol_suffix()) ==> {
                    &&& e.download_url is Some
                    &&& e.url matches Some(u) && split_on(u, '/').len() > repo_segment_index()
                },
            }
        } else {
            e.url is Some
        },
    }
}

/// The grouping step for one entry: a Solidity file (test files included) is recorded
/// under the repository named in its API URL, any other file skipped, and anything that
/// is not a file descended into.
pub open spec fn entry_grouping_step(e: EntryView) -> Option<GroupingStepView> {
    if e.kind->0 == file_kind() {
        if ends_with_seq(e.name->0, sol_suffix()) {
            Some(
                GroupingStepView::File {
                    repo: split_on(e.url->0, '/')[repo_segment_index()],
                    name: e.name->0,
                    download_url: e.download_url->0,
                },
            )
        } else {
            None
        }
    } else {
        Some(GroupingStepView::Descend(e.url->0))
    }
}

/// The grouping steps for a listing, in the order of its entries.
pub open spec fn grouping_steps(entries: Seq<EntryView>) -> Seq<GroupingStepView>
    decreases entries.len(),
{
    if entries.len() == 0 {
        Seq::<GroupingStepView>::empty()
    } else {
        let init = grouping_steps(entries.drop_last());
        match entry_grouping_step(entries.last()) {
            Some(s) => init.push(s),
            None => init,
        }
    }
}

/// `name` is a Solidity file name.
fn sol_name(name: &String) -> (b: bool)
    ensures
        b == ends_with_seq(name@, sol_suffix()),
{
    let chars = chars_of(name.as_str());
    let sol: Vec<char> = vec!['.', 's', 'o', 'l'];
    assert(sol@ =~= sol_suffix());
    ends_with_chars(chars.as_slice(), sol.as_slice())
}

/// The `k`-th `/`-segment of `url`, when there is one.
pub fn url_segment(url: &String, k: usize) -> (seg: Option<String>)
    ensures
        seg is Some <==> k < split_on(url@, '/').len(),
        seg matches Some(s) ==> s@ == split_on(url@, '/')[k as int],
{
    let chars = chars_of(url.as_str());
    let parts = split_chars(&chars, '/');
    if k < parts.len() {
        proof {
            lemma_chars_deep_view(&parts[k as int]);
            assert(parts.deep_view()[k as int] == parts[k as int]@);
        }
        Some(string_from_chars(&parts[k]))
    } else {
        None
    }
}

/// Whether the grouping walk reads `e` without missing a field, as `entry_groupable` states.
pub fn is_groupable(e: &RepoEntry) -> (b: bool)
    ensures
        b == entry_groupable(e@),
{
    let file: Vec<char> = vec!['f', 'i', 'l', 'e'];
    assert(file@ =~= file_kind());
    match &e.kind {
        None => false,
        Some(k) => {
            if str_is(k, &file) {
                match &e.name {
                    None => false,
                    Some(n) => {
                        if !sol_name(n) {
                            true
                        } else {
                            match &e.url {
                                None => false,
                                Some(u) => e.download_url.is_some() && url_segment(u, 5).is_some(),
                            }
                        }
                    },
                }
            } else {
                e.url.is_some()
            }
        },
    }
}

/// The grouping steps of a listing whose entries are all groupable, as `grouping_steps` states.
pub fn plan_grouping(entries: &Vec<RepoEntry>) -> (steps: Vec<GroupingStep>)
    requires
        forall|i: int| 0 <= i < entries.len() ==> entry_groupable(#[trigger] entries@[i]@),
    ensures
        steps@.map_values(|s: GroupingStep| s@) == grouping_steps(
            entries@.map_values(|e: RepoEntry| e@),
        ),
{
    let ghost views = entries@.map_values(|e: RepoEntry| e@);
    let file: Vec<char> = vec!['f', 'i', 'l', 'e'];
    assert(file@ =~= file_kind());
    let mut steps: Vec<GroupingStep> = Vec::new();
    let mut i: usize = 0;
    while i < entries.len()
        invariant
            0 <= i <= entries.len(),
            views == entries@.map_values(|e: RepoEntry| e@),
            file@ == file_kind(),
            forall|j: int| 0 <= j < entries.len() ==> entry_groupable(#[trigger] entries@[j]@),
            steps@.map_values(|s: GroupingStep| s@) == grouping_steps(views.take(i as int)),
        decreases entries.len() - i,
    {
        let e = &entries[i];
        let ghost before = steps@.map_values(|s: GroupingStep| s@);
        proof {
            assert(views.take(i + 1).drop_last() =~= views.take(i as int));
            assert(views.take(i + 1).last() == e@);
            assert(entry_groupable(entries@[i as int]@));
        }
        match &e.kind {
            Some(k) => {
                if str_is(k, &file) {
                    match &e.name {
                        Some(n) => {
                            if sol_name(n) {
                                match (&e.url, &e.download_url) {
                                    (Some(u), Some(d)) => {
                                        match url_segment(u, 5) {
                                            Some(repo) => {
                                                let step = GroupingStep::File {
                                                    repo,
                                                    name: n.clone(),
                                                    download_url: d.clone(),
                                                };
                                                let ghost sv = step@;
                                                steps.push(step);
                                                assert(steps@.map_values(|s: GroupingStep| s@)
                                                    =~= before.push(sv));
                                            },
                                            None => {},
                                        }
                                    },
                                    _ => {},
                                }
                            }
                        },
                        None => {},
                    }
                } else {
                    match &e.url {
                        Some(u) => {
                            steps.push(GroupingStep::Descend(u.clone()));
                            assert(steps@.map_values(|s: GroupingStep| s@) =~= before.push(
                                GroupingStepView::Descend(u@),
                            ));
                        },
                        None => {},
                    }
                }
            },
            None => {},
        }
        i += 1;
    }
    assert(views.take(entries.len() as int) =~= views);
    steps
}

/// The listings that the grouping walk reads without missing a field.
pub open spec fn listing_groupable(response: Seq<char>) -> bool {
    &&& listing_entries(response) is Some
    &&& forall|i: int|
        0 <= i < listing_entries(response)->0.len() ==> entry_groupable(
            #[trigger] listing_entries(response)->0[i],
        )
}

/// The grouping steps of the listing `response`: `None` when it is not a JSON array of
/// entries that the grouping walk reads without missing a field; else the steps of
/// `grouping_steps`.
pub fn parse_json_by_repo(response: &str) -> (steps: Option<Vec<GroupingStep>>)
    ensures
        steps is Some <==> listing_groupable(response@),
        steps matches Some(s) ==> s@.map_values(|st: GroupingStep| st@) == grouping_steps(
            listing_entries(response@)->0,
        ),
{
    let keys = listing_key_strings();
    let rows = match json_string_fields(response, &keys) {
        Some(rows) => rows,
        None => {
            return None;
        },
    };
    let entries = match entries_from_fields(&rows) {
        Some(es) => es,
        None => {
            return None;
        },
    };
    let ghost views = entries@.map_values(|e: RepoEntry| e@);
    assert(views == listing_entries(response@)->0);
    let mut i: usize = 0;
    while i < entries.len()
        invariant
            0 <= i <= entries.len(),
            views == entries@.map_values(|e: RepoEntry| e@),
            views == listing_entries(response@)->0,
            listing_entries(response@) is Some,
            forall|j: int| 0 <= j < i ==> entry_groupable(#[trigger] entries@[j]@),
        decreases entries.len() - i,
    {
        if !is_groupable(&entries[i]) {
            assert(views[i as int] == entries@[i as int]@);
            assert(!entry_groupable(listing_entries(response@)->0[i as int]));
            return None;
        }
        i += 1;
    }
    assert forall|j: int| 0 <= j < views.len() implies entry_groupable(#[trigger] views[j]) by {
        assert(views[j] == entries@[j]@);
    }
    Some(plan_grouping(&entries))
}

/// An entry of type `file` whose name ends with `.sol` but not with `.t.sol` adds to the
/// walk, after the steps of the entries before it, one step: fetching its download URL.
pub proof fn lemma_walk_fetches_contract(entries: Seq<EntryView>, e: EntryView, u: Seq<char>)
    requires
        e.kind == Some(seq!['f', 'i', 'l', 'e']),
        e.name is Some,
        ends_with_seq(e.name->0, seq!['.', 's', 'o', 'l']),
        !ends_with_seq(e.name->0, seq!['.', 't', '.', 's', 'o', 'l']),
        e.download_url == Some(u),
    ensures
        walk_steps(entries.push(e)) == walk_steps(entries).push(StepView::Contract(u)),
{
    assert(entries.push(e).drop_last() =~= entries);
}

/// An entry of type `file` whose name does not end with `.sol`, or ends with `.t.sol`,
/// adds no step to the walk.
pub proof fn lemma_walk_skips_other_files(entries: Seq<EntryView>, e: EntryView)
    requires
        e.kind == Some(seq!['f', 'i', 'l', 'e']),
        e.name is Some,
        !ends_with_seq(e.name->0, seq!['.', 's', 'o', 'l']) || ends_with_seq(
            e.name->0,
            seq!['.', 't', '.', 's', 'o', 'l'],
        ),
    ensures
        walk_steps(entries.push(e)) == walk_steps(entries),
{
    assert(entries.push(e).drop_last() =~= entries);
}

/// An entry whose type is not `file` adds, after the steps of the entries before it, one
/// step: walking the listing at its URL.
pub proof fn lemma_walk_descends(entries: Seq<EntryView>, e: EntryView, u: Seq<char>)
    requires
        e.kind is Some,
        e.kind->0 != seq!['f', 'i', 'l', 'e'],
        e.url == Some(u),
    ensures
        walk_steps(entries.push(e)) == walk_steps(entries).push(StepView::Descend(u)),
{
    assert(entries.push(e).drop_last() =~= entries);
}

/// The walk of a listing is the walk of its first part followed by that of the rest: the
/// steps follow the order of the entries.
pub proof fn lemma_walk_concat(a: Seq<EntryView>, b: Seq<EntryView>)
    ensures
        walk_steps(a + b) == walk_steps(a) + walk_steps(b),
    decreases b.len(),
{
    if b.len() == 0 {
        assert(a + b =~= a);
        assert(walk_steps(a) + walk_steps(b) =~= walk_steps(a));
    } else {
        lemma_walk_concat(a, b.drop_last());
        assert((a + b).drop_last() =~= a + b.drop_last());
        assert((a + b).last() == b.last());
        match entry_step(b.last()) {
            Some(s) => {
                assert((walk_steps(a) + walk_steps(b.drop_last())).push(s) =~= walk_steps(a) + walk_steps(
                    b.drop_last(),
                ).push(s));
            },
            None => {},
        }
    }
}

/// An entry of type `file` whose name ends with `.sol` (test files too), with a download
/// URL and an API URL, adds to the grouping walk, after the steps of the entries before
/// it, one step: recording the file under the sixth `/`-segment of its API URL.
pub proof fn lemma_grouping_records_file(
    entries: Seq<EntryView>,
    e: EntryView,
    n: Seq<char>,
    d: Seq<char>,
    u: Seq<char>,
)
    requires
        e.kind == Some(seq!['f', 'i', 'l', 'e']),
        e.name == Some(n),
        ends_with_seq(n, seq!['.', 's', 'o', 'l']),
        e.download_url == Some(d),
        e.url == Some(u),
    ensures
        grouping_steps(entries.push(e)) == grouping_steps(entries).push(
            GroupingStepView::File { repo: split_on(u, '/')[5], name: n, download_url: d },
        ),
{
    assert(entries.push(e).drop_last() =~= entries);
}

/// An entry of type `file` whose name does not end with `.sol` adds no grouping step.
pub proof fn lemma_grouping_skips_other_files(entries: Seq<EntryView>, e: EntryView)
    requires
        e.kind == Some(seq!['f', 'i', 'l', 'e']),
        e.name is Some,
        !ends_with_seq(e.name->0, seq!['.', 's', 'o', 'l']),
    ensures
        grouping_steps(entries.push(e)) == grouping_steps(entries),
{
    assert(entries.push(e).drop_last() =~= entries);
}

/// An entry whose type is not `file` adds, after the grouping steps of the entries before
/// it, one step: walking the listing at its URL.
pub proof fn lemma_grouping_descends(entries: Seq<EntryView>, e: EntryView, u: Seq<char>)
    requires
        e.kind is Some,
        e.kind->0 != seq!['f', 'i', 'l', 'e'],
        e.url == Some(u),
    ensures
        grouping_steps(entries.push(e)) == grouping_steps(entries).push(
            GroupingStepView::Descend(u),
        ),
{
    assert(entries.push(e).drop_last() =~= entries);
}

/// The grouping walk of a listing is that of its first part followed by that of the
/// rest: the steps follow the order of the entries.
pub proof fn lemma_grouping_concat(a: Seq<EntryView>, b: Seq<EntryView>)
    ensures
        grouping_steps(a + b) == grouping_steps(a) + grouping_steps(b),
    decreases b.len(),
{
    if b.len() == 0 {
        assert(a + b =~= a);
        assert(grouping_steps(a) + grouping_steps(b) =~= grouping_steps(a));
    } else {
        lemma_grouping_concat(a, b.drop_last());
        assert((a + b).drop_last() =~= a + b.drop_last());
        assert((a + b).last() == b.last());
        match entry_grouping_step(b.last()) {
            Some(s) => {
                assert((grouping_steps(a) + grouping_steps(b.drop_last())).push(s) =~= grouping_steps(
                    a,
                ) + grouping_steps(b.drop_last()).push(s));
            },
            None => {},
        }
    }
}

} // verus!
