//! Where a downloaded contract is stored and compiled, and the bytecodes collected for
//! a repository's contracts.

use vstd::prelude::*;
use crate::text::{chars_of, concat_chars, last_segment, last_segment_chars, string_from_chars};

verus! {

/// The directory, relative to the working directory, that holds the local copies.
pub const CONTRACTS_DIR: &'static str = "./contracts/";

/// The same directory as the compiler's project sees it.
pub const COMPILE_DIR: &'static str = "contracts/";

/// The file name of the contract at a download URL: its last `/`-segment.
pub fn contract_file_name(url: &str) -> (name: String)
    ensures
        name@ == last_segment(url@, '/'),
{
    let seg = last_segment_chars(url, '/');
    string_from_chars(&seg)
}

/// `dir` followed by the file name of the contract at `url`.
fn path_in(dir: &str, url: &str) -> (path: String)
    ensures
        path@ == dir@ + last_segment(url@, '/'),
{
    let d = chars_of(dir);
    let seg = last_segment_chars(url, '/');
    let all = concat_chars(&d, &seg);
    string_from_chars(&all)
}

/// The path of the local copy of the contract at a download URL.
pub fn local_contract_path(url: &str) -> (path: String)
    ensures
        path@ == CONTRACTS_DIR@ + last_segment(url@, '/'),
{
    path_in(CONTRACTS_DIR, url)
}

/// The path under which the compiler's project compiles the contract at a download URL.
pub fn compile_target(url: &str) -> (path: String)
    ensures
        path@ == COMPILE_DIR@ + last_segment(url@, '/'),
{
    path_in(COMPILE_DIR, url)
}

/// For contracts at `urls` and the outcome of compiling each (its bytecode, or `None`
/// when it did not compile), the (file name, bytecode) pairs of those that compiled, in
/// order.
pub open spec fn bytecode_pairs(urls: Seq<Seq<char>>, outcomes: Seq<Option<Seq<char>>>) -> Seq<
    (Seq<char>, Seq<char>),
>
    decreases urls.len(),
{
    if urls.len() == 0 || outcomes.len() == 0 {
        Seq::empty()
    } else {
        let init = bytecode_pairs(urls.drop_last(), outcomes.drop_last());
        match outcomes.last() {
            Some(b) => init.push((last_segment(urls.last(), '/'), b)),
            None => init,
        }
    }
}

/// The (file name, bytecode) pairs of the contracts that compiled, as `bytecode_pairs`
/// states; `outcomes[i]` is the outcome of compiling the contract at `urls[i]`.
pub fn get_repo_bytecodes(urls: &Vec<String>, outcomes: &Vec<Option<String>>) -> (pairs: Vec<
    (String, String),
>)
    requires
        urls.len() == outcomes.len(),
    ensures
        pairs.deep_view() == bytecode_pairs(urls.deep_view(), outcomes.deep_view()),
{
    let mut pairs: Vec<(String, String)> = Vec::new();
    let mut i: usize = 0;
    while i < urls.len()
        invariant
            0 <= i <= urls.len(),
            urls.len() == outcomes.len(),
            pairs.deep_view() == bytecode_pairs(
                urls.deep_view().take(i as int),
                outcomes.deep_view().take(i as int),
            ),
        decreases urls.len() - i,
    {
        proof {
            assert(urls.deep_view().take(i + 1).drop_last() =~= urls.deep_view().take(i as int));
            assert(outcomes.deep_view().take(i + 1).drop_last() =~= outcomes.deep_view().take(
                i as int,
            ));
            assert(urls.deep_view().take(i + 1).last() == urls@[i as int]@);
            assert(outcomes.deep_view().take(i + 1).last() == outcomes@[i as int].deep_view());
        }
        match &outcomes[i] {
            Some(b) => {
                let name = contract_file_name(urls[i].as_str());
                let ghost before = pairs.deep_view();
                pairs.push((name, b.clone()));
                assert(pairs.deep_view() =~= before.push((name@, b@)));
            },
            None => {},
        }
        i += 1;
    }
    assert(urls.deep_view().take(urls.len() as int) =~= urls.deep_view());
    assert(outcomes.deep_view().take(urls.len() as int) =~= outcomes.deep_view());
    pairs
}

/// Only the contracts that compiled give a pair, so there are no more pairs than contracts.
pub proof fn lemma_bytecode_pairs_bounded(urls: Seq<Seq<char>>, outcomes: Seq<Option<Seq<char>>>)
    ensures
        bytecode_pairs(urls, outcomes).len() <= urls.len(),
    decreases urls.len(),
{
    if urls.len() > 0 && outcomes.len() > 0 {
        lemma_bytecode_pairs_bounded(urls.drop_last(), outcomes.drop_last());
    }
}

/// A contract that compiled adds, after the pairs of the contracts before it, exactly the
/// pair of its file name (the last `/`-segment of its URL) and its bytecode, whatever the
/// bytecode is.
pub proof fn lemma_compiled_contract_paired(
    urls: Seq<Seq<char>>,
    outcomes: Seq<Option<Seq<char>>>,
    url: Seq<char>,
    bytecode: Seq<char>,
)
    requires
        urls.len() == outcomes.len(),
    ensures
        bytecode_pairs(urls.push(url), outcomes.push(Some(bytecode))) == bytecode_pairs(
            urls,
            outcomes,
        ).push((last_segment(url, '/'), bytecode)),
{
    assert(urls.push(url).drop_last() =~= urls);
    assert(outcomes.push(Some(bytecode)).drop_last() =~= outcomes);
}

/// A contract that did not compile adds no pair.
pub proof fn lemma_failed_contract_skipped(
    urls: Seq<Seq<char>>,
    outcomes: Seq<Option<Seq<char>>>,
    url: Seq<char>,
)
    requires
        urls.len() == outcomes.len(),
    ensures
        bytecode_pairs(urls.push(url), outcomes.push(None)) == bytecode_pairs(urls, outcomes),
{
    assert(urls.push(url).drop_last() =~= urls);
    assert(outcomes.push(None::<Seq<char>>).drop_last() =~= outcomes);
}

/// There is one pair for each contract that compiled.
pub proof fn lemma_bytecode_pairs_count(urls: Seq<Seq<char>>, outcomes: Seq<Option<Seq<char>>>)
    requires
        urls.len() == outcomes.len(),
    ensures
        bytecode_pairs(urls, outcomes).len() == outcomes.filter(
            |o: Option<Seq<char>>| o is Some,
        ).len(),
    decreases urls.len(),
{
    reveal_with_fuel(Seq::<Option<Seq<char>>>::filter, 1);
    if urls.len() > 0 {
        lemma_bytecode_pairs_count(urls.drop_last(), outcomes.drop_last());
    } else {
        assert(outcomes =~= Seq::<Option<Seq<char>>>::empty());
    }
}

} // verus!
