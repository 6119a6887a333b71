//! Rewriting the import statements of a downloaded Solidity file so that relative
//! imports point into the parent directory, where the imported files are stored too.

use vstd::prelude::*;
use vstd::utf8::encode_utf8;
use crate::text::{
    lemma_join_split, lemma_occurs_within, lemma_split_around, lemma_split_free,
    lemma_split_join, lemma_split_pieces_free_of, lemma_split_first_is_prefix, lemma_split_pieces_occur,
    occurs_at, occurs_in, chars_of, concat_chars, contains_chars, contains_seq, ends_with_chars, ends_with_seq, join_chars,
    join_with, lemma_chars_deep_view, lemma_split_nonempty, matches_at, split_chars, split_on,
    string_from_chars, strings_from_lines, trim, trim_chars,
};

verus! {

/// The word that starts an import statement.
pub open spec fn import_word() -> Seq<char> {
    seq!['i', 'm', 'p', 'o', 'r', 't']
}

/// `import_word` as a vector.
pub fn import_keyword() -> (v: Vec<char>)
    ensures
        v@ == import_word(),
{
    vec!['i', 'm', 'p', 'o', 'r', 't']
}

/// The number of bytes of `c` in UTF-8.
pub open spec fn utf8_width(c: char) -> int {
    let u = c as u32;
    if u < 0x80 {
        1
    } else if u < 0x800 {
        2
    } else if u < 0x10000 {
        3
    } else {
        4
    }
}

/// The last piece of a split.
pub open spec fn last_piece(parts: Seq<Seq<char>>) -> Seq<char> {
    parts[parts.len() - 1]
}

/// The inputs on which `get_new_import_line` is defined: the text has at least two
/// characters and its last two are ASCII, so that the byte before the last one is a
/// character of its own.
pub open spec fn import_target_ok(f: Seq<char>) -> bool {
    &&& f.len() >= 2
    &&& (f[f.len() - 1] as u32) < 0x80
    &&& (f[f.len() - 2] as u32) < 0x80
}

/// The end of an import line that refers to `f` in the parent directory: a space, the
/// quote that closes `f` (its last-but-one character, a double quote, or else a single
/// quote), `../` and `f` itself.
pub open spec fn parent_import(f: Seq<char>) -> Seq<char> {
    (if f[f.len() - 2] == '"' {
        seq![' ', '"', '.', '.', '/']
    } else {
        seq![' ', '\'', '.', '.', '/']
    }) + f
}

/// `parent_import` on character vectors.
fn parent_import_chars(f: &Vec<char>) -> (line: Vec<char>)
    requires
        import_target_ok(f@),
    ensures
        line@ == parent_import(f@),
{
    let prefix: Vec<char> = if f[f.len() - 2] == '"' {
        vec![' ', '"', '.', '.', '/']
    } else {
        vec![' ', '\'', '.', '.', '/']
    };
    concat_chars(&prefix, f)
}

/// The end of an import line for the imported file name `file_name` (the last path
/// segment of the import, closing quote and `;` included), pointing into the parent
/// directory: ` "../` or ` '../`, by the file name's closing quote, then the file name.
pub fn get_new_import_line(file_name: String) -> (line: String)
    requires
        import_target_ok(file_name@),
    ensures
        line@ == parent_import(file_name@),
{
    let f = chars_of(file_name.as_str());
    let line = parent_import_chars(&f);
    string_from_chars(&line)
}

/// The file name that an import statement, split into words, refers to: the last
/// `/`-segment of its last word.
pub open spec fn import_file_name(words: Seq<Seq<char>>) -> Seq<char> {
    last_piece(split_on(last_piece(words), '/'))
}

/// An import of a package (its path starts with a segment holding `@`), which is left
/// as it stands.
pub open spec fn is_package_import(words: Seq<Seq<char>>) -> bool {
    contains_seq(split_on(last_piece(words), '/')[0], seq!['@'])
}

/// An import statement, split into words, with its path replaced by the imported file
/// in the parent directory.
pub open spec fn relocated_import(words: Seq<Seq<char>>) -> Seq<char> {
    join_with(words.drop_last(), ' ') + parent_import(import_file_name(words))
}

/// A line that opens an import statement spread over several lines.
pub open spec fn opens_import_block(line: Seq<char>) -> bool {
    contains_seq(line, import_word()) && ends_with_seq(line, seq!['{'])
}

/// One line of the rewriting. `pending` is the import statement gathered so far from
/// earlier lines (empty when none is open). Gives the new pending statement and the
/// line to write, if any.
pub open spec fn rewrite_step(pending: Seq<char>, line: Seq<char>) -> (Seq<char>, Option<Seq<char>>) {
    if opens_import_block(line) {
        (pending + trim(line).push(' '), None)
    } else if pending.len() != 0 {
        let gathered = pending + trim(line).push(' ');
        if ends_with_seq(line, seq![';']) {
            let statement = trim(gathered);
            let words = split_on(statement, ' ');
            if !is_package_import(words) {
                (Seq::<char>::empty(), Some(relocated_import(words)))
            } else {
                (Seq::<char>::empty(), Some(statement))
            }
        } else {
            (gathered, None)
        }
    } else {
        let words = split_on(line, ' ');
        if words[0] == import_word() && !is_package_import(words) {
            (pending, Some(relocated_import(words)))
        } else {
            (pending, Some(line))
        }
    }
}

/// The lines on which `rewrite_step` is defined: a relative import that it rewrites
/// refers to a file name on which `get_new_import_line` is defined.
pub open spec fn rewrite_step_ok(pending: Seq<char>, line: Seq<char>) -> bool {
    if opens_import_block(line) {
        true
    } else if pending.len() != 0 {
        let statement = trim(pending + trim(line).push(' '));
        let words = split_on(statement, ' ');
        ends_with_seq(line, seq![';']) && !is_package_import(words) ==> import_target_ok(
            import_file_name(words),
        )
    } else {
        let words = split_on(line, ' ');
        words[0] == import_word() && !is_package_import(words) ==> import_target_ok(
            import_file_name(words),
        )
    }
}

/// The rewriting of `lines` in order: whether every step is defined, the statement
/// still pending at the end, and the lines written.
pub open spec fn rewrite_run(lines: Seq<Seq<char>>) -> (bool, Seq<char>, Seq<Seq<char>>)
    decreases lines.len(),
{
    if lines.len() == 0 {
        (true, Seq::<char>::empty(), Seq::<Seq<char>>::empty())
    } else {
        let (ok, pending, out) = rewrite_run(lines.drop_last());
        let (next, written) = rewrite_step(pending, lines.last());
        (
            ok && rewrite_step_ok(pending, lines.last()),
            next,
            match written {
                Some(l) => out.push(l),
                None => out,
            },
        )
    }
}

/// The sources whose rewriting is defined.
pub open spec fn rewritable(source: Seq<char>) -> bool {
    rewrite_run(split_on(source, '\n')).0
}

/// The lines written for `source`, which is taken line by line (split at `\n`).
pub open spec fn rewritten(source: Seq<char>) -> Seq<Seq<char>> {
    rewrite_run(split_on(source, '\n')).2
}

/// Whether the statement split into `words` imports a package.
fn package_import(words: &Vec<Vec<char>>) -> (b: bool)
    requires
        words.len() >= 1,
    ensures
        b == is_package_import(words.deep_view()),
{
    let last = &words[words.len() - 1];
    proof {
        lemma_chars_deep_view(last);
    }
    let path = split_chars(last, '/');
    proof {
        lemma_split_nonempty(last@, '/');
        lemma_chars_deep_view(&path[0]);
        assert(words.deep_view()[words.len() - 1] == last@);
        assert(path.deep_view()[0] == path[0]@);
    }
    let at: Vec<char> = vec!['@'];
    assert(at@ =~= seq!['@']);
    contains_chars(path[0].as_slice(), at.as_slice())
}

/// `relocated_import`, or `None` where `get_new_import_line` is not defined on its file name.
fn relocate(words: &Vec<Vec<char>>) -> (line: Option<Vec<char>>)
    requires
        words.len() >= 1,
    ensures
        line is Some <==> import_target_ok(import_file_name(words.deep_view())),
        line matches Some(l) ==> l@ == relocated_import(words.deep_view()),
{
    let last = &words[words.len() - 1];
    proof {
        lemma_chars_deep_view(last);
    }
    let path = split_chars(last, '/');
    proof {
        lemma_split_nonempty(last@, '/');
    }
    let file_name = &path[path.len() - 1];
    proof {
        lemma_chars_deep_view(file_name);
        assert(words.deep_view()[words.len() - 1] == last@);
        assert(path.deep_view()[path.len() - 1] == file_name@);
    }
    let n = file_name.len();
    if n < 2 || (file_name[n - 1] as u32) >= 0x80 || (file_name[n - 2] as u32) >= 0x80 {
        return None;
    }
    let head = join_chars(words, words.len() - 1, ' ');
    let tail = parent_import_chars(file_name);
    proof {
        assert(words.deep_view().take(words.len() - 1) =~= words.deep_view().drop_last());
    }
    Some(concat_chars(&head, &tail))
}

/// One step of the rewriting, as `rewrite_step` states; `Err` exactly where the step is
/// not defined (then `pending` is left in no stated form).
fn rewrite_line(pending: &mut Vec<char>, line: &Vec<char>) -> (res: Result<Option<Vec<char>>, ()>)
    ensures
        res is Ok <==> rewrite_step_ok(old(pending)@, line@),
        res matches Ok(written) ==> {
            &&& final(pending)@ == rewrite_step(old(pending)@, line@).0
            &&& written.deep_view() == rewrite_step(old(pending)@, line@).1
        },
{
    let import = import_keyword();
    let brace: Vec<char> = vec!['{'];
    let semicolon: Vec<char> = vec![';'];
    assert(brace@ =~= seq!['{']);
    assert(semicolon@ =~= seq![';']);
    if contains_chars(line.as_slice(), import.as_slice()) && ends_with_chars(
        line.as_slice(),
        brace.as_slice(),
    ) {
        let t = trim_chars(line.as_slice());
        let mut next = concat_chars(pending, &t);
        next.push(' ');
        assert(next@ =~= old(pending)@ + t@.push(' '));
        *pending = next;
        return Ok(None);
    }
    if pending.len() != 0 {
        let t = trim_chars(line.as_slice());
        let mut gathered = concat_chars(pending, &t);
        gathered.push(' ');
        assert(gathered@ =~= old(pending)@ + t@.push(' '));
        if ends_with_chars(line.as_slice(), semicolon.as_slice()) {
            let statement = trim_chars(gathered.as_slice());
            let words = split_chars(&statement, ' ');
            proof {
                lemma_split_nonempty(statement@, ' ');
            }
            *pending = Vec::new();
            if !package_import(&words) {
                match relocate(&words) {
                    Some(l) => {
                        proof {
                            lemma_chars_deep_view(&l);
                        }
                        return Ok(Some(l));
                    },
                    None => {
                        return Err(());
                    },
                }
            } else {
                proof {
                    lemma_chars_deep_view(&statement);
                }
                return Ok(Some(statement));
            }
        } else {
            *pending = gathered;
            return Ok(None);
        }
    }
    let words = split_chars(line, ' ');
    proof {
        lemma_split_nonempty(line@, ' ');
        lemma_chars_deep_view(&words[0]);
    }
    let first_is_import = words[0].len() == import.len() && matches_at(
        words[0].as_slice(),
        import.as_slice(),
        0,
    );
    proof {
        if first_is_import {
            assert(words[0]@.subrange(0, import@.len() as int) =~= words[0]@);
        } else if words[0]@.len() == import@.len() {
            assert(words[0]@.subrange(0, import@.len() as int) =~= words[0]@);
        }
    }
    if first_is_import && !package_import(&words) {
        match relocate(&words) {
            Some(l) => {
                proof {
                    lemma_chars_deep_view(&l);
                }
                Ok(Some(l))
            },
            None => Err(()),
        }
    } else {
        proof {
            lemma_chars_deep_view(line);
        }
        Ok(Some(line.clone()))
    }
}

/// A run that is defined on all its lines is defined on each prefix of them.
pub proof fn lemma_run_ok_prefix(lines: Seq<Seq<char>>, k: int)
    requires
        0 <= k <= lines.len(),
        rewrite_run(lines).0,
    ensures
        rewrite_run(lines.take(k)).0,
    decreases lines.len(),
{
    if k < lines.len() {
        lemma_run_ok_prefix(lines.drop_last(), k);
        assert(lines.drop_last().take(k) =~= lines.take(k));
    } else {
        assert(lines.take(k) =~= lines);
    }
}

/// The rewriting of `source`, or `None` where it is not defined.
fn rewrite_source(source: &str) -> (out: Option<Vec<Vec<char>>>)
    ensures
        out is Some <==> rewritable(source@),
        out matches Some(o) ==> o.deep_view() == rewritten(source@),
{
    let chars = chars_of(source);
    let lines = split_chars(&chars, '\n');
    let mut pending: Vec<char> = Vec::new();
    let mut out: Vec<Vec<char>> = Vec::new();
    let mut i: usize = 0;
    assert(lines.deep_view().take(0) =~= Seq::<Seq<char>>::empty());
    assert(out.deep_view() =~= Seq::<Seq<char>>::empty());
    while i < lines.len()
        invariant
            0 <= i <= lines.len(),
            lines.deep_view() == split_on(source@, '\n'),
            rewrite_run(lines.deep_view().take(i as int)).0,
            rewrite_run(lines.deep_view().take(i as int)).1 == pending@,
            rewrite_run(lines.deep_view().take(i as int)).2 == out.deep_view(),
        decreases lines.len() - i,
    {
        let ghost prefix = lines.deep_view().take(i as int);
        let ghost next = lines.deep_view().take(i + 1);
        proof {
            assert(next.drop_last() =~= prefix);
            lemma_chars_deep_view(&lines[i as int]);
            assert(next.last() == lines[i as int]@);
        }
        match rewrite_line(&mut pending, &lines[i]) {
            Err(()) => {
                proof {
                    if rewrite_run(lines.deep_view()).0 {
                        lemma_run_ok_prefix(lines.deep_view(), i + 1);
                    }
                }
                return None;
            },
            Ok(written) => {
                match written {
                    Some(l) => {
                        let ghost before = out.deep_view();
                        proof {
                            lemma_chars_deep_view(&l);
                        }
                        out.push(l);
                        assert(out.deep_view() =~= before.push(l@));
                    },
                    None => {},
                }
            },
        }
        i += 1;
    }
    assert(lines.deep_view().take(lines.len() as int) =~= lines.deep_view());
    Some(out)
}

/// Whether the import rewriting is defined on `source`.
pub fn can_rewrite_imports(source: &str) -> (b: bool)
    ensures
        b == rewritable(source@),
{
    rewrite_source(source).is_some()
}

/// The lines of the local copy of a downloaded Solidity source: taken line by line, a
/// relative import, on one line or gathered from several, is rewritten to refer to the
/// imported file in the parent directory; package imports and all other lines are kept.
pub fn rewrite_imports(source: &str) -> (lines: Vec<String>)
    requires
        rewritable(source@),
    ensures
        lines.deep_view() == rewritten(source@),
{
    match rewrite_source(source) {
        Some(out) => strings_from_lines(&out),
        None => Vec::new(),
    }
}

/// The first path segment of the package imports that the single-line rewriting keeps.
pub open spec fn openzeppelin_segment() -> Seq<char> {
    seq!['"', '@', 'o', 'p', 'e', 'n', 'z', 'e', 'p', 'p', 'e', 'l', 'i', 'n']
}

/// Removing the last two bytes of `f` is defined: they end at a character boundary,
/// being either the whole last character or the last two one-byte characters.
pub open spec fn drop_two_bytes_ok(f: Seq<char>) -> bool {
    f.len() >= 1 && (utf8_width(f.last()) == 2 || (utf8_width(f.last()) == 1 && f.len() >= 2
        && utf8_width(f[f.len() - 2]) == 1))
}

/// `f` without its last two bytes.
pub open spec fn drop_two_bytes(f: Seq<char>) -> Seq<char> {
    if utf8_width(f.last()) == 2 {
        f.drop_last()
    } else {
        f.drop_last().drop_last()
    }
}

/// The single-line rewriting of one line: a line whose first word is `import`, and whose
/// second word does not start with the segment `"@openzeppelin`, becomes an import of the
/// last segment of that word (without its closing quote and `;`) from the parent directory.
pub open spec fn single_line_rewrite(line: Seq<char>) -> Seq<char> {
    let words = split_on(line, ' ');
    let path = split_on(words[1], '/');
    if words[0] == import_word() && path[0] != openzeppelin_segment() {
        seq!['i', 'm', 'p', 'o', 'r', 't', ' ', '"', '.', '.', '/'] + drop_two_bytes(last_piece(path))
            + seq!['"', ';']
    } else {
        line
    }
}

/// The lines on which `single_line_rewrite` is defined: an import line has a second word,
/// and the segment that it rewrites can lose its last two bytes.
pub open spec fn single_line_rewrite_ok(line: Seq<char>) -> bool {
    let words = split_on(line, ' ');
    words[0] == import_word() ==> {
        &&& words.len() >= 2
        &&& split_on(words[1], '/')[0] != openzeppelin_segment() ==> drop_two_bytes_ok(
            last_piece(split_on(words[1], '/')),
        )
    }
}

/// The sources on which the single-line rewriting is defined.
pub open spec fn single_line_rewritable(source: Seq<char>) -> bool {
    forall|i: int|
        0 <= i < split_on(source, '\n').len() ==> single_line_rewrite_ok(
            #[trigger] split_on(source, '\n')[i],
        )
}

/// The lines written by the single-line rewriting of `source`: one per line of it.
pub open spec fn single_line_rewritten(source: Seq<char>) -> Seq<Seq<char>> {
    split_on(source, '\n').map_values(|line: Seq<char>| single_line_rewrite(line))
}

/// The UTF-8 width of `c`, as `utf8_width` states.
fn utf8_width_of(c: char) -> (w: usize)
    ensures
        w == utf8_width(c),
{
    let u = c as u32;
    if u < 0x80 {
        1
    } else if u < 0x800 {
        2
    } else if u < 0x10000 {
        3
    } else {
        4
    }
}

/// Whether `a` and `b` hold the same characters.
fn same_chars(a: &Vec<char>, b: &Vec<char>) -> (e: bool)
    ensures
        e == (a@ == b@),
{
    if a.len() != b.len() {
        return false;
    }
    let m = matches_at(a.as_slice(), b.as_slice(), 0);
    assert(a@.subrange(0, b@.len() as int) =~= a@);
    m
}

/// `single_line_rewrite`, or `None` where it is not defined.
fn rewrite_single_line(line: &Vec<char>) -> (out: Option<Vec<char>>)
    ensures
        out is Some <==> single_line_rewrite_ok(line@),
        out matches Some(o) ==> o@ == single_line_rewrite(line@),
{
    let words = split_chars(line, ' ');
    proof {
        lemma_split_nonempty(line@, ' ');
        lemma_chars_deep_view(&words[0]);
        assert(words.deep_view()[0] == words[0]@);
    }
    let import = import_keyword();
    if !same_chars(&words[0], &import) {
        return Some(line.clone());
    }
    if words.len() < 2 {
        return None;
    }
    proof {
        lemma_chars_deep_view(&words[1]);
        assert(words.deep_view()[1] == words[1]@);
    }
    let path = split_chars(&words[1], '/');
    proof {
        lemma_split_nonempty(words[1]@, '/');
        lemma_chars_deep_view(&path[0]);
        assert(path.deep_view()[0] == path[0]@);
    }
    let keep: Vec<char> = vec!['"', '@', 'o', 'p', 'e', 'n', 'z', 'e', 'p', 'p', 'e', 'l', 'i', 'n'];
    assert(keep@ =~= openzeppelin_segment());
    if same_chars(&path[0], &keep) {
        return Some(line.clone());
    }
    let segment = &path[path.len() - 1];
    proof {
        lemma_chars_deep_view(segment);
        assert(path.deep_view()[path.len() - 1] == segment@);
    }
    let n = segment.len();
    if n == 0 {
        return None;
    }
    let w = utf8_width_of(segment[n - 1]);
    let cut: usize = if w == 2 {
        n - 1
    } else if w == 1 && n >= 2 && utf8_width_of(segment[n - 2]) == 1 {
        n - 2
    } else {
        return None;
    };
    let mut out: Vec<char> = vec!['i', 'm', 'p', 'o', 'r', 't', ' ', '"', '.', '.', '/'];
    let ghost head = out@;
    let mut k: usize = 0;
    while k < cut
        invariant
            0 <= k <= cut,
            cut <= n,
            n == segment@.len(),
            out@ == head + segment@.take(k as int),
        decreases cut - k,
    {
        out.push(segment[k]);
        assert(segment@.take(k + 1) =~= segment@.take(k as int).push(segment@[k as int]));
        k += 1;
    }
    out.push('"');
    out.push(';');
    proof {
        assert(head =~= seq!['i', 'm', 'p', 'o', 'r', 't', ' ', '"', '.', '.', '/']);
        assert(segment@.take(cut as int) =~= drop_two_bytes(segment@));
        assert(out@ =~= head + drop_two_bytes(segment@) + seq!['"', ';']);
    }
    Some(out)
}

/// The single-line rewriting of `source`, or `None` where it is not defined.
fn rewrite_source_single_line(source: &str) -> (out: Option<Vec<Vec<char>>>)
    ensures
        out is Some <==> single_line_rewritable(source@),
        out matches Some(o) ==> o.deep_view() == single_line_rewritten(source@),
{
    let chars = chars_of(source);
    let lines = split_chars(&chars, '\n');
    let ghost all = split_on(source@, '\n');
    let mut out: Vec<Vec<char>> = Vec::new();
    let mut i: usize = 0;
    while i < lines.len()
        invariant
            0 <= i <= lines.len(),
            lines.deep_view() == all,
            all == split_on(source@, '\n'),
            out.deep_view() == all.take(i as int).map_values(
                |line: Seq<char>| single_line_rewrite(line),
            ),
            forall|j: int| 0 <= j < i ==> single_line_rewrite_ok(#[trigger] all[j]),
        decreases lines.len() - i,
    {
        proof {
            lemma_chars_deep_view(&lines[i as int]);
            assert(all[i as int] == lines[i as int]@);
        }
        match rewrite_single_line(&lines[i]) {
            None => {
                return None;
            },
            Some(l) => {
                let ghost before = out.deep_view();
                proof {
                    lemma_chars_deep_view(&l);
                }
                out.push(l);
                assert(out.deep_view() =~= before.push(l@));
                assert(all.take(i + 1).map_values(|line: Seq<char>| single_line_rewrite(line))
                    =~= all.take(i as int).map_values(|line: Seq<char>| single_line_rewrite(line)).push(
                    single_line_rewrite(all[i as int]),
                ));
            },
        }
        i += 1;
    }
    assert(all.take(lines.len() as int) =~= all);
    Some(out)
}

/// Whether the single-line import rewriting is defined on `source`.
pub fn can_rewrite_imports_single_line(source: &str) -> (b: bool)
    ensures
        b == single_line_rewritable(source@),
{
    rewrite_source_single_line(source).is_some()
}

/// The lines of the local copy of a downloaded Solidity source under the single-line
/// rewriting: each line whose first word is `import` and whose path does not start with
/// `"@openzeppelin` imports the last segment of that path from the parent directory;
/// every other line is kept. There is one line out for each line in.
pub fn rewrite_imports_single_line(source: &str) -> (lines: Vec<String>)
    requires
        single_line_rewritable(source@),
    ensures
        lines.deep_view() == single_line_rewritten(source@),
{
    match rewrite_source_single_line(source) {
        Some(out) => strings_from_lines(&out),
        None => Vec::new(),
    }
}

/// A line with no `import` in it, with no statement pending, is written as it stands and
/// leaves nothing pending.
pub proof fn lemma_step_plain_line(line: Seq<char>)
    requires
        !contains_seq(line, import_word()),
    ensures
        rewrite_step_ok(Seq::<char>::empty(), line),
        rewrite_step(Seq::<char>::empty(), line) == (Seq::<char>::empty(), Some(line)),
{
    lemma_split_first_is_prefix(line, ' ');
    if split_on(line, ' ')[0] == import_word() {
        assert(occurs_at(line, import_word(), 0));
    }
}

/// Lines none of which holds `import` are written as they stand, one for one.
pub proof fn lemma_run_plain_lines(lines: Seq<Seq<char>>)
    requires
        forall|i: int| 0 <= i < lines.len() ==> !contains_seq(#[trigger] lines[i], import_word()),
    ensures
        rewrite_run(lines).0,
        rewrite_run(lines).1 == Seq::<char>::empty(),
        rewrite_run(lines).2 == lines,
    decreases lines.len(),
{
    if lines.len() > 0 {
        let init = lines.drop_last();
        assert forall|i: int| 0 <= i < init.len() implies !contains_seq(
            #[trigger] init[i],
            import_word(),
        ) by {
            assert(init[i] == lines[i]);
        }
        lemma_run_plain_lines(init);
        assert(!contains_seq(lines[lines.len() - 1], import_word()));
        lemma_step_plain_line(lines.last());
        assert(init.push(lines.last()) =~= lines);
    }
}

/// A source in which `import` never occurs is rewritten to its own lines: the rewriting
/// is defined on it, and joining the lines written with newlines gives back the source.
pub proof fn lemma_rewrite_plain_source(source: Seq<char>)
    requires
        !contains_seq(source, import_word()),
    ensures
        rewritable(source),
        rewritten(source) == split_on(source, '\n'),
        join_with(rewritten(source), '\n') == source,
{
    let lines = split_on(source, '\n');
    lemma_split_pieces_occur(source, '\n');
    assert forall|i: int| 0 <= i < lines.len() implies !contains_seq(
        #[trigger] lines[i],
        import_word(),
    ) by {
        if contains_seq(lines[i], import_word()) {
            let j = choose|j: int| occurs_at(lines[i], import_word(), j);
            assert(occurs_in(source, lines[i]));
            let st = choose|st: int| occurs_at(source, lines[i], st);
            lemma_occurs_within(source, lines[i], import_word(), st, j);
        }
    }
    lemma_run_plain_lines(lines);
    lemma_join_split(source, '\n');
}

/// The rewriting never writes more lines than it reads.
pub proof fn lemma_run_never_adds_lines(lines: Seq<Seq<char>>)
    ensures
        rewrite_run(lines).2.len() <= lines.len(),
    decreases lines.len(),
{
    if lines.len() > 0 {
        lemma_run_never_adds_lines(lines.drop_last());
    }
}

/// The rewriting of a source never writes more lines than the source has.
pub proof fn lemma_rewrite_never_adds_lines(source: Seq<char>)
    ensures
        rewritten(source).len() <= split_on(source, '\n').len(),
{
    lemma_run_never_adds_lines(split_on(source, '\n'));
}

/// A rewritten import refers to its file in the parent directory: it ends with `../` and
/// the imported file name.
pub proof fn lemma_relocated_import_in_parent(words: Seq<Seq<char>>)
    requires
        import_target_ok(import_file_name(words)),
    ensures
        ends_with_seq(relocated_import(words), seq!['.', '.', '/'] + import_file_name(words)),
{
    let f = import_file_name(words);
    let r = relocated_import(words);
    let tail = seq!['.', '.', '/'] + f;
    assert(r.subrange(r.len() - tail.len(), r.len() as int) =~= tail);
}

/// The single-line rewriting writes exactly one line for each line it reads, and keeps
/// every line whose first word is not `import`.
pub proof fn lemma_single_line_one_for_one(source: Seq<char>)
    ensures
        single_line_rewritten(source).len() == split_on(source, '\n').len(),
        forall|i: int|
            0 <= i < split_on(source, '\n').len() && split_on(split_on(source, '\n')[i], ' ')[0]
                != import_word() ==> #[trigger] single_line_rewritten(source)[i] == split_on(
                source,
                '\n',
            )[i],
{
}

/// A source in which `import` never occurs is kept line for line by the single-line
/// rewriting.
pub proof fn lemma_single_line_plain_source(source: Seq<char>)
    requires
        !contains_seq(source, import_word()),
    ensures
        single_line_rewritable(source),
        single_line_rewritten(source) == split_on(source, '\n'),
{
    let lines = split_on(source, '\n');
    lemma_split_pieces_occur(source, '\n');
    assert forall|i: int| 0 <= i < lines.len() implies split_on(#[trigger] lines[i], ' ')[0]
        != import_word() by {
        lemma_split_first_is_prefix(lines[i], ' ');
        if split_on(lines[i], ' ')[0] == import_word() {
            assert(occurs_at(lines[i], import_word(), 0));
            assert(occurs_in(source, lines[i]));
            let st = choose|st: int| occurs_at(source, lines[i], st);
            lemma_occurs_within(source, lines[i], import_word(), st, 0);
        }
    }
    assert(single_line_rewritten(source) =~= lines);
}

/// Rewriting is stable on one-line imports: the line written for a relative import,
/// when it is read again with no statement pending, is written unchanged. (Excluded: a
/// file name that ends in `{`, whose rewritten line would open an import block.)
pub proof fn lemma_rewritten_import_kept(line: Seq<char>)
    requires
        split_on(line, ' ')[0] == import_word(),
        !is_package_import(split_on(line, ' ')),
        import_target_ok(import_file_name(split_on(line, ' '))),
        import_file_name(split_on(line, ' ')).last() != '{',
    ensures
        rewrite_step_ok(Seq::<char>::empty(), relocated_import(split_on(line, ' '))),
        rewrite_step(Seq::<char>::empty(), relocated_import(split_on(line, ' '))) == (
            Seq::<char>::empty(),
            Some(relocated_import(split_on(line, ' '))),
        ),
{
    let ws = split_on(line, ' ');
    let last = last_piece(ws);
    let f = import_file_name(ws);
    lemma_split_nonempty(line, ' ');
    lemma_split_pieces_free_of(line, ' ');
    lemma_split_nonempty(last, '/');
    lemma_split_pieces_free_of(last, '/');
    lemma_split_pieces_occur(last, '/');
    assert(occurs_in(last, f));
    let st = choose|st: int| occurs_at(last, f, st);
    assert forall|j: int| 0 <= j < f.len() implies f[j] != ' ' by {
        assert(last.subrange(st, st + f.len())[j] == f[j]);
        assert(ws[ws.len() - 1][st + j] != ' ');
    }
    assert forall|j: int| 0 <= j < f.len() implies f[j] != '/' by {
        let parts = split_on(last, '/');
        assert(parts[parts.len() - 1][j] != '/');
    }
    let q = if f[f.len() - 2] == '"' {
        '"'
    } else {
        '\''
    };
    let head = seq![q, '.', '.'];
    let tail = head + seq!['/'] + f;
    let w = ws.drop_last();
    let joined = join_with(w, ' ');
    let r = relocated_import(ws);
    assert(r =~= joined + seq![' '] + tail);
    lemma_split_around(joined, tail, ' ');
    assert forall|j: int| 0 <= j < tail.len() implies tail[j] != ' ' by {
        if j >= 4 {
            assert(tail[j] == f[j - 4]);
        }
    }
    lemma_split_free(tail, ' ');
    assert(r.last() == f.last());
    assert(!ends_with_seq(r, seq!['{'])) by {
        if ends_with_seq(r, seq!['{']) {
            assert(r.subrange(r.len() - 1, r.len() as int)[0] == r.last());
        }
    }
    let rw = split_on(r, ' ');
    if ws.len() == 1 {
        assert(w.len() == 0);
        assert(joined =~= Seq::<char>::empty());
        assert(split_on(joined, ' ') =~= seq![Seq::<char>::empty()]);
        assert(rw[0] == Seq::<char>::empty());
        assert(rw[0] != import_word()) by {
            assert(import_word().len() == 6);
        }
    } else {
        assert forall|i: int, j: int| 0 <= i < w.len() && 0 <= j < w[i].len() implies w[i][j]
            != ' ' by {
            assert(w[i] == ws[i]);
        }
        lemma_split_join(w, ' ');
        assert(rw =~= w + seq![tail]);
        assert(rw[0] == ws[0]);
        assert(last_piece(rw) == tail);
        lemma_split_around(head, f, '/');
        lemma_split_free(head, '/');
        lemma_split_free(f, '/');
        let path = split_on(tail, '/');
        assert(path =~= seq![head, f]);
        assert(!contains_seq(head, seq!['@'])) by {
            if contains_seq(head, seq!['@']) {
                let i = choose|i: int| occurs_at(head, seq!['@'], i);
                assert(head.subrange(i, i + 1)[0] == head[i]);
            }
        }
        assert(!is_package_import(rw));
        assert(import_file_name(rw) == f);
        assert(rw.drop_last() =~= w);
        assert(relocated_import(rw) =~= r);
    }
}

/// A source of one line, whose first word is `import`, that does not end with `{`, and
/// whose import path (its last word) starts with a segment holding `@` (a package), is
/// written as it stands.
pub proof fn lemma_package_import_line_kept(line: Seq<char>)
    requires
        forall|j: int| 0 <= j < line.len() ==> line[j] != '\n',
        split_on(line, ' ')[0] == seq!['i', 'm', 'p', 'o', 'r', 't'],
        !ends_with_seq(line, seq!['{']),
        contains_seq(
            split_on(split_on(line, ' ')[split_on(line, ' ').len() - 1], '/')[0],
            seq!['@'],
        ),
    ensures
        rewritable(line),
        rewritten(line) == seq![line],
{
    lemma_split_free(line, '\n');
    let lines = split_on(line, '\n');
    assert(lines.drop_last() =~= Seq::<Seq<char>>::empty());
    reveal_with_fuel(rewrite_run, 2);
    assert(rewrite_step(Seq::<char>::empty(), line) == (Seq::<char>::empty(), Some(line)));
    assert(Seq::<Seq<char>>::empty().push(line) =~= seq![line]);
}

/// A source of one line, whose first word is `import`, that does not end with `{`, and
/// whose import path (its last word) is relative (its first `/`-segment holds no `@`),
/// with a file name (the path's last `/`-segment) whose last two characters are ASCII, is
/// written as one line: the words before the path, a space, the file name's closing quote
/// (a double quote, or else a single quote), `../`, and the file name.
pub proof fn lemma_relative_import_line_relocated(line: Seq<char>)
    requires
        forall|j: int| 0 <= j < line.len() ==> line[j] != '\n',
        split_on(line, ' ')[0] == seq!['i', 'm', 'p', 'o', 'r', 't'],
        !ends_with_seq(line, seq!['{']),
        !contains_seq(
            split_on(split_on(line, ' ')[split_on(line, ' ').len() - 1], '/')[0],
            seq!['@'],
        ),
        ({
            let path = split_on(split_on(line, ' ')[split_on(line, ' ').len() - 1], '/');
            let f = path[path.len() - 1];
            f.len() >= 2 && (f[f.len() - 1] as u32) < 0x80 && (f[f.len() - 2] as u32) < 0x80
        }),
    ensures
        rewritable(line),
        ({
            let words = split_on(line, ' ');
            let path = split_on(words[words.len() - 1], '/');
            let f = path[path.len() - 1];
            let q = if f[f.len() - 2] == '"' {
                '"'
            } else {
                '\''
            };
            rewritten(line) == seq![
                join_with(words.take(words.len() - 1), ' ') + seq![' ', q, '.', '.', '/'] + f,
            ]
        }),
{
    lemma_split_free(line, '\n');
    let words = split_on(line, ' ');
    let lines = split_on(line, '\n');
    assert(lines.drop_last() =~= Seq::<Seq<char>>::empty());
    reveal_with_fuel(rewrite_run, 2);
    assert(words.take(words.len() - 1) =~= words.drop_last());
    let r = relocated_import(words);
    let path = split_on(words[words.len() - 1], '/');
    let f = path[path.len() - 1];
    let q = if f[f.len() - 2] == '"' {
        '"'
    } else {
        '\''
    };
    assert(parent_import(f) =~= seq![' ', q, '.', '.', '/'] + f);
    assert(r =~= join_with(words.take(words.len() - 1), ' ') + seq![' ', q, '.', '.', '/'] + f);
    assert(rewrite_step(Seq::<char>::empty(), line) == (Seq::<char>::empty(), Some(r)));
    assert(Seq::<Seq<char>>::empty().push(r) =~= seq![r]);
}

/// The UTF-8 encoding of a character takes `utf8_width` bytes.
pub proof fn lemma_encode_char_len(c: char)
    ensures
        encode_utf8(seq![c]).len() == utf8_width(c),
{
    reveal_with_fuel(encode_utf8, 2);
    assert(seq![c].drop_first() =~= Seq::<char>::empty());
}

/// Characters whose UTF-8 encoding takes exactly two bytes: one two-byte character or two
/// one-byte characters.
pub proof fn lemma_two_encoded_bytes(removed: Seq<char>)
    requires
        encode_utf8(removed).len() == 2,
    ensures
        (removed.len() == 1 && utf8_width(removed[0]) == 2) || (removed.len() == 2 && utf8_width(
            removed[0],
        ) == 1 && utf8_width(removed[1]) == 1),
{
    reveal_with_fuel(encode_utf8, 2);
    if removed.len() == 0 {
    } else {
        let rest = removed.drop_first();
        lemma_encode_char_len(removed[0]);
        reveal_with_fuel(encode_utf8, 2);
        assert(encode_utf8(seq![removed[0]]) =~= vstd::utf8::encode_scalar(removed[0] as u32)
            + encode_utf8(Seq::<char>::empty())) by {
            assert(seq![removed[0]].drop_first() =~= Seq::<char>::empty());
        }
        if rest.len() > 0 {
            lemma_encode_char_len(rest[0]);
            assert(encode_utf8(seq![rest[0]]) =~= vstd::utf8::encode_scalar(rest[0] as u32)
                + encode_utf8(Seq::<char>::empty())) by {
                assert(seq![rest[0]].drop_first() =~= Seq::<char>::empty());
            }
            if rest.len() > 1 {
                lemma_encode_char_len(rest[1]);
                assert(encode_utf8(seq![rest[1]]) =~= vstd::utf8::encode_scalar(rest[1] as u32)
                    + encode_utf8(Seq::<char>::empty())) by {
                    assert(seq![rest[1]].drop_first() =~= Seq::<char>::empty());
                }
                assert(encode_utf8(rest) =~= vstd::utf8::encode_scalar(rest[0] as u32)
                    + encode_utf8(rest.drop_first()));
                assert(encode_utf8(rest.drop_first()) =~= vstd::utf8::encode_scalar(
                    rest[1] as u32,
                ) + encode_utf8(rest.drop_first().drop_first()));
            }
        }
    }
}

/// A source of one line whose first word is `import`, whose second word is a path that
/// does not start with the segment `"@openzeppelin`, and whose path ends in a segment
/// `kept + removed` where `removed` is the segment's last two bytes, is written as the
/// single line `import "../`, `kept`, `";` (whatever quote the source used).
pub proof fn lemma_single_line_import_relocated(line: Seq<char>, kept: Seq<char>, removed: Seq<char>)
    requires
        forall|j: int| 0 <= j < line.len() ==> line[j] != '\n',
        split_on(line, ' ')[0] == seq!['i', 'm', 'p', 'o', 'r', 't'],
        split_on(line, ' ').len() >= 2,
        split_on(split_on(line, ' ')[1], '/')[0] != seq![
            '"',
            '@',
            'o',
            'p',
            'e',
            'n',
            'z',
            'e',
            'p',
            'p',
            'e',
            'l',
            'i',
            'n',
        ],
        ({
            let path = split_on(split_on(line, ' ')[1], '/');
            path[path.len() - 1] == kept + removed
        }),
        encode_utf8(removed).len() == 2,
    ensures
        single_line_rewritable(line),
        single_line_rewritten(line) == seq![
            seq!['i', 'm', 'p', 'o', 'r', 't', ' ', '"', '.', '.', '/'] + kept + seq!['"', ';'],
        ],
{
    lemma_split_free(line, '\n');
    lemma_two_encoded_bytes(removed);
    let path = split_on(split_on(line, ' ')[1], '/');
    let seg = path[path.len() - 1];
    assert(seg.last() == removed.last());
    if removed.len() == 1 {
        assert(seg.drop_last() =~= kept);
    } else {
        assert(seg[seg.len() - 2] == removed[0]);
        assert(seg.drop_last().drop_last() =~= kept);
    }
    assert(drop_two_bytes_ok(seg));
    assert(drop_two_bytes(seg) == kept);
    assert(single_line_rewrite_ok(line));
    assert(single_line_rewritten(line) =~= seq![single_line_rewrite(line)]);
}

} // verus!
