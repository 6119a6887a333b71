//! Character-sequence operations used throughout the crate, each stated over `Seq<char>`.

use vstd::prelude::*;

verus! {

/// The pieces of `s` between the occurrences of `sep`, in order (what `str::split`
/// yields for a one-character pattern). There is always at least one piece.
pub open spec fn split_on(s: Seq<char>, sep: char) -> Seq<Seq<char>>
    decreases s.len(),
{
    if s.len() == 0 {
        seq![Seq::<char>::empty()]
    } else {
        let init = split_on(s.drop_last(), sep);
        if s.last() == sep {
            init.push(Seq::<char>::empty())
        } else {
            init.update(init.len() - 1, init.last().push(s.last()))
        }
    }
}

/// Splitting always gives at least one piece.
pub proof fn lemma_split_nonempty(s: Seq<char>, sep: char)
    ensures
        split_on(s, sep).len() >= 1,
    decreases s.len(),
{
    if s.len() > 0 {
        lemma_split_nonempty(s.drop_last(), sep);
    }
}

/// For a vector of characters the deep view is the view.
pub proof fn lemma_chars_deep_view(v: &Vec<char>)
    ensures
        v.deep_view() == v@,
{
    assert(v.deep_view() =~= v@);
}

/// The characters of `s`, in order.
pub fn chars_of(s: &str) -> (v: Vec<char>)
    ensures
        v@ == s@,
{
    let mut v: Vec<char> = Vec::new();
    for c in it: s.chars()
        invariant
            v@ == it.seq().take(it.index() as int),
    {
        v.push(c);
    }
    v
}

/// A `String` holding exactly the given characters.
///
/// Trusted: calls std's `FromIterator<&char>` for `String` (`collect`), which the std
/// documentation describes as concatenating the characters in iteration order.
#[verifier::external_body]
pub(crate) fn string_from_chars(chars: &Vec<char>) -> (s: String)
    ensures
        s@ == chars@,
{
    chars.iter().collect()
}

/// One `String` per line, holding its characters.
pub fn strings_from_lines(lines: &Vec<Vec<char>>) -> (strings: Vec<String>)
    ensures
        strings.deep_view() == lines.deep_view(),
{
    let mut strings: Vec<String> = Vec::new();
    let mut i: usize = 0;
    while i < lines.len()
        invariant
            0 <= i <= lines.len(),
            strings.deep_view() == lines.deep_view().take(i as int),
        decreases lines.len() - i,
    {
        let s = string_from_chars(&lines[i]);
        proof {
            lemma_chars_deep_view(&lines[i as int]);
        }
        let ghost before = strings.deep_view();
        strings.push(s);
        assert(strings.deep_view() =~= before.push(s@));
        assert(lines.deep_view().take(i + 1) =~= lines.deep_view().take(i as int).push(lines[i as int]@));
        i += 1;
    }
    assert(lines.deep_view().take(lines.len() as int) =~= lines.deep_view());
    strings
}

/// The last piece of `s` split at `sep`: what follows the last `sep`, or all of `s`.
pub open spec fn last_segment(s: Seq<char>, sep: char) -> Seq<char> {
    split_on(s, sep)[split_on(s, sep).len() - 1]
}

/// The last piece of `s` split at `sep`, as `last_segment` states.
pub fn last_segment_chars(s: &str, sep: char) -> (seg: Vec<char>)
    ensures
        seg@ == last_segment(s@, sep),
{
    let chars = chars_of(s);
    let parts = split_chars(&chars, sep);
    proof {
        lemma_split_nonempty(chars@, sep);
    }
    let n = parts.len();
    proof {
        lemma_chars_deep_view(&parts[n - 1]);
        assert(parts.deep_view()[n - 1] == parts[n - 1]@);
    }
    let mut seg: Vec<char> = Vec::new();
    let last = &parts[n - 1];
    let mut i: usize = 0;
    while i < last.len()
        invariant
            0 <= i <= last.len(),
            seg@ == last@.take(i as int),
        decreases last.len() - i,
    {
        seg.push(last[i]);
        assert(last@.take(i + 1) =~= last@.take(i as int).push(last@[i as int]));
        i += 1;
    }
    assert(last@.take(last.len() as int) =~= last@);
    seg
}

/// Splits `s` at every `sep`, as `split_on` states.
pub fn split_chars(s: &Vec<char>, sep: char) -> (parts: Vec<Vec<char>>)
    ensures
        parts.deep_view() == split_on(s@, sep),
{
    let mut parts: Vec<Vec<char>> = Vec::new();
    let mut cur: Vec<char> = Vec::new();
    let mut i: usize = 0;
    while i < s.len()
        invariant
            0 <= i <= s.len(),
            parts.deep_view().push(cur@) == split_on(s@.take(i as int), sep),
        decreases s.len() - i,
    {
        let c = s[i];
        proof {
            assert(s@.take(i + 1).drop_last() =~= s@.take(i as int));
            lemma_split_nonempty(s@.take(i as int), sep);
        }
        let ghost before = parts.deep_view();
        let ghost piece = cur@;
        proof {
            lemma_chars_deep_view(&cur);
        }
        if c == sep {
            parts.push(cur);
            cur = Vec::new();
            assert(parts.deep_view() =~= before.push(piece));
            assert(parts.deep_view().push(cur@) =~= before.push(piece).push(Seq::<char>::empty()));
        } else {
            cur.push(c);
            assert(parts.deep_view() =~= before);
            assert(parts.deep_view().push(cur@) =~= before.push(piece).update(
                before.len() as int,
                piece.push(c),
            ));
        }
        i += 1;
    }
    proof {
        assert(s@.take(s.len() as int) =~= s@);
    }
    let ghost before = parts.deep_view();
    let ghost piece = cur@;
    proof {
        lemma_chars_deep_view(&cur);
    }
    parts.push(cur);
    assert(parts.deep_view() =~= before.push(piece));
    parts
}

/// The pieces joined with `sep` between consecutive ones (what `join` on a slice of
/// strings yields for a one-character separator).
pub open spec fn join_with(parts: Seq<Seq<char>>, sep: char) -> Seq<char>
    decreases parts.len(),
{
    if parts.len() == 0 {
        Seq::<char>::empty()
    } else if parts.len() == 1 {
        parts[0]
    } else {
        join_with(parts.drop_last(), sep).push(sep) + parts.last()
    }
}

/// Joins the first `n` of `parts` with `sep`, as `join_with` states.
pub fn join_chars(parts: &Vec<Vec<char>>, n: usize, sep: char) -> (s: Vec<char>)
    requires
        n <= parts.len(),
    ensures
        s@ == join_with(parts.deep_view().take(n as int), sep),
{
    let mut s: Vec<char> = Vec::new();
    let mut i: usize = 0;
    while i < n
        invariant
            0 <= i <= n,
            n <= parts.len(),
            s@ == join_with(parts.deep_view().take(i as int), sep),
        decreases n - i,
    {
        let ghost prefix = s@;
        proof {
            lemma_chars_deep_view(&parts[i as int]);
            assert(parts.deep_view().take(i + 1).drop_last() =~= parts.deep_view().take(i as int));
        }
        if i > 0 {
            s.push(sep);
        }
        let piece = &parts[i];
        let mut j: usize = 0;
        while j < piece.len()
            invariant
                0 <= j <= piece.len(),
                s@ == (if i > 0 { prefix.push(sep) } else { prefix }) + piece@.take(j as int),
            decreases piece.len() - j,
        {
            s.push(piece[j]);
            proof {
                assert(piece@.take(j + 1) =~= piece@.take(j as int).push(piece[j as int]));
            }
            j += 1;
        }
        proof {
            assert(piece@.take(piece.len() as int) =~= piece@);
            if i == 0 {
                assert(parts.deep_view().take(1) =~= seq![piece@]);
            }
        }
        i += 1;
    }
    s
}

/// A vector holding the characters of `a` followed by those of `b`.
pub fn concat_chars(a: &Vec<char>, b: &Vec<char>) -> (s: Vec<char>)
    ensures
        s@ == a@ + b@,
{
    let mut s: Vec<char> = Vec::new();
    let mut i: usize = 0;
    while i < a.len()
        invariant
            0 <= i <= a.len(),
            s@ == a@.take(i as int),
        decreases a.len() - i,
    {
        s.push(a[i]);
        assert(a@.take(i + 1) =~= a@.take(i as int).push(a@[i as int]));
        i += 1;
    }
    let mut j: usize = 0;
    while j < b.len()
        invariant
            0 <= j <= b.len(),
            a@.take(a.len() as int) =~= a@,
            s@ == a@ + b@.take(j as int),
        decreases b.len() - j,
    {
        s.push(b[j]);
        assert(b@.take(j + 1) =~= b@.take(j as int).push(b@[j as int]));
        j += 1;
    }
    assert(b@.take(b.len() as int) =~= b@);
    s
}

/// Joining the pieces of a split with the same separator gives back the text.
pub proof fn lemma_join_split(s: Seq<char>, sep: char)
    ensures
        join_with(split_on(s, sep), sep) == s,
    decreases s.len(),
{
    if s.len() > 0 {
        let init = split_on(s.drop_last(), sep);
        lemma_join_split(s.drop_last(), sep);
        lemma_split_nonempty(s.drop_last(), sep);
        if s.last() == sep {
            assert(init.push(Seq::<char>::empty()).drop_last() =~= init);
            assert(s =~= s.drop_last().push(sep));
        } else {
            let last = init.last().push(s.last());
            let next = init.update(init.len() - 1, last);
            if init.len() == 1 {
                assert(s =~= init[0].push(s.last()));
            } else {
                assert(next.drop_last() =~= init.drop_last());
                assert(join_with(init, sep) == join_with(init.drop_last(), sep).push(sep) + init.last());
                assert(s =~= (join_with(init.drop_last(), sep).push(sep) + init.last()).push(s.last()));
            }
        }
    }
}

/// No piece of a split holds the separator.
pub proof fn lemma_split_pieces_free_of(s: Seq<char>, sep: char)
    ensures
        forall|i: int, j: int|
            0 <= i < split_on(s, sep).len() && 0 <= j < split_on(s, sep)[i].len()
                ==> split_on(s, sep)[i][j] != sep,
    decreases s.len(),
{
    if s.len() > 0 {
        lemma_split_pieces_free_of(s.drop_last(), sep);
        lemma_split_nonempty(s.drop_last(), sep);
        let init = split_on(s.drop_last(), sep);
        if s.last() != sep {
            let last = init.last().push(s.last());
            assert forall|j: int| 0 <= j < last.len() implies last[j] != sep by {
                if j < init.last().len() {
                    assert(init[init.len() - 1][j] != sep);
                }
            }
        }
    }
}

/// A text without the separator is a single piece.
pub proof fn lemma_split_free(s: Seq<char>, sep: char)
    requires
        forall|j: int| 0 <= j < s.len() ==> s[j] != sep,
    ensures
        split_on(s, sep) == seq![s],
    decreases s.len(),
{
    if s.len() > 0 {
        assert(s[s.len() - 1] != sep);
        lemma_split_free(s.drop_last(), sep);
        assert(s.drop_last().push(s.last()) =~= s);
        assert(seq![s.drop_last()].update(0, s) =~= seq![s]);
    } else {
        assert(s =~= Seq::<char>::empty());
        assert(split_on(s, sep) =~= seq![s]);
    }
}

/// Splitting at a separator between two texts splits each of them.
pub proof fn lemma_split_around(a: Seq<char>, b: Seq<char>, sep: char)
    ensures
        split_on(a + seq![sep] + b, sep) == split_on(a, sep) + split_on(b, sep),
    decreases b.len(),
{
    let s = a + seq![sep] + b;
    if b.len() == 0 {
        assert(s.drop_last() =~= a);
        assert(split_on(a, sep).push(Seq::<char>::empty()) =~= split_on(a, sep) + split_on(b, sep));
    } else {
        let b0 = b.drop_last();
        lemma_split_around(a, b0, sep);
        lemma_split_nonempty(b0, sep);
        assert(s.drop_last() =~= a + seq![sep] + b0);
        assert(s.last() == b.last());
        let left = split_on(a, sep);
        let right = split_on(b0, sep);
        if b.last() == sep {
            assert((left + right).push(Seq::<char>::empty()) =~= left + right.push(
                Seq::<char>::empty(),
            ));
        } else {
            let lr = left + right;
            assert(lr.update(lr.len() - 1, lr.last().push(b.last())) =~= left + right.update(
                right.len() - 1,
                right.last().push(b.last()),
            ));
        }
    }
}

/// Splitting pieces joined with a separator that none of them holds gives the pieces back.
pub proof fn lemma_split_join(parts: Seq<Seq<char>>, sep: char)
    requires
        parts.len() >= 1,
        forall|i: int, j: int|
            0 <= i < parts.len() && 0 <= j < parts[i].len() ==> parts[i][j] != sep,
    ensures
        split_on(join_with(parts, sep), sep) == parts,
    decreases parts.len(),
{
    if parts.len() == 1 {
        lemma_split_free(parts[0], sep);
        assert(seq![parts[0]] =~= parts);
    } else {
        let init = parts.drop_last();
        assert forall|i: int, j: int| 0 <= i < init.len() && 0 <= j < init[i].len() implies init[i][j]
            != sep by {
            assert(init[i] == parts[i]);
        }
        lemma_split_join(init, sep);
        assert forall|j: int| 0 <= j < parts.last().len() implies parts.last()[j] != sep by {
            assert(parts[parts.len() - 1][j] != sep);
        }
        lemma_split_free(parts.last(), sep);
        let a = join_with(init, sep);
        assert(a.push(sep) + parts.last() =~= a + seq![sep] + parts.last());
        lemma_split_around(a, parts.last(), sep);
        assert(init + seq![parts.last()] =~= parts);
    }
}

/// `piece` occurs somewhere in `s`.
pub open spec fn occurs_in(s: Seq<char>, piece: Seq<char>) -> bool {
    exists|st: int| occurs_at(s, piece, st)
}

/// Every piece of a split occurs in the text, and the last piece ends it.
pub proof fn lemma_split_pieces_occur(s: Seq<char>, sep: char)
    ensures
        forall|i: int|
            0 <= i < split_on(s, sep).len() ==> occurs_in(s, #[trigger] split_on(s, sep)[i]),
        ends_with_seq(s, last_segment(s, sep)),
    decreases s.len(),
{
    lemma_split_nonempty(s, sep);
    if s.len() == 0 {
        assert(split_on(s, sep)[0] == Seq::<char>::empty());
        assert(s.subrange(0, 0) =~= Seq::<char>::empty());
        assert(occurs_at(s, split_on(s, sep)[0], 0));
        assert(s.subrange(0, 0) =~= last_segment(s, sep));
        assert forall|i: int| 0 <= i < split_on(s, sep).len() implies occurs_in(
            s,
            #[trigger] split_on(s, sep)[i],
        ) by {
            assert(occurs_at(s, split_on(s, sep)[i], 0));
        }
    } else {
        let t = s.drop_last();
        let init = split_on(t, sep);
        lemma_split_pieces_occur(t, sep);
        lemma_split_nonempty(t, sep);
        let parts = split_on(s, sep);
        assert forall|i: int| 0 <= i < parts.len() implies occurs_in(s, #[trigger] parts[i]) by {
            if i < init.len() && !(s.last() != sep && i == init.len() - 1) {
                assert(occurs_in(t, init[i]));
                let st = choose|st: int| occurs_at(t, init[i], st);
                assert(parts[i] == init[i]);
                assert(s.subrange(st, st + init[i].len()) =~= t.subrange(st, st + init[i].len()));
                assert(occurs_at(s, parts[i], st));
            } else if s.last() == sep {
                assert(parts[i] == Seq::<char>::empty());
                assert(s.subrange(0, 0) =~= Seq::<char>::empty());
                assert(occurs_at(s, parts[i], 0));
            } else {
                let l = init.last();
                assert(t.subrange(t.len() - l.len(), t.len() as int) == l);
                assert(parts[i] == l.push(s.last()));
                assert(s.subrange(s.len() - parts[i].len(), s.len() as int) =~= parts[i]);
                assert(occurs_at(s, parts[i], s.len() - parts[i].len()));
            }
        }
        if s.last() == sep {
            assert(s.subrange(s.len() as int, s.len() as int) =~= Seq::<char>::empty());
        } else {
            let l = init.last();
            assert(t.subrange(t.len() - l.len(), t.len() as int) == l);
            assert(s.subrange(s.len() - (l.len() + 1), s.len() as int) =~= l.push(s.last()));
        }
    }
}

/// The first piece of a split starts the text.
pub proof fn lemma_split_first_is_prefix(s: Seq<char>, sep: char)
    ensures
        split_on(s, sep)[0].len() <= s.len(),
        s.subrange(0, split_on(s, sep)[0].len() as int) == split_on(s, sep)[0],
    decreases s.len(),
{
    lemma_split_nonempty(s, sep);
    if s.len() == 0 {
        assert(s.subrange(0, 0) =~= Seq::<char>::empty());
    } else {
        let t = s.drop_last();
        let init = split_on(t, sep);
        lemma_split_first_is_prefix(t, sep);
        lemma_split_nonempty(t, sep);
        if s.last() == sep || init.len() > 1 {
            assert(split_on(s, sep)[0] == init[0]);
            assert(s.subrange(0, init[0].len() as int) =~= t.subrange(0, init[0].len() as int));
        } else {
            lemma_join_split(t, sep);
            assert(init[0] == t);
            assert(split_on(s, sep)[0] == t.push(s.last()));
            assert(s.subrange(0, s.len() as int) =~= s);
            assert(t.push(s.last()) =~= s);
        }
    }
}

/// An occurrence inside an occurring piece is an occurrence in the text.
pub proof fn lemma_occurs_within(s: Seq<char>, piece: Seq<char>, pat: Seq<char>, st: int, j: int)
    requires
        occurs_at(s, piece, st),
        occurs_at(piece, pat, j),
    ensures
        occurs_at(s, pat, st + j),
{
    assert(s.subrange(st + j, st + j + pat.len()) =~= piece.subrange(j, j + pat.len()));
}

/// `str::trim`/`char::is_whitespace`: a character of Unicode's `White_Space` property.
pub open spec fn is_white_space(c: char) -> bool {
    let u = c as u32;
    ||| 0x9 <= u <= 0xd
    ||| u == 0x20
    ||| u == 0x85
    ||| u == 0xa0
    ||| u == 0x1680
    ||| 0x2000 <= u <= 0x200a
    ||| u == 0x2028
    ||| u == 0x2029
    ||| u == 0x202f
    ||| u == 0x205f
    ||| u == 0x3000
}

/// `s` without its leading white space.
pub open spec fn trim_start(s: Seq<char>) -> Seq<char>
    decreases s.len(),
{
    if s.len() > 0 && is_white_space(s[0]) {
        trim_start(s.drop_first())
    } else {
        s
    }
}

/// `s` without its trailing white space.
pub open spec fn trim_end(s: Seq<char>) -> Seq<char>
    decreases s.len(),
{
    if s.len() > 0 && is_white_space(s.last()) {
        trim_end(s.drop_last())
    } else {
        s
    }
}

/// `s` without leading and trailing white space (`str::trim`).
pub open spec fn trim(s: Seq<char>) -> Seq<char> {
    trim_end(trim_start(s))
}

/// Whether `c` is white space, as `is_white_space` states.
pub fn white_space(c: char) -> (b: bool)
    ensures
        b == is_white_space(c),
{
    let u = c as u32;
    (0x9 <= u && u <= 0xd) || u == 0x20 || u == 0x85 || u == 0xa0 || u == 0x1680 || (0x2000 <= u
        && u <= 0x200a) || u == 0x2028 || u == 0x2029 || u == 0x202f || u == 0x205f || u == 0x3000
}

/// `s` trimmed, as `trim` states.
pub fn trim_chars(s: &[char]) -> (t: Vec<char>)
    ensures
        t@ == trim(s@),
{
    let n = s.len();
    let mut lo: usize = 0;
    assert(s@.subrange(0, n as int) =~= s@);
    while lo < n && white_space(s[lo])
        invariant
            0 <= lo <= n,
            n == s@.len(),
            trim_start(s@) == trim_start(s@.subrange(lo as int, n as int)),
        decreases n - lo,
    {
        assert(s@.subrange(lo as int, n as int).drop_first() =~= s@.subrange(lo + 1, n as int));
        lo += 1;
    }
    assert(trim_start(s@) == s@.subrange(lo as int, n as int));
    let mut hi: usize = n;
    while hi > lo && white_space(s[hi - 1])
        invariant
            lo <= hi <= n,
            n == s@.len(),
            trim(s@) == trim_end(s@.subrange(lo as int, hi as int)),
        decreases hi,
    {
        assert(s@.subrange(lo as int, hi as int).drop_last() =~= s@.subrange(lo as int, hi - 1));
        hi -= 1;
    }
    let mut t: Vec<char> = Vec::new();
    let mut k: usize = lo;
    while k < hi
        invariant
            lo <= k <= hi,
            hi <= n,
            n == s@.len(),
            t@ == s@.subrange(lo as int, k as int),
        decreases hi - k,
    {
        t.push(s[k]);
        assert(s@.subrange(lo as int, k + 1) =~= s@.subrange(lo as int, k as int).push(s@[k as int]));
        k += 1;
    }
    t
}

/// `pat` occurs in `s` starting at position `i`.
pub open spec fn occurs_at(s: Seq<char>, pat: Seq<char>, i: int) -> bool {
    0 <= i && i + pat.len() <= s.len() && s.subrange(i, i + pat.len()) == pat
}

/// `pat` occurs somewhere in `s` (`str::contains`).
pub open spec fn contains_seq(s: Seq<char>, pat: Seq<char>) -> bool {
    exists|i: int| occurs_at(s, pat, i)
}

/// `s` ends with `pat` (`str::ends_with`).
pub open spec fn ends_with_seq(s: Seq<char>, pat: Seq<char>) -> bool {
    pat.len() <= s.len() && s.subrange(s.len() - pat.len(), s.len() as int) == pat
}

/// Whether `pat` occurs in `s` at `i`, as `occurs_at` states.
pub fn matches_at(s: &[char], pat: &[char], i: usize) -> (b: bool)
    ensures
        b == occurs_at(s@, pat@, i as int),
{
    if i > s.len() || pat.len() > s.len() - i {
        return false;
    }
    let mut k: usize = 0;
    while k < pat.len()
        invariant
            0 <= k <= pat.len(),
            i + pat.len() <= s.len(),
            forall|m: int| 0 <= m < k ==> s@[i + m] == pat@[m],
        decreases pat.len() - k,
    {
        if s[i + k] != pat[k] {
            assert(s@.subrange(i as int, i + pat.len())[k as int] != pat@[k as int]);
            return false;
        }
        k += 1;
    }
    assert(s@.subrange(i as int, i + pat.len()) =~= pat@);
    true
}

/// Whether `pat` occurs in `s`, as `contains_seq` states.
pub fn contains_chars(s: &[char], pat: &[char]) -> (b: bool)
    ensures
        b == contains_seq(s@, pat@),
{
    if pat.len() > s.len() {
        return false;
    }
    let last = s.len() - pat.len();
    let mut i: usize = 0;
    loop
        invariant
            pat.len() <= s.len(),
            last == s.len() - pat.len(),
            0 <= i <= last,
            forall|m: int| 0 <= m < i ==> !occurs_at(s@, pat@, m),
        decreases last - i,
    {
        if matches_at(s, pat, i) {
            return true;
        }
        if i == last {
            assert forall|m: int| !occurs_at(s@, pat@, m) by {
                if 0 <= m < i {
                }
            }
            return false;
        }
        i += 1;
    }
}

/// Whether `s` ends with `pat`, as `ends_with_seq` states.
pub fn ends_with_chars(s: &[char], pat: &[char]) -> (b: bool)
    ensures
        b == ends_with_seq(s@, pat@),
{
    if pat.len() > s.len() {
        return false;
    }
    matches_at(s, pat, s.len() - pat.len())
}

} // verus!
