//! Character-level helpers on report lines, each with an exact contract.

use vstd::prelude::*;

verus! {

broadcast use vstd::string::group_string_axioms;

/// `p` occurs in `s` starting at index `i`.
pub open spec fn occurs_at(s: Seq<char>, p: Seq<char>, i: int) -> bool {
    0 <= i && i + p.len() <= s.len() && s.subrange(i, i + p.len()) == p
}

/// `p` occurs somewhere in `s`.
pub open spec fn contains(s: Seq<char>, p: Seq<char>) -> bool {
    exists|i: int| occurs_at(s, p, i)
}

/// The characters of a string slice, in order.
pub fn chars_of(s: &str) -> (r: Vec<char>)
    ensures
        r@ == s@,
{
    let mut out: Vec<char> = Vec::new();
    for c in iter: s.chars()
        invariant
            out@ == iter.seq().take(iter.index() as int),
            iter.seq() == s@,
    {
        out.push(c);
    }
    assert(out@ =~= s@);
    out
}

/// Whether `p` occurs in `s` at index `i`.
fn matches_at(s: &Vec<char>, p: &Vec<char>, i: usize) -> (r: bool)
    requires
        i + p@.len() <= s@.len(),
    ensures
        r == occurs_at(s@, p@, i as int),
{
    let n: usize = s.len();
    let mut j: usize = 0;
    while j < p.len()
        invariant
            n == s@.len(),
            i + p@.len() <= s@.len(),
            j <= p@.len(),
            forall|k: int| 0 <= k < j ==> s@[i + k] == p@[k],
        decreases p@.len() - j,
    {
        assert(i + j < s@.len());
        if s[i + j] != p[j] {
            assert(s@.subrange(i as int, i + p@.len())[j as int] != p@[j as int]);
            return false;
        }
        j = j + 1;
    }
    assert(s@.subrange(i as int, i + p@.len()) =~= p@);
    true
}

/// Whether `p` occurs anywhere in `s`.
pub fn contains_chars(s: &Vec<char>, p: &Vec<char>) -> (r: bool)
    ensures
        r == contains(s@, p@),
{
    if p.len() > s.len() {
        return false;
    }
    if p.len() == 0 {
        assert(s@.subrange(0, 0) =~= p@);
        assert(occurs_at(s@, p@, 0));
        return true;
    }
    let n: usize = s.len();
    let last: usize = n - p.len();
    let mut i: usize = 0;
    while i <= last
        invariant
            p@.len() > 0,
            n == s@.len(),
            last == s@.len() - p@.len(),
            i <= last + 1,
            forall|k: int| 0 <= k < i ==> !occurs_at(s@, p@, k),
        decreases last + 1 - i,
    {
        if matches_at(s, p, i) {
            return true;
        }
        i = i + 1;
    }
    assert forall|k: int| !occurs_at(s@, p@, k) by {
        if 0 <= k < i {
        }
    }
    false
}

/// Index of the first `c` in `s` at or after `i`, or `s.len()` when none.
pub open spec fn scan_from(s: Seq<char>, c: char, i: int) -> int
    decreases s.len() - i,
{
    if i >= s.len() {
        s.len() as int
    } else if s[i] == c {
        i
    } else {
        scan_from(s, c, i + 1)
    }
}

/// Index of the first `c` in `s`, or `s.len()` when none.
pub open spec fn first_index(s: Seq<char>, c: char) -> int {
    scan_from(s, c, 0)
}

/// The text between the first and the second `c` of `s` (or the end of `s`),
/// when `s` holds a `c` at all: the second piece of `s` split at `c`.
pub open spec fn second_piece(s: Seq<char>, c: char) -> Option<Seq<char>> {
    let i = first_index(s, c);
    if i >= s.len() {
        None
    } else {
        Some(s.subrange(i + 1, scan_from(s, c, i + 1)))
    }
}

/// Characters with the Unicode `White_Space` property.
pub open spec fn is_whitespace(c: char) -> bool {
    let u = c as u32;
    (0x9 <= u <= 0xd) || u == 0x20 || u == 0x85 || u == 0xa0 || u == 0x1680 || (0x2000 <= u
        <= 0x200a) || u == 0x2028 || u == 0x2029 || u == 0x202f || u == 0x205f || u == 0x3000
}

/// The ASCII whitespace characters: space, tab, line feed, form feed, carriage return.
pub open spec fn is_ascii_ws(c: char) -> bool {
    c == ' ' || c == '\t' || c == '\n' || c == '\x0C' || c == '\r'
}

/// Index of the first character at or after `i` that is not whitespace.
pub open spec fn skip_ws(s: Seq<char>, i: int) -> int
    decreases s.len() - i,
{
    if i >= s.len() {
        s.len() as int
    } else if !is_whitespace(s[i]) {
        i
    } else {
        skip_ws(s, i + 1)
    }
}

/// One past the last character before `j` that is not whitespace, or 0.
pub open spec fn skip_ws_back(s: Seq<char>, j: int) -> int
    decreases j,
{
    if j <= 0 {
        0
    } else if !is_whitespace(s[j - 1]) {
        j
    } else {
        skip_ws_back(s, j - 1)
    }
}

/// `s` without leading and trailing whitespace.
pub open spec fn trim(s: Seq<char>) -> Seq<char> {
    let a = skip_ws(s, 0);
    if a >= s.len() {
        Seq::empty()
    } else {
        s.subrange(a, skip_ws_back(s, s.len() as int))
    }
}

/// `s` with every `c` taken out.
pub open spec fn remove_all(s: Seq<char>, c: char) -> Seq<char>
    decreases s.len(),
{
    if s.len() == 0 {
        Seq::empty()
    } else {
        let r = remove_all(s.drop_last(), c);
        if s.last() == c {
            r
        } else {
            r.push(s.last())
        }
    }
}

/// Index of the first `c` in `s` at or after `from`, or `s.len()`.
pub fn find_char(s: &Vec<char>, c: char, from: usize) -> (r: usize)
    requires
        from <= s@.len(),
    ensures
        r == scan_from(s@, c, from as int),
{
    let n: usize = s.len();
    let mut i: usize = from;
    while i < n
        invariant
            n == s@.len(),
            from <= i <= n,
            scan_from(s@, c, from as int) == scan_from(s@, c, i as int),
        decreases n - i,
    {
        if s[i] == c {
            return i;
        }
        i = i + 1;
    }
    i
}

/// The second piece of `s` split at `c`, as an index range of `s`.
pub fn second_piece_range(s: &Vec<char>, c: char) -> (r: Option<(usize, usize)>)
    ensures
        match (r, second_piece(s@, c)) {
            (None, None) => true,
            (Some(p), Some(t)) => p.0 <= p.1 <= s@.len() && s@.subrange(p.0 as int, p.1 as int)
                == t,
            _ => false,
        },
{
    let i = find_char(s, c, 0);
    if i >= s.len() {
        return None;
    }
    let j = find_char(s, c, i + 1);
    proof {
        lemma_scan_from_bounds(s@, c, i + 1);
    }
    Some((i + 1, j))
}

/// A scan for `c` from `i` stops within `i..=s.len()`.
pub proof fn lemma_scan_from_bounds(s: Seq<char>, c: char, i: int)
    requires
        0 <= i <= s.len(),
    ensures
        i <= scan_from(s, c, i) <= s.len(),
    decreases s.len() - i,
{
    if i < s.len() && s[i] != c {
        lemma_scan_from_bounds(s, c, i + 1);
    }
}

/// Whether `c` has the Unicode `White_Space` property.
pub fn is_whitespace_char(c: char) -> (r: bool)
    ensures
        r == is_whitespace(c),
{
    let u = c as u32;
    (0x9 <= u && u <= 0xd) || u == 0x20 || u == 0x85 || u == 0xa0 || u == 0x1680 || (0x2000 <= u
        && u <= 0x200a) || u == 0x2028 || u == 0x2029 || u == 0x202f || u == 0x205f || u == 0x3000
}

/// Whether `c` is ASCII whitespace.
pub fn is_ascii_ws_char(c: char) -> (r: bool)
    ensures
        r == is_ascii_ws(c),
{
    c == ' ' || c == '\t' || c == '\n' || c == '\x0C' || c == '\r'
}

/// The index range of `s[a..b]` that remains once its whitespace is trimmed.
pub fn trim_range(s: &Vec<char>, a: usize, b: usize) -> (r: (usize, usize))
    requires
        a <= b <= s@.len(),
    ensures
        a <= r.0 <= r.1 <= b,
        s@.subrange(r.0 as int, r.1 as int) == trim(s@.subrange(a as int, b as int)),
{
    let ghost t = s@.subrange(a as int, b as int);
    let mut i: usize = a;
    while i < b && is_whitespace_char(s[i])
        invariant
            a <= i <= b <= s@.len(),
            t == s@.subrange(a as int, b as int),
            skip_ws(t, 0) == skip_ws(t, i - a),
        decreases b - i,
    {
        i = i + 1;
    }
    if i == b {
        return (b, b);
    }
    let mut j: usize = b;
    while is_whitespace_char(s[j - 1])
        invariant
            a <= i < j <= b <= s@.len(),
            !is_whitespace(s@[i as int]),
            t == s@.subrange(a as int, b as int),
            skip_ws_back(t, t.len() as int) == skip_ws_back(t, j - a),
        decreases j,
    {
        j = j - 1;
    }
    assert(skip_ws(t, i - a) == i - a);
    assert(skip_ws_back(t, j - a) == j - a);
    assert(t.subrange(i - a, j - a) =~= s@.subrange(i as int, j as int));
    (i, j)
}

/// Every character of `s` other than `c`, in order.
pub fn remove_char(s: &Vec<char>, c: char) -> (r: Vec<char>)
    ensures
        r@ == remove_all(s@, c),
{
    let mut out: Vec<char> = Vec::new();
    let n: usize = s.len();
    let mut i: usize = 0;
    while i < n
        invariant
            n == s@.len(),
            i <= n,
            out@ == remove_all(s@.take(i as int), c),
        decreases n - i,
    {
        assert(s@.take(i + 1).drop_last() =~= s@.take(i as int));
        if s[i] != c {
            out.push(s[i]);
        }
        i = i + 1;
    }
    assert(s@.take(n as int) =~= s@);
    out
}

/// The characters `s[a..b]` as a vector of their own.
pub fn copy_range(s: &Vec<char>, a: usize, b: usize) -> (r: Vec<char>)
    requires
        a <= b <= s@.len(),
    ensures
        r@ == s@.subrange(a as int, b as int),
{
    let mut out: Vec<char> = Vec::new();
    let mut i: usize = a;
    while i < b
        invariant
            a <= i <= b <= s@.len(),
            out@ == s@.subrange(a as int, i as int),
        decreases b - i,
    {
        out.push(s[i]);
        i = i + 1;
        assert(out@ =~= s@.subrange(a as int, i as int));
    }
    out
}

/// Scanning `s[..i]` for runs of non-whitespace: the runs already closed, as
/// half-open index ranges, and the start of a run still open (or -1).
pub open spec fn token_scan(s: Seq<char>, i: int) -> (Seq<(int, int)>, int)
    decreases i,
{
    if i <= 0 {
        (Seq::empty(), -1)
    } else {
        let (done, open) = token_scan(s, i - 1);
        if is_ascii_ws(s[i - 1]) {
            if open >= 0 {
                (done.push((open, i - 1)), -1)
            } else {
                (done, -1)
            }
        } else if open >= 0 {
            (done, open)
        } else {
            (done, i - 1)
        }
    }
}

/// The index ranges of the maximal runs of non-ASCII-whitespace characters of
/// `s`, in order: the words of `s` split at ASCII whitespace.
pub open spec fn token_spans(s: Seq<char>) -> Seq<(int, int)> {
    let (done, open) = token_scan(s, s.len() as int);
    if open >= 0 {
        done.push((open, s.len() as int))
    } else {
        done
    }
}

/// The index ranges of the words of `s` split at ASCII whitespace.
pub fn ascii_word_spans(s: &Vec<char>) -> (r: Vec<(usize, usize)>)
    ensures
        r@.len() == token_spans(s@).len(),
        forall|k: int| 0 <= k < r@.len() ==> (#[trigger] r@[k]).0 <= r@[k].1 <= s@.len(),
        forall|k: int|
            0 <= k < r@.len() ==> r@[k].0 as int == token_spans(s@)[k].0 && r@[k].1 as int
                == token_spans(s@)[k].1,
{
    let mut done: Vec<(usize, usize)> = Vec::new();
    let mut open: Option<usize> = None;
    let n: usize = s.len();
    let mut i: usize = 0;
    while i < n
        invariant
            n == s@.len(),
            i <= n,
            done@.len() == token_scan(s@, i as int).0.len(),
            forall|k: int| 0 <= k < done@.len() ==> (#[trigger] done@[k]).0 <= done@[k].1 <= i,
            forall|k: int|
                0 <= k < done@.len() ==> done@[k].0 as int == token_scan(s@, i as int).0[k].0
                    && done@[k].1 as int == token_scan(s@, i as int).0[k].1,
            match open {
                Some(o) => o < i && token_scan(s@, i as int).1 == o as int,
                None => token_scan(s@, i as int).1 == -1,
            },
        decreases n - i,
    {
        if is_ascii_ws_char(s[i]) {
            match open {
                Some(o) => {
                    done.push((o, i));
                },
                None => {},
            }
            open = None;
        } else {
            match open {
                Some(_) => {},
                None => {
                    open = Some(i);
                },
            }
        }
        i = i + 1;
    }
    match open {
        Some(o) => {
            done.push((o, n));
        },
        None => {},
    }
    done
}

/// `s[a..b]` is a word of `s`: a non-empty run of characters that are not
/// ASCII whitespace, with whitespace or an end of `s` on each side.
pub open spec fn is_word(s: Seq<char>, a: int, b: int) -> bool {
    &&& 0 <= a < b <= s.len()
    &&& forall|j: int| a <= j < b ==> !is_ascii_ws(#[trigger] s[j])
    &&& (a == 0 || is_ascii_ws(s[a - 1]))
    &&& (b == s.len() || is_ascii_ws(s[b]))
}

/// What holds of the scan of `s[..i]`: closed runs are words ending before
/// `i`, in order; an open run reaches `i`; every other character before `i`
/// lies in one of them.
pub open spec fn scan_sound(s: Seq<char>, i: int) -> bool {
    let (done, open) = token_scan(s, i);
    &&& forall|k: int| 0 <= k < done.len() ==> is_word(s, (#[trigger] done[k]).0, done[k].1)
        && done[k].1 < i
    &&& forall|k: int| 0 <= k < done.len() - 1 ==> (#[trigger] done[k]).1 < done[k + 1].0
    &&& (open >= 0 ==> 0 <= open < i && (done.len() == 0 || done.last().1 < open) && (open == 0
        || is_ascii_ws(s[open - 1])) && forall|j: int| open <= j < i ==> !is_ascii_ws(#[trigger] s[j]))
    &&& (open < 0 ==> open == -1 && (i == 0 || is_ascii_ws(s[i - 1])))
    &&& forall|j: int|
        0 <= j < i && !is_ascii_ws(#[trigger] s[j]) ==> (open >= 0 && open <= j) || exists|k: int|
            0 <= k < done.len() && (#[trigger] done[k]).0 <= j < done[k].1
}

proof fn lemma_scan_sound(s: Seq<char>, i: int)
    requires
        0 <= i <= s.len(),
    ensures
        scan_sound(s, i),
    decreases i,
{
    if i > 0 {
        lemma_scan_sound(s, i - 1);
        let (done, open) = token_scan(s, i - 1);
        let (nd, no) = token_scan(s, i);
        if is_ascii_ws(s[i - 1]) && open >= 0 {
            assert(nd == done.push((open, i - 1)));
            assert forall|j: int| 0 <= j < i && !is_ascii_ws(#[trigger] s[j]) implies (no >= 0
                && no <= j) || exists|k: int| 0 <= k < nd.len() && (#[trigger] nd[k]).0 <= j < nd[k].1 by {
                if open <= j {
                    assert(nd[done.len() as int] == (open, i - 1));
                } else {
                    let k = choose|k: int| 0 <= k < done.len() && (#[trigger] done[k]).0 <= j < done[k].1;
                    assert(nd[k] == done[k]);
                }
            }
        } else if !is_ascii_ws(s[i - 1]) {
            assert forall|j: int| 0 <= j < i && !is_ascii_ws(#[trigger] s[j]) implies (no >= 0
                && no <= j) || exists|k: int| 0 <= k < nd.len() && (#[trigger] nd[k]).0 <= j < nd[k].1 by {
                if j < i - 1 && !(open >= 0 && open <= j) {
                    let k = choose|k: int| 0 <= k < done.len() && (#[trigger] done[k]).0 <= j < done[k].1;
                    assert(nd[k] == done[k]);
                }
            }
        }
    }
}

/// The words of `s`, split at ASCII whitespace, are its maximal runs of
/// other characters, in order, and every such character lies in one.
pub proof fn lemma_word_spans(s: Seq<char>)
    ensures
        forall|k: int|
            0 <= k < token_spans(s).len() ==> is_word(
                s,
                (#[trigger] token_spans(s)[k]).0,
                token_spans(s)[k].1,
            ),
        forall|k: int|
            0 <= k < token_spans(s).len() - 1 ==> (#[trigger] token_spans(s)[k]).1 < token_spans(
                s,
            )[k + 1].0,
        forall|j: int|
            0 <= j < s.len() && !is_ascii_ws(#[trigger] s[j]) ==> exists|k: int|
                0 <= k < token_spans(s).len() && (#[trigger] token_spans(s)[k]).0 <= j < token_spans(s)[k].1,
{
    lemma_scan_sound(s, s.len() as int);
    let (done, open) = token_scan(s, s.len() as int);
    let w = token_spans(s);
    if open >= 0 {
        assert(w == done.push((open, s.len() as int)));
        assert forall|j: int| 0 <= j < s.len() && !is_ascii_ws(#[trigger] s[j]) implies exists|
            k: int,
        | 0 <= k < w.len() && (#[trigger] w[k]).0 <= j < w[k].1 by {
            if open <= j {
                assert(w[done.len() as int] == (open, s.len() as int));
            } else {
                let k = choose|k: int| 0 <= k < done.len() && (#[trigger] done[k]).0 <= j < done[k].1;
                assert(w[k] == done[k]);
            }
        }
    }
}

} // verus!
