//! Reports rendered from known hits, and the law that reading such a report
//! gives back exactly those hits, in order.

use vstd::prelude::*;
use crate::number::{all_digits, digit_value, digits_value, is_digit, unsigned_text};
use crate::report::{
    bounds_of, collect_hits, collect_zones, evalue_of, evalue_text, expect_marker, first_marked,
    hit_marker, hit_of, hit_ranges, marked_lines, query_marker,
    ranges_of, record_ref_of, report_of, subject_marker, zone_of, zone_ranges, HitView,
    ReportError, ZoneView,
};
use crate::score::{scan_exp, score_of, signed_of, Score};
use crate::text::{
    contains, first_index, is_ascii_ws, is_whitespace, occurs_at, remove_all, scan_from,
    second_piece, skip_ws, skip_ws_back, token_scan, token_spans, trim,
};

verus! {

/// `c` occurs nowhere in `s`.
pub open spec fn lacks(s: Seq<char>, c: char) -> bool {
    forall|i: int| 0 <= i < s.len() ==> s[i] != c
}

/// The character of the decimal digit `d`.
pub open spec fn digit_char(d: nat) -> char {
    seq!['0', '1', '2', '3', '4', '5', '6', '7', '8', '9'][d as int]
}

/// The decimal digits of `n`, without leading zeros.
pub open spec fn decimal(n: nat) -> Seq<char>
    decreases n,
{
    if n < 10 {
        seq![digit_char(n)]
    } else {
        decimal(n / 10).push(digit_char(n % 10))
    }
}

proof fn lemma_digit_char(d: nat)
    requires
        d < 10,
    ensures
        is_digit(digit_char(d)),
        digit_value(digit_char(d)) == d,
{
    let s = seq!['0', '1', '2', '3', '4', '5', '6', '7', '8', '9'];
    assert(s[0] == '0' && s[1] == '1' && s[2] == '2' && s[3] == '3' && s[4] == '4');
    assert(s[5] == '5' && s[6] == '6' && s[7] == '7' && s[8] == '8' && s[9] == '9');
}

proof fn lemma_decimal(n: nat)
    ensures
        decimal(n).len() > 0,
        all_digits(decimal(n)),
        digits_value(decimal(n)) == n,
    decreases n,
{
    if n < 10 {
        lemma_digit_char(n);
        assert(decimal(n).drop_last() =~= Seq::<char>::empty());
        assert(digits_value(Seq::<char>::empty()) == 0);
    } else {
        lemma_decimal(n / 10);
        lemma_digit_char(n % 10);
        assert(decimal(n).drop_last() =~= decimal(n / 10));
        assert(decimal(n).last() == digit_char(n % 10));
        assert(digits_value(decimal(n)) == digits_value(decimal(n / 10)) * 10 + digit_value(
            digit_char(n % 10),
        ));
        assert((n / 10) * 10 + n % 10 == n);
    }
}

proof fn lemma_absent_char(s: Seq<char>, m: Seq<char>, j: int)
    requires
        0 <= j < m.len(),
        lacks(s, m[j]),
    ensures
        !contains(s, m),
{
    assert forall|i: int| !occurs_at(s, m, i) by {
        if occurs_at(s, m, i) {
            assert(s.subrange(i, i + m.len())[j] == s[i + j]);
        }
    }
}

proof fn lemma_contains_after_prefix(p: Seq<char>, t: Seq<char>, m: Seq<char>)
    requires
        m.len() > 0,
        lacks(p, m[0]),
        !contains(t, m),
    ensures
        !contains(p + t, m),
{
    let s = p + t;
    assert forall|i: int| !occurs_at(s, m, i) by {
        if occurs_at(s, m, i) {
            assert(s.subrange(i, i + m.len())[0] == s[i]);
            if i < p.len() {
                assert(s[i] == p[i]);
            } else {
                assert(s.subrange(i, i + m.len()) =~= t.subrange(i - p.len(), i - p.len() + m.len()));
                assert(occurs_at(t, m, i - p.len()));
            }
        }
    }
}

/// The text of a signed exponent: a `-` for a negative one, then its digits.
pub open spec fn exponent_text(e: int) -> Seq<char> {
    if e < 0 {
        seq!['-'] + decimal((-e) as nat)
    } else {
        decimal(e as nat)
    }
}

/// The text of a score: the mantissa's digits, `e`, the exponent.
pub open spec fn score_text(s: Score) -> Seq<char> {
    decimal(s.mantissa as nat) + seq!['e'] + exponent_text(s.exponent as int)
}

proof fn lemma_scan_digits(m: Seq<char>, c: char, i: int)
    requires
        0 <= i <= m.len(),
        all_digits(m),
        !is_digit(c),
    ensures
        scan_from(m, c, i) == m.len(),
    decreases m.len() - i,
{
    if i < m.len() {
        lemma_scan_digits(m, c, i + 1);
    }
}

proof fn lemma_scan_exp_digits(t: Seq<char>, i: int, k: int)
    requires
        0 <= i <= k < t.len(),
        forall|j: int| 0 <= j < k ==> is_digit(#[trigger] t[j]),
        t[k] == 'e',
    ensures
        scan_exp(t, i) == k,
    decreases k - i,
{
    if i < k {
        assert(is_digit(t[i]));
        lemma_scan_exp_digits(t, i + 1, k);
    }
}

/// The exponent's text spells the exponent.
proof fn lemma_exponent_text(e: int)
    requires
        -(u64::MAX as int) <= e <= u64::MAX,
    ensures
        signed_of(exponent_text(e)) == Some(e),
{
    let x = exponent_text(e);
    if e < 0 {
        lemma_decimal((-e) as nat);
        assert(x.drop_first() =~= decimal((-e) as nat));
    } else {
        lemma_decimal(e as nat);
        assert(is_digit(x[0]));
        assert(unsigned_text(x) == x);
    }
}

/// Reading a score's text gives the score back.
pub proof fn lemma_score_text(s: Score)
    ensures
        score_of(score_text(s)) == Some(s),
{
    let dm = decimal(s.mantissa as nat);
    let st = score_text(s);
    lemma_decimal(s.mantissa as nat);
    lemma_exponent_text(s.exponent as int);
    let k = dm.len() as int;
    assert(is_digit(st[0]));
    assert(unsigned_text(st) == st);
    assert forall|j: int| 0 <= j < k implies is_digit(#[trigger] st[j]) by {
        assert(st[j] == dm[j]);
    }
    lemma_scan_exp_digits(st, 0, k);
    let m = st.subrange(0, k);
    assert(m =~= dm);
    lemma_scan_digits(m, '.', 0);
    assert(m.subrange(0, k) =~= m);
    assert(m.subrange(0, k) + Seq::<char>::empty() =~= m);
    assert(st.subrange(k + 1, st.len() as int) =~= exponent_text(s.exponent as int));
}

/// The declaration line of a hit with identifier `id`.
pub open spec fn hit_line(id: Seq<char>) -> Seq<char> {
    seq!['>', ' '] + id
}

/// The statistics line of a hit with score `sc`.
pub open spec fn stats_line(sc: Score) -> Seq<char> {
    seq![','] + expect_marker() + seq!['='] + score_text(sc)
}

/// The subject line of a hit with subject bounds `b`.
pub open spec fn subject_line(b: (usize, usize)) -> Seq<char> {
    subject_marker() + seq![' '] + decimal(b.0 as nat) + seq![' ', 'A', ' '] + decimal(b.1 as nat)
}

/// A character of a score's text.
pub open spec fn score_char(c: char) -> bool {
    is_digit(c) || c == 'e' || c == '-'
}

proof fn lemma_score_text_chars(sc: Score)
    ensures
        forall|i: int| 0 <= i < score_text(sc).len() ==> score_char(#[trigger] score_text(sc)[i]),
        score_text(sc).len() > 0,
        is_digit(score_text(sc)[0]),
        is_digit(score_text(sc).last()),
{
    let dm = decimal(sc.mantissa as nat);
    let e = sc.exponent as int;
    lemma_decimal(sc.mantissa as nat);
    let de = if e < 0 {
        decimal((-e) as nat)
    } else {
        decimal(e as nat)
    };
    lemma_decimal((if e < 0 { -e } else { e }) as nat);
    let st = score_text(sc);
    assert forall|i: int| 0 <= i < st.len() implies score_char(#[trigger] st[i]) by {
        if i < dm.len() {
            assert(st[i] == dm[i]);
        } else if i == dm.len() {
        } else if e < 0 {
            if i > dm.len() + 1 {
                assert(st[i] == de[i - dm.len() - 2]);
            }
        } else {
            assert(st[i] == de[i - dm.len() - 1]);
        }
    }
    assert(st.last() == de.last());
}

proof fn lemma_scan_none(s: Seq<char>, c: char, i: int)
    requires
        0 <= i <= s.len(),
        forall|j: int| i <= j < s.len() ==> s[j] != c,
    ensures
        scan_from(s, c, i) == s.len(),
    decreases s.len() - i,
{
    if i < s.len() {
        lemma_scan_none(s, c, i + 1);
    }
}

proof fn lemma_scan_to(s: Seq<char>, c: char, i: int, k: int)
    requires
        0 <= i <= k < s.len(),
        forall|j: int| i <= j < k ==> s[j] != c,
        s[k] == c,
    ensures
        scan_from(s, c, i) == k,
    decreases k - i,
{
    if i < k {
        lemma_scan_to(s, c, i + 1, k);
    }
}

proof fn lemma_trim_plain(t: Seq<char>)
    requires
        t.len() > 0,
        !is_whitespace(t[0]),
        !is_whitespace(t.last()),
    ensures
        trim(t) == t,
{
    assert(t.subrange(0, t.len() as int) =~= t);
}

proof fn lemma_remove_leading(s: Seq<char>, c: char)
    requires
        s.len() > 0,
        s[0] == c,
        forall|i: int| 1 <= i < s.len() ==> s[i] != c,
    ensures
        remove_all(s, c) == s.subrange(1, s.len() as int),
    decreases s.len(),
{
    if s.len() == 1 {
        assert(s.drop_last() =~= Seq::<char>::empty());
        assert(s.last() == c);
        assert(remove_all(s.drop_last(), c) =~= Seq::<char>::empty());
        assert(s.subrange(1, 1) =~= Seq::<char>::empty());
    } else {
        assert(s.last() == s[s.len() - 1]);
        assert(s.drop_last()[0] == c);
        assert forall|i: int| 1 <= i < s.drop_last().len() implies s.drop_last()[i] != c by {
            assert(s.drop_last()[i] == s[i]);
        }
        lemma_remove_leading(s.drop_last(), c);
        assert(s.drop_last().subrange(1, s.len() - 1).push(s.last()) =~= s.subrange(
            1,
            s.len() as int,
        ));
    }
}

/// The identifier read back from its declaration line.
proof fn lemma_hit_line_ref(id: Seq<char>)
    requires
        id.len() > 0,
        lacks(id, '>'),
        !is_whitespace(id[0]),
        !is_whitespace(id.last()),
    ensures
        record_ref_of(hit_line(id)) == id,
{
    let l = hit_line(id);
    assert forall|i: int| 1 <= i < l.len() implies l[i] != '>' by {
        if i >= 2 {
            assert(l[i] == id[i - 2]);
        }
    }
    lemma_remove_leading(l, '>');
    let t = l.subrange(1, l.len() as int);
    assert(t =~= seq![' '] + id);
    assert(skip_ws(t, 1) == 1);
    assert(skip_ws_back(t, t.len() as int) == t.len());
    assert(t.subrange(1, t.len() as int) =~= id);
}

proof fn lemma_expect_chars()
    ensures
        forall|i: int| 0 <= i < 6 ==> score_char(#[trigger] expect_marker()[i]) || (
        expect_marker()[i] != ',' && expect_marker()[i] != '='),
        expect_marker().len() == 6,
{
}

/// The score read back from its statistics line.
proof fn lemma_stats_line_score(sc: Score)
    ensures
        evalue_of(stats_line(sc)) == Some(sc),
{
    let l = stats_line(sc);
    let st = score_text(sc);
    let em = expect_marker();
    lemma_score_text_chars(sc);
    assert(em =~= seq!['E', 'x', 'p', 'e', 'c', 't']);
    assert forall|j: int| 1 <= j < l.len() implies l[j] != ',' by {
        if j >= 8 {
            assert(l[j] == st[j - 8]);
        } else if j < 7 {
            assert(l[j] == em[j - 1]);
        }
    }
    assert(first_index(l, ',') == 0);
    lemma_scan_none(l, ',', 1);
    let p = l.subrange(1, l.len() as int);
    assert(p =~= em + seq!['='] + st);
    assert(second_piece(l, ',') == Some(p));
    assert forall|j: int| 7 <= j < p.len() implies p[j] != '=' by {
        assert(p[j] == st[j - 7]);
    }
    assert forall|j: int| 0 <= j < 6 implies p[j] != '=' by {
        assert(p[j] == em[j]);
    }
    assert(p[6] == '=');
    lemma_scan_to(p, '=', 0, 6);
    lemma_scan_none(p, '=', 7);
    assert(p.subrange(7, p.len() as int) =~= st);
    assert(second_piece(p, '=') == Some(st));
    lemma_trim_plain(st);
    assert(evalue_text(l) == Some(st));
    lemma_score_text(sc);
}

proof fn lemma_word_run(s: Seq<char>, p: int, q: int, done: Seq<(int, int)>)
    requires
        0 <= p < q <= s.len(),
        forall|j: int| p <= j < q ==> !is_ascii_ws(#[trigger] s[j]),
        token_scan(s, p) == (done, -1int),
    ensures
        token_scan(s, q) == (done, p),
    decreases q - p,
{
    if q > p + 1 {
        lemma_word_run(s, p, q - 1, done);
    }
}

proof fn lemma_word_end(s: Seq<char>, q: int, done: Seq<(int, int)>, o: int)
    requires
        0 <= o <= q < s.len(),
        is_ascii_ws(s[q]),
        token_scan(s, q) == (done, o),
    ensures
        token_scan(s, q + 1) == (done.push((o, q)), -1int),
{
}

proof fn lemma_digits_not_ws(d: Seq<char>)
    requires
        all_digits(d),
    ensures
        forall|j: int| 0 <= j < d.len() ==> !is_ascii_ws(#[trigger] d[j]),
{
    assert forall|j: int| 0 <= j < d.len() implies !is_ascii_ws(#[trigger] d[j]) by {
        assert(is_digit(d[j]));
    }
}

/// The subject bounds read back from their subject line.
proof fn lemma_subject_line_bounds(b: (usize, usize))
    ensures
        bounds_of(subject_line(b)) == Some(b),
{
    let s = subject_line(b);
    let da = decimal(b.0 as nat);
    let db = decimal(b.1 as nat);
    lemma_decimal(b.0 as nat);
    lemma_decimal(b.1 as nat);
    lemma_digits_not_ws(da);
    lemma_digits_not_ws(db);
    let a = da.len() as int;
    let sm = subject_marker();
    assert(sm =~= seq!['S', 'b', 'j', 'c', 't']);
    assert(s.len() == 9 + a + db.len());
    assert forall|j: int| 0 <= j < 5 implies !is_ascii_ws(#[trigger] s[j]) by {
        assert(s[j] == sm[j]);
    }
    assert forall|j: int| 6 <= j < 6 + a implies !is_ascii_ws(#[trigger] s[j]) by {
        assert(s[j] == da[j - 6]);
    }
    assert forall|j: int| 9 + a <= j < s.len() implies !is_ascii_ws(#[trigger] s[j]) by {
        assert(s[j] == db[j - 9 - a]);
    }
    assert(s[5] == ' ' && s[6 + a] == ' ' && s[7 + a] == 'A' && s[8 + a] == ' ');
    let e = Seq::<(int, int)>::empty();
    assert(token_scan(s, 0) == (e, -1int));
    lemma_word_run(s, 0, 5, e);
    lemma_word_end(s, 5, e, 0);
    let d1 = e.push((0int, 5int));
    lemma_word_run(s, 6, 6 + a, d1);
    lemma_word_end(s, 6 + a, d1, 6);
    let d2 = d1.push((6int, 6 + a));
    lemma_word_run(s, 7 + a, 8 + a, d2);
    lemma_word_end(s, 8 + a, d2, 7 + a);
    let d3 = d2.push((7 + a, 8 + a));
    lemma_word_run(s, 9 + a, s.len() as int, d3);
    let w = token_spans(s);
    assert(w == d3.push((9 + a, s.len() as int)));
    assert(w[1] == (6int, 6 + a));
    assert(w[3] == (9 + a, s.len() as int));
    assert(s.subrange(6, 6 + a) =~= da);
    assert(s.subrange(9 + a, s.len() as int) =~= db);
    assert(is_digit(da[0]) && is_digit(db[0]));
    assert(unsigned_text(da) == da);
    assert(unsigned_text(db) == db);
}

/// An identifier that a synthetic report can carry: it starts with `NODE`,
/// holds no `>`, does not end in whitespace, and contains none of the
/// markers of query, statistics and subject lines.
pub open spec fn plain_identifier(id: Seq<char>) -> bool {
    &&& id.len() >= 4
    &&& id.take(4) == seq!['N', 'O', 'D', 'E']
    &&& lacks(id, '>')
    &&& !is_whitespace(id.last())
    &&& !contains(id, query_marker())
    &&& !contains(id, expect_marker())
    &&& !contains(id, subject_marker())
}

/// Line `i` of the synthetic report of `hits`: a query line, then three
/// lines per hit (declaration, statistics, subject).
pub open spec fn synthetic_line(hits: Seq<HitView>, i: int) -> Seq<char> {
    if i == 0 {
        query_marker()
    } else {
        let k = (i - 1) / 3;
        let r = (i - 1) % 3;
        if r == 0 {
            hit_line(hits[k].0)
        } else if r == 1 {
            stats_line(hits[k].1)
        } else {
            subject_line(hits[k].2)
        }
    }
}

proof fn lemma_hit_line_markers(id: Seq<char>)
    requires
        plain_identifier(id),
    ensures
        contains(hit_line(id), hit_marker()),
        !contains(hit_line(id), query_marker()),
        !contains(hit_line(id), expect_marker()),
        !contains(hit_line(id), subject_marker()),
{
    let l = hit_line(id);
    let p = seq!['>', ' '];
    assert(l.subrange(0, 6) =~= hit_marker()) by {
        assert(id.take(4)[0] == 'N' && id.take(4)[1] == 'O' && id.take(4)[2] == 'D' && id.take(
            4,
        )[3] == 'E');
    }
    assert(occurs_at(l, hit_marker(), 0));
    assert(query_marker()[0] == 'Q' && expect_marker()[0] == 'E' && subject_marker()[0] == 'S');
    lemma_contains_after_prefix(p, id, query_marker());
    lemma_contains_after_prefix(p, id, expect_marker());
    lemma_contains_after_prefix(p, id, subject_marker());
}

proof fn lemma_stats_line_markers(sc: Score)
    ensures
        contains(stats_line(sc), expect_marker()),
        !contains(stats_line(sc), query_marker()),
        !contains(stats_line(sc), hit_marker()),
        !contains(stats_line(sc), subject_marker()),
{
    let l = stats_line(sc);
    let st = score_text(sc);
    let em = expect_marker();
    lemma_score_text_chars(sc);
    assert(em =~= seq!['E', 'x', 'p', 'e', 'c', 't']);
    assert(l.subrange(1, 7) =~= em);
    assert(occurs_at(l, em, 1));
    assert forall|j: int| 0 <= j < l.len() implies l[j] != 'Q' && l[j] != '>' && l[j] != 'S' by {
        if j >= 8 {
            assert(l[j] == st[j - 8]);
        } else if 1 <= j < 7 {
            assert(l[j] == em[j - 1]);
        }
    }
    assert(query_marker()[0] == 'Q' && hit_marker()[0] == '>' && subject_marker()[0] == 'S');
    lemma_absent_char(l, query_marker(), 0);
    lemma_absent_char(l, hit_marker(), 0);
    lemma_absent_char(l, subject_marker(), 0);
}

proof fn lemma_subject_line_markers(b: (usize, usize))
    ensures
        contains(subject_line(b), subject_marker()),
        !contains(subject_line(b), query_marker()),
        !contains(subject_line(b), hit_marker()),
        !contains(subject_line(b), expect_marker()),
{
    let s = subject_line(b);
    let da = decimal(b.0 as nat);
    let db = decimal(b.1 as nat);
    lemma_decimal(b.0 as nat);
    lemma_decimal(b.1 as nat);
    let a = da.len() as int;
    let sm = subject_marker();
    assert(sm =~= seq!['S', 'b', 'j', 'c', 't']);
    assert(s.subrange(0, 5) =~= sm);
    assert(occurs_at(s, sm, 0));
    assert forall|j: int| 0 <= j < s.len() implies s[j] != 'Q' && s[j] != '>' && s[j] != 'E' by {
        if j < 5 {
            assert(s[j] == sm[j]);
        } else if 6 <= j < 6 + a {
            assert(s[j] == da[j - 6]);
            assert(is_digit(da[j - 6]));
        } else if 9 + a <= j {
            assert(s[j] == db[j - 9 - a]);
            assert(is_digit(db[j - 9 - a]));
        }
    }
    assert(query_marker()[0] == 'Q' && hit_marker()[0] == '>' && expect_marker()[0] == 'E');
    lemma_absent_char(s, query_marker(), 0);
    lemma_absent_char(s, hit_marker(), 0);
    lemma_absent_char(s, expect_marker(), 0);
}

/// The facts about line `i` of a synthetic report that reading it needs.
proof fn lemma_line(hits: Seq<HitView>, i: int)
    requires
        0 <= i < 1 + 3 * hits.len(),
        forall|k: int| 0 <= k < hits.len() ==> plain_identifier(#[trigger] hits[k].0),
    ensures
        contains(synthetic_line(hits, i), query_marker()) <==> i == 0,
        contains(synthetic_line(hits, i), hit_marker()) <==> i > 0 && (i - 1) % 3 == 0,
        i > 0 ==> (contains(synthetic_line(hits, i), expect_marker()) <==> (i - 1) % 3 == 1),
        i > 0 ==> (contains(synthetic_line(hits, i), subject_marker()) <==> (i - 1) % 3 == 2),
{
    if i == 0 {
        assert(query_marker().subrange(0, 6) =~= query_marker());
        assert(occurs_at(query_marker(), query_marker(), 0));
        assert(query_marker()[0] == 'Q' && hit_marker()[0] == '>');
        assert(lacks(query_marker(), '>'));
        lemma_absent_char(query_marker(), hit_marker(), 0);
    } else {
        let k = (i - 1) / 3;
        assert(0 <= k < hits.len());
        if (i - 1) % 3 == 0 {
            lemma_hit_line_markers(hits[k].0);
        } else if (i - 1) % 3 == 1 {
            lemma_stats_line_markers(hits[k].1);
        } else {
            lemma_subject_line_markers(hits[k].2);
        }
    }
}

/// The lines `ls` are the synthetic report of `hits`.
pub open spec fn is_synthetic_report(ls: Seq<String>, hits: Seq<HitView>) -> bool {
    &&& ls.len() == 1 + 3 * hits.len()
    &&& forall|i: int| 0 <= i < ls.len() ==> (#[trigger] ls[i])@ == synthetic_line(hits, i)
}

proof fn lemma_query_lines(ls: Seq<String>, hits: Seq<HitView>, hi: int)
    requires
        is_synthetic_report(ls, hits),
        ls.len() <= usize::MAX,
        1 <= hi <= ls.len(),
        forall|k: int| 0 <= k < hits.len() ==> plain_identifier(#[trigger] hits[k].0),
    ensures
        marked_lines(ls, query_marker(), 0, hi) == seq![0usize],
    decreases hi,
{
    lemma_line(hits, hi - 1);
    if hi == 1 {
        assert(marked_lines(ls, query_marker(), 0, 0) == Seq::<usize>::empty());
        assert(Seq::<usize>::empty().push(0usize) =~= seq![0usize]);
    } else {
        lemma_query_lines(ls, hits, hi - 1);
    }
}

proof fn lemma_hit_lines(ls: Seq<String>, hits: Seq<HitView>, hi: int)
    requires
        is_synthetic_report(ls, hits),
        ls.len() <= usize::MAX,
        0 <= hi <= ls.len(),
        forall|k: int| 0 <= k < hits.len() ==> plain_identifier(#[trigger] hits[k].0),
    ensures
        marked_lines(ls, hit_marker(), 0, hi) =~= Seq::new(
            ((hi + 1) / 3) as nat,
            |k: int| (1 + 3 * k) as usize,
        ),
    decreases hi,
{
    if hi > 0 {
        lemma_line(hits, hi - 1);
        lemma_hit_lines(ls, hits, hi - 1);
    }
}

proof fn lemma_hit_at(ls: Seq<String>, hits: Seq<HitView>, k: int)
    requires
        is_synthetic_report(ls, hits),
        ls.len() <= usize::MAX,
        0 <= k < hits.len(),
        forall|j: int| 0 <= j < hits.len() ==> plain_identifier(#[trigger] hits[j].0),
    ensures
        hit_of(ls, (1 + 3 * k) as usize, (3 + 3 * k) as usize) == Ok::<HitView, ReportError>(
            hits[k],
        ),
{
    let b = 1 + 3 * k;
    lemma_line(hits, b);
    lemma_line(hits, b + 1);
    lemma_line(hits, b + 2);
    assert(synthetic_line(hits, b) == hit_line(hits[k].0));
    assert(synthetic_line(hits, b + 1) == stats_line(hits[k].1));
    assert(synthetic_line(hits, b + 2) == subject_line(hits[k].2));
    assert(first_marked(ls, expect_marker(), b + 1, b + 3) == Some((b + 1) as usize));
    assert(first_marked(ls, expect_marker(), b, b + 3) == Some((b + 1) as usize));
    assert(first_marked(ls, subject_marker(), b + 2, b + 3) == Some((b + 2) as usize));
    assert(first_marked(ls, subject_marker(), b + 1, b + 3) == Some((b + 2) as usize));
    assert(first_marked(ls, subject_marker(), b, b + 3) == Some((b + 2) as usize));
    lemma_stats_line_score(hits[k].1);
    lemma_subject_line_bounds(hits[k].2);
    lemma_hit_line_ref(hits[k].0);
    assert(hits[k].0[0] == hits[k].0.take(4)[0]);
}

proof fn lemma_collect(ls: Seq<String>, hits: Seq<HitView>, rs: Seq<(usize, usize)>, k: int)
    requires
        is_synthetic_report(ls, hits),
        ls.len() <= usize::MAX,
        0 <= k <= hits.len(),
        rs.len() == hits.len(),
        forall|j: int|
            0 <= j < rs.len() ==> #[trigger] rs[j] == ((1 + 3 * j) as usize, (3 + 3 * j) as usize),
        forall|j: int| 0 <= j < hits.len() ==> plain_identifier(#[trigger] hits[j].0),
    ensures
        collect_hits(ls, rs, k) == Ok::<Seq<HitView>, ReportError>(hits.take(k)),
    decreases k,
{
    if k == 0 {
        assert(hits.take(0) =~= Seq::<HitView>::empty());
    } else {
        lemma_collect(ls, hits, rs, k - 1);
        lemma_hit_at(ls, hits, k - 1);
        assert(rs[k - 1] == ((1 + 3 * (k - 1)) as usize, (3 + 3 * (k - 1)) as usize));
        assert(hits.take(k - 1).push(hits[k - 1]) =~= hits.take(k));
    }
}

/// Reading the synthetic report of `hits` gives one zone, headed by the
/// query line, whose hits are exactly `hits`, in order: identifiers,
/// scores and subject bounds alike.
pub proof fn lemma_round_trip(ls: Seq<String>, hits: Seq<HitView>)
    requires
        is_synthetic_report(ls, hits),
        ls.len() <= usize::MAX,
        forall|k: int| 0 <= k < hits.len() ==> plain_identifier(#[trigger] hits[k].0),
    ensures
        report_of(ls) == Ok::<Seq<ZoneView>, ReportError>(seq![(query_marker(), hits)]),
{
    let n = hits.len() as int;
    let last = (ls.len() - 1) as usize;
    lemma_query_lines(ls, hits, ls.len() as int);
    let zs = ranges_of(seq![0usize], last);
    assert(zs =~= seq![(0usize, last)]);
    assert(zone_ranges(ls) == Ok::<Seq<(usize, usize)>, ReportError>(zs));
    lemma_hit_lines(ls, hits, ls.len() as int);
    let st = marked_lines(ls, hit_marker(), 0, ls.len() as int);
    assert(st.len() == n);
    let rs = hit_ranges(ls, (0usize, last));
    assert(rs == ranges_of(st, last));
    assert forall|j: int| 0 <= j < rs.len() implies #[trigger] rs[j] == (
        (1 + 3 * j) as usize,
        (3 + 3 * j) as usize,
    ) by {
        if j + 1 < n {
            assert(st[j + 1] == (1 + 3 * (j + 1)) as usize);
        }
    }
    lemma_collect(ls, hits, rs, n);
    assert(hits.take(n) =~= hits);
    assert(ls[0]@ == query_marker());
    assert(zone_of(ls, (0usize, last)) == Ok::<ZoneView, ReportError>((query_marker(), hits)));
    assert(collect_zones(ls, zs, 0) == Ok::<Seq<ZoneView>, ReportError>(Seq::empty()));
    assert(Seq::<ZoneView>::empty().push((query_marker(), hits)) =~= seq![(query_marker(), hits)]);
}

} // verus!
