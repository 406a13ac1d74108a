//! Significance scores, held exactly as a decimal `mantissa * 10^exponent`.

use vstd::prelude::*;
use crate::number::{all_digits, digits_value, digits_only, digits_to_u64, pow10, unsigned_text};
use crate::text::{copy_range, find_char, first_index, lemma_scan_from_bounds, scan_from};

verus! {

/// A non-negative decimal number `mantissa * 10^exponent`.
#[derive(Clone, Copy, Debug, PartialEq, Eq, Structural)]
pub struct Score {
    pub mantissa: u64,
    pub exponent: i64,
}

/// `a <= b` as numbers: both sides divided by ten to the smaller exponent.
pub open spec fn score_le(a: Score, b: Score) -> bool {
    if a.exponent >= b.exponent {
        a.mantissa * pow10((a.exponent - b.exponent) as nat) <= b.mantissa
    } else {
        a.mantissa <= b.mantissa * pow10((b.exponent - a.exponent) as nat)
    }
}

/// Index of the first `e` or `E` of `s` at or after `i`, or `s.len()`.
pub open spec fn scan_exp(s: Seq<char>, i: int) -> int
    decreases s.len() - i,
{
    if i >= s.len() {
        s.len() as int
    } else if s[i] == 'e' || s[i] == 'E' {
        i
    } else {
        scan_exp(s, i + 1)
    }
}

/// The signed integer spelt by `x`: an optional sign and at least one digit.
pub open spec fn signed_of(x: Seq<char>) -> Option<int> {
    if x.len() > 0 && x[0] == '-' {
        let d = x.drop_first();
        if d.len() > 0 && all_digits(d) {
            Some(-digits_value(d))
        } else {
            None
        }
    } else {
        let d = unsigned_text(x);
        if d.len() > 0 && all_digits(d) {
            Some(digits_value(d) as int)
        } else {
            None
        }
    }
}

/// The score that `s` spells: an optional `+`, a coefficient made of digits
/// with at most one `.` among them, and an optional exponent (`e` or `E`
/// followed by a signed integer). The coefficient must hold a digit, except
/// that it may be left out entirely before an exponent, where it counts as 1.
/// `None` where `s` has another shape or where the value does not fit a
/// `Score`.
pub open spec fn score_of(s: Seq<char>) -> Option<Score> {
    let t = unsigned_text(s);
    let e = scan_exp(t, 0);
    let m = t.subrange(0, e);
    let d = first_index(m, '.');
    let ip = m.subrange(0, d);
    let fp = if d < m.len() {
        m.subrange(d + 1, m.len() as int)
    } else {
        Seq::empty()
    };
    let ex = if e < t.len() {
        signed_of(t.subrange(e + 1, t.len() as int))
    } else {
        Some(0int)
    };
    let coefficient = if m.len() == 0 {
        1nat
    } else {
        digits_value(ip + fp)
    };
    if !all_digits(ip) || !all_digits(fp) {
        None
    } else if m.len() == 0 && e >= t.len() {
        None
    } else if m.len() > 0 && ip.len() + fp.len() == 0 {
        None
    } else if ex is None {
        None
    } else if ex->0 < -(u64::MAX as int) || ex->0 > u64::MAX {
        None
    } else if coefficient > u64::MAX {
        None
    } else if ex->0 - fp.len() < i64::MIN || ex->0 - fp.len() > i64::MAX {
        None
    } else {
        Some(Score { mantissa: coefficient as u64, exponent: (ex->0 - fp.len()) as i64 })
    }
}

/// Index of the first `e` or `E` of `s` at or after `from`, or `s.len()`.
fn find_exp(s: &Vec<char>, from: usize) -> (r: usize)
    requires
        from <= s@.len(),
    ensures
        r == scan_exp(s@, from as int),
        from <= r <= s@.len(),
{
    let n: usize = s.len();
    let mut i: usize = from;
    while i < n && s[i] != 'e' && s[i] != 'E'
        invariant
            n == s@.len(),
            from <= i <= n,
            scan_exp(s@, from as int) == scan_exp(s@, i as int),
        decreases n - i,
    {
        i = i + 1;
    }
    i
}

/// `s[a..b]` followed by `s[c..d]`, as a vector of its own.
fn join_ranges(s: &Vec<char>, a: usize, b: usize, c: usize, d: usize) -> (r: Vec<char>)
    requires
        a <= b <= s@.len(),
        c <= d <= s@.len(),
    ensures
        r@ == s@.subrange(a as int, b as int) + s@.subrange(c as int, d as int),
{
    let mut out = copy_range(s, a, b);
    let mut i: usize = c;
    while i < d
        invariant
            c <= i <= d <= s@.len(),
            out@ == s@.subrange(a as int, b as int) + s@.subrange(c as int, i as int),
        decreases d - i,
    {
        out.push(s[i]);
        i = i + 1;
        assert(out@ =~= s@.subrange(a as int, b as int) + s@.subrange(c as int, i as int));
    }
    out
}

/// The signed exponent spelt by `x`, when its magnitude fits in `u64`.
fn parse_exponent(x: &Vec<char>) -> (r: Option<(bool, u64)>)
    ensures
        match (r, signed_of(x@)) {
            (None, None) => true,
            (None, Some(v)) => v < -(u64::MAX as int) || v > u64::MAX,
            (Some((neg, m)), Some(v)) => v == if neg {
                -(m as int)
            } else {
                m as int
            },
            _ => false,
        },
{
    let n: usize = x.len();
    let neg = n > 0 && x[0] == '-';
    let start: usize = if n > 0 && (x[0] == '-' || x[0] == '+') {
        1
    } else {
        0
    };
    assert(x@.subrange(start as int, n as int) =~= if neg {
        x@.drop_first()
    } else {
        unsigned_text(x@)
    });
    if start == n || !digits_only(x, start, n) {
        return None;
    }
    match digits_to_u64(x, start, n) {
        Some(m) => Some((neg, m)),
        None => None,
    }
}

/// The score that `s` spells (see `score_of`).
#[verifier::rlimit(60)]
pub fn parse_score(s: &Vec<char>) -> (r: Option<Score>)
    ensures
        r == score_of(s@),
{
    let n: usize = s.len();
    let start: usize = if n > 0 && s[0] == '+' {
        1
    } else {
        0
    };
    let t = copy_range(s, start, n);
    assert(t@ =~= unsigned_text(s@));
    let tn: usize = t.len();
    let e = find_exp(&t, 0);
    let ghost m = t@.subrange(0, e as int);
    let d = find_char(&t, '.', 0);
    let dm: usize = if d < e {
        d
    } else {
        e
    };
    proof {
        lemma_first_index_prefix(t@, '.', e as int, 0);
    }
    assert(m.subrange(0, dm as int) =~= t@.subrange(0, dm as int));
    let fa: usize = if dm < e {
        dm + 1
    } else {
        e
    };
    assert(fa < e ==> m.subrange(dm + 1, m.len() as int) =~= t@.subrange(fa as int, e as int));
    assert(fa >= e ==> Seq::<char>::empty() =~= t@.subrange(fa as int, e as int));
    if !digits_only(&t, 0, dm) || !digits_only(&t, fa, e) {
        return None;
    }
    if e == 0 && e >= tn {
        return None;
    }
    if e > 0 && dm + (e - fa) == 0 {
        return None;
    }
    let ex: Option<(bool, u64)> = if e < tn {
        let xv = copy_range(&t, e + 1, tn);
        parse_exponent(&xv)
    } else {
        Some((false, 0))
    };
    let ghost exs = if e < tn {
        signed_of(t@.subrange(e + 1, tn as int))
    } else {
        Some(0int)
    };
    let (neg, em) = match ex {
        Some(p) => p,
        None => {
            return None;
        },
    };
    let coefficient: u64 = if e == 0 {
        1
    } else {
        let digits = join_ranges(&t, 0, dm, fa, e);
        match digits_to_u64(&digits, 0, digits.len()) {
            Some(v) => v,
            None => {
                assert(digits@.subrange(0, digits@.len() as int) =~= digits@);
                return None;
            },
        }
    };
    proof {
        if e > 0 {
            let digits = t@.subrange(0, dm as int) + t@.subrange(fa as int, e as int);
            assert(digits.subrange(0, digits.len() as int) =~= digits);
        }
    }
    let flen: i128 = (e - fa) as i128;
    let exponent: i128 = if neg {
        -(em as i128) - flen
    } else {
        em as i128 - flen
    };
    if exponent < i64::MIN as i128 || exponent > i64::MAX as i128 {
        return None;
    }
    Some(Score { mantissa: coefficient, exponent: exponent as i64 })
}

proof fn lemma_first_index_prefix(t: Seq<char>, c: char, e: int, i: int)
    requires
        0 <= i <= e <= t.len(),
    ensures
        scan_from(t.subrange(0, e), c, i) == if scan_from(t, c, i) < e {
            scan_from(t, c, i)
        } else {
            e
        },
    decreases e - i,
{
    if i < e && t[i] != c {
        lemma_first_index_prefix(t, c, e, i + 1);
    }
    if i < e {
        assert(t.subrange(0, e)[i] == t[i]);
    }
    lemma_scan_from_bounds(t, c, i);
}

proof fn lemma_pow10_adds(a: nat, b: nat)
    ensures
        pow10(a + b) == pow10(a) * pow10(b),
        pow10(a) >= 1,
    decreases a,
{
    if a > 0 {
        let a1 = (a - 1) as nat;
        lemma_pow10_adds(a1, b);
        assert(a + b == (a1 + b) + 1);
        assert(pow10(a + b) == 10 * pow10(a1 + b));
        assert(pow10(a) == 10 * pow10(a1));
        assert(10 * (pow10(a1) * pow10(b)) == (10 * pow10(a1)) * pow10(b)) by (nonlinear_arith);
    } else {
        assert(pow10(0) == 1);
        assert(a + b == b);
    }
}

/// Whether `m * 10^d <= t`.
fn scaled_at_most(m: u64, d: u128, t: u64) -> (r: bool)
    ensures
        r == (m * pow10(d as nat) <= t),
{
    if m == 0 {
        return true;
    }
    let mut x: u128 = m as u128;
    let mut k: u128 = 0;
    assert(pow10(0) == 1);
    while k < d && x <= t as u128
        invariant
            m > 0,
            k <= d,
            x as nat == m * pow10(k as nat),
            x <= 10 * (u64::MAX as int),
        decreases d - k,
    {
        proof {
            lemma_pow10_adds(1, k as nat);
        }
        assert(m * pow10((k + 1) as nat) == 10 * (m * pow10(k as nat))) by (nonlinear_arith)
            requires
                pow10((k + 1) as nat) == 10 * pow10(k as nat),
        ;
        x = x * 10;
        k = k + 1;
    }
    if x <= t as u128 {
        true
    } else {
        proof {
            lemma_pow10_adds((d - k) as nat, k as nat);
            let p = pow10((d - k) as nat);
            assert(m * pow10(d as nat) == (m * pow10(k as nat)) * p) by (nonlinear_arith)
                requires
                    pow10(d as nat) == p * pow10(k as nat),
            ;
            assert(x * p >= x) by (nonlinear_arith)
                requires
                    p >= 1,
                    x >= 0,
            ;
        }
        false
    }
}

/// Whether `m * 10^d >= t`.
fn scaled_at_least(m: u64, d: u128, t: u64) -> (r: bool)
    ensures
        r == (m * pow10(d as nat) >= t),
{
    if m == 0 {
        return t == 0;
    }
    let mut x: u128 = m as u128;
    let mut k: u128 = 0;
    assert(pow10(0) == 1);
    while k < d && x < t as u128
        invariant
            m > 0,
            k <= d,
            x as nat == m * pow10(k as nat),
            x <= 10 * (u64::MAX as int),
        decreases d - k,
    {
        proof {
            lemma_pow10_adds(1, k as nat);
        }
        assert(m * pow10((k + 1) as nat) == 10 * (m * pow10(k as nat))) by (nonlinear_arith)
            requires
                pow10((k + 1) as nat) == 10 * pow10(k as nat),
        ;
        x = x * 10;
        k = k + 1;
    }
    if x >= t as u128 {
        proof {
            lemma_pow10_adds((d - k) as nat, k as nat);
            let p = pow10((d - k) as nat);
            assert(m * pow10(d as nat) == (m * pow10(k as nat)) * p) by (nonlinear_arith)
                requires
                    pow10(d as nat) == p * pow10(k as nat),
            ;
            assert(x * p >= x) by (nonlinear_arith)
                requires
                    p >= 1,
                    x >= 0,
            ;
        }
        true
    } else {
        false
    }
}

impl Score {
    /// Whether this score is at most `other`, as numbers.
    pub fn le(&self, other: &Score) -> (r: bool)
        ensures
            r == score_le(*self, *other),
    {
        if self.exponent >= other.exponent {
            let d: u128 = (self.exponent as i128 - other.exponent as i128) as u128;
            scaled_at_most(self.mantissa, d, other.mantissa)
        } else {
            let d: u128 = (other.exponent as i128 - self.exponent as i128) as u128;
            scaled_at_least(other.mantissa, d, self.mantissa)
        }
    }
}

} // verus!
