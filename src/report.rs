//! Segmentation of a report into query zones and hits, and extraction of
//! each hit's fields.

use rayon::iter::{IntoParallelRefIterator, ParallelIterator};
use vstd::prelude::*;
use crate::number::{parse_usize, usize_of};
use crate::score::{parse_score, score_le, score_of, Score};
use crate::text::{
    ascii_word_spans, chars_of, contains, contains_chars, copy_range, remove_all, remove_char,
    second_piece, second_piece_range, token_spans, trim, trim_range,
};

verus! {

/// The text that marks a query declaration line.
pub open spec fn query_marker() -> Seq<char> {
    seq!['Q', 'u', 'e', 'r', 'y', '=']
}

/// The text that marks the first line of a hit.
pub open spec fn hit_marker() -> Seq<char> {
    seq!['>', ' ', 'N', 'O', 'D', 'E']
}

/// The text that marks the line holding a hit's significance score.
pub open spec fn expect_marker() -> Seq<char> {
    seq!['E', 'x', 'p', 'e', 'c', 't']
}

/// The text that marks a line of subject coordinates.
pub open spec fn subject_marker() -> Seq<char> {
    seq!['S', 'b', 'j', 'c', 't']
}

fn query_marker_chars() -> (r: Vec<char>)
    ensures
        r@ == query_marker(),
{
    let r = vec!['Q', 'u', 'e', 'r', 'y', '='];
    assert(r@ =~= query_marker());
    r
}

fn hit_marker_chars() -> (r: Vec<char>)
    ensures
        r@ == hit_marker(),
{
    let r = vec!['>', ' ', 'N', 'O', 'D', 'E'];
    assert(r@ =~= hit_marker());
    r
}

fn expect_marker_chars() -> (r: Vec<char>)
    ensures
        r@ == expect_marker(),
{
    let r = vec!['E', 'x', 'p', 'e', 'c', 't'];
    assert(r@ =~= expect_marker());
    r
}

fn subject_marker_chars() -> (r: Vec<char>)
    ensures
        r@ == subject_marker(),
{
    let r = vec!['S', 'b', 'j', 'c', 't'];
    assert(r@ =~= subject_marker());
    r
}

/// The indices in `lo..hi` of the lines that contain `mk`, ascending.
pub open spec fn marked_lines(ls: Seq<String>, mk: Seq<char>, lo: int, hi: int) -> Seq<usize>
    decreases hi - lo,
{
    if hi <= lo {
        Seq::empty()
    } else {
        let r = marked_lines(ls, mk, lo, hi - 1);
        if contains(ls[hi - 1]@, mk) {
            r.push((hi - 1) as usize)
        } else {
            r
        }
    }
}

/// The ranges that consecutive starts delimit: each runs from its start to
/// the line before the next start, the last one to `last`.
pub open spec fn ranges_of(starts: Seq<usize>, last: usize) -> Seq<(usize, usize)> {
    Seq::new(
        starts.len(),
        |k: int|
            (starts[k], if k + 1 < starts.len() {
                (starts[k + 1] - 1) as usize
            } else {
                last
            }),
    )
}

/// Each index is larger than the one before it.
pub open spec fn strictly_increasing(s: Seq<usize>) -> bool {
    forall|i: int, j: int| 0 <= i < j < s.len() ==> s[i] < s[j]
}

proof fn lemma_marked_lines_bounds(ls: Seq<String>, mk: Seq<char>, lo: int, hi: int)
    requires
        0 <= lo,
        hi <= ls.len() <= usize::MAX,
    ensures
        strictly_increasing(marked_lines(ls, mk, lo, hi)),
        forall|k: int|
            0 <= k < marked_lines(ls, mk, lo, hi).len() ==> lo <= #[trigger] marked_lines(
                ls,
                mk,
                lo,
                hi,
            )[k] < hi,
        forall|k: int|
            0 <= k < marked_lines(ls, mk, lo, hi).len() ==> contains(
                ls[#[trigger] marked_lines(ls, mk, lo, hi)[k] as int]@,
                mk,
            ),
    decreases hi - lo,
{
    if hi > lo {
        lemma_marked_lines_bounds(ls, mk, lo, hi - 1);
    }
}

/// The indices in `lo..hi` of the lines that contain `mk`, ascending.
fn find_marked(lines: &Vec<String>, mk: &Vec<char>, lo: usize, hi: usize) -> (r: Vec<usize>)
    requires
        lo <= hi <= lines@.len(),
    ensures
        r@ == marked_lines(lines@, mk@, lo as int, hi as int),
{
    let mut out: Vec<usize> = Vec::new();
    let mut i: usize = lo;
    while i < hi
        invariant
            lo <= i <= hi <= lines@.len(),
            out@ == marked_lines(lines@, mk@, lo as int, i as int),
        decreases hi - i,
    {
        let line = chars_of(lines[i].as_str());
        if contains_chars(&line, mk) {
            out.push(i);
        }
        i = i + 1;
    }
    out
}

/// The indices of the query declaration lines, ascending.
pub fn find_zone_line_indices(lines: &Vec<String>) -> (r: Vec<usize>)
    ensures
        r@ == marked_lines(lines@, query_marker(), 0, lines@.len() as int),
{
    let mk = query_marker_chars();
    find_marked(lines, &mk, 0, lines.len())
}

/// The indices of the hit declaration lines within the inclusive range
/// `zone`, ascending.
pub fn find_hit_starts(lines: &Vec<String>, zone: (usize, usize)) -> (r: Vec<usize>)
    requires
        zone.0 <= zone.1 < lines@.len(),
    ensures
        r@ == marked_lines(lines@, hit_marker(), zone.0 as int, zone.1 + 1),
{
    let mk = hit_marker_chars();
    let n: usize = lines.len();
    find_marked(lines, &mk, zone.0, zone.1 + 1)
}

/// The ranges that consecutive starts delimit, the last one ending at `last`.
fn pair_ranges(starts: &Vec<usize>, last: usize) -> (r: Vec<(usize, usize)>)
    requires
        strictly_increasing(starts@),
    ensures
        r@ == ranges_of(starts@, last),
{
    let mut out: Vec<(usize, usize)> = Vec::new();
    let n: usize = starts.len();
    let mut k: usize = 0;
    while k < n
        invariant
            n == starts@.len(),
            k <= n,
            strictly_increasing(starts@),
            out@ == ranges_of(starts@, last).take(k as int),
        decreases n - k,
    {
        let end: usize = if k + 1 < n {
            assert(starts@[k as int] < starts@[k + 1]);
            starts[k + 1] - 1
        } else {
            last
        };
        out.push((starts[k], end));
        k = k + 1;
        assert(out@ =~= ranges_of(starts@, last).take(k as int));
    }
    assert(out@ =~= ranges_of(starts@, last));
    out
}

/// A field of a hit that extraction looks for.
#[derive(Clone, Copy, Debug, PartialEq, Eq, Structural)]
pub enum HitField {
    /// The significance score, on the line marked `Expect`.
    Significance,
    /// The subject bounds, on the first line marked `Sbjct`.
    SubjectBounds,
}

/// Why a report could not be read. Hit errors name the hit's inclusive
/// line range.
#[derive(Clone, Copy, Debug, PartialEq, Eq, Structural)]
pub enum ReportError {
    /// The report holds no query declaration line.
    MalformedReport,
    /// No line of the hit carries the field's marker.
    MissingField { field: HitField, first_line: usize, last_line: usize },
    /// The field's line is there, but its text does not hold a value.
    ParseError { field: HitField, first_line: usize, last_line: usize },
}

/// One hit: reference identifier, significance score, subject bounds.
pub struct BlastHit {
    pub record_ref: String,
    pub evalue: Score,
    pub subject_bounds: (usize, usize),
}

/// What a hit holds, as plain values.
pub type HitView = (Seq<char>, Score, (usize, usize));

impl View for BlastHit {
    type V = HitView;

    open spec fn view(&self) -> HitView {
        (self.record_ref@, self.evalue, self.subject_bounds)
    }
}

/// The line index of the first line in `lo..hi` that contains `mk`.
pub open spec fn first_marked(ls: Seq<String>, mk: Seq<char>, lo: int, hi: int) -> Option<usize>
    decreases hi - lo,
{
    if hi <= lo {
        None
    } else if contains(ls[lo]@, mk) {
        Some(lo as usize)
    } else {
        first_marked(ls, mk, lo + 1, hi)
    }
}

/// The reference identifier that a hit declaration line names: the line
/// without its `>` characters and without surrounding whitespace.
pub open spec fn record_ref_of(l: Seq<char>) -> Seq<char> {
    trim(remove_all(l, '>'))
}

/// The second comma-separated field of a statistics line, which holds the
/// significance score.
pub open spec fn eval_expression(l: Seq<char>) -> Option<Seq<char>> {
    second_piece(l, ',')
}

/// The text of the score within that field: the text after its first `=`,
/// trimmed.
pub open spec fn expression_value_text(p: Seq<char>) -> Option<Seq<char>> {
    match second_piece(p, '=') {
        Some(q) => Some(trim(q)),
        None => None,
    }
}

/// The text of the significance score on a statistics line.
pub open spec fn evalue_text(l: Seq<char>) -> Option<Seq<char>> {
    match eval_expression(l) {
        Some(p) => expression_value_text(p),
        None => None,
    }
}

/// One past the last line that the hit on lines `beg..=end` spans within
/// `ls`: `end + 1`, or `ls.len()` where the range runs one past the last
/// line.
pub open spec fn scan_end(ls: Seq<String>, end: usize) -> int {
    if end < ls.len() {
        end + 1
    } else {
        ls.len() as int
    }
}

/// The score on a statistics line.
pub open spec fn evalue_of(l: Seq<char>) -> Option<Score> {
    match evalue_text(l) {
        Some(t) => score_of(t),
        None => None,
    }
}

/// The subject bounds on a subject line: its second and fourth words.
pub open spec fn bounds_of(l: Seq<char>) -> Option<(usize, usize)> {
    let w = token_spans(l);
    if w.len() < 4 {
        None
    } else {
        match (usize_of(l.subrange(w[1].0, w[1].1)), usize_of(l.subrange(w[3].0, w[3].1))) {
            (Some(a), Some(b)) => Some((a, b)),
            _ => None,
        }
    }
}

/// The significance score of the hit on lines `beg..=end`.
pub open spec fn hit_evalue(ls: Seq<String>, beg: usize, end: usize) -> Result<Score, ReportError> {
    match first_marked(ls, expect_marker(), beg as int, scan_end(ls, end)) {
        None => Err(
            ReportError::MissingField {
                field: HitField::Significance,
                first_line: beg,
                last_line: end,
            },
        ),
        Some(i) => match evalue_of(ls[i as int]@) {
            Some(sc) => Ok(sc),
            None => Err(
                ReportError::ParseError {
                    field: HitField::Significance,
                    first_line: beg,
                    last_line: end,
                },
            ),
        },
    }
}

/// The subject bounds of the hit on lines `beg..=end`.
pub open spec fn hit_bounds(ls: Seq<String>, beg: usize, end: usize) -> Result<
    (usize, usize),
    ReportError,
> {
    match first_marked(ls, subject_marker(), beg as int, scan_end(ls, end)) {
        None => Err(
            ReportError::MissingField {
                field: HitField::SubjectBounds,
                first_line: beg,
                last_line: end,
            },
        ),
        Some(i) => match bounds_of(ls[i as int]@) {
            Some(b) => Ok(b),
            None => Err(
                ReportError::ParseError {
                    field: HitField::SubjectBounds,
                    first_line: beg,
                    last_line: end,
                },
            ),
        },
    }
}

/// The hit on lines `beg..=end`: the score is looked for first, the bounds
/// second.
pub open spec fn hit_of(ls: Seq<String>, beg: usize, end: usize) -> Result<HitView, ReportError> {
    match hit_evalue(ls, beg, end) {
        Err(e) => Err(e),
        Ok(sc) => match hit_bounds(ls, beg, end) {
            Err(e) => Err(e),
            Ok(b) => Ok((record_ref_of(ls[beg as int]@), sc, b)),
        },
    }
}

/// Relies on `FromIterator<char>` for `String`: the string holds the
/// characters in order.
#[verifier::external_body]
fn string_from_chars(c: &Vec<char>) -> (r: String)
    ensures
        r@ == c@,
{
    c.iter().collect()
}

/// The first line in `lo..hi` that contains `mk`.
fn find_first_marked(lines: &Vec<String>, mk: &Vec<char>, lo: usize, hi: usize) -> (r: Option<
    usize,
>)
    requires
        lo <= hi <= lines@.len(),
    ensures
        r == first_marked(lines@, mk@, lo as int, hi as int),
        r matches Some(i) ==> lo <= i < hi,
{
    let mut i: usize = lo;
    while i < hi
        invariant
            lo <= i <= hi <= lines@.len(),
            first_marked(lines@, mk@, lo as int, hi as int) == first_marked(
                lines@,
                mk@,
                i as int,
                hi as int,
            ),
        decreases hi - i,
    {
        let line = chars_of(lines[i].as_str());
        if contains_chars(&line, mk) {
            return Some(i);
        }
        i = i + 1;
    }
    None
}

/// The reference identifier named on line `beg`.
fn parse_hit_record_ref(lines: &Vec<String>, beg: usize) -> (r: String)
    requires
        beg < lines@.len(),
    ensures
        r@ == record_ref_of(lines@[beg as int]@),
{
    let line = chars_of(lines[beg].as_str());
    let kept = remove_char(&line, '>');
    let (a, b) = trim_range(&kept, 0, kept.len());
    assert(kept@.subrange(0, kept@.len() as int) =~= kept@);
    let t = copy_range(&kept, a, b);
    string_from_chars(&t)
}

/// The second comma-separated field of the first statistics line of the
/// hit on lines `beg..=end`.
fn retrieve_eval_expression(lines: &Vec<String>, beg: usize, end: usize) -> (r: Result<
    Vec<char>,
    ReportError,
>)
    requires
        beg <= end <= lines@.len(),
        beg < lines@.len(),
    ensures
        match first_marked(lines@, expect_marker(), beg as int, scan_end(lines@, end)) {
            None => r == Err::<Vec<char>, ReportError>(
                ReportError::MissingField {
                    field: HitField::Significance,
                    first_line: beg,
                    last_line: end,
                },
            ),
            Some(i) => match eval_expression(lines@[i as int]@) {
                Some(t) => r matches Ok(v) && v@ == t,
                None => r == Err::<Vec<char>, ReportError>(
                    ReportError::ParseError {
                        field: HitField::Significance,
                        first_line: beg,
                        last_line: end,
                    },
                ),
            },
        },
{
    let mk = expect_marker_chars();
    let n: usize = lines.len();
    let hi: usize = if end < n {
        end + 1
    } else {
        n
    };
    let i = match find_first_marked(lines, &mk, beg, hi) {
        Some(i) => i,
        None => {
            return Err(
                ReportError::MissingField {
                    field: HitField::Significance,
                    first_line: beg,
                    last_line: end,
                },
            );
        },
    };
    let parse_error = ReportError::ParseError {
        field: HitField::Significance,
        first_line: beg,
        last_line: end,
    };
    let line = chars_of(lines[i].as_str());
    let (a, b) = match second_piece_range(&line, ',') {
        Some(p) => p,
        None => {
            return Err(parse_error);
        },
    };
    Ok(copy_range(&line, a, b))
}

/// The significance score of the hit on lines `beg..=end`.
fn parse_hit_evalue(lines: &Vec<String>, beg: usize, end: usize) -> (r: Result<
    Score,
    ReportError,
>)
    requires
        beg <= end <= lines@.len(),
        beg < lines@.len(),
    ensures
        r == hit_evalue(lines@, beg, end),
{
    let expr = retrieve_eval_expression(lines, beg, end)?;
    let parse_error = ReportError::ParseError {
        field: HitField::Significance,
        first_line: beg,
        last_line: end,
    };
    let (c, d) = match second_piece_range(&expr, '=') {
        Some(p) => p,
        None => {
            return Err(parse_error);
        },
    };
    let (x, y) = trim_range(&expr, c, d);
    let text = copy_range(&expr, x, y);
    match parse_score(&text) {
        Some(sc) => Ok(sc),
        None => Err(
            ReportError::ParseError {
                field: HitField::Significance,
                first_line: beg,
                last_line: end,
            },
        ),
    }
}

/// The first subject line of the hit on lines `beg..=end`.
fn retrieve_subject(lines: &Vec<String>, beg: usize, end: usize) -> (r: Result<
    Vec<char>,
    ReportError,
>)
    requires
        beg <= end <= lines@.len(),
        beg < lines@.len(),
    ensures
        match first_marked(lines@, subject_marker(), beg as int, scan_end(lines@, end)) {
            None => r == Err::<Vec<char>, ReportError>(
                ReportError::MissingField {
                    field: HitField::SubjectBounds,
                    first_line: beg,
                    last_line: end,
                },
            ),
            Some(i) => r matches Ok(v) && v@ == lines@[i as int]@,
        },
{
    let mk = subject_marker_chars();
    let n: usize = lines.len();
    let hi: usize = if end < n {
        end + 1
    } else {
        n
    };
    match find_first_marked(lines, &mk, beg, hi) {
        Some(i) => Ok(chars_of(lines[i].as_str())),
        None => Err(
            ReportError::MissingField {
                field: HitField::SubjectBounds,
                first_line: beg,
                last_line: end,
            },
        ),
    }
}

/// The subject bounds of the hit on lines `beg..=end`.
fn parse_hit_subject_bounds(lines: &Vec<String>, beg: usize, end: usize) -> (r: Result<
    (usize, usize),
    ReportError,
>)
    requires
        beg <= end <= lines@.len(),
        beg < lines@.len(),
    ensures
        r == hit_bounds(lines@, beg, end),
{
    let line = retrieve_subject(lines, beg, end)?;
    let parse_error = ReportError::ParseError {
        field: HitField::SubjectBounds,
        first_line: beg,
        last_line: end,
    };
    let words = ascii_word_spans(&line);
    if words.len() < 4 {
        return Err(parse_error);
    }
    let (a1, b1) = words[1];
    let (a3, b3) = words[3];
    let left = parse_usize(&line, a1, b1);
    let right = parse_usize(&line, a3, b3);
    match (left, right) {
        (Some(l), Some(r)) => Ok((l, r)),
        _ => Err(parse_error),
    }
}

/// The hit on the inclusive line range `partition`.
fn parse_hit(lines: &Vec<String>, partition: (usize, usize)) -> (r: Result<BlastHit, ReportError>)
    requires
        partition.0 <= partition.1 <= lines@.len(),
        partition.0 < lines@.len(),
    ensures
        match r {
            Ok(h) => hit_of(lines@, partition.0, partition.1) == Ok::<HitView, ReportError>(h@),
            Err(e) => hit_of(lines@, partition.0, partition.1) == Err::<HitView, ReportError>(e),
        },
{
    let record_ref = parse_hit_record_ref(lines, partition.0);
    let evalue = parse_hit_evalue(lines, partition.0, partition.1)?;
    let subject_bounds = parse_hit_subject_bounds(lines, partition.0, partition.1)?;
    Ok(BlastHit { record_ref, evalue, subject_bounds })
}

/// One query zone: its declaration line and its hits, in report order.
pub struct HitsZone {
    pub query: String,
    pub hits: Vec<BlastHit>,
}

/// What a zone holds, as plain values.
pub type ZoneView = (Seq<char>, Seq<HitView>);

impl View for HitsZone {
    type V = ZoneView;

    open spec fn view(&self) -> ZoneView {
        (self.query@, self.hits@.map_values(|h: BlastHit| h@))
    }
}

/// A whole report: its zones, in report order.
pub struct BlastHits {
    pub hit_zones: Vec<HitsZone>,
}

impl View for BlastHits {
    type V = Seq<ZoneView>;

    open spec fn view(&self) -> Seq<ZoneView> {
        self.hit_zones@.map_values(|z: HitsZone| z@)
    }
}

/// The inclusive line ranges of the hits of the inclusive range `zone`.
pub open spec fn hit_ranges(ls: Seq<String>, zone: (usize, usize)) -> Seq<(usize, usize)> {
    ranges_of(marked_lines(ls, hit_marker(), zone.0 as int, zone.1 + 1), zone.1)
}

/// The first `k` hits of `rs`, or the first error among them.
pub open spec fn collect_hits(ls: Seq<String>, rs: Seq<(usize, usize)>, k: int) -> Result<
    Seq<HitView>,
    ReportError,
>
    decreases k,
{
    if k <= 0 {
        Ok(Seq::empty())
    } else {
        match collect_hits(ls, rs, k - 1) {
            Err(e) => Err(e),
            Ok(v) => match hit_of(ls, rs[k - 1].0, rs[k - 1].1) {
                Err(e) => Err(e),
                Ok(h) => Ok(v.push(h)),
            },
        }
    }
}

/// The zone on the inclusive line range `zone`: its first line and its
/// hits, or the first error among the hits.
pub open spec fn zone_of(ls: Seq<String>, zone: (usize, usize)) -> Result<ZoneView, ReportError> {
    let rs = hit_ranges(ls, zone);
    match collect_hits(ls, rs, rs.len() as int) {
        Ok(hs) => Ok((ls[zone.0 as int]@, hs)),
        Err(e) => Err(e),
    }
}

proof fn lemma_collect_hits_err(ls: Seq<String>, rs: Seq<(usize, usize)>, k: int, j: int)
    requires
        0 <= k <= j,
        collect_hits(ls, rs, k) is Err,
    ensures
        collect_hits(ls, rs, j) == collect_hits(ls, rs, k),
    decreases j - k,
{
    if j > k {
        lemma_collect_hits_err(ls, rs, k, j - 1);
    }
}

/// The plain values of a zone result.
pub open spec fn zone_result_view(r: Result<HitsZone, ReportError>) -> Result<ZoneView, ReportError> {
    match r {
        Ok(z) => Ok(z@),
        Err(e) => Err(e),
    }
}

/// The inclusive line ranges of the zones of a report.
pub open spec fn zone_ranges(ls: Seq<String>) -> Result<Seq<(usize, usize)>, ReportError> {
    let st = marked_lines(ls, query_marker(), 0, ls.len() as int);
    if st.len() == 0 {
        Err(ReportError::MalformedReport)
    } else {
        Ok(ranges_of(st, (ls.len() - 1) as usize))
    }
}

/// The first `k` zones of `zs`, or the first error among them.
pub open spec fn collect_zones(ls: Seq<String>, zs: Seq<(usize, usize)>, k: int) -> Result<
    Seq<ZoneView>,
    ReportError,
>
    decreases k,
{
    if k <= 0 {
        Ok(Seq::empty())
    } else {
        match collect_zones(ls, zs, k - 1) {
            Err(e) => Err(e),
            Ok(v) => match zone_of(ls, zs[k - 1]) {
                Err(e) => Err(e),
                Ok(z) => Ok(v.push(z)),
            },
        }
    }
}

/// The report that the lines `ls` hold.
pub open spec fn report_of(ls: Seq<String>) -> Result<Seq<ZoneView>, ReportError> {
    match zone_ranges(ls) {
        Err(e) => Err(e),
        Ok(zs) => collect_zones(ls, zs, zs.len() as int),
    }
}

/// Every range of `rs` is a valid inclusive range of lines within `lo..=hi`.
pub open spec fn ranges_within(rs: Seq<(usize, usize)>, lo: int, hi: int) -> bool {
    forall|k: int| 0 <= k < rs.len() ==> lo <= (#[trigger] rs[k]).0 <= rs[k].1 <= hi
}

proof fn lemma_ranges_within(starts: Seq<usize>, last: usize, lo: int)
    requires
        strictly_increasing(starts),
        forall|k: int| 0 <= k < starts.len() ==> lo <= #[trigger] starts[k] <= last,
    ensures
        ranges_within(ranges_of(starts, last), lo, last as int),
{
    assert forall|k: int| 0 <= k < starts.len() implies lo <= (#[trigger] ranges_of(
        starts,
        last,
    )[k]).0 <= ranges_of(starts, last)[k].1 <= last by {
        if k + 1 < starts.len() {
            assert(starts[k] < starts[k + 1]);
        }
    }
}

/// The zones of a report from the indices of its query lines: each zone
/// runs to the line before the next query line, the last to the report's
/// last line.
pub fn partition_zones(indices: Vec<usize>, num_lines: usize) -> (r: Result<
    Vec<(usize, usize)>,
    ReportError,
>)
    requires
        strictly_increasing(indices@),
        forall|k: int| 0 <= k < indices@.len() ==> #[trigger] indices@[k] < num_lines,
    ensures
        indices@.len() == 0 ==> r == Err::<Vec<(usize, usize)>, ReportError>(
            ReportError::MalformedReport,
        ),
        indices@.len() > 0 ==> (r matches Ok(v) && v@ == ranges_of(
            indices@,
            (num_lines - 1) as usize,
        )),
{
    if indices.len() == 0 {
        return Err(ReportError::MalformedReport);
    }
    assert(indices@[0] < num_lines);
    Ok(pair_ranges(&indices, num_lines - 1))
}

/// The hits of a zone from the indices of its hit lines: each hit runs to
/// the line before the next hit line, the last to the zone's last line.
pub fn partition_hit_starts(hit_starts: Vec<usize>, zone_end: usize) -> (r: Vec<(usize, usize)>)
    requires
        strictly_increasing(hit_starts@),
    ensures
        r@ == ranges_of(hit_starts@, zone_end),
{
    pair_ranges(&hit_starts, zone_end)
}

proof fn lemma_first_marked_none(ls: Seq<String>, mk: Seq<char>, lo: int, hi: int)
    requires
        forall|i: int| lo <= i < hi ==> !contains(#[trigger] ls[i]@, mk),
    ensures
        first_marked(ls, mk, lo, hi) is None,
    decreases hi - lo,
{
    if lo < hi {
        lemma_first_marked_none(ls, mk, lo + 1, hi);
    }
}

/// A hit none of whose lines is a subject line fails with `MissingField`
/// for the subject bounds, naming the hit's line range, whenever its score
/// was read (a score error is met first).
pub proof fn lemma_missing_subject(ls: Seq<String>, beg: usize, end: usize)
    requires
        beg <= end <= ls.len(),
        beg < ls.len(),
        forall|i: int| beg <= i < scan_end(ls, end) ==> !contains(#[trigger] ls[i]@, subject_marker()),
        hit_evalue(ls, beg, end) is Ok,
    ensures
        hit_of(ls, beg, end) == Err::<HitView, ReportError>(
            ReportError::MissingField {
                field: HitField::SubjectBounds,
                first_line: beg,
                last_line: end,
            },
        ),
{
    lemma_first_marked_none(ls, subject_marker(), beg as int, scan_end(ls, end));
}

/// The zone on the inclusive line range `zone`.
pub fn process_zone(lines: &Vec<String>, zone: (usize, usize)) -> (r: Result<HitsZone, ReportError>)
    requires
        zone.0 <= zone.1 < lines@.len(),
    ensures
        zone_result_view(r) == zone_of(lines@, zone),
{
    let hit_starts = find_hit_starts(lines, zone);
    let nl: usize = lines.len();
    proof {
        lemma_marked_lines_bounds(lines@, hit_marker(), zone.0 as int, zone.1 + 1);
    }
    let ghost st = hit_starts@;
    let partitions = partition_hit_starts(hit_starts, zone.1);
    proof {
        lemma_ranges_within(st, zone.1, zone.0 as int);
    }
    let ghost rs = partitions@;
    let mut hits: Vec<BlastHit> = Vec::new();
    let n: usize = partitions.len();
    let mut k: usize = 0;
    assert(hits@.map_values(|h: BlastHit| h@) =~= Seq::<HitView>::empty());
    while k < n
        invariant
            n == rs.len(),
            rs == partitions@,
            rs == hit_ranges(lines@, zone),
            ranges_within(rs, zone.0 as int, zone.1 as int),
            zone.1 < lines@.len(),
            k <= n,
            collect_hits(lines@, rs, k as int) == Ok::<Seq<HitView>, ReportError>(
                hits@.map_values(|h: BlastHit| h@),
            ),
        decreases n - k,
    {
        let hit = parse_hit(lines, partitions[k]);
        match hit {
            Ok(h) => {
                let ghost hv = h@;
                let ghost before = hits@.map_values(|h: BlastHit| h@);
                hits.push(h);
                assert(hits@.map_values(|h: BlastHit| h@) =~= before.push(hv));
            },
            Err(e) => {
                proof {
                    lemma_collect_hits_err(lines@, rs, k + 1, n as int);
                }
                return Err(e);
            },
        }
        k = k + 1;
    }
    let query = lines[zone.0].clone();
    Ok(HitsZone { query, hits })
}

/// Relies on rayon's `par_iter`, `map` and `collect` into a `Vec`: each
/// zone is handed to `process_zone`, on any thread and in any order, and
/// the results come back in the order of `zones`.
#[verifier::external_body]
fn process_zones_in_parallel(lines: &Vec<String>, zones: &Vec<(usize, usize)>) -> (r: Vec<
    Result<HitsZone, ReportError>,
>)
    requires
        ranges_within(zones@, 0, lines@.len() - 1),
    ensures
        r@.len() == zones@.len(),
        forall|k: int|
            0 <= k < r@.len() ==> zone_result_view(#[trigger] r@[k]) == zone_of(
                lines@,
                zones@[k],
            ),
{
    zones.par_iter().map(|zone| process_zone(lines, *zone)).collect()
}

proof fn lemma_collect_zones_err(ls: Seq<String>, zs: Seq<(usize, usize)>, k: int, j: int)
    requires
        0 <= k <= j,
        collect_zones(ls, zs, k) is Err,
    ensures
        collect_zones(ls, zs, j) == collect_zones(ls, zs, k),
    decreases j - k,
{
    if j > k {
        lemma_collect_zones_err(ls, zs, k, j - 1);
    }
}

/// The report that `lines` hold: its zones in report order, each with its
/// hits in report order; or the first error, zone by zone and hit by hit.
/// One malformed hit fails the whole report: no partial report is ever
/// returned. Zones are processed in parallel.
pub fn blast_hits_from_lines(lines: &Vec<String>) -> (r: Result<BlastHits, ReportError>)
    ensures
        match r {
            Ok(b) => report_of(lines@) == Ok::<Seq<ZoneView>, ReportError>(b@),
            Err(e) => report_of(lines@) == Err::<Seq<ZoneView>, ReportError>(e),
        },
{
    let nl: usize = lines.len();
    let zone_line_indices = find_zone_line_indices(lines);
    proof {
        lemma_marked_lines_bounds(lines@, query_marker(), 0, nl as int);
    }
    let ghost st = zone_line_indices@;
    let zones = partition_zones(zone_line_indices, nl)?;
    proof {
        lemma_ranges_within(st, (nl - 1) as usize, 0);
    }
    let results = process_zones_in_parallel(lines, &zones);
    let ghost zs = zones@;
    let ghost rs = results@;
    let mut hit_zones: Vec<HitsZone> = Vec::new();
    assert(hit_zones@.map_values(|z: HitsZone| z@) =~= Seq::<ZoneView>::empty());
    for next in it: results
        invariant
            it.seq() == rs,
            rs.len() == zs.len(),
            zone_ranges(lines@) == Ok::<Seq<(usize, usize)>, ReportError>(zs),
            forall|i: int|
                0 <= i < rs.len() ==> zone_result_view(#[trigger] rs[i]) == zone_of(lines@, zs[i]),
            collect_zones(lines@, zs, it.index() as int) == Ok::<Seq<ZoneView>, ReportError>(
                hit_zones@.map_values(|z: HitsZone| z@),
            ),
    {
        let ghost k = it.index();
        assert(next == rs[k as int]);
        match next {
            Ok(z) => {
                let ghost zv = z@;
                let ghost before = hit_zones@.map_values(|z: HitsZone| z@);
                hit_zones.push(z);
                assert(hit_zones@.map_values(|z: HitsZone| z@) =~= before.push(zv));
            },
            Err(e) => {
                proof {
                    lemma_collect_zones_err(lines@, zs, k + 1, zs.len() as int);
                }
                return Err(e);
            },
        }
    }
    Ok(BlastHits { hit_zones })
}

impl BlastHits {
    /// The zones, in report order.
    pub fn get_hit_zones(&self) -> (r: &Vec<HitsZone>)
        ensures
            r@ == self.hit_zones@,
    {
        &self.hit_zones
    }
}

impl HitsZone {
    /// The zone's query declaration line.
    pub fn get_query(&self) -> (r: &str)
        ensures
            r@ == self.query@,
    {
        self.query.as_str()
    }

    /// The zone's hits, in report order.
    pub fn get_hits(&self) -> (r: &Vec<BlastHit>)
        ensures
            r@ == self.hits@,
    {
        &self.hits
    }

    /// The positions, ascending, of the hits whose score is at most `emax`.
    pub fn hits_within(&self, emax: &Score) -> (r: Vec<usize>)
        ensures
            r@ == scores_within(self@.1, *emax, self@.1.len() as int),
    {
        let n: usize = self.hits.len();
        let mut out: Vec<usize> = Vec::new();
        let mut k: usize = 0;
        while k < n
            invariant
                n == self.hits@.len(),
                k <= n,
                out@ == scores_within(self@.1, *emax, k as int),
            decreases n - k,
        {
            if self.hits[k].evalue.le(emax) {
                out.push(k);
            }
            k = k + 1;
        }
        out
    }
}

impl BlastHit {
    /// The reference identifier.
    pub fn get_record_ref(&self) -> (r: &str)
        ensures
            r@ == self.record_ref@,
    {
        self.record_ref.as_str()
    }

    /// The significance score.
    pub fn get_evalue(&self) -> (r: Score)
        ensures
            r == self.evalue,
    {
        self.evalue
    }

    /// The subject bounds, as the report gives them.
    pub fn get_subject_bounds(&self) -> (r: (usize, usize))
        ensures
            r == self.subject_bounds,
    {
        self.subject_bounds
    }
}

/// The positions below `k`, ascending, of the hits whose score is at most
/// `emax`.
pub open spec fn scores_within(hs: Seq<HitView>, emax: Score, k: int) -> Seq<usize>
    decreases k,
{
    if k <= 0 {
        Seq::empty()
    } else {
        let r = scores_within(hs, emax, k - 1);
        if score_le(hs[k - 1].1, emax) {
            r.push((k - 1) as usize)
        } else {
            r
        }
    }
}

proof fn lemma_collect_hits_len(ls: Seq<String>, rs: Seq<(usize, usize)>, k: int)
    requires
        0 <= k,
        collect_hits(ls, rs, k) is Ok,
    ensures
        collect_hits(ls, rs, k)->Ok_0.len() == k,
    decreases k,
{
    if k > 0 {
        lemma_collect_hits_len(ls, rs, k - 1);
    }
}

/// A report with `k >= 1` query lines has exactly `k` zones. The i-th zone
/// starts at the i-th query line; each zone ends on the line before the
/// next one starts, the last on the report's last line; no line before the
/// first zone is a query line.
pub proof fn lemma_zone_partition(ls: Seq<String>)
    requires
        ls.len() <= usize::MAX,
        marked_lines(ls, query_marker(), 0, ls.len() as int).len() >= 1,
    ensures
        ({
            let st = marked_lines(ls, query_marker(), 0, ls.len() as int);
            zone_ranges(ls) matches Ok(zs) && zs.len() == st.len() && zs[0].0 == st[0] && zs[zs.len()
                - 1].1 == ls.len() - 1 && (forall|i: int|
                0 <= i < zs.len() ==> (#[trigger] zs[i]).0 == st[i] && zs[i].0 <= zs[i].1
                    && contains(ls[zs[i].0 as int]@, query_marker())) && (forall|i: int|
                0 <= i < zs.len() - 1 ==> (#[trigger] zs[i]).1 + 1 == zs[i + 1].0) && (forall|
                j: int,
            |
                0 <= j < zs[0].0 ==> !contains(#[trigger] ls[j]@, query_marker()))
        }),
{
    let st = marked_lines(ls, query_marker(), 0, ls.len() as int);
    lemma_marked_lines_bounds(ls, query_marker(), 0, ls.len() as int);
    lemma_ranges_within(st, (ls.len() - 1) as usize, 0);
    let zs = ranges_of(st, (ls.len() - 1) as usize);
    assert forall|i: int| 0 <= i < zs.len() - 1 implies (#[trigger] zs[i]).1 + 1 == zs[i + 1].0 by {
        assert(st[i] < st[i + 1]);
    }
    assert forall|j: int| 0 <= j < zs[0].0 implies !contains(#[trigger] ls[j]@, query_marker()) by {
        if contains(ls[j]@, query_marker()) {
            lemma_marked_lines_first(ls, query_marker(), 0, ls.len() as int, j);
        }
    }
}

proof fn lemma_marked_lines_first(ls: Seq<String>, mk: Seq<char>, lo: int, hi: int, j: int)
    requires
        0 <= lo <= j < hi <= ls.len() <= usize::MAX,
        contains(ls[j]@, mk),
    ensures
        marked_lines(ls, mk, lo, hi).len() > 0,
        marked_lines(ls, mk, lo, hi)[0] <= j,
    decreases hi - lo,
{
    if hi - 1 > j {
        lemma_marked_lines_first(ls, mk, lo, hi - 1, j);
    } else {
        lemma_marked_lines_bounds(ls, mk, lo, hi - 1);
        if marked_lines(ls, mk, lo, hi - 1).len() > 0 {
            assert(marked_lines(ls, mk, lo, hi)[0] == marked_lines(ls, mk, lo, hi - 1)[0]);
        }
    }
}

/// A zone whose lines hold `m` hit lines yields exactly `m` hits when it
/// is read without error; with no hit line at all it yields no hits, and no
/// error.
pub proof fn lemma_hit_count(ls: Seq<String>, zone: (usize, usize))
    requires
        zone.0 <= zone.1 < ls.len() <= usize::MAX,
    ensures
        zone_of(ls, zone) matches Ok(z) ==> z.1.len() == marked_lines(
            ls,
            hit_marker(),
            zone.0 as int,
            zone.1 + 1,
        ).len(),
        marked_lines(ls, hit_marker(), zone.0 as int, zone.1 + 1).len() == 0 ==> zone_of(ls, zone)
            == Ok::<ZoneView, ReportError>((ls[zone.0 as int]@, Seq::empty())),
{
    let rs = hit_ranges(ls, zone);
    if collect_hits(ls, rs, rs.len() as int) is Ok {
        lemma_collect_hits_len(ls, rs, rs.len() as int);
    }
}

} // verus!
