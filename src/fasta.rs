//! The sequence store and the extraction of padded windows from it.

use vstd::prelude::*;

verus! {

/// Why a window could not be extracted.
#[derive(Clone, Copy, Debug, PartialEq, Eq, Structural)]
pub enum ExtractError {
    /// The store holds no sequence under the identifier.
    MissingRecord,
    /// The stored sequence is empty.
    EmptySequence,
    /// The clamped window starts after it ends.
    OutOfRange,
}

/// Sequences by identifier. An identifier names at most one sequence: a
/// later insertion under it replaces the earlier one.
pub struct Fasta {
    records: Vec<(String, Vec<u8>)>,
}

/// The sequence of the first record at or after `i` whose identifier is `id`.
pub open spec fn lookup_from(recs: Seq<(String, Vec<u8>)>, id: Seq<char>, i: int) -> Option<
    Seq<u8>,
>
    decreases recs.len() - i,
{
    if i < 0 || i >= recs.len() {
        None
    } else if recs[i].0@ == id {
        Some(recs[i].1@)
    } else {
        lookup_from(recs, id, i + 1)
    }
}

/// The padded window `[start, end)` for a sequence of length `len`, the
/// subject bounds `bounds` and the padding `extension`: the start moves left
/// by the padding but not below 0, the end moves right by it but not beyond
/// the last index. `None` for an empty sequence, or where the start would
/// come after the end.
pub open spec fn window(len: nat, bounds: (usize, usize), extension: usize) -> Option<(int, int)> {
    let start = if bounds.0 < extension {
        0
    } else {
        bounds.0 - extension
    };
    let end = if bounds.1 + extension > len - 1 {
        len - 1
    } else {
        bounds.1 + extension
    };
    if len == 0 || start > end {
        None
    } else {
        Some((start, end))
    }
}

/// A window is clamped: where `left <= right < len`, it exists, starts at
/// `max(0, left - extension)`, and ends no later than `len - 1`.
pub proof fn lemma_window_clamped(len: nat, left: usize, right: usize, extension: usize)
    requires
        left <= right < len,
    ensures
        window(len, (left, right), extension) matches Some(w) && w.0 == (if left >= extension {
            left - extension
        } else {
            0
        }) && w.0 <= w.1 <= len - 1,
{
}

impl Fasta {
    /// The sequence stored under `id`.
    pub closed spec fn sequence_of(&self, id: Seq<char>) -> Option<Seq<u8>> {
        lookup_from(self.records@, id, 0)
    }

    /// An empty store.
    pub fn new() -> (r: Fasta)
        ensures
            forall|id: Seq<char>| r.sequence_of(id) is None,
    {
        Fasta { records: Vec::new() }
    }

    /// Index of the first record whose identifier is `id`, or the number
    /// of records.
    fn position(&self, id: &String) -> (r: usize)
        ensures
            r <= self.records@.len(),
            r < self.records@.len() ==> self.records@[r as int].0@ == id@,
            forall|k: int| 0 <= k < r ==> self.records@[k].0@ != id@,
    {
        let n: usize = self.records.len();
        let mut i: usize = 0;
        while i < n
            invariant
                n == self.records@.len(),
                i <= n,
                forall|k: int| 0 <= k < i ==> self.records@[k].0@ != id@,
            decreases n - i,
        {
            if self.records[i].0 == *id {
                return i;
            }
            i = i + 1;
        }
        i
    }

    /// Stores `seq` under `id`, in place of any sequence stored there before.
    pub fn insert(&mut self, id: String, seq: Vec<u8>)
        ensures
            final(self).sequence_of(id@) == Some(seq@),
            forall|other: Seq<char>|
                other != id@ ==> final(self).sequence_of(other) == old(self).sequence_of(other),
    {
        let i = self.position(&id);
        let ghost old_recs = self.records@;
        let ghost idv = id@;
        let ghost sv = seq@;
        if i < self.records.len() {
            self.records.set(i, (id, seq));
        } else {
            self.records.push((id, seq));
        }
        proof {
            lemma_lookup_after_write(old_recs, self.records@, i as int, idv, sv);
        }
    }

    /// The part of the sequence stored under `record_id` that the subject
    /// bounds `bounds`, padded by `extension` on each side, pick out: the
    /// indices `start..end` of `window`. The end index is excluded on
    /// purpose, so the residue at `min(right + extension, len - 1)` is not
    /// part of the result; callers that want it widen `bounds.1` by one.
    pub fn extract_sequence(&self, record_id: &str, bounds: (usize, usize), extension: usize) -> (r:
        Result<Vec<u8>, ExtractError>)
        ensures
            match self.sequence_of(record_id@) {
                None => r == Err::<Vec<u8>, ExtractError>(ExtractError::MissingRecord),
                Some(s) => match window(s.len(), bounds, extension) {
                    None => r == Err::<Vec<u8>, ExtractError>(
                        if s.len() == 0 {
                            ExtractError::EmptySequence
                        } else {
                            ExtractError::OutOfRange
                        },
                    ),
                    Some(w) => r matches Ok(v) && v@ == s.subrange(w.0, w.1),
                },
            },
    {
        let id = record_id.to_owned();
        let i = self.position(&id);
        proof {
            lemma_lookup_position(self.records@, id@, i as int);
        }
        if i >= self.records.len() {
            return Err(ExtractError::MissingRecord);
        }
        let seq = &self.records[i].1;
        let len: usize = seq.len();
        if len == 0 {
            return Err(ExtractError::EmptySequence);
        }
        let start: usize = if bounds.0 < extension {
            0
        } else {
            bounds.0 - extension
        };
        let end: usize = if bounds.1 > len - 1 || extension > len - 1 - bounds.1 {
            len - 1
        } else {
            bounds.1 + extension
        };
        if start > end {
            return Err(ExtractError::OutOfRange);
        }
        let mut out: Vec<u8> = Vec::new();
        let mut k: usize = start;
        while k < end
            invariant
                start <= k <= end < len,
                len == seq@.len(),
                out@ == seq@.subrange(start as int, k as int),
            decreases end - k,
        {
            out.push(seq[k]);
            k = k + 1;
            assert(out@ =~= seq@.subrange(start as int, k as int));
        }
        Ok(out)
    }
}

proof fn lemma_lookup_position(recs: Seq<(String, Vec<u8>)>, id: Seq<char>, i: int)
    requires
        0 <= i <= recs.len(),
        i < recs.len() ==> recs[i].0@ == id,
        forall|k: int| 0 <= k < i ==> recs[k].0@ != id,
    ensures
        lookup_from(recs, id, 0) == if i < recs.len() {
            Some(recs[i].1@)
        } else {
            None::<Seq<u8>>
        },
{
    lemma_lookup_skip(recs, id, 0, i);
}

proof fn lemma_lookup_skip(recs: Seq<(String, Vec<u8>)>, id: Seq<char>, j: int, i: int)
    requires
        0 <= j <= i <= recs.len(),
        forall|k: int| j <= k < i ==> recs[k].0@ != id,
    ensures
        lookup_from(recs, id, j) == lookup_from(recs, id, i),
    decreases i - j,
{
    if j < i {
        lemma_lookup_skip(recs, id, j + 1, i);
    }
}

proof fn lemma_lookup_after_write(
    old_recs: Seq<(String, Vec<u8>)>,
    recs: Seq<(String, Vec<u8>)>,
    i: int,
    id: Seq<char>,
    sv: Seq<u8>,
)
    requires
        0 <= i <= old_recs.len(),
        i < old_recs.len() ==> old_recs[i].0@ == id && recs == old_recs.update(
            i,
            recs[i],
        ),
        i == old_recs.len() ==> recs == old_recs.push(recs[i]),
        recs[i].0@ == id,
        recs[i].1@ == sv,
        forall|k: int| 0 <= k < i ==> old_recs[k].0@ != id,
    ensures
        lookup_from(recs, id, 0) == Some(sv),
        forall|other: Seq<char>|
            other != id ==> lookup_from(recs, other, 0) == lookup_from(old_recs, other, 0),
{
    assert(forall|k: int| 0 <= k < i ==> recs[k] == old_recs[k]);
    lemma_lookup_skip(recs, id, 0, i);
    assert forall|other: Seq<char>| other != id implies lookup_from(recs, other, 0)
        == lookup_from(old_recs, other, 0) by {
        lemma_lookup_same(old_recs, recs, i, id, other, 0);
    }
}

proof fn lemma_lookup_same(
    old_recs: Seq<(String, Vec<u8>)>,
    recs: Seq<(String, Vec<u8>)>,
    i: int,
    id: Seq<char>,
    other: Seq<char>,
    j: int,
)
    requires
        0 <= j,
        0 <= i <= old_recs.len(),
        other != id,
        recs[i].0@ == id,
        i < old_recs.len() ==> old_recs[i].0@ == id && recs == old_recs.update(i, recs[i]),
        i == old_recs.len() ==> recs == old_recs.push(recs[i]),
    ensures
        lookup_from(recs, other, j) == lookup_from(old_recs, other, j),
    decreases recs.len() - j,
{
    if j < recs.len() {
        lemma_lookup_same(old_recs, recs, i, id, other, j + 1);
    }
}

} // verus!
