//! The source cursor and the batched scanning algorithm.
//!
//! [`scan`] walks a [`Source`] from a starting position, testing successive
//! bytes against a classification table. Bytes the table rejects are passed
//! over; a byte the table accepts is a structural match, which an optional
//! reconsideration predicate may still veto, resuming the scan one byte
//! further on. The cursor is advanced to the first accepted match (or to the
//! buffer end), and exactly one of two caller-supplied continuations produces
//! the result. Work proceeds in batches of [`SEARCH_BATCH_SIZE`] bytes, with
//! a byte-by-byte fallback for buffer tails shorter than one batch.

use crate::table::{is_continuation_byte, is_lead_byte, ClassifierTable, SafeByteMatchTable};
use vstd::prelude::*;

verus! {

/// Number of bytes tested per batch before the buffer-bounds check is
/// repeated; buffer tails shorter than this fall back to byte-by-byte work.
pub const SEARCH_BATCH_SIZE: usize = 32;

/// A source cursor: an immutable byte buffer together with a mutable
/// position into it. The position never exceeds the buffer length and only
/// ever moves forward during a scan.
pub struct Source {
    bytes: Vec<u8>,
    pos: usize,
}

impl View for Source {
    type V = Seq<u8>;

    /// The buffer contents.
    closed spec fn view(&self) -> Seq<u8> {
        self.bytes@
    }
}

impl Source {
    /// The current position, as a mathematical integer.
    pub closed spec fn spec_pos(&self) -> int {
        self.pos as int
    }

    /// Well-formedness: the position stays within `[0, length]`.
    pub open spec fn wf(&self) -> bool {
        0 <= self.spec_pos() <= self@.len()
    }

    /// Take ownership of a byte buffer, with the position at its start.
    pub fn new(bytes: Vec<u8>) -> (source: Self)
        ensures
            source@ == bytes@,
            source.spec_pos() == 0,
            source.wf(),
    {
        Source { bytes, pos: 0 }
    }

    /// The current position.
    pub fn position(&self) -> (p: usize)
        ensures
            p == self.spec_pos(),
    {
        self.pos
    }

    /// The buffer length.
    pub fn len(&self) -> (n: usize)
        ensures
            n == self@.len(),
    {
        self.bytes.len()
    }

    /// The byte at a position.
    pub fn byte_at(&self, i: usize) -> (b: u8)
        requires
            i < self@.len(),
        ensures
            b == self@[i as int],
    {
        self.bytes[i]
    }
}

/// The byte at position `i` does not stop a scan: either the table rejects
/// it outright, or the table accepts it but the reconsideration predicate
/// may rule the match illegitimate (verdict `true` means "keep scanning").
pub open spec fn byte_skipped<T: ClassifierTable, Rec: Fn(u8, usize) -> bool>(
    table: T,
    reconsider: Rec,
    s: Seq<u8>,
    i: int,
) -> bool {
    ||| !table.spec_classifies(s[i])
    ||| call_ensures(reconsider, (s[i], i as usize), true)
}

/// Every byte in `[start, p)` is passed over by a scan.
pub open spec fn scan_skips_before<T: ClassifierTable, Rec: Fn(u8, usize) -> bool>(
    table: T,
    reconsider: Rec,
    s: Seq<u8>,
    start: int,
    p: int,
) -> bool {
    forall|q: int| start <= q < p ==> #[trigger] byte_skipped(table, reconsider, s, q)
}

/// A scan of `s` from `start` halts on the byte at `p`: everything before it
/// was passed over, the table accepts `s[p]`, and the reconsideration
/// predicate lets the match stand (verdict `false` means "accept").
pub open spec fn scan_halts_at<T: ClassifierTable, Rec: Fn(u8, usize) -> bool>(
    table: T,
    reconsider: Rec,
    s: Seq<u8>,
    start: int,
    p: int,
) -> bool {
    &&& start <= p < s.len()
    &&& scan_skips_before(table, reconsider, s, start, p)
    &&& table.spec_classifies(s[p])
    &&& call_ensures(reconsider, (s[p], p as usize), false)
}

/// A scan of `s` from `start` reaches the buffer end: every byte from
/// `start` on was passed over.
pub open spec fn scan_exhausts<T: ClassifierTable, Rec: Fn(u8, usize) -> bool>(
    table: T,
    reconsider: Rec,
    s: Seq<u8>,
    start: int,
) -> bool {
    scan_skips_before(table, reconsider, s, start, s.len() as int)
}

/// Scan the source for the first byte that the table classifies as a match
/// and the reconsideration predicate does not veto.
///
/// The cursor is advanced to that byte and `on_match` is invoked with the
/// byte and the start position; if no such byte exists before the buffer
/// end, the cursor is advanced to the end and `on_end` is invoked with the
/// start position. Exactly one continuation runs, and its result is the
/// result of the whole operation.
///
/// Bytes are processed in batches of [`SEARCH_BATCH_SIZE`], switching to a
/// byte-by-byte fallback when fewer than one batch remains before the end.
pub fn scan<T, Rec, OnMatch, OnEnd, R>(
    source: &mut Source,
    table: &T,
    start: usize,
    reconsider: Rec,
    on_match: OnMatch,
    on_end: OnEnd,
) -> (r: R) where
    T: ClassifierTable,
    Rec: Fn(u8, usize) -> bool,
    OnMatch: FnOnce(u8, usize) -> R,
    OnEnd: FnOnce(usize) -> R,

    requires
        old(source).wf(),
        old(source).spec_pos() <= start <= old(source)@.len(),
        forall|b: u8, i: usize|
            start <= i < old(source)@.len() && old(source)@[i as int] == b
                ==> #[trigger] call_requires(reconsider, (b, i)),
        forall|b: u8| table.spec_classifies(b) ==> #[trigger] call_requires(on_match, (b, start)),
        call_requires(on_end, (start,)),
    ensures
        final(source)@ == old(source)@,
        final(source).wf(),
        start <= final(source).spec_pos(),
        ({
            ||| exists|p: int|
                {
                    &&& #[trigger] scan_halts_at(*table, reconsider, old(source)@, start as int, p)
                    &&& final(source).spec_pos() == p
                    &&& call_ensures(on_match, (old(source)@[p], start), r)
                }
            ||| {
                &&& scan_exhausts(*table, reconsider, old(source)@, start as int)
                &&& final(source).spec_pos() == old(source)@.len()
                &&& call_ensures(on_end, (start,), r)
            }
        }),
{
    let ghost s = source.bytes@;
    let ghost pos0 = source.spec_pos();
    let len = source.bytes.len();
    let mut p = start;
    loop
        invariant
            s == old(source)@,
            pos0 == old(source).spec_pos(),
            source@ == s,
            source.spec_pos() == pos0,
            pos0 <= start,
            start <= p <= len,
            len == s.len(),
            scan_skips_before(*table, reconsider, s, start as int, p as int),
            forall|b: u8, i: usize|
                start <= i < s.len() && s[i as int] == b
                    ==> #[trigger] call_requires(reconsider, (b, i)),
            forall|b: u8|
                table.spec_classifies(b) ==> #[trigger] call_requires(on_match, (b, start)),
            call_requires(on_end, (start,)),
        decreases len - p,
    {
        if len - p >= SEARCH_BATCH_SIZE {
            // Batch path: at least one full batch remains, so the inner loop
            // needs no per-byte bounds check against the buffer end.
            let batch_end = p + SEARCH_BATCH_SIZE;
            let ghost entry_p: int = p as int;
            let mut matched: Option<u8> = None;
            while p < batch_end
                invariant_except_break
                    matched is None,
                invariant
                    entry_p <= p,
                    start <= p <= batch_end,
                    batch_end == entry_p + SEARCH_BATCH_SIZE,
                    batch_end <= len,
                    len == s.len(),
                    source@ == s,
                    source.spec_pos() == pos0,
                    scan_skips_before(*table, reconsider, s, start as int, p as int),
                    match matched {
                        Some(b) => p < batch_end && s[p as int] == b && table.spec_classifies(b),
                        None => true,
                    },
                ensures
                    matched is None ==> p == batch_end,
                decreases batch_end - p,
            {
                let byte = source.bytes[p];
                if table.classifies(byte) {
                    matched = Some(byte);
                    break ;
                }
                p += 1;
            }
            match matched {
                Some(byte) => {
                    if reconsider(byte, p) {
                        // Not a match after all: resume one byte past it.
                        p += 1;
                    } else {
                        proof {
                            assert(scan_halts_at(*table, reconsider, s, start as int, p as int));
                        }
                        source.pos = p;
                        return on_match(byte, start);
                    }
                },
                None => {
                    // Batch exhausted with no structural match: next batch.
                },
            }
        } else {
            // Tail path: fewer than one batch remains, fall back to
            // byte-by-byte scanning until a match or the buffer end.
            while p < len
                invariant
                    s == old(source)@,
                    pos0 == old(source).spec_pos(),
                    source@ == s,
                    source.spec_pos() == pos0,
                    pos0 <= start,
                    start <= p <= len,
                    len == s.len(),
                    scan_skips_before(*table, reconsider, s, start as int, p as int),
                    forall|b: u8, i: usize|
                        start <= i < s.len() && s[i as int] == b
                            ==> #[trigger] call_requires(reconsider, (b, i)),
                    forall|b: u8|
                        table.spec_classifies(b) ==> #[trigger] call_requires(on_match, (b, start)),
                    call_requires(on_end, (start,)),
                decreases len - p,
            {
                let byte = source.bytes[p];
                if table.classifies(byte) {
                    if reconsider(byte, p) {
                        // Not a match after all: resume one byte past it.
                        p += 1;
                    } else {
                        proof {
                            assert(scan_halts_at(*table, reconsider, s, start as int, p as int));
                        }
                        source.pos = p;
                        return on_match(byte, start);
                    }
                } else {
                    p += 1;
                }
            }
            // End of input: commit the cursor to the buffer end.
            source.pos = p;
            return on_end(start);
        }
    }
}

/// The byte at `p` is the first match of a scan of `s` from `start` without
/// reconsideration: every byte before it is classified `false`, and `s[p]`
/// is classified `true`.
pub open spec fn first_match_at<T: ClassifierTable>(table: T, s: Seq<u8>, start: int, p: int) -> bool {
    &&& start <= p < s.len()
    &&& forall|q: int| start <= q < p ==> !table.spec_classifies(#[trigger] s[q])
    &&& table.spec_classifies(s[p])
}

/// No byte from `start` to the end of `s` is classified as a match.
pub open spec fn no_match_from<T: ClassifierTable>(table: T, s: Seq<u8>, start: int) -> bool {
    forall|q: int| start <= q < s.len() ==> !table.spec_classifies(#[trigger] s[q])
}

/// Scan the source for the first byte the table classifies as a match, with
/// no reconsideration: every structural match is accepted.
///
/// The cursor is advanced to the first match and `on_match` runs, or to the
/// buffer end and `on_end` runs: from a given start, either there is a
/// position `p` with every byte before it classified `false` and `s[p]`
/// classified `true`, or every byte from the start on is classified `false`.
pub fn scan_plain<T, OnMatch, OnEnd, R>(
    source: &mut Source,
    table: &T,
    start: usize,
    on_match: OnMatch,
    on_end: OnEnd,
) -> (r: R) where
    T: ClassifierTable,
    OnMatch: FnOnce(u8, usize) -> R,
    OnEnd: FnOnce(usize) -> R,

    requires
        old(source).wf(),
        old(source).spec_pos() <= start <= old(source)@.len(),
        forall|b: u8| table.spec_classifies(b) ==> #[trigger] call_requires(on_match, (b, start)),
        call_requires(on_end, (start,)),
    ensures
        final(source)@ == old(source)@,
        final(source).wf(),
        start <= final(source).spec_pos(),
        ({
            ||| exists|p: int|
                {
                    &&& #[trigger] first_match_at(*table, old(source)@, start as int, p)
                    &&& final(source).spec_pos() == p
                    &&& call_ensures(on_match, (old(source)@[p], start), r)
                }
            ||| {
                &&& no_match_from(*table, old(source)@, start as int)
                &&& final(source).spec_pos() == old(source)@.len()
                &&& call_ensures(on_end, (start,), r)
            }
        }),
{
    let never = |b: u8, i: usize| -> (verdict: bool)
        ensures
            !verdict,
        { false };
    let ghost s = old(source)@;
    let r = scan(source, table, start, never, on_match, on_end);
    proof {
        if source.spec_pos() < s.len() {
            let p = choose|p: int|
                {
                    &&& #[trigger] scan_halts_at(*table, never, s, start as int, p)
                    &&& source.spec_pos() == p
                    &&& call_ensures(on_match, (s[p], start), r)
                };
            assert forall|q: int| start <= q < p implies !table.spec_classifies(
                #[trigger] s[q],
            ) by {
                assert(byte_skipped(*table, never, s, q));
            }
            assert(first_match_at(*table, s, start as int, p));
        } else {
            assert forall|q: int| start <= q < s.len() implies !table.spec_classifies(
                #[trigger] s[q],
            ) by {
                assert(byte_skipped(*table, never, s, q));
            }
            assert(no_match_from(*table, s, start as int));
        }
    }
    r
}

/// The first match of a plain scan is a single position: two positions that
/// each have an all-rejected prefix and a matching byte must coincide, so
/// the contract of [`scan_plain`] determines the halt position completely.
pub proof fn lemma_first_match_position_is_unique<T: ClassifierTable>(
    table: T,
    s: Seq<u8>,
    start: int,
    p1: int,
    p2: int,
)
    requires
        first_match_at(table, s, start, p1),
        first_match_at(table, s, start, p2),
    ensures
        p1 == p2,
{
    if p1 < p2 {
        assert(!table.spec_classifies(s[p1]));
    }
    if p2 < p1 {
        assert(!table.spec_classifies(s[p2]));
    }
}

/// Reconsideration correctness: a predicate that never accepts a match
/// (its verdict is always `true`, "keep scanning") prevents every halt,
/// whatever the table contents; a scan with it can only reach end of input.
pub proof fn lemma_never_accepting_reconsider_prevents_match<
    T: ClassifierTable,
    Rec: Fn(u8, usize) -> bool,
>(table: T, reconsider: Rec, s: Seq<u8>, start: int)
    requires
        forall|b: u8, i: usize, verdict: bool|
            #[trigger] call_ensures(reconsider, (b, i), verdict) ==> verdict,
    ensures
        forall|p: int| !(#[trigger] scan_halts_at(table, reconsider, s, start, p)),
{
    assert forall|p: int| !(#[trigger] scan_halts_at(table, reconsider, s, start, p)) by {
        if scan_halts_at(table, reconsider, s, start, p) {
            assert(call_ensures(reconsider, (s[p], p as usize), false));
        }
    }
}

/// Batch/tail consistency: where a scan halts depends only on the bytes
/// from the start up to the halt position. Two buffers that agree on that
/// prefix — whatever their lengths or later contents — halt at the same
/// position, so the batched path and the byte-by-byte fallback cannot
/// disagree.
pub proof fn lemma_halt_depends_only_on_prefix<T: ClassifierTable, Rec: Fn(u8, usize) -> bool>(
    table: T,
    reconsider: Rec,
    s1: Seq<u8>,
    s2: Seq<u8>,
    start: int,
    p: int,
)
    requires
        scan_halts_at(table, reconsider, s1, start, p),
        p < s2.len(),
        forall|q: int| start <= q <= p ==> s1[q] == #[trigger] s2[q],
    ensures
        scan_halts_at(table, reconsider, s2, start, p),
{
    assert forall|q: int| start <= q < p implies #[trigger] byte_skipped(
        table,
        reconsider,
        s2,
        q,
    ) by {
        assert(byte_skipped(table, reconsider, s1, q));
        assert(s1[q] == s2[q]);
    }
    assert(s1[p] == s2[p]);
}

/// The shape well-formed UTF-8 gives a buffer from `start` on: the byte
/// immediately before each run of continuation bytes is the lead byte of
/// that sequence.
pub open spec fn continuation_runs_follow_leads(s: Seq<u8>, start: int) -> bool {
    forall|i: int|
        start < i < s.len() && is_continuation_byte(#[trigger] s[i]) && !is_continuation_byte(
            s[i - 1],
        ) ==> is_lead_byte(s[i - 1])
}

/// In a buffer shaped like well-formed UTF-8, a continuation byte at `j` has
/// a lead byte somewhere before it, no earlier than the (boundary) start.
proof fn lemma_continuation_run_begins_with_lead(s: Seq<u8>, start: int, j: int)
    requires
        continuation_runs_follow_leads(s, start),
        0 <= start <= j < s.len(),
        !is_continuation_byte(s[start]),
        is_continuation_byte(s[j]),
    ensures
        exists|q: int| start <= q < j && is_lead_byte(#[trigger] s[q]),
    decreases j - start,
{
    if !is_continuation_byte(s[j - 1]) {
        assert(start <= j - 1 < j && is_lead_byte(s[j - 1]));
    } else {
        lemma_continuation_run_begins_with_lead(s, start, j - 1);
    }
}

/// Under safety condition (b) — no continuation byte classified as a match —
/// every halt position is a UTF-8 character boundary, whatever the
/// reconsideration predicate does: the halting byte itself matched, so it
/// cannot be a continuation byte.
pub proof fn lemma_continuation_free_halt_is_char_boundary<
    T: ClassifierTable,
    Rec: Fn(u8, usize) -> bool,
>(table: T, reconsider: Rec, s: Seq<u8>, start: int, p: int)
    requires
        forall|b: u8| is_continuation_byte(b) ==> !table.spec_classifies(b),
        scan_halts_at(table, reconsider, s, start, p),
    ensures
        !is_continuation_byte(s[p]),
{
}

/// The boundary-safety guarantee: a scan without reconsideration, driven by
/// a boundary-safe table over a buffer shaped like well-formed UTF-8 and
/// started on a character boundary, halts only on a character boundary.
///
/// Under condition (b) the halting byte matched and so is no continuation
/// byte. Under condition (a) a halt inside a multi-byte sequence is
/// impossible: the sequence's lead byte would lie in the scanned-over range
/// and every lead byte matches, so the scan would have halted there first.
pub proof fn lemma_safe_table_halt_is_char_boundary<Rec: Fn(u8, usize) -> bool>(
    table: SafeByteMatchTable,
    reconsider: Rec,
    s: Seq<u8>,
    start: int,
    p: int,
)
    requires
        table.is_boundary_safe(),
        forall|b: u8, i: usize, verdict: bool|
            #[trigger] call_ensures(reconsider, (b, i), verdict) ==> !verdict,
        continuation_runs_follow_leads(s, start),
        0 <= start,
        !is_continuation_byte(s[start]),
        scan_halts_at(table, reconsider, s, start, p),
    ensures
        !is_continuation_byte(s[p]),
{
    if is_continuation_byte(s[p]) {
        // The halting byte matched, so condition (b) cannot hold; by
        // boundary safety, condition (a) does: every lead byte matches.
        assert(table.spec_matches(s[p]));
        lemma_continuation_run_begins_with_lead(s, start, p);
        let q = choose|q: int| start <= q < p && is_lead_byte(#[trigger] s[q]);
        // The lead byte at q was scanned over, yet it matches the table and
        // the reconsideration predicate never rejects a match.
        assert(byte_skipped(table, reconsider, s, q));
        assert(false);
    }
}

} // verus!
