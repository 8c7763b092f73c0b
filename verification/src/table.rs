//! Byte classification tables: 256-entry boolean lookups indexed by byte value.
//!
//! Two flavours share one interface. [`ByteMatchTable`] accepts any pattern,
//! and a caller who scans with it must uphold the character-boundary invariant
//! by some independent argument. [`SafeByteMatchTable`] is validated at
//! construction: its pattern either classifies every UTF-8 lead byte as a
//! match, or classifies no continuation byte as a match, so a scan driven by
//! it can never halt in the middle of a multi-byte character.

use vstd::prelude::*;

verus! {

/// A byte in `[128, 192)`: a continuation byte of a multi-byte UTF-8 sequence.
pub open spec fn is_continuation_byte(b: u8) -> bool {
    128 <= b < 192
}

/// A byte in `[192, 248)`: the lead byte of a multi-byte UTF-8 sequence.
/// (Bytes `248..=255` cannot occur in well-formed UTF-8 at all.)
pub open spec fn is_lead_byte(b: u8) -> bool {
    192 <= b < 248
}

/// Condition (a) of the boundary-safety rule: every possible lead byte of a
/// multi-byte UTF-8 sequence is classified as a match, so a scan halts before
/// it can enter such a sequence.
pub open spec fn all_lead_bytes_match(entries: Seq<bool>) -> bool {
    forall|i: int| 192 <= i < 248 ==> entries[i]
}

/// Condition (b) of the boundary-safety rule: no continuation byte is
/// classified as a match, so a sequence, once entered, is consumed in full.
pub open spec fn no_continuation_byte_matches(entries: Seq<bool>) -> bool {
    forall|i: int| 128 <= i < 192 ==> !entries[i]
}

/// The disjunctive boundary-safety condition a `SafeByteMatchTable` pattern
/// must satisfy.
pub open spec fn safe_pattern(entries: Seq<bool>) -> bool {
    all_lead_bytes_match(entries) || no_continuation_byte_matches(entries)
}

/// Evaluate a byte predicate for every one of the 256 byte values, yielding
/// the entry array a classification table is built from. This renders the
/// compile-time table builders as a plain function over the index values:
/// entry `v` holds what the predicate answered for the byte value `v`.
pub fn entries_from_pred<F: Fn(u8) -> bool>(pred: F) -> (entries: [bool; 256])
    requires
        forall|b: u8| #[trigger] call_requires(pred, (b,)),
    ensures
        forall|i: int| 0 <= i < 256 ==> call_ensures(pred, (i as u8,), #[trigger] entries@[i]),
{
    let mut entries = [false; 256];
    let mut i: usize = 0;
    while i < 256
        invariant
            i <= 256,
            forall|b: u8| #[trigger] call_requires(pred, (b,)),
            forall|j: int| 0 <= j < i ==> call_ensures(pred, (j as u8,), #[trigger] entries@[j]),
        decreases 256 - i,
    {
        entries[i] = pred(i as u8);
        i += 1;
    }
    entries
}

/// The interface the two table flavours share: a pure, total classification
/// of each byte value, exposed to specifications through `spec_classifies`.
pub trait ClassifierTable: Sized {
    /// Which bytes this table classifies as matches.
    spec fn spec_classifies(&self, b: u8) -> bool;

    /// Executable lookup, pinned to `spec_classifies`.
    fn classifies(&self, b: u8) -> (r: bool)
        ensures
            r == self.spec_classifies(b),
    ;
}

/// Unconstrained byte matcher lookup table.
///
/// Any 256-entry pattern is accepted. In return, a caller that scans with
/// this table carries the whole burden of the character-boundary invariant:
/// nothing about the table itself prevents a scan from halting between the
/// bytes of a multi-byte character.
pub struct ByteMatchTable {
    entries: [bool; 256],
}

impl ByteMatchTable {
    /// Which bytes this table classifies as matches.
    pub closed spec fn spec_matches(&self, b: u8) -> bool {
        self.entries@[b as int]
    }

    /// Create a new `ByteMatchTable` from a full 256-entry pattern,
    /// `bytes[v]` answering for the byte value `v`.
    pub fn new(bytes: [bool; 256]) -> (table: Self)
        ensures
            forall|b: u8| table.spec_matches(b) == bytes@[b as int],
    {
        ByteMatchTable { entries: bytes }
    }

    /// Test a byte value against this table: a pure O(1) lookup.
    pub fn matches(&self, b: u8) -> (r: bool)
        ensures
            r == self.spec_matches(b),
    {
        self.entries[b as usize]
    }
}

impl ClassifierTable for ByteMatchTable {
    open spec fn spec_classifies(&self, b: u8) -> bool {
        self.spec_matches(b)
    }

    fn classifies(&self, b: u8) -> (r: bool) {
        self.matches(b)
    }
}

/// Boundary-safe byte matcher lookup table.
///
/// Construction validates the pattern against [`safe_pattern`]: either every
/// lead byte in `[192, 248)` is a match, or no continuation byte in
/// `[128, 192)` is. Every value of this type satisfies that condition, so a
/// scan driven by it halts only on UTF-8 character boundaries and needs no
/// further argument from the caller.
pub struct SafeByteMatchTable {
    entries: [bool; 256],
}

impl SafeByteMatchTable {
    /// Which bytes this table classifies as matches.
    pub closed spec fn spec_matches(&self, b: u8) -> bool {
        self.entries@[b as int]
    }

    /// The boundary-safety condition, stated over the table's own lookups:
    /// either every lead byte matches, or no continuation byte does.
    pub open spec fn is_boundary_safe(&self) -> bool {
        (forall|b: u8| is_lead_byte(b) ==> self.spec_matches(b)) || (forall|b: u8|
            is_continuation_byte(b) ==> !self.spec_matches(b))
    }

    #[verifier::type_invariant]
    closed spec fn type_inv(self) -> bool {
        safe_pattern(self.entries@)
    }

    /// Validating constructor: returns the table exactly when the pattern
    /// satisfies the boundary-safety condition, and `None` otherwise.
    pub fn try_new(bytes: [bool; 256]) -> (result: Option<Self>)
        ensures
            result is Some <==> safe_pattern(bytes@),
            match result {
                Some(table) => forall|b: u8| table.spec_matches(b) == bytes@[b as int],
                None => true,
            },
    {
        let mut lead_all_match = true;
        let mut cont_none_match = true;
        let mut i: usize = 0;
        while i < 256
            invariant
                i <= 256,
                lead_all_match == (forall|j: int| 192 <= j < i && j < 248 ==> bytes@[j]),
                cont_none_match == (forall|j: int| 128 <= j < i && j < 192 ==> !bytes@[j]),
            decreases 256 - i,
        {
            if bytes[i] {
                if i >= 128 && i < 192 {
                    cont_none_match = false;
                }
            } else if i >= 192 && i < 248 {
                lead_all_match = false;
            }
            i += 1;
        }
        if lead_all_match || cont_none_match {
            Some(SafeByteMatchTable { entries: bytes })
        } else {
            None
        }
    }

    /// Create a new `SafeByteMatchTable` from a pattern already known to
    /// satisfy the boundary-safety condition.
    pub fn new(bytes: [bool; 256]) -> (table: Self)
        requires
            safe_pattern(bytes@),
        ensures
            forall|b: u8| table.spec_matches(b) == bytes@[b as int],
    {
        Self::try_new(bytes).unwrap()
    }

    /// Declare that a scan is about to rely on this table. Unlike for
    /// `ByteMatchTable`, no obligation falls on the caller: the declaration
    /// hands back the boundary-safety guarantee that construction checked.
    pub fn use_table(&self)
        ensures
            self.is_boundary_safe(),
    {
        proof {
            use_type_invariant(self);
        }
    }

    /// Test a byte value against this table: a pure O(1) lookup.
    pub fn matches(&self, b: u8) -> (r: bool)
        ensures
            r == self.spec_matches(b),
    {
        self.entries[b as usize]
    }
}

impl ClassifierTable for SafeByteMatchTable {
    open spec fn spec_classifies(&self, b: u8) -> bool {
        self.spec_matches(b)
    }

    fn classifies(&self, b: u8) -> (r: bool) {
        self.matches(b)
    }
}

} // verus!
