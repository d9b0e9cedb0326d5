//! The bytes that give a file its structure, and the first place of a byte in
//! a span.

use vstd::prelude::*;

verus! {

/// Ends a record.
pub const NEWLINE: u8 = 0x0a;

/// Parts the key of a record from its value.
pub const DELIMITER: u8 = 0x3b;

/// The index of the first `b` in `s`, or the length of `s` where it holds none.
pub open spec fn position(s: Seq<u8>, b: u8) -> int
    decreases s.len(),
{
    if s.len() == 0 || s[0] == b {
        0
    } else {
        1 + position(s.skip(1), b)
    }
}

/// `position` lies within the span, names a `b` where it lies inside, and no
/// `b` stands before it.
pub proof fn lemma_position(s: Seq<u8>, b: u8)
    ensures
        0 <= position(s, b) <= s.len(),
        position(s, b) < s.len() ==> s[position(s, b)] == b,
        forall|j: int| 0 <= j < position(s, b) ==> s[j] != b,
    decreases s.len(),
{
    if s.len() == 0 || s[0] == b {
    } else {
        lemma_position(s.skip(1), b);
        assert forall|j: int| 0 <= j < position(s, b) implies s[j] != b by {
            if j > 0 {
                assert(s[j] == s.skip(1)[j - 1]);
            }
        }
    }
}

/// The index before which no `b` stands, and which names a `b` or the end, is
/// the `position`.
pub proof fn lemma_position_is(s: Seq<u8>, b: u8, k: int)
    requires
        0 <= k <= s.len(),
        forall|j: int| 0 <= j < k ==> s[j] != b,
        k < s.len() ==> s[k] == b,
    ensures
        position(s, b) == k,
{
    lemma_position(s, b);
    let p = position(s, b);
    if p < k {
        assert(s[p] == b);
    } else if k < p {
        assert(s[k] == b);
    }
}

/// The index of the first `b` in `data` at or after `from`, or the length of
/// `data` where none follows.
pub fn find(data: &[u8], from: usize, b: u8) -> (r: usize)
    requires
        from <= data@.len(),
    ensures
        from <= r <= data@.len(),
        r == from + position(data@.skip(from as int), b),
{
    let mut i: usize = from;
    while i < data.len() && data[i] != b
        invariant
            from <= i <= data@.len(),
            forall|j: int| from <= j < i ==> data@[j] != b,
        decreases data@.len() - i,
    {
        i = i + 1;
    }
    proof {
        lemma_position_is(data@.skip(from as int), b, i - from);
    }
    i
}

} // verus!
