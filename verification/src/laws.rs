//! General properties of the nibble sequence operations, stated over the
//! sequence model that the operations' contracts use.

use vstd::prelude::*;

verus! {

/// The sequence model of one `push`: only the four least significant bits of
/// the pushed value are kept, exactly as `NibbleVec::push` promises.
pub open spec fn push_model(s: Seq<u8>, val: u8) -> Seq<u8> {
    s.push(val & 0x0fu8)
}

/// The sequence model of pushing a whole run of values, in order.
pub open spec fn push_all_model(s: Seq<u8>, vals: Seq<u8>) -> Seq<u8>
    decreases vals.len(),
{
    if vals.len() == 0 {
        s
    } else {
        push_all_model(push_model(s, vals[0]), vals.skip(1))
    }
}

/// Pushing values that already fit in four bits appends them unchanged.
proof fn lemma_push_all_model(s: Seq<u8>, vals: Seq<u8>)
    requires
        forall|j: int| 0 <= j < vals.len() ==> vals[j] < 16,
    ensures
        push_all_model(s, vals) == s + vals,
    decreases vals.len(),
{
    if vals.len() == 0 {
        assert(push_all_model(s, vals) =~= s + vals);
    } else {
        let v = vals[0];
        assert(v & 0x0fu8 == v) by (bit_vector)
            requires
                v < 16,
        ;
        lemma_push_all_model(s.push(v), vals.skip(1));
        assert(s.push(v) + vals.skip(1) =~= s + vals);
    }
}

/// Round trip: pushing nibble values in `[0, 15]` in order onto an empty
/// vector yields exactly those contents, so reading back position `i` with
/// `get` returns the `i`-th pushed value.
pub proof fn lemma_round_trip(vals: Seq<u8>, i: int)
    requires
        forall|j: int| 0 <= j < vals.len() ==> vals[j] < 16,
        0 <= i < vals.len(),
    ensures
        push_all_model(Seq::<u8>::empty(), vals) == vals,
        push_all_model(Seq::<u8>::empty(), vals)[i] == vals[i],
{
    lemma_push_all_model(Seq::<u8>::empty(), vals);
    assert(Seq::<u8>::empty() + vals =~= vals);
}

/// Splitting a sequence at `idx` and joining the two parts restores the
/// original sequence: `split` leaves `s.take(idx)` behind and returns
/// `s.skip(idx)`, and `join` concatenates.
pub proof fn lemma_split_join_inverse(s: Seq<u8>, idx: int)
    requires
        0 <= idx <= s.len(),
    ensures
        s.take(idx) + s.skip(idx) == s,
{
    assert(s.take(idx) + s.skip(idx) =~= s);
}

/// Length conservation: the two parts of a split have lengths summing to the
/// original's, and a join's length is the sum of its operands' lengths.
pub proof fn lemma_length_conservation(s: Seq<u8>, idx: int, a: Seq<u8>, b: Seq<u8>)
    requires
        0 <= idx <= s.len(),
    ensures
        s.take(idx).len() + s.skip(idx).len() == s.len(),
        (a + b).len() == a.len() + b.len(),
{
}

/// Boundary cases of `split`: splitting at zero leaves an empty head and a
/// tail equal to the whole sequence; splitting at the length leaves the whole
/// sequence and an empty tail.
pub proof fn lemma_split_boundary(s: Seq<u8>)
    ensures
        s.take(0) == Seq::<u8>::empty(),
        s.skip(0) == s,
        s.take(s.len() as int) == s,
        s.skip(s.len() as int) == Seq::<u8>::empty(),
{
    assert(s.take(0) =~= Seq::<u8>::empty());
    assert(s.skip(0) =~= s);
    assert(s.take(s.len() as int) =~= s);
    assert(s.skip(s.len() as int) =~= Seq::<u8>::empty());
}

} // verus!
