//! The persisted form of the checkpoint: its height as a decimal ASCII string.
use vstd::prelude::*;

verus! {

/// An ASCII decimal digit.
pub open spec fn is_digit(c: u8) -> bool {
    0x30 <= c <= 0x39
}

/// The value of a digit byte (0 for any other byte).
pub open spec fn digit_value(c: u8) -> nat {
    if c >= 0x30 {
        (c - 0x30) as nat
    } else {
        0
    }
}

/// A non-empty string of decimal digits.
pub open spec fn is_decimal(s: Seq<u8>) -> bool {
    s.len() > 0 && forall|i: int| 0 <= i < s.len() ==> is_digit(#[trigger] s[i])
}

/// The number that a string of decimal digits denotes.
pub open spec fn decimal_value(s: Seq<u8>) -> nat
    decreases s.len(),
{
    if s.len() == 0 {
        0
    } else {
        decimal_value(s.drop_last()) * 10 + digit_value(s.last())
    }
}

/// The height stored as `s`, if `s` is a decimal string whose value fits.
pub open spec fn decoded_checkpoint(s: Seq<u8>) -> Option<u64> {
    if is_decimal(s) && decimal_value(s) <= u64::MAX {
        Some(decimal_value(s) as u64)
    } else {
        None
    }
}

proof fn lemma_prefix_value_le(s: Seq<u8>, k: int)
    requires
        0 <= k <= s.len(),
    ensures
        decimal_value(s.take(k)) <= decimal_value(s),
    decreases s.len(),
{
    if k < s.len() {
        assert(s.drop_last().take(k) =~= s.take(k));
        lemma_prefix_value_le(s.drop_last(), k);
    } else {
        assert(s.take(k) =~= s);
    }
}

/// Reads a stored checkpoint.
pub fn decode_checkpoint(s: &[u8]) -> (r: Option<u64>)
    ensures
        r == decoded_checkpoint(s@),
{
    if s.len() == 0 {
        return None;
    }
    let mut v: u64 = 0;
    let mut i: usize = 0;
    proof {
        assert(s@.take(0).len() == 0);
    }
    while i < s.len()
        invariant
            i <= s@.len(),
            s@.len() > 0,
            v == decimal_value(s@.take(i as int)),
            forall|j: int| 0 <= j < i ==> is_digit(#[trigger] s@[j]),
        decreases s@.len() - i,
    {
        let c = s[i];
        if c < 0x30 || c > 0x39 {
            return None;
        }
        let d = (c - 0x30) as u64;
        proof {
            assert(s@.take(i + 1).drop_last() =~= s@.take(i as int));
        }
        if v > (u64::MAX - d) / 10 {
            proof {
                lemma_prefix_value_le(s@, i + 1);
            }
            return None;
        }
        v = v * 10 + d;
        i = i + 1;
    }
    proof {
        assert(s@.take(i as int) =~= s@);
    }
    Some(v)
}

/// Writes a checkpoint: the shortest decimal string of `v`.
pub fn encode_checkpoint(v: u64) -> (r: Vec<u8>)
    ensures
        is_decimal(r@),
        decimal_value(r@) == v,
        v > 0 ==> r@[0] != 0x30,
    decreases v,
{
    if v < 10 {
        let r = vec![0x30u8 + v as u8];
        proof {
            assert(r@.drop_last() =~= Seq::<u8>::empty());
            assert(decimal_value(r@.drop_last()) == 0);
            assert(digit_value(r@.last()) == v);
        }
        r
    } else {
        let mut r = encode_checkpoint(v / 10);
        let ghost before = r@;
        r.push(0x30u8 + (v % 10) as u8);
        proof {
            assert(r@.drop_last() =~= before);
            assert(r@[0] == before[0]);
            assert(digit_value(r@.last()) == v % 10);
            assert(v == (v / 10) * 10 + v % 10);
        }
        r
    }
}

/// A stored checkpoint reads back as the height that was written.
pub proof fn lemma_checkpoint_round_trip(s: Seq<u8>, v: u64)
    requires
        is_decimal(s),
        decimal_value(s) == v,
    ensures
        decoded_checkpoint(s) == Some(v),
{
}

} // verus!
