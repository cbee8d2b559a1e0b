//! Recognition of the blob envelope inside a witness script.
//!
//! An envelope is the sequence
//!
//! ```text
//! OP_FALSE OP_IF <"blob"> <32-byte content hash> OP_0 <declared size> OP_ENDIF
//! ```
//!
//! where `OP_FALSE` and `OP_0` are both the empty push.
use vstd::prelude::*;

verus! {

/// `OP_IF`.
pub const OP_IF: u8 = 0x63;

/// `OP_ENDIF`.
pub const OP_ENDIF: u8 = 0x68;


/// One decoded script instruction: a non-push opcode, or a data push
/// (the empty push, `OP_0`, included).
pub enum Instruction {
    Op(u8),
    PushBytes(Vec<u8>),
}

/// The four-byte tag that follows `OP_FALSE OP_IF`.
pub open spec fn envelope_tag() -> Seq<u8> {
    seq![0x62u8, 0x6cu8, 0x6fu8, 0x62u8]
}

/// The bytes pushed by an instruction (empty for an opcode).
pub open spec fn push_data(t: Instruction) -> Seq<u8> {
    match t {
        Instruction::Op(_) => Seq::empty(),
        Instruction::PushBytes(b) => b@,
    }
}

/// Whether instruction `t` is what position `k` of an envelope asks for.
pub open spec fn element_matches(k: int, t: Instruction) -> bool {
    match t {
        Instruction::Op(c) => (k == 1 && c == OP_IF) || (k == 6 && c == OP_ENDIF),
        Instruction::PushBytes(b) => (k == 0 && b@.len() == 0) || (k == 2 && b@
            == envelope_tag()) || (k == 3 && b@.len() == 32) || (k == 4 && b@.len() == 0) || k
            == 5,
    }
}

/// A complete envelope starts at position `j` of `s`.
pub open spec fn marker_at(s: Seq<Instruction>, j: int) -> bool {
    &&& 0 <= j
    &&& j + 7 <= s.len()
    &&& forall|m: int| 0 <= m < 7 ==> element_matches(m, #[trigger] s[j + m])
}

/// `s` holds a complete envelope somewhere.
pub open spec fn contains_marker(s: Seq<Instruction>) -> bool {
    exists|j: int| marker_at(s, j)
}

/// The forward, non-backtracking scan: at position `i`, with the first `k`
/// envelope elements just matched. A token that breaks a partial match is
/// consumed and matching starts over after it.
pub open spec fn scan(s: Seq<Instruction>, i: int, k: int) -> Option<(Seq<u8>, Seq<u8>)>
    decreases s.len() - i,
{
    if i < 0 || i >= s.len() {
        None
    } else if element_matches(k, s[i]) {
        if k >= 6 {
            Some((push_data(s[i - 3]), push_data(s[i - 1])))
        } else {
            scan(s, i + 1, k + 1)
        }
    } else {
        scan(s, i + 1, 0)
    }
}

/// The first envelope of an instruction stream, as (hash, declared size).
pub open spec fn first_envelope(s: Seq<Instruction>) -> Option<(Seq<u8>, Seq<u8>)> {
    scan(s, 0, 0)
}

/// Whether `t` is what position `k` of an envelope asks for.
pub fn element_ok(k: usize, t: &Instruction) -> (r: bool)
    ensures
        r == element_matches(k as int, *t),
{
    match t {
        Instruction::Op(c) => (k == 1 && *c == OP_IF) || (k == 6 && *c == OP_ENDIF),
        Instruction::PushBytes(b) => {
            if k == 0 || k == 4 {
                b.len() == 0
            } else if k == 2 {
                let ok = b.len() == 4 && b[0] == 0x62u8 && b[1] == 0x6cu8 && b[2] == 0x6fu8 && b[3]
                    == 0x62u8;
                proof {
                    if ok {
                        assert(b@ =~= envelope_tag());
                    }
                }
                ok
            } else if k == 3 {
                b.len() == 32
            } else {
                k == 5
            }
        },
    }
}

fn pushed_bytes(t: &Instruction) -> (r: Vec<u8>)
    ensures
        r@ == push_data(*t),
{
    match t {
        Instruction::Op(_) => Vec::new(),
        Instruction::PushBytes(b) => b.clone(),
    }
}

/// Scans `instructions` once, front to back, and returns the content hash and
/// the declared-size field of the first envelope, or `None` if there is none.
pub fn find_pattern_instructions(instructions: &Vec<Instruction>) -> (r: Option<(Vec<u8>, Vec<u8>)>)
    ensures
        match (r, first_envelope(instructions@)) {
            (Some((h, sz)), Some((sh, ssz))) => h@ == sh && sz@ == ssz,
            (None, None) => true,
            _ => false,
        },
{
    let n = instructions.len();
    let mut i: usize = 0;
    let mut k: usize = 0;
    while i < n
        invariant
            n == instructions@.len(),
            i <= n,
            k <= 6,
            k <= i,
            scan(instructions@, i as int, k as int) == first_envelope(instructions@),
        decreases n - i,
    {
        if element_ok(k, &instructions[i]) {
            if k == 6 {
                let h = pushed_bytes(&instructions[i - 3]);
                let sz = pushed_bytes(&instructions[i - 1]);
                return Some((h, sz));
            }
            k = k + 1;
        } else {
            k = 0;
        }
        i = i + 1;
    }
    None
}

/// The instructions that a script decodes to, up to (not including) the
/// first one that fails to decode.
pub uninterp spec fn script_instructions(script: Seq<u8>) -> Seq<Instruction>;

/// Relies on bitcoin's `Script::instructions`: decodes script bytes into
/// opcodes and pushes (0x00 decodes as the empty push). Decoding stops at the
/// first malformed instruction.
#[verifier::external_body]
fn decode_script(script: &[u8]) -> (r: Vec<Instruction>)
    ensures
        r@ == script_instructions(script@),
{
    bitcoin::Script::from_bytes(script).instructions().map_while(|i| i.ok()).map(
        |i| match i {
            bitcoin::script::Instruction::Op(op) => Instruction::Op(op.to_u8()),
            bitcoin::script::Instruction::PushBytes(p) => Instruction::PushBytes(
                p.as_bytes().to_vec(),
            ),
        },
    ).collect()
}

/// The envelope of a raw witness script, if it holds one.
pub open spec fn script_envelope(script: Seq<u8>) -> Option<(Seq<u8>, Seq<u8>)> {
    first_envelope(script_instructions(script))
}

/// Decodes `script` and returns its first envelope as (hash, declared size).
/// A decoding failure ends the instruction stream; it is never an error.
pub fn find_envelope(script: &[u8]) -> (r: Option<(Vec<u8>, Vec<u8>)>)
    ensures
        match (r, script_envelope(script@)) {
            (Some((h, sz)), Some((sh, ssz))) => h@ == sh && sz@ == ssz,
            (None, None) => true,
            _ => false,
        },
{
    let instructions = decode_script(script);
    find_pattern_instructions(&instructions)
}

proof fn lemma_scan_found_implies_marker(s: Seq<Instruction>, i: int, k: int)
    requires
        0 <= k <= 6,
        k <= i,
        forall|m: int| 0 <= m < k ==> element_matches(m, #[trigger] s[i - k + m]),
        scan(s, i, k) is Some,
    ensures
        contains_marker(s),
    decreases s.len() - i,
{
    if element_matches(k, s[i]) {
        if k >= 6 {
            assert forall|m: int| 0 <= m < 7 implies element_matches(m, #[trigger] s[(i - 6) + m]) by {
                if m < 6 {
                    assert(s[i - k + m] == s[(i - 6) + m]);
                }
            }
            assert(marker_at(s, i - 6));
        } else {
            assert forall|m: int| 0 <= m < k + 1 implies element_matches(
                m,
                #[trigger] s[(i + 1) - (k + 1) + m],
            ) by {
                if m < k {
                    assert(s[i - k + m] == s[(i + 1) - (k + 1) + m]);
                }
            }
            lemma_scan_found_implies_marker(s, i + 1, k + 1);
        }
    } else {
        lemma_scan_found_implies_marker(s, i + 1, 0);
    }
}

/// A stream that holds no complete envelope yields no match.
pub proof fn lemma_no_marker_no_match(s: Seq<Instruction>)
    ensures
        !contains_marker(s) ==> first_envelope(s) is None,
{
    if first_envelope(s) is Some {
        lemma_scan_found_implies_marker(s, 0, 0);
    }
}

/// A stream that is exactly one envelope with hash `h` and declared-size
/// field `sz` yields `(h, sz)`.
pub proof fn lemma_exact_marker_matches(s: Seq<Instruction>, h: Seq<u8>, sz: Seq<u8>)
    requires
        s.len() == 7,
        marker_at(s, 0),
        push_data(s[3]) == h,
        push_data(s[5]) == sz,
    ensures
        first_envelope(s) == Some((h, sz)),
{
    assert(element_matches(0, s[0int + 0]));
    assert(element_matches(1, s[0int + 1]));
    assert(element_matches(2, s[0int + 2]));
    assert(element_matches(3, s[0int + 3]));
    assert(element_matches(4, s[0int + 4]));
    assert(element_matches(5, s[0int + 5]));
    assert(element_matches(6, s[0int + 6]));
    reveal_with_fuel(scan, 8);
}

} // verus!
