//! The subscribe-directive payload.
//!
//! A directive asks the peer to start or stop sending a set of message
//! types.  Its payload is a little record in protobuf wire format: field 1
//! holds the direction as a varint, field 2 repeats once per requested type
//! identifier, each as a varint of the identifier's 32-bit value.

use vstd::prelude::*;

verus! {

/// Whether a directive starts or stops the flow of the listed types.
#[derive(Clone, Copy, Debug, PartialEq, Eq, Structural)]
pub enum Direction {
    Subscribe,
    Unsubscribe,
}

impl Direction {
    /// The value the direction field carries on the wire.
    pub open spec fn id_spec(self) -> u8 {
        match self {
            Direction::Subscribe => 0,
            Direction::Unsubscribe => 1,
        }
    }

    pub fn id(self) -> (r: u8)
        ensures
            r == self.id_spec(),
    {
        match self {
            Direction::Subscribe => 0,
            Direction::Unsubscribe => 1,
        }
    }
}

/// Base-128 varint encoding: seven value bits per byte, least significant
/// group first, high bit set on every byte but the last.
pub open spec fn spec_varint(n: nat) -> Seq<u8>
    decreases n,
{
    if n < 128 {
        seq![n as u8]
    } else {
        seq![(128 + n % 128) as u8] + spec_varint(n / 128)
    }
}

/// The repeated type-identifier field: tag byte 16 (field 2, varint), then
/// the identifier, once per listed type.
pub open spec fn spec_type_entries(types: Seq<u16>) -> Seq<u8>
    decreases types.len(),
{
    if types.len() == 0 {
        Seq::empty()
    } else {
        seq![16u8] + spec_varint(types.first() as nat) + spec_type_entries(types.drop_first())
    }
}

/// The whole directive payload: tag byte 8 (field 1, varint) and the
/// direction, then the type entries.
pub open spec fn spec_directive_payload(dir: Direction, types: Seq<u16>) -> Seq<u8> {
    seq![8u8, dir.id_spec()] + spec_type_entries(types)
}

/// Appends the varint encoding of `x` to `out`.
fn push_varint(out: &mut Vec<u8>, x: u32)
    ensures
        final(out)@ == old(out)@ + spec_varint(x as nat),
{
    let mut cur: u32 = x;
    while cur >= 128
        invariant
            old(out)@ + spec_varint(x as nat) == out@ + spec_varint(cur as nat),
        decreases cur,
    {
        let byte: u8 = (128 + (cur % 128)) as u8;
        proof {
            assert(spec_varint(cur as nat) == seq![byte] + spec_varint((cur as nat) / 128));
            assert(out@ + spec_varint(cur as nat) =~= (out@ + seq![byte]) + spec_varint(
                (cur as nat) / 128,
            ));
        }
        out.push(byte);
        cur = cur / 128;
    }
    proof {
        assert(spec_varint(cur as nat) =~= seq![cur as u8]);
    }
    out.push(cur as u8);
    proof {
        assert(final(out)@ =~= old(out)@ + spec_varint(x as nat));
    }
}

/// Encodes the payload of a directive asking the peer to `dir` the flow of
/// `types`.
pub fn encode_directive_payload(dir: Direction, types: &Vec<u16>) -> (r: Vec<u8>)
    ensures
        r@ == spec_directive_payload(dir, types@),
{
    let mut r: Vec<u8> = Vec::new();
    r.push(8);
    r.push(dir.id());
    let mut i: usize = 0;
    while i < types.len()
        invariant
            i <= types@.len(),
            r@ == seq![8u8, dir.id_spec()] + spec_type_entries(types@.take(i as int)),
        decreases types@.len() - i,
    {
        let t: u16 = types[i];
        r.push(16);
        push_varint(&mut r, t as u32);
        proof {
            let pre = types@.take(i as int);
            let ext = types@.take(i + 1);
            assert(ext =~= pre.push(t));
            lemma_type_entries_push(pre, t);
            assert(r@ =~= seq![8u8, dir.id_spec()] + spec_type_entries(ext));
        }
        i = i + 1;
    }
    proof {
        assert(types@.take(types@.len() as int) =~= types@);
        assert(r@ =~= spec_directive_payload(dir, types@));
    }
    r
}

/// Appending one type to the list appends its entry to the encoding.
proof fn lemma_type_entries_push(types: Seq<u16>, t: u16)
    ensures
        spec_type_entries(types.push(t)) == spec_type_entries(types) + seq![16u8] + spec_varint(
            t as nat,
        ),
    decreases types.len(),
{
    reveal_with_fuel(spec_type_entries, 3);
    let whole = types.push(t);
    if types.len() == 0 {
        assert(whole.drop_first() =~= Seq::<u16>::empty());
        assert(spec_type_entries(whole) =~= spec_type_entries(types) + seq![16u8] + spec_varint(
            t as nat,
        ));
    } else {
        assert(whole.drop_first() =~= types.drop_first().push(t));
        lemma_type_entries_push(types.drop_first(), t);
        assert(spec_type_entries(whole) =~= spec_type_entries(types) + seq![16u8] + spec_varint(
            t as nat,
        ));
    }
}

} // verus!
