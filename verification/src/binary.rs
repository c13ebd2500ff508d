//! The binary codec: each node is serialized as exactly ten bytes — a
//! little-endian 16-bit variable, then two little-endian 32-bit pointers.
//! The stream has no header or separators; a trailing partial record of one
//! to nine bytes is dropped without error (lenient decode).

use vstd::prelude::*;
use vstd::arithmetic::div_mod::{
    lemma_div_denominator, lemma_fundamental_div_mod, lemma_multiply_divide_lt,
};
use crate::diagram::{Bdd, BddNode, BddPointer, BddVariable};

verus! {

/// Little-endian byte form of a 16-bit value.
pub open spec fn u16_le_bytes(v: u16) -> Seq<u8> {
    seq![(v as nat % 256) as u8, (v as nat / 256) as u8]
}

/// The 16-bit value whose little-endian byte form is `b`.
pub open spec fn u16_of_le_bytes(b: Seq<u8>) -> u16
    recommends
        b.len() == 2,
{
    (b[0] as nat + 256 * (b[1] as nat)) as u16
}

/// Little-endian byte form of a 32-bit value.
pub open spec fn u32_le_bytes(v: u32) -> Seq<u8> {
    seq![
        (v as nat % 256) as u8,
        (v as nat / 256 % 256) as u8,
        (v as nat / 65536 % 256) as u8,
        (v as nat / 16777216) as u8,
    ]
}

/// The 32-bit value whose little-endian byte form is `b`.
pub open spec fn u32_of_le_bytes(b: Seq<u8>) -> u32
    recommends
        b.len() == 4,
{
    (b[0] as nat + 256 * (b[1] as nat) + 65536 * (b[2] as nat) + 16777216 * (b[3] as nat)) as u32
}

/// The ten-byte record of one node.
pub open spec fn node_bytes(n: BddNode) -> Seq<u8> {
    u16_le_bytes(n.var.0) + u32_le_bytes(n.low_link.0) + u32_le_bytes(n.high_link.0)
}

/// The node encoded by a ten-byte record.
pub open spec fn node_of_bytes(b: Seq<u8>) -> BddNode
    recommends
        b.len() == 10,
{
    BddNode {
        var: BddVariable(u16_of_le_bytes(b.subrange(0, 2))),
        low_link: BddPointer(u32_of_le_bytes(b.subrange(2, 6))),
        high_link: BddPointer(u32_of_le_bytes(b.subrange(6, 10))),
    }
}

/// The binary serialization of a node sequence: the records of all nodes,
/// in sequence order.
pub open spec fn bin_encode(nodes: Seq<BddNode>) -> Seq<u8>
    decreases nodes.len(),
{
    if nodes.len() == 0 {
        Seq::empty()
    } else {
        node_bytes(nodes[0]) + bin_encode(nodes.drop_first())
    }
}

/// The node sequence decoded from a byte stream: one node per full ten-byte
/// record, a trailing partial record dropped.
pub open spec fn bin_decode(bytes: Seq<u8>) -> Seq<BddNode>
    decreases bytes.len(),
{
    if bytes.len() < 10 {
        Seq::empty()
    } else {
        seq![node_of_bytes(bytes.take(10))] + bin_decode(bytes.skip(10))
    }
}

proof fn lemma_u16_le_round_trip(v: u16)
    ensures
        u16_of_le_bytes(u16_le_bytes(v)) == v,
{
    let n = v as int;
    lemma_fundamental_div_mod(n, 256);
    assert(n / 256 < 256) by {
        lemma_multiply_divide_lt(n, 256, 256);
    }
}

proof fn lemma_u32_le_round_trip(v: u32)
    ensures
        u32_of_le_bytes(u32_le_bytes(v)) == v,
{
    let n = v as int;
    lemma_fundamental_div_mod(n, 256);
    lemma_fundamental_div_mod(n / 256, 256);
    lemma_fundamental_div_mod(n / 65536, 256);
    lemma_div_denominator(n, 256, 256);
    lemma_div_denominator(n, 65536, 256);
    assert(n / 16777216 < 256) by {
        lemma_multiply_divide_lt(n, 16777216, 256);
    }
}

proof fn lemma_node_bytes_round_trip(n: BddNode)
    ensures
        node_bytes(n).len() == 10,
        node_of_bytes(node_bytes(n)) == n,
{
    let b = node_bytes(n);
    assert(b.subrange(0, 2) =~= u16_le_bytes(n.var.0));
    assert(b.subrange(2, 6) =~= u32_le_bytes(n.low_link.0));
    assert(b.subrange(6, 10) =~= u32_le_bytes(n.high_link.0));
    lemma_u16_le_round_trip(n.var.0);
    lemma_u32_le_round_trip(n.low_link.0);
    lemma_u32_le_round_trip(n.high_link.0);
}

/// Byte-length law: the binary serialization holds exactly ten bytes per
/// node, so the empty diagram encodes to the empty byte sequence.
pub proof fn lemma_binary_encode_length(nodes: Seq<BddNode>)
    ensures
        bin_encode(nodes).len() == 10 * nodes.len(),
    decreases nodes.len(),
{
    if nodes.len() > 0 {
        lemma_binary_encode_length(nodes.drop_first());
    }
}

/// Appending one node to a sequence appends its ten-byte record to the
/// sequence's serialization.
proof fn lemma_bin_encode_push(nodes: Seq<BddNode>, n: BddNode)
    ensures
        bin_encode(nodes.push(n)) == bin_encode(nodes) + node_bytes(n),
    decreases nodes.len(),
{
    if nodes.len() == 0 {
        assert(nodes.push(n).drop_first() =~= nodes);
        assert(nodes.push(n)[0] == n);
        assert(bin_encode(nodes) == Seq::<u8>::empty());
        assert(bin_encode(nodes.push(n)) == node_bytes(n) + bin_encode(nodes));
        assert(node_bytes(n) + bin_encode(nodes) =~= bin_encode(nodes) + node_bytes(n));
    } else {
        assert(nodes.push(n).drop_first() =~= nodes.drop_first().push(n));
        lemma_bin_encode_push(nodes.drop_first(), n);
        assert(nodes.push(n)[0] == nodes[0]);
        assert(bin_encode(nodes.push(n)) == node_bytes(nodes[0]) + (bin_encode(nodes.drop_first())
            + node_bytes(n)));
        assert(node_bytes(nodes[0]) + (bin_encode(nodes.drop_first()) + node_bytes(n)) =~= (
        node_bytes(nodes[0]) + bin_encode(nodes.drop_first())) + node_bytes(n));
    }
}

/// Round-trip law: decoding a binary serialization reproduces the encoded
/// node sequence exactly.
pub proof fn lemma_binary_round_trip(nodes: Seq<BddNode>)
    ensures
        bin_decode(bin_encode(nodes)) == nodes,
    decreases nodes.len(),
{
    lemma_binary_encode_length(nodes);
    if nodes.len() == 0 {
    } else {
        let head = node_bytes(nodes[0]);
        let rest = bin_encode(nodes.drop_first());
        lemma_node_bytes_round_trip(nodes[0]);
        lemma_binary_encode_length(nodes.drop_first());
        assert((head + rest).take(10) =~= head);
        assert((head + rest).skip(10) =~= rest);
        lemma_binary_round_trip(nodes.drop_first());
        assert(bin_decode(bin_encode(nodes)) =~= nodes);
    }
}

/// Truncation leniency: a byte stream of length `10 * k + r` with
/// `0 <= r < 10` decodes to exactly `k` nodes, the same nodes that its
/// longest whole-record prefix decodes to; the trailing `r` bytes are
/// ignored.
pub proof fn lemma_binary_truncation(bytes: Seq<u8>)
    ensures
        bin_decode(bytes).len() == bytes.len() / 10,
        bin_decode(bytes) == bin_decode(bytes.take((bytes.len() / 10 * 10) as int)),
    decreases bytes.len(),
{
    if bytes.len() < 10 {
        assert(bytes.len() / 10 == 0) by (nonlinear_arith)
            requires
                bytes.len() < 10,
        ;
        assert(bin_decode(bytes.take((bytes.len() / 10 * 10) as int)) =~= Seq::<BddNode>::empty());
    } else {
        let tail = bytes.skip(10);
        lemma_binary_truncation(tail);
        assert(bytes.len() / 10 == tail.len() / 10 + 1) by {
            lemma_fundamental_div_mod(tail.len() as int, 10);
            lemma_fundamental_div_mod(bytes.len() as int, 10);
            assert(bytes.len() == tail.len() + 10);
        };
        let k = bytes.len() / 10;
        let whole = bytes.take((k * 10) as int);
        assert(whole.len() == k * 10);
        assert(whole.take(10) =~= bytes.take(10));
        assert(whole.skip(10) =~= tail.take(((k - 1) * 10) as int));
        assert((k - 1) * 10 == (tail.len() / 10 * 10) as int);
        assert(bin_decode(bytes) =~= bin_decode(whole));
    }
}

impl BddVariable {
    /// The two-byte little-endian form of this variable identifier.
    pub fn to_le_bytes(&self) -> (r: [u8; 2])
        ensures
            r@ == u16_le_bytes(self.0),
    {
        proof {
            lemma_multiply_divide_lt(self.0 as int, 256, 256);
        }
        let r = [(self.0 % 256) as u8, (self.0 / 256) as u8];
        proof {
            assert(r@ =~= u16_le_bytes(self.0));
        }
        r
    }

    /// The variable identifier with the given two-byte little-endian form.
    pub fn from_le_bytes(bytes: [u8; 2]) -> (r: BddVariable)
        ensures
            r.0 == u16_of_le_bytes(bytes@),
    {
        BddVariable(bytes[0] as u16 + 256 * (bytes[1] as u16))
    }
}

impl BddPointer {
    /// The four-byte little-endian form of this pointer.
    pub fn to_le_bytes(&self) -> (r: [u8; 4])
        ensures
            r@ == u32_le_bytes(self.0),
    {
        proof {
            lemma_multiply_divide_lt(self.0 as int, 16777216, 256);
            lemma_div_denominator(self.0 as int, 256, 256);
            lemma_div_denominator(self.0 as int, 65536, 256);
        }
        let v = self.0;
        let r = [
            (v % 256) as u8,
            ((v / 256) % 256) as u8,
            ((v / 65536) % 256) as u8,
            (v / 16777216) as u8,
        ];
        proof {
            assert(r@ =~= u32_le_bytes(self.0));
        }
        r
    }

    /// The pointer with the given four-byte little-endian form.
    pub fn from_le_bytes(bytes: [u8; 4]) -> (r: BddPointer)
        ensures
            r.0 == u32_of_le_bytes(bytes@),
    {
        BddPointer(
            bytes[0] as u32 + 256 * (bytes[1] as u32) + 65536 * (bytes[2] as u32) + 16777216 * (
            bytes[3] as u32),
        )
    }
}

impl Bdd {
    /// Append the binary serialization of this diagram to `output`: ten
    /// bytes per node, in sequence order.
    pub fn write_as_bytes(&self, output: &mut Vec<u8>)
        ensures
            final(output)@ == old(output)@ + bin_encode(self@),
    {
        let n = self.0.len();
        let mut i: usize = 0;
        proof {
            assert(self@.take(0) =~= Seq::<BddNode>::empty());
            assert(output@ =~= old(output)@ + bin_encode(self@.take(0)));
        }
        while i < n
            invariant
                i <= n,
                n == self.0.len(),
                output@ == old(output)@ + bin_encode(self@.take(i as int)),
            decreases n - i,
        {
            let node = self.0[i];
            let vb = node.var.to_le_bytes();
            let lb = node.low_link.to_le_bytes();
            let hb = node.high_link.to_le_bytes();
            output.push(vb[0]);
            output.push(vb[1]);
            output.push(lb[0]);
            output.push(lb[1]);
            output.push(lb[2]);
            output.push(lb[3]);
            output.push(hb[0]);
            output.push(hb[1]);
            output.push(hb[2]);
            output.push(hb[3]);
            proof {
                lemma_bin_encode_push(self@.take(i as int), self@[i as int]);
                assert(self@.take(i + 1) =~= self@.take(i as int).push(self@[i as int]));
                assert(output@ =~= old(output)@ + bin_encode(self@.take(i + 1)));
            }
            i += 1;
        }
        proof {
            assert(self@.take(n as int) =~= self@);
        }
    }

    /// Read a diagram from a byte buffer: one node per full ten-byte record,
    /// in stream order, a trailing partial record dropped without error.
    pub fn read_as_bytes(input: &[u8]) -> (r: Bdd)
        ensures
            r@ == bin_decode(input@),
            r@.len() == input@.len() / 10,
    {
        let n = input.len();
        let mut result: Vec<BddNode> = Vec::new();
        let mut i: usize = 0;
        proof {
            assert(input@.skip(0) =~= input@);
        }
        while n - i >= 10
            invariant
                i <= n,
                n == input@.len(),
                bin_decode(input@) == result@ + bin_decode(input@.skip(i as int)),
            decreases n - i,
        {
            let var = BddVariable::from_le_bytes([input[i], input[i + 1]]);
            let low = BddPointer::from_le_bytes([input[i + 2], input[i + 3], input[i + 4], input[i
                + 5]]);
            let high = BddPointer::from_le_bytes([input[i + 6], input[i + 7], input[i + 8], input[i
                + 9]]);
            let node = BddNode::mk_node(var, low, high);
            proof {
                let rest = input@.skip(i as int);
                assert(rest.take(10) =~= input@.subrange(i as int, i + 10));
                assert(rest.take(10).subrange(0, 2) =~= seq![input@[i as int], input@[i + 1]]);
                assert(rest.take(10).subrange(2, 6) =~= seq![
                    input@[i + 2],
                    input@[i + 3],
                    input@[i + 4],
                    input@[i + 5],
                ]);
                assert(rest.take(10).subrange(6, 10) =~= seq![
                    input@[i + 6],
                    input@[i + 7],
                    input@[i + 8],
                    input@[i + 9],
                ]);
                assert(node == node_of_bytes(rest.take(10)));
                assert(rest.skip(10) =~= input@.skip(i + 10));
                assert(result@.push(node) + bin_decode(input@.skip(i + 10)) =~= result@
                    + bin_decode(input@.skip(i as int)));
            }
            result.push(node);
            i += 10;
        }
        proof {
            assert(bin_decode(input@.skip(i as int)) =~= Seq::<BddNode>::empty());
            assert(bin_decode(input@) =~= result@);
            lemma_binary_truncation(input@);
        }
        Bdd(result)
    }

    /// Serialize this diagram into a fresh byte vector; the result always
    /// holds exactly ten bytes per node.
    pub fn to_bytes(&self) -> (r: Vec<u8>)
        ensures
            r@ == bin_encode(self@),
            r@.len() == 10 * self@.len(),
    {
        let mut buffer: Vec<u8> = Vec::new();
        self.write_as_bytes(&mut buffer);
        proof {
            lemma_binary_encode_length(self@);
        }
        buffer
    }

    /// Read a diagram from a byte buffer, as `read_as_bytes` does.  Binary
    /// decoding of an in-memory buffer has no failure mode: every full
    /// ten-byte record is a syntactically valid node.
    pub fn from_bytes(data: &[u8]) -> (r: Bdd)
        ensures
            r@ == bin_decode(data@),
            r@.len() == data@.len() / 10,
    {
        Bdd::read_as_bytes(data)
    }
}

} // verus!
