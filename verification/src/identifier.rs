//! The 160-bit node identifier and its 20-byte big-endian wire form.

use vstd::prelude::*;

verus! {

use vstd::arithmetic::div_mod::{
    lemma_breakdown, lemma_div_basics, lemma_div_denominator, lemma_fundamental_div_mod_converse,
    lemma_hoist_over_denominator, lemma_mod_multiples_vanish, lemma_small_mod,
};
use vstd::arithmetic::power2::{
    lemma2_to64, lemma2_to64_rest, lemma_pow2_adds, lemma_pow2_pos, lemma_pow2_strictly_increases,
    pow2,
};
use vstd::bits::{
    lemma_low_bits_mask_values, lemma_u32_low_bits_mask_is_mod, lemma_u32_shr_is_div,
    lemma_u64_low_bits_mask_is_mod, lemma_u64_shr_is_div,
};

/// A node identifier: an unsigned integer strictly below 2^160, split over
/// three machine words. The denoted number is `lo + mid * 2^64 + hi * 2^128`,
/// so every value of this type lies below 2^160 and every such number has
/// exactly one representation.
#[derive(Clone, Copy, PartialEq, Eq, Structural, Debug, Hash)]
pub struct NodeIdentifier {
    pub lo: u64,
    pub mid: u64,
    pub hi: u32,
}

/// The number denoted by a big-endian byte string: the first byte is the most
/// significant digit in base 256.
pub open spec fn be_value(s: Seq<u8>) -> nat
    decreases s.len(),
{
    if s.len() == 0 {
        0
    } else {
        (256 * be_value(s.drop_last()) + s.last()) as nat
    }
}

/// The `n`-byte big-endian representation of `v % 2^(8n)`: byte `j` holds
/// `(v / 2^(8 * (n - 1 - j))) % 256`.
pub open spec fn div_byte_seq(v: nat, n: nat) -> Seq<u8> {
    Seq::new(n, |j: int| ((v / pow2((8 * (n - 1 - j)) as nat)) % 256) as u8)
}

impl NodeIdentifier {
    /// The number this identifier denotes.
    pub open spec fn value(self) -> nat {
        (self.lo + self.mid * pow2(64) + self.hi * pow2(128)) as nat
    }

    /// The identifier with a small denoted number.
    pub fn from_u64(n: u64) -> (r: Self)
        ensures
            r.value() == n,
    {
        let r = NodeIdentifier { lo: n, mid: 0, hi: 0 };
        proof {
            assert(r.value() == n + 0 * pow2(64) + 0 * pow2(128));
        }
        r
    }

    /// Every identifier denotes a number below 2^160.
    pub proof fn lemma_value_below(self)
        ensures
            self.value() < pow2(160),
    {
        lemma2_to64();
        lemma2_to64_rest();
        lemma_pow2_adds(64, 64);
        lemma_pow2_adds(32, 128);
        assert(self.value() < pow2(160)) by (nonlinear_arith)
            requires
                self.lo < pow2(64),
                self.mid < pow2(64),
                self.hi < pow2(32),
                pow2(128) == pow2(64) * pow2(64),
                pow2(160) == pow2(32) * pow2(128),
                self.value() == self.lo + self.mid * pow2(64) + self.hi * pow2(128),
        ;
    }

    /// Recovering the three words from the denoted number gives the
    /// identifier back: the representation is unique.
    pub proof fn lemma_of_value(self)
        ensures
            spec_id_of(self.value()) == self,
    {
        let v = self.value() as int;
        let p64 = pow2(64) as int;
        let q = self.mid + self.hi * pow2(64);
        lemma2_to64();
        lemma2_to64_rest();
        lemma_pow2_adds(64, 64);
        assert(v == q * p64 + self.lo) by (nonlinear_arith)
            requires
                pow2(128) == pow2(64) * pow2(64),
                p64 == pow2(64),
                q == self.mid + self.hi * pow2(64),
                v == self.lo + self.mid * pow2(64) + self.hi * pow2(128),
        ;
        lemma_fundamental_div_mod_converse(v, p64, q as int, self.lo as int);
        lemma_fundamental_div_mod_converse(q as int, p64, self.hi as int, self.mid as int);
        assert(v / p64 == q);
        assert(q / p64 == self.hi && q % p64 == self.mid);
        lemma_pow2_pos(64);
        lemma_div_denominator(v, p64, p64);
        assert(v / pow2(128) as int == self.hi);
        lemma_small_mod(self.hi as nat, pow2(32));
        lemma_small_mod(self.lo as nat, pow2(64));
    }

    /// Two identifiers denoting the same number are equal.
    pub proof fn lemma_value_injective(a: Self, b: Self)
        requires
            a.value() == b.value(),
        ensures
            a == b,
    {
        a.lemma_of_value();
        b.lemma_of_value();
    }
}

/// The identifier whose denoted number is `v`, for `v < 2^160`.
pub open spec fn spec_id_of(v: nat) -> NodeIdentifier {
    NodeIdentifier {
        lo: (v % pow2(64)) as u64,
        mid: ((v / pow2(64)) % pow2(64)) as u64,
        hi: ((v / pow2(128)) % pow2(32)) as u32,
    }
}

/// The canonical 20-byte big-endian form of an identifier.
pub open spec fn spec_id_bytes(id: NodeIdentifier) -> Seq<u8> {
    div_byte_seq(id.value(), 20)
}

/// A big-endian byte string of length `n` denotes a number below 2^(8n).
pub proof fn lemma_be_value_bound(s: Seq<u8>)
    ensures
        be_value(s) < pow2((8 * s.len()) as nat),
    decreases s.len(),
{
    lemma2_to64();
    lemma2_to64_rest();
    if s.len() == 0 {
    } else {
        lemma_be_value_bound(s.drop_last());
        lemma_pow2_adds((8 * (s.len() - 1)) as nat, 8);
    }
}

/// Concatenation shifts the left part by eight bits per byte of the right
/// part: `be_value(a + b) == be_value(a) * 2^(8 * |b|) + be_value(b)`.
pub proof fn lemma_be_value_append(a: Seq<u8>, b: Seq<u8>)
    ensures
        be_value(a + b) == be_value(a) * pow2((8 * b.len()) as nat) + be_value(b),
    decreases b.len(),
{
    lemma2_to64();
    lemma2_to64_rest();
    if b.len() == 0 {
        assert(a + b =~= a);
        assert(be_value(b) == 0);
        assert(pow2((8 * b.len()) as nat) == 1);
        assert(be_value(a) * pow2((8 * b.len()) as nat) == be_value(a)) by (nonlinear_arith)
            requires
                pow2((8 * b.len()) as nat) == 1,
        ;
        assert(be_value(a + b) == be_value(a) * pow2((8 * b.len()) as nat) + be_value(b));
    } else {
        let b1 = b.drop_last();
        assert((a + b).len() == a.len() + b.len());
        assert((a + b).drop_last() =~= a + b1);
        assert((a + b).last() == b.last());
        lemma_be_value_append(a, b1);
        assert(be_value(a + b) == 256 * be_value(a + b1) + b.last());
        assert(be_value(b) == 256 * be_value(b1) + b.last());
        lemma_pow2_adds((8 * b1.len()) as nat, 8);
        assert(be_value(a + b) == be_value(a) * pow2((8 * b.len()) as nat) + be_value(b))
            by (nonlinear_arith)
            requires
                be_value(a + b) == 256 * be_value(a + b1) + b.last(),
                be_value(a + b1) == be_value(a) * pow2((8 * b1.len()) as nat) + be_value(b1),
                be_value(b) == 256 * be_value(b1) + b.last(),
                pow2((8 * b.len()) as nat) == pow2((8 * b1.len()) as nat) * 256,
        ;
    }
}

/// The byte string of successive base-256 digits of `v` denotes
/// `v % 2^(8n)`.
pub proof fn lemma_be_div_bytes(v: nat, n: nat)
    ensures
        div_byte_seq(v, n).len() == n,
        be_value(div_byte_seq(v, n)) == v % pow2((8 * n) as nat),
    decreases n,
{
    lemma2_to64();
    lemma2_to64_rest();
    let s = div_byte_seq(v, n);
    if n == 0 {
        assert(v % pow2(0) == 0) by {
            lemma_small_mod(0, 1);
        }
    } else {
        let v1 = v / 256;
        let s1 = div_byte_seq(v1, (n - 1) as nat);
        lemma_be_div_bytes(v1, (n - 1) as nat);
        assert(s.drop_last() =~= s1) by {
            assert forall|j: int| 0 <= j < n - 1 implies s[j] == s1[j] by {
                lemma_pow2_pos((8 * (n - 2 - j)) as nat);
                lemma_div_denominator(v as int, 256, pow2((8 * (n - 2 - j)) as nat) as int);
                lemma_pow2_adds(8, (8 * (n - 2 - j)) as nat);
                assert(256 * pow2((8 * (n - 2 - j)) as nat) == pow2((8 * (n - 1 - j)) as nat));
            }
        }
        assert(s.last() == (v % 256) as u8) by {
            assert(pow2(0) == 1);
            lemma_div_basics(v as int);
            assert(s.last() == ((v / pow2((8 * (n - 1 - (n - 1))) as nat)) % 256) as u8);
        }
        lemma_pow2_pos((8 * (n - 1)) as nat);
        lemma_breakdown(v as int, 256, pow2((8 * (n - 1)) as nat) as int);
        lemma_pow2_adds(8, (8 * (n - 1)) as nat);
        assert(256 * pow2((8 * (n - 1)) as nat) == pow2((8 * n) as nat));
    }
}

/// The canonical 20-byte form denotes exactly the identifier's number.
pub proof fn lemma_id_bytes_value(id: NodeIdentifier)
    ensures
        spec_id_bytes(id).len() == 20,
        be_value(spec_id_bytes(id)) == id.value(),
{
    lemma_be_div_bytes(id.value(), 20);
    id.lemma_value_below();
    lemma_pow2_pos(160);
    lemma_small_mod(id.value(), pow2(160));
}

/// Law: identifier round trip. Encoding an identifier yields exactly 20
/// bytes, and decoding them — taking the denoted number of the bytes and
/// rebuilding the identifier from it — yields the identifier again.
pub proof fn lemma_id_round_trip(id: NodeIdentifier)
    ensures
        spec_id_bytes(id).len() == 20,
        spec_id_of(be_value(spec_id_bytes(id))) == id,
{
    lemma_id_bytes_value(id);
    id.lemma_of_value();
}

/// Byte `j < 4` of the canonical form comes from the high word alone.
proof fn lemma_byte_from_hi(id: NodeIdentifier, k: nat)
    ensures
        (id.value() / pow2((128 + k) as nat)) % 256 == ((id.hi as nat) / pow2(k)) % 256,
{
    let v = id.value() as int;
    let rest = id.lo + id.mid * pow2(64);
    lemma2_to64();
    lemma2_to64_rest();
    lemma_pow2_adds(64, 64);
    assert(rest < pow2(128)) by (nonlinear_arith)
        requires
            id.lo < pow2(64),
            id.mid < pow2(64),
            pow2(128) == pow2(64) * pow2(64),
            rest == id.lo + id.mid * pow2(64),
    ;
    lemma_pow2_pos(128);
    lemma_pow2_pos(k);
    assert(v == (id.hi as int) * (pow2(128) as int) + rest);
    lemma_fundamental_div_mod_converse(v, pow2(128) as int, id.hi as int, rest as int);
    lemma_div_denominator(v, pow2(128) as int, pow2(k) as int);
    lemma_pow2_adds(128, k);
}

/// Bytes 4 to 11 of the canonical form come from the middle word alone.
proof fn lemma_byte_from_mid(id: NodeIdentifier, k: nat)
    requires
        k <= 56,
    ensures
        (id.value() / pow2((64 + k) as nat)) % 256 == ((id.mid as nat) / pow2(k)) % 256,
{
    let v = id.value() as int;
    let p64 = pow2(64) as int;
    let q = id.mid + id.hi * pow2(64);
    lemma2_to64();
    lemma2_to64_rest();
    lemma_pow2_adds(64, 64);
    assert(v == q * p64 + id.lo) by (nonlinear_arith)
        requires
            pow2(128) == pow2(64) * pow2(64),
            p64 == pow2(64),
            q == id.mid + id.hi * pow2(64),
            v == id.lo + id.mid * pow2(64) + id.hi * pow2(128),
    ;
    lemma_pow2_pos(64);
    lemma_pow2_pos(k);
    lemma_fundamental_div_mod_converse(v, p64, q as int, id.lo as int);
    lemma_div_denominator(v, p64, pow2(k) as int);
    lemma_pow2_adds(64, k);
    assert(v / pow2((64 + k) as nat) as int == (q as int) / pow2(k) as int);
    // Split q / 2^k into the middle word's digits and a multiple of 256.
    lemma_pow2_adds((64 - k) as nat, k);
    assert((id.hi * pow2((64 - k) as nat)) * pow2(k) == id.hi * pow2(64)) by (nonlinear_arith)
        requires
            pow2(64) == pow2((64 - k) as nat) * pow2(k),
    ;
    lemma_hoist_over_denominator(id.mid as int, (id.hi * pow2((64 - k) as nat)) as int, pow2(k));
    assert((q as int) / pow2(k) as int == (id.mid as nat) / pow2(k) + id.hi * pow2(
        (64 - k) as nat,
    ));
    lemma_pow2_adds((56 - k) as nat, 8);
    assert(id.hi * pow2((64 - k) as nat) == 256 * (id.hi * pow2((56 - k) as nat)))
        by (nonlinear_arith)
        requires
            pow2((64 - k) as nat) == pow2((56 - k) as nat) * 256,
    ;
    lemma_mod_multiples_vanish(
        (id.hi * pow2((56 - k) as nat)) as int,
        ((id.mid as nat) / pow2(k)) as int,
        256,
    );
}

/// Bytes 12 to 19 of the canonical form come from the low word alone.
proof fn lemma_byte_from_lo(id: NodeIdentifier, k: nat)
    requires
        k <= 56,
    ensures
        (id.value() / pow2(k)) % 256 == ((id.lo as nat) / pow2(k)) % 256,
{
    let v = id.value() as int;
    let q = id.mid + id.hi * pow2(64);
    lemma2_to64();
    lemma2_to64_rest();
    lemma_pow2_adds(64, 64);
    lemma_pow2_adds((64 - k) as nat, k);
    lemma_pow2_pos(k);
    assert(v == id.lo + (q * pow2((64 - k) as nat)) * pow2(k)) by (nonlinear_arith)
        requires
            pow2(128) == pow2(64) * pow2(64),
            pow2(64) == pow2((64 - k) as nat) * pow2(k),
            q == id.mid + id.hi * pow2(64),
            v == id.lo + id.mid * pow2(64) + id.hi * pow2(128),
    ;
    lemma_hoist_over_denominator(id.lo as int, (q * pow2((64 - k) as nat)) as int, pow2(k));
    assert(v / pow2(k) as int == (id.lo as nat) / pow2(k) + q * pow2((64 - k) as nat));
    lemma_pow2_adds((56 - k) as nat, 8);
    assert(q * pow2((64 - k) as nat) == 256 * (q * pow2((56 - k) as nat))) by (nonlinear_arith)
        requires
            pow2((64 - k) as nat) == pow2((56 - k) as nat) * 256,
    ;
    lemma_mod_multiples_vanish(
        (q * pow2((56 - k) as nat)) as int,
        ((id.lo as nat) / pow2(k)) as int,
        256,
    );
}

/// Packs an identifier into its 20-byte big-endian form: byte by byte, most
/// significant first, each byte the next eight bits of the number.
pub fn encode_id(id: &NodeIdentifier) -> (r: Vec<u8>)
    ensures
        r@ == spec_id_bytes(*id),
        r@.len() == 20,
        be_value(r@) == id.value(),
{
    let mut out: Vec<u8> = Vec::new();
    let mut j: usize = 0;
    while j < 4
        invariant
            j <= 4,
            out@ =~= spec_id_bytes(*id).take(j as int),
        decreases 4 - j,
    {
        let sh: u32 = (8 * (3 - j)) as u32;
        let b: u8 = ((id.hi >> sh) & 0xff) as u8;
        proof {
            lemma_u32_shr_is_div(id.hi, sh);
            lemma_low_bits_mask_values();
            lemma_u32_low_bits_mask_is_mod(id.hi >> sh, 8);
            lemma2_to64();
        lemma2_to64_rest();
            lemma_byte_from_hi(*id, (8 * (3 - j)) as nat);
            assert(8 * (19 - j) == 128 + 8 * (3 - j));
            assert(b == spec_id_bytes(*id)[j as int]);
        }
        out.push(b);
        j += 1;
    }
    while j < 12
        invariant
            4 <= j <= 12,
            out@ =~= spec_id_bytes(*id).take(j as int),
        decreases 12 - j,
    {
        let sh: u64 = (8 * (11 - j)) as u64;
        let b: u8 = ((id.mid >> sh) & 0xff) as u8;
        proof {
            lemma_u64_shr_is_div(id.mid, sh);
            lemma_low_bits_mask_values();
            lemma_u64_low_bits_mask_is_mod(id.mid >> sh, 8);
            lemma2_to64();
        lemma2_to64_rest();
            lemma_byte_from_mid(*id, (8 * (11 - j)) as nat);
            assert(8 * (19 - j) == 64 + 8 * (11 - j));
            assert(b == spec_id_bytes(*id)[j as int]);
        }
        out.push(b);
        j += 1;
    }
    while j < 20
        invariant
            12 <= j <= 20,
            out@ =~= spec_id_bytes(*id).take(j as int),
        decreases 20 - j,
    {
        let sh: u64 = (8 * (19 - j)) as u64;
        let b: u8 = ((id.lo >> sh) & 0xff) as u8;
        proof {
            lemma_u64_shr_is_div(id.lo, sh);
            lemma_low_bits_mask_values();
            lemma_u64_low_bits_mask_is_mod(id.lo >> sh, 8);
            lemma2_to64();
        lemma2_to64_rest();
            lemma_byte_from_lo(*id, (8 * (19 - j)) as nat);
            assert(b == spec_id_bytes(*id)[j as int]);
        }
        out.push(b);
        j += 1;
    }
    proof {
        assert(out@ =~= spec_id_bytes(*id));
        lemma_id_bytes_value(*id);
    }
    out
}

/// Unpacks a 20-byte big-endian byte string into the identifier it denotes,
/// accumulating most-significant-first into each of the three words.
pub fn decode_id(bytes: &[u8]) -> (r: NodeIdentifier)
    requires
        bytes@.len() == 20,
    ensures
        r.value() == be_value(bytes@),
        r == spec_id_of(be_value(bytes@)),
{
    let mut hi: u32 = 0;
    let mut i: usize = 0;
    while i < 4
        invariant
            bytes@.len() == 20,
            i <= 4,
            hi as nat == be_value(bytes@.take(i as int)),
        decreases 4 - i,
    {
        proof {
            lemma_be_value_bound(bytes@.take(i as int));
            lemma2_to64();
        lemma2_to64_rest();
            if 8 * i < 24 {
                lemma_pow2_strictly_increases((8 * i) as nat, 24);
            }
            assert(bytes@.take(i + 1).drop_last() =~= bytes@.take(i as int));
        }
        hi = hi * 256 + bytes[i] as u32;
        i += 1;
    }
    let mut mid: u64 = 0;
    while i < 12
        invariant
            bytes@.len() == 20,
            4 <= i <= 12,
            hi as nat == be_value(bytes@.take(4)),
            mid as nat == be_value(bytes@.subrange(4, i as int)),
        decreases 12 - i,
    {
        proof {
            lemma_be_value_bound(bytes@.subrange(4, i as int));
            lemma2_to64();
        lemma2_to64_rest();
            if 8 * (i - 4) < 56 {
                lemma_pow2_strictly_increases((8 * (i - 4)) as nat, 56);
            }
            assert(bytes@.subrange(4, i + 1).drop_last() =~= bytes@.subrange(4, i as int));
        }
        mid = mid * 256 + bytes[i] as u64;
        i += 1;
    }
    let mut lo: u64 = 0;
    while i < 20
        invariant
            bytes@.len() == 20,
            12 <= i <= 20,
            hi as nat == be_value(bytes@.take(4)),
            mid as nat == be_value(bytes@.subrange(4, 12)),
            lo as nat == be_value(bytes@.subrange(12, i as int)),
        decreases 20 - i,
    {
        proof {
            lemma_be_value_bound(bytes@.subrange(12, i as int));
            lemma2_to64();
        lemma2_to64_rest();
            if 8 * (i - 12) < 56 {
                lemma_pow2_strictly_increases((8 * (i - 12)) as nat, 56);
            }
            assert(bytes@.subrange(12, i + 1).drop_last() =~= bytes@.subrange(12, i as int));
        }
        lo = lo * 256 + bytes[i] as u64;
        i += 1;
    }
    let r = NodeIdentifier { lo, mid, hi };
    proof {
        let p1 = bytes@.take(4);
        let p2 = bytes@.subrange(4, 12);
        let p3 = bytes@.subrange(12, 20);
        assert(bytes@ =~= (p1 + p2) + p3);
        lemma_be_value_append(p1, p2);
        lemma_be_value_append(p1 + p2, p3);
        lemma2_to64();
        lemma2_to64_rest();
        lemma_pow2_adds(64, 64);
        assert((hi * pow2(64) + mid) * pow2(64) + lo == hi * pow2(128) + mid * pow2(64) + lo)
            by (nonlinear_arith)
            requires
                pow2(128) == pow2(64) * pow2(64),
        ;
        assert(r.value() == be_value(bytes@));
        r.lemma_of_value();
    }
    r
}

} // verus!
