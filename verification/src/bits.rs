use vstd::prelude::*;

verus! {

/// Two to the power `n`.
pub open spec fn two_pow(n: nat) -> int
    decreases n,
{
    if n == 0 {
        1
    } else {
        2 * two_pow((n - 1) as nat)
    }
}

/// The value of a bit string read most-significant-bit first.
pub open spec fn bits_value(bs: Seq<bool>) -> int
    decreases bs.len(),
{
    if bs.len() == 0 {
        0
    } else {
        2 * bits_value(bs.drop_last()) + (if bs.last() {
            1int
        } else {
            0int
        })
    }
}

/// `n` zero bits.
pub open spec fn zeros(n: nat) -> Seq<bool> {
    Seq::new(n, |i: int| false)
}

/// A bit string zero-padded on the right up to eight bits.
pub open spec fn pad8(bs: Seq<bool>) -> Seq<bool>
    recommends
        bs.len() <= 8,
{
    bs + zeros((8 - bs.len()) as nat)
}

/// The bytes that packing `bits` most-significant-bit-first produces: eight
/// bits per byte, the final partial byte zero-padded on the right.
pub open spec fn spec_pack(bits: Seq<bool>) -> Seq<u8>
    decreases bits.len(),
{
    if bits.len() == 0 {
        Seq::empty()
    } else if bits.len() >= 8 {
        seq![bits_value(bits.take(8)) as u8] + spec_pack(bits.skip(8))
    } else {
        seq![bits_value(pad8(bits)) as u8]
    }
}

/// The bits of `v`, most significant first, over `n` positions: peel the top
/// bit off, shift what is left up by one.
pub open spec fn unpack_byte_rec(v: int, n: nat) -> Seq<bool>
    decreases n,
{
    if n == 0 {
        Seq::empty()
    } else {
        let b = v >= 128;
        seq![b] + unpack_byte_rec(
            (v - if b {
                128int
            } else {
                0int
            }) * 2,
            (n - 1) as nat,
        )
    }
}

/// The eight bits of one byte, most significant first.
pub open spec fn byte_bits(b: u8) -> Seq<bool> {
    unpack_byte_rec(b as int, 8)
}

/// The bit string the bytes hold: earlier bytes first, the most significant
/// bit of each byte first.
pub open spec fn spec_unpack(bytes: Seq<u8>) -> Seq<bool>
    decreases bytes.len(),
{
    if bytes.len() == 0 {
        Seq::empty()
    } else {
        spec_unpack(bytes.drop_last()) + byte_bits(bytes.last())
    }
}

proof fn lemma_two_pow_pos(n: nat)
    ensures
        two_pow(n) >= 1,
    decreases n,
{
    if n > 0 {
        lemma_two_pow_pos((n - 1) as nat);
    }
}

proof fn lemma_two_pow_mono(a: nat, b: nat)
    requires
        a <= b,
    ensures
        two_pow(a) <= two_pow(b),
    decreases b,
{
    lemma_two_pow_pos(a);
    if a < b && b > 0 {
        lemma_two_pow_mono(a, (b - 1) as nat);
    }
}

proof fn lemma_two_pow_eight()
    ensures
        two_pow(7) == 128,
        two_pow(8) == 256,
{
    assert(two_pow(0) == 1);
    assert(two_pow(1) == 2);
    assert(two_pow(2) == 4);
    assert(two_pow(3) == 8);
    assert(two_pow(4) == 16);
    assert(two_pow(5) == 32);
    assert(two_pow(6) == 64);
    assert(two_pow(7) == 128);
    assert(two_pow(8) == 256);
}

proof fn lemma_bits_value_bound(bs: Seq<bool>)
    ensures
        0 <= bits_value(bs),
        bits_value(bs) < two_pow(bs.len()),
    decreases bs.len(),
{
    if bs.len() > 0 {
        lemma_bits_value_bound(bs.drop_last());
    }
}

/// An in-memory bit sink: collects single bits, then packs them into bytes,
/// most significant bit first, zero-padding the final byte.
pub struct BitSink {
    bits: Vec<bool>,
}

impl View for BitSink {
    type V = Seq<bool>;

    closed spec fn view(&self) -> Seq<bool> {
        self.bits@
    }
}

impl BitSink {
    /// A sink with no bits yet.
    pub fn new() -> (s: Self)
        ensures
            s@ == Seq::<bool>::empty(),
    {
        BitSink { bits: Vec::new() }
    }

    /// Appends one bit.
    pub fn write_bit(&mut self, bit: bool)
        ensures
            final(self)@ == old(self)@.push(bit),
    {
        self.bits.push(bit);
    }

    /// The number of bits written so far.
    pub fn len(&self) -> (n: usize)
        ensures
            n == self@.len(),
    {
        self.bits.len()
    }

    /// Packs all collected bits into bytes, most significant bit first,
    /// zero-padding the final byte on the right.
    pub fn into_bytes(self) -> (r: Vec<u8>)
        ensures
            r@ == spec_pack(self@),
    {
        let bits = self.bits;
        let n = bits.len();
        let mut bytes: Vec<u8> = Vec::new();
        let mut i: usize = 0;
        proof {
            assert(bits@.skip(0) =~= bits@);
            assert(Seq::<u8>::empty() + spec_pack(bits@) =~= spec_pack(bits@));
        }
        while bits.len() - i >= 8
            invariant
                n == bits@.len(),
                i <= bits@.len(),
                spec_pack(bits@) == bytes@ + spec_pack(bits@.skip(i as int)),
            decreases bits@.len() - i,
        {
            let ghost pre = bytes@;
            let mut cur: u8 = 0;
            let mut j: usize = 0;
            while j < 8
                invariant
                    n == bits@.len(),
                    j <= 8,
                    i + 8 <= bits@.len(),
                    cur as int == bits_value(bits@.subrange(i as int, i as int + j as int)),
                    (cur as int) < two_pow(j as nat),
                decreases 8 - j,
            {
                proof {
                    lemma_two_pow_eight();
                    lemma_two_pow_mono(j as nat, 7);
                    assert(bits@.subrange(i as int, i as int + j + 1).drop_last() =~= bits@.subrange(
                        i as int,
                        i as int + j,
                    ));
                    assert(bits@.subrange(i as int, i as int + j + 1).last() == bits@[i as int + j]);
                }
                let b = bits[i + j];
                cur = 2 * cur + (if b {
                    1
                } else {
                    0
                });
                j = j + 1;
            }
            bytes.push(cur);
            proof {
                lemma_two_pow_eight();
                let rest = bits@.skip(i as int);
                assert(rest.take(8) =~= bits@.subrange(i as int, i as int + 8));
                assert(rest.skip(8) =~= bits@.skip(i as int + 8));
                lemma_bits_value_bound(rest.take(8));
                assert(spec_pack(rest) == seq![cur] + spec_pack(bits@.skip(i as int + 8)));
                assert(pre + (seq![cur] + spec_pack(bits@.skip(i as int + 8))) =~= (pre + seq![cur])
                    + spec_pack(bits@.skip(i as int + 8)));
            }
            i = i + 8;
        }
        if i < bits.len() {
            let ghost pre = bytes@;
            let ghost rem = bits@.skip(i as int);
            let k = bits.len() - i;
            let mut cur: u8 = 0;
            let mut j: usize = 0;
            while j < k
                invariant
                    n == bits@.len(),
                    j <= k,
                    k == bits@.len() - i,
                    i < bits@.len(),
                    k < 8,
                    cur as int == bits_value(bits@.subrange(i as int, i as int + j as int)),
                    (cur as int) < two_pow(j as nat),
                decreases k - j,
            {
                proof {
                    lemma_two_pow_eight();
                    lemma_two_pow_mono(j as nat, 7);
                    assert(bits@.subrange(i as int, i as int + j + 1).drop_last() =~= bits@.subrange(
                        i as int,
                        i as int + j,
                    ));
                    assert(bits@.subrange(i as int, i as int + j + 1).last() == bits@[i as int + j]);
                }
                let b = bits[i + j];
                cur = 2 * cur + (if b {
                    1
                } else {
                    0
                });
                j = j + 1;
            }
            proof {
                assert(bits@.subrange(i as int, i as int + k) =~= rem);
                assert(rem + zeros(0) =~= rem);
            }
            while j < 8
                invariant
                    k <= j <= 8,
                    k == bits@.len() - i,
                    i < bits@.len(),
                    k < 8,
                    rem == bits@.skip(i as int),
                    cur as int == bits_value(rem + zeros((j - k) as nat)),
                    (cur as int) < two_pow(j as nat),
                decreases 8 - j,
            {
                proof {
                    lemma_two_pow_eight();
                    lemma_two_pow_mono(j as nat, 7);
                    assert((rem + zeros((j + 1 - k) as nat)).drop_last() =~= rem + zeros(
                        (j - k) as nat,
                    ));
                    assert((rem + zeros((j + 1 - k) as nat)).last() == false);
                }
                cur = 2 * cur;
                j = j + 1;
            }
            bytes.push(cur);
            proof {
                lemma_two_pow_eight();
                assert(rem + zeros((8 - k) as nat) =~= pad8(rem));
                lemma_bits_value_bound(pad8(rem));
                assert(pad8(rem).len() == 8);
                assert(spec_pack(rem) == seq![cur]);
                assert(pre + seq![cur] =~= bytes@);
            }
        } else {
            proof {
                assert(bits@.skip(i as int) =~= Seq::<bool>::empty());
                assert(bytes@ + spec_pack(bits@.skip(i as int)) =~= bytes@);
            }
        }
        bytes
    }
}

/// An in-memory bit source over a byte string: yields the bytes' bits one at
/// a time, most significant bit of each byte first.
pub struct BitSource {
    bits: Vec<bool>,
    pos: usize,
}

impl BitSource {
    #[verifier::type_invariant]
    closed spec fn inv(&self) -> bool {
        self.pos <= self.bits@.len()
    }

    /// All bits the source was created over.
    pub closed spec fn all_bits(&self) -> Seq<bool> {
        self.bits@
    }

    /// The bits not yet consumed.
    pub closed spec fn remaining(&self) -> Seq<bool> {
        self.bits@.skip(self.pos as int)
    }

    /// A source over the bits of `bytes`, none consumed yet.
    pub fn from_bytes(bytes: &Vec<u8>) -> (s: Self)
        ensures
            s.all_bits() == spec_unpack(bytes@),
            s.remaining() == spec_unpack(bytes@),
    {
        let mut bits: Vec<bool> = Vec::new();
        let mut i: usize = 0;
        while i < bytes.len()
            invariant
                i <= bytes@.len(),
                bits@ == spec_unpack(bytes@.take(i as int)),
            decreases bytes@.len() - i,
        {
            let ghost pre = bits@;
            let b = bytes[i];
            let mut v: u16 = b as u16;
            let mut j: usize = 0;
            proof {
                assert(bits@.subrange(pre.len() as int, bits@.len() as int) =~= Seq::<
                    bool,
                >::empty());
                assert(Seq::<bool>::empty() + unpack_byte_rec(v as int, 8) =~= unpack_byte_rec(
                    v as int,
                    8,
                ));
                assert(bits@.subrange(0, pre.len() as int) =~= pre);
            }
            while j < 8
                invariant
                    j <= 8,
                    v < 256,
                    bits@.len() == pre.len() + j,
                    bits@.subrange(0, pre.len() as int) == pre,
                    byte_bits(b) == bits@.subrange(pre.len() as int, bits@.len() as int)
                        + unpack_byte_rec(v as int, (8 - j) as nat),
                decreases 8 - j,
            {
                let ghost sub0 = bits@.subrange(pre.len() as int, bits@.len() as int);
                let ghost v0 = v as int;
                let bit = v >= 128;
                proof {
                    assert(unpack_byte_rec(v0, (8 - j) as nat) == seq![bit] + unpack_byte_rec(
                        (v0 - if bit {
                            128int
                        } else {
                            0int
                        }) * 2,
                        (8 - j - 1) as nat,
                    ));
                }
                bits.push(bit);
                v = (v - (if bit {
                    128
                } else {
                    0
                })) * 2;
                j = j + 1;
                proof {
                    assert(bits@.subrange(0, pre.len() as int) =~= pre);
                    assert(bits@.subrange(pre.len() as int, bits@.len() as int) =~= sub0.push(bit));
                    assert(sub0 + (seq![bit] + unpack_byte_rec(v as int, (8 - j) as nat))
                        =~= sub0.push(bit) + unpack_byte_rec(v as int, (8 - j) as nat));
                }
            }
            proof {
                assert(unpack_byte_rec(v as int, 0) == Seq::<bool>::empty());
                assert(bits@.subrange(pre.len() as int, bits@.len() as int) + Seq::<bool>::empty()
                    =~= bits@.subrange(pre.len() as int, bits@.len() as int));
                assert(bytes@.take(i as int + 1).drop_last() =~= bytes@.take(i as int));
                assert(bytes@.take(i as int + 1).last() == b);
                assert(spec_unpack(bytes@.take(i as int + 1)) == pre + byte_bits(b));
                assert(bits@ =~= bits@.subrange(0, pre.len() as int) + bits@.subrange(
                    pre.len() as int,
                    bits@.len() as int,
                ));
                assert(pre + byte_bits(b) =~= bits@);
            }
            i = i + 1;
        }
        proof {
            assert(bytes@.take(bytes@.len() as int) =~= bytes@);
        }
        let s = BitSource { bits, pos: 0 };
        proof {
            assert(s.remaining() =~= s.all_bits());
        }
        s
    }

    /// Yields the next bit, or nothing once every bit has been consumed.
    pub fn read_bit(&mut self) -> (r: Option<bool>)
        ensures
            final(self).all_bits() == old(self).all_bits(),
            old(self).remaining().len() == 0 ==> r is None && final(self).remaining()
                == old(self).remaining(),
            old(self).remaining().len() > 0 ==> r == Some(old(self).remaining()[0])
                && final(self).remaining() == old(self).remaining().drop_first(),
    {
        proof {
            use_type_invariant(&*self);
        }
        if self.pos < self.bits.len() {
            let b = self.bits[self.pos];
            self.pos = self.pos + 1;
            proof {
                assert(self.bits@.skip(self.pos as int) =~= old(self).remaining().drop_first());
            }
            Some(b)
        } else {
            proof {
                assert(old(self).remaining() =~= Seq::<bool>::empty());
            }
            None
        }
    }
}

} // verus!
