//! A big-endian bit writer that counts what it has written.
use vstd::prelude::*;
use vstd::arithmetic::power2::{lemma2_to64, lemma_pow2_strictly_increases, lemma_pow2_unfold, pow2};
use bitstream_io::{BigEndian, BitWrite, BitWriter};

verus! {

/// A big-endian [`BitWriter`] over a byte vector, which Verus sees only
/// through [`stream_bits`].
#[verifier::external_body]
pub struct BitStream {
    inner: BitWriter<Vec<u8>, BigEndian>,
}

/// The bits that a stream holds: the bytes it was created over, then every
/// bit written since, partial byte included.
pub uninterp spec fn stream_bits(w: BitStream) -> Seq<bool>;

/// The natural number that a run of bits spells, most significant first.
pub open spec fn bits_value(b: Seq<bool>) -> nat
    decreases b.len(),
{
    if b.len() == 0 {
        0
    } else {
        bits_value(b.drop_last()) * 2 + if b.last() { 1nat } else { 0nat }
    }
}

/// The `width` low bits of `v` in two's complement, most significant first.
pub open spec fn field_bits(width: nat, v: int) -> Seq<bool> {
    Seq::new(width, |i: int| (v % pow2(width) as int) / pow2((width - 1 - i) as nat) as int % 2 == 1)
}

/// The bits of a byte, most significant first.
pub open spec fn byte_bits(b: u8) -> Seq<bool> {
    field_bits(8, b as int)
}

/// The bits of a byte sequence, each byte most significant bit first.
pub open spec fn bytes_bits(bs: Seq<u8>) -> Seq<bool>
    decreases bs.len(),
{
    if bs.len() == 0 {
        Seq::empty()
    } else {
        bytes_bits(bs.drop_last()) + byte_bits(bs.last())
    }
}

/// The whole bytes that a run of bits makes; a trailing partial byte is dropped.
pub open spec fn bits_bytes(b: Seq<bool>) -> Seq<u8> {
    Seq::new(b.len() / 8, |i: int| bits_value(b.subrange(8 * i, 8 * i + 8)) as u8)
}

/// Whether `value` fits in `bits` bits as an unsigned number.
pub open spec fn fits_unsigned(bits: nat, value: int) -> bool {
    0 <= value < pow2(bits)
}

/// Whether `value` fits in `bits` bits in two's complement.
pub open spec fn fits_signed(bits: nat, value: int) -> bool {
    bits >= 1 && -(pow2((bits - 1) as nat) as int) <= value < pow2((bits - 1) as nat)
}

/// `2^e`, for `e` up to 32.
fn pow2_u64(e: u32) -> (r: u64)
    requires
        e <= 32,
    ensures
        r == pow2(e as nat),
        r <= 0x1_0000_0000,
{
    let mut r: u64 = 1;
    let mut k: u32 = 0;
    proof { lemma2_to64(); }
    while k < e
        invariant
            k <= e <= 32,
            r == pow2(k as nat),
        decreases e - k,
    {
        proof {
            lemma_pow2_unfold((k + 1) as nat);
            if k + 1 < 32 {
                lemma_pow2_strictly_increases((k + 1) as nat, 32);
            }
            lemma2_to64();
        }
        r = r * 2;
        k = k + 1;
    }
    proof {
        lemma2_to64();
        if e < 32 {
            lemma_pow2_strictly_increases(e as nat, 32);
        }
    }
    r
}

/// Relies on `BitWriter::new`: a writer over `buf` that has written nothing yet.
#[verifier::external_body]
fn stream_new(buf: Vec<u8>) -> (r: BitStream)
    ensures
        stream_bits(r) == bytes_bits(buf@),
{
    BitStream { inner: BitWriter::new(buf) }
}

/// Relies on `BitWrite::write` for `u32`: it fails on more than 32 bits or
/// on a value that needs more than `bits` bits, and then writes nothing;
/// otherwise it appends the value's `bits` low bits, most significant first.
/// Writes into a `Vec` never fail.
#[verifier::external_body]
fn stream_write(w: &mut BitStream, bits: u32, value: u32) -> (r: bool)
    requires
        1 <= bits,
    ensures
        r == (bits <= 32 && fits_unsigned(bits as nat, value as int)),
        r ==> stream_bits(*final(w)) == stream_bits(*old(w)) + field_bits(bits as nat, value as int),
        !r ==> stream_bits(*final(w)) == stream_bits(*old(w)),
{
    w.inner.write(bits, value).is_ok()
}

/// Relies on `BitWrite::write_signed` for `i32` in big-endian order: a value
/// that fits in `bits` bits is appended in two's complement, most significant
/// bit first (the sign bit, then the rest; all 32 bits at once for a full
/// width). Values that do not fit are left out: for a too-negative one the
/// library does not check, and for a too-large one it fails after the sign
/// bit. Writes into a `Vec` never fail.
#[verifier::external_body]
fn stream_write_signed(w: &mut BitStream, bits: u32, value: i32)
    requires
        1 <= bits <= 32,
        fits_signed(bits as nat, value as int),
    ensures
        stream_bits(*final(w)) == stream_bits(*old(w)) + field_bits(bits as nat, value as int),
{
    let _ = w.inner.write_signed(bits, value);
}

/// Relies on `BitWrite::write_bit`: it appends one bit. Writes into a `Vec`
/// never fail.
#[verifier::external_body]
fn stream_write_bit(w: &mut BitStream, bit: bool)
    ensures
        stream_bits(*final(w)) == stream_bits(*old(w)).push(bit),
{
    let _ = w.inner.write_bit(bit);
}

/// Relies on `BitWriter::into_writer`: the underlying buffer, holding every
/// whole byte; unwritten partial bits are dropped.
#[verifier::external_body]
fn stream_into_writer(w: BitStream) -> (r: Vec<u8>)
    ensures
        r@ == bits_bytes(stream_bits(w)),
{
    w.inner.into_writer()
}

/// The value does not fit in the requested number of bits.
#[derive(Clone, Copy, Debug, PartialEq, Eq, Structural)]
pub struct Overflow;

/// Wraps a big-endian [`BitWriter`] over a byte vector and counts the bits
/// written through it.
pub struct BitVecWriter {
    wr: BitStream,
    bits_pushed: u32,
    initial: Ghost<Seq<u8>>,
}

impl View for BitVecWriter {
    type V = Seq<bool>;

    /// The bits written since the writer was created.
    closed spec fn view(&self) -> Seq<bool> {
        stream_bits(self.wr).skip(bytes_bits(self.initial@).len() as int)
    }
}

impl BitVecWriter {
    /// The bytes the writer was created over.
    pub closed spec fn initial(&self) -> Seq<u8> {
        self.initial@
    }

    pub closed spec fn wf(&self) -> bool {
        &&& stream_bits(self.wr).len() == bytes_bits(self.initial@).len() + self.bits_pushed
        &&& stream_bits(self.wr).take(bytes_bits(self.initial@).len() as int) == bytes_bits(self.initial@)
    }

    proof fn lemma_append(&self, next: &BitVecWriter, more: Seq<bool>)
        requires
            self.wf(),
            next.initial == self.initial,
            stream_bits(next.wr) == stream_bits(self.wr) + more,
            next.bits_pushed == self.bits_pushed + more.len(),
        ensures
            next.wf(),
            next@ == self@ + more,
    {
        let n = bytes_bits(self.initial@).len() as int;
        assert(stream_bits(next.wr).take(n) =~= stream_bits(self.wr).take(n));
        assert(next@ =~= self@ + more);
    }

    /// A writer that appends to `buf`.
    pub fn new(buf: Vec<u8>) -> (r: Self)
        ensures
            r.wf(),
            r@ == Seq::<bool>::empty(),
            r.initial() == buf@,
    {
        let ghost initial = buf@;
        let wr = stream_new(buf);
        let r = BitVecWriter { wr, bits_pushed: 0, initial: Ghost(initial) };
        assert(stream_bits(r.wr).take(bytes_bits(initial).len() as int) =~= bytes_bits(initial));
        assert(r@ =~= Seq::<bool>::empty());
        r
    }

    /// Appends `value` in `bits` bits, unsigned; fails, writing nothing, when
    /// it does not fit.
    pub fn write(&mut self, bits: u32, value: u32) -> (r: Result<(), Overflow>)
        requires
            old(self).wf(),
            1 <= bits,
            old(self)@.len() + bits <= u32::MAX,
        ensures
            final(self).wf(),
            final(self).initial() == old(self).initial(),
            r is Ok <==> bits <= 32 && fits_unsigned(bits as nat, value as int),
            r is Ok ==> final(self)@ == old(self)@ + field_bits(bits as nat, value as int),
            r is Err ==> final(self)@ == old(self)@,
    {
        let ghost before = *self;
        if stream_write(&mut self.wr, bits, value) {
            self.bits_pushed = self.bits_pushed + bits;
            proof { before.lemma_append(self, field_bits(bits as nat, value as int)); }
            Ok(())
        } else {
            proof { before.lemma_append(self, Seq::empty()); }
            assert(old(self)@ + Seq::<bool>::empty() =~= old(self)@);
            Err(Overflow)
        }
    }

    /// Appends `value` in `bits` bits, two's complement; fails, writing
    /// nothing, when it does not fit or the field is wider than 32 bits.
    pub fn write_signed(&mut self, bits: u32, value: i32) -> (r: Result<(), Overflow>)
        requires
            old(self).wf(),
            1 <= bits,
            old(self)@.len() + bits <= u32::MAX,
        ensures
            final(self).wf(),
            final(self).initial() == old(self).initial(),
            r is Ok <==> bits <= 32 && fits_signed(bits as nat, value as int),
            r is Ok ==> final(self)@ == old(self)@ + field_bits(bits as nat, value as int),
            r is Err ==> final(self)@ == old(self)@,
    {
        let ghost before = *self;
        if bits > 32 {
            return Err(Overflow);
        }
        let half = pow2_u64(bits - 1) as i64;
        if (value as i64) < -half || (value as i64) >= half {
            return Err(Overflow);
        }
        stream_write_signed(&mut self.wr, bits, value);
        self.bits_pushed = self.bits_pushed + bits;
        proof { before.lemma_append(self, field_bits(bits as nat, value as int)); }
        Ok(())
    }

    /// Appends one bit.
    pub fn write_bit(&mut self, bit: bool) -> (r: Result<(), Overflow>)
        requires
            old(self).wf(),
            old(self)@.len() + 1 <= u32::MAX,
        ensures
            final(self).wf(),
            final(self).initial() == old(self).initial(),
            r is Ok,
            final(self)@ == old(self)@.push(bit),
    {
        let ghost before = *self;
        stream_write_bit(&mut self.wr, bit);
        self.bits_pushed = self.bits_pushed + 1;
        proof {
            assert(stream_bits(before.wr).push(bit) =~= stream_bits(before.wr) + seq![bit]);
            before.lemma_append(self, seq![bit]);
            assert(old(self)@ + seq![bit] =~= old(self)@.push(bit));
        }
        Ok(())
    }

    /// The number of bits written, as `(whole bytes, remaining bits)`.
    pub fn count_written(&self) -> (r: (u32, u8))
        requires
            self.wf(),
        ensures
            r.0 == self@.len() / 8,
            r.1 == self@.len() % 8,
    {
        (self.bits_pushed / 8, (self.bits_pushed % 8) as u8)
    }

    /// The buffer, holding the initial bytes and every whole byte written.
    pub fn into_inner(self) -> (r: Vec<u8>)
        requires
            self.wf(),
        ensures
            r@ == bits_bytes(bytes_bits(self.initial()) + self@),
    {
        proof {
            let n = bytes_bits(self.initial@).len() as int;
            assert(stream_bits(self.wr) =~= bytes_bits(self.initial@) + self@);
        }
        stream_into_writer(self.wr)
    }
}

} // verus!
