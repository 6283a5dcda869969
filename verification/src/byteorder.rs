//! Little-endian integers in byte slices.
//!
//! Every multi-byte field of the on-disk structures is little-endian. The
//! functions here decode and encode such fields byte by byte, so nothing
//! depends on the byte order of the host.

use vstd::prelude::*;

verus! {

/// What can go wrong when a field is read from or written to a slice.
#[derive(Debug, Clone, Copy, PartialEq, Eq)]
pub enum Error {
    /// The slice is shorter than the field.
    UnexpectedEof,
}

/// The number that the first two bytes of `b` encode, low byte first.
pub open spec fn le_u16(b: Seq<u8>) -> int
    recommends
        b.len() >= 2,
{
    b[0] as int + 256 * (b[1] as int)
}

/// The number that the first four bytes of `b` encode, low byte first.
pub open spec fn le_u32(b: Seq<u8>) -> int
    recommends
        b.len() >= 4,
{
    b[0] as int + 256 * (b[1] as int) + 65536 * (b[2] as int) + 16777216 * (b[3] as int)
}

/// The two bytes that encode `n`, low byte first.
pub open spec fn u16_le_bytes(n: u16) -> Seq<u8> {
    seq![(n % 256) as u8, (n / 256) as u8]
}

/// The four bytes that encode `n`, low byte first.
pub open spec fn u32_le_bytes(n: u32) -> Seq<u8> {
    seq![
        (n % 256) as u8,
        ((n / 256) % 256) as u8,
        ((n / 65536) % 256) as u8,
        (n / 16777216) as u8,
    ]
}

/// The low 32 bits of `n`.
pub open spec fn low32(n: usize) -> u32 {
    (n as int % 0x1_0000_0000) as u32
}

/// The low 32 bits of `n`.
pub fn low_bits(n: usize) -> (r: u32)
    ensures
        r == low32(n),
{
    ((n as u64) % 0x1_0000_0000u64) as u32
}

/// `s` with the bytes of `b` laid over it from position `at` on. Bytes of `b`
/// that would fall behind the end of `s` are dropped.
pub open spec fn overlay(s: Seq<u8>, at: int, b: Seq<u8>) -> Seq<u8> {
    Seq::new(
        s.len(),
        |i: int|
            if at <= i < at + b.len() {
                b[i - at]
            } else {
                s[i]
            },
    )
}

/// Decoding undoes encoding, for two bytes.
pub proof fn lemma_u16_round_trip(n: u16)
    ensures
        u16_le_bytes(n).len() == 2,
        le_u16(u16_le_bytes(n)) == n,
{
}

/// Decoding undoes encoding, for four bytes.
#[verifier::rlimit(50)]
pub proof fn lemma_u32_round_trip(n: u32)
    ensures
        u32_le_bytes(n).len() == 4,
        le_u32(u32_le_bytes(n)) == n,
{
}

/// Reading fixed-width integers from the front of a byte sequence.
pub trait ReadBytesExt {
    /// The bytes that the reads decode.
    spec fn source(&self) -> Seq<u8>;

    /// The first byte.
    fn read_u8(&self) -> (r: Result<u8, Error>)
        ensures
            self.source().len() >= 1 ==> r == Ok::<u8, Error>(self.source()[0]),
            self.source().len() < 1 ==> r == Err::<u8, Error>(Error::UnexpectedEof),
    ;

    /// The first two bytes as a little-endian number.
    fn read_le_u16(&self) -> (r: Result<u16, Error>)
        ensures
            self.source().len() >= 2 ==> r is Ok && r->Ok_0 == le_u16(self.source()),
            self.source().len() < 2 ==> r == Err::<u16, Error>(Error::UnexpectedEof),
    ;

    /// The first four bytes as a little-endian number.
    fn read_le_u32(&self) -> (r: Result<u32, Error>)
        ensures
            self.source().len() >= 4 ==> r is Ok && r->Ok_0 == le_u32(self.source()),
            self.source().len() < 4 ==> r == Err::<u32, Error>(Error::UnexpectedEof),
    ;
}

/// Writing fixed-width integers over the front of a byte sequence.
pub trait WriteBytesExt {
    /// The bytes that the writes change.
    spec fn target(&self) -> Seq<u8>;

    /// Replaces the first byte by `n`.
    fn write_u8(&mut self, n: u8) -> (r: Result<(), Error>)
        ensures
            old(self).target().len() >= 1 ==> r is Ok && final(self).target() == overlay(
                old(self).target(),
                0,
                seq![n],
            ),
            old(self).target().len() < 1 ==> r is Err && final(self).target() == old(
                self,
            ).target(),
    ;

    /// Replaces the first two bytes by the little-endian encoding of `n`.
    fn write_le_u16(&mut self, n: u16) -> (r: Result<(), Error>)
        ensures
            old(self).target().len() >= 2 ==> r is Ok && final(self).target() == overlay(
                old(self).target(),
                0,
                u16_le_bytes(n),
            ),
            old(self).target().len() < 2 ==> r is Err && final(self).target() == old(
                self,
            ).target(),
    ;

    /// Replaces the first four bytes by the little-endian encoding of `n`.
    fn write_le_u32(&mut self, n: u32) -> (r: Result<(), Error>)
        ensures
            old(self).target().len() >= 4 ==> r is Ok && final(self).target() == overlay(
                old(self).target(),
                0,
                u32_le_bytes(n),
            ),
            old(self).target().len() < 4 ==> r is Err && final(self).target() == old(
                self,
            ).target(),
    ;
}

impl ReadBytesExt for [u8] {
    open spec fn source(&self) -> Seq<u8> {
        self@
    }

    fn read_u8(&self) -> (r: Result<u8, Error>) {
        if self.len() < 1 {
            return Err(Error::UnexpectedEof);
        }
        Ok(self[0])
    }

    fn read_le_u16(&self) -> (r: Result<u16, Error>) {
        if self.len() < 2 {
            return Err(Error::UnexpectedEof);
        }
        let b0: u16 = self[0] as u16;
        let b1: u16 = self[1] as u16;
        assert(b0 | (b1 << 8) == b0 + 256 * b1) by (bit_vector)
            requires
                b0 < 256,
                b1 < 256,
        ;
        Ok(b0 | (b1 << 8))
    }

    fn read_le_u32(&self) -> (r: Result<u32, Error>) {
        if self.len() < 4 {
            return Err(Error::UnexpectedEof);
        }
        let b0: u32 = self[0] as u32;
        let b1: u32 = self[1] as u32;
        let b2: u32 = self[2] as u32;
        let b3: u32 = self[3] as u32;
        assert(b0 | (b1 << 8) | (b2 << 16) | (b3 << 24) == b0 + 256 * b1 + 65536 * b2 + 16777216
            * b3) by (bit_vector)
            requires
                b0 < 256,
                b1 < 256,
                b2 < 256,
                b3 < 256,
        ;
        Ok(b0 | (b1 << 8) | (b2 << 16) | (b3 << 24))
    }
}

impl WriteBytesExt for [u8] {
    open spec fn target(&self) -> Seq<u8> {
        self@
    }

    fn write_u8(&mut self, n: u8) -> (r: Result<(), Error>) {
        if self.len() < 1 {
            return Err(Error::UnexpectedEof);
        }
        self[0] = n;
        assert(self@ =~= overlay(old(self)@, 0, seq![n]));
        Ok(())
    }

    fn write_le_u16(&mut self, n: u16) -> (r: Result<(), Error>) {
        if self.len() < 2 {
            return Err(Error::UnexpectedEof);
        }
        assert(n & 0xff == n % 256 && (n >> 8) & 0xff == n / 256) by (bit_vector);
        self[0] = (n & 0xff) as u8;
        self[1] = ((n >> 8) & 0xff) as u8;
        assert(self@ =~= overlay(old(self)@, 0, u16_le_bytes(n)));
        Ok(())
    }

    fn write_le_u32(&mut self, n: u32) -> (r: Result<(), Error>) {
        if self.len() < 4 {
            return Err(Error::UnexpectedEof);
        }
        assert(n & 0xff == n % 256 && (n >> 8) & 0xff == (n / 256) % 256 && (n >> 16) & 0xff == (n
            / 65536) % 256 && (n >> 24) & 0xff == n / 16777216) by (bit_vector);
        self[0] = (n & 0xff) as u8;
        self[1] = ((n >> 8) & 0xff) as u8;
        self[2] = ((n >> 16) & 0xff) as u8;
        self[3] = ((n >> 24) & 0xff) as u8;
        assert(self@ =~= overlay(old(self)@, 0, u32_le_bytes(n)));
        Ok(())
    }
}

} // verus!
