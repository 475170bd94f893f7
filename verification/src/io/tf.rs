//! The TFRecord framing of training examples.
//!
//! A record is written as
//!
//! * the length of the data, 8 bytes little-endian,
//! * the masked CRC-32C of those 8 bytes, 4 bytes little-endian,
//! * the data,
//! * the masked CRC-32C of the data, 4 bytes little-endian.
//!
//! A writer appends frames to its sink; a reader takes them back off a byte
//! buffer, checking both checksums.

use vstd::prelude::*;
use byteorder::{ByteOrder, LittleEndian, WriteBytesExt};

verus! {

/// The number whose little-endian encoding is `s`.
pub open spec fn le_value(s: Seq<u8>) -> nat
    decreases s.len(),
{
    if s.len() == 0 {
        0
    } else {
        s[0] as nat + 256 * le_value(s.drop_first())
    }
}

/// The lowest `k` bytes of `n`, least significant first.
pub open spec fn le_bytes(n: nat, k: nat) -> Seq<u8>
    decreases k,
{
    if k == 0 {
        Seq::empty()
    } else {
        seq![(n % 256) as u8] + le_bytes(n / 256, (k - 1) as nat)
    }
}

/// 256 to the power `k`.
pub open spec fn pow256(k: nat) -> nat
    decreases k,
{
    if k == 0 { 1 } else { 256 * pow256((k - 1) as nat) }
}

/// The CRC-32C (Castagnoli) checksum of `data`: the result of `crc32c::crc32c`.
pub uninterp spec fn crc32c_of(data: Seq<u8>) -> u32;

/// `crc32c::crc32c`: the CRC-32C checksum of `data`, named by `crc32c_of`.
#[verifier::external_body]
fn crc32c(data: &[u8]) -> (r: u32)
    ensures
        r == crc32c_of(data@),
{
    crc32c::crc32c(data)
}

/// Writes `n` into an empty byte vector through byteorder's `WriteBytesExt::write_u64`
/// in little-endian order; writing to a vector cannot fail.
#[verifier::external_body]
fn le_u64_bytes(n: u64) -> (v: Vec<u8>)
    ensures
        v@ == le_bytes(n as nat, 8),
{
    let mut v: Vec<u8> = vec![];
    v.write_u64::<LittleEndian>(n).unwrap();
    v
}

/// Writes `n` into an empty byte vector through byteorder's `WriteBytesExt::write_u32`
/// in little-endian order; writing to a vector cannot fail.
#[verifier::external_body]
fn le_u32_bytes(n: u32) -> (v: Vec<u8>)
    ensures
        v@ == le_bytes(n as nat, 4),
{
    let mut v: Vec<u8> = vec![];
    v.write_u32::<LittleEndian>(n).unwrap();
    v
}

/// byteorder's `LittleEndian::read_u64`: the number whose little-endian
/// encoding is the first eight bytes of `buf` (it panics on fewer).
#[verifier::external_body]
fn le_read_u64(buf: &[u8]) -> (r: u64)
    requires
        buf@.len() >= 8,
    ensures
        r as nat == le_value(buf@.take(8)),
{
    LittleEndian::read_u64(buf)
}

/// byteorder's `LittleEndian::read_u32`: the number whose little-endian
/// encoding is the first four bytes of `buf` (it panics on fewer).
#[verifier::external_body]
fn le_read_u32(buf: &[u8]) -> (r: u32)
    requires
        buf@.len() >= 4,
    ensures
        r as nat == le_value(buf@.take(4)),
{
    LittleEndian::read_u32(buf)
}

/// Rotates the checksum right by 15 bits and adds a constant, wrapping.
pub open spec fn mask_spec(crc: u32) -> u32 {
    ((crc >> 15u32) | (crc << 17u32)).wrapping_add(0xa282ead8u32)
}

/// The masked checksum that guards each part of a frame.
pub open spec fn masked_crc_of(data: Seq<u8>) -> u32 {
    mask_spec(crc32c_of(data))
}

/// The TFRecord mask, counted out: the checksum's low 15 bits move to the top
/// and its high 17 bits to the bottom (a rotation right by 15 bits), and the
/// constant `0xa282ead8` is added modulo 2^32.
pub proof fn law_mask_is_the_tfrecord_mask(crc: u32)
    ensures
        mask_spec(crc) as int == (crc as int / 0x8000 + (crc as int % 0x8000) * 0x2_0000 + 0xa282ead8)
            % 0x1_0000_0000,
{
    let rot: u32 = (crc >> 15u32) | (crc << 17u32);
    assert(((crc >> 15u32) | (crc << 17u32)) == crc / 0x8000 + (crc % 0x8000) * 0x2_0000) by (bit_vector);
    assert(crc as int / 0x8000 + (crc as int % 0x8000) * 0x2_0000 < 0x1_0000_0000);
}

/// The masking of a checksum: rotated right by 15 bits, plus `0xa282ead8`
/// modulo 2^32.
pub fn do_mask(crc: u32) -> (r: u32)
    ensures
        r == mask_spec(crc),
        r as int == (crc as int / 0x8000 + (crc as int % 0x8000) * 0x2_0000 + 0xa282ead8) % 0x1_0000_0000,
{
    proof {
        law_mask_is_the_tfrecord_mask(crc);
    }
    ((crc >> 15u32) | (crc << 17u32)).wrapping_add(0xa282ead8u32)
}

/// The masked checksum of `bytes`.
fn masked_crc32(bytes: &[u8]) -> (r: u32)
    ensures
        r == masked_crc_of(bytes@),
{
    do_mask(crc32c(bytes))
}

/// The frame that holds `data`.
pub open spec fn frame(data: Seq<u8>) -> Seq<u8> {
    let len_bytes = le_bytes(data.len(), 8);
    len_bytes + le_bytes(masked_crc_of(len_bytes) as nat, 4) + data + le_bytes(masked_crc_of(data) as nat, 4)
}

/// Why a record could not be read.
#[derive(Clone, Copy, Debug, PartialEq, Eq, Structural)]
pub enum RecordError {
    /// Fewer than eight bytes were left where a length was due; the payload is how many.
    TrailingBytes(usize),
    /// The length was complete but its checksum was cut short; the payload is how many
    /// bytes were read in all.
    TruncatedLengthChecksum(usize),
    /// The checksum of the length did not match.
    LengthChecksumMismatch,
    /// The data segment was cut short.
    TruncatedData { read: usize, expected: u64 },
    /// The checksum of the data was cut short.
    TruncatedDataChecksum,
    /// The checksum of the data did not match.
    DataChecksumMismatch,
}

/// The outcome of reading one record from the bytes `r`, and how many bytes the
/// read consumes.
pub open spec fn read_step(r: Seq<u8>) -> (Result<Option<Seq<u8>>, RecordError>, nat) {
    if r.len() == 0 {
        (Ok(None), 0)
    } else if r.len() < 8 {
        (Err(RecordError::TrailingBytes(r.len() as usize)), r.len())
    } else if r.len() < 12 {
        (Err(RecordError::TruncatedLengthChecksum(r.len() as usize)), r.len())
    } else if le_value(r.subrange(8, 12)) != masked_crc_of(r.take(8)) as nat {
        (Err(RecordError::LengthChecksumMismatch), 12)
    } else {
        let len = le_value(r.take(8));
        if r.len() - 12 < len {
            (Err(RecordError::TruncatedData { read: (r.len() - 12) as usize, expected: len as u64 }), r.len())
        } else if r.len() < 16 + len {
            (Err(RecordError::TruncatedDataChecksum), r.len())
        } else if le_value(r.subrange(12 + len as int, 16 + len as int)) != masked_crc_of(r.subrange(12, 12 + len as int)) as nat {
            (Err(RecordError::DataChecksumMismatch), 16 + len)
        } else {
            (Ok(Some(r.subrange(12, 12 + len as int))), 16 + len)
        }
    }
}

/// Decoding the lowest `k` bytes of `n` gives back `n` modulo `256^k`.
pub proof fn lemma_le_roundtrip(n: nat, k: nat)
    ensures
        le_value(le_bytes(n, k)) == n % pow256(k),
        le_bytes(n, k).len() == k,
    decreases k,
{
    if k > 0 {
        lemma_le_roundtrip(n / 256, (k - 1) as nat);
        let s = le_bytes(n, k);
        assert(s.drop_first() =~= le_bytes(n / 256, (k - 1) as nat));
        assert(pow256(k) == 256 * pow256((k - 1) as nat));
        assert(pow256((k - 1) as nat) > 0) by { lemma_pow256_positive((k - 1) as nat); }
        vstd::arithmetic::div_mod::lemma_mod_breakdown(n as int, 256, pow256((k - 1) as nat) as int);
    }
}

proof fn lemma_pow256_positive(k: nat)
    ensures
        pow256(k) > 0,
    decreases k,
{
    if k > 0 {
        lemma_pow256_positive((k - 1) as nat);
    }
}

/// A value below `256^k` survives encoding and decoding in `k` bytes.
pub proof fn lemma_le_fits(n: nat, k: nat)
    requires
        n < pow256(k),
    ensures
        le_value(le_bytes(n, k)) == n,
{
    lemma_le_roundtrip(n, k);
    vstd::arithmetic::div_mod::lemma_small_mod(n, pow256(k));
}

proof fn lemma_pow256_values()
    ensures
        pow256(4) == 0x1_0000_0000,
        pow256(8) == 0x1_0000_0000_0000_0000,
{
    reveal_with_fuel(pow256, 9);
}

/// Appends `src` to `dst`.
fn append_bytes(dst: &mut Vec<u8>, src: &[u8])
    ensures
        final(dst)@ == old(dst)@ + src@,
{
    let mut i: usize = 0;
    while i < src.len()
        invariant
            i <= src@.len(),
            dst@ == old(dst)@ + src@.take(i as int),
        decreases src@.len() - i,
    {
        dst.push(src[i]);
        assert(src@.take(i + 1) =~= src@.take(i as int).push(src@[i as int]));
        assert(old(dst)@ + src@.take(i + 1) =~= (old(dst)@ + src@.take(i as int)).push(src@[i as int]));
        i = i + 1;
    }
    assert(src@.take(src@.len() as int) =~= src@);
}

/// Writes records into an in-memory sink, one frame after another.
pub struct RecordWriter {
    writer: Vec<u8>,
}

impl RecordWriter {
    /// Everything in the sink so far.
    pub closed spec fn written(&self) -> Seq<u8> {
        self.writer@
    }

    /// A writer that appends to `writer`.
    pub fn new(writer: Vec<u8>) -> (w: Self)
        ensures
            w.written() == writer@,
    {
        RecordWriter { writer }
    }

    /// Appends the frame of `bytes` to the sink; returns the frame's length.
    pub fn write_one_record(&mut self, bytes: &[u8]) -> (n: usize)
        requires
            bytes@.len() + 16 <= usize::MAX,
        ensures
            n == 16 + bytes@.len(),
            final(self).written() == old(self).written() + frame(bytes@),
    {
        let len_bytes = le_u64_bytes(bytes.len() as u64);
        let masked_len_crc32c = masked_crc32(len_bytes.as_slice());
        let len_crc32c_bytes = le_u32_bytes(masked_len_crc32c);
        let masked_bytes_crc32c = masked_crc32(bytes);
        let bytes_crc32_bytes = le_u32_bytes(masked_bytes_crc32c);
        append_bytes(&mut self.writer, len_bytes.as_slice());
        append_bytes(&mut self.writer, len_crc32c_bytes.as_slice());
        append_bytes(&mut self.writer, bytes);
        append_bytes(&mut self.writer, bytes_crc32_bytes.as_slice());
        proof {
            assert(bytes@.len() as u64 as nat == bytes@.len());
            let f = frame(bytes@);
            assert(old(self).written() + f =~= old(self).written() + len_bytes@ + len_crc32c_bytes@ + bytes@ + bytes_crc32_bytes@);
        }
        16 + bytes.len()
    }

    /// The bytes written so far.
    pub fn get_ref(&self) -> (r: &Vec<u8>)
        ensures
            r@ == self.written(),
    {
        &self.writer
    }

    /// Hands out the bytes written so far and empties the sink.
    pub fn take_written(&mut self) -> (r: Vec<u8>)
        ensures
            r@ == old(self).written(),
            final(self).written() == Seq::<u8>::empty(),
    {
        let mut out: Vec<u8> = Vec::new();
        core::mem::swap(&mut out, &mut self.writer);
        out
    }

    /// The sink with everything written to it.
    pub fn into_inner(self) -> (r: Vec<u8>)
        ensures
            r@ == self.written(),
    {
        self.writer
    }
}

/// A copy of `src[start..end]`.
fn copy_range(src: &Vec<u8>, start: usize, end: usize) -> (r: Vec<u8>)
    requires
        start <= end <= src@.len(),
    ensures
        r@ == src@.subrange(start as int, end as int),
{
    let mut r: Vec<u8> = Vec::new();
    let mut i = start;
    while i < end
        invariant
            start <= i <= end,
            end <= src@.len(),
            r@ == src@.subrange(start as int, i as int),
        decreases end - i,
    {
        r.push(src[i]);
        assert(src@.subrange(start as int, i + 1) =~= src@.subrange(start as int, i as int).push(src@[i as int]));
        i = i + 1;
    }
    r
}

/// Reads records from a byte buffer, one frame after another.
pub struct RecordReader {
    reader: Vec<u8>,
    pos: usize,
}

impl RecordReader {
    #[verifier::type_invariant]
    spec fn position_in_buffer(&self) -> bool {
        self.pos <= self.reader@.len()
    }

    /// The bytes not read yet.
    pub closed spec fn remaining(&self) -> Seq<u8> {
        self.reader@.skip(self.pos as int)
    }

    /// A reader of the frames in `reader`.
    pub fn new(reader: Vec<u8>) -> (r: Self)
        ensures
            r.remaining() == reader@,
    {
        let r = RecordReader { reader, pos: 0 };
        assert(r.reader@.skip(0) =~= r.reader@);
        r
    }

    /// Reads the next record, checking both checksums.  `Ok(None)` means that
    /// nothing is left.  The bytes that the attempt consumed are gone, also when it fails.
    pub fn read_one(&mut self) -> (r: Result<Option<Vec<u8>>, RecordError>)
        ensures
            ({
                let (outcome, consumed) = read_step(old(self).remaining());
                &&& final(self).remaining() == old(self).remaining().skip(consumed as int)
                &&& match (r, outcome) {
                    (Ok(Some(v)), Ok(Some(d))) => v@ == d,
                    (Ok(None), Ok(None)) => true,
                    (Err(e), Err(f)) => e == f,
                    _ => false,
                }
            }),
    {
        proof { use_type_invariant(&*self); }
        let ghost rest = self.reader@.skip(self.pos as int);
        let total = self.reader.len();
        let avail = total - self.pos;
        if avail == 0 {
            return Ok(None);
        }
        if avail < 8 {
            self.pos = total;
            proof { assert(rest.skip(avail as int) =~= self.reader@.skip(total as int)); }
            return Err(RecordError::TrailingBytes(avail));
        }
        let p = self.pos;
        let len_buf = copy_range(&self.reader, p, p + 8);
        assert(len_buf@ =~= rest.take(8));
        let len: u64 = le_read_u64(len_buf.as_slice());
        assert(len_buf@.take(8) =~= len_buf@);
        if avail < 12 {
            self.pos = total;
            proof { assert(rest.skip(avail as int) =~= self.reader@.skip(total as int)); }
            return Err(RecordError::TruncatedLengthChecksum(avail));
        }
        let crclen_buf = copy_range(&self.reader, p + 8, p + 12);
        assert(crclen_buf@ =~= rest.subrange(8, 12));
        assert(crclen_buf@.take(4) =~= crclen_buf@);
        let crclen: u32 = le_read_u32(crclen_buf.as_slice());
        if crclen != masked_crc32(len_buf.as_slice()) {
            self.pos = p + 12;
            proof { assert(rest.skip(12) =~= self.reader@.skip(p + 12)); }
            return Err(RecordError::LengthChecksumMismatch);
        }
        if ((avail - 12) as u64) < len {
            self.pos = total;
            proof { assert(rest.skip(avail as int) =~= self.reader@.skip(total as int)); }
            return Err(RecordError::TruncatedData { read: avail - 12, expected: len });
        }
        let n = len as usize;
        let data_buf = copy_range(&self.reader, p + 12, p + 12 + n);
        assert(data_buf@ =~= rest.subrange(12, 12 + n as int));
        if avail - 12 - n < 4 {
            self.pos = total;
            proof { assert(rest.skip(avail as int) =~= self.reader@.skip(total as int)); }
            return Err(RecordError::TruncatedDataChecksum);
        }
        let datacrc_buf = copy_range(&self.reader, p + 12 + n, p + 16 + n);
        assert(datacrc_buf@ =~= rest.subrange(12 + n as int, 16 + n as int));
        assert(datacrc_buf@.take(4) =~= datacrc_buf@);
        let datacrc: u32 = le_read_u32(datacrc_buf.as_slice());
        self.pos = p + 16 + n;
        proof { assert(rest.skip(16 + n as int) =~= self.reader@.skip(p + 16 + n)); }
        if datacrc != masked_crc32(data_buf.as_slice()) {
            return Err(RecordError::DataChecksumMismatch);
        }
        Ok(Some(data_buf))
    }

    /// The records of this reader as an iterator-like value.
    pub fn into_iter(self) -> (it: RecordIter)
        ensures
            it.remaining() == self.remaining(),
    {
        RecordIter { reader: self }
    }

    /// The records of this reader as a fallible iterator-like value.
    pub fn into_fallible_iter(self) -> (it: FallibleRecordIter)
        ensures
            it.remaining() == self.remaining(),
    {
        FallibleRecordIter { reader: self }
    }
}

/// Yields `Some(Ok(record))` per record, `Some(Err(..))` on a damaged frame and
/// `None` at the end.
pub struct RecordIter {
    reader: RecordReader,
}

impl RecordIter {
    pub closed spec fn remaining(&self) -> Seq<u8> {
        self.reader.remaining()
    }

    pub fn next(&mut self) -> (r: Option<Result<Vec<u8>, RecordError>>)
        ensures
            ({
                let (outcome, consumed) = read_step(old(self).remaining());
                &&& final(self).remaining() == old(self).remaining().skip(consumed as int)
                &&& match (r, outcome) {
                    (Some(Ok(v)), Ok(Some(d))) => v@ == d,
                    (None, Ok(None)) => true,
                    (Some(Err(e)), Err(f)) => e == f,
                    _ => false,
                }
            }),
    {
        match self.reader.read_one() {
            Err(e) => Some(Err(e)),
            Ok(Some(r)) => Some(Ok(r)),
            Ok(None) => None,
        }
    }
}

/// Yields `Ok(Some(record))` per record, `Err(..)` on a damaged frame and
/// `Ok(None)` at the end.
pub struct FallibleRecordIter {
    reader: RecordReader,
}

impl FallibleRecordIter {
    pub closed spec fn remaining(&self) -> Seq<u8> {
        self.reader.remaining()
    }

    pub fn next(&mut self) -> (r: Result<Option<Vec<u8>>, RecordError>)
        ensures
            ({
                let (outcome, consumed) = read_step(old(self).remaining());
                &&& final(self).remaining() == old(self).remaining().skip(consumed as int)
                &&& match (r, outcome) {
                    (Ok(Some(v)), Ok(Some(d))) => v@ == d,
                    (Ok(None), Ok(None)) => true,
                    (Err(e), Err(f)) => e == f,
                    _ => false,
                }
            }),
    {
        self.reader.read_one()
    }
}

/// Reading back a frame gives the data that was framed, and consumes exactly the frame.
pub proof fn lemma_read_frame(data: Seq<u8>, tail: Seq<u8>)
    requires
        data.len() < 0x1_0000_0000_0000_0000,
        data.len() + 16 <= usize::MAX,
    ensures
        read_step(frame(data) + tail) == (Ok::<Option<Seq<u8>>, RecordError>(Some(data)), (16 + data.len()) as nat),
{
    let len_bytes = le_bytes(data.len(), 8);
    let crc1 = le_bytes(masked_crc_of(len_bytes) as nat, 4);
    let crc2 = le_bytes(masked_crc_of(data) as nat, 4);
    let r = frame(data) + tail;
    lemma_pow256_values();
    lemma_le_roundtrip(data.len(), 8);
    lemma_le_roundtrip(masked_crc_of(len_bytes) as nat, 4);
    lemma_le_roundtrip(masked_crc_of(data) as nat, 4);
    lemma_le_fits(data.len(), 8);
    lemma_le_fits(masked_crc_of(len_bytes) as nat, 4);
    lemma_le_fits(masked_crc_of(data) as nat, 4);
    let n = data.len() as int;
    assert(r.take(8) =~= len_bytes);
    assert(r.subrange(8, 12) =~= crc1);
    assert(r.subrange(12, 12 + n) =~= data);
    assert(r.subrange(12 + n, 16 + n) =~= crc2);
}


/// The frames of `records`, one after another, as a writer lays them down.
pub open spec fn frames(records: Seq<Seq<u8>>) -> Seq<u8>
    decreases records.len(),
{
    if records.len() == 0 { Seq::empty() } else { frame(records[0]) + frames(records.drop_first()) }
}

/// The length of `le_bytes(n, k)` is `k`.
proof fn lemma_le_bytes_len(n: nat, k: nat)
    ensures
        le_bytes(n, k).len() == k,
    decreases k,
{
    if k > 0 {
        lemma_le_bytes_len(n / 256, (k - 1) as nat);
    }
}

/// Records come back in the order they were written: the frames of a list of
/// records read as its first record, leaving exactly the frames of the rest,
/// and the frames of no records read as the end of the data.
pub proof fn law_records_read_back(records: Seq<Seq<u8>>)
    requires
        forall|i: int| 0 <= i < records.len() ==> #[trigger] records[i].len() + 16 <= usize::MAX,
    ensures
        records.len() == 0 ==> read_step(frames(records)) == (Ok::<Option<Seq<u8>>, RecordError>(None), 0nat),
        records.len() > 0 ==> read_step(frames(records))
            == (Ok::<Option<Seq<u8>>, RecordError>(Some(records[0])), (16 + records[0].len()) as nat),
        records.len() > 0 ==> frames(records).skip(16 + records[0].len() as int) == frames(records.drop_first()),
{
    if records.len() > 0 {
        let d = records[0];
        let rest = frames(records.drop_first());
        assert(d.len() + 16 <= usize::MAX);
        assert(d.len() < 0x1_0000_0000_0000_0000) by {
            assert(usize::MAX <= 0xffff_ffff_ffff_ffff);
        }
        lemma_read_frame(d, rest);
        let len_bytes = le_bytes(d.len(), 8);
        lemma_le_bytes_len(d.len(), 8);
        lemma_le_bytes_len(masked_crc_of(len_bytes) as nat, 4);
        lemma_le_bytes_len(masked_crc_of(d) as nat, 4);
        assert(frame(d).len() == 16 + d.len());
        assert((frame(d) + rest).skip(16 + d.len() as int) =~= rest);
    }
}

/// A single written record reads back: the frame of `data` reads as `data`,
/// and what is left after it reads as the end.
pub proof fn law_written_record_reads_back(data: Seq<u8>)
    requires
        data.len() + 16 <= usize::MAX,
    ensures
        read_step(frame(data)) == (Ok::<Option<Seq<u8>>, RecordError>(Some(data)), (16 + data.len()) as nat),
        read_step(frame(data).skip(16 + data.len() as int)) == (Ok::<Option<Seq<u8>>, RecordError>(None), 0nat),
{
    let rs = seq![data];
    assert(rs.drop_first() =~= Seq::<Seq<u8>>::empty());
    assert(frames(rs.drop_first()) =~= Seq::<u8>::empty());
    assert(frames(rs) =~= frame(data));
    law_records_read_back(rs);
    law_records_read_back(rs.drop_first());
}

} // verus!
