//! Fixed-layout records of the container format: the file `Header` and
//! the per-run `RunDesc`, with little-endian encode / decode / validate.
//!
//! All multi-byte fields are stored little-endian, so the format is
//! portable across hosts. Decoding reads each field from its known byte
//! offset; it never relies on in-memory struct layout.
use vstd::prelude::*;
use vstd::bytes::lemma_auto_spec_u32_to_from_le_bytes;
use vstd::bytes::spec_u32_from_le_bytes;
use vstd::bytes::spec_u32_to_le_bytes;
use vstd::bytes::u32_from_le_bytes;
use vstd::bytes::u32_to_le_bytes;
use vstd::slice::slice_subrange;
use vstd::string::StringExecFns;
use crate::error::Error;

verus! {

/// First four bytes of every container file.
pub const FILE_MAGIC: u32 = 0x55AA33BB;

/// The only format version this crate reads or writes.
pub const FORMAT_VERSION: u32 = 1;

/// Encoded size of a `Header`: three little-endian `u32` fields.
pub const HEADER_SIZE: usize = 12;

/// Encoded size of a `RunDesc`: three little-endian `u32` fields.
pub const RUN_DESC_SIZE: usize = 12;

/// Fixed-layout record at offset 0 of every container file: the format
/// magic, the format version, and the number of run descriptors that
/// follow the header.
#[derive(Clone, Copy, Debug, PartialEq, Eq, Structural)]
pub struct Header {
    pub magic: u32,
    pub version: u32,
    pub run_count: u32,
}

/// Fixed-layout record describing one size class's run: the block size,
/// the number of blocks, and the byte offset of the run's data counted
/// from the end of the header.
#[derive(Clone, Copy, Debug, PartialEq, Eq, Structural)]
pub struct RunDesc {
    pub block_size: u32,
    pub count: u32,
    pub offset: u32,
}

/// The header whose fields are stored at byte offset `off` of `b`.
pub open spec fn spec_header_at(b: Seq<u8>, off: int) -> Header
    recommends
        0 <= off,
        off + HEADER_SIZE <= b.len(),
{
    Header {
        magic: spec_u32_from_le_bytes(b.subrange(off, off + 4)),
        version: spec_u32_from_le_bytes(b.subrange(off + 4, off + 8)),
        run_count: spec_u32_from_le_bytes(b.subrange(off + 8, off + 12)),
    }
}

/// The run descriptor whose fields are stored at byte offset `off` of `b`.
pub open spec fn spec_run_desc_at(b: Seq<u8>, off: int) -> RunDesc
    recommends
        0 <= off,
        off + RUN_DESC_SIZE <= b.len(),
{
    RunDesc {
        block_size: spec_u32_from_le_bytes(b.subrange(off, off + 4)),
        count: spec_u32_from_le_bytes(b.subrange(off + 4, off + 8)),
        offset: spec_u32_from_le_bytes(b.subrange(off + 8, off + 12)),
    }
}

impl Header {
    /// The exact encoded form of this header.
    pub open spec fn spec_bytes(self) -> Seq<u8> {
        spec_u32_to_le_bytes(self.magic) + spec_u32_to_le_bytes(self.version)
            + spec_u32_to_le_bytes(self.run_count)
    }

    /// A header that `validate` accepts.
    pub open spec fn spec_valid(self) -> bool {
        self.magic == FILE_MAGIC && self.version == FORMAT_VERSION
    }

    /// Builds the header written in front of `run_count` run descriptors.
    pub fn new(run_count: u32) -> (h: Header)
        ensures
            h == (Header { magic: FILE_MAGIC, version: FORMAT_VERSION, run_count }),
    {
        Header { magic: FILE_MAGIC, version: FORMAT_VERSION, run_count }
    }

    /// Appends the encoded header to `out` and reports the number of
    /// bytes written.
    pub fn write_out(&self, out: &mut Vec<u8>) -> (r: Result<usize, Error>)
        ensures
            r == Ok::<usize, Error>(HEADER_SIZE),
            final(out)@ == old(out)@ + self.spec_bytes(),
    {
        let mut piece = u32_to_le_bytes(self.magic);
        out.append(&mut piece);
        let mut piece = u32_to_le_bytes(self.version);
        out.append(&mut piece);
        let mut piece = u32_to_le_bytes(self.run_count);
        out.append(&mut piece);
        proof {
            assert(out@ =~= old(out)@ + self.spec_bytes());
        }
        Ok(HEADER_SIZE)
    }

    /// Accepts exactly the headers with the right magic and version;
    /// a wrong magic is reported before a wrong version.
    pub fn validate(&self) -> (r: Result<&Header, Error>)
        ensures
            self.magic != FILE_MAGIC ==> r == Err::<&Header, Error>(Error::BadMagic),
            self.magic == FILE_MAGIC && self.version != FORMAT_VERSION ==> r == Err::<
                &Header,
                Error,
            >(Error::InvalidVersion),
            self.spec_valid() ==> (r matches Ok(h) && h == self),
    {
        if self.magic != FILE_MAGIC {
            return Err(Error::BadMagic);
        }
        if self.version != FORMAT_VERSION {
            return Err(Error::InvalidVersion);
        }
        Ok(self)
    }

    /// Reads and validates the header stored in the first `HEADER_SIZE`
    /// bytes of `buf`. Total over arbitrary buffers: a short buffer is an
    /// `Internal` error, never a panic or an out-of-bounds read.
    pub fn decode(buf: &[u8]) -> (r: Result<Header, Error>)
        ensures
            ({
                let h = spec_header_at(buf@, 0);
                &&& buf@.len() < HEADER_SIZE ==> (r matches Err(e) && e matches Error::Internal(
                    _,
                ))
                &&& buf@.len() >= HEADER_SIZE && h.magic != FILE_MAGIC ==> r == Err::<
                    Header,
                    Error,
                >(Error::BadMagic)
                &&& buf@.len() >= HEADER_SIZE && h.magic == FILE_MAGIC && h.version
                    != FORMAT_VERSION ==> r == Err::<Header, Error>(Error::InvalidVersion)
                &&& buf@.len() >= HEADER_SIZE && h.spec_valid() ==> r == Ok::<Header, Error>(h)
            }),
    {
        if buf.len() < HEADER_SIZE {
            return Err(Error::Internal(String::from_str("buffer too short for header")));
        }
        let magic = u32_from_le_bytes(slice_subrange(buf, 0, 4));
        let version = u32_from_le_bytes(slice_subrange(buf, 4, 8));
        let run_count = u32_from_le_bytes(slice_subrange(buf, 8, 12));
        let h = Header { magic, version, run_count };
        match h.validate() {
            Ok(_) => Ok(h),
            Err(e) => Err(e),
        }
    }
}

impl RunDesc {
    /// The exact encoded form of this descriptor.
    pub open spec fn spec_bytes(self) -> Seq<u8> {
        spec_u32_to_le_bytes(self.block_size) + spec_u32_to_le_bytes(self.count)
            + spec_u32_to_le_bytes(self.offset)
    }

    /// One past the last data-region byte this descriptor claims.
    pub open spec fn spec_extent(self) -> int {
        self.offset + self.block_size * self.count
    }

    /// The descriptor's claimed data range lies inside a buffer of
    /// `buffer_length` bytes.
    pub open spec fn spec_fits(self, buffer_length: int) -> bool {
        self.spec_extent() <= buffer_length
    }

    /// Appends the encoded descriptor to `out` and reports the number of
    /// bytes written.
    pub fn write_out(&self, out: &mut Vec<u8>) -> (r: Result<usize, Error>)
        ensures
            r == Ok::<usize, Error>(RUN_DESC_SIZE),
            final(out)@ == old(out)@ + self.spec_bytes(),
    {
        let mut piece = u32_to_le_bytes(self.block_size);
        out.append(&mut piece);
        let mut piece = u32_to_le_bytes(self.count);
        out.append(&mut piece);
        let mut piece = u32_to_le_bytes(self.offset);
        out.append(&mut piece);
        proof {
            assert(out@ =~= old(out)@ + self.spec_bytes());
        }
        Ok(RUN_DESC_SIZE)
    }

    /// The principal safety check of the read side: rejects any
    /// descriptor whose claimed data range would overrun a buffer of
    /// `buffer_length` bytes. The arithmetic is widened to 64 bits first,
    /// since all three fields are attacker-controlled 32-bit values whose
    /// product can overflow 32 bits.
    pub fn validate(&self, buffer_length: usize) -> (r: Result<&RunDesc, Error>)
        ensures
            self.spec_fits(buffer_length as int) ==> (r matches Ok(d) && d == self),
            !self.spec_fits(buffer_length as int) ==> r == Err::<&RunDesc, Error>(
                Error::RunOverflow {
                    block_size: self.block_size,
                    count: self.count,
                    offset: self.offset,
                    buffer_length,
                },
            ),
    {
        proof {
            assert((self.block_size as u64) * (self.count as u64) <= 0xffff_ffffu64
                * 0xffff_ffffu64) by (nonlinear_arith)
                requires
                    self.block_size as u64 <= 0xffff_ffffu64,
                    self.count as u64 <= 0xffff_ffffu64,
            ;
        }
        let total_size: u64 = (self.block_size as u64) * (self.count as u64);
        let extent: u64 = (self.offset as u64) + total_size;
        if extent > buffer_length as u64 {
            Err(
                Error::RunOverflow {
                    block_size: self.block_size,
                    count: self.count,
                    offset: self.offset,
                    buffer_length,
                },
            )
        } else {
            Ok(self)
        }
    }

    /// Reads the descriptor stored at byte offset `offset` of `buf` and
    /// validates its claimed data range against the whole buffer's
    /// length. Total over arbitrary buffers and offsets.
    pub fn decode(buf: &[u8], offset: usize) -> (r: Result<RunDesc, Error>)
        ensures
            ({
                let d = spec_run_desc_at(buf@, offset as int);
                &&& offset + RUN_DESC_SIZE > buf@.len() ==> (r matches Err(e) && e
                    matches Error::Internal(_))
                &&& offset + RUN_DESC_SIZE <= buf@.len() && d.spec_fits(buf@.len() as int) ==> r
                    == Ok::<RunDesc, Error>(d)
                &&& offset + RUN_DESC_SIZE <= buf@.len() && !d.spec_fits(buf@.len() as int) ==> r
                    == Err::<RunDesc, Error>(
                    Error::RunOverflow {
                        block_size: d.block_size,
                        count: d.count,
                        offset: d.offset,
                        buffer_length: buf@.len() as usize,
                    },
                )
            }),
    {
        if buf.len() < RUN_DESC_SIZE || offset > buf.len() - RUN_DESC_SIZE {
            return Err(Error::Internal(String::from_str("buffer too short for run descriptor")));
        }
        let block_size = u32_from_le_bytes(slice_subrange(buf, offset, offset + 4));
        let count = u32_from_le_bytes(slice_subrange(buf, offset + 4, offset + 8));
        let field_offset = u32_from_le_bytes(slice_subrange(buf, offset + 8, offset + 12));
        let d = RunDesc { block_size, count, offset: field_offset };
        match d.validate(buf.len()) {
            Ok(_) => Ok(d),
            Err(e) => Err(e),
        }
    }
}

/// Law: decoding the encoding of a header recovers its fields exactly,
/// and the encoding of a well-formed header still passes validation.
pub proof fn lemma_header_round_trip(h: Header)
    ensures
        h.spec_bytes().len() == HEADER_SIZE,
        spec_header_at(h.spec_bytes(), 0) == h,
        h.spec_valid() ==> spec_header_at(h.spec_bytes(), 0).spec_valid(),
{
    lemma_auto_spec_u32_to_from_le_bytes();
    let b = h.spec_bytes();
    assert(b.subrange(0, 4) =~= spec_u32_to_le_bytes(h.magic));
    assert(b.subrange(4, 8) =~= spec_u32_to_le_bytes(h.version));
    assert(b.subrange(8, 12) =~= spec_u32_to_le_bytes(h.run_count));
}

/// Law: decoding the encoding of a run descriptor recovers its fields
/// exactly.
pub proof fn lemma_run_desc_round_trip(d: RunDesc)
    ensures
        d.spec_bytes().len() == RUN_DESC_SIZE,
        spec_run_desc_at(d.spec_bytes(), 0) == d,
{
    lemma_auto_spec_u32_to_from_le_bytes();
    let b = d.spec_bytes();
    assert(b.subrange(0, 4) =~= spec_u32_to_le_bytes(d.block_size));
    assert(b.subrange(4, 8) =~= spec_u32_to_le_bytes(d.count));
    assert(b.subrange(8, 12) =~= spec_u32_to_le_bytes(d.offset));
}

/// Wherever a buffer holds an encoded header, decoding at that offset
/// recovers it.
pub proof fn lemma_header_at_of_bytes(b: Seq<u8>, off: int, h: Header)
    requires
        0 <= off,
        off + HEADER_SIZE <= b.len(),
        b.subrange(off, off + HEADER_SIZE) == h.spec_bytes(),
    ensures
        spec_header_at(b, off) == h,
{
    lemma_auto_spec_u32_to_from_le_bytes();
    let hb = h.spec_bytes();
    assert(b.subrange(off, off + 4) =~= hb.subrange(0, 4));
    assert(b.subrange(off + 4, off + 8) =~= hb.subrange(4, 8));
    assert(b.subrange(off + 8, off + 12) =~= hb.subrange(8, 12));
    assert(hb.subrange(0, 4) =~= spec_u32_to_le_bytes(h.magic));
    assert(hb.subrange(4, 8) =~= spec_u32_to_le_bytes(h.version));
    assert(hb.subrange(8, 12) =~= spec_u32_to_le_bytes(h.run_count));
}

/// Wherever a buffer holds an encoded run descriptor, decoding at that
/// offset recovers it.
pub proof fn lemma_run_desc_at_of_bytes(b: Seq<u8>, off: int, d: RunDesc)
    requires
        0 <= off,
        off + RUN_DESC_SIZE <= b.len(),
        b.subrange(off, off + RUN_DESC_SIZE) == d.spec_bytes(),
    ensures
        spec_run_desc_at(b, off) == d,
{
    lemma_auto_spec_u32_to_from_le_bytes();
    let db = d.spec_bytes();
    assert(b.subrange(off, off + 4) =~= db.subrange(0, 4));
    assert(b.subrange(off + 4, off + 8) =~= db.subrange(4, 8));
    assert(b.subrange(off + 8, off + 12) =~= db.subrange(8, 12));
    assert(db.subrange(0, 4) =~= spec_u32_to_le_bytes(d.block_size));
    assert(db.subrange(4, 8) =~= spec_u32_to_le_bytes(d.count));
    assert(db.subrange(8, 12) =~= spec_u32_to_le_bytes(d.offset));
}

/// Law: corrupting any single byte of an encoded header's magic field
/// makes the decoded magic wrong, so decoding fails with `BadMagic` and
/// never reaches the version check.
pub proof fn lemma_flipped_magic_rejected(h: Header, b: Seq<u8>, i: int)
    requires
        h.spec_valid(),
        b.len() == h.spec_bytes().len(),
        0 <= i < 4,
        b[i] != h.spec_bytes()[i],
        forall|j: int| 0 <= j < b.len() && j != i ==> b[j] == h.spec_bytes()[j],
    ensures
        spec_header_at(b, 0).magic != FILE_MAGIC,
{
    lemma_auto_spec_u32_to_from_le_bytes();
    let hb = h.spec_bytes();
    assert(hb.subrange(0, 4) =~= spec_u32_to_le_bytes(h.magic));
    if spec_header_at(b, 0).magic == FILE_MAGIC {
        assert(spec_u32_to_le_bytes(spec_u32_from_le_bytes(b.subrange(0, 4))) == b.subrange(0, 4));
        assert(spec_u32_to_le_bytes(spec_u32_from_le_bytes(hb.subrange(0, 4))) == hb.subrange(
            0,
            4,
        ));
        assert(b.subrange(0, 4)[i] == hb.subrange(0, 4)[i]);
        assert(false);
    }
}

} // verus!
