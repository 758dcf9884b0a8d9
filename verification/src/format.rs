//! The archive header and table of contents.

use vstd::prelude::*;
use crate::bytes::be_value;
use crate::bytes::lemma_be_value_bound;
use crate::bytes::lemma_pow256_values;
use crate::bytes::pow256;
use crate::bytes::Reader;
use crate::error::Error;
use crate::error::FormatError;

verus! {

/// The four bytes `PSAR`, read as one big-endian number.
pub const MAGIC: u32 = 0x50534152;

/// Number of bytes in the fixed header.
pub const HEADER_BYTES: u64 = 32;

/// Number of bytes in one entry record.
pub const ENTRY_BYTES: u64 = 30;

/// The codec that the header declares for the archive.
#[derive(Clone, Copy, Debug, PartialEq, Eq, Structural)]
pub enum CompressionType {
    Uncompressed,
    ZLIB,
    LZMA,
}

/// How the archived paths are to be understood.
#[derive(Clone, Copy, Debug, PartialEq, Eq, Structural)]
pub enum ArchiveFlags {
    RelativePaths,
    IgnoreCase,
    AbsolutePaths,
    Unknown,
}

/// Width of one element of the block-size table.
#[derive(Clone, Copy, Debug, PartialEq, Eq, Structural)]
pub enum BlockSizeType {
    U16,
    U24,
    U32,
}

impl CompressionType {
    /// The codec that a tag names: zero, `zlib` or `lzma`.
    pub open spec fn of_tag(tag: nat) -> Option<CompressionType> {
        if tag == 0 {
            Some(CompressionType::Uncompressed)
        } else if tag == 0x7A6C6962 {
            Some(CompressionType::ZLIB)
        } else if tag == 0x6C7A6D61 {
            Some(CompressionType::LZMA)
        } else {
            None
        }
    }

    /// The codec that a tag names, if it names one.
    pub fn from_tag(tag: u32) -> (r: Option<CompressionType>)
        ensures
            r == Self::of_tag(tag as nat),
    {
        if tag == 0 {
            Some(CompressionType::Uncompressed)
        } else if tag == 0x7A6C6962 {
            Some(CompressionType::ZLIB)
        } else if tag == 0x6C7A6D61 {
            Some(CompressionType::LZMA)
        } else {
            None
        }
    }
}

impl ArchiveFlags {
    /// The meaning of a flags value; every value but 0, 1 and 2 is unknown.
    pub open spec fn of_tag(tag: nat) -> ArchiveFlags {
        if tag == 0 {
            ArchiveFlags::RelativePaths
        } else if tag == 1 {
            ArchiveFlags::IgnoreCase
        } else if tag == 2 {
            ArchiveFlags::AbsolutePaths
        } else {
            ArchiveFlags::Unknown
        }
    }

    /// The meaning of a flags value.
    pub fn from_tag(tag: u32) -> (r: ArchiveFlags)
        ensures
            r == Self::of_tag(tag as nat),
    {
        if tag == 0 {
            ArchiveFlags::RelativePaths
        } else if tag == 1 {
            ArchiveFlags::IgnoreCase
        } else if tag == 2 {
            ArchiveFlags::AbsolutePaths
        } else {
            ArchiveFlags::Unknown
        }
    }
}

impl BlockSizeType {
    /// The width that a tag names: 65536, 16777216 or 4294967295.
    pub open spec fn of_tag(tag: nat) -> Option<BlockSizeType> {
        if tag == 65536 {
            Some(BlockSizeType::U16)
        } else if tag == 16777216 {
            Some(BlockSizeType::U24)
        } else if tag == 4294967295 {
            Some(BlockSizeType::U32)
        } else {
            None
        }
    }

    /// The width that a tag names, if it names one.
    pub fn from_tag(tag: u32) -> (r: Option<BlockSizeType>)
        ensures
            r == Self::of_tag(tag as nat),
    {
        if tag == 65536 {
            Some(BlockSizeType::U16)
        } else if tag == 16777216 {
            Some(BlockSizeType::U24)
        } else if tag == 4294967295 {
            Some(BlockSizeType::U32)
        } else {
            None
        }
    }

    /// Number of bytes that one element of the block-size table occupies.
    pub open spec fn bytecount(self) -> nat {
        match self {
            BlockSizeType::U16 => 2,
            BlockSizeType::U24 => 3,
            BlockSizeType::U32 => 4,
        }
    }

    /// Uncompressed size of every full block.
    pub open spec fn bitcount(self) -> nat {
        match self {
            BlockSizeType::U16 => 65536,
            BlockSizeType::U24 => 16777216,
            BlockSizeType::U32 => 4294967295,
        }
    }

    /// Number of bytes that one element of the block-size table occupies:
    /// 2, 3 or 4.
    pub fn get_bytecount(&self) -> (n: usize)
        ensures
            n == self.bytecount(),
    {
        match self {
            BlockSizeType::U16 => 2,
            BlockSizeType::U24 => 3,
            BlockSizeType::U32 => 4,
        }
    }

    /// Uncompressed size of every full block: 65536, 16777216 or
    /// 4294967295.
    pub fn get_bitcount(&self) -> (n: u64)
        ensures
            n == self.bitcount(),
    {
        match self {
            BlockSizeType::U16 => 65536,
            BlockSizeType::U24 => 16777216,
            BlockSizeType::U32 => 4294967295,
        }
    }
}

/// The fixed fields at the start of an archive.
#[derive(Clone, Copy, Debug, PartialEq, Eq, Structural)]
pub struct Header {
    pub version_major: u16,
    pub version_minor: u16,
    pub compression_type: CompressionType,
    pub toc_length: u32,
    /// Declared size of an entry record; always 30 in a parsed header.
    pub toc_entry_size: u32,
    pub toc_entry_count: u32,
    pub block_size: BlockSizeType,
    pub archive_flags: ArchiveFlags,
    /// The flags field as stored, whatever `archive_flags` made of it.
    pub raw_flags: u32,
}

/// One record of the table of contents.
#[derive(Clone, Debug)]
pub struct FileEntry {
    /// The logical path; empty until the manifest has been read.
    pub name: Vec<u8>,
    pub name_digest: [u8; 16],
    /// Index of the entry's first block in the block-size table.
    pub block_index: u32,
    /// Uncompressed size of the file.
    pub length: u64,
    /// Where in the archive the entry's first block begins.
    pub offset: u64,
}

/// A parsed archive: header, entries and block-size table.
#[derive(Clone, Debug)]
pub struct PSArc {
    pub header: Header,
    pub entries: Vec<FileEntry>,
    pub block_sizes: Vec<u64>,
}

/// What an entry record says, as mathematical values.
pub struct EntryView {
    pub name: Seq<u8>,
    pub name_digest: Seq<u8>,
    pub block_index: u32,
    pub length: u64,
    pub offset: u64,
}

/// What a parsed archive says, as mathematical values.
pub struct ArchiveView {
    pub header: Header,
    pub entries: Seq<EntryView>,
    pub block_sizes: Seq<u64>,
}

impl View for FileEntry {
    type V = EntryView;

    open spec fn view(&self) -> EntryView {
        EntryView {
            name: self.name@,
            name_digest: self.name_digest@,
            block_index: self.block_index,
            length: self.length,
            offset: self.offset,
        }
    }
}

impl View for PSArc {
    type V = ArchiveView;

    open spec fn view(&self) -> ArchiveView {
        ArchiveView {
            header: self.header,
            entries: Seq::new(self.entries@.len(), |i: int| self.entries@[i]@),
            block_sizes: self.block_sizes@,
        }
    }
}

impl ArchiveView {
    /// Uncompressed size of every full block.
    pub open spec fn max_block_size(self) -> nat {
        self.header.block_size.bitcount()
    }
}

/// The big-endian number in the `n` bytes of `data` that start at `at`.
pub open spec fn field(data: Seq<u8>, at: int, n: int) -> nat {
    be_value(data.subrange(at, at + n))
}

/// The header that the first 32 bytes of an archive spell, or the error of
/// the first field that cannot be read or understood. The declared size of
/// an entry record must be 30; the flags may have any value.
pub open spec fn spec_header(data: Seq<u8>) -> Result<Header, Error> {
    if data.len() < 4 {
        Err(Error::Io)
    } else if field(data, 0, 4) != MAGIC {
        Err(Error::Format(FormatError::InvalidMagic))
    } else if data.len() < 12 {
        Err(Error::Io)
    } else if CompressionType::of_tag(field(data, 8, 4)) is None {
        Err(Error::Format(FormatError::InvalidCompressionType))
    } else if data.len() < 24 {
        Err(Error::Io)
    } else if field(data, 16, 4) != ENTRY_BYTES {
        Err(Error::Format(FormatError::InvalidEntrySize))
    } else if data.len() < 28 {
        Err(Error::Io)
    } else if BlockSizeType::of_tag(field(data, 24, 4)) is None {
        Err(Error::Format(FormatError::InvalidBlockSizeType))
    } else if data.len() < 32 {
        Err(Error::Io)
    } else {
        Ok(
            Header {
                version_major: field(data, 4, 2) as u16,
                version_minor: field(data, 6, 2) as u16,
                compression_type: CompressionType::of_tag(field(data, 8, 4))->Some_0,
                toc_length: field(data, 12, 4) as u32,
                toc_entry_size: field(data, 16, 4) as u32,
                toc_entry_count: field(data, 20, 4) as u32,
                block_size: BlockSizeType::of_tag(field(data, 24, 4))->Some_0,
                archive_flags: ArchiveFlags::of_tag(field(data, 28, 4)),
                raw_flags: field(data, 28, 4) as u32,
            },
        )
    }
}

/// The entry record in the 30 bytes of `data` that start at `at`. Its name
/// is empty: names come from the manifest.
pub open spec fn spec_entry_at(data: Seq<u8>, at: int) -> EntryView {
    EntryView {
        name: Seq::empty(),
        name_digest: data.subrange(at, at + 16),
        block_index: field(data, at + 16, 4) as u32,
        length: field(data, at + 20, 5) as u64,
        offset: field(data, at + 25, 5) as u64,
    }
}

/// Where the entry records of an archive end.
pub open spec fn entries_end(h: Header) -> nat {
    (HEADER_BYTES + ENTRY_BYTES * h.toc_entry_count) as nat
}

/// Number of elements in the block-size table: what remains of the declared
/// length after the entry records, in whole elements.
pub open spec fn block_table_len(h: Header) -> nat {
    ((h.toc_length - entries_end(h)) / (h.block_size.bytecount() as int)) as nat
}

/// The header, entries and block-size table that the bytes of an archive
/// spell, or the error that parsing them ends in.
pub open spec fn spec_toc(data: Seq<u8>) -> Result<ArchiveView, Error> {
    match spec_header(data) {
        Err(e) => Err(e),
        Ok(h) => {
            let p = entries_end(h);
            let bb = h.block_size.bytecount();
            let n = block_table_len(h);
            if data.len() < p {
                Err(Error::Io)
            } else if h.toc_length < p {
                Err(Error::Format(FormatError::TocLength))
            } else if data.len() < p + n * bb {
                Err(Error::Io)
            } else {
                Ok(
                    ArchiveView {
                        header: h,
                        entries: Seq::new(
                            h.toc_entry_count as nat,
                            |i: int| spec_entry_at(data, HEADER_BYTES + ENTRY_BYTES * i),
                        ),
                        block_sizes: Seq::new(
                            n,
                            |i: int| field(data, p + i * bb, bb as int) as u64,
                        ),
                    },
                )
            }
        },
    }
}

/// Reads the fixed header from the start of the data.
#[verifier::spinoff_prover]
pub fn parse_header(r: &mut Reader) -> (res: Result<Header, Error>)
    requires
        old(r).wf(),
        old(r).pos == 0,
    ensures
        final(r).data == old(r).data,
        final(r).wf(),
        res == spec_header(old(r).data@),
        res is Ok ==> final(r).pos == HEADER_BYTES,
{
    let magic: u32 = r.read_u32()?;
    if magic != MAGIC {
        return Err(Error::Format(FormatError::InvalidMagic));
    }
    let version_major: u16 = r.read_u16()?;
    let version_minor: u16 = r.read_u16()?;
    let codec_tag: u32 = r.read_u32()?;
    let compression_type = match CompressionType::from_tag(codec_tag) {
        Some(c) => c,
        None => {
            return Err(Error::Format(FormatError::InvalidCompressionType));
        },
    };
    let toc_length: u32 = r.read_u32()?;
    let toc_entry_size: u32 = r.read_u32()?;
    let toc_entry_count: u32 = r.read_u32()?;
    if toc_entry_size as u64 != ENTRY_BYTES {
        return Err(Error::Format(FormatError::InvalidEntrySize));
    }
    let width_tag: u32 = r.read_u32()?;
    let block_size = match BlockSizeType::from_tag(width_tag) {
        Some(b) => b,
        None => {
            return Err(Error::Format(FormatError::InvalidBlockSizeType));
        },
    };
    let raw_flags: u32 = r.read_u32()?;
    let archive_flags = ArchiveFlags::from_tag(raw_flags);
    Ok(
        Header {
            version_major,
            version_minor,
            compression_type,
            toc_length,
            toc_entry_size,
            toc_entry_count,
            block_size,
            archive_flags,
            raw_flags,
        },
    )
}

/// Reads one entry record at the reader's position.
pub fn parse_entry(r: &mut Reader) -> (res: Result<FileEntry, Error>)
    requires
        old(r).wf(),
    ensures
        final(r).data == old(r).data,
        final(r).wf(),
        old(r).remaining() >= ENTRY_BYTES ==> res is Ok && res->Ok_0@ == spec_entry_at(
            old(r).data@,
            old(r).pos as int,
        ) && final(r).pos == old(r).pos + ENTRY_BYTES,
        old(r).remaining() < ENTRY_BYTES ==> res == Err::<FileEntry, Error>(Error::Io),
{
    let ghost data = r.data@;
    let ghost start = r.pos as int;
    let digest = r.read_bytes(16)?;
    let mut name_digest: [u8; 16] = [0;16];
    let mut i: usize = 0;
    while i < 16
        invariant
            i <= 16,
            digest@.len() == 16,
            forall|j: int| 0 <= j < i ==> name_digest@[j] == digest@[j],
        decreases 16 - i,
    {
        name_digest[i] = digest[i];
        i = i + 1;
    }
    assert(name_digest@ =~= data.subrange(start, start + 16));
    let block_index: u32 = r.read_u32()?;
    let length: u64 = r.read_uint(5)?;
    let offset: u64 = r.read_uint(5)?;
    Ok(FileEntry { name: Vec::new(), name_digest, block_index, length, offset })
}

/// Reads the header, the entry records and the block-size table of an
/// archive. The entries come out unnamed.
#[verifier::spinoff_prover]
pub fn parse_toc(data: &[u8]) -> (res: Result<PSArc, Error>)
    ensures
        match res {
            Ok(a) => spec_toc(data@) == Ok::<ArchiveView, Error>(a@),
            Err(e) => spec_toc(data@) == Err::<ArchiveView, Error>(e),
        },
{
    let mut r = Reader::new(data);
    let header = parse_header(&mut r)?;
    let ghost p = entries_end(header);
    let ghost bb = header.block_size.bytecount();
    let ghost n = block_table_len(header);

    let mut entries: Vec<FileEntry> = Vec::new();
    let mut i: u32 = 0;
    while i < header.toc_entry_count
        invariant
            r.data == data,
            r.wf(),
            spec_header(data@) == Ok::<Header, Error>(header),
            i <= header.toc_entry_count,
            r.pos == HEADER_BYTES + ENTRY_BYTES * i,
            entries@.len() == i,
            forall|j: int|
                0 <= j < i ==> (#[trigger] entries@[j])@ == spec_entry_at(
                    data@,
                    HEADER_BYTES + ENTRY_BYTES * j,
                ),
        decreases header.toc_entry_count - i,
    {
        let entry = parse_entry(&mut r)?;
        entries.push(entry);
        i = i + 1;
    }

    let current_pos: u64 = r.position() as u64;
    if (header.toc_length as u64) < current_pos {
        return Err(Error::Format(FormatError::TocLength));
    }
    let width: usize = header.block_size.get_bytecount();
    let num_blocks: u64 = (header.toc_length as u64 - current_pos) / (width as u64);
    assert(num_blocks == n);

    let mut block_sizes: Vec<u64> = Vec::new();
    let mut k: u64 = 0;
    while k < num_blocks
        invariant
            r.data == data,
            r.wf(),
            spec_header(data@) == Ok::<Header, Error>(header),
            header.toc_length >= p,
            p == entries_end(header),
            n == block_table_len(header),
            bb == header.block_size.bytecount(),
            num_blocks == n,
            k <= num_blocks,
            num_blocks <= u32::MAX,
            width == bb,
            2 <= width <= 4,
            r.pos == p + k * width,
            block_sizes@.len() == k,
            forall|j: int|
                0 <= j < k ==> #[trigger] block_sizes@[j] == field(data@, p + j * bb, bb as int) as u64,
        decreases num_blocks - k,
    {
        proof {
            assert((k + 1) * width <= num_blocks * width) by (nonlinear_arith)
                requires
                    k < num_blocks,
                    width >= 0,
            ;
            assert((k + 1) * width == k * width + width) by (nonlinear_arith);
            assert(n * bb == num_blocks * width);
        }
        let size: u64 = r.read_uint(width)?;
        block_sizes.push(size);
        k = k + 1;
    }
    let archive = PSArc { header, entries, block_sizes };
    proof {
        let want = spec_toc(data@)->Ok_0;
        assert(archive@.entries =~= want.entries);
        assert(archive@.block_sizes =~= want.block_sizes);
    }
    Ok(archive)
}

/// A field of `n` bytes holds a number below 256 to the power `n`.
pub proof fn lemma_field_bound(data: Seq<u8>, at: int, n: int)
    requires
        0 <= at,
        0 <= n,
        at + n <= data.len(),
    ensures
        field(data, at, n) < pow256(n as nat),
{
    lemma_be_value_bound(data.subrange(at, at + n));
}

/// The fields of an entry record are taken as they stand: the block index
/// is the whole of its four bytes, length and offset are the whole of their
/// five, so both are below two to the power 40.
pub proof fn lemma_entry_fields_exact(data: Seq<u8>, at: int)
    requires
        0 <= at,
        at + ENTRY_BYTES <= data.len(),
    ensures
        spec_entry_at(data, at).block_index == field(data, at + 16, 4),
        spec_entry_at(data, at).length == field(data, at + 20, 5),
        spec_entry_at(data, at).offset == field(data, at + 25, 5),
        spec_entry_at(data, at).length < 0x100_0000_0000,
        spec_entry_at(data, at).offset < 0x100_0000_0000,
{
    lemma_field_bound(data, at + 16, 4);
    lemma_field_bound(data, at + 20, 5);
    lemma_field_bound(data, at + 25, 5);
    lemma_pow256_values();
}

/// A parsed table of contents has as many entries as its header counts,
/// and as many block sizes as fit between the end of the entries and the
/// declared length of the table.
pub proof fn lemma_toc_lengths(data: Seq<u8>)
    requires
        spec_toc(data) is Ok,
    ensures
        spec_toc(data)->Ok_0.entries.len() == spec_toc(data)->Ok_0.header.toc_entry_count,
        spec_toc(data)->Ok_0.block_sizes.len() == (spec_toc(data)->Ok_0.header.toc_length - (
        HEADER_BYTES + ENTRY_BYTES * spec_toc(data)->Ok_0.header.toc_entry_count)) / (spec_toc(
            data,
        )->Ok_0.header.block_size.bytecount() as int),
        spec_toc(data)->Ok_0.header.toc_length >= HEADER_BYTES + ENTRY_BYTES * spec_toc(
            data,
        )->Ok_0.header.toc_entry_count,
{
}

} // verus!
