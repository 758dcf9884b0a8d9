use std::io::Write;

use flate2::write::ZlibEncoder;
use flate2::Compression;
use psarc::error::Error;
use psarc::error::FormatError;
use psarc::format::parse_toc;
use psarc::format::ArchiveFlags;
use psarc::format::BlockSizeType;
use psarc::format::CompressionType;
use psarc::format::PSArc;

const NO_CODEC: u32 = 0;
const ZLIB: u32 = 0x7A6C6962;
const LZMA: u32 = 0x6C7A6D61;
const WIDTH_16: u32 = 65536;
const WIDTH_24: u32 = 16777216;
const WIDTH_32: u32 = 4294967295;

/// One archived file: its length, and for each block the element of the
/// block-size table and the bytes that the block occupies in the archive.
struct Member {
    length: u64,
    blocks: Vec<(u64, Vec<u8>)>,
}

fn stored(content: &[u8]) -> Member {
    if content.is_empty() {
        return Member { length: 0, blocks: Vec::new() };
    }
    Member { length: content.len() as u64, blocks: vec![(content.len() as u64, content.to_vec())] }
}

fn zlib(content: &[u8]) -> Vec<u8> {
    let mut encoder = ZlibEncoder::new(Vec::new(), Compression::best());
    encoder.write_all(content).unwrap();
    encoder.finish().unwrap()
}

fn lzma(content: &[u8]) -> Vec<u8> {
    let mut source: &[u8] = content;
    let mut out = Vec::new();
    lzma_rs::lzma_compress(&mut source, &mut out).unwrap();
    out
}

fn zlib_member(content: &[u8], block: usize) -> Member {
    let blocks = content.chunks(block).map(|c| {
        let packed = zlib(c);
        (packed.len() as u64, packed)
    }).collect();
    Member { length: content.len() as u64, blocks }
}

fn width_bytes(tag: u32) -> usize {
    match tag {
        WIDTH_16 => 2,
        WIDTH_24 => 3,
        _ => 4,
    }
}

fn build(codec: u32, width: u32, flags: u32, members: &[Member]) -> Vec<u8> {
    build_padded(codec, width, flags, members, 0)
}

/// Builds an archive whose block-size table has `padding` unused elements
/// after those of the members.
fn build_padded(codec: u32, width: u32, flags: u32, members: &[Member], padding: usize) -> Vec<u8> {
    let wide = width_bytes(width);
    let blocks: usize = members.iter().map(|m| m.blocks.len()).sum::<usize>() + padding;
    let toc_length = 32 + 30 * members.len() + wide * blocks;
    let mut out = Vec::new();
    out.extend_from_slice(b"PSAR");
    out.extend_from_slice(&[0, 1, 0, 4]);
    out.extend_from_slice(&codec.to_be_bytes());
    out.extend_from_slice(&(toc_length as u32).to_be_bytes());
    out.extend_from_slice(&30u32.to_be_bytes());
    out.extend_from_slice(&(members.len() as u32).to_be_bytes());
    out.extend_from_slice(&width.to_be_bytes());
    out.extend_from_slice(&flags.to_be_bytes());
    let mut offset = toc_length as u64;
    let mut first_block = 0u32;
    for m in members {
        out.extend_from_slice(&[0u8; 16]);
        out.extend_from_slice(&first_block.to_be_bytes());
        out.extend_from_slice(&m.length.to_be_bytes()[3..]);
        out.extend_from_slice(&offset.to_be_bytes()[3..]);
        first_block += m.blocks.len() as u32;
        offset += m.blocks.iter().map(|b| b.1.len() as u64).sum::<u64>();
    }
    for m in members {
        for b in &m.blocks {
            out.extend_from_slice(&b.0.to_be_bytes()[8 - wide..]);
        }
    }
    for _ in 0..padding {
        out.extend_from_slice(&vec![0u8; wide]);
    }
    for m in members {
        for b in &m.blocks {
            out.extend_from_slice(&b.1);
        }
    }
    out
}

fn pattern(n: usize) -> Vec<u8> {
    (0..n).map(|i| ((i * 7 + i / 251) % 256) as u8).collect()
}

#[test]
fn block_width_byte_counts() {
    assert_eq!(BlockSizeType::U16.get_bytecount(), 2);
    assert_eq!(BlockSizeType::U24.get_bytecount(), 3);
    assert_eq!(BlockSizeType::U32.get_bytecount(), 4);
}

#[test]
fn block_width_block_sizes() {
    assert_eq!(BlockSizeType::U16.get_bitcount(), 65536);
    assert_eq!(BlockSizeType::U24.get_bitcount(), 16777216);
    assert_eq!(BlockSizeType::U32.get_bitcount(), 4294967295);
}

#[test]
fn tags_name_codecs_widths_and_flags() {
    assert_eq!(CompressionType::from_tag(0), Some(CompressionType::Uncompressed));
    assert_eq!(CompressionType::from_tag(ZLIB), Some(CompressionType::ZLIB));
    assert_eq!(CompressionType::from_tag(LZMA), Some(CompressionType::LZMA));
    assert_eq!(CompressionType::from_tag(1), None);
    assert_eq!(BlockSizeType::from_tag(WIDTH_16), Some(BlockSizeType::U16));
    assert_eq!(BlockSizeType::from_tag(WIDTH_24), Some(BlockSizeType::U24));
    assert_eq!(BlockSizeType::from_tag(WIDTH_32), Some(BlockSizeType::U32));
    assert_eq!(BlockSizeType::from_tag(4294967294), None);
    assert_eq!(ArchiveFlags::from_tag(0), ArchiveFlags::RelativePaths);
    assert_eq!(ArchiveFlags::from_tag(1), ArchiveFlags::IgnoreCase);
    assert_eq!(ArchiveFlags::from_tag(2), ArchiveFlags::AbsolutePaths);
    assert_eq!(ArchiveFlags::from_tag(3), ArchiveFlags::Unknown);
}

#[test]
fn header_fields_are_big_endian() {
    let data = build(ZLIB, WIDTH_24, 7, &[stored(b"")]);
    let toc = parse_toc(&data).unwrap();
    assert_eq!(toc.header.version_major, 1);
    assert_eq!(toc.header.version_minor, 4);
    assert_eq!(toc.header.compression_type, CompressionType::ZLIB);
    assert_eq!(toc.header.toc_length, 62);
    assert_eq!(toc.header.toc_entry_size, 30);
    assert_eq!(toc.header.toc_entry_count, 1);
    assert_eq!(toc.header.block_size, BlockSizeType::U24);
    assert_eq!(toc.header.archive_flags, ArchiveFlags::Unknown);
    assert_eq!(toc.header.raw_flags, 7);
}

#[test]
fn entry_fields_are_read_at_their_widths() {
    let mut data = build(NO_CODEC, WIDTH_16, 0, &[stored(b"x")]);
    for i in 0..16 {
        data[32 + i] = i as u8 + 1;
    }
    data[32 + 16..32 + 20].copy_from_slice(&[0x01, 0x02, 0x03, 0x04]);
    data[32 + 20..32 + 25].copy_from_slice(&[0x0A, 0x0B, 0x0C, 0x0D, 0x0E]);
    data[32 + 25..32 + 30].copy_from_slice(&[0xF1, 0xF2, 0xF3, 0xF4, 0xF5]);
    let toc = parse_toc(&data).unwrap();
    let e = &toc.entries[0];
    assert_eq!(e.name_digest, [1, 2, 3, 4, 5, 6, 7, 8, 9, 10, 11, 12, 13, 14, 15, 16]);
    assert_eq!(e.block_index, 0x01020304);
    assert_eq!(e.length, 0x0A0B0C0D0E);
    assert_eq!(e.offset, 0xF1F2F3F4F5);
    assert!(e.name.is_empty());
}

#[test]
fn block_table_length_follows_toc_length() {
    for (width, wide) in [(WIDTH_16, 2usize), (WIDTH_24, 3), (WIDTH_32, 4)] {
        let data = build_padded(NO_CODEC, width, 0, &[stored(b"a\n"), stored(b"b")], 5);
        let toc = parse_toc(&data).unwrap();
        let after_entries = 32 + 30 * 2;
        assert_eq!(toc.block_sizes.len(), (toc.header.toc_length as usize - after_entries) / wide);
        assert_eq!(toc.block_sizes.len(), 7);
        assert_eq!(toc.block_sizes[0], 2);
        assert_eq!(toc.block_sizes[1], 1);
        assert_eq!(toc.block_sizes[2], 0);
    }
}

#[test]
fn block_table_ignores_a_partial_last_element() {
    let mut data = build(NO_CODEC, WIDTH_24, 0, &[stored(b"abc")]);
    // three table bytes, declared as five: one whole element and a rest
    data[12..16].copy_from_slice(&67u32.to_be_bytes());
    let toc = parse_toc(&data).unwrap();
    assert_eq!(toc.block_sizes.len(), 1);
}

#[test]
fn corrupt_magic_is_rejected() {
    let mut data = build(ZLIB, WIDTH_16, 0, &[stored(b"")]);
    data[0..4].copy_from_slice(b"PSRC");
    match PSArc::open(&data) {
        Err(Error::Format(e)) => {
            assert_eq!(e, FormatError::InvalidMagic);
            assert_eq!(e.message(), "invalid magic");
        }
        other => panic!("unexpected {:?}", other.map(|_| ())),
    }
}

#[test]
fn unknown_codec_tag_is_rejected() {
    let data = build(0x12345678, WIDTH_16, 0, &[stored(b"")]);
    assert_eq!(
        PSArc::open(&data).err(),
        Some(Error::Format(FormatError::InvalidCompressionType))
    );
}

#[test]
fn entry_size_other_than_thirty_is_rejected() {
    for size in [0u32, 29, 31, 60, u32::MAX] {
        let mut data = build(NO_CODEC, WIDTH_16, 0, &[stored(b"")]);
        data[16..20].copy_from_slice(&size.to_be_bytes());
        assert_eq!(
            PSArc::open(&data).err(),
            Some(Error::Format(FormatError::InvalidEntrySize)),
            "entry size {}",
            size
        );
        assert_eq!(parse_toc(&data).err(), Some(Error::Format(FormatError::InvalidEntrySize)));
    }
    let data = build(NO_CODEC, WIDTH_16, 0, &[stored(b"")]);
    assert_eq!(PSArc::open(&data).unwrap().header.toc_entry_size, 30);
}

#[test]
fn entry_size_is_checked_once_the_three_toc_words_are_read() {
    let mut data = build(NO_CODEC, WIDTH_16, 0, &[stored(b"")]);
    data[16..20].copy_from_slice(&31u32.to_be_bytes());
    // the entry count is still missing: a short read
    assert_eq!(PSArc::open(&data[..20]).err(), Some(Error::Io));
    assert_eq!(PSArc::open(&data[..23]).err(), Some(Error::Io));
    // all three words are there: the size is refused before the width is read
    assert_eq!(PSArc::open(&data[..24]).err(), Some(Error::Format(FormatError::InvalidEntrySize)));
    // a wrong size comes before a wrong block width, and after a wrong codec
    data[24..28].copy_from_slice(&256u32.to_be_bytes());
    assert_eq!(PSArc::open(&data).err(), Some(Error::Format(FormatError::InvalidEntrySize)));
    data[8..12].copy_from_slice(&1u32.to_be_bytes());
    assert_eq!(PSArc::open(&data).err(), Some(Error::Format(FormatError::InvalidCompressionType)));
}

#[test]
fn unknown_block_width_is_rejected() {
    let data = build(ZLIB, 4294967296u64 as u32, 0, &[stored(b"")]);
    assert_eq!(PSArc::open(&data).err(), Some(Error::Format(FormatError::InvalidBlockSizeType)));
    let data = build(ZLIB, 256, 0, &[stored(b"")]);
    assert_eq!(PSArc::open(&data).err(), Some(Error::Format(FormatError::InvalidBlockSizeType)));
}

#[test]
fn unknown_flags_are_kept_not_rejected() {
    let data = build(NO_CODEC, WIDTH_16, 0xDEAD, &[stored(b"")]);
    let archive = PSArc::open(&data).unwrap();
    assert_eq!(archive.header.archive_flags, ArchiveFlags::Unknown);
    assert_eq!(archive.header.raw_flags, 0xDEAD);
}

#[test]
fn truncated_archives_fail_with_io() {
    let data = build(NO_CODEC, WIDTH_16, 0, &[stored(b"a\n"), stored(b"hello")]);
    // every cut inside the header, the entries, the table or the manifest
    for cut in [0, 3, 4, 7, 11, 12, 27, 31, 32, 61, 62, 91, 92, 95, 96, 97] {
        assert_eq!(PSArc::open(&data[..cut]).err(), Some(Error::Io), "cut at {}", cut);
    }
    // the second file may be missing: it is not read at opening
    assert!(PSArc::open(&data[..98]).is_ok());
}

#[test]
fn magic_is_checked_before_the_rest_is_missed() {
    assert_eq!(PSArc::open(b"PSRC").err(), Some(Error::Format(FormatError::InvalidMagic)));
    assert_eq!(PSArc::open(b"PSAR").err(), Some(Error::Io));
}

#[test]
fn toc_shorter_than_entries_is_rejected() {
    let mut data = build(NO_CODEC, WIDTH_16, 0, &[stored(b"")]);
    data[12..16].copy_from_slice(&61u32.to_be_bytes());
    assert_eq!(PSArc::open(&data).err(), Some(Error::Format(FormatError::TocLength)));
}

#[test]
fn archive_without_entries_has_no_manifest() {
    let data = build(NO_CODEC, WIDTH_16, 0, &[]);
    assert!(parse_toc(&data).is_ok());
    assert_eq!(PSArc::open(&data).err(), Some(Error::Format(FormatError::NoManifest)));
}

#[test]
fn manifest_must_be_utf8() {
    let data = build(NO_CODEC, WIDTH_16, 0, &[stored(&[0x61, 0xFF, 0x0A]), stored(b"x")]);
    assert_eq!(PSArc::open(&data).err(), Some(Error::Format(FormatError::ManifestEncoding)));
    let data = build(NO_CODEC, WIDTH_16, 0, &[stored("gr\u{fc}n/\u{2603}\n".as_bytes()), stored(b"x")]);
    let archive = PSArc::open(&data).unwrap();
    assert_eq!(archive.entries[1].name, "gr\u{fc}n/\u{2603}".as_bytes());
}

#[test]
fn manifest_names_entries_by_position() {
    let data = build(
        NO_CODEC,
        WIDTH_16,
        0,
        &[stored(b"one\r\ntwo\nthree"), stored(b"1"), stored(b"2"), stored(b"3"), stored(b"4")],
    );
    let archive = PSArc::open(&data).unwrap();
    assert_eq!(archive.entries[0].name, b"manifest.txt");
    assert_eq!(archive.entries[1].name, b"one");
    assert_eq!(archive.entries[2].name, b"two");
    assert_eq!(archive.entries[3].name, b"three");
    assert_eq!(archive.entries[4].name, b"");
}

#[test]
fn manifest_lines_beyond_the_entries_name_nothing() {
    let data = build(NO_CODEC, WIDTH_16, 0, &[stored(b"a\nb\nc\n"), stored(b"1")]);
    let archive = PSArc::open(&data).unwrap();
    assert_eq!(archive.entries.len(), 2);
    assert_eq!(archive.entries[1].name, b"a");
}

#[test]
fn manifest_is_absolute_in_an_archive_of_absolute_paths() {
    let data = build(NO_CODEC, WIDTH_16, 2, &[stored(b"/x\n"), stored(b"1")]);
    let archive = PSArc::open(&data).unwrap();
    assert_eq!(archive.entries[0].name, b"/manifest.txt");
    for flags in [0, 1, 3] {
        let data = build(NO_CODEC, WIDTH_16, flags, &[stored(b"/x\n"), stored(b"1")]);
        let archive = PSArc::open(&data).unwrap();
        assert_eq!(archive.entries[0].name, b"manifest.txt");
    }
}

#[test]
fn stored_entry_reads_back() {
    let data = build(NO_CODEC, WIDTH_16, 0, &[stored(b"hello")]);
    let archive = PSArc::open(&data).unwrap();
    assert_eq!(archive.print_file(&data, 0, None).unwrap(), b"hello");
}

#[test]
fn zlib_entry_reads_back() {
    let data = build(ZLIB, WIDTH_16, 0, &[zlib_member(b"abc\n\n", 65536)]);
    let archive = PSArc::open(&data).unwrap();
    assert_eq!(archive.print_file(&data, 0, None).unwrap(), b"abc\n\n");
}

#[test]
fn zlib_fast_header_is_recognised() {
    let mut encoder = ZlibEncoder::new(Vec::new(), Compression::fast());
    encoder.write_all(b"aaaaaaaaaaaaaaaaaaaaaaaaaaaaaaaaaaaaaaaaaaaaaaaaaa").unwrap();
    let packed = encoder.finish().unwrap();
    assert_eq!(&packed[..2], &[0x78, 0x01]);
    let member = Member { length: 50, blocks: vec![(packed.len() as u64, packed)] };
    let data = build(ZLIB, WIDTH_16, 0, &[stored(b""), member]);
    let archive = PSArc::open(&data).unwrap();
    assert_eq!(archive.print_file(&data, 1, None).unwrap(), vec![b'a'; 50]);
}

#[test]
fn lzma_entry_reads_back() {
    let content = pattern(5000);
    let packed = lzma(&content);
    assert_eq!(&packed[..2], &[0x5D, 0x00]);
    let member = Member { length: 5000, blocks: vec![(packed.len() as u64, packed)] };
    let data = build(LZMA, WIDTH_16, 0, &[stored(b"f\n"), member]);
    let archive = PSArc::open(&data).unwrap();
    assert_eq!(archive.print_file(&data, 1, None).unwrap(), content);
}

#[test]
fn codec_is_found_per_block() {
    // one file of three blocks: zlib, stored in full, LZMA
    let content = pattern(65536 * 2 + 100);
    let first = zlib(&content[..65536]);
    let second = content[65536..131072].to_vec();
    let third = lzma(&content[131072..]);
    let member = Member {
        length: content.len() as u64,
        blocks: vec![(first.len() as u64, first), (0, second), (third.len() as u64, third)],
    };
    let data = build(NO_CODEC, WIDTH_16, 0, &[stored(b"f\n"), member]);
    let archive = PSArc::open(&data).unwrap();
    assert_eq!(archive.num_blocks(1), 3);
    assert_eq!(archive.print_file(&data, 1, None).unwrap(), content);
}

#[test]
fn full_read_has_the_length_of_the_entry() {
    for n in [0usize, 1, 65535, 65536, 65537, 131072, 200000] {
        let content = pattern(n);
        let data = build(ZLIB, WIDTH_16, 0, &[stored(b"f\n"), zlib_member(&content, 65536)]);
        let archive = PSArc::open(&data).unwrap();
        let out = archive.print_file(&data, 1, None).unwrap();
        assert_eq!(out.len() as u64, archive.entries[1].length);
        assert_eq!(out, content);
    }
}

#[test]
fn block_count_is_length_over_block_size_rounded_up() {
    for (n, blocks) in [(0usize, 0u64), (1, 1), (65535, 1), (65536, 1), (65537, 2), (131072, 2), (131073, 3)] {
        let content = pattern(n);
        let data = build(ZLIB, WIDTH_16, 0, &[stored(b"f\n"), zlib_member(&content, 65536)]);
        let archive = PSArc::open(&data).unwrap();
        assert_eq!(archive.num_blocks(1), blocks);
        assert_eq!(archive.blocks_to_read(1, None), blocks);
    }
}

#[test]
fn chains_of_consecutive_entries_do_not_overlap() {
    let a = pattern(70000);
    let b = pattern(10);
    let c = pattern(131073);
    let data = build(
        ZLIB,
        WIDTH_16,
        0,
        &[stored(b"a\nb\nc\n"), zlib_member(&a, 65536), zlib_member(&b, 65536), zlib_member(&c, 65536)],
    );
    let archive = PSArc::open(&data).unwrap();
    for i in 0..3 {
        let e = &archive.entries[i];
        let next = &archive.entries[i + 1];
        assert_eq!(e.block_index as u64 + archive.num_blocks(i), next.block_index as u64);
    }
    assert_eq!(archive.print_file(&data, 1, None).unwrap(), a);
    assert_eq!(archive.print_file(&data, 2, None).unwrap(), b);
    assert_eq!(archive.print_file(&data, 3, None).unwrap(), c);
}

#[test]
fn wanted_length_stops_the_walk_after_whole_blocks() {
    let content = pattern(200000);
    let data = build(ZLIB, WIDTH_16, 0, &[stored(b"f\n"), zlib_member(&content, 65536)]);
    let archive = PSArc::open(&data).unwrap();
    assert_eq!(archive.blocks_to_read(1, Some(0)), 1);
    assert_eq!(archive.blocks_to_read(1, Some(1)), 1);
    assert_eq!(archive.blocks_to_read(1, Some(65536)), 1);
    assert_eq!(archive.blocks_to_read(1, Some(65537)), 2);
    assert_eq!(archive.blocks_to_read(1, Some(131072)), 2);
    assert_eq!(archive.blocks_to_read(1, Some(131073)), 3);
    assert_eq!(archive.blocks_to_read(1, Some(196608)), 3);
    assert_eq!(archive.blocks_to_read(1, Some(196609)), 4);
    assert_eq!(archive.blocks_to_read(1, Some(u64::MAX)), 4);
    assert_eq!(archive.print_file(&data, 1, Some(0)).unwrap(), &content[..65536]);
    assert_eq!(archive.print_file(&data, 1, Some(65536)).unwrap(), &content[..65536]);
    assert_eq!(archive.print_file(&data, 1, Some(65537)).unwrap(), &content[..131072]);
    assert_eq!(archive.print_file(&data, 1, Some(196609)).unwrap(), content);
    assert_eq!(archive.print_file(&data, 1, Some(u64::MAX)).unwrap(), content);
}

#[test]
fn empty_entry_reads_nothing_whatever_its_offset() {
    let mut data = build(NO_CODEC, WIDTH_16, 0, &[stored(b"f\n"), stored(b"")]);
    // the empty entry claims an offset beyond the archive
    data[62 + 25..62 + 30].copy_from_slice(&[0xFF; 5]);
    let archive = PSArc::open(&data).unwrap();
    assert_eq!(archive.blocks_to_read(1, Some(10)), 0);
    assert_eq!(archive.print_file(&data, 1, None).unwrap(), b"");
    assert_eq!(archive.print_file(&data, 1, Some(10)).unwrap(), b"");
}

#[test]
fn blocks_marked_zero_are_copied_whole() {
    let content = pattern(65536 * 2);
    let member = Member {
        length: content.len() as u64,
        blocks: vec![(0, content[..65536].to_vec()), (0, content[65536..].to_vec())],
    };
    let data = build(ZLIB, WIDTH_16, 0, &[stored(b"f\n"), member]);
    let archive = PSArc::open(&data).unwrap();
    let out = archive.print_file(&data, 1, None).unwrap();
    assert_eq!(out.len() as u64, archive.num_blocks(1) * 65536);
    let offset = archive.entries[1].offset as usize;
    assert_eq!(out, &data[offset..offset + 2 * 65536]);
}

#[test]
fn stored_block_that_looks_compressed_needs_the_zero_mark() {
    // a full block of stored data that begins like a zlib stream
    let mut content = pattern(65536);
    content[0] = 0x78;
    content[1] = 0xDA;
    let marked = Member { length: 65536, blocks: vec![(0, content.clone())] };
    let data = build(ZLIB, WIDTH_16, 0, &[stored(b"f\n"), marked]);
    let archive = PSArc::open(&data).unwrap();
    assert_eq!(archive.print_file(&data, 1, None).unwrap(), content);
    let sized = Member { length: 65536, blocks: vec![(65536, content.clone())] };
    let data = build(ZLIB, WIDTH_24, 0, &[stored(b"f\n"), sized]);
    let archive = PSArc::open(&data).unwrap();
    let first = archive.entries[1].block_index as u64;
    assert_eq!(
        archive.print_file(&data, 1, None).err(),
        Some(Error::Format(FormatError::TruncatedBlock(first)))
    );
}

#[test]
fn zero_mark_on_a_partial_last_block_is_rejected() {
    let content = pattern(65536 + 10);
    let mut tail = content[65536..].to_vec();
    tail.resize(65536, 0);
    let member = Member {
        length: content.len() as u64,
        blocks: vec![(0, content[..65536].to_vec()), (0, tail)],
    };
    let data = build(ZLIB, WIDTH_16, 0, &[stored(b"f\n"), member]);
    let archive = PSArc::open(&data).unwrap();
    assert_eq!(
        archive.print_file(&data, 1, None).err(),
        Some(Error::Format(FormatError::BlockLength(2)))
    );
    // the first block alone is fine
    assert_eq!(archive.print_file(&data, 1, Some(100)).unwrap(), &content[..65536]);
}

#[test]
fn truncated_zlib_block_is_a_format_error() {
    let content = pattern(3000);
    let packed = zlib(&content);
    let cut = packed[..packed.len() - 6].to_vec();
    let member = Member { length: 3000, blocks: vec![(cut.len() as u64, cut)] };
    let data = build(ZLIB, WIDTH_16, 0, &[stored(b"f\n"), member]);
    let archive = PSArc::open(&data).unwrap();
    assert_eq!(
        archive.print_file(&data, 1, None).err(),
        Some(Error::Format(FormatError::TruncatedBlock(1)))
    );
}

#[test]
fn corrupt_lzma_block_is_a_format_error() {
    let bad = vec![0x5D, 0x00, 0x00, 0x80, 0x00, 1, 2, 3];
    let member = Member { length: 100, blocks: vec![(bad.len() as u64, bad)] };
    let data = build(LZMA, WIDTH_16, 0, &[stored(b"f\n"), member]);
    let archive = PSArc::open(&data).unwrap();
    assert_eq!(
        archive.print_file(&data, 1, None).err(),
        Some(Error::Format(FormatError::TruncatedBlock(1)))
    );
}

#[test]
fn block_of_the_wrong_length_is_a_format_error() {
    let packed = zlib(b"four");
    let short = Member { length: 5, blocks: vec![(packed.len() as u64, packed.clone())] };
    let data = build(ZLIB, WIDTH_16, 0, &[stored(b"f\n"), short]);
    let archive = PSArc::open(&data).unwrap();
    assert_eq!(
        archive.print_file(&data, 1, None).err(),
        Some(Error::Format(FormatError::BlockLength(1)))
    );
    let long = Member { length: 3, blocks: vec![(packed.len() as u64, packed)] };
    let data = build(ZLIB, WIDTH_16, 0, &[stored(b"f\n"), long]);
    let archive = PSArc::open(&data).unwrap();
    assert_eq!(
        archive.print_file(&data, 1, None).err(),
        Some(Error::Format(FormatError::BlockLength(1)))
    );
}

#[test]
fn chain_beyond_the_block_table_is_a_format_error() {
    let mut data = build(NO_CODEC, WIDTH_16, 0, &[stored(b"f\n"), stored(b"abc")]);
    // the second entry claims a first block that the table does not have
    data[62 + 16..62 + 20].copy_from_slice(&2u32.to_be_bytes());
    let archive = PSArc::open(&data).unwrap();
    assert_eq!(
        archive.print_file(&data, 1, None).err(),
        Some(Error::Format(FormatError::BlockChain))
    );
    // nor one with the largest index there is
    data[62 + 16..62 + 20].copy_from_slice(&u32::MAX.to_be_bytes());
    let archive = PSArc::open(&data).unwrap();
    assert_eq!(
        archive.print_file(&data, 1, None).err(),
        Some(Error::Format(FormatError::BlockChain))
    );
}

#[test]
fn block_beyond_the_archive_is_an_io_error() {
    let data = build(NO_CODEC, WIDTH_16, 0, &[stored(b"f\n"), stored(b"abcdef")]);
    let archive = PSArc::open(&data).unwrap();
    let cut = &data[..data.len() - 1];
    assert_eq!(archive.print_file(cut, 1, None).err(), Some(Error::Io));
    assert_eq!(archive.print_file(&data, 1, None).unwrap(), b"abcdef");
}

#[test]
fn block_sizes_of_three_and_four_bytes() {
    let content = pattern(70000);
    let member = Member { length: 70000, blocks: vec![(70000, content.clone())] };
    let data = build(NO_CODEC, WIDTH_24, 0, &[stored(b"f\n"), member]);
    let archive = PSArc::open(&data).unwrap();
    assert_eq!(archive.block_sizes[1], 70000);
    assert_eq!(archive.num_blocks(1), 1);
    assert_eq!(archive.print_file(&data, 1, None).unwrap(), content);
    let member = Member { length: 70000, blocks: vec![(70000, content.clone())] };
    let data = build(NO_CODEC, WIDTH_32, 0, &[stored(b"f\n"), member]);
    let archive = PSArc::open(&data).unwrap();
    assert_eq!(archive.block_sizes[1], 70000);
    assert_eq!(archive.print_file(&data, 1, None).unwrap(), content);
}

#[test]
fn every_message_is_distinct() {
    let all = [
        FormatError::InvalidMagic,
        FormatError::InvalidCompressionType,
        FormatError::InvalidEntrySize,
        FormatError::InvalidBlockSizeType,
        FormatError::TocLength,
        FormatError::NoManifest,
        FormatError::ManifestEncoding,
        FormatError::BlockChain,
        FormatError::TruncatedBlock(0),
        FormatError::BlockLength(0),
    ];
    for (i, a) in all.iter().enumerate() {
        for b in &all[i + 1..] {
            assert_ne!(a.message(), b.message());
        }
    }
}
