use std::io::Write;

use flate2::write::ZlibEncoder;
use flate2::Compression;
use psarc::error::Error;
use psarc::format::PSArc;
use psarc::fs::DirEntry;
use psarc::fs::FileAttr;
use psarc::fs::FileKind;
use psarc::fs::PSArcFS;
use psarc::fs::CACHE_SLOT;
use psarc::fs::TTL_SECONDS;

const NO_CODEC: u32 = 0;
const ZLIB: u32 = 0x7A6C6962;
const WIDTH_16: u32 = 65536;

struct Member {
    length: u64,
    blocks: Vec<(u64, Vec<u8>)>,
}

fn stored(content: &[u8]) -> Member {
    if content.is_empty() {
        return Member { length: 0, blocks: Vec::new() };
    }
    Member { length: content.len() as u64, blocks: vec![(content.len() as u64, content.to_vec())] }
}

fn zlib(content: &[u8]) -> Vec<u8> {
    let mut encoder = ZlibEncoder::new(Vec::new(), Compression::best());
    encoder.write_all(content).unwrap();
    encoder.finish().unwrap()
}

fn zlib_member(content: &[u8]) -> Member {
    let blocks = content.chunks(65536).map(|c| {
        let packed = zlib(c);
        (packed.len() as u64, packed)
    }).collect();
    Member { length: content.len() as u64, blocks }
}

/// Builds an archive with two-byte block sizes whose table has `padding`
/// unused elements after those of the members.
fn build(codec: u32, flags: u32, members: &[Member], padding: usize) -> Vec<u8> {
    let blocks: usize = members.iter().map(|m| m.blocks.len()).sum::<usize>() + padding;
    let toc_length = 32 + 30 * members.len() + 2 * blocks;
    let mut out = Vec::new();
    out.extend_from_slice(b"PSAR");
    out.extend_from_slice(&[0, 1, 0, 4]);
    out.extend_from_slice(&codec.to_be_bytes());
    out.extend_from_slice(&(toc_length as u32).to_be_bytes());
    out.extend_from_slice(&30u32.to_be_bytes());
    out.extend_from_slice(&(members.len() as u32).to_be_bytes());
    out.extend_from_slice(&WIDTH_16.to_be_bytes());
    out.extend_from_slice(&flags.to_be_bytes());
    let mut offset = toc_length as u64;
    let mut first_block = 0u32;
    for m in members {
        out.extend_from_slice(&[0u8; 16]);
        out.extend_from_slice(&first_block.to_be_bytes());
        out.extend_from_slice(&m.length.to_be_bytes()[3..]);
        out.extend_from_slice(&offset.to_be_bytes()[3..]);
        first_block += m.blocks.len() as u32;
        offset += m.blocks.iter().map(|b| b.1.len() as u64).sum::<u64>();
    }
    for m in members {
        for b in &m.blocks {
            out.extend_from_slice(&(b.0 as u16).to_be_bytes());
        }
    }
    for _ in 0..padding {
        out.extend_from_slice(&[0, 0]);
    }
    for m in members {
        for b in &m.blocks {
            out.extend_from_slice(&b.1);
        }
    }
    out
}

fn pattern(n: usize) -> Vec<u8> {
    (0..n).map(|i| ((i * 13 + i / 255) % 256) as u8).collect()
}

fn mount(data: Vec<u8>) -> PSArcFS {
    let archive = PSArc::open(&data).unwrap();
    PSArcFS::new(archive, data)
}

/// An archive of the given paths, each file holding the given content,
/// compressed.
fn mount_files(files: &[(&str, Vec<u8>)]) -> PSArcFS {
    let manifest: String = files.iter().map(|f| format!("{}\n", f.0)).collect();
    let mut members = vec![stored(manifest.as_bytes())];
    for f in files {
        members.push(zlib_member(&f.1));
    }
    mount(build(ZLIB, 0, &members, 0))
}

fn names(listing: &[DirEntry]) -> Vec<String> {
    listing.iter().map(|e| String::from_utf8(e.name.clone()).unwrap()).collect()
}

fn folder_attr(ino: u64) -> FileAttr {
    FileAttr {
        ino,
        size: 0,
        blocks: 0,
        atime: 0,
        mtime: 0,
        ctime: 0,
        kind: FileKind::Directory,
        perm: 0o755,
        nlink: 2,
        uid: 0,
        gid: 0,
        rdev: 0,
    }
}

fn file_attr(ino: u64, size: u64) -> FileAttr {
    FileAttr {
        ino,
        size,
        blocks: 0,
        atime: 0,
        mtime: 0,
        ctime: 0,
        kind: FileKind::RegularFile,
        perm: 0o644,
        nlink: 1,
        uid: 0,
        gid: 0,
        rdev: 0,
    }
}

#[test]
fn scenario_zlib_manifest_reads_five_bytes() {
    // one entry of five bytes, one zlib block, table and data at 82
    let packed = zlib(b"abc\n\n");
    assert_eq!(&packed[..2], &[0x78, 0xDA]);
    let member = Member { length: 5, blocks: vec![(packed.len() as u64, packed)] };
    let data = build(ZLIB, 0, &[member], 9);
    let archive = PSArc::open(&data).unwrap();
    assert_eq!(archive.header.version_major, 1);
    assert_eq!(archive.header.version_minor, 4);
    assert_eq!(archive.header.toc_length, 82);
    assert_eq!(archive.header.toc_entry_size, 30);
    assert_eq!(archive.header.toc_entry_count, 1);
    assert_eq!(archive.entries[0].block_index, 0);
    assert_eq!(archive.entries[0].length, 5);
    assert_eq!(archive.entries[0].offset, 82);
    let mut fs = PSArcFS::new(archive, data);
    let manifest = fs.lookup(1, b"manifest.txt").unwrap().ino;
    assert_eq!(fs.read(manifest, 0, 5).unwrap(), b"abc\n\n");
}

#[test]
fn scenario_stored_manifest_reads_hello() {
    let data = build(NO_CODEC, 0, &[stored(b"hello")], 9);
    assert_eq!(&data[82..], b"hello");
    let mut fs = mount(data);
    let manifest = fs.lookup(1, b"manifest.txt").unwrap().ino;
    assert_eq!(fs.read(manifest, 0, 5).unwrap(), b"hello");
}

#[test]
fn scenario_folder_and_file() {
    let data = build(NO_CODEC, 0, &[stored(b"a/b.txt\n"), stored(b"XYZ")], 0);
    let mut fs = mount(data);
    assert_eq!(fs.psarc().entries[0].length, 8);
    // root, manifest.txt, folder a, file b.txt
    assert_eq!(fs.inode_count(), 4);
    let a = fs.lookup(1, b"a").unwrap();
    assert_eq!(a.kind, FileKind::Directory);
    let b = fs.lookup(a.ino, b"b.txt").unwrap();
    assert_eq!(b.kind, FileKind::RegularFile);
    assert_eq!(b.size, 3);
    assert_eq!(fs.read(b.ino, 0, 3).unwrap(), b"XYZ");
    assert_eq!(names(&fs.readdir(1, 0).unwrap()), [".", "..", "manifest.txt", "a"]);
    assert_eq!(names(&fs.readdir(a.ino, 0).unwrap()), [".", "..", "b.txt"]);
}

#[test]
fn scenario_absolute_manifest_hangs_under_the_root() {
    let data = build(NO_CODEC, 2, &[stored(b"/a/b.txt\n"), stored(b"XYZ")], 0);
    let fs = mount(data);
    assert_eq!(fs.psarc().entries[0].name, b"/manifest.txt");
    let manifest = fs.lookup(1, b"manifest.txt").unwrap();
    assert_eq!(manifest.kind, FileKind::RegularFile);
    assert_eq!(manifest.size, 9);
    assert_eq!(fs.lookup(1, b"/manifest.txt").err(), Some(Error::NotFound));
    let a = fs.lookup(1, b"a").unwrap();
    assert!(fs.lookup(a.ino, b"b.txt").is_ok());
}

#[test]
fn scenario_read_in_the_middle_bypasses_the_cache() {
    let content = pattern(30000);
    let mut fs = mount_files(&[("big.bin", content.clone())]);
    let ino = fs.lookup(1, b"big.bin").unwrap().ino;
    let out = fs.read(ino, 20000, 4096).unwrap();
    assert_eq!(out.len(), 4096);
    assert_eq!(out, &content[20000..24096]);
    assert!(!fs.is_cached(ino));
}

#[test]
fn read_across_a_block_boundary_decodes_both_blocks() {
    let content = pattern(150000);
    let mut fs = mount_files(&[("big.bin", content.clone())]);
    let ino = fs.lookup(1, b"big.bin").unwrap().ino;
    assert_eq!(fs.psarc().blocks_to_read(1, Some(64000 + 4096)), 2);
    assert_eq!(fs.read(ino, 64000, 4096).unwrap(), &content[64000..68096]);
    assert_eq!(fs.psarc().blocks_to_read(1, Some(140000 + 4096)), 3);
    assert_eq!(fs.read(ino, 140000, 4096).unwrap(), &content[140000..144096]);
    assert!(!fs.is_cached(ino));
}

#[test]
fn attributes_of_folders_and_files() {
    let fs = mount_files(&[("dir/file.bin", pattern(1234))]);
    assert_eq!(fs.getattr(1), Ok(folder_attr(1)));
    assert_eq!(fs.getattr(2), Ok(file_attr(2, 13)));
    assert_eq!(fs.getattr(3), Ok(folder_attr(3)));
    assert_eq!(fs.getattr(4), Ok(file_attr(4, 1234)));
    assert_eq!(fs.getattr(0), Err(Error::NotFound));
    assert_eq!(fs.getattr(5), Err(Error::NotFound));
    assert_eq!(fs.getattr(u64::MAX), Err(Error::NotFound));
    assert_eq!(TTL_SECONDS, 60);
}

#[test]
fn lookup_and_getattr_agree() {
    let fs = mount_files(&[
        ("a/x.bin", pattern(10)),
        ("a/b/y.bin", pattern(20)),
        ("z.bin", pattern(30)),
    ]);
    let mut seen = 0;
    for parent in 1..=fs.inode_count() as u64 {
        for entry in fs.readdir(parent, 0).unwrap() {
            if entry.cookie < 3 && (entry.name == b"." || entry.name == b"..") {
                continue;
            }
            let found = fs.lookup(parent, &entry.name).unwrap();
            assert_eq!(found.ino, entry.ino);
            assert_eq!(fs.getattr(found.ino), Ok(found));
            seen += 1;
        }
    }
    // every inode but the root is some directory's child
    assert_eq!(seen, fs.inode_count() - 1);
}

#[test]
fn lookup_fails_with_not_found() {
    let fs = mount_files(&[("a/x.bin", pattern(10))]);
    assert_eq!(fs.lookup(1, b"nothing").err(), Some(Error::NotFound));
    assert_eq!(fs.lookup(1, b"x.bin").err(), Some(Error::NotFound));
    assert_eq!(fs.lookup(1, b"").err(), Some(Error::NotFound));
    assert_eq!(fs.lookup(0, b"a").err(), Some(Error::NotFound));
    assert_eq!(fs.lookup(99, b"a").err(), Some(Error::NotFound));
    // a file has no children
    let file = fs.lookup(1, b"manifest.txt").unwrap().ino;
    assert_eq!(fs.lookup(file, b"a").err(), Some(Error::NotFound));
}

#[test]
fn lookup_takes_the_first_of_two_children_of_one_name() {
    // the same path twice: two files of one name in one folder
    let fs = mount_files(&[("d/same", pattern(1)), ("d/same", pattern(2))]);
    let d = fs.lookup(1, b"d").unwrap().ino;
    let listing = fs.readdir(d, 0).unwrap();
    assert_eq!(names(&listing), [".", "..", "same", "same"]);
    let found = fs.lookup(d, b"same").unwrap();
    assert_eq!(found.ino, listing[2].ino);
    assert_eq!(found.size, 1);
}

#[test]
fn folders_are_shared_by_paths_with_a_common_prefix() {
    let fs = mount_files(&[
        ("a/b/one", pattern(1)),
        ("a/b/two", pattern(2)),
        ("a/three", pattern(3)),
        ("a//b///four", pattern(4)),
        ("b/five", pattern(5)),
    ]);
    // root, manifest, a, a/b, one, two, three, four, b, five
    assert_eq!(fs.inode_count(), 10);
    let a = fs.lookup(1, b"a").unwrap().ino;
    let ab = fs.lookup(a, b"b").unwrap().ino;
    let b = fs.lookup(1, b"b").unwrap().ino;
    assert_ne!(ab, b);
    assert_eq!(names(&fs.readdir(1, 0).unwrap()), [".", "..", "manifest.txt", "a", "b"]);
    assert_eq!(names(&fs.readdir(a, 0).unwrap()), [".", "..", "b", "three"]);
    assert_eq!(names(&fs.readdir(ab, 0).unwrap()), [".", "..", "one", "two", "four"]);
    assert_eq!(names(&fs.readdir(b, 0).unwrap()), [".", "..", "five"]);
}

#[test]
fn a_file_and_a_folder_may_share_a_name() {
    let fs = mount_files(&[("x", pattern(1)), ("x/y", pattern(2))]);
    let listing = fs.readdir(1, 0).unwrap();
    assert_eq!(names(&listing), [".", "..", "manifest.txt", "x", "x"]);
    assert_eq!(listing[3].kind, FileKind::RegularFile);
    assert_eq!(listing[4].kind, FileKind::Directory);
    assert_eq!(names(&fs.readdir(listing[4].ino, 0).unwrap()), [".", "..", "y"]);
}

#[test]
fn entries_without_a_name_get_no_inode() {
    // three entries, one line: the third entry stays unnamed
    let data = build(NO_CODEC, 0, &[stored(b"only\n"), stored(b"1"), stored(b"2")], 0);
    let fs = mount(data);
    assert_eq!(fs.inode_count(), 3);
    assert_eq!(names(&fs.readdir(1, 0).unwrap()), [".", "..", "manifest.txt", "only"]);
    // nor does a name of slashes alone
    let data = build(NO_CODEC, 0, &[stored(b"//\nreal\n"), stored(b"1"), stored(b"2")], 0);
    let fs = mount(data);
    assert_eq!(names(&fs.readdir(1, 0).unwrap()), [".", "..", "manifest.txt", "real"]);
    assert_eq!(fs.lookup(1, b"real").unwrap().size, 1);
}

#[test]
fn inodes_count_up_from_the_root_in_order_of_creation() {
    let fs = mount_files(&[("a/b/c", pattern(1)), ("a/d", pattern(2))]);
    assert_eq!(fs.lookup(1, b"manifest.txt").unwrap().ino, 2);
    let a = fs.lookup(1, b"a").unwrap().ino;
    assert_eq!(a, 3);
    let b = fs.lookup(a, b"b").unwrap().ino;
    assert_eq!(b, 4);
    assert_eq!(fs.lookup(b, b"c").unwrap().ino, 5);
    assert_eq!(fs.lookup(a, b"d").unwrap().ino, 6);
    assert_eq!(fs.inode_count(), 6);
}

#[test]
fn every_entry_has_one_file_and_files_are_numbered_in_entry_order() {
    let paths = ["z/last", "a", "z/y/x", "a", "m/n", "z/first"];
    let files: Vec<(&str, Vec<u8>)> =
        paths.iter().enumerate().map(|(i, p)| (*p, pattern(i + 1))).collect();
    let fs = mount_files(&files);
    // sizes tell the entries apart: the manifest, then one byte more per entry
    let mut sizes = Vec::new();
    for ino in 1..=fs.inode_count() as u64 {
        let attr = fs.getattr(ino).unwrap();
        if attr.kind == FileKind::RegularFile {
            sizes.push(attr.size);
        }
    }
    let manifest: u64 = paths.iter().map(|p| p.len() as u64 + 1).sum();
    assert_eq!(sizes, [manifest, 1, 2, 3, 4, 5, 6]);
}

#[test]
fn readdir_lists_dot_dotdot_and_children_with_cookies() {
    let fs = mount_files(&[("d/one", pattern(1)), ("d/sub/two", pattern(2)), ("d/three", pattern(3))]);
    let d = fs.lookup(1, b"d").unwrap().ino;
    let listing = fs.readdir(d, 0).unwrap();
    let flat: Vec<(u64, u64, FileKind, String)> = listing
        .iter()
        .map(|e| (e.ino, e.cookie, e.kind, String::from_utf8(e.name.clone()).unwrap()))
        .collect();
    assert_eq!(
        flat,
        [
            (d, 1, FileKind::Directory, ".".to_string()),
            (1, 2, FileKind::Directory, "..".to_string()),
            (4, 2, FileKind::RegularFile, "one".to_string()),
            (5, 3, FileKind::Directory, "sub".to_string()),
            (7, 4, FileKind::RegularFile, "three".to_string()),
        ]
    );
    // from the root, `..` leads to the root itself
    let root = fs.readdir(1, 0).unwrap();
    assert_eq!((root[0].ino, root[0].cookie), (1, 1));
    assert_eq!((root[1].ino, root[1].cookie), (1, 2));
}

#[test]
fn readdir_from_a_position_skips_that_many_children() {
    let fs = mount_files(&[("d/one", pattern(1)), ("d/two", pattern(2)), ("d/three", pattern(3))]);
    let d = fs.lookup(1, b"d").unwrap().ino;
    assert_eq!(names(&fs.readdir(d, 0).unwrap()), [".", "..", "one", "two", "three"]);
    assert_eq!(names(&fs.readdir(d, 1).unwrap()), ["..", "two", "three"]);
    assert_eq!(names(&fs.readdir(d, 2).unwrap()), ["three"]);
    assert_eq!(names(&fs.readdir(d, 3).unwrap()), Vec::<String>::new());
    assert_eq!(names(&fs.readdir(d, 4).unwrap()), Vec::<String>::new());
    assert_eq!(names(&fs.readdir(d, u64::MAX).unwrap()), Vec::<String>::new());
    let two = fs.readdir(d, 1).unwrap();
    assert_eq!(two[1].cookie, 3);
    assert_eq!(two[2].cookie, 4);
}

#[test]
fn readdir_names_every_child_once() {
    let files: Vec<(String, Vec<u8>)> = (0..40).map(|i| (format!("d/f{}", i), pattern(i))).collect();
    let borrowed: Vec<(&str, Vec<u8>)> = files.iter().map(|f| (f.0.as_str(), f.1.clone())).collect();
    let fs = mount_files(&borrowed);
    let d = fs.lookup(1, b"d").unwrap().ino;
    let listing = fs.readdir(d, 0).unwrap();
    let children = &listing[2..];
    assert_eq!(children.len(), 40);
    for (i, child) in children.iter().enumerate() {
        assert_eq!(child.name, format!("f{}", i).as_bytes());
        assert_eq!(child.cookie, i as u64 + 2);
    }
    for pair in children.windows(2) {
        assert!(pair[0].cookie < pair[1].cookie);
        assert!(pair[0].ino < pair[1].ino);
    }
}

#[test]
fn readdir_of_a_file_has_no_children() {
    let fs = mount_files(&[("d/one", pattern(1))]);
    let d = fs.lookup(1, b"d").unwrap().ino;
    let one = fs.lookup(d, b"one").unwrap().ino;
    let listing = fs.readdir(one, 0).unwrap();
    assert_eq!(names(&listing), [".", ".."]);
    assert_eq!(listing[1].ino, d);
}

#[test]
fn readdir_of_an_unknown_inode_is_not_found() {
    let fs = mount_files(&[("d/one", pattern(1))]);
    assert_eq!(fs.readdir(0, 0).err(), Some(Error::NotFound));
    assert_eq!(fs.readdir(5, 0).err(), Some(Error::NotFound));
}

#[test]
fn read_of_a_folder_or_an_unknown_inode_is_not_found() {
    let mut fs = mount_files(&[("d/one", pattern(1))]);
    assert_eq!(fs.read(1, 0, 10).err(), Some(Error::NotFound));
    assert_eq!(fs.read(3, 0, 10).err(), Some(Error::NotFound));
    assert_eq!(fs.read(0, 0, 10).err(), Some(Error::NotFound));
    assert_eq!(fs.read(99, 0, 10).err(), Some(Error::NotFound));
}

#[test]
fn read_at_or_past_the_end_is_empty() {
    let content = pattern(1000);
    let mut fs = mount_files(&[("f", content.clone())]);
    let ino = fs.lookup(1, b"f").unwrap().ino;
    assert_eq!(fs.read(ino, 1000, 1).unwrap(), b"");
    assert_eq!(fs.read(ino, 1001, 1).unwrap(), b"");
    assert_eq!(fs.read(ino, u64::MAX, u32::MAX).unwrap(), b"");
    assert_eq!(fs.read(ino, 999, 10).unwrap(), &content[999..]);
    assert_eq!(fs.read(ino, 0, 0).unwrap(), b"");
    assert_eq!(fs.read(ino, 0, u32::MAX).unwrap(), content);
}

#[test]
fn read_of_an_empty_file_is_empty() {
    let mut fs = mount_files(&[("empty", Vec::new())]);
    let ino = fs.lookup(1, b"empty").unwrap().ino;
    assert_eq!(fs.getattr(ino).unwrap().size, 0);
    assert_eq!(fs.read(ino, 0, 100).unwrap(), b"");
    assert!(!fs.is_cached(ino));
}

#[test]
fn slot_reads_joined_equal_the_whole_read() {
    for n in [1usize, 16383, 16384, 16385, 65536, 100000, 140000] {
        let content = pattern(n);
        let mut fs = mount_files(&[("f", content.clone())]);
        let ino = fs.lookup(1, b"f").unwrap().ino;
        let whole = fs.read(ino, 0, n as u32).unwrap();
        assert_eq!(whole, content);
        let mut joined = Vec::new();
        let slots = (n + 16383) / 16384;
        for k in 0..slots {
            let part = fs.read(ino, (k * 16384) as u64, 16384).unwrap();
            if k + 1 < slots {
                assert_eq!(part.len(), 16384);
            }
            joined.extend_from_slice(&part);
        }
        assert_eq!(joined, whole);
    }
}

#[test]
fn second_read_from_the_start_is_served_from_the_cache() {
    let content = pattern(40000);
    let mut fs = mount_files(&[("f", content.clone())]);
    let ino = fs.lookup(1, b"f").unwrap().ino;
    assert!(!fs.is_cached(ino));
    let first = fs.read(ino, 0, 4096).unwrap();
    assert!(fs.is_cached(ino));
    let second = fs.read(ino, 0, 4096).unwrap();
    assert_eq!(first, second);
    assert_eq!(first, &content[..4096]);
    assert_eq!(fs.read(ino, 0, 16384).unwrap(), &content[..16384]);
    assert_eq!(fs.read(ino, 0, 0).unwrap(), b"");
    // a longer read or one from elsewhere goes to the archive
    assert_eq!(fs.read(ino, 0, 16385).unwrap(), &content[..16385]);
    assert_eq!(fs.read(ino, 1, 100).unwrap(), &content[1..101]);
}

#[test]
fn cache_serves_reads_even_when_the_archive_bytes_are_gone() {
    // the second read cannot come from the archive: the file's block is cut
    let content = pattern(20000);
    let manifest = stored(b"f\n");
    let data = build(ZLIB, 0, &[manifest, zlib_member(&content)], 0);
    let archive = PSArc::open(&data).unwrap();
    let cut = data[..data.len() - 8].to_vec();
    let mut broken = PSArcFS::new(archive, cut);
    let ino = broken.lookup(1, b"f").unwrap().ino;
    assert!(broken.read(ino, 0, 100).is_err());
    assert!(!broken.is_cached(ino));
    let mut fs = mount(data);
    assert_eq!(fs.read(ino, 0, 100).unwrap(), &content[..100]);
    assert!(fs.is_cached(ino));
    assert_eq!(fs.read(ino, 0, 100).unwrap(), &content[..100]);
}

#[test]
fn files_shorter_than_a_slot_are_not_cached() {
    let mut fs = mount_files(&[
        ("short", pattern(CACHE_SLOT - 1)),
        ("exact", pattern(CACHE_SLOT)),
        ("long", pattern(CACHE_SLOT + 1)),
    ]);
    let short = fs.lookup(1, b"short").unwrap().ino;
    let exact = fs.lookup(1, b"exact").unwrap().ino;
    let long = fs.lookup(1, b"long").unwrap().ino;
    fs.read(short, 0, 10).unwrap();
    fs.read(exact, 0, 10).unwrap();
    fs.read(long, 0, 10).unwrap();
    assert!(!fs.is_cached(short));
    assert!(fs.is_cached(exact));
    assert!(fs.is_cached(long));
    assert_eq!(fs.read(exact, 0, 16384).unwrap(), pattern(CACHE_SLOT));
}

#[test]
fn failed_read_leaves_the_filesystem_usable() {
    let good = pattern(20000);
    let packed = zlib(&pattern(3000));
    let bad = Member { length: 3000, blocks: vec![(packed.len() as u64 - 5, packed[..packed.len() - 5].to_vec())] };
    let data = build(ZLIB, 0, &[stored(b"bad\ngood\n"), bad, zlib_member(&good)], 0);
    let mut fs = mount(data);
    let bad = fs.lookup(1, b"bad").unwrap().ino;
    let good_ino = fs.lookup(1, b"good").unwrap().ino;
    assert!(fs.read(bad, 0, 100).is_err());
    assert!(!fs.is_cached(bad));
    assert_eq!(fs.read(good_ino, 0, 100).unwrap(), &good[..100]);
    assert!(fs.read(bad, 0, 100).is_err());
    assert_eq!(fs.getattr(bad).unwrap().size, 3000);
}
