//! The filesystem facade: inode-oriented lookup, attributes, directory
//! listing and reads over an opened archive.

use std::collections::HashMap;
use vstd::prelude::*;
use vstd::slice::slice_subrange;
use vstd::slice::slice_to_vec;
use vstd::std_specs::hash::*;
use crate::codec::outcome_of;
use crate::error::Error;
use crate::extract::block_count;
use crate::extract::block_plain_at;
use crate::extract::block_plain_len;
use crate::extract::blocks_wanted;
use crate::extract::entry_blocks;
use crate::extract::entry_read;
use crate::extract::lemma_block_count_is_ceiling;
use crate::extract::lemma_blocks_prefix;
use crate::extract::lemma_entry_blocks_len;
use crate::extract::lemma_full_read_length;
use crate::format::ArchiveFlags;
use crate::format::ArchiveView;
use crate::format::PSArc;
use crate::layout::build_upto;
use crate::layout::Builder;
use crate::layout::entry_placed;
use crate::layout::files_ordered;
use crate::layout::files_within;
use crate::layout::folders_shared;
use crate::layout::lemma_manifest_components;
use crate::layout::lemma_placed_extends;
use crate::layout::lemma_records_share;
use crate::layout::mirrors;
use crate::layout::placed_at;
use crate::layout::same_bytes;
use crate::layout::spec_components;
use crate::layout::spec_tree;
use crate::layout::spells;
use crate::manifest::manifest_name;
use crate::tree::DOT;
use crate::tree::Inode;
use crate::tree::InodeData;
use crate::tree::InodeTree;
use crate::tree::InodeView;
use crate::tree::extends;
use crate::tree::lemma_children_bound;
use crate::tree::lemma_extends_same;
use crate::tree::lemma_extends_twice;
use crate::tree::model_root;
use crate::tree::model_wf;
use crate::tree::NodeModel;
use crate::tree::ROOT_INODE;
use crate::tree::under_folders;

verus! {

broadcast use vstd::std_specs::hash::group_hash_axioms;

/// Number of leading bytes of a file that the cache keeps.
pub const CACHE_SLOT: usize = 16384;

/// Number of seconds for which attributes may be kept by the caller.
pub const TTL_SECONDS: u64 = 60;

/// Permission bits of a directory.
pub const DIRECTORY_MODE: u16 = 0o755;

/// Permission bits of a file.
pub const FILE_MODE: u16 = 0o644;

/// What kind of object an inode is.
#[derive(Clone, Copy, Debug, PartialEq, Eq, Structural)]
pub enum FileKind {
    Directory,
    RegularFile,
}

/// The attributes of an inode. Times count seconds from the epoch.
#[derive(Clone, Copy, Debug, PartialEq, Eq, Structural)]
pub struct FileAttr {
    pub ino: u64,
    pub size: u64,
    pub blocks: u64,
    pub atime: u64,
    pub mtime: u64,
    pub ctime: u64,
    pub kind: FileKind,
    pub perm: u16,
    pub nlink: u32,
    pub uid: u32,
    pub gid: u32,
    pub rdev: u32,
}

/// One line of a directory listing.
#[derive(Clone, Debug)]
pub struct DirEntry {
    pub ino: u64,
    /// The position to resume the listing from, after this line.
    pub cookie: u64,
    pub kind: FileKind,
    pub name: Vec<u8>,
}

/// One line of a directory listing, as mathematical values.
pub struct DirEntryView {
    pub ino: u64,
    pub cookie: u64,
    pub kind: FileKind,
    pub name: Seq<u8>,
}

impl View for DirEntry {
    type V = DirEntryView;

    open spec fn view(&self) -> DirEntryView {
        DirEntryView { ino: self.ino, cookie: self.cookie, kind: self.kind, name: self.name@ }
    }
}

/// The lines that a listing holds.
pub open spec fn listing_of(v: Seq<DirEntry>) -> Seq<DirEntryView> {
    Seq::new(v.len(), |i: int| v[i]@)
}

/// The names of an archive's entries, in order.
pub open spec fn entry_names(a: ArchiveView) -> Seq<Seq<u8>> {
    Seq::new(a.entries.len(), |i: int| a.entries[i].name)
}

/// The kind of object that an inode stands for.
pub open spec fn kind_of(data: InodeView) -> FileKind {
    match data {
        InodeView::Folder(_) => FileKind::Directory,
        InodeView::ArchivedFile(_, _) => FileKind::RegularFile,
    }
}

/// The attributes of an inode. A folder has size 0, mode 755 and two links;
/// a file has the length of its entry, mode 644 and one link. All times are
/// the epoch, owner and group are 0.
pub open spec fn attr_of(ino: u64, data: InodeView, a: ArchiveView) -> FileAttr {
    match data {
        InodeView::Folder(_) => FileAttr {
            ino,
            size: 0,
            blocks: 0,
            atime: 0,
            mtime: 0,
            ctime: 0,
            kind: FileKind::Directory,
            perm: DIRECTORY_MODE,
            nlink: 2,
            uid: 0,
            gid: 0,
            rdev: 0,
        },
        InodeView::ArchivedFile(_, index) => FileAttr {
            ino,
            size: a.entries[index as int].length,
            blocks: 0,
            atime: 0,
            mtime: 0,
            ctime: 0,
            kind: FileKind::RegularFile,
            perm: FILE_MODE,
            nlink: 1,
            uid: 0,
            gid: 0,
            rdev: 0,
        },
    }
}

/// What `getattr` answers: the attributes of an inode that exists.
pub open spec fn spec_getattr(a: ArchiveView, tree: Seq<NodeModel>, ino: u64) -> Result<
    FileAttr,
    Error,
> {
    if 1 <= ino <= tree.len() {
        Ok(attr_of(ino, tree[ino - 1].data, a))
    } else {
        Err(Error::NotFound)
    }
}

/// The first of the given inodes that has the given name.
pub open spec fn first_named(tree: Seq<NodeModel>, children: Seq<u64>, name: Seq<u8>) -> Option<
    u64,
>
    decreases children.len(),
{
    if children.len() == 0 {
        None
    } else if tree[children[0] - 1].data.name() == name {
        Some(children[0])
    } else {
        first_named(tree, children.drop_first(), name)
    }
}

/// What `lookup` answers: the attributes of the first child of `parent`
/// that has the name.
pub open spec fn spec_lookup(
    a: ArchiveView,
    tree: Seq<NodeModel>,
    parent: u64,
    name: Seq<u8>,
) -> Result<FileAttr, Error> {
    if 1 <= parent <= tree.len() {
        match first_named(tree, tree[parent - 1].children, name) {
            Some(child) => spec_getattr(a, tree, child),
            None => Err(Error::NotFound),
        }
    } else {
        Err(Error::NotFound)
    }
}

/// The line of a listing that stands for a directory by a fixed name.
pub open spec fn link_entry(ino: u64, cookie: u64, name: Seq<u8>) -> DirEntryView {
    DirEntryView { ino, cookie, kind: FileKind::Directory, name }
}

/// The lines for `.` and `..`. The first is listed from position 0 only, the
/// second from positions 0 and 1. `..` leads to the parent, and from the
/// root to the root itself.
pub open spec fn link_entries(tree: Seq<NodeModel>, ino: u64, offset: u64) -> Seq<DirEntryView> {
    let here = if offset == 0 {
        seq![link_entry(ino, 1, seq![DOT])]
    } else {
        Seq::empty()
    };
    let up = if offset < 2 {
        match tree[ino - 1].parent {
            None => seq![link_entry(ROOT_INODE, 2, seq![DOT, DOT])],
            Some(parent) => seq![link_entry(parent, 2, seq![DOT, DOT])],
        }
    } else {
        Seq::empty()
    };
    here + up
}

/// The line of a listing for the child at position `i`.
pub open spec fn child_entry(tree: Seq<NodeModel>, ino: u64, i: int) -> DirEntryView {
    let child = tree[ino - 1].children[i];
    DirEntryView {
        ino: child,
        cookie: (i + 2) as u64,
        kind: kind_of(tree[child - 1].data),
        name: tree[child - 1].data.name(),
    }
}

/// The lines for the children, without the first `offset` of them.
pub open spec fn child_entries(tree: Seq<NodeModel>, ino: u64, offset: u64) -> Seq<DirEntryView> {
    let children = tree[ino - 1].children;
    if offset >= children.len() {
        Seq::empty()
    } else {
        Seq::new((children.len() - offset) as nat, |k: int| child_entry(tree, ino, offset + k))
    }
}

/// What `readdir` answers: the lines for `.` and `..`, then those for the
/// children.
pub open spec fn spec_readdir(tree: Seq<NodeModel>, ino: u64, offset: u64) -> Result<
    Seq<DirEntryView>,
    Error,
> {
    if 1 <= ino <= tree.len() {
        Ok(link_entries(tree, ino, offset) + child_entries(tree, ino, offset))
    } else {
        Err(Error::NotFound)
    }
}

/// Number of plaintext bytes that a read of `size` bytes at `offset` needs:
/// their sum, as far as 64 bits can hold it.
pub open spec fn wanted(offset: u64, size: u32) -> u64 {
    if offset + size > u64::MAX {
        u64::MAX
    } else {
        (offset + size) as u64
    }
}

/// The part of a buffer that a read of `size` bytes at `offset` is after:
/// shorter than `size` where the buffer ends early, and empty where it ends
/// at or before `offset`.
pub open spec fn window_of(buf: Seq<u8>, offset: u64, size: u32) -> Seq<u8> {
    let start = if offset < buf.len() {
        offset as int
    } else {
        buf.len() as int
    };
    let end = if offset + size < buf.len() {
        offset + size
    } else {
        buf.len() as int
    };
    buf.subrange(start, end)
}

/// The plaintext that a read decodes: that of the file's leading blocks, as
/// many as the read needs.
pub open spec fn spec_read_buffer(
    a: ArchiveView,
    data: Seq<u8>,
    tree: Seq<NodeModel>,
    ino: u64,
    offset: u64,
    size: u32,
) -> Result<Seq<u8>, Error> {
    if 1 <= ino <= tree.len() {
        match tree[ino - 1].data {
            InodeView::Folder(_) => Err(Error::NotFound),
            InodeView::ArchivedFile(_, index) => entry_read(
                a,
                data,
                index as int,
                Some(wanted(offset, size)),
            ),
        }
    } else {
        Err(Error::NotFound)
    }
}

/// What `read` answers: the wanted part of the decoded plaintext.
pub open spec fn spec_read(
    a: ArchiveView,
    data: Seq<u8>,
    tree: Seq<NodeModel>,
    ino: u64,
    offset: u64,
    size: u32,
) -> Result<Seq<u8>, Error> {
    match spec_read_buffer(a, data, tree, ino, offset, size) {
        Err(e) => Err(e),
        Ok(buf) => Ok(window_of(buf, offset, size)),
    }
}

/// The cache after a read: a successful read from the start of a file that
/// decodes at least a cache slot's worth of plaintext leaves the first slot
/// of it under the file's inode; no other read changes the cache.
pub open spec fn cache_after(
    cached: Map<u64, Seq<u8>>,
    a: ArchiveView,
    data: Seq<u8>,
    tree: Seq<NodeModel>,
    ino: u64,
    offset: u64,
    size: u32,
) -> Map<u64, Seq<u8>> {
    match spec_read_buffer(a, data, tree, ino, offset, size) {
        Err(_) => cached,
        Ok(buf) => if offset == 0 && buf.len() >= CACHE_SLOT {
            cached.insert(ino, buf.subrange(0, CACHE_SLOT as int))
        } else {
            cached
        },
    }
}

/// Every cached inode is a file, and what is cached for it is the first
/// slot of the plaintext of the file's first block.
pub open spec fn cache_coherent(
    cached: Map<u64, Seq<u8>>,
    a: ArchiveView,
    data: Seq<u8>,
    tree: Seq<NodeModel>,
) -> bool {
    forall|ino: u64| #[trigger]
        cached.contains_key(ino) ==> {
            &&& 1 <= ino <= tree.len()
            &&& tree[ino - 1].data matches InodeView::ArchivedFile(_, index)
            &&& entry_blocks(a, data, index as int, 1) matches Ok(first)
            &&& first.len() >= CACHE_SLOT
            &&& cached[ino] == first.subrange(0, CACHE_SLOT as int)
        }
}

/// The inode tree is well formed and is the one that the entry names give.
/// With that, every file belongs to an entry, the files stand in the order
/// of their entries, every entry with a path has its file where the path
/// leads, no folder holds two folders of one name, every inode but the root
/// hangs below a folder, and the root is a folder named by a single dot.
#[verifier::opaque]
pub closed spec fn laid_out(inodes: InodeTree, a: ArchiveView) -> bool {
    &&& inodes.wf()
    &&& inodes.model() == spec_tree(entry_names(a))
    &&& files_within(inodes.model(), a.entries.len())
    &&& files_ordered(inodes.model())
    &&& mirrors(inodes.model(), entry_names(a), a.entries.len())
    &&& folders_shared(inodes.model())
    &&& under_folders(inodes.model())
    &&& inodes.model()[0].data == InodeView::Folder(seq![DOT])
}

/// What a laid-out tree is known to be.
pub proof fn lemma_laid_out(inodes: InodeTree, a: ArchiveView)
    requires
        laid_out(inodes, a),
    ensures
        inodes.wf(),
        model_wf(inodes.model()),
        inodes.model() == spec_tree(entry_names(a)),
        files_within(inodes.model(), a.entries.len()),
        files_ordered(inodes.model()),
        mirrors(inodes.model(), entry_names(a), a.entries.len()),
        folders_shared(inodes.model()),
        under_folders(inodes.model()),
        inodes.model()[0].data == InodeView::Folder(seq![DOT]),
{
    reveal(laid_out);
    inodes.lemma_has_root();
}

/// An opened archive, served by inode.
pub struct PSArcFS {
    psarc: PSArc,
    reader: Vec<u8>,
    inodes: InodeTree,
    cache: HashMap<Inode, Vec<u8>>,
}

impl PSArcFS {
    /// The archive's table of contents.
    pub closed spec fn archive(&self) -> ArchiveView {
        self.psarc@
    }

    /// The archive's bytes.
    pub closed spec fn bytes(&self) -> Seq<u8> {
        self.reader@
    }

    /// The inode tree: entry `i` describes inode `i + 1`.
    pub closed spec fn tree(&self) -> Seq<NodeModel> {
        self.inodes.model()
    }

    /// The cached file prefixes, by inode.
    pub closed spec fn cached(&self) -> Map<u64, Seq<u8>> {
        Map::new(|ino: u64| self.cache@.contains_key(ino), |ino: u64| self.cache@[ino]@)
    }

    /// The inode tree is the one that the entry names give, and the cache
    /// agrees with the archive.
    pub closed spec fn wf(&self) -> bool {
        &&& laid_out(self.inodes, self.psarc@)
        &&& cache_coherent(self.cached(), self.archive(), self.bytes(), self.tree())
    }

    /// What is known of every well-formed filesystem: its tree is the one
    /// that the entry names give; the root is a folder named by a single
    /// dot; every other inode hangs below exactly one other, a folder;
    /// every file belongs to an entry, no entry has two files, and the
    /// files are numbered in the order of their entries; every entry with a
    /// path has its file where the path leads; no folder holds two folders
    /// of one name; and the cache agrees with the archive.
    pub proof fn lemma_wf(&self)
        requires
            self.wf(),
        ensures
            model_wf(self.tree()),
            self.tree() == spec_tree(entry_names(self.archive())),
            files_within(self.tree(), self.archive().entries.len()),
            files_ordered(self.tree()),
            mirrors(self.tree(), entry_names(self.archive()), self.archive().entries.len()),
            folders_shared(self.tree()),
            under_folders(self.tree()),
            self.tree()[0].data == InodeView::Folder(seq![DOT]),
            cache_coherent(self.cached(), self.archive(), self.bytes(), self.tree()),
    {
        lemma_laid_out(self.inodes, self.psarc@);
    }

    /// The manifest is reachable at the root: where the first entry bears
    /// the manifest's name, its file hangs below the root, and a lookup of
    /// `manifest.txt` at the root finds a file.
    pub proof fn lemma_manifest_at_root(&self)
        requires
            self.wf(),
            self.archive().entries.len() >= 1,
            self.archive().entries[0].name == manifest_name(self.archive().header.archive_flags),
        ensures
            exists|ino: u64|
                2 <= ino <= self.tree().len() && (#[trigger] self.tree()[ino - 1]).data
                    == InodeView::ArchivedFile(manifest_name(ArchiveFlags::RelativePaths), 0)
                    && self.tree()[ino - 1].parent == Some(ROOT_INODE),
            spec_lookup(
                self.archive(),
                self.tree(),
                ROOT_INODE,
                manifest_name(ArchiveFlags::RelativePaths),
            ) is Ok,
    {
        self.lemma_wf();
        let names = entry_names(self.archive());
        lemma_manifest_components(self.archive().header.archive_flags);
        assert(names[0] == self.archive().entries[0].name);
        assert(entry_placed(self.tree(), spec_components(names[0]), 0));
        lemma_top_level_entry(
            self.archive(),
            self.tree(),
            0,
            manifest_name(ArchiveFlags::RelativePaths),
        );
    }

    /// Lays the entries of an opened archive out as a tree of inodes. The
    /// cache starts empty.
    #[verifier::spinoff_prover]
    pub fn new(psarc: PSArc, reader: Vec<u8>) -> (fs: PSArcFS)
        ensures
            fs.wf(),
            fs.archive() == psarc@,
            fs.bytes() == reader@,
            fs.tree() == spec_tree(entry_names(psarc@)),
            fs.cached() == Map::<u64, Seq<u8>>::empty(),
    {
        let ghost names = entry_names(psarc@);
        let count: usize = psarc.entries.len();
        let mut builder = Builder::new(count);
        let mut i: usize = 0;
        proof {
            lemma_extends_same(model_root());
        }
        while i < count
            invariant
                i <= count,
                count == psarc.entries@.len(),
                names == entry_names(psarc@),
                builder.wf(),
                builder.entries == count,
                builder.model() == build_upto(names, i as nat),
                mirrors(builder.model().nodes, names, i as nat),
                extends(model_root(), builder.model().nodes),
                files_ordered(builder.model().nodes),
                files_within(builder.model().nodes, i as nat),
            decreases count - i,
        {
            let ghost before = builder.model().nodes;
            builder.add_entry(psarc.entries[i].name.as_slice(), i);
            proof {
                let after = builder.model().nodes;
                lemma_extends_twice(model_root(), before, after);
                assert forall|k: int| 0 <= k < i + 1 implies entry_placed(
                    after,
                    spec_components(#[trigger] names[k]),
                    k as usize,
                ) by {
                    if k < i {
                        lemma_placed_extends(before, after, spec_components(names[k]), k as usize);
                    }
                }
            }
            i = i + 1;
        }
        proof {
            builder.inodes.lemma_has_root();
            lemma_records_share(builder.model());
            assert(laid_out(builder.inodes, psarc@)) by {
                reveal(laid_out);
            }
        }
        let fs = PSArcFS { psarc, reader, inodes: builder.inodes, cache: HashMap::new() };
        assert(fs.cached() =~= Map::<u64, Seq<u8>>::empty());
        fs
    }

    /// The parsed archive.
    pub fn psarc(&self) -> (a: &PSArc)
        ensures
            a@ == self.archive(),
    {
        &self.psarc
    }

    /// Whether the cache holds the first slot of an inode's file.
    pub fn is_cached(&self, ino: Inode) -> (b: bool)
        ensures
            b == self.cached().contains_key(ino),
    {
        self.cache.contains_key(&ino)
    }

    /// Number of inodes; they are numbered from 1 to this.
    pub fn inode_count(&self) -> (n: usize)
        requires
            self.wf(),
        ensures
            n == self.tree().len(),
    {
        proof {
            lemma_laid_out(self.inodes, self.psarc@);
        }
        self.inodes.len()
    }

    /// The attributes of what an inode stands for.
    fn attr_for(&self, ino: Inode, data: &InodeData) -> (attr: FileAttr)
        requires
            data@ matches InodeView::ArchivedFile(_, index) ==> index
                < self.archive().entries.len(),
        ensures
            attr == attr_of(ino, data@, self.archive()),
    {
        match data {
            InodeData::Folder(_) => FileAttr {
                ino,
                size: 0,
                blocks: 0,
                atime: 0,
                mtime: 0,
                ctime: 0,
                kind: FileKind::Directory,
                perm: DIRECTORY_MODE,
                nlink: 2,
                uid: 0,
                gid: 0,
                rdev: 0,
            },
            InodeData::ArchivedFile(_, index) => FileAttr {
                ino,
                size: self.psarc.entries[*index].length,
                blocks: 0,
                atime: 0,
                mtime: 0,
                ctime: 0,
                kind: FileKind::RegularFile,
                perm: FILE_MODE,
                nlink: 1,
                uid: 0,
                gid: 0,
                rdev: 0,
            },
        }
    }

    /// The attributes of an inode, or `NotFound` where there is no such
    /// inode.
    pub fn getattr(&self, ino: Inode) -> (r: Result<FileAttr, Error>)
        requires
            self.wf(),
        ensures
            r == spec_getattr(self.archive(), self.tree(), ino),
    {
        proof {
            lemma_laid_out(self.inodes, self.psarc@);
        }
        match self.inodes.get(ino) {
            Some(data) => {
                assert(self.tree()[ino - 1].data == data@);
                Ok(self.attr_for(ino, data))
            },
            None => Err(Error::NotFound),
        }
    }

    /// Finds the child of `parent` that has the given name, and answers with
    /// its attributes. `NotFound` where there is no such inode or no such
    /// child.
    #[verifier::spinoff_prover]
    pub fn lookup(&self, parent: Inode, name: &[u8]) -> (r: Result<FileAttr, Error>)
        requires
            self.wf(),
        ensures
            r == spec_lookup(self.archive(), self.tree(), parent, name@),
    {
        proof {
            lemma_laid_out(self.inodes, self.psarc@);
        }
        let children = match self.inodes.children(parent) {
            Some(children) => children,
            None => {
                return Err(Error::NotFound);
            },
        };
        let ghost tree = self.tree();
        let mut i: usize = 0;
        assert(children@.subrange(0, children@.len() as int) =~= children@);
        while i < children.len()
            invariant
                self.inodes.wf(),
                tree == self.tree(),
                model_wf(tree),
                files_within(tree, self.archive().entries.len()),
                1 <= parent <= tree.len(),
                children@ == tree[parent - 1].children,
                i <= children@.len(),
                first_named(tree, children@, name@) == first_named(
                    tree,
                    children@.subrange(i as int, children@.len() as int),
                    name@,
                ),
            decreases children@.len() - i,
        {
            let child: u64 = children[i];
            proof {
                let rest = children@.subrange(i as int, children@.len() as int);
                assert(rest[0] == child);
                assert(rest.drop_first() =~= children@.subrange(i + 1, children@.len() as int));
                assert(tree[parent - 1].children[i as int] == child);
            }
            match self.inodes.get(child) {
                Some(data) => {
                    if same_bytes(data.name().as_slice(), name) {
                        assert(tree[child - 1].data == data@);
                        return Ok(self.attr_for(child, data));
                    }
                },
                None => {},
            }
            i = i + 1;
        }
        Err(Error::NotFound)
    }

    /// Lists a directory from position `offset` on: `.` and `..` as far as
    /// the position still admits them, then the children without the first
    /// `offset` of them. `NotFound` where there is no such inode.
    #[verifier::spinoff_prover]
    pub fn readdir(&self, ino: Inode, offset: u64) -> (r: Result<Vec<DirEntry>, Error>)
        requires
            self.wf(),
        ensures
            match r {
                Ok(v) => spec_readdir(self.tree(), ino, offset) == Ok::<Seq<DirEntryView>, Error>(
                    listing_of(v@),
                ),
                Err(e) => spec_readdir(self.tree(), ino, offset) == Err::<Seq<DirEntryView>, Error>(
                    e,
                ),
            },
    {
        proof {
            lemma_laid_out(self.inodes, self.psarc@);
        }
        let children = match self.inodes.children(ino) {
            Some(children) => children,
            None => {
                return Err(Error::NotFound);
            },
        };
        let ghost tree = self.tree();
        let mut out: Vec<DirEntry> = Vec::new();
        if offset == 0 {
            out.push(DirEntry { ino, cookie: 1, kind: FileKind::Directory, name: dots(1) });
        }
        if offset < 2 {
            match self.inodes.parent(ino) {
                Some(Some(parent)) => {
                    out.push(
                        DirEntry {
                            ino: parent,
                            cookie: 2,
                            kind: FileKind::Directory,
                            name: dots(2),
                        },
                    );
                },
                Some(None) => {
                    out.push(
                        DirEntry {
                            ino: ROOT_INODE,
                            cookie: 2,
                            kind: FileKind::Directory,
                            name: dots(2),
                        },
                    );
                },
                None => {},
            }
        }
        let ghost links = link_entries(tree, ino, offset);
        assert(listing_of(out@) =~= links);
        let count: usize = children.len();
        if offset < count as u64 {
            let mut i: usize = offset as usize;
            while i < count
                invariant
                    self.inodes.wf(),
                    tree == self.tree(),
                    model_wf(tree),
                    1 <= ino <= tree.len(),
                    children@ == tree[ino - 1].children,
                    count == children@.len(),
                    offset <= i <= count,
                    listing_of(out@) == links + Seq::new(
                        (i - offset) as nat,
                        |k: int| child_entry(tree, ino, offset + k),
                    ),
                decreases count - i,
            {
                let child: u64 = children[i];
                proof {
                    lemma_children_bound(tree, ino - 1, i as int);
                    assert(tree[ino - 1].children[i as int] == child);
                }
                let ghost done = listing_of(out@);
                match self.inodes.get(child) {
                    Some(data) => {
                        let kind = match data {
                            InodeData::Folder(_) => FileKind::Directory,
                            InodeData::ArchivedFile(_, _) => FileKind::RegularFile,
                        };
                        let name = data.name().clone();
                        out.push(DirEntry { ino: child, cookie: i as u64 + 2, kind, name });
                        assert(listing_of(out@) =~= done.push(child_entry(tree, ino, i as int)));
                    },
                    None => {},
                }
                assert(listing_of(out@) =~= links + Seq::new(
                    (i + 1 - offset) as nat,
                    |k: int| child_entry(tree, ino, offset + k),
                ));
                i = i + 1;
            }
        } else {
            assert(listing_of(out@) =~= links + child_entries(tree, ino, offset));
        }
        Ok(out)
    }

    /// Reads up to `size` bytes of a file from `offset` on. The answer is
    /// shorter where the file ends early and empty at or past its end.
    /// `NotFound` where the inode is no file.
    ///
    /// A read from the start that decodes at least a cache slot's worth of
    /// plaintext leaves the first slot in the cache, and later reads within
    /// that slot are served from there. A failed read changes nothing.
    #[verifier::spinoff_prover]
    pub fn read(&mut self, ino: Inode, offset: u64, size: u32) -> (r: Result<Vec<u8>, Error>)
        requires
            old(self).wf(),
        ensures
            final(self).wf(),
            final(self).archive() == old(self).archive(),
            final(self).bytes() == old(self).bytes(),
            final(self).tree() == old(self).tree(),
            outcome_of(r) == spec_read(
                old(self).archive(),
                old(self).bytes(),
                old(self).tree(),
                ino,
                offset,
                size,
            ),
            final(self).cached() == cache_after(
                old(self).cached(),
                old(self).archive(),
                old(self).bytes(),
                old(self).tree(),
                ino,
                offset,
                size,
            ),
    {
        let ghost a = self.archive();
        let ghost data = self.bytes();
        let ghost tree = self.tree();
        let ghost cached = self.cached();
        proof {
            lemma_laid_out(self.inodes, self.psarc@);
        }
        if offset == 0 && size <= 16384 {
            match self.cache.get(&ino) {
                Some(slot) => {
                    proof {
                        assert(cached.contains_key(ino));
                        assert(cached[ino] == slot@);
                        lemma_cache_serves(cached, a, data, tree, ino, size);
                    }
                    let out = slice_to_vec(slice_subrange(slot.as_slice(), 0, size as usize));
                    return Ok(out);
                },
                None => {},
            }
        }
        let index: usize = match self.inodes.get(ino) {
            Some(InodeData::ArchivedFile(_, index)) => *index,
            _ => {
                return Err(Error::NotFound);
            },
        };
        let want: u64 = if offset > u64::MAX - size as u64 {
            u64::MAX
        } else {
            offset + size as u64
        };
        let mut buf = self.psarc.print_file(self.reader.as_slice(), index, Some(want))?;
        let ghost whole = buf@;
        let len: usize = buf.len();
        if offset == 0 && len >= CACHE_SLOT {
            let slot = slice_to_vec(slice_subrange(buf.as_slice(), 0, CACHE_SLOT));
            self.cache.insert(ino, slot);
            assert(self.cached() =~= cached.insert(ino, whole.subrange(0, CACHE_SLOT as int)));
        }
        proof {
            lemma_cache_fill(cached, a, data, tree, ino, offset, size);
        }
        let start: usize = if offset < len as u64 {
            offset as usize
        } else {
            len
        };
        let end: usize = if want < len as u64 {
            want as usize
        } else {
            len
        };
        buf.truncate(end);
        let out = buf.split_off(start);
        assert(out@ =~= window_of(whole, offset, size));
        Ok(out)
    }
}

/// The name that is `n` dots long.
fn dots(n: usize) -> (name: Vec<u8>)
    requires
        1 <= n <= 2,
    ensures
        n == 1 ==> name@ == seq![DOT],
        n == 2 ==> name@ == seq![DOT, DOT],
{
    let mut name: Vec<u8> = Vec::new();
    name.push(DOT);
    if n == 2 {
        name.push(DOT);
    }
    assert(n == 1 ==> name@ =~= seq![DOT]);
    assert(n == 2 ==> name@ =~= seq![DOT, DOT]);
    name
}

/// What the cache holds for a file is what a read of the archive yields: a
/// read within the first slot of a cached file decodes the file's first
/// block, answers with the cached bytes, and leaves the cache as it is.
#[verifier::spinoff_prover]
pub proof fn lemma_cache_serves(
    cached: Map<u64, Seq<u8>>,
    a: ArchiveView,
    data: Seq<u8>,
    tree: Seq<NodeModel>,
    ino: u64,
    size: u32,
)
    requires
        cache_coherent(cached, a, data, tree),
        cached.contains_key(ino),
        size <= CACHE_SLOT,
    ensures
        spec_read(a, data, tree, ino, 0, size) == Ok::<Seq<u8>, Error>(
            cached[ino].subrange(0, size as int),
        ),
        cache_after(cached, a, data, tree, ino, 0, size) == cached,
{
    let index = tree[ino - 1].data->ArchivedFile_1;
    let length = a.entries[index as int].length as nat;
    let mbs = a.max_block_size();
    let first = entry_blocks(a, data, index as int, 1)->Ok_0;
    lemma_first_block_len(a, data, index as int);
    lemma_block_count_is_ceiling(length, mbs);
    assert(block_count(length, mbs) >= 1);
    assert(wanted(0, size) == size);
    if size > 0 {
        assert((size - 1) / (mbs as int) == 0) by (nonlinear_arith)
            requires
                0 <= size - 1 < mbs,
        ;
    }
    assert(block_count(size as nat, mbs) <= 1);
    assert(blocks_wanted(length, mbs, Some(wanted(0, size))) == 1);
    assert(spec_read_buffer(a, data, tree, ino, 0, size) == Ok::<Seq<u8>, Error>(first));
    assert(cached[ino].subrange(0, size as int) =~= window_of(first, 0, size));
    assert(cached.insert(ino, first.subrange(0, CACHE_SLOT as int)) =~= cached);
}

/// The first block of an entry, where it can be read, holds a full block
/// of plaintext or the whole entry.
pub proof fn lemma_first_block_len(a: ArchiveView, data: Seq<u8>, index: int)
    requires
        entry_blocks(a, data, index, 1) is Ok,
    ensures
        a.max_block_size() >= 65536,
        entry_blocks(a, data, index, 1)->Ok_0.len() == if a.max_block_size()
            <= a.entries[index].length {
            a.max_block_size()
        } else {
            a.entries[index].length as nat
        },
{
    let length = a.entries[index].length as nat;
    let mbs = a.max_block_size();
    let plain = block_plain_at(a, data, index, 0)->Ok_0;
    assert(entry_blocks(a, data, index, 0) == Ok::<Seq<u8>, Error>(Seq::empty()));
    assert(entry_blocks(a, data, index, 1) == Ok::<Seq<u8>, Error>(Seq::empty() + plain));
    assert(Seq::<u8>::empty() + plain =~= plain);
    assert(plain.len() == block_plain_len(length, mbs, 0));
    assert((0 + 1) * mbs == mbs) by (nonlinear_arith);
    assert(0 * mbs == 0) by (nonlinear_arith);
}

/// A read keeps the cache in agreement with the archive.
#[verifier::spinoff_prover]
pub proof fn lemma_cache_fill(
    cached: Map<u64, Seq<u8>>,
    a: ArchiveView,
    data: Seq<u8>,
    tree: Seq<NodeModel>,
    ino: u64,
    offset: u64,
    size: u32,
)
    requires
        cache_coherent(cached, a, data, tree),
    ensures
        cache_coherent(cache_after(cached, a, data, tree, ino, offset, size), a, data, tree),
{
    let after = cache_after(cached, a, data, tree, ino, offset, size);
    if after != cached {
        let index = tree[ino - 1].data->ArchivedFile_1;
        let length = a.entries[index as int].length as nat;
        let mbs = a.max_block_size();
        let n = blocks_wanted(length, mbs, Some(wanted(offset, size)));
        let buf = entry_blocks(a, data, index as int, n)->Ok_0;
        assert(spec_read_buffer(a, data, tree, ino, offset, size) == Ok::<Seq<u8>, Error>(buf));
        assert(buf.len() >= CACHE_SLOT);
        assert(entry_blocks(a, data, index as int, 0) == Ok::<Seq<u8>, Error>(Seq::empty()));
        assert(n >= 1);
        assert(n <= block_count(length, mbs));
        lemma_blocks_prefix(a, data, index as int, 1, n);
        lemma_first_block_len(a, data, index as int);
        lemma_entry_blocks_len(a, data, index as int, n);
        let first = entry_blocks(a, data, index as int, 1)->Ok_0;
        assert(buf.len() <= length);
        assert(first.len() >= CACHE_SLOT);
        assert(first.is_prefix_of(buf));
        assert(first.subrange(0, CACHE_SLOT as int) =~= buf.subrange(0, CACHE_SLOT as int));
        assert forall|other: u64| #[trigger] after.contains_key(other) implies {
            &&& 1 <= other <= tree.len()
            &&& tree[other - 1].data matches InodeView::ArchivedFile(_, at)
            &&& entry_blocks(a, data, at as int, 1) matches Ok(lead)
            &&& lead.len() >= CACHE_SLOT
            &&& after[other] == lead.subrange(0, CACHE_SLOT as int)
        } by {
            if other != ino {
                assert(cached.contains_key(other));
            }
        }
    }
}

/// Looking a name up and then asking for the attributes of the inode found
/// gives the same attributes twice.
pub proof fn lemma_lookup_then_getattr(
    a: ArchiveView,
    tree: Seq<NodeModel>,
    parent: u64,
    name: Seq<u8>,
)
    requires
        model_wf(tree),
        spec_lookup(a, tree, parent, name) is Ok,
    ensures
        spec_getattr(a, tree, spec_lookup(a, tree, parent, name)->Ok_0.ino) == spec_lookup(
            a,
            tree,
            parent,
            name,
        ),
{
}

/// What a lookup finds is a child of the parent that has the name, and no
/// child before it has the name. Where it finds nothing, no child has the
/// name.
#[verifier::spinoff_prover]
pub proof fn lemma_first_named(tree: Seq<NodeModel>, children: Seq<u64>, name: Seq<u8>)
    ensures
        match first_named(tree, children, name) {
            Some(child) => exists|i: int|
                0 <= i < children.len() && #[trigger] children[i] == child && tree[child
                    - 1].data.name() == name && forall|j: int|
                    0 <= j < i ==> tree[#[trigger] children[j] - 1].data.name() != name,
            None => forall|j: int|
                0 <= j < children.len() ==> tree[#[trigger] children[j] - 1].data.name() != name,
        },
    decreases children.len(),
{
    if children.len() > 0 && tree[children[0] - 1].data.name() != name {
        let rest = children.drop_first();
        lemma_first_named(tree, rest, name);
        match first_named(tree, rest, name) {
            Some(child) => {
                let i = choose|i: int|
                    0 <= i < rest.len() && #[trigger] rest[i] == child && forall|j: int|
                        0 <= j < i ==> tree[#[trigger] rest[j] - 1].data.name() != name;
                assert(children[i + 1] == child);
                assert forall|j: int| 0 <= j < i + 1 implies tree[#[trigger] children[j]
                    - 1].data.name() != name by {
                    if j > 0 {
                        assert(rest[j - 1] == children[j]);
                    }
                }
            },
            None => {
                assert forall|j: int| 0 <= j < children.len() implies tree[#[trigger] children[j]
                    - 1].data.name() != name by {
                    if j > 0 {
                        assert(rest[j - 1] == children[j]);
                    }
                }
            },
        }
    } else if children.len() > 0 {
        assert(children[0] == children[0]);
    }
}

/// A listing from the start names every child of the directory exactly
/// once: the lines for the children stand in the children's order, one
/// each, no inode twice, and their cookies rise from 2 in steps of one. A
/// listing from a later position is the same without its first children.
pub proof fn lemma_readdir_children(tree: Seq<NodeModel>, ino: u64, offset: u64)
    requires
        model_wf(tree),
        1 <= ino <= tree.len(),
    ensures
        child_entries(tree, ino, 0).len() == tree[ino - 1].children.len(),
        forall|k: int|
            0 <= k < tree[ino - 1].children.len() ==> (#[trigger] child_entries(tree, ino, 0)[k]).ino
                == tree[ino - 1].children[k] && child_entries(tree, ino, 0)[k].cookie == k + 2,
        forall|j: int, k: int|
            0 <= j < k < tree[ino - 1].children.len() ==> (#[trigger] child_entries(
                tree,
                ino,
                0,
            )[j]).ino != (#[trigger] child_entries(tree, ino, 0)[k]).ino && child_entries(
                tree,
                ino,
                0,
            )[j].cookie < child_entries(tree, ino, 0)[k].cookie,
        offset <= tree[ino - 1].children.len() ==> child_entries(tree, ino, offset)
            == child_entries(tree, ino, 0).subrange(
            offset as int,
            tree[ino - 1].children.len() as int,
        ),
        offset > tree[ino - 1].children.len() ==> child_entries(tree, ino, offset).len() == 0,
{
    let children = tree[ino - 1].children;
    let all = child_entries(tree, ino, 0);
    if children.len() > 0 {
        lemma_children_bound(tree, ino - 1, 0);
    }
    assert forall|j: int, k: int| 0 <= j < k < children.len() implies (#[trigger] all[j]).ino != (
    #[trigger] all[k]).ino && all[j].cookie < all[k].cookie by {
        assert(children[j] < children[k]);
    }
    if offset <= children.len() {
        assert(child_entries(tree, ino, offset) =~= all.subrange(
            offset as int,
            children.len() as int,
        ));
    }
}

/// A listing from the start begins with `.` at cookie 1 and `..` at cookie
/// 2; one from position 1 begins with `..`; a later one has neither. `..`
/// leads to the parent, and from the root, which alone has none, to the
/// root.
pub proof fn lemma_readdir_links(tree: Seq<NodeModel>, ino: u64, offset: u64)
    requires
        model_wf(tree),
        1 <= ino <= tree.len(),
    ensures
        offset == 0 ==> link_entries(tree, ino, offset) == seq![
            link_entry(ino, 1, seq![DOT]),
            link_entry(
                if ino == ROOT_INODE {
                    ROOT_INODE
                } else {
                    tree[ino - 1].parent->Some_0
                },
                2,
                seq![DOT, DOT],
            ),
        ],
        offset == 1 ==> link_entries(tree, ino, offset) == seq![
            link_entry(
                if ino == ROOT_INODE {
                    ROOT_INODE
                } else {
                    tree[ino - 1].parent->Some_0
                },
                2,
                seq![DOT, DOT],
            ),
        ],
        offset >= 2 ==> link_entries(tree, ino, offset) == Seq::<DirEntryView>::empty(),
        ino != ROOT_INODE ==> tree[ino - 1].parent is Some,
{
    let up = link_entry(
        if ino == ROOT_INODE {
            ROOT_INODE
        } else {
            tree[ino - 1].parent->Some_0
        },
        2,
        seq![DOT, DOT],
    );
    if ino != ROOT_INODE {
        assert(tree[ino - 1].parent is Some);
    }
    if offset == 0 {
        assert(link_entries(tree, ino, offset) =~= seq![link_entry(ino, 1, seq![DOT]), up]);
    } else if offset == 1 {
        assert(link_entries(tree, ino, offset) =~= seq![up]);
    } else {
        assert(link_entries(tree, ino, offset) =~= Seq::<DirEntryView>::empty());
    }
}

/// Every read of a file is a window of the file's whole plaintext: where
/// the file can be read in full, a read of `size` bytes at `offset`
/// succeeds and answers with those bytes of the whole, as far as it has
/// them.
#[verifier::spinoff_prover]
pub proof fn lemma_read_is_window(
    a: ArchiveView,
    data: Seq<u8>,
    tree: Seq<NodeModel>,
    ino: u64,
    offset: u64,
    size: u32,
)
    requires
        1 <= ino <= tree.len(),
        tree[ino - 1].data is ArchivedFile,
        entry_read(a, data, tree[ino - 1].data->ArchivedFile_1 as int, None) is Ok,
    ensures
        spec_read(a, data, tree, ino, offset, size) == Ok::<Seq<u8>, Error>(
            window_of(
                entry_read(a, data, tree[ino - 1].data->ArchivedFile_1 as int, None)->Ok_0,
                offset,
                size,
            ),
        ),
{
    let index = tree[ino - 1].data->ArchivedFile_1 as int;
    let length = a.entries[index].length as nat;
    let mbs = a.max_block_size();
    let count = block_count(length, mbs);
    let whole = entry_blocks(a, data, index, count)->Ok_0;
    let want = wanted(offset, size);
    let n = blocks_wanted(length, mbs, Some(want));
    lemma_blocks_prefix(a, data, index, n, count);
    let buf = entry_blocks(a, data, index, n)->Ok_0;
    lemma_entry_blocks_len(a, data, index, n);
    lemma_entry_blocks_len(a, data, index, count);
    lemma_block_count_is_ceiling(length, mbs);
    lemma_block_count_is_ceiling(want as nat, mbs);
    assert(whole.len() == length);
    assert(buf.len() <= length);
    assert(buf.len() >= want || buf.len() == length) by {
        let needed = block_count(want as nat, mbs);
        if count == 0 {
        } else if needed == 0 {
            assert(1 * mbs == mbs);
        } else if needed < count {
        } else {
        }
    }
    assert(window_of(buf, offset, size) =~= window_of(whole, offset, size));
}

/// The plaintext of the first `n` slots of a file, each read on its own and
/// the answers joined.
pub open spec fn slots_joined(
    a: ArchiveView,
    data: Seq<u8>,
    tree: Seq<NodeModel>,
    ino: u64,
    n: nat,
) -> Seq<u8>
    decreases n,
{
    if n == 0 {
        Seq::empty()
    } else {
        slots_joined(a, data, tree, ino, (n - 1) as nat) + spec_read(
            a,
            data,
            tree,
            ino,
            ((n - 1) * CACHE_SLOT) as u64,
            CACHE_SLOT as u32,
        )->Ok_0
    }
}

/// Reading a file slot by slot and joining the answers gives the first
/// `n` slots of what one read of the whole file gives.
#[verifier::spinoff_prover]
pub proof fn lemma_slots_join(
    a: ArchiveView,
    data: Seq<u8>,
    tree: Seq<NodeModel>,
    ino: u64,
    n: nat,
)
    requires
        1 <= ino <= tree.len(),
        tree[ino - 1].data is ArchivedFile,
        a.entries[tree[ino - 1].data->ArchivedFile_1 as int].length <= u32::MAX,
        entry_read(a, data, tree[ino - 1].data->ArchivedFile_1 as int, None) is Ok,
        n == 0 || (n - 1) * CACHE_SLOT < a.entries[tree[ino - 1].data->ArchivedFile_1 as int].length,
    ensures
        spec_read(
            a,
            data,
            tree,
            ino,
            0,
            a.entries[tree[ino - 1].data->ArchivedFile_1 as int].length as u32,
        ) is Ok,
        slots_joined(a, data, tree, ino, n) == window_of(
            spec_read(
                a,
                data,
                tree,
                ino,
                0,
                a.entries[tree[ino - 1].data->ArchivedFile_1 as int].length as u32,
            )->Ok_0,
            0,
            if n * CACHE_SLOT <= u32::MAX {
                (n * CACHE_SLOT) as u32
            } else {
                u32::MAX
            },
        ),
    decreases n,
{
    let index = tree[ino - 1].data->ArchivedFile_1 as int;
    let length = a.entries[index].length;
    let whole = entry_read(a, data, index, None)->Ok_0;
    lemma_full_read_length(a, data, index);
    lemma_read_is_window(a, data, tree, ino, 0, length as u32);
    assert(window_of(whole, 0, length as u32) =~= whole);
    if n == 0 {
        assert(slots_joined(a, data, tree, ino, n).len() == 0);
        assert(0 * CACHE_SLOT == 0);
        assert(window_of(whole, 0, 0) =~= Seq::<u8>::empty());
    } else {
        let k = (n - 1) as nat;
        assert(k == 0 || (k - 1) * CACHE_SLOT < length) by {
            if k > 0 {
                assert((k - 1) * CACHE_SLOT <= k * CACHE_SLOT) by (nonlinear_arith)
                    requires
                        k >= 1,
                ;
            }
        }
        lemma_slots_join(a, data, tree, ino, k);
        assert(n * CACHE_SLOT == k * CACHE_SLOT + CACHE_SLOT) by (nonlinear_arith)
            requires
                n == k + 1,
        ;
        lemma_read_is_window(a, data, tree, ino, (k * CACHE_SLOT) as u64, CACHE_SLOT as u32);
        let before = slots_joined(a, data, tree, ino, k);
        let slot = window_of(whole, (k * CACHE_SLOT) as u64, CACHE_SLOT as u32);
        let upto: u32 = if n * CACHE_SLOT <= u32::MAX {
            (n * CACHE_SLOT) as u32
        } else {
            u32::MAX
        };
        assert(before + slot =~= window_of(whole, 0, upto));
    }
}

/// Reading a file in slots of the cache's size, from the first to the one
/// that holds the file's last byte, and joining the answers gives the same
/// bytes as one read of the whole file.
pub proof fn lemma_slot_reads_make_the_file(
    a: ArchiveView,
    data: Seq<u8>,
    tree: Seq<NodeModel>,
    ino: u64,
)
    requires
        1 <= ino <= tree.len(),
        tree[ino - 1].data is ArchivedFile,
        a.entries[tree[ino - 1].data->ArchivedFile_1 as int].length <= u32::MAX,
        entry_read(a, data, tree[ino - 1].data->ArchivedFile_1 as int, None) is Ok,
    ensures
        slots_joined(
            a,
            data,
            tree,
            ino,
            block_count(
                a.entries[tree[ino - 1].data->ArchivedFile_1 as int].length as nat,
                CACHE_SLOT as nat,
            ),
        ) == spec_read(
            a,
            data,
            tree,
            ino,
            0,
            a.entries[tree[ino - 1].data->ArchivedFile_1 as int].length as u32,
        )->Ok_0,
{
    let index = tree[ino - 1].data->ArchivedFile_1 as int;
    let length = a.entries[index].length;
    let n = block_count(length as nat, CACHE_SLOT as nat);
    lemma_block_count_is_ceiling(length as nat, CACHE_SLOT as nat);
    lemma_slots_join(a, data, tree, ino, n);
    let whole = entry_read(a, data, index, None)->Ok_0;
    lemma_full_read_length(a, data, index);
    lemma_read_is_window(a, data, tree, ino, 0, length as u32);
    assert(window_of(whole, 0, length as u32) =~= whole);
    let upto: u32 = if n * CACHE_SLOT <= u32::MAX {
        (n * CACHE_SLOT) as u32
    } else {
        u32::MAX
    };
    assert(window_of(whole, 0, upto) =~= whole);
}

/// A read that starts at the end of a file answers with no bytes, and not
/// with an error.
pub proof fn lemma_read_at_end(a: ArchiveView, data: Seq<u8>, tree: Seq<NodeModel>, ino: u64)
    requires
        1 <= ino <= tree.len(),
        tree[ino - 1].data is ArchivedFile,
        entry_read(a, data, tree[ino - 1].data->ArchivedFile_1 as int, None) is Ok,
    ensures
        spec_read(
            a,
            data,
            tree,
            ino,
            a.entries[tree[ino - 1].data->ArchivedFile_1 as int].length,
            1,
        ) == Ok::<Seq<u8>, Error>(Seq::empty()),
{
    let index = tree[ino - 1].data->ArchivedFile_1 as int;
    let length = a.entries[index].length;
    let whole = entry_read(a, data, index, None)->Ok_0;
    lemma_full_read_length(a, data, index);
    lemma_read_is_window(a, data, tree, ino, length, 1);
    assert(window_of(whole, length, 1) =~= Seq::<u8>::empty());
}

/// After a read from the start of a file of at least a cache slot's length
/// the file is cached, and reading the same again gives the same bytes.
pub proof fn lemma_second_read_agrees(
    cached: Map<u64, Seq<u8>>,
    a: ArchiveView,
    data: Seq<u8>,
    tree: Seq<NodeModel>,
    ino: u64,
    size: u32,
)
    requires
        cache_coherent(cached, a, data, tree),
        size <= CACHE_SLOT,
        spec_read(a, data, tree, ino, 0, size) is Ok,
        a.entries[tree[ino - 1].data->ArchivedFile_1 as int].length >= CACHE_SLOT,
    ensures
        cache_after(cached, a, data, tree, ino, 0, size).contains_key(ino),
        spec_read(a, data, tree, ino, 0, size) == Ok::<Seq<u8>, Error>(
            cache_after(cached, a, data, tree, ino, 0, size)[ino].subrange(0, size as int),
        ),
{
    let index = tree[ino - 1].data->ArchivedFile_1 as int;
    let length = a.entries[index].length as nat;
    let mbs = a.max_block_size();
    let n = blocks_wanted(length, mbs, Some(wanted(0, size)));
    lemma_block_count_is_ceiling(length, mbs);
    assert(block_count(length, mbs) >= 1);
    assert(n >= 1);
    lemma_blocks_prefix(a, data, index, 1, n);
    lemma_first_block_len(a, data, index);
    lemma_entry_blocks_len(a, data, index, n);
    let buf = entry_blocks(a, data, index, n)->Ok_0;
    let first = entry_blocks(a, data, index, 1)->Ok_0;
    assert(first.len() >= CACHE_SLOT);
    assert(buf.len() >= CACHE_SLOT);
    let after = cache_after(cached, a, data, tree, ino, 0, size);
    assert(after.contains_key(ino));
    lemma_cache_fill(cached, a, data, tree, ino, 0, size);
    lemma_cache_serves(after, a, data, tree, ino, size);
}

/// The file of an entry whose path is a single name hangs below the root,
/// and a lookup of that name at the root finds a file.
#[verifier::spinoff_prover]
pub proof fn lemma_top_level_entry(
    a: ArchiveView,
    tree: Seq<NodeModel>,
    entry: usize,
    name: Seq<u8>,
)
    requires
        model_wf(tree),
        entry_placed(tree, seq![name], entry),
    ensures
        exists|ino: u64|
            2 <= ino <= tree.len() && (#[trigger] tree[ino - 1]).data == InodeView::ArchivedFile(
                name,
                entry,
            ) && tree[ino - 1].parent == Some(ROOT_INODE),
        spec_lookup(a, tree, ROOT_INODE, name) is Ok,
{
    let comps = seq![name];
    let ino = choose|ino: u64| #[trigger] placed_at(tree, ino, comps, entry);
    assert(comps.last() == name);
    assert(comps.drop_last() =~= Seq::<Seq<u8>>::empty());
    assert(spells(tree, ino, comps));
    let above = tree[ino - 1].parent->Some_0;
    assert(spells(tree, above, comps.drop_last()));
    assert(above == ROOT_INODE);
    assert(tree[ino - 1].parent == Some(ROOT_INODE));
    let children = tree[0].children;
    assert(children.contains(ino));
    let at = choose|at: int| 0 <= at < children.len() && children[at] == ino;
    lemma_first_named(tree, children, name);
    if first_named(tree, children, name) is None {
        assert(tree[children[at] - 1].data.name() != name);
    }
    let found = first_named(tree, children, name)->Some_0;
    let i = choose|i: int|
        0 <= i < children.len() && #[trigger] children[i] == found && tree[found - 1].data.name()
            == name;
    assert(tree[0].children[i] == found);
}

/// Where the files stand in the order of their entries, an entry has one
/// file at most, and the file of an earlier entry has the smaller inode.
pub proof fn lemma_one_file_per_entry(tree: Seq<NodeModel>, first: u64, second: u64)
    requires
        files_ordered(tree),
        1 <= first <= tree.len(),
        1 <= second <= tree.len(),
        tree[first - 1].data is ArchivedFile,
        tree[second - 1].data is ArchivedFile,
    ensures
        tree[first - 1].data->ArchivedFile_1 == tree[second - 1].data->ArchivedFile_1 ==> first
            == second,
        tree[first - 1].data->ArchivedFile_1 < tree[second - 1].data->ArchivedFile_1 <==> first
            < second,
{
    let x = first - 1;
    let y = second - 1;
    if x < y {
        assert(tree[x].data->ArchivedFile_1 < tree[y].data->ArchivedFile_1);
    } else if y < x {
        assert(tree[y].data->ArchivedFile_1 < tree[x].data->ArchivedFile_1);
    }
}

} // verus!
