//! Laying the archived paths out as a tree of inodes.
//!
//! Every entry's path is cut at the slashes. Its last component becomes a
//! file; the components before it become folders, and a folder that an
//! earlier path has created is shared.

use vstd::prelude::*;
use crate::format::ArchiveFlags;
use crate::manifest::lemma_split_nonempty;
use crate::manifest::lemma_split_pieces_plain;
use crate::manifest::lemma_split_plain_run;
use crate::manifest::manifest_name;
use crate::manifest::spec_split;
use crate::manifest::split;
use crate::manifest::strings_of;
use crate::tree::DOT;
use crate::tree::extends;
use crate::tree::Inode;
use crate::tree::InodeData;
use crate::tree::InodeTree;
use crate::tree::InodeView;
use crate::tree::lemma_attach_extends;
use crate::tree::lemma_attach_under_folder;
use crate::tree::lemma_extends_same;
use crate::tree::lemma_extends_twice;
use crate::tree::model_attach;
use crate::tree::model_root;
use crate::tree::model_wf;
use crate::tree::NodeModel;
use crate::tree::ROOT_INODE;
use crate::tree::under_folders;

verus! {

/// The slash that separates the components of a path.
pub const SLASH: u8 = 0x2F;

/// The pieces that are not empty, in their order.
pub open spec fn spec_nonempty(pieces: Seq<Seq<u8>>) -> Seq<Seq<u8>>
    decreases pieces.len(),
{
    if pieces.len() == 0 {
        Seq::empty()
    } else if pieces.last().len() == 0 {
        spec_nonempty(pieces.drop_last())
    } else {
        spec_nonempty(pieces.drop_last()).push(pieces.last())
    }
}

/// The components of a path: what stands between its slashes, without the
/// empty pieces that a leading, trailing or doubled slash leaves.
pub open spec fn spec_components(path: Seq<u8>) -> Seq<Seq<u8>> {
    spec_nonempty(spec_split(path, SLASH))
}

/// Every component is one of the pieces, and none is empty.
pub proof fn lemma_nonempty_members(pieces: Seq<Seq<u8>>)
    ensures
        forall|k: int|
            0 <= k < spec_nonempty(pieces).len() ==> (#[trigger] spec_nonempty(pieces)[k]).len() > 0
                && pieces.contains(spec_nonempty(pieces)[k]),
    decreases pieces.len(),
{
    if pieces.len() > 0 {
        let before = pieces.drop_last();
        lemma_nonempty_members(before);
        let kept = spec_nonempty(pieces);
        assert forall|k: int| 0 <= k < kept.len() implies (#[trigger] kept[k]).len() > 0
            && pieces.contains(kept[k]) by {
            if k < spec_nonempty(before).len() {
                let piece = spec_nonempty(before)[k];
                assert(before.contains(piece));
                let at = choose|at: int| 0 <= at < before.len() && before[at] == piece;
                assert(pieces[at] == piece);
            } else {
                assert(pieces[pieces.len() - 1] == pieces.last());
            }
        }
    }
}

/// No component of a path is empty, and none holds a slash.
pub proof fn lemma_components_plain(path: Seq<u8>)
    ensures
        forall|k: int|
            0 <= k < spec_components(path).len() ==> (#[trigger] spec_components(path)[k]).len()
                > 0,
        forall|k: int, j: int|
            0 <= k < spec_components(path).len() && 0 <= j < spec_components(path)[k].len()
                ==> #[trigger] spec_components(path)[k][j] != SLASH,
{
    let pieces = spec_split(path, SLASH);
    lemma_nonempty_members(pieces);
    lemma_split_pieces_plain(path, SLASH);
    assert forall|k: int, j: int|
        0 <= k < spec_components(path).len() && 0 <= j < spec_components(path)[k].len() implies #[trigger] spec_components(
        path,
    )[k][j] != SLASH by {
        let comp = spec_components(path)[k];
        assert(pieces.contains(comp));
        let at = choose|at: int| 0 <= at < pieces.len() && pieces[at] == comp;
        assert(pieces[at][j] != SLASH);
    }
}

/// A path that is empty or ends in a slash, followed by a name and a
/// slash, has the components of the path and then the name.
pub proof fn lemma_components_of_prefix(path: Seq<u8>, name: Seq<u8>)
    requires
        spec_split(path, SLASH).last().len() == 0,
        name.len() > 0,
        forall|j: int| 0 <= j < name.len() ==> name[j] != SLASH,
    ensures
        spec_components(path + name + seq![SLASH]) == spec_components(path).push(name),
        spec_split(path + name + seq![SLASH], SLASH).last().len() == 0,
{
    lemma_split_nonempty(path, SLASH);
    let pieces = spec_split(path, SLASH);
    lemma_split_plain_run(path, name, SLASH);
    let named = pieces.drop_last().push(pieces.last() + name);
    assert(pieces.last() + name =~= name);
    let whole = path + name + seq![SLASH];
    assert(whole.drop_last() =~= path + name);
    assert(whole.last() == SLASH);
    let closed = named.push(Seq::<u8>::empty());
    assert(spec_split(whole, SLASH) == closed);
    assert(closed.drop_last() =~= named);
    assert(named.drop_last() =~= pieces.drop_last());
    assert(spec_nonempty(closed) == spec_nonempty(named));
    assert(spec_nonempty(named) == spec_nonempty(pieces.drop_last()).push(name));
    assert(spec_nonempty(pieces) == spec_nonempty(pieces.drop_last()));
}

/// A name without slashes is its own only component, with or without a
/// slash before it.
pub proof fn lemma_components_of_name(name: Seq<u8>)
    requires
        name.len() > 0,
        forall|j: int| 0 <= j < name.len() ==> name[j] != SLASH,
    ensures
        spec_components(name) == seq![name],
        spec_components(seq![SLASH] + name) == seq![name],
{
    let none = Seq::<u8>::empty();
    assert(spec_split(none, SLASH) == seq![none]);
    lemma_split_plain_run(none, name, SLASH);
    assert(none + name =~= name);
    assert(seq![none].drop_last().push(seq![none].last() + name) =~= seq![name]);
    assert(spec_split(name, SLASH) == seq![name]);
    let nothing = Seq::<Seq<u8>>::empty();
    assert(spec_nonempty(nothing) =~= nothing);
    assert(seq![name].drop_last() =~= nothing);
    assert(seq![name].last() == name);
    assert(spec_nonempty(seq![name]) =~= seq![name]);

    let slash = seq![SLASH];
    assert(slash.drop_last() =~= none);
    assert(spec_split(slash, SLASH) == seq![none].push(none));
    lemma_split_plain_run(slash, name, SLASH);
    let pieces = seq![none].push(none);
    assert(pieces.drop_last().push(pieces.last() + name) =~= seq![none, name]);
    assert(spec_split(slash + name, SLASH) == seq![none, name]);
    assert(seq![none, name].drop_last() =~= seq![none]);
    assert(seq![none, name].last() == name);
    assert(seq![none].drop_last() =~= nothing);
    assert(seq![none].last() == none);
    assert(spec_nonempty(seq![none]) =~= nothing);
    assert(spec_nonempty(seq![none, name]) =~= seq![name]);
}

/// The manifest's own name has one component, `manifest.txt`, whether or
/// not a slash stands before it.
pub proof fn lemma_manifest_components(flags: ArchiveFlags)
    ensures
        spec_components(manifest_name(flags)) == seq![manifest_name(ArchiveFlags::RelativePaths)],
{
    let relative = manifest_name(ArchiveFlags::RelativePaths);
    assert(relative.len() == 12);
    assert forall|j: int| 0 <= j < relative.len() implies relative[j] != SLASH by {
        assert(relative[0] == 0x6D && relative[1] == 0x61 && relative[2] == 0x6E && relative[3]
            == 0x69);
        assert(relative[4] == 0x66 && relative[5] == 0x65 && relative[6] == 0x73 && relative[7]
            == 0x74);
        assert(relative[8] == 0x2E && relative[9] == 0x74 && relative[10] == 0x78
            && relative[11] == 0x74);
    }
    lemma_components_of_name(relative);
}

/// Cuts a path into its components.
#[verifier::spinoff_prover]
pub fn components(path: &[u8]) -> (out: Vec<Vec<u8>>)
    ensures
        strings_of(out@) == spec_components(path@),
{
    let pieces = split(path, SLASH);
    let mut out: Vec<Vec<u8>> = Vec::new();
    let mut i: usize = 0;
    while i < pieces.len()
        invariant
            i <= pieces@.len(),
            strings_of(out@) == spec_nonempty(strings_of(pieces@).subrange(0, i as int)),
        decreases pieces@.len() - i,
    {
        proof {
            let upto = strings_of(pieces@).subrange(0, i + 1);
            assert(upto.drop_last() =~= strings_of(pieces@).subrange(0, i as int));
            assert(upto.last() == pieces@[i as int]@);
        }
        if pieces[i].len() > 0 {
            let ghost done = strings_of(out@);
            let piece = pieces[i].clone();
            assert(piece@ =~= pieces@[i as int]@);
            out.push(piece);
            assert(strings_of(out@) =~= done.push(piece@));
        }
        i = i + 1;
    }
    assert(strings_of(pieces@).subrange(0, i as int) =~= strings_of(pieces@));
    out
}

/// The tree under construction: the inodes so far, and the folders so far
/// with the path prefix that each one stands for.
pub struct BuildModel {
    pub nodes: Seq<NodeModel>,
    pub folders: Seq<(Seq<u8>, u64)>,
}

/// The folder recorded for a path prefix: the first one, should there be
/// several.
pub open spec fn find_folder(folders: Seq<(Seq<u8>, u64)>, prefix: Seq<u8>) -> Option<u64>
    decreases folders.len(),
{
    if folders.len() == 0 {
        None
    } else {
        match find_folder(folders.drop_last(), prefix) {
            Some(ino) => Some(ino),
            None => if folders.last().0 == prefix {
                Some(folders.last().1)
            } else {
                None
            },
        }
    }
}

/// A folder found among the first recorded ones is the one found among all.
pub proof fn lemma_find_folder_extends(folders: Seq<(Seq<u8>, u64)>, prefix: Seq<u8>, n: int)
    requires
        0 <= n <= folders.len(),
        find_folder(folders.subrange(0, n), prefix) is Some,
    ensures
        find_folder(folders, prefix) == find_folder(folders.subrange(0, n), prefix),
    decreases folders.len(),
{
    if n < folders.len() {
        assert(folders.drop_last().subrange(0, n) =~= folders.subrange(0, n));
        lemma_find_folder_extends(folders.drop_last(), prefix, n);
    } else {
        assert(folders.subrange(0, n) =~= folders);
    }
}

/// Adds the components of one path from component `j` on, below `parent`,
/// whose path prefix is `path`. The last component becomes the file of entry
/// `entry`. Each component before it becomes a folder, unless a folder is
/// already recorded for the prefix that ends with it; the walk goes on
/// below that folder.
pub open spec fn add_components(
    b: BuildModel,
    comps: Seq<Seq<u8>>,
    j: int,
    parent: u64,
    path: Seq<u8>,
    entry: usize,
) -> BuildModel
    decreases comps.len() - j,
{
    if j < 0 || j >= comps.len() {
        b
    } else if j == comps.len() - 1 {
        BuildModel {
            nodes: model_attach(b.nodes, parent, InodeView::ArchivedFile(comps[j], entry)),
            folders: b.folders,
        }
    } else {
        let prefix = path + comps[j] + seq![SLASH];
        match find_folder(b.folders, prefix) {
            Some(ino) => add_components(b, comps, j + 1, ino, prefix, entry),
            None => {
                let ino = (b.nodes.len() + 1) as u64;
                add_components(
                    BuildModel {
                        nodes: model_attach(b.nodes, parent, InodeView::Folder(comps[j])),
                        folders: b.folders.push((prefix, ino)),
                    },
                    comps,
                    j + 1,
                    ino,
                    prefix,
                    entry,
                )
            },
        }
    }
}

/// Adds the path of one entry, starting at the root.
pub open spec fn add_entry(b: BuildModel, name: Seq<u8>, entry: usize) -> BuildModel {
    add_components(b, spec_components(name), 0, ROOT_INODE, Seq::empty(), entry)
}

/// The tree after the first `n` names have been added, in order, to the
/// tree that holds only the root.
pub open spec fn build_upto(names: Seq<Seq<u8>>, n: nat) -> BuildModel
    decreases n,
{
    if n == 0 {
        BuildModel { nodes: model_root(), folders: seq![(seq![DOT], ROOT_INODE)] }
    } else {
        add_entry(build_upto(names, (n - 1) as nat), names[n - 1], (n - 1) as usize)
    }
}

/// The inode tree of a list of entry names.
pub open spec fn spec_tree(names: Seq<Seq<u8>>) -> Seq<NodeModel> {
    build_upto(names, names.len()).nodes
}

/// The path prefix that a folder stands for: the names on the way from the
/// root to it, each followed by a slash. The root's prefix is empty.
pub open spec fn prefix_of(m: Seq<NodeModel>, ino: u64) -> Seq<u8>
    decreases ino,
{
    if 2 <= ino <= m.len() && m[ino - 1].parent is Some && m[ino - 1].parent->Some_0 < ino {
        prefix_of(m, m[ino - 1].parent->Some_0) + m[ino - 1].data.name() + seq![SLASH]
    } else {
        Seq::empty()
    }
}

/// The way from the root to an inode leads through folders and spells the
/// components: each inode on the way has the name of its component. The
/// root is where no component is left.
pub open spec fn spells(m: Seq<NodeModel>, ino: u64, comps: Seq<Seq<u8>>) -> bool
    decreases comps.len(),
{
    if comps.len() == 0 {
        ino == ROOT_INODE
    } else {
        &&& 2 <= ino <= m.len()
        &&& m[ino - 1].data.name() == comps.last()
        &&& m[ino - 1].parent is Some
        &&& 1 <= m[ino - 1].parent->Some_0 < ino
        &&& m[m[ino - 1].parent->Some_0 - 1].data is Folder
        &&& spells(m, m[ino - 1].parent->Some_0, comps.drop_last())
    }
}

/// Growth of the tree changes the path prefix of no inode.
pub proof fn lemma_prefix_extends(earlier: Seq<NodeModel>, later: Seq<NodeModel>, ino: u64)
    requires
        extends(earlier, later),
        ino <= earlier.len(),
    ensures
        prefix_of(later, ino) == prefix_of(earlier, ino),
    decreases ino,
{
    if 2 <= ino {
        assert(later[ino - 1].data == earlier[ino - 1].data);
        if earlier[ino - 1].parent is Some && earlier[ino - 1].parent->Some_0 < ino {
            lemma_prefix_extends(earlier, later, earlier[ino - 1].parent->Some_0);
        }
    }
}

/// Growth of the tree changes no way from the root.
pub proof fn lemma_spells_extends(
    earlier: Seq<NodeModel>,
    later: Seq<NodeModel>,
    ino: u64,
    comps: Seq<Seq<u8>>,
)
    requires
        extends(earlier, later),
        spells(earlier, ino, comps),
    ensures
        spells(later, ino, comps),
    decreases comps.len(),
{
    if comps.len() > 0 {
        let parent = earlier[ino - 1].parent->Some_0;
        assert(later[ino - 1].data == earlier[ino - 1].data);
        assert(later[parent - 1].data == earlier[parent - 1].data);
        lemma_spells_extends(earlier, later, parent, comps.drop_last());
    }
}

/// The file of entry `entry` stands at inode `ino`, at the end of the way
/// that the components spell.
pub open spec fn placed_at(m: Seq<NodeModel>, ino: u64, comps: Seq<Seq<u8>>, entry: usize) -> bool {
    &&& 2 <= ino <= m.len()
    &&& m[ino - 1].data == InodeView::ArchivedFile(comps.last(), entry)
    &&& spells(m, ino, comps)
}

/// An entry whose path has components has its file in the tree, where the
/// components lead.
pub open spec fn entry_placed(m: Seq<NodeModel>, comps: Seq<Seq<u8>>, entry: usize) -> bool {
    comps.len() > 0 ==> exists|ino: u64| #[trigger] placed_at(m, ino, comps, entry)
}

/// The tree mirrors the names: every entry's file stands where the entry's
/// path leads.
pub open spec fn mirrors(m: Seq<NodeModel>, names: Seq<Seq<u8>>, upto: nat) -> bool {
    forall|k: int|
        0 <= k < upto ==> entry_placed(m, spec_components(#[trigger] names[k]), k as usize)
}

/// A file stays where it is when the tree grows.
pub proof fn lemma_placed_extends(
    earlier: Seq<NodeModel>,
    later: Seq<NodeModel>,
    comps: Seq<Seq<u8>>,
    entry: usize,
)
    requires
        extends(earlier, later),
        entry_placed(earlier, comps, entry),
    ensures
        entry_placed(later, comps, entry),
{
    if comps.len() > 0 {
        let ino = choose|ino: u64| #[trigger] placed_at(earlier, ino, comps, entry);
        lemma_spells_extends(earlier, later, ino, comps);
        assert(later[ino - 1].data == earlier[ino - 1].data);
        assert(placed_at(later, ino, comps, entry));
    }
}

/// No folder holds two folders of one name.
pub open spec fn folders_shared(m: Seq<NodeModel>) -> bool {
    forall|f: u64, g: u64|
        2 <= f <= m.len() && 2 <= g <= m.len() && (#[trigger] m[f - 1]).data is Folder && (
        #[trigger] m[g - 1]).data is Folder && m[f - 1].parent == m[g - 1].parent && m[f
            - 1].data.name() == m[g - 1].data.name() ==> f == g
}

/// What the record of folders has to do with the tree: but for the first
/// record, which is the root's, every record holds a folder of the tree
/// under the path prefix that the folder stands for, and the components of
/// that prefix lead to the folder; no prefix is recorded twice; and every
/// folder of the tree but the root is recorded.
pub open spec fn records_ok(b: BuildModel) -> bool {
    &&& b.nodes.len() >= 1
    &&& b.nodes[0].data is Folder
    &&& b.folders.len() >= 1
    &&& b.folders[0] == (seq![DOT], ROOT_INODE)
    &&& forall|k: int|
        1 <= k < b.folders.len() ==> {
            let record = #[trigger] b.folders[k];
            &&& 2 <= record.1 <= b.nodes.len()
            &&& b.nodes[record.1 - 1].data is Folder
            &&& record.0 == prefix_of(b.nodes, record.1)
            &&& record.0.len() > 0
            &&& record.0.last() == SLASH
            &&& spells(b.nodes, record.1, spec_components(record.0))
        }
    &&& forall|j: int, k: int|
        0 <= j < k < b.folders.len() ==> (#[trigger] b.folders[j]).0 != (#[trigger] b.folders[k]).0
    &&& forall|f: u64|
        2 <= f <= b.nodes.len() && (#[trigger] b.nodes[f - 1]).data is Folder ==> exists|k: int|
            1 <= k < b.folders.len() && (#[trigger] b.folders[k]).1 == f
}

/// A folder that is found is recorded under the prefix asked for; where
/// none is found, the prefix is not recorded.
pub proof fn lemma_find_folder(folders: Seq<(Seq<u8>, u64)>, prefix: Seq<u8>)
    ensures
        match find_folder(folders, prefix) {
            Some(ino) => exists|k: int|
                0 <= k < folders.len() && #[trigger] folders[k] == (prefix, ino),
            None => forall|k: int| 0 <= k < folders.len() ==> (#[trigger] folders[k]).0 != prefix,
        },
    decreases folders.len(),
{
    if folders.len() > 0 {
        let before = folders.drop_last();
        lemma_find_folder(before, prefix);
        match find_folder(before, prefix) {
            Some(ino) => {
                let k = choose|k: int| 0 <= k < before.len() && #[trigger] before[k] == (prefix, ino);
                assert(folders[k] == (prefix, ino));
            },
            None => {
                assert forall|k: int| 0 <= k < before.len() implies (#[trigger] folders[k]).0
                    != prefix by {
                    assert(before[k] == folders[k]);
                }
                if folders.last().0 == prefix {
                    assert(folders[folders.len() - 1] == (prefix, folders.last().1));
                }
            },
        }
    }
}

/// In a tree whose folders are recorded without repetition, no folder
/// holds two folders of one name.
#[verifier::spinoff_prover]
pub proof fn lemma_records_share(b: BuildModel)
    requires
        records_ok(b),
        model_wf(b.nodes),
    ensures
        folders_shared(b.nodes),
{
    let m = b.nodes;
    assert forall|f: u64, g: u64|
        2 <= f <= m.len() && 2 <= g <= m.len() && (#[trigger] m[f - 1]).data is Folder && (
        #[trigger] m[g - 1]).data is Folder && m[f - 1].parent == m[g - 1].parent && m[f
            - 1].data.name() == m[g - 1].data.name() implies f == g by {
        let j = choose|j: int| 1 <= j < b.folders.len() && (#[trigger] b.folders[j]).1 == f;
        let k = choose|k: int| 1 <= k < b.folders.len() && (#[trigger] b.folders[k]).1 == g;
        assert(m[f - 1].parent is Some && m[f - 1].parent->Some_0 < f);
        assert(m[g - 1].parent is Some && m[g - 1].parent->Some_0 < g);
        assert(prefix_of(m, f) == prefix_of(m, g));
        assert(b.folders[j].0 == b.folders[k].0);
        if j < k {
            assert(b.folders[j].0 != b.folders[k].0);
        } else if k < j {
            assert(b.folders[k].0 != b.folders[j].0);
        }
    }
}

/// Attaching a file keeps the record of folders in step with the tree.
#[verifier::spinoff_prover]
pub proof fn lemma_records_after_file(b: BuildModel, parent: u64, data: InodeView)
    requires
        records_ok(b),
        1 <= parent <= b.nodes.len(),
        b.nodes.len() < u64::MAX,
        data is ArchivedFile,
    ensures
        records_ok(BuildModel { nodes: model_attach(b.nodes, parent, data), folders: b.folders }),
{
    let after = BuildModel { nodes: model_attach(b.nodes, parent, data), folders: b.folders };
    lemma_attach_extends(b.nodes, parent, data);
    assert(after.nodes[0].data == b.nodes[0].data);
    assert forall|k: int| 1 <= k < after.folders.len() implies {
        let record = #[trigger] after.folders[k];
        &&& 2 <= record.1 <= after.nodes.len()
        &&& after.nodes[record.1 - 1].data is Folder
        &&& record.0 == prefix_of(after.nodes, record.1)
        &&& record.0.len() > 0
        &&& record.0.last() == SLASH
        &&& spells(after.nodes, record.1, spec_components(record.0))
    } by {
        let record = b.folders[k];
        lemma_prefix_extends(b.nodes, after.nodes, record.1);
        lemma_spells_extends(b.nodes, after.nodes, record.1, spec_components(record.0));
        assert(after.nodes[record.1 - 1].data == b.nodes[record.1 - 1].data);
    }
    assert forall|f: u64|
        2 <= f <= after.nodes.len() && (#[trigger] after.nodes[f - 1]).data is Folder implies exists|
        k: int,
    |
        1 <= k < after.folders.len() && (#[trigger] after.folders[k]).1 == f by {
        assert(f <= b.nodes.len());
        assert(after.nodes[f - 1].data == b.nodes[f - 1].data);
        assert(b.nodes[f - 1].data is Folder);
        let k = choose|k: int| 1 <= k < b.folders.len() && (#[trigger] b.folders[k]).1 == f;
        assert(after.folders[k].1 == f);
    }
}

/// Attaching a folder under a prefix that was not recorded, and recording
/// it, keeps the record of folders in step with the tree.
#[verifier::spinoff_prover]
pub proof fn lemma_records_after_folder(
    b: BuildModel,
    parent: u64,
    path: Seq<u8>,
    name: Seq<u8>,
    known: Seq<Seq<u8>>,
)
    requires
        records_ok(b),
        1 <= parent <= b.nodes.len(),
        b.nodes.len() < u64::MAX,
        b.nodes[parent - 1].data is Folder,
        path == prefix_of(b.nodes, parent),
        spells(b.nodes, parent, known),
        spec_components(path + name + seq![SLASH]) == known.push(name),
        find_folder(b.folders, path + name + seq![SLASH]) is None,
    ensures
        records_ok(
            BuildModel {
                nodes: model_attach(b.nodes, parent, InodeView::Folder(name)),
                folders: b.folders.push(
                    (path + name + seq![SLASH], (b.nodes.len() + 1) as u64),
                ),
            },
        ),
        spells(
            model_attach(b.nodes, parent, InodeView::Folder(name)),
            (b.nodes.len() + 1) as u64,
            known.push(name),
        ),
        prefix_of(
            model_attach(b.nodes, parent, InodeView::Folder(name)),
            (b.nodes.len() + 1) as u64,
        ) == path + name + seq![SLASH],
{
    let prefix = path + name + seq![SLASH];
    let ino = (b.nodes.len() + 1) as u64;
    let data = InodeView::Folder(name);
    let nodes = model_attach(b.nodes, parent, data);
    let after = BuildModel { nodes, folders: b.folders.push((prefix, ino)) };
    lemma_attach_extends(b.nodes, parent, data);
    lemma_find_folder(b.folders, prefix);
    lemma_prefix_extends(b.nodes, nodes, parent);
    lemma_spells_extends(b.nodes, nodes, parent, known);
    assert(nodes[0].data == b.nodes[0].data);
    assert(nodes[parent - 1].data == b.nodes[parent - 1].data);
    assert(known.push(name).drop_last() =~= known);
    assert(spells(nodes, ino, known.push(name)));
    assert(prefix_of(nodes, ino) == prefix);
    assert forall|k: int| 1 <= k < after.folders.len() implies {
        let record = #[trigger] after.folders[k];
        &&& 2 <= record.1 <= after.nodes.len()
        &&& after.nodes[record.1 - 1].data is Folder
        &&& record.0 == prefix_of(after.nodes, record.1)
        &&& record.0.len() > 0
        &&& record.0.last() == SLASH
        &&& spells(after.nodes, record.1, spec_components(record.0))
    } by {
        if k < b.folders.len() {
            let record = b.folders[k];
            lemma_prefix_extends(b.nodes, nodes, record.1);
            lemma_spells_extends(b.nodes, nodes, record.1, spec_components(record.0));
            assert(nodes[record.1 - 1].data == b.nodes[record.1 - 1].data);
        }
    }
    assert forall|j: int, k: int| 0 <= j < k < after.folders.len() implies (
    #[trigger] after.folders[j]).0 != (#[trigger] after.folders[k]).0 by {
        if k < b.folders.len() {
            assert(b.folders[j].0 != b.folders[k].0);
        } else {
            assert(b.folders[j].0 != prefix);
        }
    }
    assert forall|f: u64|
        2 <= f <= after.nodes.len() && (#[trigger] after.nodes[f - 1]).data is Folder implies exists|
        k: int,
    |
        1 <= k < after.folders.len() && (#[trigger] after.folders[k]).1 == f by {
        if f <= b.nodes.len() {
            assert(nodes[f - 1].data == b.nodes[f - 1].data);
            assert(b.nodes[f - 1].data is Folder);
            let k = choose|k: int| 1 <= k < b.folders.len() && (#[trigger] b.folders[k]).1 == f;
            assert(after.folders[k].1 == f);
        } else {
            assert(after.folders[b.folders.len() as int].1 == f);
        }
    }
}

/// Every file of the tree belongs to one of the first `n` entries.
pub open spec fn files_within(m: Seq<NodeModel>, n: nat) -> bool {
    forall|i: int|
        0 <= i < m.len() ==> ((#[trigger] m[i]).data matches InodeView::ArchivedFile(_, index)
            ==> index < n)
}

/// Files stand in the order of their entries: of two file inodes, the one
/// with the smaller number belongs to the earlier entry. So no entry has
/// two files.
pub open spec fn files_ordered(m: Seq<NodeModel>) -> bool {
    forall|x: int, y: int|
        0 <= x < y < m.len() && (#[trigger] m[x]).data is ArchivedFile && (
        #[trigger] m[y]).data is ArchivedFile ==> m[x].data->ArchivedFile_1 < m[y].data->ArchivedFile_1
}

/// An inode attached to a tree whose files all belong to entries before
/// `entry` keeps the files in the order of their entries, if it is a folder
/// or the file of entry `entry`.
pub proof fn lemma_attach_keeps_order(
    m: Seq<NodeModel>,
    parent: u64,
    data: InodeView,
    entry: usize,
)
    requires
        1 <= parent <= m.len(),
        files_ordered(m),
        files_within(m, entry as nat),
        data matches InodeView::ArchivedFile(_, index) ==> index == entry,
    ensures
        files_ordered(model_attach(m, parent, data)),
        files_within(model_attach(m, parent, data), (entry + 1) as nat),
        data is Folder ==> files_within(model_attach(m, parent, data), entry as nat),
{
    let after = model_attach(m, parent, data);
    lemma_attach_extends(m, parent, data);
    assert forall|x: int, y: int|
        0 <= x < y < after.len() && (#[trigger] after[x]).data is ArchivedFile && (
        #[trigger] after[y]).data is ArchivedFile implies after[x].data->ArchivedFile_1
        < after[y].data->ArchivedFile_1 by {
        assert(after[x].data == m[x].data);
        if y < m.len() {
            assert(after[y].data == m[y].data);
        } else {
            assert(after[y].data == data);
        }
    }
    assert forall|i: int| 0 <= i < after.len() implies ((#[trigger] after[i]).data matches InodeView::ArchivedFile(
        _,
        index,
    ) ==> index < entry + 1) by {
        if i < m.len() {
            assert(after[i].data == m[i].data);
        }
    }
    if data is Folder {
        assert forall|i: int| 0 <= i < after.len() implies ((#[trigger] after[i]).data matches InodeView::ArchivedFile(
            _,
            index,
        ) ==> index < entry) by {
            if i < m.len() {
                assert(after[i].data == m[i].data);
            }
        }
    }
}

/// The state of a tree under construction.
pub struct Builder {
    pub inodes: InodeTree,
    pub folder_paths: Vec<Vec<u8>>,
    pub folder_inodes: Vec<Inode>,
    /// Number of entries whose paths may be added.
    pub entries: usize,
}

impl Builder {
    /// The recorded folders, path prefix and inode side by side.
    pub open spec fn folders(&self) -> Seq<(Seq<u8>, u64)> {
        Seq::new(self.folder_paths@.len(), |i: int| (self.folder_paths@[i]@, self.folder_inodes@[i]))
    }

    /// The state as mathematical values.
    pub open spec fn model(&self) -> BuildModel {
        BuildModel { nodes: self.inodes.model(), folders: self.folders() }
    }

    /// The tree is well formed, the record of folders is in step with it,
    /// and every file belongs to one of the entries.
    pub open spec fn wf(&self) -> bool {
        &&& self.inodes.wf()
        &&& files_within(self.inodes.model(), self.entries as nat)
        &&& self.folder_paths@.len() == self.folder_inodes@.len()
        &&& forall|i: int|
            0 <= i < self.folder_inodes@.len() ==> 1 <= #[trigger] self.folder_inodes@[i]
                <= self.inodes.model().len()
        &&& records_ok(self.model())
        &&& under_folders(self.inodes.model())
    }

    /// A tree with the root folder alone, ready for the paths of `entries`
    /// entries.
    pub fn new(entries: usize) -> (b: Builder)
        ensures
            b.wf(),
            b.entries == entries,
            b.model() == build_upto(Seq::empty(), 0),
    {
        let inodes = InodeTree::new();
        let mut folder_paths: Vec<Vec<u8>> = Vec::new();
        let mut folder_inodes: Vec<Inode> = Vec::new();
        let mut dot: Vec<u8> = Vec::new();
        dot.push(DOT);
        assert(dot@ =~= seq![DOT]);
        folder_paths.push(dot);
        folder_inodes.push(ROOT_INODE);
        let b = Builder { inodes, folder_paths, folder_inodes, entries };
        assert(b.folders() =~= seq![(seq![DOT], ROOT_INODE)]);
        b
    }

    /// Looks a path prefix up among the recorded folders.
    pub fn lookup_folder(&self, prefix: &Vec<u8>) -> (r: Option<Inode>)
        requires
            self.wf(),
        ensures
            r == find_folder(self.folders(), prefix@),
            r matches Some(ino) ==> 1 <= ino <= self.inodes.model().len(),
    {
        let mut i: usize = 0;
        while i < self.folder_paths.len()
            invariant
                self.wf(),
                i <= self.folder_paths@.len(),
                find_folder(self.folders().subrange(0, i as int), prefix@) is None,
            decreases self.folder_paths@.len() - i,
        {
            proof {
                let upto = self.folders().subrange(0, i + 1);
                assert(upto.drop_last() =~= self.folders().subrange(0, i as int));
                assert(upto.last() == self.folders()[i as int]);
            }
            if same_bytes(self.folder_paths[i].as_slice(), prefix.as_slice()) {
                proof {
                    lemma_find_folder_extends(self.folders(), prefix@, i + 1);
                }
                return Some(self.folder_inodes[i]);
            }
            i = i + 1;
        }
        assert(self.folders().subrange(0, i as int) =~= self.folders());
        None
    }

    /// Adds the path of one entry to the tree. The tree grows, and the
    /// entry's file, if its path has any component, is the last inode.
    /// Added in the order of the entries, the files stand in that order.
    #[verifier::spinoff_prover]
    pub fn add_entry(&mut self, name: &[u8], entry: usize)
        requires
            old(self).wf(),
            entry < old(self).entries,
        ensures
            final(self).wf(),
            final(self).entries == old(self).entries,
            final(self).model() == add_entry(old(self).model(), name@, entry),
            extends(old(self).model().nodes, final(self).model().nodes),
            files_ordered(old(self).model().nodes) && files_within(
                old(self).model().nodes,
                entry as nat,
            ) ==> files_ordered(final(self).model().nodes) && files_within(
                final(self).model().nodes,
                (entry + 1) as nat,
            ),
            spec_components(name@).len() > 0 ==> placed_at(
                final(self).model().nodes,
                final(self).model().nodes.len() as u64,
                spec_components(name@),
                entry,
            ),
    {
        let comps = components(name);
        let ghost start = self.model();
        let ghost in_order = files_ordered(start.nodes) && files_within(start.nodes, entry as nat);
        let ghost pieces = strings_of(comps@);
        let mut path: Vec<u8> = Vec::new();
        let mut parent: Inode = ROOT_INODE;
        let mut j: usize = 0;
        proof {
            self.inodes.lemma_has_root();
            lemma_extends_same(start.nodes);
            let none = Seq::<u8>::empty();
            assert(spec_split(none, SLASH) == seq![none]);
            assert(seq![none].last() == none);
            assert(seq![none].drop_last() =~= Seq::<Seq<u8>>::empty());
            assert(spec_nonempty(Seq::<Seq<u8>>::empty()) =~= Seq::<Seq<u8>>::empty());
            assert(spec_components(none) =~= pieces.subrange(0, 0));
            assert(path@ =~= none);
        }
        while j < comps.len()
            invariant
                self.wf(),
                self.entries == old(self).entries,
                entry < self.entries,
                j <= comps@.len(),
                pieces == strings_of(comps@),
                pieces == spec_components(name@),
                1 <= parent <= self.inodes.model().len(),
                add_entry(start, name@, entry) == add_components(
                    self.model(),
                    pieces,
                    j as int,
                    parent,
                    path@,
                    entry,
                ),
                extends(start.nodes, self.inodes.model()),
                in_order ==> files_ordered(self.inodes.model()),
                in_order ==> files_within(self.inodes.model(), (entry + 1) as nat),
                in_order && j < comps@.len() ==> files_within(self.inodes.model(), entry as nat),
                j < comps@.len() ==> spec_components(path@) == pieces.subrange(0, j as int),
                j < comps@.len() ==> spec_split(path@, SLASH).last().len() == 0,
                j < comps@.len() ==> path@ == prefix_of(self.inodes.model(), parent),
                j < comps@.len() ==> spells(
                    self.inodes.model(),
                    parent,
                    pieces.subrange(0, j as int),
                ),
                j < comps@.len() ==> self.inodes.model()[parent - 1].data is Folder,
                j == comps@.len() && j > 0 ==> placed_at(
                    self.inodes.model(),
                    self.inodes.model().len() as u64,
                    pieces,
                    entry,
                ),
            decreases comps@.len() - j,
        {
            let comp = comps[j].clone();
            assert(comp@ =~= pieces[j as int]);
            let ghost before = self.model();
            let ghost known = pieces.subrange(0, j as int);
            let ghost shorter = path@;
            proof {
                lemma_components_plain(name@);
                self.inodes.lemma_has_root();
            }
            if j + 1 < comps.len() {
                let ghost prefix = shorter + pieces[j as int] + seq![SLASH];
                path.extend_from_slice(comp.as_slice());
                path.push(SLASH);
                assert(path@ =~= prefix);
                proof {
                    lemma_components_of_prefix(shorter, pieces[j as int]);
                    assert(known.push(pieces[j as int]) =~= pieces.subrange(0, j + 1));
                }
                match self.lookup_folder(&path) {
                    Some(ino) => {
                        proof {
                            lemma_find_folder(before.folders, prefix);
                            let k = choose|k: int|
                                0 <= k < before.folders.len() && #[trigger] before.folders[k] == (
                                    prefix,
                                    ino,
                                );
                            assert(prefix.last() == SLASH);
                            assert(seq![DOT].last() == DOT);
                            assert(k >= 1);
                            assert(before.folders[k].1 == ino);
                        }
                        parent = ino;
                    },
                    None => {
                        let ghost recorded = self.folders();
                        let ino = self.inodes.attach(parent, InodeData::Folder(comp));
                        let key = path.clone();
                        assert(key@ =~= path@);
                        self.folder_paths.push(key);
                        self.folder_inodes.push(ino);
                        proof {
                            self.inodes.lemma_has_root();
                            assert(self.folders() =~= recorded.push((prefix, ino)));
                            lemma_records_after_folder(
                                before,
                                parent,
                                shorter,
                                pieces[j as int],
                                known,
                            );
                            lemma_attach_extends(
                                before.nodes,
                                parent,
                                InodeView::Folder(pieces[j as int]),
                            );
                            lemma_attach_under_folder(
                                before.nodes,
                                parent,
                                InodeView::Folder(pieces[j as int]),
                            );
                            if in_order {
                                lemma_attach_keeps_order(
                                    before.nodes,
                                    parent,
                                    InodeView::Folder(pieces[j as int]),
                                    entry,
                                );
                            }
                            lemma_extends_twice(start.nodes, before.nodes, self.inodes.model());
                        }
                        parent = ino;
                    },
                }
            } else {
                let ino = self.inodes.attach(parent, InodeData::ArchivedFile(comp, entry));
                proof {
                    self.inodes.lemma_has_root();
                    let data = InodeView::ArchivedFile(pieces[j as int], entry);
                    lemma_records_after_file(before, parent, data);
                    lemma_attach_extends(before.nodes, parent, data);
                    lemma_attach_under_folder(before.nodes, parent, data);
                    if in_order {
                        lemma_attach_keeps_order(before.nodes, parent, data, entry);
                    }
                    lemma_extends_twice(start.nodes, before.nodes, self.inodes.model());
                    lemma_spells_extends(before.nodes, self.inodes.model(), parent, known);
                    assert(pieces.drop_last() =~= known);
                    assert(pieces.last() == pieces[j as int]);
                    assert(self.inodes.model()[parent - 1].data == before.nodes[parent - 1].data);
                    assert(placed_at(self.inodes.model(), ino, pieces, entry));
                }
            }
            j = j + 1;
        }
    }
}

/// Whether two byte strings are equal.
pub fn same_bytes(a: &[u8], b: &[u8]) -> (eq: bool)
    ensures
        eq == (a@ == b@),
{
    if a.len() != b.len() {
        return false;
    }
    let mut i: usize = 0;
    while i < a.len()
        invariant
            a@.len() == b@.len(),
            i <= a@.len(),
            forall|j: int| 0 <= j < i ==> a@[j] == b@[j],
        decreases a@.len() - i,
    {
        if a[i] != b[i] {
            return false;
        }
        i = i + 1;
    }
    assert(a@ =~= b@);
    true
}

} // verus!
