//! The inode tree: folders and archived files, numbered from the root.
//!
//! Inodes are handed out one after another, starting with the root at 1, so
//! the inode table is a vector and inode `i` sits at index `i - 1`. The
//! parent and child relations are kept by an `id_tree::Tree` whose nodes
//! carry the inode numbers.

use vstd::prelude::*;
use id_tree::InsertBehavior;
use id_tree::Node;
use id_tree::NodeId;
use id_tree::Tree;
use id_tree::TreeBuilder;

verus! {

/// The number of an inode.
pub type Inode = u64;

/// The inode of the root folder.
pub const ROOT_INODE: Inode = 1;

/// Number of nodes for which a new tree reserves room.
pub const NODE_CAPACITY: usize = 10000;

/// The most nodes for which a new tree may be asked to reserve room.
pub const NODE_CAPACITY_LIMIT: usize = 65536;

/// The name of the root folder: a single dot.
pub const DOT: u8 = 0x2E;

/// `id_tree::Tree`, made known as an opaque type. What a tree holds is
/// spoken of through `tree_nodes` and `node_slot` alone.
#[verifier::external_type_specification]
#[verifier::external_body]
#[verifier::reject_recursive_types(T)]
pub struct ExTree<T>(Tree<T>);

/// `id_tree::NodeId`, made known as an opaque type: the identifier that a
/// tree issues for a node it takes in.
#[verifier::external_type_specification]
#[verifier::external_body]
pub struct ExNodeId(NodeId);

/// The live nodes of a tree, by the slot each occupies: the inode that the
/// node carries, the slot of its parent, and the slots of its children in
/// order.
pub uninterp spec fn tree_nodes(t: Tree<u64>) -> Map<int, (u64, Option<int>, Seq<int>)>;

/// The slot that an identifier names in a tree, provided that the tree
/// issued the identifier and the node is still there.
pub uninterp spec fn node_slot(t: Tree<u64>, id: NodeId) -> Option<int>;

/// A tree's nodes when it has none.
pub open spec fn no_nodes() -> Map<int, (u64, Option<int>, Seq<int>)> {
    Map::empty()
}

/// The inode carried by the node in a slot.
pub open spec fn slot_inode(t: Tree<u64>, s: int) -> u64 {
    tree_nodes(t)[s].0
}

/// The inode of the parent of the node in a slot, if it has a parent.
pub open spec fn slot_parent(t: Tree<u64>, s: int) -> Option<u64> {
    match tree_nodes(t)[s].1 {
        None => None,
        Some(p) => Some(slot_inode(t, p)),
    }
}

/// The inodes of the children of the node in a slot, in order.
pub open spec fn slot_children(t: Tree<u64>, s: int) -> Seq<u64> {
    Seq::new(tree_nodes(t)[s].2.len(), |j: int| slot_inode(t, tree_nodes(t)[s].2[j]))
}

/// `TreeBuilder::new().with_node_capacity(..).build()` of id_tree: a tree
/// without nodes, which has issued no identifier yet. The builder reserves
/// room for `capacity` nodes at once, so the capacity is kept small enough
/// for that reservation to be an ordinary one.
#[verifier::external_body]
fn tree_new(capacity: usize) -> (t: Tree<u64>)
    requires
        capacity <= NODE_CAPACITY_LIMIT,
    ensures
        tree_nodes(t) == no_nodes(),
        forall|id: NodeId| node_slot(t, id) is None,
{
    TreeBuilder::new().with_node_capacity(capacity).build()
}

/// `Tree::insert` of id_tree with `InsertBehavior::AsRoot`, on a tree without
/// nodes: it always succeeds, and the tree then holds the one node, without
/// parent or children, in the slot that the returned identifier names.
#[verifier::external_body]
fn tree_insert_root(tree: &mut Tree<u64>, ino: u64) -> (r: Option<NodeId>)
    requires
        tree_nodes(*old(tree)) == no_nodes(),
    ensures
        r is Some,
        node_slot(*final(tree), r->Some_0) is Some,
        tree_nodes(*final(tree)) == no_nodes().insert(
            node_slot(*final(tree), r->Some_0)->Some_0,
            (ino, None, Seq::empty()),
        ),
{
    tree.insert(Node::new(ino), InsertBehavior::AsRoot).ok()
}

/// `Tree::insert` of id_tree with `InsertBehavior::UnderNode`: it succeeds
/// exactly when the parent's identifier is valid in the tree. The new node
/// takes a slot that was free, has the given parent and no children, and
/// becomes the last child of the parent. Nothing else changes, and every
/// identifier that was valid stays valid for the same slot.
#[verifier::external_body]
fn tree_insert_under(tree: &mut Tree<u64>, parent: &NodeId, ino: u64) -> (r: Option<NodeId>)
    ensures
        r is Some <==> node_slot(*old(tree), *parent) is Some,
        r is None ==> *final(tree) == *old(tree),
        r matches Some(id) ==> {
            &&& node_slot(*final(tree), id) matches Some(s)
            &&& node_slot(*old(tree), *parent) matches Some(p)
            &&& !tree_nodes(*old(tree)).dom().contains(s)
            &&& tree_nodes(*final(tree)) == tree_nodes(*old(tree)).insert(
                p,
                (
                    tree_nodes(*old(tree))[p].0,
                    tree_nodes(*old(tree))[p].1,
                    tree_nodes(*old(tree))[p].2.push(s),
                ),
            ).insert(s, (ino, Some(p), Seq::empty()))
            &&& forall|other: NodeId| #[trigger]
                node_slot(*old(tree), other) is Some ==> node_slot(*final(tree), other)
                    == node_slot(*old(tree), other)
        },
{
    tree.insert(Node::new(ino), InsertBehavior::UnderNode(parent)).ok()
}

/// `Tree::children` of id_tree, each child mapped to the inode it carries:
/// for a valid identifier, the inodes of the node's children in order.
#[verifier::external_body]
fn tree_children(tree: &Tree<u64>, id: &NodeId) -> (r: Option<Vec<u64>>)
    ensures
        r is Some <==> node_slot(*tree, *id) is Some,
        r matches Some(v) ==> v@ == slot_children(*tree, node_slot(*tree, *id)->Some_0),
{
    tree.children(id).ok().map(|nodes| nodes.map(|n| *n.data()).collect())
}

/// `Tree::ancestors` of id_tree, stepped once and mapped to the inode: for a
/// valid identifier, the inode of the node's parent, or nothing for a node
/// without parent.
#[verifier::external_body]
fn tree_parent(tree: &Tree<u64>, id: &NodeId) -> (r: Option<Option<u64>>)
    ensures
        r is Some <==> node_slot(*tree, *id) is Some,
        r matches Some(p) ==> p == slot_parent(*tree, node_slot(*tree, *id)->Some_0),
{
    tree.ancestors(id).ok().map(|mut up| up.next().map(|n| *n.data()))
}

/// What an inode stands for.
#[derive(Debug)]
pub enum InodeData {
    /// A folder, with its name.
    Folder(Vec<u8>),
    /// An archived file, with its name and the index of its entry.
    ArchivedFile(Vec<u8>, usize),
}

/// What an inode stands for, as mathematical values.
pub enum InodeView {
    Folder(Seq<u8>),
    ArchivedFile(Seq<u8>, usize),
}

impl View for InodeData {
    type V = InodeView;

    open spec fn view(&self) -> InodeView {
        match self {
            InodeData::Folder(name) => InodeView::Folder(name@),
            InodeData::ArchivedFile(name, index) => InodeView::ArchivedFile(name@, *index),
        }
    }
}

impl InodeView {
    /// The last component of the path that leads to the inode.
    pub open spec fn name(self) -> Seq<u8> {
        match self {
            InodeView::Folder(name) => name,
            InodeView::ArchivedFile(name, _) => name,
        }
    }
}

impl InodeData {
    /// The last component of the path that leads to the inode.
    pub fn name(&self) -> (n: &Vec<u8>)
        ensures
            n@ == self@.name(),
    {
        match self {
            InodeData::Folder(name) => name,
            InodeData::ArchivedFile(name, _) => name,
        }
    }
}

/// One inode of the tree: what it stands for, its parent, and its children
/// in the order in which they were attached.
pub struct NodeModel {
    pub data: InodeView,
    pub parent: Option<u64>,
    pub children: Seq<u64>,
}

/// The tree that holds only the root folder.
pub open spec fn model_root() -> Seq<NodeModel> {
    seq![NodeModel { data: InodeView::Folder(seq![DOT]), parent: None, children: Seq::empty() }]
}

/// The tree with one more inode, attached as the last child of `parent`. The
/// new inode gets the next free number.
pub open spec fn model_attach(m: Seq<NodeModel>, parent: u64, data: InodeView) -> Seq<NodeModel> {
    let ino = (m.len() + 1) as u64;
    let above = m[parent - 1];
    m.update(
        parent - 1,
        NodeModel { data: above.data, parent: above.parent, children: above.children.push(ino) },
    ).push(NodeModel { data, parent: Some(parent), children: Seq::empty() })
}

/// What holds of every tree that grew from the root by attaching inodes:
/// the root has no parent; every other inode has a parent with a smaller
/// number and stands among that parent's children; the children of an inode
/// have larger numbers than it, name it as their parent, and stand in
/// ascending order. So every inode but the root occurs in exactly one list
/// of children, exactly once.
pub open spec fn model_wf(m: Seq<NodeModel>) -> bool {
    &&& 1 <= m.len() <= u64::MAX
    &&& m[0].parent is None
    &&& forall|i: int|
        1 <= i < m.len() ==> (#[trigger] m[i]).parent is Some && 1 <= m[i].parent->Some_0 <= i
            && m[m[i].parent->Some_0 - 1].children.contains((i + 1) as u64)
    &&& forall|i: int, j: int|
        0 <= i < m.len() && 0 <= j < m[i].children.len() ==> i + 1 < (#[trigger] m[i].children[j])
            <= m.len() && m[m[i].children[j] - 1].parent == Some((i + 1) as u64)
    &&& forall|i: int, j: int, k: int|
        0 <= i < m.len() && 0 <= j < k < m[i].children.len() ==> (#[trigger] m[i].children[j])
            < (#[trigger] m[i].children[k])
}

/// Attaching an inode keeps a tree well formed.
#[verifier::spinoff_prover]
pub proof fn lemma_attach_keeps_wf(m: Seq<NodeModel>, parent: u64, data: InodeView)
    requires
        model_wf(m),
        1 <= parent <= m.len(),
        m.len() < u64::MAX,
    ensures
        model_wf(model_attach(m, parent, data)),
{
    let after = model_attach(m, parent, data);
    let ino = (m.len() + 1) as u64;
    assert forall|i: int| 1 <= i < after.len() implies (#[trigger] after[i]).parent is Some && 1
        <= after[i].parent->Some_0 <= i && after[after[i].parent->Some_0 - 1].children.contains(
        (i + 1) as u64,
    ) by {
        if i < m.len() {
            let p = m[i].parent->Some_0;
            assert(m[p - 1].children.contains((i + 1) as u64));
            let listed = m[p - 1].children;
            let at = choose|at: int| 0 <= at < listed.len() && #[trigger] listed[at] == (i + 1) as u64;
            assert(after[p - 1].children[at] == (i + 1) as u64);
        } else {
            let last = after[parent - 1].children.len() - 1;
            assert(after[parent - 1].children[last] == ino);
        }
    }
    assert forall|i: int, j: int|
        0 <= i < after.len() && 0 <= j < after[i].children.len() implies i + 1 < (
        #[trigger] after[i].children[j]) <= after.len() && after[after[i].children[j]
            - 1].parent == Some((i + 1) as u64) by {
        if i < m.len() && j < m[i].children.len() {
            assert(after[i].children[j] == m[i].children[j]);
        }
    }
    assert forall|i: int, j: int, k: int|
        0 <= i < after.len() && 0 <= j < k < after[i].children.len() implies (
        #[trigger] after[i].children[j]) < (#[trigger] after[i].children[k]) by {
        if i < m.len() {
            if j < m[i].children.len() {
                assert(after[i].children[j] == m[i].children[j]);
            }
            if k < m[i].children.len() {
                assert(after[i].children[k] == m[i].children[k]);
            }
        }
    }
}

/// Every inode but the root hangs below a folder.
pub open spec fn under_folders(m: Seq<NodeModel>) -> bool {
    forall|i: int|
        1 <= i < m.len() ==> (#[trigger] m[i]).parent is Some && 1 <= m[i].parent->Some_0
            <= m.len() && m[m[i].parent->Some_0 - 1].data is Folder
}

/// An inode attached below a folder keeps every inode below a folder.
pub proof fn lemma_attach_under_folder(m: Seq<NodeModel>, parent: u64, data: InodeView)
    requires
        under_folders(m),
        1 <= parent <= m.len(),
        m[parent - 1].data is Folder,
    ensures
        under_folders(model_attach(m, parent, data)),
{
    let after = model_attach(m, parent, data);
    assert forall|i: int| 1 <= i < after.len() implies (#[trigger] after[i]).parent is Some && 1
        <= after[i].parent->Some_0 <= after.len() && after[after[i].parent->Some_0
        - 1].data is Folder by {
        if i < m.len() {
            assert(m[i].parent is Some);
            let above = m[i].parent->Some_0;
            assert(after[i].parent == m[i].parent);
            assert(after[above - 1].data == m[above - 1].data);
        }
    }
}

/// A tree grew out of an earlier one: the earlier inodes are still what
/// they were, below the same parents, and their children of then are still
/// their first children.
pub open spec fn extends(earlier: Seq<NodeModel>, later: Seq<NodeModel>) -> bool {
    &&& earlier.len() <= later.len()
    &&& forall|i: int|
        0 <= i < earlier.len() ==> (#[trigger] later[i]).data == earlier[i].data && later[i].parent
            == earlier[i].parent && earlier[i].children.is_prefix_of(later[i].children)
}

/// A tree with one more inode attached grew out of the tree without it.
pub proof fn lemma_attach_extends(m: Seq<NodeModel>, parent: u64, data: InodeView)
    requires
        1 <= parent <= m.len(),
    ensures
        extends(m, model_attach(m, parent, data)),
        model_attach(m, parent, data).len() == m.len() + 1,
        model_attach(m, parent, data)[m.len() as int] == (NodeModel {
            data,
            parent: Some(parent),
            children: Seq::empty(),
        }),
{
    let after = model_attach(m, parent, data);
    assert forall|i: int| 0 <= i < m.len() implies (#[trigger] after[i]).data == m[i].data
        && after[i].parent == m[i].parent && m[i].children.is_prefix_of(after[i].children) by {
        if i == parent - 1 {
            assert(after[i].children.subrange(0, m[i].children.len() as int) =~= m[i].children);
        } else {
            assert(after[i].children.subrange(0, m[i].children.len() as int) =~= m[i].children);
        }
    }
}

/// A tree grew out of itself.
pub proof fn lemma_extends_same(m: Seq<NodeModel>)
    ensures
        extends(m, m),
{
    assert forall|i: int| 0 <= i < m.len() implies m[i].children.is_prefix_of(
        (#[trigger] m[i]).children,
    ) by {
        assert(m[i].children.subrange(0, m[i].children.len() as int) =~= m[i].children);
    }
}

/// Growing twice is growing.
pub proof fn lemma_extends_twice(a: Seq<NodeModel>, b: Seq<NodeModel>, c: Seq<NodeModel>)
    requires
        extends(a, b),
        extends(b, c),
    ensures
        extends(a, c),
{
    assert forall|i: int| 0 <= i < a.len() implies (#[trigger] c[i]).data == a[i].data
        && c[i].parent == a[i].parent && a[i].children.is_prefix_of(c[i].children) by {
        assert(b[i].data == a[i].data);
        assert(c[i].data == b[i].data);
        let short = a[i].children;
        let mid = b[i].children;
        let long = c[i].children;
        assert(long.subrange(0, short.len() as int) =~= mid.subrange(0, short.len() as int));
    }
}

/// An inode with `n` children has at least `n` inodes after it: its
/// children's numbers ascend from above its own.
pub proof fn lemma_children_bound(m: Seq<NodeModel>, i: int, j: int)
    requires
        model_wf(m),
        0 <= i < m.len(),
        0 <= j < m[i].children.len(),
    ensures
        m[i].children[j] >= i + 2 + j,
        i + 1 + m[i].children.len() <= m.len(),
    decreases m[i].children.len() - j,
{
    if j > 0 {
        lemma_children_step(m, i, j);
    }
    if j + 1 < m[i].children.len() {
        lemma_children_bound(m, i, j + 1);
    }
}

/// The `j`-th child of an inode has a number at least `j` above the first.
pub proof fn lemma_children_step(m: Seq<NodeModel>, i: int, j: int)
    requires
        model_wf(m),
        0 <= i < m.len(),
        0 <= j < m[i].children.len(),
    ensures
        m[i].children[j] >= i + 2 + j,
    decreases j,
{
    if j > 0 {
        lemma_children_step(m, i, j - 1);
    }
}

/// The inode table together with the tree that relates the inodes.
pub struct InodeTree {
    tree: Tree<Inode>,
    files: Vec<InodeData>,
    node_ids: Vec<NodeId>,
}

impl InodeTree {
    /// The slot of inode `i + 1` in the tree.
    pub closed spec fn slot_at(&self, i: int) -> Option<int> {
        node_slot(self.tree, self.node_ids@[i])
    }

    /// Every inode has its node in the tree and every node its inode, and
    /// the tree's parent and child links stay among the nodes.
    pub closed spec fn wf(&self) -> bool {
        let nodes = tree_nodes(self.tree);
        &&& self.files@.len() == self.node_ids@.len()
        &&& 1 <= self.files@.len() <= u64::MAX
        &&& forall|i: int|
            0 <= i < self.files@.len() ==> (#[trigger] self.slot_at(i)) is Some
                && nodes.dom().contains(self.slot_at(i)->Some_0) && nodes[self.slot_at(
                i,
            )->Some_0].0 == i + 1
        &&& forall|s: int| #[trigger]
            nodes.dom().contains(s) ==> 1 <= nodes[s].0 <= self.files@.len() && self.slot_at(
                nodes[s].0 - 1,
            ) == Some(s)
        &&& forall|s: int, j: int|
            nodes.dom().contains(s) && 0 <= j < nodes[s].2.len() ==> nodes.dom().contains(
                #[trigger] nodes[s].2[j],
            )
        &&& forall|s: int| #[trigger]
            nodes.dom().contains(s) && nodes[s].1 is Some ==> nodes.dom().contains(
                nodes[s].1->Some_0,
            )
        &&& model_wf(self.model())
    }

    /// The tree as mathematical values: entry `i` describes inode `i + 1`.
    pub closed spec fn model(&self) -> Seq<NodeModel> {
        Seq::new(
            self.files@.len(),
            |i: int|
                NodeModel {
                    data: self.files@[i]@,
                    parent: slot_parent(self.tree, self.slot_at(i)->Some_0),
                    children: slot_children(self.tree, self.slot_at(i)->Some_0),
                },
        )
    }

    /// A well-formed tree has its root, and no more inodes than have
    /// numbers.
    pub proof fn lemma_has_root(&self)
        requires
            self.wf(),
        ensures
            1 <= self.model().len() <= u64::MAX,
            model_wf(self.model()),
    {
    }

    /// A tree that holds only the root folder, named by a single dot.
    pub fn new() -> (t: InodeTree)
        ensures
            t.wf(),
            t.model() == model_root(),
    {
        let mut tree = tree_new(NODE_CAPACITY);
        let mut files: Vec<InodeData> = Vec::new();
        let mut node_ids: Vec<NodeId> = Vec::new();
        let mut name: Vec<u8> = Vec::new();
        name.push(DOT);
        assert(name@ =~= seq![DOT]);
        files.push(InodeData::Folder(name));
        let root_id = tree_insert_root(&mut tree, ROOT_INODE).unwrap();
        node_ids.push(root_id);
        let t = InodeTree { tree, files, node_ids };
        proof {
            let s = t.slot_at(0)->Some_0;
            assert(tree_nodes(t.tree).dom().contains(s));
            assert(slot_children(t.tree, s) =~= Seq::<u64>::empty());
            assert(t.model() =~= model_root());
        }
        t
    }

    /// Number of inodes; they are numbered from 1 to this.
    pub fn len(&self) -> (n: usize)
        requires
            self.wf(),
        ensures
            n == self.model().len(),
            n >= 1,
    {
        self.files.len()
    }

    /// What inode `ino` stands for, if there is such an inode.
    pub fn get(&self, ino: Inode) -> (r: Option<&InodeData>)
        requires
            self.wf(),
        ensures
            1 <= ino <= self.model().len() ==> r is Some && r->Some_0@ == self.model()[ino - 1].data,
            !(1 <= ino <= self.model().len()) ==> r is None,
    {
        if ino >= 1 && ino <= self.files.len() as u64 {
            Some(&self.files[(ino - 1) as usize])
        } else {
            None
        }
    }

    /// The children of inode `ino` in order, if there is such an inode.
    pub fn children(&self, ino: Inode) -> (r: Option<Vec<Inode>>)
        requires
            self.wf(),
        ensures
            1 <= ino <= self.model().len() ==> r is Some && r->Some_0@ == self.model()[ino
                - 1].children,
            !(1 <= ino <= self.model().len()) ==> r is None,
    {
        if ino >= 1 && ino <= self.files.len() as u64 {
            let i: usize = (ino - 1) as usize;
            assert(self.slot_at(i as int) is Some);
            tree_children(&self.tree, &self.node_ids[i])
        } else {
            None
        }
    }

    /// The parent of inode `ino`, or nothing for the root, if there is such
    /// an inode.
    pub fn parent(&self, ino: Inode) -> (r: Option<Option<Inode>>)
        requires
            self.wf(),
        ensures
            1 <= ino <= self.model().len() ==> r == Some(self.model()[ino - 1].parent),
            !(1 <= ino <= self.model().len()) ==> r is None,
    {
        if ino >= 1 && ino <= self.files.len() as u64 {
            let i: usize = (ino - 1) as usize;
            assert(self.slot_at(i as int) is Some);
            tree_parent(&self.tree, &self.node_ids[i])
        } else {
            None
        }
    }

    /// Adds an inode as the last child of `parent` and returns its number,
    /// the next free one.
    #[verifier::spinoff_prover]
    pub fn attach(&mut self, parent: Inode, data: InodeData) -> (ino: Inode)
        requires
            old(self).wf(),
            1 <= parent <= old(self).model().len(),
        ensures
            final(self).wf(),
            final(self).model() == model_attach(old(self).model(), parent, data@),
            ino == old(self).model().len() + 1,
    {
        let ghost before = *self;
        let ghost view = data@;
        let above: usize = (parent - 1) as usize;
        assert(before.slot_at(above as int) is Some);
        self.files.push(data);
        let ino: u64 = self.files.len() as u64;
        let id = tree_insert_under(&mut self.tree, &self.node_ids[above], ino).unwrap();
        self.node_ids.push(id);
        proof {
            let old_nodes = tree_nodes(before.tree);
            let nodes = tree_nodes(self.tree);
            let s = node_slot(self.tree, id)->Some_0;
            let n = before.files@.len() as int;
            assert(self.slot_at(n) == Some(s));
            assert forall|i: int| 0 <= i < n implies self.slot_at(i) == before.slot_at(i) by {
                assert(before.slot_at(i) is Some);
            }
            assert forall|i: int| 0 <= i < self.files@.len() implies (#[trigger] self.slot_at(
                i,
            )) is Some && nodes.dom().contains(self.slot_at(i)->Some_0) && nodes[self.slot_at(
                i,
            )->Some_0].0 == i + 1 by {
                if i < n {
                    assert(before.slot_at(i) is Some);
                }
            }
            assert forall|t: int| #[trigger] nodes.dom().contains(t) implies 1 <= nodes[t].0
                <= self.files@.len() && self.slot_at(nodes[t].0 - 1) == Some(t) by {
                if t != s {
                    assert(old_nodes.dom().contains(t));
                }
            }
            assert forall|t: int, j: int|
                nodes.dom().contains(t) && 0 <= j < nodes[t].2.len() implies nodes.dom().contains(
                #[trigger] nodes[t].2[j],
            ) by {
                if t != s {
                    assert(old_nodes.dom().contains(t));
                    if j < old_nodes[t].2.len() {
                        assert(old_nodes.dom().contains(old_nodes[t].2[j]));
                    }
                }
            }
            assert forall|t: int| #[trigger]
                nodes.dom().contains(t) && nodes[t].1 is Some implies nodes.dom().contains(
                nodes[t].1->Some_0,
            ) by {
                if t != s {
                    assert(old_nodes.dom().contains(t));
                }
            }
            let want = model_attach(before.model(), parent, view);
            assert(self.model().len() == want.len());
            assert forall|i: int| 0 <= i < want.len() implies self.model()[i] == want[i] by {
                let si = self.slot_at(i)->Some_0;
                if i < n {
                    assert(before.slot_at(i) == Some(si));
                    assert(old_nodes.dom().contains(si));
                    if old_nodes[si].1 is Some {
                        assert(old_nodes.dom().contains(old_nodes[si].1->Some_0));
                    }
                    assert(slot_parent(self.tree, si) == slot_parent(before.tree, si));
                    assert forall|j: int| 0 <= j < old_nodes[si].2.len() implies slot_inode(
                        self.tree,
                        old_nodes[si].2[j],
                    ) == slot_inode(before.tree, old_nodes[si].2[j]) by {
                        assert(old_nodes.dom().contains(old_nodes[si].2[j]));
                    }
                    if i == above {
                        assert(slot_children(self.tree, si) =~= slot_children(
                            before.tree,
                            si,
                        ).push(ino));
                    } else {
                        assert(slot_children(self.tree, si) =~= slot_children(before.tree, si));
                    }
                } else {
                    assert(slot_children(self.tree, si) =~= Seq::<u64>::empty());
                }
            }
            assert(self.model() =~= want);
            lemma_attach_keeps_wf(before.model(), parent, view);
        }
        ino
    }
}

} // verus!
