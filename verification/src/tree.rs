//! The page tree of a document: leaf pages grouped under interior nodes, each
//! of which caches how many leaf pages lie beneath it.

use vstd::prelude::*;

verus! {

/// A node of a page tree.
///
/// Every node carries the identity under which the document knows it; the
/// tree operations pass it through untouched.
#[derive(Debug, PartialEq, Eq)]
pub enum PageTreeNode {
    /// A leaf: one page, with the bytes of its drawing instructions where it
    /// has any that can be read.
    Page { id: u64, contents: Option<Vec<u8>> },
    /// An interior node: its children in document order, and the cached number
    /// of leaf pages beneath it.
    Pages { id: u64, kids: Vec<PageTreeNode>, count: i32 },
    /// A node that does not say what it is. It is passed over.
    Untyped { id: u64 },
    /// A node that says it is something other than a page or a group of
    /// pages. A tree that holds one is malformed.
    Unknown { id: u64 },
}

/// The name by which a node says that it is a leaf page: `Page`.
pub const PAGE_TYPE: [u8; 4] = [0x50, 0x61, 0x67, 0x65];

/// The name by which a node says that it is a group of pages: `Pages`.
pub const PAGES_TYPE: [u8; 5] = [0x50, 0x61, 0x67, 0x65, 0x73];

/// What a node of a page tree can be.
#[derive(Debug, Clone, Copy, PartialEq, Eq, Structural)]
pub enum NodeKind {
    /// A leaf page.
    Page,
    /// A group of pages.
    Pages,
    /// A node that does not say what it is.
    Untyped,
    /// A node that says it is something else.
    Unknown,
}

/// The kind of a node, by the name of its type where it states one.
pub open spec fn kind_of(declared: Option<Seq<u8>>) -> NodeKind {
    match declared {
        None => NodeKind::Untyped,
        Some(name) => if name == PAGE_TYPE@ {
            NodeKind::Page
        } else if name == PAGES_TYPE@ {
            NodeKind::Pages
        } else {
            NodeKind::Unknown
        },
    }
}

/// Tells whether two runs of bytes are the same.
fn same_bytes(a: &[u8], b: &[u8]) -> (r: bool)
    ensures
        r == (a@ == b@),
{
    if a.len() != b.len() {
        return false;
    }
    let mut i: usize = 0;
    while i < a.len()
        invariant
            a.len() == b.len(),
            i <= a.len(),
            forall|j: int| 0 <= j < i ==> a@[j] == b@[j],
        decreases a.len() - i,
    {
        if a[i] != b[i] {
            return false;
        }
        i += 1;
    }
    assert(a@ =~= b@);
    true
}

/// Classifies a node by the name of its type: `None` where it states none.
pub fn classify(declared: Option<&[u8]>) -> (kind: NodeKind)
    ensures
        kind == kind_of(
            match declared {
                Some(name) => Some(name@),
                None => None,
            },
        ),
{
    match declared {
        None => NodeKind::Untyped,
        Some(name) => {
            let page = PAGE_TYPE;
            let pages = PAGES_TYPE;
            if same_bytes(name, page.as_slice()) {
                NodeKind::Page
            } else if same_bytes(name, pages.as_slice()) {
                NodeKind::Pages
            } else {
                NodeKind::Unknown
            }
        },
    }
}

/// The mathematical picture of a [`PageTreeNode`]: the same tree, with
/// sequences for vectors and an unbounded integer for the count.
pub ghost enum Tree {
    /// A leaf page and its contents.
    Page { id: u64, contents: Option<Seq<u8>> },
    /// A group of pages: its children and its cached count.
    Pages { id: u64, kids: Seq<Tree>, count: int },
    /// A node that does not say what it is.
    Untyped { id: u64 },
    /// A node that says it is something else.
    Unknown { id: u64 },
}

impl View for PageTreeNode {
    type V = Tree;

    open spec fn view(&self) -> Tree
        decreases self,
    {
        match self {
            PageTreeNode::Page { id, contents } => Tree::Page {
                id: *id,
                contents: match contents {
                    Some(bytes) => Some(bytes@),
                    None => None,
                },
            },
            PageTreeNode::Pages { id, kids, count } => Tree::Pages {
                id: *id,
                kids: PageTreeNode::views(kids@),
                count: *count as int,
            },
            PageTreeNode::Untyped { id } => Tree::Untyped { id: *id },
            PageTreeNode::Unknown { id } => Tree::Unknown { id: *id },
        }
    }
}

impl Tree {
    /// The identity of the node.
    pub open spec fn id(self) -> u64 {
        match self {
            Tree::Page { id, .. } => id,
            Tree::Pages { id, .. } => id,
            Tree::Untyped { id } => id,
            Tree::Unknown { id } => id,
        }
    }

    /// The kind of the node.
    pub open spec fn kind(self) -> NodeKind {
        match self {
            Tree::Page { .. } => NodeKind::Page,
            Tree::Pages { .. } => NodeKind::Pages,
            Tree::Untyped { .. } => NodeKind::Untyped,
            Tree::Unknown { .. } => NodeKind::Unknown,
        }
    }
}

impl PageTreeNode {
    /// The identity of the node.
    pub fn id(&self) -> (id: u64)
        ensures
            id == self@.id(),
    {
        match self {
            PageTreeNode::Page { id, .. } => *id,
            PageTreeNode::Pages { id, .. } => *id,
            PageTreeNode::Untyped { id } => *id,
            PageTreeNode::Unknown { id } => *id,
        }
    }

    /// The kind of the node.
    pub fn kind(&self) -> (kind: NodeKind)
        ensures
            kind == self@.kind(),
    {
        match self {
            PageTreeNode::Page { .. } => NodeKind::Page,
            PageTreeNode::Pages { .. } => NodeKind::Pages,
            PageTreeNode::Untyped { .. } => NodeKind::Untyped,
            PageTreeNode::Unknown { .. } => NodeKind::Unknown,
        }
    }

    /// The pictures of `nodes`, one for one.
    pub open spec fn views(nodes: Seq<PageTreeNode>) -> Seq<Tree>
        decreases nodes,
    {
        // Only indices within `nodes` are ever asked for; the other branch is
        // there to show that the recursion ends.
        Seq::new(
            nodes.len(),
            |i: int|
                if 0 <= i < nodes.len() {
                    nodes[i].view()
                } else {
                    Tree::Untyped { id: 0 }
                },
        )
    }
}

impl Tree {
    /// The leaf pages of the tree, in document order.
    pub open spec fn leaves(self) -> Seq<Tree>
        decreases self,
    {
        match self {
            Tree::Page { .. } => seq![self],
            Tree::Pages { kids, .. } => Tree::leaves_of(kids),
            _ => Seq::empty(),
        }
    }

    /// The leaf pages of a run of sibling trees, in document order.
    pub open spec fn leaves_of(trees: Seq<Tree>) -> Seq<Tree>
        decreases trees,
    {
        if trees.len() == 0 {
            Seq::empty()
        } else {
            Tree::leaves_of(trees.drop_last()) + trees.last().leaves()
        }
    }

    /// How many leaf pages the tree holds.
    pub open spec fn leaf_count(self) -> nat {
        self.leaves().len()
    }

    /// Some node of the tree is of an unknown kind.
    pub open spec fn has_unknown(self) -> bool
        decreases self,
    {
        match self {
            Tree::Unknown { .. } => true,
            Tree::Pages { kids, .. } => exists|i: int|
                0 <= i < kids.len() && (#[trigger] kids[i]).has_unknown(),
            _ => false,
        }
    }

    /// Every interior node caches the true number of leaf pages beneath it.
    pub open spec fn counts_hold(self) -> bool
        decreases self,
    {
        match self {
            Tree::Pages { kids, count, .. } => {
                &&& count == self.leaf_count()
                &&& forall|i: int| 0 <= i < kids.len() ==> (#[trigger] kids[i]).counts_hold()
            },
            _ => true,
        }
    }

    /// No count can leave the range of the machine integer that holds it:
    /// every interior node has at most `i32::MAX` leaf pages beneath it, and
    /// its cached count can be lowered by the number of them.
    pub open spec fn counts_fit(self) -> bool
        decreases self,
    {
        match self {
            Tree::Pages { kids, count, .. } => {
                &&& self.leaf_count() <= i32::MAX
                &&& count - self.leaf_count() >= i32::MIN
                &&& forall|i: int| 0 <= i < kids.len() ==> (#[trigger] kids[i]).counts_fit()
            },
            _ => true,
        }
    }
}

/// The first `k` siblings hold no more leaf pages than all of them.
pub proof fn lemma_leaves_of_take(trees: Seq<Tree>, k: int)
    requires
        0 <= k <= trees.len(),
    ensures
        Tree::leaves_of(trees.take(k)).len() <= Tree::leaves_of(trees).len(),
    decreases trees.len() - k,
{
    if k == trees.len() {
        assert(trees.take(k) =~= trees);
    } else {
        lemma_leaves_of_take(trees, k + 1);
        assert(trees.take(k + 1).drop_last() =~= trees.take(k));
    }
}

/// The leaf pages of a run of siblings with one more sibling at its end.
pub proof fn lemma_leaves_of_push(trees: Seq<Tree>, last: Tree)
    ensures
        Tree::leaves_of(trees.push(last)) == Tree::leaves_of(trees) + last.leaves(),
{
    assert(trees.push(last).drop_last() =~= trees);
}

impl PageTreeNode {
    /// Counts the leaf pages of a tree whose counts fit; of a tree whose
    /// counts do not, says so by `None`.
    fn leaf_count_if_fit(&self) -> (r: Option<i32>)
        ensures
            match r {
                Some(n) => self@.counts_fit() && n == self@.leaf_count(),
                None => !self@.counts_fit(),
            },
        decreases self,
    {
        match self {
            PageTreeNode::Page { .. } => Some(1),
            PageTreeNode::Pages { kids, count, .. } => {
                let ghost views = PageTreeNode::views(kids@);
                let mut total: i32 = 0;
                let mut i: usize = 0;
                assert(views.take(0) =~= Seq::<Tree>::empty());
                while i < kids.len()
                    invariant
                        i <= kids.len(),
                        views == PageTreeNode::views(kids@),
                        self@ is Pages,
                        self@->kids == views,
                        forall|j: int|
                            0 <= j < kids.len() ==> decreases_to!(self => #[trigger] kids@[j]),
                        forall|j: int| 0 <= j < i ==> (#[trigger] views[j]).counts_fit(),
                        total == Tree::leaves_of(views.take(i as int)).len(),
                    decreases kids.len() - i,
                {
                    proof {
                        assert(views.take(i + 1).drop_last() =~= views.take(i as int));
                        assert(views.take(i + 1).last() == views[i as int]);
                        lemma_leaves_of_take(views, i + 1);
                    }
                    let below = match kids[i].leaf_count_if_fit() {
                        Some(n) => n,
                        None => {
                            assert(!views[i as int].counts_fit());
                            return None;
                        },
                    };
                    total = match total.checked_add(below) {
                        Some(sum) => sum,
                        None => {
                            return None;
                        },
                    };
                    i += 1;
                }
                assert(views.take(i as int) =~= views);
                match count.checked_sub(total) {
                    Some(_) => Some(total),
                    None => None,
                }
            },
            _ => Some(0),
        }
    }

    /// Counts the leaf pages of a tree whose counts hold; of a tree whose
    /// counts do not, says so by `None`.
    fn leaf_count_if_held(&self) -> (r: Option<i32>)
        ensures
            match r {
                Some(n) => self@.counts_hold() && n == self@.leaf_count(),
                None => !self@.counts_hold(),
            },
        decreases self,
    {
        match self {
            PageTreeNode::Page { .. } => Some(1),
            PageTreeNode::Pages { kids, count, .. } => {
                let ghost views = PageTreeNode::views(kids@);
                let mut total: i32 = 0;
                let mut i: usize = 0;
                assert(views.take(0) =~= Seq::<Tree>::empty());
                while i < kids.len()
                    invariant
                        i <= kids.len(),
                        views == PageTreeNode::views(kids@),
                        self@ is Pages,
                        self@->kids == views,
                        forall|j: int|
                            0 <= j < kids.len() ==> decreases_to!(self => #[trigger] kids@[j]),
                        forall|j: int| 0 <= j < i ==> (#[trigger] views[j]).counts_hold(),
                        total == Tree::leaves_of(views.take(i as int)).len(),
                    decreases kids.len() - i,
                {
                    proof {
                        assert(views.take(i + 1).drop_last() =~= views.take(i as int));
                        assert(views.take(i + 1).last() == views[i as int]);
                        lemma_leaves_of_take(views, i + 1);
                    }
                    let below = match kids[i].leaf_count_if_held() {
                        Some(n) => n,
                        None => {
                            assert(!views[i as int].counts_hold());
                            return None;
                        },
                    };
                    total = match total.checked_add(below) {
                        Some(sum) => sum,
                        None => {
                            return None;
                        },
                    };
                    i += 1;
                }
                assert(views.take(i as int) =~= views);
                if *count == total {
                    Some(total)
                } else {
                    None
                }
            },
            _ => Some(0),
        }
    }

    /// Tells whether no count of the tree can leave the range of an `i32`
    /// when leaf pages are taken out: the condition under which the tree may
    /// be filtered.
    pub fn counts_fit(&self) -> (r: bool)
        ensures
            r == self@.counts_fit(),
    {
        self.leaf_count_if_fit().is_some()
    }

    /// Tells whether every interior node of the tree caches the true number
    /// of leaf pages beneath it.
    pub fn counts_hold(&self) -> (r: bool)
        ensures
            r == self@.counts_hold(),
    {
        self.leaf_count_if_held().is_some()
    }
}

} // verus!
