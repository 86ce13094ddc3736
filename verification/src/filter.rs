//! The page-tree filter: one walk over a page tree, in document order, that
//! takes out the leaf pages which the request does not select and lowers the
//! cached count of every interior node by the number of pages lost beneath it.

use crate::labels::{
    label_of, lemma_after_concat, lemma_kept_concat, lemma_single_page, MatchState, Matching,
};
use crate::scanner::scan_label;
use crate::tree::{lemma_leaves_of_push, lemma_leaves_of_take, PageTreeNode, Tree};
use vstd::prelude::*;

verus! {

/// What the walk reports of a node to the node above it.
#[derive(Debug, Clone, Copy, PartialEq, Eq, Structural)]
pub enum FilterAction {
    /// The node is a leaf page that the request selects: it stays.
    KeepKid,
    /// The node is a leaf page that the request does not select: the node
    /// above detaches it.
    RemoveKid,
    /// The node is not a leaf page: it stays, and `subtract_count` leaf pages
    /// were taken out beneath it.
    Subtree { subtract_count: i32 },
}

/// The tree holds a node that is neither a page nor a group of pages.
#[derive(Debug, Clone, Copy, PartialEq, Eq, Structural)]
pub struct StructuralError;

impl Tree {
    /// The tree as the filter leaves it, when the walk reaches it in state
    /// `m`: beneath every interior node the unselected leaf pages are gone,
    /// and its count is lowered by their number. A leaf page is left as it
    /// is: only the node above it can detach it.
    pub open spec fn pruned(self, m: Matching) -> Tree
        decreases self,
    {
        match self {
            Tree::Pages { id, kids, count } => {
                let left = Tree::pruned_kids(kids, m);
                Tree::Pages {
                    id,
                    kids: left,
                    count: count - (Tree::leaves_of(kids).len() - Tree::leaves_of(left).len()),
                }
            },
            _ => self,
        }
    }

    /// The children `kids` of one node as the filter leaves them, when the
    /// walk reaches the first of them in state `m`: a leaf page stays if the
    /// request selects it, and any other child stays, filtered in its turn.
    pub open spec fn pruned_kids(kids: Seq<Tree>, m: Matching) -> Seq<Tree>
        decreases kids,
    {
        if kids.len() == 0 {
            Seq::empty()
        } else {
            let left = Tree::pruned_kids(kids.drop_last(), m);
            let here = m.after(Tree::leaves_of(kids.drop_last()));
            if kids.last().detached(here) {
                left
            } else {
                left.push(kids.last().pruned(here))
            }
        }
    }

    /// The node is a leaf page that the request does not select, when the
    /// walk reaches it in state `m`.
    pub open spec fn detached(self, m: Matching) -> bool {
        self is Page && !m.observe(label_of(self)).selects()
    }

    /// How many leaf pages the filter takes out of the tree.
    pub open spec fn removed(self, m: Matching) -> int {
        self.leaf_count() - self.pruned(m).leaf_count()
    }

    /// What the walk reports of the node, when it reaches it in state `m`.
    pub open spec fn outcome(self, m: Matching) -> FilterAction {
        match self {
            Tree::Page { .. } => if self.detached(m) {
                FilterAction::RemoveKid
            } else {
                FilterAction::KeepKid
            },
            _ => FilterAction::Subtree { subtract_count: self.removed(m) as i32 },
        }
    }
}

/// The request keeps no more pages than there are.
pub proof fn lemma_kept_len(m: Matching, leaves: Seq<Tree>)
    ensures
        m.kept(leaves).len() <= leaves.len(),
    decreases leaves.len(),
{
    if leaves.len() > 0 {
        lemma_kept_len(m, leaves.drop_last());
    }
}

/// The leaf pages that the filter leaves beneath a node are exactly the leaf
/// pages beneath it that the request selects, in their order.
pub proof fn lemma_pruned_leaves(tree: Tree, m: Matching)
    requires
        !(tree is Page),
    ensures
        tree.pruned(m).leaves() == m.kept(tree.leaves()),
    decreases tree,
{
    match tree {
        Tree::Pages { kids, .. } => {
            lemma_pruned_kids_leaves(kids, m);
        },
        _ => {},
    }
}

/// The leaf pages that the filter leaves under a run of siblings are exactly
/// the leaf pages under them that the request selects, in their order.
pub proof fn lemma_pruned_kids_leaves(kids: Seq<Tree>, m: Matching)
    ensures
        Tree::leaves_of(Tree::pruned_kids(kids, m)) == m.kept(Tree::leaves_of(kids)),
    decreases kids,
{
    if kids.len() > 0 {
        let before = kids.drop_last();
        let kid = kids.last();
        let left = Tree::pruned_kids(before, m);
        let here = m.after(Tree::leaves_of(before));
        lemma_pruned_kids_leaves(before, m);
        lemma_kept_concat(m, Tree::leaves_of(before), kid.leaves());
        if kid is Page {
            lemma_single_page(here, kid);
            if kid.detached(here) {
                assert(m.kept(Tree::leaves_of(before)) + Seq::<Tree>::empty() =~= m.kept(
                    Tree::leaves_of(before),
                ));
            } else {
                lemma_leaves_of_push(left, kid);
            }
        } else {
            lemma_pruned_leaves(kid, here);
            lemma_leaves_of_push(left, kid.pruned(here));
        }
    }
}

/// Which pages stay depends on the pages and on the request alone, not on
/// how the pages are grouped: two page trees that hold the same leaf pages in
/// the same order, filtered from the same state, are left with the same leaf
/// pages in the same order, and the walk ends in the same state.
pub proof fn lemma_selection_follows_leaves(a: Tree, b: Tree, m: Matching)
    requires
        !(a is Page),
        !(b is Page),
        a.leaves() == b.leaves(),
    ensures
        a.pruned(m).leaves() == b.pruned(m).leaves(),
        a.pruned(m).leaf_count() == b.pruned(m).leaf_count(),
        m.after(a.leaves()) == m.after(b.leaves()),
{
    lemma_pruned_leaves(a, m);
    lemma_pruned_leaves(b, m);
}

/// Filtering keeps the counts true: where every interior node cached the
/// number of leaf pages beneath it before, every interior node does so after.
pub proof fn lemma_pruned_counts_hold(tree: Tree, m: Matching)
    requires
        tree.counts_hold(),
    ensures
        tree.pruned(m).counts_hold(),
    decreases tree,
{
    match tree {
        Tree::Pages { kids, count, .. } => {
            lemma_pruned_kids_counts_hold(kids, m);
            let left = Tree::pruned_kids(kids, m);
            assert(tree.pruned(m)->kids == left);
            assert(tree.leaf_count() == Tree::leaves_of(kids).len());
            assert(tree.pruned(m).leaf_count() == Tree::leaves_of(left).len());
        },
        _ => {},
    }
}

/// Filtering a run of siblings whose counts are true leaves siblings whose
/// counts are true.
pub proof fn lemma_pruned_kids_counts_hold(kids: Seq<Tree>, m: Matching)
    requires
        forall|i: int| 0 <= i < kids.len() ==> (#[trigger] kids[i]).counts_hold(),
    ensures
        forall|i: int|
            0 <= i < Tree::pruned_kids(kids, m).len() ==> (#[trigger] Tree::pruned_kids(
                kids,
                m,
            )[i]).counts_hold(),
    decreases kids,
{
    if kids.len() > 0 {
        let before = kids.drop_last();
        let kid = kids.last();
        let here = m.after(Tree::leaves_of(before));
        assert forall|i: int| 0 <= i < before.len() implies (#[trigger] before[i]).counts_hold(
        ) by {
            assert(before[i] == kids[i]);
        }
        lemma_pruned_kids_counts_hold(before, m);
        assert(kid == kids[kids.len() - 1]);
        lemma_pruned_counts_hold(kid, here);
        let left = Tree::pruned_kids(before, m);
        let all = Tree::pruned_kids(kids, m);
        assert forall|i: int| 0 <= i < all.len() implies (#[trigger] all[i]).counts_hold() by {
            if i < left.len() {
                assert(all[i] == left[i]);
            } else {
                assert(all[i] == kid.pruned(here));
            }
        }
    }
}

/// The filter takes out no more pages than there are, and never adds one.
pub proof fn lemma_removed_bounds(tree: Tree, m: Matching)
    ensures
        0 <= tree.removed(m) <= tree.leaf_count(),
{
    if !(tree is Page) {
        lemma_pruned_leaves(tree, m);
        lemma_kept_len(m, tree.leaves());
    }
}

/// Reads the exercise number that a page with these contents announces. A
/// page without contents announces nothing.
pub fn read_contents(contents: &Option<Vec<u8>>) -> (label: Option<i32>)
    ensures
        label == match contents {
            Some(bytes) => crate::scanner::label_in(bytes@),
            None => None,
        },
{
    match contents {
        Some(bytes) => scan_label(bytes.as_slice()),
        None => None,
    }
}

/// Filters the tree under `node`, which the walk reaches in state `state`.
///
/// A leaf page is visited: what it announces is taken into `state`, and the
/// report says whether it stays. An interior node has its children filtered
/// from left to right; the leaf pages among them that do not stay are
/// detached, and the node's count is lowered by the number of leaf pages lost
/// beneath it, which the report carries upwards. A node of no kind is passed
/// over. The walk fails, as soon as it meets it, on a node of an unknown
/// kind; the tree and the state are then left as the walk had them.
pub fn filter_page_tree_helper(node: &mut PageTreeNode, state: &mut MatchState) -> (result: Result<
    FilterAction,
    StructuralError,
>)
    requires
        old(node)@.counts_fit(),
    ensures
        result is Err <==> old(node)@.has_unknown(),
        result matches Ok(action) ==> {
            &&& final(node)@ == old(node)@.pruned(old(state)@)
            &&& final(state)@ == old(state)@.after(old(node)@.leaves())
            &&& action == old(node)@.outcome(old(state)@)
        },
        result is Ok && old(node)@.counts_hold() ==> final(node)@.counts_hold(),
    decreases *old(node),
{
    let ghost m0 = state@;
    proof {
        if old(node)@.counts_hold() {
            lemma_pruned_counts_hold(old(node)@, m0);
        }
    }
    match node {
        PageTreeNode::Untyped { .. } => {
            proof {
                lemma_removed_bounds(old(node)@, m0);
            }
            Ok(FilterAction::Subtree { subtract_count: 0 })
        },
        PageTreeNode::Unknown { .. } => Err(StructuralError),
        PageTreeNode::Page { contents, .. } => {
            let label = read_contents(contents);
            proof {
                lemma_single_page(m0, old(node)@);
            }
            if state.observe(label) {
                Ok(FilterAction::KeepKid)
            } else {
                Ok(FilterAction::RemoveKid)
            }
        },
        PageTreeNode::Pages { kids, count, .. } => {
            let ghost orig = *kids;
            let ghost before = PageTreeNode::views(orig@);
            let mut subtract_count: i32 = 0;
            let mut i: usize = 0;
            let ghost mut k: int = 0;
            assert(before.take(0) =~= Seq::<Tree>::empty());
            assert(PageTreeNode::views(kids@).take(0) =~= Seq::<Tree>::empty());
            while i < kids.len()
                invariant
                    0 <= k <= orig.len(),
                    i <= kids.len(),
                    kids.len() - i == orig.len() - k,
                    before == PageTreeNode::views(orig@),
                    old(node)@ is Pages,
                    old(node)@->kids == before,
                    forall|j: int| i <= j < kids.len() ==> kids@[j] == orig@[j - i + k],
                    forall|j: int|
                        0 <= j < orig.len() ==> decreases_to!(*old(node) => #[trigger] orig@[j]),
                    forall|j: int| 0 <= j < before.len() ==> (#[trigger] before[j]).counts_fit(),
                    forall|j: int| 0 <= j < k ==> !(#[trigger] before[j]).has_unknown(),
                    Tree::leaves_of(before).len() <= i32::MAX,
                    PageTreeNode::views(kids@).take(i as int) == Tree::pruned_kids(
                        before.take(k),
                        m0,
                    ),
                    state@ == m0.after(Tree::leaves_of(before.take(k))),
                    subtract_count == Tree::leaves_of(before.take(k)).len() - Tree::leaves_of(
                        Tree::pruned_kids(before.take(k), m0),
                    ).len(),
                    0 <= subtract_count,
                decreases orig.len() - k,
            {
                let ghost here = state@;
                let ghost kid = before[k];
                let ghost done = PageTreeNode::views(kids@).take(i as int);
                proof {
                    assert(kids@[i as int] == orig@[k]);
                    assert(before.take(k + 1).drop_last() =~= before.take(k));
                    assert(before.take(k + 1).last() == kid);
                    lemma_leaves_of_take(before, k + 1);
                    lemma_after_concat(m0, Tree::leaves_of(before.take(k)), kid.leaves());
                    lemma_removed_bounds(kid, here);
                }
                match filter_page_tree_helper(&mut kids[i], state) {
                    Err(e) => {
                        assert(before[k].has_unknown());
                        return Err(e);
                    },
                    Ok(FilterAction::KeepKid) => {
                        proof {
                            assert(PageTreeNode::views(kids@).take(i + 1) =~= done.push(
                                kid.pruned(here),
                            ));
                            lemma_leaves_of_push(done, kid.pruned(here));
                        }
                        i += 1;
                    },
                    Ok(FilterAction::RemoveKid) => {
                        kids.remove(i);
                        proof {
                            assert(PageTreeNode::views(kids@).take(i as int) =~= done);
                        }
                        subtract_count += 1;
                    },
                    Ok(FilterAction::Subtree { subtract_count: n }) => {
                        proof {
                            assert(PageTreeNode::views(kids@).take(i + 1) =~= done.push(
                                kid.pruned(here),
                            ));
                            lemma_leaves_of_push(done, kid.pruned(here));
                        }
                        subtract_count += n;
                        i += 1;
                    },
                }
                proof {
                    k = k + 1;
                }
            }
            proof {
                assert(before.take(k) =~= before);
                assert(PageTreeNode::views(kids@).take(i as int) =~= PageTreeNode::views(kids@));
            }
            if subtract_count > 0 {
                *count = *count - subtract_count;
            }
            Ok(FilterAction::Subtree { subtract_count })
        },
    }
}

/// Filters a whole page tree from its root, which the walk reaches in state
/// `state`. The root itself stays, whatever it is.
pub fn filter_page_tree(root: &mut PageTreeNode, state: &mut MatchState) -> (result: Result<
    (),
    StructuralError,
>)
    requires
        old(root)@.counts_fit(),
    ensures
        result is Err <==> old(root)@.has_unknown(),
        result is Ok ==> {
            &&& final(root)@ == old(root)@.pruned(old(state)@)
            &&& final(state)@ == old(state)@.after(old(root)@.leaves())
        },
        result is Ok && old(root)@.counts_hold() ==> final(root)@.counts_hold(),
        result is Ok && !(old(root)@ is Page) ==> final(root)@.leaves() == old(state)@.kept(
            old(root)@.leaves(),
        ),
{
    proof {
        if !(old(root)@ is Page) {
            lemma_pruned_leaves(old(root)@, old(state)@);
        }
    }
    match filter_page_tree_helper(root, state) {
        Ok(_) => Ok(()),
        Err(e) => Err(e),
    }
}

} // verus!
