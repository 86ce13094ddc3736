//! Sticky labels: which exercise each page belongs to, and which pages a
//! request selects.
//!
//! Only the first page of an exercise announces its number. The number is in
//! force from that page on, over every page that announces nothing, until a
//! page announces another. A request names exercise numbers, and selects the
//! pages on which one of them is in force.

use crate::scanner::label_in;
use crate::tree::Tree;
use vstd::prelude::*;
use vstd::slice::slice_to_vec;

verus! {

/// The exercise number that a leaf page announces.
pub open spec fn label_of(leaf: Tree) -> Option<i32> {
    match leaf {
        Tree::Page { contents: Some(bytes), .. } => label_in(bytes),
        _ => None,
    }
}

/// The numbers that the pages `leaves` announce.
pub open spec fn observed(leaves: Seq<Tree>) -> Set<i32> {
    Set::new(
        |n: i32| exists|i: int| 0 <= i < leaves.len() && label_of(#[trigger] leaves[i]) == Some(n),
    )
}

/// Where a walk over the pages stands: the request, the number in force, and
/// the requested numbers that no page has announced so far.
pub ghost struct Matching {
    pub requested: Set<i32>,
    pub active: Option<i32>,
    pub unseen: Set<i32>,
}

impl Matching {
    /// The state before the first page: no number is in force, and none of
    /// the requested numbers has been seen.
    pub open spec fn start(requested: Set<i32>) -> Matching {
        Matching { requested, active: None, unseen: requested }
    }

    /// The state after a page that announces `label`: a number that is
    /// announced comes into force and counts as seen; a page that announces
    /// nothing changes nothing.
    pub open spec fn observe(self, label: Option<i32>) -> Matching {
        match label {
            Some(n) => Matching { active: Some(n), unseen: self.unseen.remove(n), ..self },
            None => self,
        }
    }

    /// The number in force is one that was asked for.
    pub open spec fn selects(self) -> bool {
        match self.active {
            Some(n) => self.requested.contains(n),
            None => false,
        }
    }

    /// The state after the pages `leaves`, visited in order.
    pub open spec fn after(self, leaves: Seq<Tree>) -> Matching
        decreases leaves.len(),
    {
        if leaves.len() == 0 {
            self
        } else {
            self.after(leaves.drop_last()).observe(label_of(leaves.last()))
        }
    }

    /// The request selects the page at index `i` of `leaves`: once the walk
    /// has visited the pages up to and including it, a requested number is in
    /// force.
    pub open spec fn selects_at(self, leaves: Seq<Tree>, i: int) -> bool {
        self.after(leaves.take(i + 1)).selects()
    }

    /// The pages among `leaves` that the request selects, in order: those on
    /// which, their own announcement included, a requested number is in force.
    pub open spec fn kept(self, leaves: Seq<Tree>) -> Seq<Tree>
        decreases leaves.len(),
    {
        if leaves.len() == 0 {
            Seq::empty()
        } else if self.after(leaves).selects() {
            self.kept(leaves.drop_last()).push(leaves.last())
        } else {
            self.kept(leaves.drop_last())
        }
    }
}

/// Visiting a single page: it is kept exactly when, once its announcement is
/// taken in, the request selects.
pub proof fn lemma_single_page(m: Matching, leaf: Tree)
    ensures
        m.after(seq![leaf]) == m.observe(label_of(leaf)),
        m.kept(seq![leaf]) == if m.observe(label_of(leaf)).selects() {
            seq![leaf]
        } else {
            Seq::<Tree>::empty()
        },
{
    let one = seq![leaf];
    assert(one.drop_last() =~= Seq::<Tree>::empty());
    assert(one.last() == leaf);
    assert(m.after(one.drop_last()) == m);
    assert(m.kept(one.drop_last()) =~= Seq::<Tree>::empty());
    assert(Seq::<Tree>::empty().push(leaf) =~= one);
}

/// Visiting one run of pages and then another is visiting them all.
pub proof fn lemma_after_concat(m: Matching, a: Seq<Tree>, b: Seq<Tree>)
    ensures
        m.after(a + b) == m.after(a).after(b),
    decreases b.len(),
{
    if b.len() == 0 {
        assert(a + b =~= a);
    } else {
        assert((a + b).drop_last() =~= a + b.drop_last());
        assert((a + b).last() == b.last());
        lemma_after_concat(m, a, b.drop_last());
    }
}

/// The pages kept of two runs are those kept of the first, then those kept of
/// the second from the state in which the first run leaves the walk.
pub proof fn lemma_kept_concat(m: Matching, a: Seq<Tree>, b: Seq<Tree>)
    ensures
        m.kept(a + b) == m.kept(a) + m.after(a).kept(b),
    decreases b.len(),
{
    if b.len() == 0 {
        assert(a + b =~= a);
        assert(m.kept(a) + m.after(a).kept(b) =~= m.kept(a));
    } else {
        assert((a + b).drop_last() =~= a + b.drop_last());
        assert((a + b).last() == b.last());
        lemma_kept_concat(m, a, b.drop_last());
        lemma_after_concat(m, a, b);
        let init = m.kept(a) + m.after(a).kept(b.drop_last());
        if m.after(a + b).selects() {
            assert(init.push(b.last()) =~= m.kept(a) + m.after(a).kept(b.drop_last()).push(
                b.last(),
            ));
        }
    }
}

/// The pages kept are the pages selected, no more and no fewer: every page
/// that is kept stands in `leaves` at an index that the request selects, and
/// the page at every index that the request selects is kept.
pub proof fn lemma_kept_exactly(m: Matching, leaves: Seq<Tree>)
    ensures
        forall|j: int|
            0 <= j < m.kept(leaves).len() ==> exists|i: int|
                0 <= i < leaves.len() && m.selects_at(leaves, i) && leaves[i] == #[trigger] m.kept(
                    leaves,
                )[j],
        forall|i: int|
            0 <= i < leaves.len() && #[trigger] m.selects_at(leaves, i) ==> m.kept(leaves).contains(
                leaves[i],
            ),
    decreases leaves.len(),
{
    if leaves.len() > 0 {
        let init = leaves.drop_last();
        let last = leaves.len() - 1;
        lemma_kept_exactly(m, init);
        assert(leaves.take(last + 1) =~= leaves);
        assert forall|i: int| 0 <= i < init.len() implies m.selects_at(init, i) == m.selects_at(
            leaves,
            i,
        ) by {
            assert(init.take(i + 1) =~= leaves.take(i + 1));
        }
        let kept = m.kept(leaves);
        let before = m.kept(init);
        assert forall|j: int| 0 <= j < kept.len() implies exists|i: int|
            0 <= i < leaves.len() && m.selects_at(leaves, i) && leaves[i] == #[trigger] kept[j] by {
            if j < before.len() {
                assert(kept[j] == before[j]);
                let i = choose|i: int|
                    0 <= i < init.len() && m.selects_at(init, i) && init[i] == before[j];
                assert(m.selects_at(leaves, i) && leaves[i] == kept[j]);
            } else {
                assert(m.selects_at(leaves, last) && leaves[last] == kept[j]);
            }
        }
        assert forall|i: int|
            0 <= i < leaves.len() && #[trigger] m.selects_at(leaves, i) implies kept.contains(
            leaves[i],
        ) by {
            if i < last {
                assert(m.selects_at(init, i));
                assert(before.contains(init[i]));
                let j = choose|j: int| 0 <= j < before.len() && before[j] == init[i];
                assert(kept[j] == leaves[i]);
            } else {
                assert(kept[kept.len() - 1] == leaves[i]);
            }
        }
    }
}

/// A walk never changes the request, and strikes from the unseen numbers
/// exactly those that the pages announce.
pub proof fn lemma_after_unseen(m: Matching, leaves: Seq<Tree>)
    ensures
        m.after(leaves).requested == m.requested,
        m.after(leaves).unseen == m.unseen.difference(observed(leaves)),
    decreases leaves.len(),
{
    if leaves.len() == 0 {
        assert(m.unseen.difference(observed(leaves)) =~= m.unseen);
    } else {
        let init = leaves.drop_last();
        lemma_after_unseen(m, init);
        assert forall|n: i32| observed(leaves).contains(n) <==> (observed(init).contains(n)
            || label_of(leaves.last()) == Some(n)) by {
            if observed(init).contains(n) {
                let i = choose|i: int|
                    0 <= i < init.len() && label_of(#[trigger] init[i]) == Some(n);
                assert(leaves[i] == init[i]);
            }
            if label_of(leaves.last()) == Some(n) {
                assert(leaves[leaves.len() - 1] == leaves.last());
            }
            if observed(leaves).contains(n) {
                let i = choose|i: int|
                    0 <= i < leaves.len() && label_of(#[trigger] leaves[i]) == Some(n);
                if i < init.len() {
                    assert(init[i] == leaves[i]);
                }
            }
        }
        assert(m.after(leaves).unseen =~= m.unseen.difference(observed(leaves)));
    }
}

/// A page that announces a number puts it in force for itself and for every
/// page after it, up to the next page that announces one.
pub proof fn lemma_label_is_sticky(m: Matching, leaves: Seq<Tree>, j: int, i: int)
    requires
        0 <= j <= i < leaves.len(),
        label_of(leaves[j]) is Some,
        forall|k: int| j < k <= i ==> label_of(#[trigger] leaves[k]) is None,
    ensures
        m.after(leaves.take(i + 1)).active == label_of(leaves[j]),
        m.selects_at(leaves, i) == m.requested.contains(label_of(leaves[j]).unwrap()),
    decreases i - j,
{
    let upto = leaves.take(i + 1);
    assert(upto.last() == leaves[i]);
    assert(upto.drop_last() =~= leaves.take(i));
    lemma_after_unseen(m, upto);
    if j < i {
        lemma_label_is_sticky(m, leaves, j, i - 1);
    }
}

/// Before the first page that announces a number, the number that was in
/// force at the start stays in force. At the start of a document none is, so
/// those pages belong to no exercise and no request selects them.
pub proof fn lemma_unlabelled_pages(m: Matching, leaves: Seq<Tree>, i: int)
    requires
        0 <= i < leaves.len(),
        forall|k: int| 0 <= k <= i ==> label_of(#[trigger] leaves[k]) is None,
    ensures
        m.after(leaves.take(i + 1)) == m,
        m.active is None ==> !m.selects_at(leaves, i),
    decreases i,
{
    let upto = leaves.take(i + 1);
    assert(upto.last() == leaves[i]);
    assert(upto.drop_last() =~= leaves.take(i));
    if 0 < i {
        lemma_unlabelled_pages(m, leaves, i - 1);
    }
}

/// The state of a walk over the pages of a tree, as the filter carries it
/// from page to page.
#[derive(Debug, PartialEq, Eq)]
pub struct MatchState {
    /// The exercise numbers that were asked for.
    pub requested: Vec<i32>,
    /// The number in force, once a page has announced one.
    pub active: Option<i32>,
    /// The requested numbers that no page has announced yet.
    pub unseen: Vec<i32>,
}

impl View for MatchState {
    type V = Matching;

    open spec fn view(&self) -> Matching {
        Matching {
            requested: self.requested@.to_set(),
            active: self.active,
            unseen: self.unseen@.to_set(),
        }
    }
}

/// Tells whether `x` is among `items`.
pub fn contains(items: &Vec<i32>, x: i32) -> (r: bool)
    ensures
        r == items@.contains(x),
{
    let mut i: usize = 0;
    while i < items.len()
        invariant
            i <= items.len(),
            forall|j: int| 0 <= j < i ==> items@[j] != x,
        decreases items.len() - i,
    {
        if items[i] == x {
            return true;
        }
        i += 1;
    }
    false
}

/// Takes every occurrence of `x` out of `items`. The order of what is left is
/// not kept.
pub fn strike(items: &mut Vec<i32>, x: i32)
    ensures
        final(items)@.to_set() == old(items)@.to_set().remove(x),
{
    let mut i: usize = 0;
    while i < items.len()
        invariant
            i <= items.len(),
            forall|j: int| 0 <= j < i ==> items@[j] != x,
            forall|y: i32| y != x ==> (items@.contains(y) <==> old(items)@.contains(y)),
        decreases items.len() - i,
    {
        if items[i] == x {
            let ghost before = items@;
            items.swap_remove(i);
            proof {
                assert forall|y: i32| y != x implies (items@.contains(y) <==> before.contains(
                    y,
                )) by {
                    if items@.contains(y) {
                        let j = choose|j: int| 0 <= j < items@.len() && items@[j] == y;
                        if j == i {
                            assert(before[before.len() - 1] == y);
                        } else {
                            assert(before[j] == y);
                        }
                    }
                    if before.contains(y) {
                        let j = choose|j: int| 0 <= j < before.len() && before[j] == y;
                        if j == before.len() - 1 {
                            assert(items@[i as int] == y);
                        } else {
                            assert(items@[j] == y);
                        }
                    }
                }
            }
        } else {
            i += 1;
        }
    }
    assert(items@.to_set() =~= old(items)@.to_set().remove(x));
}

impl MatchState {
    /// The state before the first page, for a request of `requested`.
    pub fn new(requested: &[i32]) -> (state: MatchState)
        ensures
            state@ == Matching::start(requested@.to_set()),
    {
        MatchState {
            requested: slice_to_vec(requested),
            active: None,
            unseen: slice_to_vec(requested),
        }
    }

    /// Visits a page that announces `label`, and tells whether the request
    /// selects the page.
    pub fn observe(&mut self, label: Option<i32>) -> (keep: bool)
        ensures
            final(self)@ == old(self)@.observe(label),
            keep == final(self)@.selects(),
    {
        if let Some(n) = label {
            self.active = Some(n);
            strike(&mut self.unseen, n);
        }
        match self.active {
            Some(n) => contains(&self.requested, n),
            None => false,
        }
    }

    /// Tells whether every requested number has been announced by some page.
    pub fn all_seen(&self) -> (r: bool)
        ensures
            r == (self@.unseen == Set::<i32>::empty()),
    {
        let r = self.unseen.len() == 0;
        proof {
            if r {
                assert(self@.unseen =~= Set::<i32>::empty());
            } else {
                assert(self.unseen@.contains(self.unseen@[0]));
                assert(self@.unseen.contains(self.unseen@[0]));
            }
        }
        r
    }
}

} // verus!
