use exercise_extractor::tree::{classify, NodeKind, PageTreeNode};

fn page(id: u64) -> PageTreeNode {
    PageTreeNode::Page { id, contents: None }
}

fn pages(id: u64, kids: Vec<PageTreeNode>, count: i32) -> PageTreeNode {
    PageTreeNode::Pages { id, kids, count }
}

#[test]
fn classifies_nodes_by_the_name_of_their_type() {
    assert_eq!(classify(Some(b"Page")), NodeKind::Page);
    assert_eq!(classify(Some(b"Pages")), NodeKind::Pages);
    assert_eq!(classify(None), NodeKind::Untyped);
    assert_eq!(classify(Some(b"Catalog")), NodeKind::Unknown);
    assert_eq!(classify(Some(b"")), NodeKind::Unknown);
    assert_eq!(classify(Some(b"page")), NodeKind::Unknown);
    assert_eq!(classify(Some(b"Pag")), NodeKind::Unknown);
    assert_eq!(classify(Some(b"Pagess")), NodeKind::Unknown);
}

#[test]
fn a_node_knows_its_identity_and_kind() {
    assert_eq!(page(3).id(), 3);
    assert_eq!(page(3).kind(), NodeKind::Page);
    assert_eq!(pages(4, vec![], 0).id(), 4);
    assert_eq!(pages(4, vec![], 0).kind(), NodeKind::Pages);
    assert_eq!(PageTreeNode::Untyped { id: 5 }.id(), 5);
    assert_eq!(PageTreeNode::Untyped { id: 5 }.kind(), NodeKind::Untyped);
    assert_eq!(PageTreeNode::Unknown { id: 6 }.id(), 6);
    assert_eq!(PageTreeNode::Unknown { id: 6 }.kind(), NodeKind::Unknown);
}

#[test]
fn true_counts_hold() {
    assert!(page(1).counts_hold());
    assert!(pages(1, vec![], 0).counts_hold());
    assert!(pages(1, vec![page(2), page(3)], 2).counts_hold());
    let nested = pages(
        1,
        vec![
            pages(2, vec![page(3), page(4)], 2),
            page(5),
            PageTreeNode::Untyped { id: 6 },
            pages(7, vec![pages(8, vec![page(9)], 1)], 1),
        ],
        4,
    );
    assert!(nested.counts_hold());
}

#[test]
fn false_counts_do_not_hold() {
    assert!(!pages(1, vec![], 1).counts_hold());
    assert!(!pages(1, vec![page(2), page(3)], 3).counts_hold());
    assert!(!pages(1, vec![page(2), page(3)], -2).counts_hold());
    let wrong_below = pages(1, vec![pages(2, vec![page(3), page(4)], 1), page(5)], 3);
    assert!(!wrong_below.counts_hold());
    let wrong_above = pages(1, vec![pages(2, vec![page(3), page(4)], 2), page(5)], 2);
    assert!(!wrong_above.counts_hold());
}

#[test]
fn counts_fit_unless_they_could_overflow() {
    assert!(page(1).counts_fit());
    assert!(PageTreeNode::Unknown { id: 1 }.counts_fit());
    assert!(pages(1, vec![page(2), page(3)], 2).counts_fit());
    assert!(pages(1, vec![page(2), page(3)], 17).counts_fit());
    assert!(pages(1, vec![page(2), page(3)], -17).counts_fit());
    assert!(pages(1, vec![page(2), page(3)], i32::MAX).counts_fit());
    assert!(pages(1, vec![page(2), page(3)], i32::MIN + 2).counts_fit());
    assert!(!pages(1, vec![page(2), page(3)], i32::MIN + 1).counts_fit());
    assert!(!pages(1, vec![page(2), page(3)], i32::MIN).counts_fit());
    assert!(pages(1, vec![], i32::MIN).counts_fit());
    let unfit_below = pages(1, vec![pages(2, vec![page(3)], i32::MIN), page(4)], 2);
    assert!(!unfit_below.counts_fit());
}
