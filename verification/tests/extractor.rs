use exercise_extractor::{Catalog, Document, ExerciseExtractor, ExtractError, PageTreeNode};

fn announcing(id: u64, n: i32) -> PageTreeNode {
    let text = format!("BT [(EXER)31(CICE)-333({})] TJ ET", n);
    PageTreeNode::Page { id, contents: Some(text.into_bytes()) }
}

fn silent(id: u64) -> PageTreeNode {
    PageTreeNode::Page { id, contents: Some(b"BT (suite) Tj ET".to_vec()) }
}

fn pages(id: u64, kids: Vec<PageTreeNode>, count: i32) -> PageTreeNode {
    PageTreeNode::Pages { id, kids, count }
}

fn with_tree(tree: PageTreeNode) -> Document {
    Document { catalog: Some(Catalog { pages: Some(tree), outlines: Some(77) }) }
}

/// A cover page, then the exercises 1 to 200, each on two pages.
fn fixture() -> Document {
    let mut groups = Vec::new();
    let mut id = 1000;
    let mut next = || {
        id += 1;
        id
    };
    groups.push(silent(next()));
    for chapter in 0..20 {
        let mut kids = Vec::new();
        for k in 1..=10 {
            kids.push(announcing(next(), chapter * 10 + k));
            kids.push(silent(next()));
        }
        groups.push(pages(next(), kids, 20));
    }
    with_tree(pages(1, groups, 401))
}

fn leaf_ids(node: &PageTreeNode, out: &mut Vec<u64>) {
    match node {
        PageTreeNode::Page { id, .. } => out.push(*id),
        PageTreeNode::Pages { kids, .. } => {
            for kid in kids {
                leaf_ids(kid, out);
            }
        }
        _ => {}
    }
}

fn kept(doc: &Document) -> Vec<u64> {
    let mut out = Vec::new();
    leaf_ids(doc.catalog.as_ref().unwrap().pages.as_ref().unwrap(), &mut out);
    out
}

#[test]
fn the_extractor_holds_its_source() {
    let source = b"%PDF-1.5 source";
    let extractor = ExerciseExtractor::new(source);
    assert_eq!(extractor.doc_bytes(), &source[..]);
    let empty = ExerciseExtractor::new(&[]);
    assert_eq!(empty.doc_bytes().len(), 0);
}

#[test]
fn reads_the_number_that_a_page_announces() {
    assert_eq!(ExerciseExtractor::read_exercise_number(&announcing(1, 105)), Some(105));
    assert_eq!(ExerciseExtractor::read_exercise_number(&silent(1)), None);
    let blank = PageTreeNode::Page { id: 1, contents: None };
    assert_eq!(ExerciseExtractor::read_exercise_number(&blank), None);
    let group = pages(1, vec![announcing(2, 105)], 1);
    assert_eq!(ExerciseExtractor::read_exercise_number(&group), None);
    assert_eq!(ExerciseExtractor::read_exercise_number(&PageTreeNode::Untyped { id: 1 }), None);
}

#[test]
fn extracts_one_exercise() {
    let extractor = ExerciseExtractor::new(b"");
    let tree = pages(1, vec![announcing(10, 1), silent(11), announcing(12, 2)], 3);
    let out = extractor.extract(with_tree(tree), &[1]);
    let expected = pages(1, vec![announcing(10, 1), silent(11)], 2);
    assert_eq!(
        out,
        Ok(Document { catalog: Some(Catalog { pages: Some(expected), outlines: None }) })
    );
}

#[test]
fn the_outline_is_taken_away_even_if_no_page_is() {
    let extractor = ExerciseExtractor::new(b"");
    let tree = pages(1, vec![announcing(10, 1), silent(11)], 2);
    let out = extractor.extract(with_tree(tree), &[1]).unwrap();
    assert_eq!(out.catalog.as_ref().unwrap().outlines, None);
    assert_eq!(kept(&out), vec![10, 11]);
}

#[test]
fn extracts_every_subset_of_a_small_document() {
    let extractor = ExerciseExtractor::new(b"");
    let make = || with_tree(pages(
        1,
        vec![
            silent(9),
            pages(2, vec![announcing(10, 1), silent(11)], 2),
            pages(3, vec![announcing(12, 2), announcing(13, 3), silent(14)], 3),
        ],
        6,
    ));
    let cases: [(&[i32], &[u64]); 8] = [
        (&[], &[]),
        (&[1], &[10, 11]),
        (&[2], &[12]),
        (&[3], &[13, 14]),
        (&[1, 2], &[10, 11, 12]),
        (&[3, 1], &[10, 11, 13, 14]),
        (&[2, 3], &[12, 13, 14]),
        (&[3, 2, 1], &[10, 11, 12, 13, 14]),
    ];
    for (request, expected) in cases {
        let out = extractor.extract(make(), request).unwrap();
        assert_eq!(kept(&out), expected.to_vec());
        assert!(out.catalog.as_ref().unwrap().pages.as_ref().unwrap().counts_hold());
    }
}

#[test]
fn extracts_from_the_large_fixture() {
    let extractor = ExerciseExtractor::new(b"");
    let out = extractor.extract(fixture(), &[105]).unwrap();
    let tree = out.catalog.as_ref().unwrap().pages.as_ref().unwrap();
    assert!(tree.counts_hold());
    assert_eq!(kept(&out).len(), 2);
    match tree {
        PageTreeNode::Pages { count, kids, .. } => {
            assert_eq!(*count, 2);
            assert_eq!(kids.len(), 20);
        }
        _ => panic!("the root is a group of pages"),
    }
    let out = extractor.extract(fixture(), &[12, 47, 105]).unwrap();
    assert_eq!(kept(&out).len(), 6);
    let out = extractor.extract(fixture(), &[200, 1]).unwrap();
    assert_eq!(kept(&out).len(), 4);
}

#[test]
fn a_missing_exercise_fails_the_extraction() {
    let extractor = ExerciseExtractor::new(b"");
    assert_eq!(extractor.extract(fixture(), &[99999]), Err(ExtractError::MissingExercise));
    assert_eq!(extractor.extract(fixture(), &[105, 99999]), Err(ExtractError::MissingExercise));
    assert_eq!(extractor.extract(fixture(), &[0]), Err(ExtractError::MissingExercise));
    assert_eq!(extractor.extract(fixture(), &[201]), Err(ExtractError::MissingExercise));
    assert_eq!(extractor.extract(fixture(), &[-1]), Err(ExtractError::MissingExercise));
}

#[test]
fn a_document_without_a_catalog_is_invalid() {
    let extractor = ExerciseExtractor::new(b"");
    assert_eq!(extractor.extract(Document { catalog: None }, &[1]), Err(ExtractError::InvalidDoc));
}

#[test]
fn a_document_without_a_page_tree_is_invalid() {
    let extractor = ExerciseExtractor::new(b"");
    let doc = Document { catalog: Some(Catalog { pages: None, outlines: None }) };
    assert_eq!(extractor.extract(doc, &[1]), Err(ExtractError::InvalidDoc));
}

#[test]
fn a_node_of_unknown_kind_makes_the_document_invalid() {
    let extractor = ExerciseExtractor::new(b"");
    let tree = pages(1, vec![announcing(10, 1), PageTreeNode::Unknown { id: 11 }], 1);
    assert_eq!(extractor.extract(with_tree(tree), &[1]), Err(ExtractError::InvalidDoc));
    let tree = pages(1, vec![announcing(10, 1), PageTreeNode::Unknown { id: 11 }], 1);
    assert_eq!(extractor.extract(with_tree(tree), &[2]), Err(ExtractError::InvalidDoc));
    assert_eq!(
        extractor.extract(with_tree(PageTreeNode::Unknown { id: 1 }), &[]),
        Err(ExtractError::InvalidDoc)
    );
}

#[test]
fn an_untyped_node_is_tolerated() {
    let extractor = ExerciseExtractor::new(b"");
    let tree = pages(1, vec![PageTreeNode::Untyped { id: 9 }, announcing(10, 1)], 1);
    let out = extractor.extract(with_tree(tree), &[1]).unwrap();
    let expected = pages(1, vec![PageTreeNode::Untyped { id: 9 }, announcing(10, 1)], 1);
    assert_eq!(out.catalog.unwrap().pages, Some(expected));
    let out = extractor.extract(with_tree(PageTreeNode::Untyped { id: 1 }), &[]).unwrap();
    assert_eq!(out.catalog.unwrap().pages, Some(PageTreeNode::Untyped { id: 1 }));
}

#[test]
fn a_count_that_cannot_be_lowered_makes_the_document_invalid() {
    let extractor = ExerciseExtractor::new(b"");
    let tree = pages(1, vec![announcing(10, 1), announcing(11, 2)], i32::MIN);
    assert_eq!(extractor.extract(with_tree(tree), &[1]), Err(ExtractError::InvalidDoc));
}

#[test]
fn pages_before_the_first_announcement_are_never_extracted() {
    let extractor = ExerciseExtractor::new(b"");
    let make = || with_tree(pages(1, vec![silent(8), silent(9), announcing(10, -1)], 3));
    let out = extractor.extract(make(), &[-1]).unwrap();
    assert_eq!(kept(&out), vec![10]);
    assert_eq!(extractor.extract(make(), &[0]), Err(ExtractError::MissingExercise));
}

#[test]
fn an_exercise_announced_twice_is_extracted_whole() {
    let extractor = ExerciseExtractor::new(b"");
    let tree = pages(
        1,
        vec![announcing(10, 1), announcing(11, 2), silent(12), announcing(13, 1), silent(14)],
        5,
    );
    let out = extractor.extract(with_tree(tree), &[1]).unwrap();
    assert_eq!(kept(&out), vec![10, 13, 14]);
}

#[test]
fn a_number_requested_twice_is_extracted_once() {
    let extractor = ExerciseExtractor::new(b"");
    let tree = pages(1, vec![announcing(10, 1), announcing(11, 2)], 2);
    let out = extractor.extract(with_tree(tree), &[2, 2]).unwrap();
    assert_eq!(kept(&out), vec![11]);
}

#[test]
fn extracting_twice_from_fresh_documents_gives_the_same() {
    let extractor = ExerciseExtractor::new(b"");
    let first = extractor.extract(fixture(), &[12, 47, 105]);
    let second = extractor.extract(fixture(), &[12, 47, 105]);
    assert!(first.is_ok());
    assert_eq!(first, second);
    let reordered = extractor.extract(fixture(), &[105, 12, 47]);
    assert_eq!(first, reordered);
}
