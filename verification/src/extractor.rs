//! The extractor: from a decoded document and a request to the document that
//! holds the requested exercises and nothing else.

use crate::filter::{
    filter_page_tree, lemma_pruned_counts_hold, lemma_pruned_leaves, read_contents,
};
use crate::labels::{label_of, lemma_after_unseen, observed, MatchState, Matching};
use crate::tree::{PageTreeNode, Tree};
use vstd::prelude::*;

verus! {

/// The root of a document: where its page tree and its outline are found.
#[derive(Debug, PartialEq, Eq)]
pub struct Catalog {
    /// The root of the page tree, where the catalog leads to one.
    pub pages: Option<PageTreeNode>,
    /// The identity of the outline (the bookmarks), where the document has
    /// one. An outline points at pages.
    pub outlines: Option<u64>,
}

/// A decoded document, as far as extraction looks into it.
#[derive(Debug, PartialEq, Eq)]
pub struct Document {
    /// The catalog, where the document leads to one.
    pub catalog: Option<Catalog>,
}

/// The mathematical picture of a [`Catalog`].
pub ghost struct CatalogView {
    pub pages: Option<Tree>,
    pub outlines: Option<u64>,
}

/// The mathematical picture of a [`Document`].
pub ghost struct DocumentView {
    pub catalog: Option<CatalogView>,
}

impl View for Catalog {
    type V = CatalogView;

    open spec fn view(&self) -> CatalogView {
        CatalogView {
            pages: match self.pages {
                Some(tree) => Some(tree@),
                None => None,
            },
            outlines: self.outlines,
        }
    }
}

impl View for Document {
    type V = DocumentView;

    open spec fn view(&self) -> DocumentView {
        DocumentView {
            catalog: match self.catalog {
                Some(catalog) => Some(catalog@),
                None => None,
            },
        }
    }
}

/// Why an extraction gave no document.
#[derive(Debug, PartialEq, Eq)]
pub enum ExtractError {
    /// The document could not be decoded or encoded; the message says why.
    /// Extraction itself never fails so: the variant is for those who decode
    /// before it and encode after it.
    Mupdf(String),
    /// The document does not have the shape of a document: it leads to no
    /// catalog or to no page tree, its page tree holds a node that is neither
    /// a page nor a group of pages, or a count in its page tree is so far off
    /// that it cannot be lowered by the number of pages beneath it.
    InvalidDoc,
    /// Some requested exercise number is announced by no page.
    MissingExercise,
}

impl DocumentView {
    /// The page tree of the document, where it leads to one.
    pub open spec fn page_tree(self) -> Option<Tree> {
        match self.catalog {
            Some(catalog) => catalog.pages,
            None => None,
        }
    }

    /// The document has the shape of a document: it leads to a page tree, in
    /// which every node that says what it is is a page or a group of pages,
    /// and whose counts fit.
    pub open spec fn well_shaped(self) -> bool {
        match self.page_tree() {
            Some(tree) => !tree.has_unknown() && tree.counts_fit(),
            None => false,
        }
    }

    /// What extracting the exercises `requested` from the document gives.
    ///
    /// A document that is not well shaped is invalid. If some requested
    /// number is announced by no page, an exercise is missing. Otherwise the
    /// result is the document with its page tree filtered from the start of
    /// the walk, and without its outline.
    pub open spec fn extracted(self, requested: Set<i32>) -> Result<DocumentView, ExtractError> {
        match self.page_tree() {
            None => Err(ExtractError::InvalidDoc),
            Some(tree) => if !self.well_shaped() {
                Err(ExtractError::InvalidDoc)
            } else if !requested.subset_of(observed(tree.leaves())) {
                Err(ExtractError::MissingExercise)
            } else {
                Ok(
                    DocumentView {
                        catalog: Some(
                            CatalogView {
                                pages: Some(tree.pruned(Matching::start(requested))),
                                outlines: None,
                            },
                        ),
                    },
                )
            },
        }
    }
}

/// Extraction is complete and exact: from a well-shaped document whose pages
/// announce every requested number, it succeeds; and the leaf pages of the
/// result are the leaf pages of the document on which a requested number is
/// in force, each of them, no other, in their order. Counts that were true
/// stay true. (A page tree that is a single leaf page has no node above the
/// page to detach it from, and is left as it is.)
pub proof fn lemma_extraction_complete(doc: DocumentView, requested: Set<i32>)
    requires
        doc.well_shaped(),
        requested.subset_of(observed(doc.page_tree().unwrap().leaves())),
    ensures
        doc.extracted(requested) is Ok,
        doc.extracted(requested).unwrap().catalog.unwrap().outlines is None,
        doc.extracted(requested).unwrap().page_tree() is Some,
        !(doc.page_tree().unwrap() is Page) ==> doc.extracted(
            requested,
        ).unwrap().page_tree().unwrap().leaves() == Matching::start(requested).kept(
            doc.page_tree().unwrap().leaves(),
        ),
        doc.page_tree().unwrap().counts_hold() ==> doc.extracted(
            requested,
        ).unwrap().page_tree().unwrap().counts_hold(),
{
    let tree = doc.page_tree().unwrap();
    let start = Matching::start(requested);
    if !(tree is Page) {
        lemma_pruned_leaves(tree, start);
    }
    if tree.counts_hold() {
        lemma_pruned_counts_hold(tree, start);
    }
}

/// An exercise that the document lacks fails the extraction: from a
/// well-shaped document in which some requested number is announced by no
/// page, nothing is extracted.
pub proof fn lemma_missing_exercise(doc: DocumentView, requested: Set<i32>, n: i32)
    requires
        doc.well_shaped(),
        requested.contains(n),
        !observed(doc.page_tree().unwrap().leaves()).contains(n),
    ensures
        doc.extracted(requested) == Err::<DocumentView, ExtractError>(
            ExtractError::MissingExercise,
        ),
{
}

/// Extracts exercises from one source document.
///
/// The extractor holds the bytes of the source, which never change. Every
/// extraction works on a document freshly decoded from them, so that none
/// sees what another took out.
pub struct ExerciseExtractor<'a> {
    doc_bytes: &'a [u8],
}

impl<'a> View for ExerciseExtractor<'a> {
    type V = Seq<u8>;

    closed spec fn view(&self) -> Seq<u8> {
        self.doc_bytes@
    }
}

impl<'a> ExerciseExtractor<'a> {
    /// An extractor for the source document `doc_bytes`.
    pub fn new(doc_bytes: &'a [u8]) -> (extractor: Self)
        ensures
            extractor@ == doc_bytes@,
    {
        Self { doc_bytes }
    }

    /// The bytes of the source document.
    pub fn doc_bytes(&self) -> (bytes: &'a [u8])
        ensures
            bytes@ == self@,
    {
        self.doc_bytes
    }

    /// Reads the exercise number that `page` announces. Only a leaf page
    /// with readable contents can announce one.
    pub fn read_exercise_number(page: &PageTreeNode) -> (label: Option<i32>)
        ensures
            label == label_of(page@),
    {
        match page {
            PageTreeNode::Page { contents, .. } => read_contents(contents),
            _ => None,
        }
    }

    /// Extracts the exercises `exercise_numbers` from `doc`, a fresh decoding
    /// of the source.
    ///
    /// On success the result is `doc` with exactly the pages of the requested
    /// exercises left in its page tree, every count lowered accordingly, and
    /// the outline taken away, since it may point at pages that are gone. On
    /// failure there is no document: what the walk had done to `doc` by then
    /// is dropped with it.
    pub fn extract(&self, doc: Document, exercise_numbers: &[i32]) -> (result: Result<
        Document,
        ExtractError,
    >)
        ensures
            match result {
                Ok(out) => doc@.extracted(exercise_numbers@.to_set()) == Ok::<
                    DocumentView,
                    ExtractError,
                >(out@),
                Err(e) => doc@.extracted(exercise_numbers@.to_set()) == Err::<
                    DocumentView,
                    ExtractError,
                >(e),
            },
    {
        let ghost requested = exercise_numbers@.to_set();
        let catalog = match doc.catalog {
            Some(catalog) => catalog,
            None => {
                return Err(ExtractError::InvalidDoc);
            },
        };
        let mut tree = match catalog.pages {
            Some(tree) => tree,
            None => {
                return Err(ExtractError::InvalidDoc);
            },
        };
        if !tree.counts_fit() {
            return Err(ExtractError::InvalidDoc);
        }
        let ghost source = tree@;
        let mut state = MatchState::new(exercise_numbers);
        match filter_page_tree(&mut tree, &mut state) {
            Ok(()) => {},
            Err(_) => {
                return Err(ExtractError::InvalidDoc);
            },
        }
        proof {
            lemma_after_unseen(Matching::start(requested), source.leaves());
            let left = requested.difference(observed(source.leaves()));
            if requested.subset_of(observed(source.leaves())) {
                assert(left =~= Set::<i32>::empty());
            } else {
                let n = choose|n: i32|
                    requested.contains(n) && !observed(source.leaves()).contains(n);
                assert(left.contains(n));
            }
        }
        if !state.all_seen() {
            return Err(ExtractError::MissingExercise);
        }
        Ok(Document { catalog: Some(Catalog { pages: Some(tree), outlines: None }) })
    }
}

} // verus!
