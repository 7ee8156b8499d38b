pub mod naive_bayes;

use vstd::prelude::*;

verus! {

use crate::bayes::naive_bayes::{
    apply_doc, apply_docs, can_absorb, can_absorb_all, docs_view, ScoreCounts, Tables,
};

/// The naive-Bayes classifier in its prediction-oriented form: the same
/// three count tables, backed by the classifier in `naive_bayes`, with
/// `predict` in place of `classify`.
pub struct NaiveBayes {
    pub(crate) inner: naive_bayes::NaiveBayes,
}

impl NaiveBayes {
    /// The backing classifier.
    pub open(crate) spec fn view_inner(self) -> naive_bayes::NaiveBayes {
        self.inner
    }

    /// Structural invariant, inherited from the backing classifier.
    pub open(crate) spec fn wf(self) -> bool {
        self.inner.wf()
    }

    /// The three count tables.
    pub open(crate) spec fn tables(self) -> Tables {
        self.inner.tables()
    }

    /// Labels in first-training order.
    pub open(crate) spec fn labels(self) -> Seq<Seq<char>> {
        self.inner.labels()
    }

    /// An empty classifier.
    pub fn new() -> (r: NaiveBayes)
        ensures
            r.wf(),
            r.labels() == Seq::<Seq<char>>::empty(),
            r.tables() == crate::bayes::naive_bayes::empty_tables(),
    {
        let inner = naive_bayes::NaiveBayes::new();
        proof {
            assert(inner.tables() == crate::bayes::naive_bayes::empty_tables());
        }
        NaiveBayes { inner }
    }

    /// Record one document under `label`.
    pub fn train(&mut self, label: String, token_vec: Vec<&str>)
        requires
            old(self).wf(),
            can_absorb(old(self).tables(), (label@, token_vec.deep_view())),
        ensures
            final(self).wf(),
            final(self).tables() == apply_doc(
                old(self).tables(),
                (label@, token_vec.deep_view()),
            ),
    {
        self.inner.train(label, token_vec);
    }

    /// Train on each document of `documents`, in order.
    pub fn bulk_train(&mut self, documents: Vec<(String, Vec<&str>)>)
        requires
            old(self).wf(),
            can_absorb_all(old(self).tables(), docs_view(documents@)),
        ensures
            final(self).wf(),
            final(self).tables() == apply_docs(old(self).tables(), docs_view(documents@)),
    {
        self.inner.bulk_train(documents);
    }

    /// Whether `label` has ever been trained.
    pub fn has_label(&self, label: &str) -> (r: bool)
        ensures
            r == self.tables().0.dom().contains(label@),
    {
        self.inner.has_label(label)
    }

    /// The label with the highest score on `input`, or `None` when no
    /// label has been trained.  Ties go to the label trained earliest.
    pub fn predict(&self, input: &Vec<&str>) -> (r: Option<String>)
        requires
            self.wf(),
        ensures
            r is None <==> self.labels().len() == 0,
            r matches Some(l) ==> exists|i: int|
                #[trigger] self.view_inner().is_first_best(input.deep_view(), i) && l@
                    == self.labels()[i],
    {
        let r = self.inner.classify(input);
        proof {
            if r is Some {
                let l = r->Some_0;
                let i = choose|i: int|
                    #[trigger] self.inner.is_first_best(input.deep_view(), i) && l@
                        == self.inner.labels()[i];
                assert(self.view_inner().is_first_best(input.deep_view(), i) && l@
                    == self.labels()[i]);
            }
        }
        r
    }

    /// The counts behind `label`'s score on `token_vec`, or `None` exactly
    /// when the label was never trained.
    pub fn score_counts(&self, label: &str, token_vec: &Vec<&str>) -> (r: Option<ScoreCounts>)
        ensures
            r is Some <==> self.tables().0.dom().contains(label@),
    {
        self.inner.score_counts(label, token_vec)
    }

    /// The number of documents trained under `label`.
    pub fn doc_count_of(&self, label: &str) -> (r: Option<usize>)
        ensures
            r is Some <==> self.tables().0.dom().contains(label@),
            r matches Some(c) ==> c == self.tables().0[label@],
    {
        self.inner.doc_count_of(label)
    }

    /// The trained labels, in first-training order.
    pub fn label_list(&self) -> (r: Vec<String>)
        ensures
            r@.map_values(|s: String| s@) == self.labels(),
    {
        self.inner.label_list()
    }

    /// The backing classifier, for scoring and persistence.
    pub fn counts(&self) -> (r: &naive_bayes::NaiveBayes)
        ensures
            r == self.view_inner(),
    {
        &self.inner
    }

    /// A classifier over an existing count table.
    pub fn from_counts(inner: naive_bayes::NaiveBayes) -> (r: NaiveBayes)
        ensures
            r.view_inner() == inner,
            r.wf() == inner.wf(),
    {
        NaiveBayes { inner }
    }
}

} // verus!
