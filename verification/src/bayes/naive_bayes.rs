use vstd::arithmetic::power::pow;
use vstd::prelude::*;

verus! {

/// Occurrence count of one token under one label.
pub(crate) struct TokenCount {
    pub(crate) token: String,
    pub(crate) count: usize,
}

/// All counts recorded for one label: how many documents were trained
/// under it, the per-token occurrence counts, and their sum.
pub(crate) struct LabelEntry {
    pub(crate) label: String,
    pub(crate) train_count: usize,
    pub(crate) total_count: usize,
    pub(crate) tokens: Vec<TokenCount>,
}

/// Multinomial naive-Bayes document classifier.
///
/// Three co-maintained tables, kept as one entry per label: the number of
/// documents trained under the label (`train_counts` in the persisted form),
/// the occurrence count of each token across those documents
/// (`token_counts`), and the sum of the token counts (`total_counts`).
/// Entries are kept in the order in which labels were first trained.
pub struct NaiveBayes {
    pub(crate) entries: Vec<LabelEntry>,
}

/// The abstract state of a classifier: document counts per label, token
/// counts per label, and total token counts per label.
pub type Tables = (
    Map<Seq<char>, nat>,
    Map<Seq<char>, Map<Seq<char>, nat>>,
    Map<Seq<char>, nat>,
);

/// One document: a label and an ordered sequence of tokens.
pub type Doc = (Seq<char>, Seq<Seq<char>>);

/// The count stored under `k`, taking an absent key as zero.
pub open spec fn or0(m: Map<Seq<char>, nat>, k: Seq<char>) -> nat {
    if m.dom().contains(k) {
        m[k]
    } else {
        0
    }
}

/// One more occurrence of `k`.
pub open spec fn bump(m: Map<Seq<char>, nat>, k: Seq<char>) -> Map<Seq<char>, nat> {
    m.insert(k, or0(m, k) + 1)
}

/// One more occurrence of each token of `toks`, in order.
pub open spec fn add_tokens(m: Map<Seq<char>, nat>, toks: Seq<Seq<char>>) -> Map<Seq<char>, nat>
    decreases toks.len(),
{
    if toks.len() == 0 {
        m
    } else {
        add_tokens(bump(m, toks[0]), toks.drop_first())
    }
}

/// Effect of training one document on the three tables: the label's
/// document count rises by one, each token occurrence is recorded, and the
/// label's token total rises by the number of tokens.
pub open spec fn apply_doc(t: Tables, d: Doc) -> Tables {
    let inner = if t.1.dom().contains(d.0) {
        t.1[d.0]
    } else {
        Map::<Seq<char>, nat>::empty()
    };
    (
        bump(t.0, d.0),
        t.1.insert(d.0, add_tokens(inner, d.1)),
        t.2.insert(d.0, or0(t.2, d.0) + d.1.len()),
    )
}

/// Effect of training a sequence of documents, first to last.
pub open spec fn apply_docs(t: Tables, docs: Seq<Doc>) -> Tables {
    docs.fold_left(t, |acc: Tables, d: Doc| apply_doc(acc, d))
}

/// Tables with no label at all.
pub open spec fn empty_tables() -> Tables {
    (
        Map::<Seq<char>, nat>::empty(),
        Map::<Seq<char>, Map<Seq<char>, nat>>::empty(),
        Map::<Seq<char>, nat>::empty(),
    )
}

/// The machine bound under which one more document can be counted exactly.
pub open spec fn can_absorb(t: Tables, d: Doc) -> bool {
    &&& or0(t.0, d.0) + 1 <= usize::MAX
    &&& or0(t.2, d.0) + d.1.len() <= usize::MAX
}

/// The bound above, carried through a whole training sequence.
pub open spec fn can_absorb_all(t: Tables, docs: Seq<Doc>) -> bool
    decreases docs.len(),
{
    docs.len() == 0 || {
        &&& can_absorb_all(t, docs.drop_last())
        &&& can_absorb(apply_docs(t, docs.drop_last()), docs.last())
    }
}

/// First entry of `s` whose token equals `t`, if any.
pub open(crate) spec fn find_token(s: Seq<TokenCount>, t: Seq<char>) -> Option<TokenCount>
    decreases s.len(),
{
    if s.len() == 0 {
        None
    } else if s[0].token@ == t {
        Some(s[0])
    } else {
        find_token(s.drop_first(), t)
    }
}

/// First entry of `s` whose label equals `l`, if any.
pub open(crate) spec fn find_label(s: Seq<LabelEntry>, l: Seq<char>) -> Option<LabelEntry>
    decreases s.len(),
{
    if s.len() == 0 {
        None
    } else if s[0].label@ == l {
        Some(s[0])
    } else {
        find_label(s.drop_first(), l)
    }
}

/// Sum of the occurrence counts in `s`.
pub open(crate) spec fn sum_counts(s: Seq<TokenCount>) -> int
    decreases s.len(),
{
    if s.len() == 0 {
        0
    } else {
        s[0].count + sum_counts(s.drop_first())
    }
}

impl TokenCount {
    /// The pair this entry stands for.
    pub open(crate) spec fn pair(self) -> (Seq<char>, nat) {
        (self.token@, self.count as nat)
    }
}

impl LabelEntry {
    /// Token-count table of this entry, as a map.
    pub open(crate) spec fn token_map(self) -> Map<Seq<char>, nat> {
        Map::new(
            |t: Seq<char>| find_token(self.tokens@, t) is Some,
            |t: Seq<char>| find_token(self.tokens@, t)->Some_0.count as nat,
        )
    }

    /// Internal consistency of one label's entry: tokens are listed at most
    /// once, a listed token has been seen at least once, and the stored
    /// total is the sum of the token counts.
    pub open(crate) spec fn wf(self) -> bool {
        &&& forall|i: int, j: int|
            0 <= i < j < self.tokens@.len() ==> self.tokens@[i].token@ != self.tokens@[j].token@
        &&& forall|i: int| 0 <= i < self.tokens@.len() ==> #[trigger] self.tokens@[i].count >= 1
        &&& self.total_count == sum_counts(self.tokens@)
        &&& self.train_count >= 1
    }
}

impl NaiveBayes {
    /// Labels in the order in which they were first trained.
    pub open(crate) spec fn labels(self) -> Seq<Seq<char>> {
        self.entries@.map_values(|e: LabelEntry| e.label@)
    }

    /// Document counts per trained label.
    pub open(crate) spec fn doc_count(self) -> Map<Seq<char>, nat> {
        Map::new(
            |l: Seq<char>| find_label(self.entries@, l) is Some,
            |l: Seq<char>| find_label(self.entries@, l)->Some_0.train_count as nat,
        )
    }

    /// Token counts per trained label.
    pub open(crate) spec fn token_count(self) -> Map<Seq<char>, Map<Seq<char>, nat>> {
        Map::new(
            |l: Seq<char>| find_label(self.entries@, l) is Some,
            |l: Seq<char>| find_label(self.entries@, l)->Some_0.token_map(),
        )
    }

    /// Total token counts per trained label.
    pub open(crate) spec fn token_total(self) -> Map<Seq<char>, nat> {
        Map::new(
            |l: Seq<char>| find_label(self.entries@, l) is Some,
            |l: Seq<char>| find_label(self.entries@, l)->Some_0.total_count as nat,
        )
    }

    /// The entry stored for label `l`; meaningful only when one exists.
    pub open(crate) spec fn entry_of(self, l: Seq<char>) -> LabelEntry {
        find_label(self.entries@, l)->Some_0
    }

    /// The count of token `w` under label `l`, an absent label or token
    /// counting as zero.
    pub open(crate) spec fn tok_count_or0(self, l: Seq<char>, w: Seq<char>) -> nat {
        if self.token_count().dom().contains(l) {
            or0(self.token_count()[l], w)
        } else {
            0
        }
    }

    /// The three tables together.
    pub open(crate) spec fn tables(self) -> Tables {
        (self.doc_count(), self.token_count(), self.token_total())
    }

    /// Structural invariant: each label appears at most once and every
    /// entry is internally consistent.  Established by `new` and preserved
    /// by every mutation.
    pub open(crate) spec fn wf(self) -> bool {
        &&& forall|i: int, j: int|
            0 <= i < j < self.entries@.len() ==> self.entries@[i].label@ != self.entries@[j].label@
        &&& forall|i: int| 0 <= i < self.entries@.len() ==> (#[trigger] self.entries@[i]).wf()
    }

    /// An empty classifier: no labels, all three tables empty.
    pub fn new() -> (r: NaiveBayes)
        ensures
            r.wf(),
            r.labels() == Seq::<Seq<char>>::empty(),
            r.doc_count() == Map::<Seq<char>, nat>::empty(),
            r.token_count() == Map::<Seq<char>, Map<Seq<char>, nat>>::empty(),
            r.token_total() == Map::<Seq<char>, nat>::empty(),
    {
        let r = NaiveBayes { entries: Vec::new() };
        proof {
            assert(r.labels() =~= Seq::<Seq<char>>::empty());
            assert(r.doc_count() =~= Map::<Seq<char>, nat>::empty());
            assert(r.token_count() =~= Map::<Seq<char>, Map<Seq<char>, nat>>::empty());
            assert(r.token_total() =~= Map::<Seq<char>, nat>::empty());
        }
        r
    }

    /// Whether `label` has ever been trained.
    pub fn has_label(&self, label: &str) -> (r: bool)
        ensures
            r == self.doc_count().dom().contains(label@),
    {
        let owned: String = label.to_owned();
        let idx = self.find_index(&owned);
        idx.is_some()
    }

    /// Index of the entry for `label`, if one exists.
    pub(crate) fn find_index(&self, label: &String) -> (r: Option<usize>)
        ensures
            match r {
                Some(i) => {
                    &&& i < self.entries@.len()
                    &&& self.entries@[i as int].label@ == label@
                    &&& forall|j: int| 0 <= j < i ==> self.entries@[j].label@ != label@
                    &&& find_label(self.entries@, label@) == Some(self.entries@[i as int])
                },
                None => {
                    &&& find_label(self.entries@, label@) is None
                    &&& forall|j: int|
                        0 <= j < self.entries@.len() ==> self.entries@[j].label@ != label@
                },
            },
    {
        let n = self.entries.len();
        for i in 0..n
            invariant
                n == self.entries@.len(),
                forall|j: int| 0 <= j < i ==> self.entries@[j].label@ != label@,
        {
            if self.entries[i].label == *label {
                proof {
                    lemma_find_label_at(self.entries@, label@, i as int);
                }
                return Some(i);
            }
        }
        proof {
            lemma_find_label_none(self.entries@, label@);
        }
        None
    }
}

/// Index of the entry for `token` in one label's token table, if any.
fn find_token_idx(tokens: &Vec<TokenCount>, token: &String) -> (r: Option<usize>)
    ensures
        match r {
            Some(i) => {
                &&& i < tokens@.len()
                &&& tokens@[i as int].token@ == token@
                &&& forall|j: int| 0 <= j < i ==> tokens@[j].token@ != token@
                &&& find_token(tokens@, token@) == Some(tokens@[i as int])
            },
            None => {
                &&& find_token(tokens@, token@) is None
                &&& forall|j: int| 0 <= j < tokens@.len() ==> tokens@[j].token@ != token@
            },
        },
{
    let n = tokens.len();
    for i in 0..n
        invariant
            n == tokens@.len(),
            forall|j: int| 0 <= j < i ==> tokens@[j].token@ != token@,
    {
        if tokens[i].token == *token {
            proof {
                lemma_find_token_at(tokens@, token@, i as int);
            }
            return Some(i);
        }
    }
    proof {
        lemma_find_token_none(tokens@, token@);
    }
    None
}

impl NaiveBayes {
    /// Record one document under `label`: the label's document count rises
    /// by one, and each occurrence of a token in `token_vec` is counted.
    /// Tokens may repeat; each occurrence counts.  An empty token sequence
    /// only raises the document count.
    pub fn train(&mut self, label: String, token_vec: Vec<&str>)
        requires
            old(self).wf(),
            can_absorb(old(self).tables(), (label@, token_vec.deep_view())),
        ensures
            final(self).wf(),
            final(self).tables() == apply_doc(old(self).tables(), (label@, token_vec.deep_view())),
            final(self).labels() == if old(self).doc_count().dom().contains(label@) {
                old(self).labels()
            } else {
                old(self).labels().push(label@)
            },
    {
        let ghost t0 = self.tables();
        let ghost d: Doc = (label@, token_vec.deep_view());
        let ghost labels0 = self.labels();
        let ghost entries0 = self.entries@;

        let idx = self.find_index(&label);
        let i: usize;
        match idx {
            Some(j) => {
                i = j;
                let e = &mut self.entries[j];
                e.train_count = e.train_count + 1;
            },
            None => {
                i = self.entries.len();
                let fresh = LabelEntry {
                    label,
                    train_count: 1,
                    total_count: 0,
                    tokens: Vec::new(),
                };
                self.entries.push(fresh);
            },
        }
        let ghost entries1 = self.entries@;
        proof {
            if (i as int) < entries0.len() {
                assert forall|j: int|
                    0 <= j < entries0.len() && j != i implies entries1[j] == entries0[j] by {
                    assert(entries1 == entries0.update(i as int, entries1[i as int]));
                    assert(entries0.update(i as int, entries1[i as int])[j] == entries0[j]);
                }
            } else {
                assert forall|j: int| 0 <= j < entries0.len() implies entries1[j] == entries0[j] by {
                    assert(entries1 == entries0.push(entries1[i as int]));
                    assert(entries0.push(entries1[i as int])[j] == entries0[j]);
                }
            }
        }
        let ghost inner0 = if t0.1.dom().contains(d.0) {
            t0.1[d.0]
        } else {
            Map::<Seq<char>, nat>::empty()
        };
        let ghost tot0 = or0(t0.2, d.0);
        proof {
            if t0.0.dom().contains(d.0) {
                assert(find_label(entries0, d.0) == Some(entries0[i as int]));
                assert(self.entries@[i as int].token_map() =~= add_tokens(inner0, d.1.take(0)));
            } else {
                assert(self.entries@[i as int].tokens@ =~= Seq::<TokenCount>::empty());
                assert(self.entries@[i as int].token_map() =~= Map::<Seq<char>, nat>::empty());
                assert(self.entries@[i as int].token_map() =~= add_tokens(inner0, d.1.take(0)));
            }
        }

        let n = token_vec.len();
        for k in 0..n
            invariant
                n == token_vec@.len(),
                i < self.entries@.len(),
                self.entries@.len() == entries1.len(),
                d.1 == token_vec.deep_view(),
                d.1.len() == n,
                forall|j: int| 0 <= j < entries1.len() && j != i ==> self.entries@[j] == entries1[j],
                self.entries@[i as int].label == entries1[i as int].label,
                self.entries@[i as int].label@ == d.0,
                self.entries@[i as int].train_count == entries1[i as int].train_count,
                self.entries@[i as int].total_count == tot0 + k,
                tot0 + n <= usize::MAX,
                self.entries@[i as int].wf(),
                forall|j: int, j2: int|
                    0 <= j < j2 < self.entries@.len()
                        ==> self.entries@[j].label@ != self.entries@[j2].label@,
                forall|j: int|
                    0 <= j < self.entries@.len() ==> (#[trigger] self.entries@[j]).wf(),
                self.entries@[i as int].token_map() == add_tokens(inner0, d.1.take(k as int)),
        {
            let tok = token_vec[k];
            let owned: String = tok.to_owned();
            proof {
                assert(d.1[k as int] == owned@);
            }
            let ghost toks_pre = self.entries@[i as int].tokens@;
            let ti = find_token_idx(&self.entries[i].tokens, &owned);
            match ti {
                Some(j2) => {
                    proof {
                        lemma_count_le_sum(toks_pre, j2 as int);
                    }
                    let e = &mut self.entries[i];
                    let tc = &mut e.tokens[j2];
                    tc.count = tc.count + 1;
                    e.total_count = e.total_count + 1;
                    proof {
                        let x = self.entries@[i as int].tokens@[j2 as int];
                        assert forall|t: Seq<char>|
                            #[trigger] find_token(self.entries@[i as int].tokens@, t) == (if t
                                == owned@ {
                                Some(x)
                            } else {
                                find_token(toks_pre, t)
                            }) by {
                            lemma_find_token_update(toks_pre, j2 as int, x, t);
                        }
                        lemma_sum_update(toks_pre, j2 as int, x);
                        assert(self.entries@[i as int].tokens@ == toks_pre.update(j2 as int, x));
                        assert(self.entries@[i as int].wf());
                    }
                },
                None => {
                    let fresh = TokenCount { token: owned, count: 1 };
                    proof {
                        lemma_sum_push(toks_pre, fresh);
                        assert forall|t: Seq<char>|
                            #[trigger] find_token(toks_pre.push(fresh), t) == (if t
                                == fresh.token@ {
                                Some(fresh)
                            } else {
                                find_token(toks_pre, t)
                            }) by {
                            lemma_find_token_push(toks_pre, fresh, t);
                        }
                    }
                    let e = &mut self.entries[i];
                    e.tokens.push(fresh);
                    e.total_count = e.total_count + 1;
                    proof {
                        assert(self.entries@[i as int].wf());
                    }
                },
            }
            proof {
                assert(d.1.take(k + 1) =~= d.1.take(k as int).push(d.1[k as int]));
                lemma_add_tokens_snoc(inner0, d.1.take(k as int), d.1[k as int]);
                assert(self.entries@[i as int].token_map() =~= bump(
                    add_tokens(inner0, d.1.take(k as int)),
                    d.1[k as int],
                ));
            }
        }

        proof {
            assert(d.1.take(n as int) =~= d.1);
            let fin = self.entries@[i as int];
            assert(forall|j: int|
                0 <= j < entries1.len() && j != i ==> self.entries@[j] == entries1[j]);
            if t0.0.dom().contains(d.0) {
                let upd = entries0.update(i as int, fin);
                assert forall|j: int|
                    0 <= j < self.entries@.len() implies self.entries@[j] == upd[j] by {
                    if j != i {
                        assert(upd[j] == entries0[j]);
                        assert(self.entries@[j] == entries1[j]);
                        assert(entries1[j] == entries0[j]);
                    } else {
                        assert(upd[j] == fin);
                    }
                }
                assert(self.entries@ =~= upd);
            } else {
                let upd = entries0.push(fin);
                assert forall|j: int|
                    0 <= j < self.entries@.len() implies self.entries@[j] == upd[j] by {
                    if j != i {
                        assert(upd[j] == entries0[j]);
                        assert(self.entries@[j] == entries1[j]);
                        assert(entries1[j] == entries0[j]);
                    } else {
                        assert(upd[j] == fin);
                    }
                }
                assert(self.entries@ =~= upd);
            }
            assert forall|l: Seq<char>|
                #[trigger] find_label(self.entries@, l) == (if l == d.0 {
                    Some(fin)
                } else {
                    find_label(entries0, l)
                }) by {
                if t0.0.dom().contains(d.0) {
                    assert(self.entries@ =~= entries0.update(i as int, fin));
                    lemma_find_label_update(entries0, i as int, fin, l);
                } else {
                    assert(self.entries@ =~= entries0.push(fin));
                    lemma_find_label_push(entries0, fin, l);
                }
            }
            assert(fin.train_count == or0(t0.0, d.0) + 1);
            assert(self.doc_count() =~= bump(t0.0, d.0));
            assert(self.token_count() =~= t0.1.insert(d.0, add_tokens(inner0, d.1)));
            assert(self.token_total() =~= t0.2.insert(d.0, or0(t0.2, d.0) + d.1.len()));
            assert(self.labels() =~= if t0.0.dom().contains(d.0) {
                labels0
            } else {
                labels0.push(d.0)
            });
        }
    }
}

/// The documents of a training batch, as label and token sequences.
pub open spec fn docs_view(docs: Seq<(String, Vec<&str>)>) -> Seq<Doc> {
    docs.map_values(|p: (String, Vec<&str>)| (p.0@, p.1.deep_view()))
}

/// The machine bound carries down to every prefix of a training sequence.
pub proof fn lemma_can_absorb_prefix(t: Tables, docs: Seq<Doc>, i: int)
    requires
        can_absorb_all(t, docs),
        0 <= i <= docs.len(),
    ensures
        can_absorb_all(t, docs.take(i)),
    decreases docs.len() - i,
{
    if i < docs.len() {
        lemma_can_absorb_prefix(t, docs, i + 1);
        assert(docs.take(i + 1).drop_last() =~= docs.take(i));
    } else {
        assert(docs.take(i) =~= docs);
    }
}

/// Training a sequence of documents is training its prefix, then one more.
pub proof fn lemma_apply_docs_snoc(t: Tables, docs: Seq<Doc>, i: int)
    requires
        0 <= i < docs.len(),
    ensures
        apply_docs(t, docs.take(i + 1)) == apply_doc(apply_docs(t, docs.take(i)), docs[i]),
{
    assert(docs.take(i + 1).drop_last() =~= docs.take(i));
    assert(docs.take(i + 1).last() == docs[i]);
}

impl NaiveBayes {
    /// Train on each document of `documents`, in order.  Equivalent to
    /// calling `train` once per document; the resulting tables do not
    /// depend on the order of the batch.
    pub fn bulk_train(&mut self, documents: Vec<(String, Vec<&str>)>)
        requires
            old(self).wf(),
            can_absorb_all(old(self).tables(), docs_view(documents@)),
        ensures
            final(self).wf(),
            final(self).tables() == apply_docs(old(self).tables(), docs_view(documents@)),
    {
        let mut documents = documents;
        let ghost docs0 = documents@;
        let ghost dv = docs_view(docs0);
        let ghost t0 = self.tables();
        let ghost total = docs0.len() as int;
        while documents.len() > 0
            invariant
                self.wf(),
                documents@.len() <= total,
                documents@ =~= docs0.skip(total - documents@.len()),
                self.tables() == apply_docs(t0, dv.take(total - documents@.len())),
                can_absorb_all(t0, dv),
                dv == docs_view(docs0),
                total == docs0.len(),
            decreases documents@.len(),
        {
            let ghost i = total - documents@.len();
            let ghost pre = documents@;
            let (label, words) = documents.remove(0);
            proof {
                assert(pre[0] == docs0[i]);
                assert(documents@ =~= docs0.skip(i + 1));
                assert(dv[i] == (docs0[i].0@, docs0[i].1.deep_view()));
                assert(dv[i].0 == label@);
                assert(dv[i].1 == words.deep_view());
                lemma_can_absorb_prefix(t0, dv, i + 1);
                lemma_apply_docs_snoc(t0, dv, i);
                assert(dv.take(i + 1).drop_last() =~= dv.take(i));
                assert(dv.take(i + 1).last() == dv[i]);
                assert(can_absorb_all(t0, dv.take(i + 1)));
                assert(can_absorb(self.tables(), dv[i]));
            }
            self.train(label, words);
            proof {
                lemma_apply_docs_snoc(t0, dv, i);
            }
        }
        proof {
            assert(dv.take(total) =~= dv);
        }
    }
}

/// Count under which `w` is listed in `e`, taking an unlisted token as
/// zero.  An unlisted token scores exactly as one listed with count zero.
pub open(crate) spec fn entry_tok_or0(e: LabelEntry, w: Seq<char>) -> nat {
    match find_token(e.tokens@, w) {
        Some(tc) => tc.count as nat,
        None => 0,
    }
}

/// Numerator of a label's likelihood weight: the document count times the
/// product over the scored tokens of each token's count plus one.  The
/// log-space score of a label is the logarithm of this weight divided by
/// `like_den`, so weights compare exactly as scores do.
pub open(crate) spec fn like_num(e: LabelEntry, toks: Seq<Seq<char>>) -> int
    decreases toks.len(),
{
    if toks.len() == 0 {
        e.train_count as int
    } else {
        like_num(e, toks.drop_last()) * (entry_tok_or0(e, toks.last()) + 1)
    }
}

/// Denominator of a label's likelihood weight: the token total plus one,
/// raised to the number of scored tokens.
pub open(crate) spec fn like_den(e: LabelEntry, n: nat) -> int {
    pow(e.total_count + 1, n)
}

/// Whether label entry `a` scores strictly higher than `b` on `toks`:
/// the exact comparison of the two likelihood weights by cross
/// multiplication, which the logarithm keeps.
pub open(crate) spec fn entry_score_gt(a: LabelEntry, b: LabelEntry, toks: Seq<Seq<char>>) -> bool {
    like_num(a, toks) * like_den(b, toks.len()) > like_num(b, toks) * like_den(a, toks.len())
}

proof fn lemma_like_num_pos(e: LabelEntry, toks: Seq<Seq<char>>)
    requires
        e.train_count >= 1,
    ensures
        like_num(e, toks) >= 1,
    decreases toks.len(),
{
    if toks.len() > 0 {
        lemma_like_num_pos(e, toks.drop_last());
        assert(like_num(e, toks.drop_last()) * (entry_tok_or0(e, toks.last()) + 1) >= 1)
            by (nonlinear_arith)
            requires
                like_num(e, toks.drop_last()) >= 1,
                entry_tok_or0(e, toks.last()) + 1 >= 1,
        ;
    }
}

proof fn lemma_like_den_pos(e: LabelEntry, n: nat)
    ensures
        like_den(e, n) >= 1,
{
    vstd::arithmetic::power::lemma_pow_positive(e.total_count + 1, n);
}

/// If `a` outscores `b`, and `c` does not outscore `b`, then `a`
/// outscores `c`: the exact comparison is transitive across a common
/// reference label.
proof fn lemma_score_gt_chain(a: LabelEntry, b: LabelEntry, c: LabelEntry, toks: Seq<Seq<char>>)
    requires
        a.train_count >= 1,
        b.train_count >= 1,
        c.train_count >= 1,
        entry_score_gt(a, b, toks),
        !entry_score_gt(c, b, toks),
    ensures
        entry_score_gt(a, c, toks),
{
    let n = toks.len();
    let na = like_num(a, toks);
    let nb = like_num(b, toks);
    let nc = like_num(c, toks);
    let da = like_den(a, n);
    let db = like_den(b, n);
    let dc = like_den(c, n);
    lemma_like_num_pos(a, toks);
    lemma_like_num_pos(b, toks);
    lemma_like_num_pos(c, toks);
    lemma_like_den_pos(a, n);
    lemma_like_den_pos(b, n);
    lemma_like_den_pos(c, n);
    assert(na * db * dc > nb * da * dc) by (nonlinear_arith)
        requires
            na * db > nb * da,
            dc >= 1,
    ;
    assert(nc * db * da <= nb * dc * da) by (nonlinear_arith)
        requires
            nc * db <= nb * dc,
            da >= 1,
    ;
    assert(nb * da * dc == nb * dc * da) by (nonlinear_arith);
    assert(nc * db * da == nc * da * db) by (nonlinear_arith);
    assert(na * db * dc == na * dc * db) by (nonlinear_arith);
    assert(na * dc * db > nc * da * db);
    assert(na * dc > nc * da) by (nonlinear_arith)
        requires
            na * dc * db > nc * da * db,
            db >= 1,
    ;
}

impl NaiveBayes {
    /// Whether the label at index `a` scores strictly higher than the one
    /// at index `b` on the token sequence `toks`.
    pub open(crate) spec fn score_gt(self, a: int, b: int, toks: Seq<Seq<char>>) -> bool {
        entry_score_gt(self.entries@[a], self.entries@[b], toks)
    }

    /// `i` is the index of the first label attaining the highest score on
    /// `toks`: nothing outscores it, and it outscores every earlier label.
    pub open(crate) spec fn is_first_best(self, toks: Seq<Seq<char>>, i: int) -> bool {
        &&& 0 <= i < self.entries@.len()
        &&& forall|j: int| 0 <= j < self.entries@.len() ==> !(#[trigger] self.score_gt(j, i, toks))
        &&& forall|j: int| 0 <= j < i ==> #[trigger] self.score_gt(i, j, toks)
    }

    /// Count under which `token` is listed for the entry at `x`, an
    /// unlisted token counting as zero.
    fn token_count_in(&self, x: usize, token: &str) -> (r: usize)
        requires
            x < self.entries@.len(),
        ensures
            r == entry_tok_or0(self.entries@[x as int], token@),
    {
        let owned: String = token.to_owned();
        match find_token_idx(&self.entries[x].tokens, &owned) {
            Some(j) => self.entries[x].tokens[j].count,
            None => 0,
        }
    }

    /// Likelihood weight numerator of the label at `x` times the weight
    /// denominator of the label at `y`: one side of the exact cross
    /// comparison of two scores.
    fn cross_weight(&self, x: usize, y: usize, token_vec: &Vec<&str>) -> (r: crate::bignat::BigNat)
        requires
            self.wf(),
            x < self.entries@.len(),
            y < self.entries@.len(),
        ensures
            r.wf(),
            r.value() == like_num(self.entries@[x as int], token_vec.deep_view()) * like_den(
                self.entries@[y as int],
                token_vec.deep_view().len(),
            ),
    {
        let ghost tv = token_vec.deep_view();
        let ghost ex = self.entries@[x as int];
        let ghost ey = self.entries@[y as int];
        let mut w = crate::bignat::BigNat::from_u64(self.entries[x].train_count as u64);
        let n = token_vec.len();
        for k in 0..n
            invariant
                n == tv.len(),
                tv == token_vec.deep_view(),
                x < self.entries@.len(),
                y < self.entries@.len(),
                ex == self.entries@[x as int],
                ey == self.entries@[y as int],
                self.wf(),
                w.wf(),
                w.value() == like_num(ex, tv.take(k as int)),
        {
            let cnt = self.token_count_in(x, token_vec[k]);
            proof {
                assert(tv[k as int] == token_vec@[k as int]@);
                assert(entry_tok_or0(ex, tv[k as int]) <= usize::MAX) by {
                    if find_token(ex.tokens@, tv[k as int]) is Some {
                    }
                }
            }
            w.mul_succ(cnt as u64);
            proof {
                assert(tv.take(k + 1).drop_last() =~= tv.take(k as int));
                assert(tv.take(k + 1).last() == tv[k as int]);
            }
        }
        proof {
            assert(tv.take(n as int) =~= tv);
        }
        let tot = self.entries[y].total_count;
        let ghost w1 = w.value();
        proof {
            vstd::arithmetic::power::lemma_pow0(tot + 1);
            assert(w1 * 1 == w1) by (nonlinear_arith);
        }
        for k in 0..n
            invariant
                n == tv.len(),
                ey == self.entries@[y as int],
                y < self.entries@.len(),
                tot == ey.total_count,
                w.wf(),
                w1 == like_num(ex, tv),
                w.value() == w1 * pow(tot + 1, k as nat),
        {
            let ghost before = w.value();
            w.mul_succ(tot as u64);
            proof {
                assert(pow(tot + 1, (k + 1) as nat) == (tot + 1) * pow(tot + 1, k as nat)) by {
                    vstd::arithmetic::power::lemma_pow1(tot + 1);
                    vstd::arithmetic::power::lemma_pow_adds(tot + 1, 1, k as nat);
                }
                assert((w1 * pow(tot + 1, k as nat)) * (tot + 1) == w1 * ((tot + 1) * pow(
                    tot + 1,
                    k as nat,
                ))) by (nonlinear_arith);
            }
        }
        w
    }

    /// Whether the label at `a` scores strictly higher than the one at
    /// `b`, decided exactly.
    fn score_gt_exec(&self, a: usize, b: usize, token_vec: &Vec<&str>) -> (r: bool)
        requires
            self.wf(),
            a < self.entries@.len(),
            b < self.entries@.len(),
        ensures
            r == self.score_gt(a as int, b as int, token_vec.deep_view()),
    {
        let lhs = self.cross_weight(a, b, token_vec);
        let rhs = self.cross_weight(b, a, token_vec);
        rhs.lt(&lhs)
    }

    /// The label with the highest score on `token_vec`, or `None` when no
    /// label has been trained.  Ties go to the label trained earliest;
    /// scores are compared exactly, so the answer is deterministic.
    pub fn classify(&self, token_vec: &Vec<&str>) -> (r: Option<String>)
        requires
            self.wf(),
        ensures
            r is None <==> self.labels().len() == 0,
            r matches Some(l) ==> exists|i: int|
                #[trigger] self.is_first_best(token_vec.deep_view(), i) && l@ == self.labels()[i],
    {
        let ghost tv = token_vec.deep_view();
        let n = self.entries.len();
        if n == 0 {
            return None;
        }
        let mut best: usize = 0;
        for k in 1..n
            invariant
                n == self.entries@.len(),
                tv == token_vec.deep_view(),
                self.wf(),
                best < k,
                k >= 1,
                forall|j: int| 0 <= j < k ==> !(#[trigger] self.score_gt(j, best as int, tv)),
                forall|j: int| 0 <= j < best ==> #[trigger] self.score_gt(best as int, j, tv),
        {
            if self.score_gt_exec(k, best, token_vec) {
                proof {
                    assert forall|j: int| 0 <= j < k implies #[trigger] self.score_gt(
                        k as int,
                        j,
                        tv,
                    ) by {
                        assert(!self.score_gt(j, best as int, tv));
                        assert(self.entries@[k as int].wf());
                        assert(self.entries@[best as int].wf());
                        assert(self.entries@[j].wf());
                        lemma_score_gt_chain(
                            self.entries@[k as int],
                            self.entries@[best as int],
                            self.entries@[j],
                            tv,
                        );
                    }
                    assert forall|j: int| 0 <= j < k + 1 implies !(#[trigger] self.score_gt(
                        j,
                        k as int,
                        tv,
                    )) by {
                        if j < k {
                            assert(self.score_gt(k as int, j, tv));
                        }
                    }
                }
                best = k;
            } else {
                proof {
                    assert forall|j: int| 0 <= j < k + 1 implies !(#[trigger] self.score_gt(
                        j,
                        best as int,
                        tv,
                    )) by {
                    }
                }
            }
        }
        proof {
            assert(self.is_first_best(tv, best as int));
            assert(self.labels()[best as int] == self.entries@[best as int].label@);
        }
        Some(self.entries[best].label.clone())
    }
}

/// The integer counts from which one label's log-space score is computed:
/// the label's document count, its token total, and the stored count of
/// each scored token in order (zero for a token never seen under the
/// label).  The score itself is
/// `ln(doc_count) + sum of ln((token_count + 1) / (token_total + 1))`.
pub struct ScoreCounts {
    pub doc_count: usize,
    pub token_total: usize,
    pub token_counts: Vec<usize>,
}

impl NaiveBayes {
    /// The counts behind `label`'s score on `token_vec`, or `None` exactly
    /// when the label was never trained.  Scoring never fails otherwise:
    /// unknown tokens are reported with count zero, and an empty token
    /// sequence leaves only the document count.
    pub fn score_counts(&self, label: &str, token_vec: &Vec<&str>) -> (r: Option<ScoreCounts>)
        ensures
            r is Some <==> self.doc_count().dom().contains(label@),
            r matches Some(sc) ==> {
                &&& sc.doc_count == self.doc_count()[label@]
                &&& sc.token_total == self.token_total()[label@]
                &&& sc.token_counts@.len() == token_vec.deep_view().len()
                &&& forall|i: int|
                    0 <= i < token_vec.deep_view().len() ==> #[trigger] sc.token_counts@[i]
                        == self.tok_count_or0(label@, token_vec.deep_view()[i])
            },
    {
        let ghost tv = token_vec.deep_view();
        let owned: String = label.to_owned();
        let idx = self.find_index(&owned);
        match idx {
            Some(x) => {
                let ghost e = self.entries@[x as int];
                let mut counts: Vec<usize> = Vec::new();
                let n = token_vec.len();
                for k in 0..n
                    invariant
                        n == tv.len(),
                        tv == token_vec.deep_view(),
                        x < self.entries@.len(),
                        e == self.entries@[x as int],
                        counts@.len() == k,
                        forall|i: int|
                            0 <= i < k ==> #[trigger] counts@[i] == entry_tok_or0(e, tv[i]),
                {
                    let c = self.token_count_in(x, token_vec[k]);
                    counts.push(c);
                }
                proof {
                    assert forall|i: int| 0 <= i < tv.len() implies #[trigger] counts@[i]
                        == self.tok_count_or0(owned@, tv[i]) by {
                        assert(self.token_count()[owned@] == e.token_map());
                        assert(or0(e.token_map(), tv[i]) == entry_tok_or0(e, tv[i]));
                    }
                }
                Some(
                    ScoreCounts {
                        doc_count: self.entries[x].train_count,
                        token_total: self.entries[x].total_count,
                        token_counts: counts,
                    },
                )
            },
            None => None,
        }
    }

    /// The number of documents trained under `label`, or `None` when the
    /// label was never trained.
    pub fn doc_count_of(&self, label: &str) -> (r: Option<usize>)
        ensures
            r is Some <==> self.doc_count().dom().contains(label@),
            r matches Some(c) ==> c == self.doc_count()[label@],
    {
        let owned: String = label.to_owned();
        match self.find_index(&owned) {
            Some(i) => Some(self.entries[i].train_count),
            None => None,
        }
    }

    /// The total number of token occurrences trained under `label`, or
    /// `None` when the label was never trained.
    pub fn token_total_of(&self, label: &str) -> (r: Option<usize>)
        ensures
            r is Some <==> self.token_total().dom().contains(label@),
            r matches Some(c) ==> c == self.token_total()[label@],
    {
        let owned: String = label.to_owned();
        match self.find_index(&owned) {
            Some(i) => Some(self.entries[i].total_count),
            None => None,
        }
    }

    /// The stored count of `token` under `label`: `None` when the label
    /// was never trained or the token never occurred under it.
    pub fn token_count_of(&self, label: &str, token: &str) -> (r: Option<usize>)
        ensures
            r is Some <==> (self.token_count().dom().contains(label@)
                && self.token_count()[label@].dom().contains(token@)),
            r matches Some(c) ==> c == self.token_count()[label@][token@],
    {
        let owned: String = label.to_owned();
        match self.find_index(&owned) {
            Some(i) => {
                let towned: String = token.to_owned();
                match find_token_idx(&self.entries[i].tokens, &towned) {
                    Some(j) => Some(self.entries[i].tokens[j].count),
                    None => None,
                }
            },
            None => None,
        }
    }

    /// The trained labels, in the order in which they were first trained.
    pub fn label_list(&self) -> (r: Vec<String>)
        ensures
            r@.map_values(|s: String| s@) == self.labels(),
    {
        let mut out: Vec<String> = Vec::new();
        let n = self.entries.len();
        for i in 0..n
            invariant
                n == self.entries@.len(),
                out@.len() == i,
                forall|j: int| 0 <= j < i ==> #[trigger] out@[j]@ == self.entries@[j].label@,
        {
            out.push(self.entries[i].label.clone());
        }
        proof {
            assert(out@.map_values(|s: String| s@) =~= self.labels());
        }
        out
    }
}

/// Number of documents in `docs` that carry label `l`.
pub open spec fn count_docs(docs: Seq<Doc>, l: Seq<char>) -> nat
    decreases docs.len(),
{
    if docs.len() == 0 {
        0
    } else {
        count_docs(docs.drop_last(), l) + if docs.last().0 == l {
            1nat
        } else {
            0nat
        }
    }
}

/// Number of token occurrences across the documents of `docs` labelled `l`.
pub open spec fn count_label_tokens(docs: Seq<Doc>, l: Seq<char>) -> nat
    decreases docs.len(),
{
    if docs.len() == 0 {
        0
    } else {
        count_label_tokens(docs.drop_last(), l) + if docs.last().0 == l {
            docs.last().1.len()
        } else {
            0
        }
    }
}

/// Number of occurrences of `w` in the token sequence `toks`.
pub open spec fn count_in(toks: Seq<Seq<char>>, w: Seq<char>) -> nat
    decreases toks.len(),
{
    if toks.len() == 0 {
        0
    } else {
        (if toks[0] == w {
            1nat
        } else {
            0nat
        }) + count_in(toks.drop_first(), w)
    }
}

/// Number of occurrences of `w` across the documents of `docs` labelled `l`.
pub open spec fn count_occurrences(docs: Seq<Doc>, l: Seq<char>, w: Seq<char>) -> nat
    decreases docs.len(),
{
    if docs.len() == 0 {
        0
    } else {
        count_occurrences(docs.drop_last(), l, w) + if docs.last().0 == l {
            count_in(docs.last().1, w)
        } else {
            0
        }
    }
}

/// Recording a token batch raises each token's count by its number of
/// occurrences in the batch, and brings in exactly the occurring tokens.
proof fn lemma_add_tokens_count(m: Map<Seq<char>, nat>, toks: Seq<Seq<char>>, w: Seq<char>)
    ensures
        or0(add_tokens(m, toks), w) == or0(m, w) + count_in(toks, w),
        add_tokens(m, toks).dom().contains(w) <==> m.dom().contains(w) || count_in(toks, w) > 0,
    decreases toks.len(),
{
    if toks.len() > 0 {
        lemma_add_tokens_count(bump(m, toks[0]), toks.drop_first(), w);
    }
}

/// Consistency of the tables with the training history, starting from an
/// empty classifier: the three tables always hold exactly the labels ever
/// trained; a label's document count is the number of documents trained
/// under it; its token total is the number of token occurrences trained
/// under it; and a token is listed under a label if and only if it has
/// occurred there, with its exact occurrence count.
pub proof fn lemma_history_counts(docs: Seq<Doc>, l: Seq<char>, w: Seq<char>)
    ensures
        ({
            let t = apply_docs(empty_tables(), docs);
            &&& t.0.dom() == t.1.dom()
            &&& t.0.dom() == t.2.dom()
            &&& (t.0.dom().contains(l) <==> count_docs(docs, l) > 0)
            &&& or0(t.0, l) == count_docs(docs, l)
            &&& or0(t.2, l) == count_label_tokens(docs, l)
            &&& t.1.dom().contains(l) ==> or0(t.1[l], w) == count_occurrences(docs, l, w)
            &&& t.1.dom().contains(l) ==> (t.1[l].dom().contains(w) <==> count_occurrences(
                docs,
                l,
                w,
            ) > 0)
            &&& !t.1.dom().contains(l) ==> count_occurrences(docs, l, w) == 0
        }),
    decreases docs.len(),
{
    let t = apply_docs(empty_tables(), docs);
    if docs.len() == 0 {
        assert(docs.fold_left(empty_tables(), |acc: Tables, d: Doc| apply_doc(acc, d))
            == empty_tables());
        assert(t.0.dom() =~= t.1.dom());
        assert(t.0.dom() =~= t.2.dom());
    } else {
        let prev = docs.drop_last();
        let d = docs.last();
        lemma_history_counts(prev, l, w);
        lemma_history_counts(prev, d.0, w);
        let tp = apply_docs(empty_tables(), prev);
        assert(t == apply_doc(tp, d));
        let inner = if tp.1.dom().contains(d.0) {
            tp.1[d.0]
        } else {
            Map::<Seq<char>, nat>::empty()
        };
        lemma_add_tokens_count(inner, d.1, w);
        assert(t.0.dom() =~= t.1.dom());
        assert(t.0.dom() =~= t.2.dom());
        assert(or0(t.0, l) == count_docs(docs, l));
        assert(or0(t.2, l) == count_label_tokens(docs, l));
        if t.1.dom().contains(l) {
            if l == d.0 {
                assert(t.1[l] == add_tokens(inner, d.1));
                if tp.1.dom().contains(l) {
                    assert(or0(inner, w) == count_occurrences(prev, l, w));
                } else {
                    assert(or0(inner, w) == 0);
                    assert(count_occurrences(prev, l, w) == 0);
                }
                assert(or0(t.1[l], w) == count_occurrences(docs, l, w));
            } else {
                assert(t.1[l] == tp.1[l]);
                assert(count_occurrences(docs, l, w) == count_occurrences(prev, l, w));
            }
        } else {
            assert(!tp.1.dom().contains(l));
            assert(l != d.0);
        }
    }
}

/// Pointwise bound between two table states: every label present in the
/// first is present in the second with counts at least as large.
pub open spec fn tables_le(a: Tables, b: Tables) -> bool {
    &&& forall|l: Seq<char>|
        #[trigger] a.0.dom().contains(l) ==> b.0.dom().contains(l) && a.0[l] <= b.0[l]
    &&& forall|l: Seq<char>|
        #[trigger] a.2.dom().contains(l) ==> b.2.dom().contains(l) && a.2[l] <= b.2[l]
    &&& forall|l: Seq<char>, w: Seq<char>|
        #![trigger a.1[l].dom().contains(w)]
        a.1.dom().contains(l) && a.1[l].dom().contains(w) ==> b.1.dom().contains(l)
            && b.1[l].dom().contains(w) && a.1[l][w] <= b.1[l][w]
}

/// Recording a token batch never lowers a token's count.
proof fn lemma_add_tokens_monotonic(m: Map<Seq<char>, nat>, toks: Seq<Seq<char>>, w: Seq<char>)
    ensures
        m.dom().contains(w) ==> add_tokens(m, toks).dom().contains(w) && m[w] <= add_tokens(
            m,
            toks,
        )[w],
    decreases toks.len(),
{
    if toks.len() > 0 {
        lemma_add_tokens_monotonic(bump(m, toks[0]), toks.drop_first(), w);
    }
}

/// Training one document never lowers any count.
proof fn lemma_apply_doc_monotonic(t: Tables, d: Doc)
    ensures
        tables_le(t, apply_doc(t, d)),
{
    let t2 = apply_doc(t, d);
    assert forall|l: Seq<char>|
        #[trigger] t.0.dom().contains(l) implies t2.0.dom().contains(l) && t.0[l] <= t2.0[l] by {
        assert(t2.0 == bump(t.0, d.0));
    }
    assert forall|l: Seq<char>|
        #[trigger] t.2.dom().contains(l) implies t2.2.dom().contains(l) && t.2[l] <= t2.2[l] by {
        assert(t2.2 == t.2.insert(d.0, or0(t.2, d.0) + d.1.len()));
    }
    assert forall|l: Seq<char>, w: Seq<char>|
        #![trigger t.1[l].dom().contains(w)]
        t.1.dom().contains(l) && t.1[l].dom().contains(w) implies t2.1.dom().contains(l)
        && t2.1[l].dom().contains(w) && t.1[l][w] <= t2.1[l][w] by {
        if l == d.0 {
            lemma_add_tokens_monotonic(t.1[l], d.1, w);
            assert(t2.1[l] == add_tokens(t.1[l], d.1));
        } else {
            assert(t2.1[l] == t.1[l]);
        }
    }
}

/// No count ever decreases over the lifetime of a classifier: after any
/// further training, every label keeps at least its document count, token
/// total, and per-token counts.
pub proof fn lemma_training_monotonic(t: Tables, docs: Seq<Doc>)
    ensures
        tables_le(t, apply_docs(t, docs)),
    decreases docs.len(),
{
    if docs.len() == 0 {
        assert(docs.fold_left(t, |acc: Tables, d: Doc| apply_doc(acc, d)) == t);
    } else {
        let prev = docs.drop_last();
        lemma_training_monotonic(t, prev);
        let tp = apply_docs(t, prev);
        assert(apply_docs(t, docs) == apply_doc(tp, docs.last()));
        lemma_apply_doc_monotonic(tp, docs.last());
    }
}

/// Two token batches can be recorded in either order.
proof fn lemma_add_tokens_comm(m: Map<Seq<char>, nat>, a: Seq<Seq<char>>, b: Seq<Seq<char>>)
    ensures
        add_tokens(add_tokens(m, a), b) == add_tokens(add_tokens(m, b), a),
{
    let lhs = add_tokens(add_tokens(m, a), b);
    let rhs = add_tokens(add_tokens(m, b), a);
    assert forall|w: Seq<char>| #[trigger] lhs.dom().contains(w) == rhs.dom().contains(w) && or0(
        lhs,
        w,
    ) == or0(rhs, w) by {
        lemma_add_tokens_count(m, a, w);
        lemma_add_tokens_count(add_tokens(m, a), b, w);
        lemma_add_tokens_count(m, b, w);
        lemma_add_tokens_count(add_tokens(m, b), a, w);
    }
    assert(lhs =~= rhs);
}

/// Two documents can be trained in either order.
proof fn lemma_apply_doc_commutes(t: Tables, d1: Doc, d2: Doc)
    ensures
        apply_doc(apply_doc(t, d1), d2) == apply_doc(apply_doc(t, d2), d1),
{
    let lhs = apply_doc(apply_doc(t, d1), d2);
    let rhs = apply_doc(apply_doc(t, d2), d1);
    assert(lhs.0 =~= rhs.0);
    assert(lhs.2 =~= rhs.2);
    if d1.0 == d2.0 {
        let inner = if t.1.dom().contains(d1.0) {
            t.1[d1.0]
        } else {
            Map::<Seq<char>, nat>::empty()
        };
        lemma_add_tokens_comm(inner, d1.1, d2.1);
        assert(lhs.1 =~= rhs.1);
    } else {
        assert(lhs.1 =~= rhs.1);
    }
}

/// Two training histories that are permutations of one another produce
/// identical count tables, and hence identical scores.
pub proof fn lemma_order_independence(t: Tables, docs1: Seq<Doc>, docs2: Seq<Doc>)
    requires
        docs1.to_multiset() == docs2.to_multiset(),
    ensures
        apply_docs(t, docs1) == apply_docs(t, docs2),
{
    let f = |acc: Tables, d: Doc| apply_doc(acc, d);
    assert forall|x: Doc, y: Doc, v: Tables| #[trigger] f(f(v, x), y) == f(f(v, y), x) by {
        lemma_apply_doc_commutes(v, x, y);
    }
    assert(vstd::seq_lib::commutative_foldl(f));
    vstd::seq_lib::lemma_fold_left_permutation(docs1, docs2, f, t);
}

/// If the first `i` entries miss `t` and entry `i` matches, the find
/// resolves to entry `i`.
proof fn lemma_find_token_at(s: Seq<TokenCount>, t: Seq<char>, i: int)
    requires
        0 <= i < s.len(),
        s[i].token@ == t,
        forall|j: int| 0 <= j < i ==> s[j].token@ != t,
    ensures
        find_token(s, t) == Some(s[i]),
    decreases i,
{
    if i > 0 {
        lemma_find_token_at(s.drop_first(), t, i - 1);
    }
}

/// If no entry matches `t`, the find misses.
proof fn lemma_find_token_none(s: Seq<TokenCount>, t: Seq<char>)
    requires
        forall|j: int| 0 <= j < s.len() ==> s[j].token@ != t,
    ensures
        find_token(s, t) is None,
    decreases s.len(),
{
    if s.len() > 0 {
        lemma_find_token_none(s.drop_first(), t);
    }
}

/// Raising the count at the unique position of a token changes the find
/// only at that token.
proof fn lemma_find_token_update(s: Seq<TokenCount>, i: int, x: TokenCount, t: Seq<char>)
    requires
        0 <= i < s.len(),
        s[i].token@ == x.token@,
        forall|j: int| 0 <= j < i ==> s[j].token@ != x.token@,
    ensures
        find_token(s.update(i, x), t) == if t == x.token@ {
            Some(x)
        } else {
            find_token(s, t)
        },
    decreases i,
{
    let s2 = s.update(i, x);
    assert(s2.len() == s.len());
    if i == 0 {
        assert(s2[0] == x);
        assert(s2.drop_first() =~= s.drop_first());
    } else {
        assert(s2[0] == s[0]);
        assert(s[0].token@ != x.token@);
        lemma_find_token_update(s.drop_first(), i - 1, x, t);
        assert(s2.drop_first() =~= s.drop_first().update(i - 1, x));
    }
}

/// Appending a fresh token changes the find only at that token.
proof fn lemma_find_token_push(s: Seq<TokenCount>, x: TokenCount, t: Seq<char>)
    requires
        forall|j: int| 0 <= j < s.len() ==> s[j].token@ != x.token@,
    ensures
        find_token(s.push(x), t) == if t == x.token@ {
            Some(x)
        } else {
            find_token(s, t)
        },
    decreases s.len(),
{
    let s2 = s.push(x);
    assert(s2.len() == s.len() + 1);
    if s.len() == 0 {
        assert(s2[0] == x);
        assert(s2.drop_first() =~= Seq::<TokenCount>::empty());
        assert(find_token(Seq::<TokenCount>::empty(), t) is None);
    } else {
        assert(s2[0] == s[0]);
        lemma_find_token_push(s.drop_first(), x, t);
        assert(s2.drop_first() =~= s.drop_first().push(x));
    }
}

/// The sum of occurrence counts is never negative.
proof fn lemma_sum_nonneg(s: Seq<TokenCount>)
    ensures
        sum_counts(s) >= 0,
    decreases s.len(),
{
    if s.len() > 0 {
        lemma_sum_nonneg(s.drop_first());
    }
}

/// Each single count is at most the sum.
proof fn lemma_count_le_sum(s: Seq<TokenCount>, j: int)
    requires
        0 <= j < s.len(),
    ensures
        s[j].count <= sum_counts(s),
    decreases j,
{
    lemma_sum_nonneg(s.drop_first());
    if j > 0 {
        lemma_count_le_sum(s.drop_first(), j - 1);
    }
}

/// Raising one count by one raises the sum by one.
proof fn lemma_sum_update(s: Seq<TokenCount>, i: int, x: TokenCount)
    requires
        0 <= i < s.len(),
        x.count == s[i].count + 1,
    ensures
        sum_counts(s.update(i, x)) == sum_counts(s) + 1,
    decreases i,
{
    let s2 = s.update(i, x);
    assert(s2.len() == s.len());
    if i == 0 {
        assert(s2[0] == x);
        assert(s2.drop_first() =~= s.drop_first());
    } else {
        assert(s2[0] == s[0]);
        lemma_sum_update(s.drop_first(), i - 1, x);
        assert(s2.drop_first() =~= s.drop_first().update(i - 1, x));
    }
}

/// Appending an entry adds its count to the sum.
proof fn lemma_sum_push(s: Seq<TokenCount>, x: TokenCount)
    ensures
        sum_counts(s.push(x)) == sum_counts(s) + x.count,
    decreases s.len(),
{
    let s2 = s.push(x);
    assert(s2.len() == s.len() + 1);
    if s.len() == 0 {
        assert(s2[0] == x);
        assert(s2.drop_first() =~= Seq::<TokenCount>::empty());
        assert(sum_counts(Seq::<TokenCount>::empty()) == 0);
    } else {
        assert(s2[0] == s[0]);
        lemma_sum_push(s.drop_first(), x);
        assert(s2.drop_first() =~= s.drop_first().push(x));
    }
}

/// Token occurrences can be recorded one at a time from the left.
proof fn lemma_add_tokens_snoc(m: Map<Seq<char>, nat>, toks: Seq<Seq<char>>, t: Seq<char>)
    ensures
        add_tokens(m, toks.push(t)) == bump(add_tokens(m, toks), t),
    decreases toks.len(),
{
    let s2 = toks.push(t);
    assert(s2.len() == toks.len() + 1);
    if toks.len() == 0 {
        assert(s2[0] == t);
        assert(s2.drop_first() =~= Seq::<Seq<char>>::empty());
        assert(add_tokens(bump(m, t), Seq::<Seq<char>>::empty()) == bump(m, t));
        assert(add_tokens(m, toks) == m);
    } else {
        assert(s2[0] == toks[0]);
        lemma_add_tokens_snoc(bump(m, toks[0]), toks.drop_first(), t);
        assert(s2.drop_first() =~= toks.drop_first().push(t));
    }
}

/// Updating the entry at the unique position of a label changes the find
/// only at that label.
proof fn lemma_find_label_update(s: Seq<LabelEntry>, i: int, x: LabelEntry, l: Seq<char>)
    requires
        0 <= i < s.len(),
        s[i].label@ == x.label@,
        forall|j: int| 0 <= j < i ==> s[j].label@ != x.label@,
    ensures
        find_label(s.update(i, x), l) == if l == x.label@ {
            Some(x)
        } else {
            find_label(s, l)
        },
    decreases i,
{
    let s2 = s.update(i, x);
    assert(s2.len() == s.len());
    if i == 0 {
        assert(s2[0] == x);
        assert(s2.drop_first() =~= s.drop_first());
    } else {
        assert(s2[0] == s[0]);
        assert(s[0].label@ != x.label@);
        lemma_find_label_update(s.drop_first(), i - 1, x, l);
        assert(s2.drop_first() =~= s.drop_first().update(i - 1, x));
    }
}

/// Appending an entry for a fresh label changes the find only at that label.
proof fn lemma_find_label_push(s: Seq<LabelEntry>, x: LabelEntry, l: Seq<char>)
    requires
        forall|j: int| 0 <= j < s.len() ==> s[j].label@ != x.label@,
    ensures
        find_label(s.push(x), l) == if l == x.label@ {
            Some(x)
        } else {
            find_label(s, l)
        },
    decreases s.len(),
{
    let s2 = s.push(x);
    assert(s2.len() == s.len() + 1);
    if s.len() == 0 {
        assert(s2[0] == x);
        assert(s2.drop_first() =~= Seq::<LabelEntry>::empty());
        assert(find_label(Seq::<LabelEntry>::empty(), l) is None);
    } else {
        assert(s2[0] == s[0]);
        lemma_find_label_push(s.drop_first(), x, l);
        assert(s2.drop_first() =~= s.drop_first().push(x));
    }
}

/// If the first `i` entries miss `l` and entry `i` matches, the find
/// resolves to entry `i`.
proof fn lemma_find_label_at(s: Seq<LabelEntry>, l: Seq<char>, i: int)
    requires
        0 <= i < s.len(),
        s[i].label@ == l,
        forall|j: int| 0 <= j < i ==> s[j].label@ != l,
    ensures
        find_label(s, l) == Some(s[i]),
    decreases i,
{
    if i > 0 {
        lemma_find_label_at(s.drop_first(), l, i - 1);
    }
}

/// If no entry matches `l`, the find misses.
proof fn lemma_find_label_none(s: Seq<LabelEntry>, l: Seq<char>)
    requires
        forall|j: int| 0 <= j < s.len() ==> s[j].label@ != l,
    ensures
        find_label(s, l) is None,
    decreases s.len(),
{
    if s.len() > 0 {
        lemma_find_label_none(s.drop_first(), l);
    }
}

} // verus!
