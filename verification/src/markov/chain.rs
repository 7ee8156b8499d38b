use crate::strutil::{push_char, str_chars};
use vstd::prelude::*;

verus! {

/// A first-order character Markov chain: for each observed character,
/// the sequence of its observed successors, repetitions preserved, which
/// encodes the empirical transition distribution; and the sequence of
/// observed starting characters.
pub struct MarkovChain {
    pub(crate) chain: Vec<(char, Vec<char>)>,
    pub(crate) start_chars: Vec<char>,
}

/// First successor list stored for `c`, if any.
pub open(crate) spec fn find_succ(s: Seq<(char, Vec<char>)>, c: char) -> Option<Seq<char>>
    decreases s.len(),
{
    if s.len() == 0 {
        None
    } else if s[0].0 == c {
        Some(s[0].1@)
    } else {
        find_succ(s.drop_first(), c)
    }
}

/// One more observed transition from `c` to `n`.
pub open spec fn push_succ(m: Map<char, Seq<char>>, c: char, n: char) -> Map<char, Seq<char>> {
    m.insert(
        c,
        (if m.dom().contains(c) {
            m[c]
        } else {
            Seq::<char>::empty()
        }).push(n),
    )
}

/// All transitions of the sliding two-character window over `s`, from
/// position `i` on.
pub open spec fn add_windows(m: Map<char, Seq<char>>, s: Seq<char>, i: int) -> Map<char, Seq<char>>
    decreases s.len() - i,
{
    if i < 0 || i + 1 >= s.len() {
        m
    } else {
        add_windows(push_succ(m, s[i], s[i + 1]), s, i + 1)
    }
}

impl MarkovChain {
    /// The transition table: each observed character to its observed
    /// successors, in observation order.
    pub open(crate) spec fn chain_map(self) -> Map<char, Seq<char>> {
        Map::new(
            |c: char| find_succ(self.chain@, c) is Some,
            |c: char| find_succ(self.chain@, c)->Some_0,
        )
    }

    /// The observed starting characters, in observation order.
    pub open(crate) spec fn starts(self) -> Seq<char> {
        self.start_chars@
    }

    /// Each character is listed at most once, and a listed character has
    /// at least one successor.
    pub open(crate) spec fn wf(self) -> bool {
        &&& forall|i: int, j: int|
            0 <= i < j < self.chain@.len() ==> self.chain@[i].0 != self.chain@[j].0
        &&& forall|i: int| 0 <= i < self.chain@.len() ==> (#[trigger] self.chain@[i]).1@.len() >= 1
    }

    /// An empty chain: no transitions and no starting characters.
    pub fn new() -> (r: MarkovChain)
        ensures
            r.wf(),
            r.chain_map() == Map::<char, Seq<char>>::empty(),
            r.starts() == Seq::<char>::empty(),
            r.source_count() == 0,
    {
        let r = MarkovChain { chain: Vec::new(), start_chars: Vec::new() };
        proof {
            assert(r.chain_map() =~= Map::<char, Seq<char>>::empty());
        }
        r
    }

    /// The number of distinct observed characters.
    pub open(crate) spec fn source_count(self) -> nat {
        self.chain@.len() as nat
    }

    /// The number of characters with at least one observed successor.
    pub fn transition_sources(&self) -> (r: usize)
        ensures
            r == self.source_count(),
    {
        self.chain.len()
    }

    /// The observed successors of `c`, in observation order.
    pub fn successors_of(&self, c: char) -> (r: Option<Vec<char>>)
        ensures
            r is Some <==> self.chain_map().dom().contains(c),
            r matches Some(v) ==> v@ == self.chain_map()[c],
    {
        match self.find_idx(c) {
            Some(i) => {
                let v = clone_chars(&self.chain[i].1);
                Some(v)
            },
            None => None,
        }
    }

    /// The observed starting characters, in observation order.
    pub fn start_list(&self) -> (r: Vec<char>)
        ensures
            r@ == self.starts(),
    {
        clone_chars(&self.start_chars)
    }

    /// Index of the entry for `c`, if any.
    fn find_idx(&self, c: char) -> (r: Option<usize>)
        ensures
            match r {
                Some(i) => {
                    &&& i < self.chain@.len()
                    &&& self.chain@[i as int].0 == c
                    &&& forall|j: int| 0 <= j < i ==> self.chain@[j].0 != c
                    &&& find_succ(self.chain@, c) == Some(self.chain@[i as int].1@)
                },
                None => {
                    &&& find_succ(self.chain@, c) is None
                    &&& forall|j: int| 0 <= j < self.chain@.len() ==> self.chain@[j].0 != c
                },
            },
    {
        let n = self.chain.len();
        for i in 0..n
            invariant
                n == self.chain@.len(),
                forall|j: int| 0 <= j < i ==> self.chain@[j].0 != c,
        {
            if self.chain[i].0 == c {
                proof {
                    lemma_find_succ_at(self.chain@, c, i as int);
                }
                return Some(i);
            }
        }
        proof {
            lemma_find_succ_none(self.chain@, c);
        }
        None
    }

    /// Record the transitions of `input`: its first character as a
    /// starting character, and each two-character window as a transition.
    pub fn train(&mut self, input: &str)
        requires
            old(self).wf(),
        ensures
            final (self).wf(),
            final (self).starts() == if input@.len() > 0 {
                old(self).starts().push(input@[0])
            } else {
                old(self).starts()
            },
            final (self).chain_map() == add_windows(old(self).chain_map(), input@, 0),
    {
        let cs = str_chars(input);
        let n = cs.len();
        let ghost m0 = self.chain_map();
        let ghost s0 = self.starts();
        if n > 0 {
            self.start_chars.push(cs[0]);
        }
        if n < 2 {
            proof {
                assert(add_windows(m0, input@, 0) == m0);
            }
            return ;
        }
        for i in 0..n - 1
            invariant
                n == cs@.len(),
                cs@ == input@,
                n >= 2,
                self.wf(),
                self.starts() == s0.push(input@[0]),
                add_windows(m0, input@, 0) == add_windows(self.chain_map(), input@, i as int),
        {
            let cur = cs[i];
            let nxt = cs[i + 1];
            let ghost pre = self.chain@;
            let ghost mpre = self.chain_map();
            proof {
                assert(add_windows(mpre, input@, i as int) == add_windows(
                    push_succ(mpre, input@[i as int], input@[i + 1]),
                    input@,
                    i + 1,
                ));
            }
            match self.find_idx(cur) {
                Some(ci) => {
                    let e = &mut self.chain[ci];
                    e.1.push(nxt);
                    proof {
                        let x = self.chain@[ci as int];
                        assert forall|d: char|
                            #[trigger] find_succ(self.chain@, d) == (if d == cur {
                                Some(x.1@)
                            } else {
                                find_succ(pre, d)
                            }) by {
                            lemma_find_succ_update(pre, ci as int, x, d);
                        }
                        assert(self.chain_map() =~= push_succ(mpre, cur, nxt));
                    }
                },
                None => {
                    let mut succs: Vec<char> = Vec::new();
                    succs.push(nxt);
                    let fresh = (cur, succs);
                    proof {
                        assert forall|d: char|
                            #[trigger] find_succ(pre.push(fresh), d) == (if d == cur {
                                Some(fresh.1@)
                            } else {
                                find_succ(pre, d)
                            }) by {
                            lemma_find_succ_push(pre, fresh, d);
                        }
                    }
                    self.chain.push(fresh);
                    proof {
                        assert(self.chain_map() =~= push_succ(mpre, cur, nxt));
                    }
                },
            }
        }
        proof {
            assert(add_windows(self.chain_map(), input@, n - 1) == self.chain_map());
        }
    }

    /// Whether `r` is a walk of the chain from `start` of at most
    /// `length` emitted characters (at least one), stopping early only at
    /// a character with no observed successor.
    pub open(crate) spec fn gen_ok(self, start: char, length: nat, r: Seq<char>) -> bool {
        let target: nat = if length == 0 {
            1
        } else {
            length
        };
        &&& r.len() >= 1
        &&& r[0] == start
        &&& r.len() <= target
        &&& forall|i: int|
            0 <= i < r.len() - 1 ==> self.chain_map().dom().contains(#[trigger] r[i])
                && self.chain_map()[r[i]].contains(r[i + 1])
        &&& r.len() < target ==> !self.chain_map().dom().contains(r[r.len() - 1])
    }

    /// Generate a sequence from `start`: emit it, then repeatedly pick
    /// uniformly at random among the current character's observed
    /// successors, stopping early at a character with none.  Empty when
    /// nothing was ever trained.
    pub fn generate(&self, start: char, length: usize) -> (r: String)
        requires
            self.wf(),
        ensures
            self.starts().len() == 0 ==> r@ == Seq::<char>::empty(),
            self.starts().len() > 0 ==> self.gen_ok(start, length as nat, r@),
    {
        let mut out = String::new();
        if self.start_chars.len() == 0 {
            return out;
        }
        push_char(&mut out, start);
        let mut current = start;
        let mut done = false;
        let mut emitted: usize = 1;
        while emitted < length && !done
            invariant
                self.wf(),
                emitted == out@.len(),
                out@.len() >= 1,
                out@[0] == start,
                out@[out@.len() - 1] == current,
                length >= 1 ==> out@.len() <= length,
                length == 0 ==> out@.len() == 1,
                forall|i: int|
                    0 <= i < out@.len() - 1 ==> self.chain_map().dom().contains(
                        #[trigger] out@[i],
                    ) && self.chain_map()[out@[i]].contains(out@[i + 1]),
                done ==> !self.chain_map().dom().contains(current),
            decreases length - out@.len(), (if done {
                0int
            } else {
                1int
            }),
        {
            match self.find_idx(current) {
                Some(ci) => {
                    let succs = &self.chain[ci].1;
                    let gi = random_index(succs.len());
                    let nxt = succs[gi];
                    proof {
                        assert(self.chain_map()[current] == self.chain@[ci as int].1@);
                        assert(self.chain_map()[current].contains(self.chain@[ci as int].1@[gi as int]));
                    }
                    current = nxt;
                    push_char(&mut out, nxt);
                    emitted = emitted + 1;
                },
                None => {
                    done = true;
                },
            }
        }
        out
    }

    /// Generate a sequence of at most `length` characters from `from`.
    pub fn generate_from(&self, from: char, length: usize) -> (r: String)
        requires
            self.wf(),
        ensures
            self.starts().len() == 0 ==> r@ == Seq::<char>::empty(),
            self.starts().len() > 0 ==> self.gen_ok(from, length as nat, r@),
    {
        self.generate(from, length)
    }

    /// Generate a sequence of at most `length` characters, starting from
    /// a uniformly chosen observed starting character.
    pub fn generate_from_rand(&self, length: usize) -> (r: String)
        requires
            self.wf(),
            self.starts().len() > 0,
        ensures
            exists|c: char|
                self.starts().contains(c) && #[trigger] self.gen_ok(c, length as nat, r@),
    {
        let gi = random_index(self.start_chars.len());
        let random_start = self.start_chars[gi];
        let r = self.generate(random_start, length);
        proof {
            assert(self.starts().contains(random_start));
        }
        r
    }
}

/// Relies on rand's thread-local generator and Rng::gen_range: a
/// uniformly distributed index below `bound`.
#[verifier::external_body]
fn random_index(bound: usize) -> (r: usize)
    requires
        bound > 0,
    ensures
        r < bound,
{
    rand::Rng::gen_range(&mut rand::thread_rng(), 0..bound)
}

/// The characters of `v`, as a new vector.
fn clone_chars(v: &Vec<char>) -> (r: Vec<char>)
    ensures
        r@ == v@,
{
    let mut r: Vec<char> = Vec::new();
    let n = v.len();
    for i in 0..n
        invariant
            n == v@.len(),
            r@ == v@.take(i as int),
    {
        r.push(v[i]);
        proof {
            assert(r@ =~= v@.take(i + 1));
        }
    }
    proof {
        assert(v@.take(n as int) =~= v@);
    }
    r
}

proof fn lemma_find_succ_at(s: Seq<(char, Vec<char>)>, c: char, i: int)
    requires
        0 <= i < s.len(),
        s[i].0 == c,
        forall|j: int| 0 <= j < i ==> s[j].0 != c,
    ensures
        find_succ(s, c) == Some(s[i].1@),
    decreases i,
{
    if i > 0 {
        lemma_find_succ_at(s.drop_first(), c, i - 1);
    }
}

proof fn lemma_find_succ_none(s: Seq<(char, Vec<char>)>, c: char)
    requires
        forall|j: int| 0 <= j < s.len() ==> s[j].0 != c,
    ensures
        find_succ(s, c) is None,
    decreases s.len(),
{
    if s.len() > 0 {
        lemma_find_succ_none(s.drop_first(), c);
    }
}

proof fn lemma_find_succ_update(s: Seq<(char, Vec<char>)>, i: int, x: (char, Vec<char>), c: char)
    requires
        0 <= i < s.len(),
        s[i].0 == x.0,
        forall|j: int| 0 <= j < i ==> s[j].0 != x.0,
    ensures
        find_succ(s.update(i, x), c) == if c == x.0 {
            Some(x.1@)
        } else {
            find_succ(s, c)
        },
    decreases i,
{
    let s2 = s.update(i, x);
    assert(s2.len() == s.len());
    if i == 0 {
        assert(s2[0] == x);
        assert(s2.drop_first() =~= s.drop_first());
    } else {
        assert(s2[0] == s[0]);
        lemma_find_succ_update(s.drop_first(), i - 1, x, c);
        assert(s2.drop_first() =~= s.drop_first().update(i - 1, x));
    }
}

proof fn lemma_find_succ_push(s: Seq<(char, Vec<char>)>, x: (char, Vec<char>), c: char)
    requires
        forall|j: int| 0 <= j < s.len() ==> s[j].0 != x.0,
    ensures
        find_succ(s.push(x), c) == if c == x.0 {
            Some(x.1@)
        } else {
            find_succ(s, c)
        },
    decreases s.len(),
{
    let s2 = s.push(x);
    assert(s2.len() == s.len() + 1);
    if s.len() == 0 {
        assert(s2[0] == x);
        assert(s2.drop_first() =~= Seq::<(char, Vec<char>)>::empty());
        assert(find_succ(Seq::<(char, Vec<char>)>::empty(), c) is None);
    } else {
        assert(s2[0] == s[0]);
        lemma_find_succ_push(s.drop_first(), x, c);
        assert(s2.drop_first() =~= s.drop_first().push(x));
    }
}

} // verus!
