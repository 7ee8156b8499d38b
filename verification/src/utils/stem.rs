use crate::strutil::str_chars;
use vstd::prelude::*;
use vstd::string::StringSliceAdditionalSpecFns;

verus! {

/// Number of occurrences of `c` in `s`.
pub open spec fn occurrences(s: Seq<char>, c: char) -> nat
    decreases s.len(),
{
    if s.len() == 0 {
        0
    } else {
        occurrences(s.drop_last(), c) + if s.last() == c {
            1nat
        } else {
            0nat
        }
    }
}

/// A frequency table: each element that occurs in a sequence, with its
/// occurrence count.
pub struct FreqTable {
    pub(crate) entries: Vec<(char, usize)>,
}

/// First count stored for `c`, if any.
pub open(crate) spec fn find_freq(s: Seq<(char, usize)>, c: char) -> Option<usize>
    decreases s.len(),
{
    if s.len() == 0 {
        None
    } else if s[0].0 == c {
        Some(s[0].1)
    } else {
        find_freq(s.drop_first(), c)
    }
}

impl FreqTable {
    /// The stored count of `c`, an absent element counting as zero.
    pub open(crate) spec fn count_or0(self, c: char) -> nat {
        match find_freq(self.entries@, c) {
            Some(x) => x as nat,
            None => 0,
        }
    }

    /// Whether `c` is listed.
    pub open(crate) spec fn lists(self, c: char) -> bool {
        find_freq(self.entries@, c) is Some
    }

    /// The number of distinct elements listed.
    pub open(crate) spec fn size(self) -> nat {
        self.entries@.len() as nat
    }

    /// Each element is listed at most once, with a positive count.
    pub open(crate) spec fn wf(self) -> bool {
        &&& forall|i: int, j: int|
            0 <= i < j < self.entries@.len() ==> self.entries@[i].0 != self.entries@[j].0
        &&& forall|i: int| 0 <= i < self.entries@.len() ==> (#[trigger] self.entries@[i]).1 >= 1
    }

    /// An empty table.
    pub fn new() -> (r: FreqTable)
        ensures
            r.wf(),
            forall|c: char| !r.lists(c),
    {
        let r = FreqTable { entries: Vec::new() };
        r
    }

    /// The stored count of `c`, or `None` when `c` never occurred.
    pub fn get(&self, c: char) -> (r: Option<usize>)
        ensures
            r is Some <==> self.lists(c),
            r matches Some(x) ==> x == self.count_or0(c),
    {
        let n = self.entries.len();
        for i in 0..n
            invariant
                n == self.entries@.len(),
                forall|j: int| 0 <= j < i ==> self.entries@[j].0 != c,
        {
            if self.entries[i].0 == c {
                proof {
                    lemma_find_freq_at(self.entries@, c, i as int);
                }
                return Some(self.entries[i].1);
            }
        }
        proof {
            lemma_find_freq_none(self.entries@, c);
        }
        None
    }

    /// Whether nothing has been counted.
    pub fn is_empty(&self) -> (r: bool)
        ensures
            r == (self.size() == 0),
    {
        self.entries.len() == 0
    }

    /// Count one more occurrence of `c`.
    fn bump(&mut self, c: char)
        requires
            old(self).wf(),
            old(self).count_or0(c) < usize::MAX,
        ensures
            final (self).wf(),
            forall|d: char|
                #[trigger] final (self).count_or0(d) == old(self).count_or0(d) + if d == c {
                    1int
                } else {
                    0int
                },
            forall|d: char|
                #[trigger] final (self).lists(d) == (old(self).lists(d) || d == c),
    {
        let ghost pre = self.entries@;
        let n = self.entries.len();
        for i in 0..n
            invariant
                n == pre.len(),
                self.entries@ == pre,
                forall|j: int| 0 <= j < i ==> pre[j].0 != c,
                old(self).entries@ == pre,
                old(self).wf(),
                old(self).count_or0(c) < usize::MAX,
        {
            if self.entries[i].0 == c {
                proof {
                    lemma_find_freq_at(pre, c, i as int);
                }
                let e = &mut self.entries[i];
                e.1 = e.1 + 1;
                proof {
                    let x = self.entries@[i as int];
                    assert forall|d: char|
                        #[trigger] find_freq(self.entries@, d) == (if d == c {
                            Some(x.1)
                        } else {
                            find_freq(pre, d)
                        }) by {
                        lemma_find_freq_update(pre, i as int, x, d);
                    }
                }
                return ;
            }
        }
        proof {
            lemma_find_freq_none(pre, c);
        }
        let fresh = (c, 1usize);
        proof {
            assert forall|d: char|
                #[trigger] find_freq(pre.push(fresh), d) == (if d == c {
                    Some(1usize)
                } else {
                    find_freq(pre, d)
                }) by {
                lemma_find_freq_push(pre, fresh, d);
            }
        }
        self.entries.push(fresh);
    }
}

proof fn lemma_find_freq_at(s: Seq<(char, usize)>, c: char, i: int)
    requires
        0 <= i < s.len(),
        s[i].0 == c,
        forall|j: int| 0 <= j < i ==> s[j].0 != c,
    ensures
        find_freq(s, c) == Some(s[i].1),
    decreases i,
{
    if i > 0 {
        lemma_find_freq_at(s.drop_first(), c, i - 1);
    }
}

proof fn lemma_find_freq_none(s: Seq<(char, usize)>, c: char)
    requires
        forall|j: int| 0 <= j < s.len() ==> s[j].0 != c,
    ensures
        find_freq(s, c) is None,
    decreases s.len(),
{
    if s.len() > 0 {
        lemma_find_freq_none(s.drop_first(), c);
    }
}

proof fn lemma_find_freq_update(s: Seq<(char, usize)>, i: int, x: (char, usize), c: char)
    requires
        0 <= i < s.len(),
        s[i].0 == x.0,
        forall|j: int| 0 <= j < i ==> s[j].0 != x.0,
    ensures
        find_freq(s.update(i, x), c) == if c == x.0 {
            Some(x.1)
        } else {
            find_freq(s, c)
        },
    decreases i,
{
    let s2 = s.update(i, x);
    assert(s2.len() == s.len());
    if i == 0 {
        assert(s2[0] == x);
        assert(s2.drop_first() =~= s.drop_first());
    } else {
        assert(s2[0] == s[0]);
        lemma_find_freq_update(s.drop_first(), i - 1, x, c);
        assert(s2.drop_first() =~= s.drop_first().update(i - 1, x));
    }
}

proof fn lemma_find_freq_push(s: Seq<(char, usize)>, x: (char, usize), c: char)
    requires
        forall|j: int| 0 <= j < s.len() ==> s[j].0 != x.0,
    ensures
        find_freq(s.push(x), c) == if c == x.0 {
            Some(x.1)
        } else {
            find_freq(s, c)
        },
    decreases s.len(),
{
    let s2 = s.push(x);
    assert(s2.len() == s.len() + 1);
    if s.len() == 0 {
        assert(s2[0] == x);
        assert(s2.drop_first() =~= Seq::<(char, usize)>::empty());
        assert(find_freq(Seq::<(char, usize)>::empty(), c) is None);
    } else {
        assert(s2[0] == s[0]);
        lemma_find_freq_push(s.drop_first(), x, c);
        assert(s2.drop_first() =~= s.drop_first().push(x));
    }
}

/// An occurrence count never exceeds the sequence length.
proof fn lemma_occurrences_le_len(s: Seq<char>, c: char)
    ensures
        occurrences(s, c) <= s.len(),
    decreases s.len(),
{
    if s.len() > 0 {
        lemma_occurrences_le_len(s.drop_last(), c);
    }
}

/// Count each element of `elems` into `freq`.
fn count_into(elems: &Vec<char>, freq: FreqTable) -> (r: FreqTable)
    requires
        freq.wf(),
        forall|c: char| #[trigger] freq.count_or0(c) + elems@.len() <= usize::MAX,
    ensures
        r.wf(),
        forall|c: char|
            #[trigger] r.count_or0(c) == freq.count_or0(c) + occurrences(elems@, c),
        forall|c: char|
            #[trigger] r.lists(c) == (freq.lists(c) || occurrences(elems@, c) > 0),
{
    let mut out = freq;
    let n = elems.len();
    for i in 0..n
        invariant
            n == elems@.len(),
            out.wf(),
            forall|c: char|
                #[trigger] out.count_or0(c) == freq.count_or0(c) + occurrences(
                    elems@.take(i as int),
                    c,
                ),
            forall|c: char|
                #[trigger] out.lists(c) == (freq.lists(c) || occurrences(elems@.take(i as int), c)
                    > 0),
            forall|c: char| #[trigger] freq.count_or0(c) + elems@.len() <= usize::MAX,
    {
        proof {
            lemma_occurrences_le_len(elems@.take(i as int), elems@[i as int]);
            assert(out.count_or0(elems@[i as int]) < usize::MAX);
        }
        out.bump(elems[i]);
        proof {
            assert forall|c: char|
                occurrences(elems@.take(i + 1), c) == occurrences(elems@.take(i as int), c) + (
                if c == elems@[i as int] {
                    1int
                } else {
                    0int
                }) by {
                assert(elems@.take(i + 1).drop_last() =~= elems@.take(i as int));
                assert(elems@.take(i + 1).last() == elems@[i as int]);
            }
        }
    }
    proof {
        assert(elems@.take(n as int) =~= elems@);
    }
    out
}

/// Frequency table of the elements of `s`: its Unicode characters when
/// `unicode` is set, otherwise its raw UTF-8 bytes, each byte lifted to
/// a char-shaped key without reinterpreting multi-byte sequences.
pub fn stem(s: &str, unicode: bool) -> (r: FreqTable)
    requires
        s@.len() <= usize::MAX,
        s.spec_bytes().len() <= usize::MAX,
    ensures
        r.wf(),
        unicode ==> forall|c: char| #[trigger] r.count_or0(c) == occurrences(s@, c),
        unicode ==> forall|c: char| #[trigger] r.lists(c) == (occurrences(s@, c) > 0),
        !unicode ==> forall|c: char|
            #[trigger] r.count_or0(c) == occurrences(byte_chars(s.spec_bytes()), c),
        !unicode ==> forall|c: char|
            #[trigger] r.lists(c) == (occurrences(byte_chars(s.spec_bytes()), c) > 0),
{
    let freq = FreqTable::new();
    proof {
        assert forall|c: char| #[trigger] freq.count_or0(c) == 0 by {
            assert(!freq.lists(c));
        }
    }
    if unicode {
        stem_unicode_sequence(s, freq)
    } else {
        stem_byte_sequence(s, freq)
    }
}

/// The bytes of a sequence, each as a char-shaped key.
pub open spec fn byte_chars(bs: Seq<u8>) -> Seq<char> {
    bs.map_values(|b: u8| b as char)
}

/// Count the raw bytes of `s` into `freq`.
fn stem_byte_sequence(s: &str, freq: FreqTable) -> (r: FreqTable)
    requires
        freq.wf(),
        forall|c: char| #[trigger] freq.count_or0(c) + s.spec_bytes().len() <= usize::MAX,
    ensures
        r.wf(),
        forall|c: char|
            #[trigger] r.count_or0(c) == freq.count_or0(c) + occurrences(
                byte_chars(s.spec_bytes()),
                c,
            ),
        forall|c: char|
            #[trigger] r.lists(c) == (freq.lists(c) || occurrences(byte_chars(s.spec_bytes()), c)
                > 0),
{
    let bs = s.as_bytes();
    let mut elems: Vec<char> = Vec::new();
    let n = bs.len();
    for i in 0..n
        invariant
            n == bs@.len(),
            bs@ == s.spec_bytes(),
            elems@ == byte_chars(bs@.take(i as int)),
    {
        elems.push(bs[i] as char);
        proof {
            assert(elems@ =~= byte_chars(bs@.take(i + 1)));
        }
    }
    proof {
        assert(bs@.take(n as int) =~= bs@);
    }
    count_into(&elems, freq)
}

/// Count the Unicode characters of `s` into `freq`.
fn stem_unicode_sequence(s: &str, freq: FreqTable) -> (r: FreqTable)
    requires
        freq.wf(),
        forall|c: char| #[trigger] freq.count_or0(c) + s@.len() <= usize::MAX,
    ensures
        r.wf(),
        forall|c: char| #[trigger] r.count_or0(c) == freq.count_or0(c) + occurrences(s@, c),
        forall|c: char| #[trigger] r.lists(c) == (freq.lists(c) || occurrences(s@, c) > 0),
{
    let elems = str_chars(s);
    count_into(&elems, freq)
}

} // verus!
