use crate::strutil::str_chars;
use vstd::string::StringSliceAdditionalSpecFns;
use vstd::prelude::*;

verus! {

/// How the characters of a string are interpreted when comparing:
/// Unicode scalar values, or the raw bytes of its UTF-8 form.
enum Interpretation {
    Unicode,
    Bytes,
}

/// Number of positions, up to the longer length, at which the two
/// sequences differ; a missing element counts as a difference.  This is
/// a position-wise count, not an edit-search distance.
pub open spec fn diff_count<T>(s1: Seq<T>, s2: Seq<T>, i: int) -> nat
    decreases vstd::math::max(s1.len() as int, s2.len() as int) - i,
{
    if i < 0 || i >= vstd::math::max(s1.len() as int, s2.len() as int) {
        0
    } else {
        (if i >= s1.len() || i >= s2.len() || s1[i] != s2[i] {
            1nat
        } else {
            0nat
        }) + diff_count(s1, s2, i + 1)
    }
}

/// Position-wise difference of the two strings' characters.
pub fn distance(s1: &str, s2: &str) -> (r: usize)
    requires
        vstd::math::max(s1@.len() as int, s2@.len() as int) <= usize::MAX,
    ensures
        r == diff_count(s1@, s2@, 0),
{
    distance_unicode(s1, s2)
}

/// Position-wise difference of the two strings' characters.
pub fn distance_unicode(s1: &str, s2: &str) -> (r: usize)
    requires
        vstd::math::max(s1@.len() as int, s2@.len() as int) <= usize::MAX,
    ensures
        r == diff_count(s1@, s2@, 0),
{
    levenshtein_edit_distance(s1, s2, Interpretation::Unicode)
}

/// Position-wise difference of the two strings' UTF-8 bytes.
pub fn distance_byte(s1: &str, s2: &str) -> (r: usize)
    ensures
        r == diff_count(s1.spec_bytes(), s2.spec_bytes(), 0),
{
    levenshtein_edit_distance(s1, s2, Interpretation::Bytes)
}

/// Position-wise difference of two character sequences.
fn count_edits(v1: &[char], v2: &[char]) -> (r: usize)
    requires
        vstd::math::max(v1@.len() as int, v2@.len() as int) <= usize::MAX,
    ensures
        r == diff_count(v1@, v2@, 0),
{
    let n1 = v1.len();
    let n2 = v2.len();
    let n = if n1 > n2 {
        n1
    } else {
        n2
    };
    let mut count: usize = 0;
    let mut i = n;
    while i > 0
        invariant
            n == vstd::math::max(v1@.len() as int, v2@.len() as int),
            n1 == v1@.len(),
            n2 == v2@.len(),
            i <= n,
            count <= n - i,
            count == diff_count(v1@, v2@, i as int),
        decreases i,
    {
        i = i - 1;
        let differ = if i >= n1 || i >= n2 {
            true
        } else {
            v1[i] != v2[i]
        };
        if differ {
            count = count + 1;
        }
    }
    count
}

/// Position-wise difference of two byte sequences.
fn count_edits_bytes(v1: &[u8], v2: &[u8]) -> (r: usize)
    ensures
        r == diff_count(v1@, v2@, 0),
{
    let n1 = v1.len();
    let n2 = v2.len();
    let n = if n1 > n2 {
        n1
    } else {
        n2
    };
    let mut count: usize = 0;
    let mut i = n;
    while i > 0
        invariant
            n == vstd::math::max(v1@.len() as int, v2@.len() as int),
            n1 == v1@.len(),
            n2 == v2@.len(),
            i <= n,
            count <= n - i,
            count == diff_count(v1@, v2@, i as int),
        decreases i,
    {
        i = i - 1;
        let differ = if i >= n1 || i >= n2 {
            true
        } else {
            v1[i] != v2[i]
        };
        if differ {
            count = count + 1;
        }
    }
    count
}

/// Position-wise difference of two sequences under the chosen
/// interpretation.
fn levenshtein_edit_distance(s1: &str, s2: &str, mode: Interpretation) -> (r: usize)
    requires
        mode is Unicode ==> vstd::math::max(s1@.len() as int, s2@.len() as int) <= usize::MAX,
    ensures
        r == match mode {
            Interpretation::Unicode => diff_count(s1@, s2@, 0),
            Interpretation::Bytes => diff_count(s1.spec_bytes(), s2.spec_bytes(), 0),
        },
{
    match mode {
        Interpretation::Unicode => {
            let v1 = str_chars(s1);
            let v2 = str_chars(s2);
            count_edits(v1.as_slice(), v2.as_slice())
        },
        Interpretation::Bytes => count_edits_bytes(s1.as_bytes(), s2.as_bytes()),
    }
}

} // verus!
