use crate::strutil::{push_char, str_chars};
use vstd::prelude::*;

verus! {

/// Fixed-width partition of a character sequence into windows of `n`
/// characters; the final window may be shorter.
pub open spec fn chunks(s: Seq<char>, n: nat) -> Seq<Seq<char>>
    decreases s.len(),
{
    if n == 0 || s.len() == 0 {
        Seq::<Seq<char>>::empty()
    } else if s.len() <= n {
        seq![s]
    } else {
        seq![s.take(n as int)] + chunks(s.skip(n as int), n)
    }
}

/// Split the character sequence of `sequence` into `n`-sized windows,
/// returned as strings; the final window may be shorter.
pub fn explode_usn(sequence: &str, n: usize) -> (r: Vec<String>)
    requires
        n >= 1,
    ensures
        r@.map_values(|t: String| t@) == chunks(sequence@, n as nat),
{
    let cs = str_chars(sequence);
    let mut out: Vec<String> = Vec::new();
    let total = cs.len();
    let mut i: usize = 0;
    proof {
        assert(chunk_views(out@) =~= Seq::<Seq<char>>::empty());
        assert(sequence@.skip(0) =~= sequence@);
        assert(Seq::<Seq<char>>::empty() + chunks(sequence@, n as nat) =~= chunks(
            sequence@,
            n as nat,
        ));
    }
    while i < total
        invariant
            total == cs@.len(),
            cs@ == sequence@,
            i <= total,
            n >= 1,
            chunks(sequence@, n as nat) == chunk_views(out@) + chunks(sequence@.skip(i as int), n as nat),
        decreases total - i,
    {
        let upper = if total - i < n {
            total
        } else {
            i + n
        };
        let mut piece = String::new();
        let ghost pre = out@;
        let mut j = i;
        while j < upper
            invariant
                i <= j <= upper <= total,
                total == cs@.len(),
                cs@ == sequence@,
                piece@ == sequence@.subrange(i as int, j as int),
            decreases upper - j,
        {
            proof {
                assert(sequence@.subrange(i as int, j + 1) =~= sequence@.subrange(
                    i as int,
                    j as int,
                ).push(sequence@[j as int]));
            }
            push_char(&mut piece, cs[j]);
            j = j + 1;
        }
        out.push(piece);
        proof {
            let rest = sequence@.skip(i as int);
            assert(rest.len() > 0);
            if rest.len() <= n {
                assert(upper == total);
                assert(sequence@.subrange(i as int, upper as int) =~= rest);
                assert(chunks(rest, n as nat) == seq![rest]);
                assert(sequence@.skip(upper as int) =~= Seq::<char>::empty());
                assert(chunks(Seq::<char>::empty(), n as nat) =~= Seq::<Seq<char>>::empty());
                assert(chunk_views(out@) =~= chunk_views(pre) + seq![rest]);
                assert(chunk_views(pre) + (seq![rest] + Seq::<Seq<char>>::empty()) =~= chunk_views(
                    out@,
                ) + Seq::<Seq<char>>::empty());
            } else {
                assert(upper == i + n);
                assert(sequence@.subrange(i as int, upper as int) =~= rest.take(n as int));
                assert(chunks(rest, n as nat) == seq![rest.take(n as int)] + chunks(
                    rest.skip(n as int),
                    n as nat,
                ));
                assert(rest.skip(n as int) =~= sequence@.skip(upper as int));
                assert(chunk_views(out@) =~= chunk_views(pre) + seq![rest.take(n as int)]);
                assert(chunk_views(pre) + (seq![rest.take(n as int)] + chunks(
                    sequence@.skip(upper as int),
                    n as nat,
                )) =~= chunk_views(out@) + chunks(sequence@.skip(upper as int), n as nat));
            }
        }
        i = upper;
    }
    proof {
        assert(sequence@.skip(total as int).len() == 0);
        assert(chunks(sequence@.skip(total as int), n as nat) =~= Seq::<Seq<char>>::empty());
        assert(chunk_views(out@) + Seq::<Seq<char>>::empty() =~= chunk_views(out@));
    }
    out
}

/// The strings of a chunk list, as character sequences.
pub open spec fn chunk_views(v: Seq<String>) -> Seq<Seq<char>> {
    v.map_values(|t: String| t@)
}

} // verus!
