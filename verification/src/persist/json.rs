//! JSON persistence for the classifier: a verified encoder to the on-disk
//! document with the three top-level keys `train_counts`, `token_counts`
//! and `total_counts`, and a verified decoder that inverts it.

use crate::bayes::naive_bayes::{LabelEntry, NaiveBayes, TokenCount};
use crate::strutil::{push_char, str_chars};
use vstd::prelude::*;

verus! {

/// JSON whitespace.
pub open spec fn is_ws(c: char) -> bool {
    c == ' ' || c == '\n' || c == '\t' || c == '\r'
}

/// The decimal digit `n`, as a character.
pub open spec fn digit_char(n: nat) -> char {
    if n == 0 {
        '0'
    } else if n == 1 {
        '1'
    } else if n == 2 {
        '2'
    } else if n == 3 {
        '3'
    } else if n == 4 {
        '4'
    } else if n == 5 {
        '5'
    } else if n == 6 {
        '6'
    } else if n == 7 {
        '7'
    } else if n == 8 {
        '8'
    } else {
        '9'
    }
}

/// The hexadecimal digit `n`, as a lower-case character.
pub open spec fn hex_char(n: nat) -> char {
    if n < 10 {
        digit_char(n)
    } else if n == 10 {
        'a'
    } else if n == 11 {
        'b'
    } else if n == 12 {
        'c'
    } else if n == 13 {
        'd'
    } else if n == 14 {
        'e'
    } else {
        'f'
    }
}

/// The decimal digits of `n`, most significant first, with no leading
/// zero.
pub open spec fn dec_digits(n: nat) -> Seq<char>
    decreases n,
{
    if n < 10 {
        seq![digit_char(n)]
    } else {
        dec_digits(n / 10) + seq![digit_char(n % 10)]
    }
}

/// How one character is written inside a JSON string literal: quote and
/// backslash get a two-character escape, the common control characters
/// their short escapes, other control characters a `\u00..` escape, and
/// everything else stands as itself.
pub open spec fn esc_char(c: char) -> Seq<char> {
    if c == '"' {
        seq!['\\', '"']
    } else if c == '\\' {
        seq!['\\', '\\']
    } else if c == '\u{8}' {
        seq!['\\', 'b']
    } else if c == '\u{c}' {
        seq!['\\', 'f']
    } else if c == '\n' {
        seq!['\\', 'n']
    } else if c == '\r' {
        seq!['\\', 'r']
    } else if c == '\t' {
        seq!['\\', 't']
    } else if (c as u32) < 0x20 {
        seq!['\\', 'u', '0', '0', hex_char((c as u32 / 16) as nat), hex_char((c as u32 % 16) as nat)]
    } else {
        seq![c]
    }
}

/// The body of a JSON string literal for `s`.
pub open spec fn qbody(s: Seq<char>) -> Seq<char>
    decreases s.len(),
{
    if s.len() == 0 {
        Seq::<char>::empty()
    } else {
        esc_char(s[0]) + qbody(s.drop_first())
    }
}

/// The JSON string literal for `s`.
pub open spec fn qstr(s: Seq<char>) -> Seq<char> {
    seq!['"'] + qbody(s) + seq!['"']
}

/// One `"key":value` member with a numeric value.
pub open spec fn num_item(p: (Seq<char>, nat)) -> Seq<char> {
    qstr(p.0) + seq![':'] + dec_digits(p.1)
}

/// The members of an object of numeric values, separated by commas.
pub open spec fn obj_body(ps: Seq<(Seq<char>, nat)>) -> Seq<char>
    decreases ps.len(),
{
    if ps.len() == 0 {
        Seq::<char>::empty()
    } else if ps.len() == 1 {
        num_item(ps[0])
    } else {
        num_item(ps[0]) + seq![','] + obj_body(ps.drop_first())
    }
}

/// An object of numeric values.
pub open spec fn obj(ps: Seq<(Seq<char>, nat)>) -> Seq<char> {
    seq!['{'] + obj_body(ps) + seq!['}']
}

/// Labels and document counts, in entry order.
pub open(crate) spec fn pairs_doc(es: Seq<LabelEntry>) -> Seq<(Seq<char>, nat)> {
    es.map_values(|e: LabelEntry| (e.label@, e.train_count as nat))
}

/// Labels and token totals, in entry order.
pub open(crate) spec fn pairs_tot(es: Seq<LabelEntry>) -> Seq<(Seq<char>, nat)> {
    es.map_values(|e: LabelEntry| (e.label@, e.total_count as nat))
}

/// Tokens and counts of one label, in entry order.
pub open(crate) spec fn pairs_tok(ts: Seq<TokenCount>) -> Seq<(Seq<char>, nat)> {
    ts.map_values(|tc: TokenCount| (tc.token@, tc.count as nat))
}

/// The members of the `token_counts` object: one inner object per label.
pub open(crate) spec fn tok_body(es: Seq<LabelEntry>) -> Seq<char>
    decreases es.len(),
{
    if es.len() == 0 {
        Seq::<char>::empty()
    } else if es.len() == 1 {
        qstr(es[0].label@) + seq![':'] + obj(pairs_tok(es[0].tokens@))
    } else {
        qstr(es[0].label@) + seq![':'] + obj(pairs_tok(es[0].tokens@)) + seq![','] + tok_body(
            es.drop_first(),
        )
    }
}

/// `{"train_counts":`
pub open spec fn frag_train() -> Seq<char> {
    seq!['{', '"', 't', 'r', 'a', 'i', 'n', '_', 'c', 'o', 'u', 'n', 't', 's', '"', ':']
}

/// `,"token_counts":`
pub open spec fn frag_token() -> Seq<char> {
    seq![',', '"', 't', 'o', 'k', 'e', 'n', '_', 'c', 'o', 'u', 'n', 't', 's', '"', ':']
}

/// `,"total_counts":`
pub open spec fn frag_total() -> Seq<char> {
    seq![',', '"', 't', 'o', 't', 'a', 'l', '_', 'c', 'o', 'u', 'n', 't', 's', '"', ':']
}

/// The compact JSON document for a classifier with these entries.
pub open(crate) spec fn json_compact(es: Seq<LabelEntry>) -> Seq<char> {
    frag_train() + obj(pairs_doc(es)) + frag_token() + seq!['{'] + tok_body(es) + seq!['}']
        + frag_total() + obj(pairs_tot(es)) + seq!['}']
}

/// State of the whitespace stripper: outside any string literal, inside
/// one, or inside one right after a backslash.
pub enum StripState {
    Outside,
    Inside,
    Escaped,
}

/// One character of stripping: whitespace outside string literals is
/// dropped, everything else is kept.
pub open spec fn strip_step(st: StripState, c: char) -> (StripState, Seq<char>) {
    match st {
        StripState::Outside => if c == '"' {
            (StripState::Inside, seq![c])
        } else if is_ws(c) {
            (StripState::Outside, Seq::<char>::empty())
        } else {
            (StripState::Outside, seq![c])
        },
        StripState::Inside => if c == '\\' {
            (StripState::Escaped, seq![c])
        } else if c == '"' {
            (StripState::Outside, seq![c])
        } else {
            (StripState::Inside, seq![c])
        },
        StripState::Escaped => (StripState::Inside, seq![c]),
    }
}

/// Strip `s` starting in state `st`.
pub open spec fn strip_from(st: StripState, s: Seq<char>) -> (StripState, Seq<char>)
    decreases s.len(),
{
    if s.len() == 0 {
        (st, Seq::<char>::empty())
    } else {
        let first = strip_step(st, s[0]);
        let rest = strip_from(first.0, s.drop_first());
        (rest.0, first.1 + rest.1)
    }
}

/// `s` without insignificant whitespace.
pub open spec fn strip_ws(s: Seq<char>) -> Seq<char> {
    strip_from(StripState::Outside, s).1
}

/// The value of a decimal digit character.
pub open spec fn digit_val(c: char) -> Option<nat> {
    if c == '0' {
        Some(0nat)
    } else if c == '1' {
        Some(1nat)
    } else if c == '2' {
        Some(2nat)
    } else if c == '3' {
        Some(3nat)
    } else if c == '4' {
        Some(4nat)
    } else if c == '5' {
        Some(5nat)
    } else if c == '6' {
        Some(6nat)
    } else if c == '7' {
        Some(7nat)
    } else if c == '8' {
        Some(8nat)
    } else if c == '9' {
        Some(9nat)
    } else {
        None
    }
}

/// The value of a hexadecimal digit character, either case.
pub open spec fn hex_val(c: char) -> Option<nat> {
    if digit_val(c) is Some {
        digit_val(c)
    } else if c == 'a' || c == 'A' {
        Some(10nat)
    } else if c == 'b' || c == 'B' {
        Some(11nat)
    } else if c == 'c' || c == 'C' {
        Some(12nat)
    } else if c == 'd' || c == 'D' {
        Some(13nat)
    } else if c == 'e' || c == 'E' {
        Some(14nat)
    } else if c == 'f' || c == 'F' {
        Some(15nat)
    } else {
        None
    }
}

/// Consume leading digits, folding them onto `acc`.
pub open spec fn parse_num_from(s: Seq<char>, acc: nat) -> (nat, Seq<char>)
    decreases s.len(),
{
    if s.len() > 0 && digit_val(s[0]) is Some {
        parse_num_from(s.drop_first(), acc * 10 + digit_val(s[0])->Some_0)
    } else {
        (acc, s)
    }
}

/// Parse a JSON number: one or more digits, no leading zero, and a value
/// that fits the machine's unsigned integer range.
pub open spec fn parse_num(s: Seq<char>) -> Option<(nat, Seq<char>)> {
    if s.len() == 0 || digit_val(s[0]) is None {
        None
    } else if s[0] == '0' && s.len() >= 2 && digit_val(s[1]) is Some {
        None
    } else {
        let r = parse_num_from(s, 0);
        if r.0 > usize::MAX {
            None
        } else {
            Some(r)
        }
    }
}

/// Whether `v` is a Unicode scalar value.
pub open spec fn is_scalar_val(v: nat) -> bool {
    v < 0xD800 || (0xE000 <= v && v <= 0x10FFFF)
}

/// Parse the body of a string literal after its opening quote, up to and
/// including the closing quote: the unescaped content and the remainder.
pub open spec fn parse_qbody(s: Seq<char>) -> Option<(Seq<char>, Seq<char>)>
    decreases s.len(), 0int,
{
    if s.len() == 0 {
        None
    } else if s[0] == '"' {
        Some((Seq::<char>::empty(), s.drop_first()))
    } else if s[0] == '\\' {
        if s.len() < 2 {
            None
        } else {
            let e = s[1];
            if e == '"' || e == '\\' || e == '/' {
                cont_qbody(e, s.skip(2))
            } else if e == 'b' {
                cont_qbody('\u{8}', s.skip(2))
            } else if e == 'f' {
                cont_qbody('\u{c}', s.skip(2))
            } else if e == 'n' {
                cont_qbody('\n', s.skip(2))
            } else if e == 'r' {
                cont_qbody('\r', s.skip(2))
            } else if e == 't' {
                cont_qbody('\t', s.skip(2))
            } else if e == 'u' {
                if s.len() < 6 || hex_val(s[2]) is None || hex_val(s[3]) is None || hex_val(s[4])
                    is None || hex_val(s[5]) is None {
                    None
                } else {
                    let v = hex_val(s[2])->Some_0 * 0x1000 + hex_val(s[3])->Some_0 * 0x100
                        + hex_val(s[4])->Some_0 * 0x10 + hex_val(s[5])->Some_0;
                    if is_scalar_val(v) {
                        cont_qbody((v as u32) as char, s.skip(6))
                    } else {
                        None
                    }
                }
            } else {
                None
            }
        }
    } else {
        cont_qbody(s[0], s.drop_first())
    }
}

/// Prepend `c` to whatever the rest of the string body parses to.
pub open spec fn cont_qbody(c: char, s: Seq<char>) -> Option<(Seq<char>, Seq<char>)>
    decreases s.len(), 1int,
{
    match parse_qbody(s) {
        Some(p) => Some((seq![c] + p.0, p.1)),
        None => None,
    }
}

/// Parse a string literal, quote to quote.
pub open spec fn parse_qstr(s: Seq<char>) -> Option<(Seq<char>, Seq<char>)> {
    if s.len() > 0 && s[0] == '"' {
        parse_qbody(s.drop_first())
    } else {
        None
    }
}

/// Parse the members of an object of numeric values, after the opening
/// brace of a non-empty object, up to and including the closing brace.
/// The fuel only bounds the recursion; any value at least the member
/// count gives the same answer.
pub open spec fn parse_flat_members(s: Seq<char>, fuel: nat) -> Option<
    (Seq<(Seq<char>, nat)>, Seq<char>),
>
    decreases fuel,
{
    if fuel == 0 {
        None
    } else {
        match parse_qstr(s) {
            None => None,
            Some(kr) => {
                let k = kr.0;
                let r1 = kr.1;
                if r1.len() == 0 || r1[0] != ':' {
                    None
                } else {
                    match parse_num(r1.drop_first()) {
                        None => None,
                        Some(vr) => {
                            let v = vr.0;
                            let r2 = vr.1;
                            if r2.len() == 0 {
                                None
                            } else if r2[0] == ',' {
                                match parse_flat_members(r2.drop_first(), (fuel - 1) as nat) {
                                    Some(pr) => Some((seq![(k, v)] + pr.0, pr.1)),
                                    None => None,
                                }
                            } else if r2[0] == '}' {
                                Some((seq![(k, v)], r2.drop_first()))
                            } else {
                                None
                            }
                        },
                    }
                }
            },
        }
    }
}

/// Parse an object of numeric values.
pub open spec fn parse_flat_obj(s: Seq<char>) -> Option<(Seq<(Seq<char>, nat)>, Seq<char>)> {
    if s.len() == 0 || s[0] != '{' {
        None
    } else if s.len() >= 2 && s[1] == '}' {
        Some((Seq::<(Seq<char>, nat)>::empty(), s.skip(2)))
    } else {
        parse_flat_members(s.drop_first(), s.len())
    }
}

/// Parse the members of the object of per-label token tables, after the
/// opening brace of a non-empty object.
pub open spec fn parse_tok_members(s: Seq<char>, fuel: nat) -> Option<
    (Seq<(Seq<char>, Seq<(Seq<char>, nat)>)>, Seq<char>),
>
    decreases fuel,
{
    if fuel == 0 {
        None
    } else {
        match parse_qstr(s) {
            None => None,
            Some(kr) => {
                let k = kr.0;
                let r1 = kr.1;
                if r1.len() == 0 || r1[0] != ':' {
                    None
                } else {
                    match parse_flat_obj(r1.drop_first()) {
                        None => None,
                        Some(vr) => {
                            let v = vr.0;
                            let r2 = vr.1;
                            if r2.len() == 0 {
                                None
                            } else if r2[0] == ',' {
                                match parse_tok_members(r2.drop_first(), (fuel - 1) as nat) {
                                    Some(pr) => Some((seq![(k, v)] + pr.0, pr.1)),
                                    None => None,
                                }
                            } else if r2[0] == '}' {
                                Some((seq![(k, v)], r2.drop_first()))
                            } else {
                                None
                            }
                        },
                    }
                }
            },
        }
    }
}

/// Parse the object of per-label token tables.
pub open spec fn parse_tok_obj(s: Seq<char>) -> Option<
    (Seq<(Seq<char>, Seq<(Seq<char>, nat)>)>, Seq<char>),
> {
    if s.len() == 0 || s[0] != '{' {
        None
    } else if s.len() >= 2 && s[1] == '}' {
        Some((Seq::<(Seq<char>, Seq<(Seq<char>, nat)>)>::empty(), s.skip(2)))
    } else {
        parse_tok_members(s.drop_first(), s.len())
    }
}

/// Parse a whole whitespace-free document: the three tables, in order,
/// under their fixed keys, with nothing after the closing brace.
pub open spec fn parse_doc(s: Seq<char>) -> Option<
    (
        Seq<(Seq<char>, nat)>,
        Seq<(Seq<char>, Seq<(Seq<char>, nat)>)>,
        Seq<(Seq<char>, nat)>,
    ),
> {
    if s.len() < 16 || s.take(16) != frag_train() {
        None
    } else {
        match parse_flat_obj(s.skip(16)) {
            None => None,
            Some(dr) => {
                let r1 = dr.1;
                if r1.len() < 16 || r1.take(16) != frag_token() {
                    None
                } else {
                    match parse_tok_obj(r1.skip(16)) {
                        None => None,
                        Some(tr) => {
                            let r2 = tr.1;
                            if r2.len() < 16 || r2.take(16) != frag_total() {
                                None
                            } else {
                                match parse_flat_obj(r2.skip(16)) {
                                    None => None,
                                    Some(er) => {
                                        if er.1 =~= seq!['}'] {
                                            Some((dr.0, tr.0, er.0))
                                        } else {
                                            None
                                        }
                                    },
                                }
                            }
                        },
                    }
                }
            },
        }
    }
}

/// First value stored under key `k`, if any.
pub open spec fn find_pair(ps: Seq<(Seq<char>, nat)>, k: Seq<char>) -> Option<nat>
    decreases ps.len(),
{
    if ps.len() == 0 {
        None
    } else if ps[0].0 == k {
        Some(ps[0].1)
    } else {
        find_pair(ps.drop_first(), k)
    }
}

/// First token table stored under key `k`, if any.
pub open spec fn find_tok(
    ts: Seq<(Seq<char>, Seq<(Seq<char>, nat)>)>,
    k: Seq<char>,
) -> Option<Seq<(Seq<char>, nat)>>
    decreases ts.len(),
{
    if ts.len() == 0 {
        None
    } else if ts[0].0 == k {
        Some(ts[0].1)
    } else {
        find_tok(ts.drop_first(), k)
    }
}

/// Sum of the values of a pair sequence.
pub open spec fn pair_sum(ps: Seq<(Seq<char>, nat)>) -> int
    decreases ps.len(),
{
    if ps.len() == 0 {
        0
    } else {
        ps[0].1 + pair_sum(ps.drop_first())
    }
}

/// No key occurs twice.
pub open spec fn pair_keys_unique(ps: Seq<(Seq<char>, nat)>) -> bool {
    forall|i: int, j: int| 0 <= i < j < ps.len() ==> ps[i].0 != ps[j].0
}

/// No label occurs twice in the token-table sequence.
pub open spec fn tok_keys_unique(ts: Seq<(Seq<char>, Seq<(Seq<char>, nat)>)>) -> bool {
    forall|i: int, j: int| 0 <= i < j < ts.len() ==> ts[i].0 != ts[j].0
}

/// Consistency of three parsed tables: identical label sets, every
/// document count at least one, every token count at least one, and each
/// label's total equal to the sum of its token counts.
pub open spec fn valid_parsed(
    docs: Seq<(Seq<char>, nat)>,
    toks: Seq<(Seq<char>, Seq<(Seq<char>, nat)>)>,
    tots: Seq<(Seq<char>, nat)>,
) -> bool {
    &&& pair_keys_unique(docs)
    &&& tok_keys_unique(toks)
    &&& pair_keys_unique(tots)
    &&& toks.len() == docs.len()
    &&& tots.len() == docs.len()
    &&& forall|i: int|
        0 <= i < docs.len() ==> {
            let l = (#[trigger] docs[i]).0;
            &&& docs[i].1 >= 1
            &&& find_tok(toks, l) is Some
            &&& find_pair(tots, l) is Some
            &&& pair_keys_unique(find_tok(toks, l)->Some_0)
            &&& (forall|j: int|
                0 <= j < find_tok(toks, l)->Some_0.len() ==> (#[trigger] find_tok(
                    toks,
                    l,
                )->Some_0[j]).1 >= 1)
            &&& pair_sum(find_tok(toks, l)->Some_0) == find_pair(tots, l)->Some_0
        }
}

/// One label's share of a decoded classifier: label, document count,
/// token counts, token total.
pub type EntryView = (Seq<char>, nat, Seq<(Seq<char>, nat)>, nat);

/// The decoded entries, in document-table order.
pub open spec fn assemble(
    docs: Seq<(Seq<char>, nat)>,
    toks: Seq<(Seq<char>, Seq<(Seq<char>, nat)>)>,
    tots: Seq<(Seq<char>, nat)>,
) -> Seq<EntryView> {
    Seq::new(
        docs.len(),
        |i: int|
            (
                docs[i].0,
                docs[i].1,
                find_tok(toks, docs[i].0)->Some_0,
                find_pair(tots, docs[i].0)->Some_0,
            ),
    )
}

/// What a JSON document decodes to: `None` exactly when it is not a
/// well-formed, consistent classifier document.
pub open spec fn spec_decode(s: Seq<char>) -> Option<Seq<EntryView>> {
    match parse_doc(strip_ws(s)) {
        None => None,
        Some(p) => {
            if valid_parsed(p.0, p.1, p.2) {
                Some(assemble(p.0, p.1, p.2))
            } else {
                None
            }
        },
    }
}

/// One label entry, seen as a decoded entry.
pub open(crate) spec fn entry_view(e: LabelEntry) -> EntryView {
    (e.label@, e.train_count as nat, pairs_tok(e.tokens@), e.total_count as nat)
}

/// A classifier, seen as its decoded entries.
pub open(crate) spec fn nb_view(nb: NaiveBayes) -> Seq<EntryView> {
    nb.entries@.map_values(|e: LabelEntry| entry_view(e))
}

/// The decimal digit `n`, as a character.
fn digit_char_exec(n: usize) -> (r: char)
    requires
        n < 10,
    ensures
        r == digit_char(n as nat),
{
    match n {
        0 => '0',
        1 => '1',
        2 => '2',
        3 => '3',
        4 => '4',
        5 => '5',
        6 => '6',
        7 => '7',
        8 => '8',
        _ => '9',
    }
}

/// The hexadecimal digit `n`, as a lower-case character.
fn hex_char_exec(n: u32) -> (r: char)
    requires
        n < 16,
    ensures
        r == hex_char(n as nat),
{
    match n {
        0 => '0',
        1 => '1',
        2 => '2',
        3 => '3',
        4 => '4',
        5 => '5',
        6 => '6',
        7 => '7',
        8 => '8',
        9 => '9',
        10 => 'a',
        11 => 'b',
        12 => 'c',
        13 => 'd',
        14 => 'e',
        _ => 'f',
    }
}

/// Write the decimal digits of `n`.
fn write_num(out: &mut String, n: usize)
    ensures
        final (out)@ == old(out)@ + dec_digits(n as nat),
    decreases n,
{
    if n >= 10 {
        write_num(out, n / 10);
    }
    push_char(out, digit_char_exec(n % 10));
}

/// `qbody` grows on the right, one source character at a time.
proof fn lemma_qbody_snoc(s: Seq<char>, i: int)
    requires
        0 <= i < s.len(),
    ensures
        qbody(s.take(i + 1)) == qbody(s.take(i)) + esc_char(s[i]),
    decreases i,
{
    let t = s.take(i + 1);
    if i == 0 {
        assert(t.drop_first() =~= Seq::<char>::empty());
        assert(t[0] == s[0]);
        assert(qbody(Seq::<char>::empty()) == Seq::<char>::empty());
        assert(s.take(0) =~= Seq::<char>::empty());
        assert(qbody(s.take(0)) + esc_char(s[0]) =~= esc_char(s[0]) + Seq::<char>::empty());
    } else {
        lemma_qbody_snoc(s.drop_first(), i - 1);
        assert(t.drop_first() =~= s.drop_first().take(i));
        assert(t[0] == s[0]);
        assert(s.take(i)[0] == s[0]);
        assert(s.take(i).drop_first() =~= s.drop_first().take(i - 1));
        assert(s.drop_first()[i - 1] == s[i]);
        assert(qbody(s.take(i + 1)) == esc_char(s[0]) + qbody(s.drop_first().take(i)));
        assert(esc_char(s[0]) + (qbody(s.drop_first().take(i - 1)) + esc_char(s[i])) =~= (esc_char(
            s[0],
        ) + qbody(s.drop_first().take(i - 1))) + esc_char(s[i]));
        assert(qbody(s.take(i)) == esc_char(s[0]) + qbody(s.drop_first().take(i - 1)));
    }
}

/// Write the JSON string literal for `s`.
fn write_qstr(out: &mut String, s: &str)
    ensures
        final (out)@ == old(out)@ + qstr(s@),
{
    let ghost base = out@;
    let cs = str_chars(s);
    push_char(out, '"');
    let n = cs.len();
    for i in 0..n
        invariant
            n == cs@.len(),
            cs@ == s@,
            out@ == base + seq!['"'] + qbody(s@.take(i as int)),
    {
        let c = cs[i];
        if c == '"' {
            push_char(out, '\\');
            push_char(out, '"');
        } else if c == '\\' {
            push_char(out, '\\');
            push_char(out, '\\');
        } else if c == '\u{8}' {
            push_char(out, '\\');
            push_char(out, 'b');
        } else if c == '\u{c}' {
            push_char(out, '\\');
            push_char(out, 'f');
        } else if c == '\n' {
            push_char(out, '\\');
            push_char(out, 'n');
        } else if c == '\r' {
            push_char(out, '\\');
            push_char(out, 'r');
        } else if c == '\t' {
            push_char(out, '\\');
            push_char(out, 't');
        } else if (c as u32) < 0x20 {
            push_char(out, '\\');
            push_char(out, 'u');
            push_char(out, '0');
            push_char(out, '0');
            push_char(out, hex_char_exec((c as u32) / 16));
            push_char(out, hex_char_exec((c as u32) % 16));
        } else {
            push_char(out, c);
        }
        proof {
            lemma_qbody_snoc(s@, i as int);
            assert(out@ =~= base + seq!['"'] + qbody(s@.take(i + 1)));
        }
    }
    push_char(out, '"');
    proof {
        assert(s@.take(n as int) =~= s@);
        assert(out@ =~= base + qstr(s@));
    }
}

/// `obj_body` grows on the right, one member at a time.
proof fn lemma_obj_body_snoc(ps: Seq<(Seq<char>, nat)>, i: int)
    requires
        0 <= i < ps.len(),
    ensures
        obj_body(ps.take(i + 1)) == if i == 0 {
            num_item(ps[0])
        } else {
            obj_body(ps.take(i)) + seq![','] + num_item(ps[i])
        },
    decreases i,
{
    let t = ps.take(i + 1);
    if i == 0 {
        assert(t =~= seq![ps[0]]);
        assert(obj_body(t) == num_item(ps[0]));
    } else {
        lemma_obj_body_snoc(ps.drop_first(), i - 1);
        assert(t.drop_first() =~= ps.drop_first().take(i));
        assert(ps.take(i).drop_first() =~= ps.drop_first().take(i - 1));
        assert(ps.drop_first()[i - 1] == ps[i]);
        assert(t.len() >= 2);
        assert(obj_body(t) == num_item(ps[0]) + seq![','] + obj_body(ps.drop_first().take(i)));
        if i == 1 {
            assert(obj_body(ps.drop_first().take(1)) == num_item(ps[1]));
            assert(obj_body(ps.take(1)) == num_item(ps[0]));
            assert(num_item(ps[0]) + seq![','] + num_item(ps[1]) =~= obj_body(ps.take(1))
                + seq![','] + num_item(ps[1]));
        } else {
            assert(obj_body(ps.drop_first().take(i)) == obj_body(ps.drop_first().take(i - 1))
                + seq![','] + num_item(ps[i]));
            assert(obj_body(ps.take(i)) == num_item(ps[0]) + seq![','] + obj_body(
                ps.drop_first().take(i - 1),
            ));
            assert(num_item(ps[0]) + seq![','] + (obj_body(ps.drop_first().take(i - 1)) + seq![',']
                + num_item(ps[i])) =~= (num_item(ps[0]) + seq![','] + obj_body(
                ps.drop_first().take(i - 1),
            )) + seq![','] + num_item(ps[i]));
        }
    }
}

/// `tok_body` grows on the right, one label at a time.
proof fn lemma_tok_body_snoc(es: Seq<LabelEntry>, i: int)
    requires
        0 <= i < es.len(),
    ensures
        tok_body(es.take(i + 1)) == if i == 0 {
            qstr(es[0].label@) + seq![':'] + obj(pairs_tok(es[0].tokens@))
        } else {
            tok_body(es.take(i)) + seq![','] + qstr(es[i].label@) + seq![':'] + obj(
                pairs_tok(es[i].tokens@),
            )
        },
    decreases i,
{
    let t = es.take(i + 1);
    if i == 0 {
        assert(t =~= seq![es[0]]);
    } else {
        lemma_tok_body_snoc(es.drop_first(), i - 1);
        assert(t.drop_first() =~= es.drop_first().take(i));
        assert(t[0] == es[0]);
        assert(es.take(i)[0] == es[0]);
        assert(es.take(i).drop_first() =~= es.drop_first().take(i - 1));
        assert(es.drop_first()[i - 1] == es[i]);
        let h = qstr(es[0].label@) + seq![':'] + obj(pairs_tok(es[0].tokens@));
        assert(t.len() >= 2);
        assert(tok_body(t) == h + seq![','] + tok_body(es.drop_first().take(i)));
        if i == 1 {
            assert(tok_body(es.drop_first().take(1)) == qstr(es[1].label@) + seq![':'] + obj(
                pairs_tok(es[1].tokens@),
            ));
            assert(tok_body(es.take(1)) == h);
            assert(h + seq![','] + (qstr(es[1].label@) + seq![':'] + obj(pairs_tok(es[1].tokens@)))
                =~= tok_body(es.take(1)) + seq![','] + qstr(es[1].label@) + seq![':'] + obj(
                pairs_tok(es[1].tokens@),
            ));
        } else {
            let item_i = qstr(es[i].label@) + seq![':'] + obj(pairs_tok(es[i].tokens@));
            assert(tok_body(es.drop_first().take(i)) == tok_body(es.drop_first().take(i - 1))
                + seq![','] + qstr(es.drop_first()[i - 1].label@) + seq![':'] + obj(
                pairs_tok(es.drop_first()[i - 1].tokens@),
            ));
            assert(tok_body(es.take(i)) == h + seq![','] + tok_body(es.drop_first().take(i - 1)));
            assert(h + seq![','] + (tok_body(es.drop_first().take(i - 1)) + seq![','] + qstr(
                es[i].label@,
            ) + seq![':'] + obj(pairs_tok(es[i].tokens@))) =~= (h + seq![','] + tok_body(
                es.drop_first().take(i - 1),
            )) + seq![','] + qstr(es[i].label@) + seq![':'] + obj(pairs_tok(es[i].tokens@)));
        }
    }
}

/// Write an object of numeric values drawn from the label entries, the
/// document counts when `docs` is set and the token totals otherwise.
fn write_label_obj(out: &mut String, nb: &NaiveBayes, docs: bool)
    ensures
        final (out)@ == old(out)@ + if docs {
            obj(pairs_doc(nb.entries@))
        } else {
            obj(pairs_tot(nb.entries@))
        },
{
    let ghost base = out@;
    let ghost ps = if docs {
        pairs_doc(nb.entries@)
    } else {
        pairs_tot(nb.entries@)
    };
    push_char(out, '{');
    let n = nb.entries.len();
    for i in 0..n
        invariant
            n == nb.entries@.len(),
            ps == if docs {
                pairs_doc(nb.entries@)
            } else {
                pairs_tot(nb.entries@)
            },
            ps.len() == n,
            out@ == base + seq!['{'] + obj_body(ps.take(i as int)),
    {
        if i > 0 {
            push_char(out, ',');
        }
        write_qstr(out, self_label(nb, i));
        push_char(out, ':');
        if docs {
            write_num(out, nb.entries[i].train_count);
        } else {
            write_num(out, nb.entries[i].total_count);
        }
        proof {
            lemma_obj_body_snoc(ps, i as int);
            assert(ps[i as int].0 == nb.entries@[i as int].label@);
            assert(out@ =~= base + seq!['{'] + obj_body(ps.take(i + 1)));
        }
    }
    push_char(out, '}');
    proof {
        assert(ps.take(n as int) =~= ps);
        assert(out@ =~= base + obj(ps));
    }
}

/// The label of entry `i`.
fn self_label(nb: &NaiveBayes, i: usize) -> (r: &str)
    requires
        i < nb.entries@.len(),
    ensures
        r@ == nb.entries@[i as int].label@,
{
    nb.entries[i].label.as_str()
}

/// Write the object of token counts of one label.
fn write_token_obj(out: &mut String, tokens: &Vec<TokenCount>)
    ensures
        final (out)@ == old(out)@ + obj(pairs_tok(tokens@)),
{
    let ghost base = out@;
    let ghost ps = pairs_tok(tokens@);
    push_char(out, '{');
    let n = tokens.len();
    for i in 0..n
        invariant
            n == tokens@.len(),
            ps == pairs_tok(tokens@),
            ps.len() == n,
            out@ == base + seq!['{'] + obj_body(ps.take(i as int)),
    {
        if i > 0 {
            push_char(out, ',');
        }
        write_qstr(out, tokens[i].token.as_str());
        push_char(out, ':');
        write_num(out, tokens[i].count);
        proof {
            lemma_obj_body_snoc(ps, i as int);
            assert(ps[i as int].0 == tokens@[i as int].token@);
            assert(out@ =~= base + seq!['{'] + obj_body(ps.take(i + 1)));
        }
    }
    push_char(out, '}');
    proof {
        assert(ps.take(n as int) =~= ps);
        assert(out@ =~= base + obj(ps));
    }
}

/// Write the `token_counts` object: one inner object per label.
fn write_tok_objs(out: &mut String, nb: &NaiveBayes)
    ensures
        final (out)@ == old(out)@ + seq!['{'] + tok_body(nb.entries@) + seq!['}'],
{
    let ghost base = out@;
    push_char(out, '{');
    let n = nb.entries.len();
    for i in 0..n
        invariant
            n == nb.entries@.len(),
            out@ == base + seq!['{'] + tok_body(nb.entries@.take(i as int)),
    {
        if i > 0 {
            push_char(out, ',');
        }
        write_qstr(out, self_label(nb, i));
        push_char(out, ':');
        write_token_obj(out, &nb.entries[i].tokens);
        proof {
            lemma_tok_body_snoc(nb.entries@, i as int);
            assert(out@ =~= base + seq!['{'] + tok_body(nb.entries@.take(i + 1)));
        }
    }
    push_char(out, '}');
    proof {
        assert(nb.entries@.take(n as int) =~= nb.entries@);
    }
}

impl NaiveBayes {
    /// The compact JSON document for this classifier.
    pub open(crate) spec fn json_spec(self) -> Seq<char> {
        json_compact(self.entries@)
    }
}

/// `strip_from` takes characters one at a time from the left.
proof fn lemma_strip_snoc(st: StripState, s: Seq<char>, c: char)
    ensures
        strip_from(st, s.push(c)) == {
            let a = strip_from(st, s);
            let b = strip_step(a.0, c);
            (b.0, a.1 + b.1)
        },
    decreases s.len(),
{
    let s2 = s.push(c);
    assert(s2.len() == s.len() + 1);
    if s.len() == 0 {
        assert(s2[0] == c);
        assert(s2.drop_first() =~= Seq::<char>::empty());
        let b = strip_step(st, c);
        assert(strip_from(b.0, Seq::<char>::empty()) == (b.0, Seq::<char>::empty()));
        assert(strip_from(st, s2) == (b.0, b.1 + Seq::<char>::empty()));
        assert(strip_from(st, s) == (st, Seq::<char>::empty()));
        assert(Seq::<char>::empty() + b.1 =~= b.1 + Seq::<char>::empty());
    } else {
        assert(s2[0] == s[0]);
        lemma_strip_snoc(strip_step(st, s[0]).0, s.drop_first(), c);
        assert(s2.drop_first() =~= s.drop_first().push(c));
        let st1 = strip_step(st, s[0]);
        let a = strip_from(st1.0, s.drop_first());
        let b = strip_step(a.0, c);
        assert(st1.1 + (a.1 + b.1) =~= (st1.1 + a.1) + b.1);
    }
}

/// Drop insignificant whitespace.
fn strip_exec(cs: &Vec<char>) -> (r: Vec<char>)
    ensures
        r@ == strip_ws(cs@),
{
    let mut out: Vec<char> = Vec::new();
    let mut in_str = false;
    let mut escaped = false;
    let n = cs.len();
    for i in 0..n
        invariant
            n == cs@.len(),
            !escaped || in_str,
            strip_from(StripState::Outside, cs@.take(i as int)) == (
                if !in_str {
                    StripState::Outside
                } else if escaped {
                    StripState::Escaped
                } else {
                    StripState::Inside
                },
                out@,
            ),
    {
        let c = cs[i];
        let ghost stold = if !in_str {
            StripState::Outside
        } else if escaped {
            StripState::Escaped
        } else {
            StripState::Inside
        };
        let ghost outold = out@;
        proof {
            assert(cs@.take(i + 1) =~= cs@.take(i as int).push(cs@[i as int]));
            lemma_strip_snoc(StripState::Outside, cs@.take(i as int), cs@[i as int]);
        }
        if !in_str {
            if c == '"' {
                in_str = true;
                out.push(c);
            } else if c == ' ' || c == '\n' || c == '\t' || c == '\r' {
            } else {
                out.push(c);
            }
        } else if escaped {
            escaped = false;
            out.push(c);
        } else {
            if c == '\\' {
                escaped = true;
                out.push(c);
            } else if c == '"' {
                in_str = false;
                out.push(c);
            } else {
                out.push(c);
            }
        }
        proof {
            let b = strip_step(stold, cs@[i as int]);
            assert(out@ =~= outold + b.1);
            assert(strip_from(StripState::Outside, cs@.take(i + 1)) == (b.0, outold + b.1));
        }
    }
    proof {
        assert(cs@.take(n as int) =~= cs@);
    }
    out
}

/// The value of a decimal digit character.
fn digit_val_exec(c: char) -> (r: Option<u32>)
    ensures
        r is Some <==> digit_val(c) is Some,
        r matches Some(d) ==> digit_val(c) == Some(d as nat) && d < 10,
{
    if c == '0' {
        Some(0)
    } else if c == '1' {
        Some(1)
    } else if c == '2' {
        Some(2)
    } else if c == '3' {
        Some(3)
    } else if c == '4' {
        Some(4)
    } else if c == '5' {
        Some(5)
    } else if c == '6' {
        Some(6)
    } else if c == '7' {
        Some(7)
    } else if c == '8' {
        Some(8)
    } else if c == '9' {
        Some(9)
    } else {
        None
    }
}

/// The value of a hexadecimal digit character.
fn hex_val_exec(c: char) -> (r: Option<u32>)
    ensures
        r is Some <==> hex_val(c) is Some,
        r matches Some(d) ==> hex_val(c) == Some(d as nat) && d < 16,
{
    match digit_val_exec(c) {
        Some(d) => Some(d),
        None => {
            if c == 'a' || c == 'A' {
                Some(10)
            } else if c == 'b' || c == 'B' {
                Some(11)
            } else if c == 'c' || c == 'C' {
                Some(12)
            } else if c == 'd' || c == 'D' {
                Some(13)
            } else if c == 'e' || c == 'E' {
                Some(14)
            } else if c == 'f' || c == 'F' {
                Some(15)
            } else {
                None
            }
        },
    }
}

/// Parse a string-literal body starting at `i0`, which sits right after
/// the opening quote.
fn parse_qbody_exec(v: &Vec<char>, i0: usize) -> (r: Option<(String, usize)>)
    requires
        i0 <= v@.len(),
    ensures
        match r {
            Some(p) => p.1 <= v@.len() && parse_qbody(v@.skip(i0 as int)) == Some(
                (p.0@, v@.skip(p.1 as int)),
            ),
            None => parse_qbody(v@.skip(i0 as int)) is None,
        },
{
    let mut acc = String::new();
    let mut i = i0;
    loop
        invariant
            i0 <= i <= v@.len(),
            parse_qbody(v@.skip(i0 as int)) == match parse_qbody(v@.skip(i as int)) {
                Some(p) => Some((acc@ + p.0, p.1)),
                None => None,
            },
        decreases v@.len() - i,
    {
        if i >= v.len() {
            proof {
                assert(v@.skip(i as int).len() == 0);
            }
            return None;
        }
        let ghost pre = v@.skip(i as int);
        proof {
            assert(pre[0] == v@[i as int]);
            assert(pre.drop_first() =~= v@.skip(i + 1));
        }
        let c = v[i];
        if c == '"' {
            proof {
                assert(parse_qbody(pre) == Some((Seq::<char>::empty(), v@.skip(i + 1))));
                assert(acc@ + Seq::<char>::empty() =~= acc@);
            }
            return Some((acc, i + 1));
        } else if c == '\\' {
            if i + 1 >= v.len() {
                proof {
                    assert(pre.len() < 2);
                }
                return None;
            }
            let e = v[i + 1];
            proof {
                assert(pre[1] == v@[i + 1]);
            }
            let out: char;
            let k: usize;
            if e == '"' || e == '\\' || e == '/' {
                out = e;
                k = 2;
            } else if e == 'b' {
                out = '\u{8}';
                k = 2;
            } else if e == 'f' {
                out = '\u{c}';
                k = 2;
            } else if e == 'n' {
                out = '\n';
                k = 2;
            } else if e == 'r' {
                out = '\r';
                k = 2;
            } else if e == 't' {
                out = '\t';
                k = 2;
            } else if e == 'u' {
                if v.len() - i < 6 {
                    proof {
                        assert(pre.len() < 6);
                    }
                    return None;
                }
                proof {
                    assert(pre[2] == v@[i + 2]);
                    assert(pre[3] == v@[i + 3]);
                    assert(pre[4] == v@[i + 4]);
                    assert(pre[5] == v@[i + 5]);
                }
                let h0 = hex_val_exec(v[i + 2]);
                let h1 = hex_val_exec(v[i + 3]);
                let h2 = hex_val_exec(v[i + 4]);
                let h3 = hex_val_exec(v[i + 5]);
                if h0.is_none() || h1.is_none() || h2.is_none() || h3.is_none() {
                    return None;
                }
                let val: u32 = h0.unwrap() * 0x1000 + h1.unwrap() * 0x100 + h2.unwrap() * 0x10
                    + h3.unwrap();
                match crate::strutil::char_from_u32(val) {
                    Some(c2) => {
                        proof {
                            vstd::utf8::char_u32_cast(c2, val);
                        }
                        out = c2;
                        k = 6;
                    },
                    None => {
                        return None;
                    },
                }
            } else {
                return None;
            }
            let ghost acc0 = acc@;
            push_char(&mut acc, out);
            i = i + k;
            proof {
                assert(pre.skip(k as int) =~= v@.skip(i as int));
                assert(parse_qbody(pre) == cont_qbody(out, v@.skip(i as int)));
                assert(acc@ =~= acc0.push(out));
                let post = parse_qbody(v@.skip(i as int));
                if post is Some {
                    assert(acc0 + (seq![out] + post->Some_0.0) =~= acc@ + post->Some_0.0);
                }
            }
        } else {
            let ghost acc0 = acc@;
            push_char(&mut acc, c);
            i = i + 1;
            proof {
                assert(parse_qbody(pre) == cont_qbody(v@[i as int - 1], v@.skip(i as int)));
                assert(acc@ =~= acc0.push(c));
                let post = parse_qbody(v@.skip(i as int));
                if post is Some {
                    assert(acc0 + (seq![c] + post->Some_0.0) =~= acc@ + post->Some_0.0);
                }
            }
        }
    }
}

/// Parse a string literal starting at `i0`.
fn parse_qstr_exec(v: &Vec<char>, i0: usize) -> (r: Option<(String, usize)>)
    requires
        i0 <= v@.len(),
    ensures
        match r {
            Some(p) => p.1 <= v@.len() && parse_qstr(v@.skip(i0 as int)) == Some(
                (p.0@, v@.skip(p.1 as int)),
            ),
            None => parse_qstr(v@.skip(i0 as int)) is None,
        },
{
    if i0 >= v.len() {
        proof {
            assert(v@.skip(i0 as int).len() == 0);
        }
        return None;
    }
    proof {
        assert(v@.skip(i0 as int)[0] == v@[i0 as int]);
        assert(v@.skip(i0 as int).drop_first() =~= v@.skip(i0 + 1));
    }
    if v[i0] != '"' {
        return None;
    }
    parse_qbody_exec(v, i0 + 1)
}

/// `parse_num_from` never lowers the accumulator.
proof fn lemma_parse_num_from_ge(s: Seq<char>, acc: nat)
    ensures
        parse_num_from(s, acc).0 >= acc,
    decreases s.len(),
{
    if s.len() > 0 && digit_val(s[0]) is Some {
        let acc2 = acc * 10 + digit_val(s[0])->Some_0;
        assert(acc * 10 >= acc * 1) by (nonlinear_arith)
            requires
                acc >= 0,
        ;
        lemma_parse_num_from_ge(s.drop_first(), acc2);
    }
}

/// Parse a number starting at `i0`.
fn parse_num_exec(v: &Vec<char>, i0: usize) -> (r: Option<(usize, usize)>)
    requires
        i0 <= v@.len(),
    ensures
        match r {
            Some(p) => p.1 <= v@.len() && parse_num(v@.skip(i0 as int)) == Some(
                (p.0 as nat, v@.skip(p.1 as int)),
            ),
            None => parse_num(v@.skip(i0 as int)) is None,
        },
{
    let ghost s0 = v@.skip(i0 as int);
    if i0 >= v.len() {
        proof {
            assert(s0.len() == 0);
        }
        return None;
    }
    proof {
        assert(s0[0] == v@[i0 as int]);
    }
    if digit_val_exec(v[i0]).is_none() {
        return None;
    }
    if v[i0] == '0' && i0 + 1 < v.len() {
        proof {
            assert(s0[1] == v@[i0 + 1]);
        }
        if digit_val_exec(v[i0 + 1]).is_some() {
            return None;
        }
    }
    proof {
        if v@[i0 as int] == '0' {
            assert(!(s0.len() >= 2 && digit_val(s0[1]) is Some));
        }
    }
    let mut acc: u128 = 0;
    let mut i = i0;
    loop
        invariant
            i0 <= i <= v@.len(),
            acc <= usize::MAX,
            parse_num_from(s0, 0) == parse_num_from(v@.skip(i as int), acc as nat),
            s0 == v@.skip(i0 as int),
            s0.len() > 0,
            digit_val(s0[0]) is Some,
            !(s0[0] == '0' && s0.len() >= 2 && digit_val(s0[1]) is Some),
        decreases v@.len() - i,
    {
        let ghost cur = v@.skip(i as int);
        if i >= v.len() {
            proof {
                assert(cur.len() == 0);
                assert(parse_num_from(cur, acc as nat) == (acc as nat, cur));
            }
            return Some((acc as usize, i));
        }
        proof {
            assert(cur[0] == v@[i as int]);
            assert(cur.drop_first() =~= v@.skip(i + 1));
        }
        match digit_val_exec(v[i]) {
            Some(d) => {
                let acc2: u128 = acc * 10 + d as u128;
                proof {
                    assert(parse_num_from(cur, acc as nat) == parse_num_from(
                        v@.skip(i + 1),
                        acc as nat * 10 + digit_val(cur[0])->Some_0,
                    ));
                }
                if acc2 > usize::MAX as u128 {
                    proof {
                        lemma_parse_num_from_ge(v@.skip(i + 1), acc2 as nat);
                        assert(parse_num_from(s0, 0).0 > usize::MAX);
                    }
                    return None;
                }
                acc = acc2;
                i = i + 1;
            },
            None => {
                proof {
                    assert(parse_num_from(cur, acc as nat) == (acc as nat, cur));
                }
                return Some((acc as usize, i));
            },
        }
    }
}

/// Whether the sixteen characters at `i` spell one of the fixed key
/// fragments: `which` selects `train`, `token` or `total`.
fn expect_frag(v: &Vec<char>, i: usize, which: u8) -> (r: bool)
    requires
        i <= v@.len(),
        which < 3,
    ensures
        ({
            let f = if which == 0 {
                frag_train()
            } else if which == 1 {
                frag_token()
            } else {
                frag_total()
            };
            r == (v@.skip(i as int).len() >= 16 && v@.skip(i as int).take(16) == f)
        }),
{
    let ghost f = if which == 0 {
        frag_train()
    } else if which == 1 {
        frag_token()
    } else {
        frag_total()
    };
    if v.len() - i < 16 {
        return false;
    }
    proof {
        assert forall|k: int| 0 <= k < 16 implies v@.skip(i as int).take(16)[k] == v@[i + k] by {}
    }
    let head: char = if which == 0 {
        '{'
    } else {
        ','
    };
    let c2: char = if which == 0 {
        'r'
    } else {
        'o'
    };
    let c3: char = if which == 0 {
        'a'
    } else if which == 1 {
        'k'
    } else {
        't'
    };
    let c4: char = if which == 0 {
        'i'
    } else if which == 1 {
        'e'
    } else {
        'a'
    };
    let c5: char = if which == 2 {
        'l'
    } else {
        'n'
    };
    let ok = v[i] == head && v[i + 1] == '"' && v[i + 2] == 't' && v[i + 3] == c2 && v[i + 4] == c3
        && v[i + 5] == c4 && v[i + 6] == c5 && v[i + 7] == '_' && v[i + 8] == 'c' && v[i + 9] == 'o'
        && v[i + 10] == 'u' && v[i + 11] == 'n' && v[i + 12] == 't' && v[i + 13] == 's' && v[i + 14]
        == '"' && v[i + 15] == ':';
    proof {
        if ok {
            assert(v@.skip(i as int).take(16) =~= f);
        } else {
            assert(v@.skip(i as int).take(16) != f);
        }
    }
    ok
}

/// Parse an object of numeric values starting at `i0`.
fn parse_flat_obj_exec(v: &Vec<char>, i0: usize) -> (r: Option<(Vec<(String, usize)>, usize)>)
    requires
        i0 <= v@.len(),
    ensures
        match r {
            Some(p) => p.1 <= v@.len() && parse_flat_obj(v@.skip(i0 as int)) == Some(
                (p.0@.map_values(|q: (String, usize)| (q.0@, q.1 as nat)), v@.skip(p.1 as int)),
            ),
            None => parse_flat_obj(v@.skip(i0 as int)) is None,
        },
{
    let ghost s0 = v@.skip(i0 as int);
    if i0 >= v.len() {
        proof {
            assert(s0.len() == 0);
        }
        return None;
    }
    proof {
        assert(s0[0] == v@[i0 as int]);
    }
    if v[i0] != '{' {
        return None;
    }
    if i0 + 1 < v.len() {
        proof {
            assert(s0[1] == v@[i0 + 1]);
        }
        if v[i0 + 1] == '}' {
            let out: Vec<(String, usize)> = Vec::new();
            proof {
                assert(s0.skip(2) =~= v@.skip(i0 + 2));
                assert(out@.map_values(|q: (String, usize)| (q.0@, q.1 as nat)) =~= Seq::<
                    (Seq<char>, nat),
                >::empty());
            }
            return Some((out, i0 + 2));
        }
    }
    proof {
        assert(!(s0.len() >= 2 && s0[1] == '}'));
        assert(s0.drop_first() =~= v@.skip(i0 + 1));
        lemma_members_fuel(v@.skip(i0 + 1), s0.len(), v@.skip(i0 + 1).len());
    }
    let mut out: Vec<(String, usize)> = Vec::new();
    let mut i = i0 + 1;
    loop
        invariant
            i0 + 1 <= i <= v@.len(),
            s0 == v@.skip(i0 as int),
            s0.len() >= 1,
            s0[0] == '{',
            !(s0.len() >= 2 && s0[1] == '}'),
            parse_flat_members(s0.drop_first(), s0.len()) == match parse_flat_members(
                v@.skip(i as int),
                v@.skip(i as int).len(),
            ) {
                Some(p) => Some(
                    (out@.map_values(|q: (String, usize)| (q.0@, q.1 as nat)) + p.0, p.1),
                ),
                None => None,
            },
        decreases v@.len() - i,
    {
        let ghost cur = v@.skip(i as int);
        let ghost outv = out@.map_values(|q: (String, usize)| (q.0@, q.1 as nat));
        let key;
        let j1;
        match parse_qstr_exec(v, i) {
            Some(p) => {
                key = p.0;
                j1 = p.1;
            },
            None => {
                proof {
                    if cur.len() > 0 {
                        assert(parse_flat_members(cur, cur.len()) is None);
                    }
                    assert(parse_flat_members(s0.drop_first(), s0.len()) is None);
                    assert(parse_flat_obj(s0) == parse_flat_members(
                        s0.drop_first(),
                        s0.len(),
                    ));
                }
                return None;
            },
        }
        proof {
            assert(cur.len() > 0) by {
                if cur.len() == 0 {
                    assert(parse_qstr(cur) is None);
                }
            }
            lemma_qstr_len(cur);
        }
        if j1 >= v.len() {
            proof {
                assert(v@.skip(j1 as int).len() == 0);
                assert(parse_flat_members(cur, cur.len()) is None);
                assert(parse_flat_obj(s0) == parse_flat_members(s0.drop_first(), s0.len()));
            }
            return None;
        }
        proof {
            assert(v@.skip(j1 as int)[0] == v@[j1 as int]);
            assert(v@.skip(j1 as int).drop_first() =~= v@.skip(j1 + 1));
        }
        if v[j1] != ':' {
            proof {
                assert(parse_flat_members(cur, cur.len()) is None);
                assert(parse_flat_obj(s0) == parse_flat_members(s0.drop_first(), s0.len()));
            }
            return None;
        }
        let val;
        let j2;
        match parse_num_exec(v, j1 + 1) {
            Some(p) => {
                val = p.0;
                j2 = p.1;
            },
            None => {
                proof {
                    assert(parse_flat_members(cur, cur.len()) is None);
                    assert(parse_flat_obj(s0) == parse_flat_members(s0.drop_first(), s0.len()));
                }
                return None;
            },
        }
        proof {
            lemma_num_len(v@.skip(j1 + 1));
            assert(v@.skip(j2 as int).len() < v@.skip(j1 + 1).len());
        }
        if j2 >= v.len() {
            proof {
                assert(v@.skip(j2 as int).len() == 0);
                assert(parse_flat_members(cur, cur.len()) is None);
                assert(parse_flat_obj(s0) == parse_flat_members(s0.drop_first(), s0.len()));
            }
            return None;
        }
        proof {
            assert(v@.skip(j2 as int)[0] == v@[j2 as int]);
            assert(v@.skip(j2 as int).drop_first() =~= v@.skip(j2 + 1));
        }
        let ghost kv = (key@, val as nat);
        if v[j2] == ',' {
            out.push((key, val));
            proof {
                assert(out@.map_values(|q: (String, usize)| (q.0@, q.1 as nat)) =~= outv.push(kv));
                lemma_members_fuel(
                    v@.skip(j2 + 1),
                    (cur.len() - 1) as nat,
                    v@.skip(j2 + 1).len(),
                );
                let post = parse_flat_members(v@.skip(j2 + 1), v@.skip(j2 + 1).len());
                assert(parse_flat_members(cur, cur.len()) == match post {
                    Some(p) => Some((seq![kv] + p.0, p.1)),
                    None => None,
                });
                if post is Some {
                    assert(outv + (seq![kv] + post->Some_0.0) =~= outv.push(kv)
                        + post->Some_0.0);
                }
            }
            i = j2 + 1;
        } else if v[j2] == '}' {
            out.push((key, val));
            proof {
                assert(parse_flat_members(cur, cur.len()) == Some((seq![kv], v@.skip(j2 + 1))));
                assert(out@.map_values(|q: (String, usize)| (q.0@, q.1 as nat)) =~= outv
                    + seq![kv]);
                assert(parse_flat_obj(s0) == parse_flat_members(s0.drop_first(), s0.len()));
            }
            return Some((out, j2 + 1));
        } else {
            proof {
                assert(parse_flat_members(cur, cur.len()) is None);
                assert(parse_flat_obj(s0) == parse_flat_members(s0.drop_first(), s0.len()));
            }
            return None;
        }
    }
}

/// A successful string-body parse consumes at least the closing quote.
proof fn lemma_qbody_len(s: Seq<char>)
    ensures
        parse_qbody(s) matches Some(p) ==> p.1.len() < s.len(),
    decreases s.len(),
{
    if s.len() == 0 {
    } else if s[0] == '"' {
    } else if s[0] == '\\' {
        if s.len() >= 2 {
            lemma_qbody_len(s.skip(2));
            if s.len() >= 6 {
                lemma_qbody_len(s.skip(6));
            }
        }
    } else {
        lemma_qbody_len(s.drop_first());
    }
}

/// A successful string parse consumes at least the two quotes.
proof fn lemma_qstr_len(s: Seq<char>)
    ensures
        parse_qstr(s) matches Some(p) ==> p.1.len() < s.len() - 1,
{
    if s.len() > 0 && s[0] == '"' {
        lemma_qbody_len(s.drop_first());
    }
}

/// A successful number parse consumes at least one digit.
proof fn lemma_num_from_len(s: Seq<char>, acc: nat)
    ensures
        parse_num_from(s, acc).1.len() <= s.len(),
    decreases s.len(),
{
    if s.len() > 0 && digit_val(s[0]) is Some {
        lemma_num_from_len(s.drop_first(), acc * 10 + digit_val(s[0])->Some_0);
    }
}

/// A successful number parse consumes at least one digit.
proof fn lemma_num_len(s: Seq<char>)
    ensures
        parse_num(s) matches Some(p) ==> p.1.len() < s.len(),
{
    if s.len() > 0 && digit_val(s[0]) is Some {
        lemma_num_from_len(s.drop_first(), digit_val(s[0])->Some_0);
    }
}

/// Any fuel at least the remaining length gives the member parser the
/// same answer.
proof fn lemma_members_fuel(s: Seq<char>, f: nat, g: nat)
    requires
        f >= s.len(),
        g >= s.len(),
    ensures
        parse_flat_members(s, f) == parse_flat_members(s, g),
    decreases s.len(),
{
    if s.len() == 0 {
        assert(parse_qstr(s) is None);
    } else {
        match parse_qstr(s) {
            None => {},
            Some(kr) => {
                lemma_qstr_len(s);
                let r1 = kr.1;
                if r1.len() == 0 || r1[0] != ':' {
                } else {
                    match parse_num(r1.drop_first()) {
                        None => {},
                        Some(vr) => {
                            lemma_num_len(r1.drop_first());
                            let r2 = vr.1;
                            if r2.len() > 0 && r2[0] == ',' {
                                lemma_members_fuel(
                                    r2.drop_first(),
                                    (f - 1) as nat,
                                    (g - 1) as nat,
                                );
                            }
                        },
                    }
                }
            },
        }
    }
}

/// A successful member-list parse consumes at least the closing brace.
proof fn lemma_members_len(s: Seq<char>, f: nat)
    ensures
        parse_flat_members(s, f) matches Some(p) ==> p.1.len() < s.len(),
    decreases f,
{
    if f > 0 {
        match parse_qstr(s) {
            None => {},
            Some(kr) => {
                lemma_qstr_len(s);
                let r1 = kr.1;
                if r1.len() > 0 && r1[0] == ':' {
                    match parse_num(r1.drop_first()) {
                        None => {},
                        Some(vr) => {
                            lemma_num_len(r1.drop_first());
                            let r2 = vr.1;
                            if r2.len() > 0 && r2[0] == ',' {
                                lemma_members_len(r2.drop_first(), (f - 1) as nat);
                            }
                        },
                    }
                }
            },
        }
    }
}

/// A successful object parse consumes at least the braces.
proof fn lemma_flat_obj_len(s: Seq<char>)
    ensures
        parse_flat_obj(s) matches Some(p) ==> p.1.len() < s.len(),
{
    if s.len() > 0 && s[0] == '{' && !(s.len() >= 2 && s[1] == '}') {
        lemma_members_len(s.drop_first(), s.len());
    }
}

/// Any fuel at least the remaining length gives the token-table member
/// parser the same answer.
proof fn lemma_tok_members_fuel(s: Seq<char>, f: nat, g: nat)
    requires
        f >= s.len(),
        g >= s.len(),
    ensures
        parse_tok_members(s, f) == parse_tok_members(s, g),
    decreases s.len(),
{
    if s.len() == 0 {
        assert(parse_qstr(s) is None);
    } else {
        match parse_qstr(s) {
            None => {},
            Some(kr) => {
                lemma_qstr_len(s);
                let r1 = kr.1;
                if r1.len() == 0 || r1[0] != ':' {
                } else {
                    match parse_flat_obj(r1.drop_first()) {
                        None => {},
                        Some(vr) => {
                            lemma_flat_obj_len(r1.drop_first());
                            let r2 = vr.1;
                            if r2.len() > 0 && r2[0] == ',' {
                                lemma_tok_members_fuel(
                                    r2.drop_first(),
                                    (f - 1) as nat,
                                    (g - 1) as nat,
                                );
                            }
                        },
                    }
                }
            },
        }
    }
}

/// The token tables of a parsed member list, as sequences.
pub open spec fn toks_view(ts: Seq<(String, Vec<(String, usize)>)>) -> Seq<
    (Seq<char>, Seq<(Seq<char>, nat)>),
> {
    ts.map_values(
        |q: (String, Vec<(String, usize)>)|
            (q.0@, q.1@.map_values(|p: (String, usize)| (p.0@, p.1 as nat))),
    )
}

/// Parse the object of per-label token tables starting at `i0`.
fn parse_tok_obj_exec(v: &Vec<char>, i0: usize) -> (r: Option<
    (Vec<(String, Vec<(String, usize)>)>, usize),
>)
    requires
        i0 <= v@.len(),
    ensures
        match r {
            Some(p) => p.1 <= v@.len() && parse_tok_obj(v@.skip(i0 as int)) == Some(
                (toks_view(p.0@), v@.skip(p.1 as int)),
            ),
            None => parse_tok_obj(v@.skip(i0 as int)) is None,
        },
{
    let ghost s0 = v@.skip(i0 as int);
    if i0 >= v.len() {
        proof {
            assert(s0.len() == 0);
        }
        return None;
    }
    proof {
        assert(s0[0] == v@[i0 as int]);
    }
    if v[i0] != '{' {
        return None;
    }
    if i0 + 1 < v.len() {
        proof {
            assert(s0[1] == v@[i0 + 1]);
        }
        if v[i0 + 1] == '}' {
            let out: Vec<(String, Vec<(String, usize)>)> = Vec::new();
            proof {
                assert(s0.skip(2) =~= v@.skip(i0 + 2));
                assert(toks_view(out@) =~= Seq::<(Seq<char>, Seq<(Seq<char>, nat)>)>::empty());
            }
            return Some((out, i0 + 2));
        }
    }
    proof {
        assert(!(s0.len() >= 2 && s0[1] == '}'));
        assert(s0.drop_first() =~= v@.skip(i0 + 1));
        lemma_tok_members_fuel(v@.skip(i0 + 1), s0.len(), v@.skip(i0 + 1).len());
    }
    let mut out: Vec<(String, Vec<(String, usize)>)> = Vec::new();
    let mut i = i0 + 1;
    loop
        invariant
            i0 + 1 <= i <= v@.len(),
            s0 == v@.skip(i0 as int),
            s0.len() >= 1,
            s0[0] == '{',
            !(s0.len() >= 2 && s0[1] == '}'),
            parse_tok_members(s0.drop_first(), s0.len()) == match parse_tok_members(
                v@.skip(i as int),
                v@.skip(i as int).len(),
            ) {
                Some(p) => Some((toks_view(out@) + p.0, p.1)),
                None => None,
            },
        decreases v@.len() - i,
    {
        let ghost cur = v@.skip(i as int);
        let ghost outv = toks_view(out@);
        let key;
        let j1;
        match parse_qstr_exec(v, i) {
            Some(p) => {
                key = p.0;
                j1 = p.1;
            },
            None => {
                proof {
                    if cur.len() > 0 {
                        assert(parse_tok_members(cur, cur.len()) is None);
                    }
                    assert(parse_tok_members(s0.drop_first(), s0.len()) is None);
                    assert(parse_tok_obj(s0) == parse_tok_members(s0.drop_first(), s0.len()));
                }
                return None;
            },
        }
        proof {
            assert(cur.len() > 0) by {
                if cur.len() == 0 {
                    assert(parse_qstr(cur) is None);
                }
            }
            lemma_qstr_len(cur);
        }
        if j1 >= v.len() {
            proof {
                assert(v@.skip(j1 as int).len() == 0);
                assert(parse_tok_members(cur, cur.len()) is None);
                assert(parse_tok_obj(s0) == parse_tok_members(s0.drop_first(), s0.len()));
            }
            return None;
        }
        proof {
            assert(v@.skip(j1 as int)[0] == v@[j1 as int]);
            assert(v@.skip(j1 as int).drop_first() =~= v@.skip(j1 + 1));
        }
        if v[j1] != ':' {
            proof {
                assert(parse_tok_members(cur, cur.len()) is None);
                assert(parse_tok_obj(s0) == parse_tok_members(s0.drop_first(), s0.len()));
            }
            return None;
        }
        let inner;
        let j2;
        match parse_flat_obj_exec(v, j1 + 1) {
            Some(p) => {
                inner = p.0;
                j2 = p.1;
            },
            None => {
                proof {
                    assert(parse_tok_members(cur, cur.len()) is None);
                    assert(parse_tok_obj(s0) == parse_tok_members(s0.drop_first(), s0.len()));
                }
                return None;
            },
        }
        proof {
            lemma_flat_obj_len(v@.skip(j1 + 1));
            assert(v@.skip(j2 as int).len() < v@.skip(j1 + 1).len());
        }
        if j2 >= v.len() {
            proof {
                assert(v@.skip(j2 as int).len() == 0);
                assert(parse_tok_members(cur, cur.len()) is None);
                assert(parse_tok_obj(s0) == parse_tok_members(s0.drop_first(), s0.len()));
            }
            return None;
        }
        proof {
            assert(v@.skip(j2 as int)[0] == v@[j2 as int]);
            assert(v@.skip(j2 as int).drop_first() =~= v@.skip(j2 + 1));
        }
        let ghost kv = (
            key@,
            inner@.map_values(|p: (String, usize)| (p.0@, p.1 as nat)),
        );
        if v[j2] == ',' {
            out.push((key, inner));
            proof {
                assert(toks_view(out@) =~= outv.push(kv));
                lemma_tok_members_fuel(
                    v@.skip(j2 + 1),
                    (cur.len() - 1) as nat,
                    v@.skip(j2 + 1).len(),
                );
                let post = parse_tok_members(v@.skip(j2 + 1), v@.skip(j2 + 1).len());
                assert(parse_tok_members(cur, cur.len()) == match post {
                    Some(p) => Some((seq![kv] + p.0, p.1)),
                    None => None,
                });
                if post is Some {
                    assert(outv + (seq![kv] + post->Some_0.0) =~= outv.push(kv) + post->Some_0.0);
                }
            }
            i = j2 + 1;
        } else if v[j2] == '}' {
            out.push((key, inner));
            proof {
                assert(parse_tok_members(cur, cur.len()) == Some((seq![kv], v@.skip(j2 + 1))));
                assert(toks_view(out@) =~= outv + seq![kv]);
                assert(parse_tok_obj(s0) == parse_tok_members(s0.drop_first(), s0.len()));
            }
            return Some((out, j2 + 1));
        } else {
            proof {
                assert(parse_tok_members(cur, cur.len()) is None);
                assert(parse_tok_obj(s0) == parse_tok_members(s0.drop_first(), s0.len()));
            }
            return None;
        }
    }
}

/// The pairs of a parsed member list, as sequences.
pub open spec fn pairs_view(ps: Seq<(String, usize)>) -> Seq<(Seq<char>, nat)> {
    ps.map_values(|q: (String, usize)| (q.0@, q.1 as nat))
}

proof fn lemma_find_pair_at(ps: Seq<(Seq<char>, nat)>, k: Seq<char>, i: int)
    requires
        0 <= i < ps.len(),
        ps[i].0 == k,
        forall|j: int| 0 <= j < i ==> ps[j].0 != k,
    ensures
        find_pair(ps, k) == Some(ps[i].1),
    decreases i,
{
    if i > 0 {
        lemma_find_pair_at(ps.drop_first(), k, i - 1);
    }
}

proof fn lemma_find_pair_none(ps: Seq<(Seq<char>, nat)>, k: Seq<char>)
    requires
        forall|j: int| 0 <= j < ps.len() ==> ps[j].0 != k,
    ensures
        find_pair(ps, k) is None,
    decreases ps.len(),
{
    if ps.len() > 0 {
        lemma_find_pair_none(ps.drop_first(), k);
    }
}

proof fn lemma_find_tok_at(ts: Seq<(Seq<char>, Seq<(Seq<char>, nat)>)>, k: Seq<char>, i: int)
    requires
        0 <= i < ts.len(),
        ts[i].0 == k,
        forall|j: int| 0 <= j < i ==> ts[j].0 != k,
    ensures
        find_tok(ts, k) == Some(ts[i].1),
    decreases i,
{
    if i > 0 {
        lemma_find_tok_at(ts.drop_first(), k, i - 1);
    }
}

proof fn lemma_find_tok_none(ts: Seq<(Seq<char>, Seq<(Seq<char>, nat)>)>, k: Seq<char>)
    requires
        forall|j: int| 0 <= j < ts.len() ==> ts[j].0 != k,
    ensures
        find_tok(ts, k) is None,
    decreases ts.len(),
{
    if ts.len() > 0 {
        lemma_find_tok_none(ts.drop_first(), k);
    }
}

proof fn lemma_pair_sum_snoc(ps: Seq<(Seq<char>, nat)>, i: int)
    requires
        0 <= i < ps.len(),
    ensures
        pair_sum(ps.take(i + 1)) == pair_sum(ps.take(i)) + ps[i].1,
    decreases i,
{
    let t = ps.take(i + 1);
    if i == 0 {
        assert(t.drop_first() =~= Seq::<(Seq<char>, nat)>::empty());
        assert(t[0] == ps[0]);
        assert(ps.take(0) =~= Seq::<(Seq<char>, nat)>::empty());
    } else {
        assert(t[0] == ps[0]);
        assert(ps.take(i)[0] == ps[0]);
        lemma_pair_sum_snoc(ps.drop_first(), i - 1);
        assert(t.drop_first() =~= ps.drop_first().take(i));
        assert(ps.take(i).drop_first() =~= ps.drop_first().take(i - 1));
        assert(ps.drop_first()[i - 1] == ps[i]);
    }
}

/// Whether the keys of a parsed member list are pairwise distinct.
fn pairs_unique_exec(ps: &Vec<(String, usize)>) -> (r: bool)
    ensures
        r == pair_keys_unique(pairs_view(ps@)),
{
    let n = ps.len();
    for i in 0..n
        invariant
            n == ps@.len(),
            forall|a: int, b: int| 0 <= a < b < i ==> pairs_view(ps@)[a].0 != pairs_view(ps@)[b].0,
    {
        for j in 0..i
            invariant
                i < n,
                n == ps@.len(),
                forall|a: int, b: int|
                    0 <= a < b < i ==> pairs_view(ps@)[a].0 != pairs_view(ps@)[b].0,
                forall|a: int| 0 <= a < j ==> pairs_view(ps@)[a].0 != pairs_view(ps@)[i as int].0,
        {
            if ps[j].0 == ps[i].0 {
                proof {
                    assert(pairs_view(ps@)[j as int].0 == pairs_view(ps@)[i as int].0);
                }
                return false;
            }
        }
    }
    true
}

/// Whether the labels of a parsed token-table list are pairwise distinct.
fn toks_unique_exec(ts: &Vec<(String, Vec<(String, usize)>)>) -> (r: bool)
    ensures
        r == tok_keys_unique(toks_view(ts@)),
{
    let n = ts.len();
    for i in 0..n
        invariant
            n == ts@.len(),
            forall|a: int, b: int| 0 <= a < b < i ==> toks_view(ts@)[a].0 != toks_view(ts@)[b].0,
    {
        for j in 0..i
            invariant
                i < n,
                n == ts@.len(),
                forall|a: int, b: int|
                    0 <= a < b < i ==> toks_view(ts@)[a].0 != toks_view(ts@)[b].0,
                forall|a: int| 0 <= a < j ==> toks_view(ts@)[a].0 != toks_view(ts@)[i as int].0,
        {
            if ts[j].0 == ts[i].0 {
                proof {
                    assert(toks_view(ts@)[j as int].0 == toks_view(ts@)[i as int].0);
                }
                return false;
            }
        }
    }
    true
}

/// The value stored under `k`, if any.
fn find_pair_exec(ps: &Vec<(String, usize)>, k: &String) -> (r: Option<usize>)
    ensures
        match r {
            Some(x) => find_pair(pairs_view(ps@), k@) == Some(x as nat),
            None => find_pair(pairs_view(ps@), k@) is None,
        },
{
    let n = ps.len();
    for i in 0..n
        invariant
            n == ps@.len(),
            forall|j: int| 0 <= j < i ==> pairs_view(ps@)[j].0 != k@,
    {
        if ps[i].0 == *k {
            proof {
                lemma_find_pair_at(pairs_view(ps@), k@, i as int);
            }
            return Some(ps[i].1);
        }
    }
    proof {
        lemma_find_pair_none(pairs_view(ps@), k@);
    }
    None
}

/// The index of the token table stored under `k`, if any.
fn find_tok_exec(ts: &Vec<(String, Vec<(String, usize)>)>, k: &String) -> (r: Option<usize>)
    ensures
        match r {
            Some(i) => i < ts@.len() && find_tok(toks_view(ts@), k@) == Some(
                toks_view(ts@)[i as int].1,
            ),
            None => find_tok(toks_view(ts@), k@) is None,
        },
{
    let n = ts.len();
    for i in 0..n
        invariant
            n == ts@.len(),
            forall|j: int| 0 <= j < i ==> toks_view(ts@)[j].0 != k@,
    {
        if ts[i].0 == *k {
            proof {
                lemma_find_tok_at(toks_view(ts@), k@, i as int);
            }
            return Some(i);
        }
    }
    proof {
        lemma_find_tok_none(toks_view(ts@), k@);
    }
    None
}

/// The sum of the values of a parsed member list.
fn pair_sum_exec(ps: &Vec<(String, usize)>) -> (r: u128)
    ensures
        r == pair_sum(pairs_view(ps@)),
{
    let mut acc: u128 = 0;
    let n = ps.len();
    for i in 0..n
        invariant
            n == ps@.len(),
            acc == pair_sum(pairs_view(ps@).take(i as int)),
            acc <= i * 0xffffffffffffffffu128,
    {
        proof {
            lemma_pair_sum_snoc(pairs_view(ps@), i as int);
            assert(ps@[i as int].1 <= 0xffffffffffffffffu128) by {
            }
            assert((i as int) * 0xffffffffffffffff + 0xffffffffffffffff == (i + 1)
                * 0xffffffffffffffff) by (nonlinear_arith);
            assert((i + 1) * 0xffffffffffffffff <= 0x10000000000000000 * 0xffffffffffffffff)
                by (nonlinear_arith)
                requires
                    0 <= i + 1 <= 0x10000000000000000,
            ;
        }
        acc = acc + ps[i].1 as u128;
    }
    proof {
        assert(pairs_view(ps@).take(n as int) =~= pairs_view(ps@));
    }
    acc
}

/// Failure to decode a persisted classifier: the text is not the JSON
/// image of a consistent classifier.
#[derive(Clone, Copy, Debug, PartialEq, Eq, Structural)]
pub struct JsonError;

/// Deserialise a classifier from its JSON document, compact or pretty.
/// Returns an error exactly when the text does not parse as a classifier
/// document, a table is inconsistent, or a count is outside the machine's
/// integer range.
pub fn from_json(s: &str) -> (r: Result<NaiveBayes, JsonError>)
    ensures
        r is Ok <==> spec_decode(s@) is Some,
        r matches Ok(nb) ==> nb.wf() && nb_view(nb) == spec_decode(s@)->Some_0,
{
    let cs = str_chars(s);
    let st = strip_exec(&cs);
    let ghost t = strip_ws(s@);
    proof {
        assert(st@ == t);
        assert(st@.skip(0) =~= st@);
    }
    if !expect_frag(&st, 0, 0) {
        proof {
            assert(st@.take(16) =~= st@.skip(0).take(16));
        }
        return Err(JsonError);
    }
    proof {
        assert(st@.take(16) =~= st@.skip(0).take(16));
    }
    let docs;
    let j1;
    match parse_flat_obj_exec(&st, 16) {
        Some(p) => {
            docs = p.0;
            j1 = p.1;
        },
        None => {
            return Err(JsonError);
        },
    }
    if !expect_frag(&st, j1, 1) {
        return Err(JsonError);
    }
    let toks;
    let j2;
    proof {
        assert(st@.skip(j1 as int).skip(16) =~= st@.skip(j1 + 16));
    }
    match parse_tok_obj_exec(&st, j1 + 16) {
        Some(p) => {
            toks = p.0;
            j2 = p.1;
        },
        None => {
            return Err(JsonError);
        },
    }
    if !expect_frag(&st, j2, 2) {
        return Err(JsonError);
    }
    let tots;
    let j3;
    proof {
        assert(st@.skip(j2 as int).skip(16) =~= st@.skip(j2 + 16));
    }
    match parse_flat_obj_exec(&st, j2 + 16) {
        Some(p) => {
            tots = p.0;
            j3 = p.1;
        },
        None => {
            return Err(JsonError);
        },
    }
    let tail_ok = st.len() - j3 == 1 && st[j3] == '}';
    proof {
        if tail_ok {
            assert(st@.skip(j3 as int) =~= seq!['}']);
        } else {
            assert(!(st@.skip(j3 as int) =~= seq!['}'])) by {
                if st@.skip(j3 as int).len() == 1 {
                    assert(st@.skip(j3 as int)[0] == st@[j3 as int]);
                }
            }
        }
    }
    if !tail_ok {
        return Err(JsonError);
    }
    let ghost docs_v = pairs_view(docs@);
    let ghost toks_v = toks_view(toks@);
    let ghost tots_v = pairs_view(tots@);
    proof {
        assert(parse_doc(t) == Some((docs_v, toks_v, tots_v)));
    }
    if !pairs_unique_exec(&docs) {
        return Err(JsonError);
    }
    if !toks_unique_exec(&toks) {
        return Err(JsonError);
    }
    if !pairs_unique_exec(&tots) {
        return Err(JsonError);
    }
    if toks.len() != docs.len() || tots.len() != docs.len() {
        return Err(JsonError);
    }
    let mut entries: Vec<LabelEntry> = Vec::new();
    let n = docs.len();
    for i in 0..n
        invariant
            n == docs@.len(),
            docs_v == pairs_view(docs@),
            toks_v == toks_view(toks@),
            tots_v == pairs_view(tots@),
            parse_doc(strip_ws(s@)) == Some((docs_v, toks_v, tots_v)),
            pair_keys_unique(docs_v),
            tok_keys_unique(toks_v),
            pair_keys_unique(tots_v),
            toks_v.len() == docs_v.len(),
            tots_v.len() == docs_v.len(),
            entries@.len() == i,
            forall|a: int|
                0 <= a < i ==> (#[trigger] entries@[a]).label@ == docs_v[a].0 && entries@[a].wf()
                    && entry_view(entries@[a]) == assemble(docs_v, toks_v, tots_v)[a],
            forall|a: int|
                0 <= a < i ==> {
                    let l = (#[trigger] docs_v[a]).0;
                    &&& docs_v[a].1 >= 1
                    &&& find_tok(toks_v, l) is Some
                    &&& find_pair(tots_v, l) is Some
                    &&& pair_keys_unique(find_tok(toks_v, l)->Some_0)
                    &&& (forall|j: int|
                        0 <= j < find_tok(toks_v, l)->Some_0.len() ==> (#[trigger] find_tok(
                            toks_v,
                            l,
                        )->Some_0[j]).1 >= 1)
                    &&& pair_sum(find_tok(toks_v, l)->Some_0) == find_pair(tots_v, l)->Some_0
                },
    {
        let label: String = docs[i].0.clone();
        let dc: usize = docs[i].1;
        proof {
            assert(docs_v[i as int] == (label@, dc as nat));
        }
        if dc < 1 {
            proof {
                assert(!valid_parsed(docs_v, toks_v, tots_v)) by {
                    assert(docs_v[i as int].1 < 1);
                }
            }
            return Err(JsonError);
        }
        let ti;
        match find_tok_exec(&toks, &label) {
            Some(x) => {
                ti = x;
            },
            None => {
                proof {
                    assert(!valid_parsed(docs_v, toks_v, tots_v)) by {
                        assert(find_tok(toks_v, docs_v[i as int].0) is None);
                    }
                }
                return Err(JsonError);
            },
        }
        let tot;
        match find_pair_exec(&tots, &label) {
            Some(x) => {
                tot = x;
            },
            None => {
                proof {
                    assert(!valid_parsed(docs_v, toks_v, tots_v)) by {
                        assert(find_pair(tots_v, docs_v[i as int].0) is None);
                    }
                }
                return Err(JsonError);
            },
        }
        let ghost inner_v = toks_v[ti as int].1;
        proof {
            assert(toks_v[ti as int] == (
                toks@[ti as int].0@,
                toks@[ti as int].1@.map_values(|p: (String, usize)| (p.0@, p.1 as nat)),
            ));
            assert(inner_v == pairs_view(toks@[ti as int].1@));
        }
        if !pairs_unique_exec(&toks[ti].1) {
            proof {
                assert(!pair_keys_unique(find_tok(toks_v, docs_v[i as int].0)->Some_0));
                assert(!valid_parsed(docs_v, toks_v, tots_v));
            }
            return Err(JsonError);
        }
        let m = toks[ti].1.len();
        let mut tokens: Vec<TokenCount> = Vec::new();
        let mut sum_ok = true;
        for j in 0..m
            invariant
                ti < toks@.len(),
                i < docs@.len(),
                m == toks@[ti as int].1@.len(),
                inner_v == toks_v[ti as int].1,
                inner_v == pairs_view(toks@[ti as int].1@),
                toks_v == toks_view(toks@),
                docs_v == pairs_view(docs@),
                find_tok(toks_v, docs_v[i as int].0) == Some(inner_v),
                parse_doc(strip_ws(s@)) == Some((docs_v, toks_v, tots_v)),
                inner_v.len() == m,
                tokens@.len() == j,
                forall|b: int|
                    0 <= b < j ==> (#[trigger] tokens@[b]).pair() == inner_v[b] && tokens@[b].count
                        >= 1,
        {
            let c = toks[ti].1[j].1;
            proof {
                assert(inner_v[j as int] == (toks@[ti as int].1@[j as int].0@, c as nat));
            }
            if c < 1 {
                proof {
                    assert(find_tok(toks_v, docs_v[i as int].0)->Some_0[j as int].1 < 1);
                    assert(!valid_parsed(docs_v, toks_v, tots_v));
                }
                return Err(JsonError);
            }
            tokens.push(TokenCount { token: toks[ti].1[j].0.clone(), count: c });
        }
        let sum = pair_sum_exec(&toks[ti].1);
        if sum != tot as u128 {
            proof {
                assert(pair_sum(find_tok(toks_v, docs_v[i as int].0)->Some_0) != find_pair(
                    tots_v,
                    docs_v[i as int].0,
                )->Some_0);
                assert(!valid_parsed(docs_v, toks_v, tots_v));
            }
            return Err(JsonError);
        }
        let entry = LabelEntry { label, train_count: dc, total_count: tot, tokens };
        proof {
            assert(pairs_tok(entry.tokens@) =~= inner_v);
            lemma_pair_sum_tok(entry.tokens@);
            assert(entry.wf());
            assert(entry_view(entry) == assemble(docs_v, toks_v, tots_v)[i as int]);
        }
        entries.push(entry);
    }
    let nb = NaiveBayes { entries };
    proof {
        assert(valid_parsed(docs_v, toks_v, tots_v));
        assert(nb.wf());
        assert(nb_view(nb) =~= assemble(docs_v, toks_v, tots_v));
    }
    Ok(nb)
}

/// The sum of a token list's pair view is the sum of its counts.
proof fn lemma_pair_sum_tok(ts: Seq<TokenCount>)
    ensures
        pair_sum(pairs_tok(ts)) == crate::bayes::naive_bayes::sum_counts(ts),
    decreases ts.len(),
{
    if ts.len() > 0 {
        lemma_pair_sum_tok(ts.drop_first());
        assert(pairs_tok(ts).drop_first() =~= pairs_tok(ts.drop_first()));
    }
}

/// Stripping one character is one step.
proof fn lemma_strip_one(st: StripState, c: char)
    ensures
        strip_from(st, seq![c]) == (strip_step(st, c).0, strip_step(st, c).1),
{
    let q = seq![c];
    let b = strip_step(st, c);
    assert(q.drop_first() =~= Seq::<char>::empty());
    assert(strip_from(b.0, q.drop_first()) == (b.0, Seq::<char>::empty()));
    assert(b.1 + Seq::<char>::empty() =~= b.1);
    assert(strip_from(st, q) == (b.0, b.1 + Seq::<char>::empty()));
}

/// A character that stripping always passes through unchanged.
spec fn plain_char(c: char) -> bool {
    !is_ws(c) && c != '"' && c != '\\'
}

/// A sequence of characters stripping passes through outside strings.
spec fn all_plain(s: Seq<char>) -> bool {
    forall|i: int| 0 <= i < s.len() ==> plain_char(#[trigger] s[i])
}

/// Stripping distributes over concatenation.
proof fn lemma_strip_concat(st: StripState, a: Seq<char>, b: Seq<char>)
    ensures
        strip_from(st, a + b) == (
            strip_from(strip_from(st, a).0, b).0,
            strip_from(st, a).1 + strip_from(strip_from(st, a).0, b).1,
        ),
    decreases a.len(),
{
    if a.len() == 0 {
        assert(a + b =~= b);
        assert(strip_from(st, a) == (st, Seq::<char>::empty()));
        assert(Seq::<char>::empty() + strip_from(st, b).1 =~= strip_from(st, b).1);
    } else {
        assert((a + b)[0] == a[0]);
        assert((a + b).len() > 0);
        assert((a + b).drop_first() =~= a.drop_first() + b);
        let st1 = strip_step(st, a[0]);
        lemma_strip_concat(st1.0, a.drop_first(), b);
        let ar = strip_from(st1.0, a.drop_first());
        let br = strip_from(ar.0, b);
        assert(st1.1 + (ar.1 + br.1) =~= (st1.1 + ar.1) + br.1);
    }
}

/// Stripping keeps a plain sequence as it is, outside strings.
proof fn lemma_strip_plain(s: Seq<char>)
    requires
        all_plain(s),
    ensures
        strip_from(StripState::Outside, s) == (StripState::Outside, s),
    decreases s.len(),
{
    if s.len() > 0 {
        lemma_strip_plain(s.drop_first());
        assert(seq![s[0]] + s.drop_first() =~= s);
    }
}

/// Inside a string, everything but a quote or backslash passes through.
proof fn lemma_strip_instr(s: Seq<char>)
    requires
        forall|i: int| 0 <= i < s.len() ==> #[trigger] s[i] != '"' && s[i] != '\\',
    ensures
        strip_from(StripState::Inside, s) == (StripState::Inside, s),
    decreases s.len(),
{
    if s.len() > 0 {
        lemma_strip_instr(s.drop_first());
        assert(seq![s[0]] + s.drop_first() =~= s);
    }
}

/// Hexadecimal digits are neither quotes nor backslashes.
proof fn lemma_hex_char_harmless(n: nat)
    ensures
        hex_char(n) != '"' && hex_char(n) != '\\',
{
}

/// The written form of one string character passes through stripping.
proof fn lemma_strip_esc(c: char)
    ensures
        strip_from(StripState::Inside, esc_char(c)) == (StripState::Inside, esc_char(c)),
{
    let e = esc_char(c);
    if c == '"' || c == '\\' || c == '\u{8}' || c == '\u{c}' || c == '\n' || c == '\r' || c
        == '\t' {
        assert(e.len() == 2);
        assert(e[0] == '\\');
        lemma_strip_one(StripState::Inside, e[0]);
        lemma_strip_one(StripState::Escaped, e[1]);
        lemma_strip_concat(StripState::Inside, seq![e[0]], seq![e[1]]);
        assert(seq![e[0]] + seq![e[1]] =~= e);
        assert(seq![e[0]] + seq![e[1]] =~= strip_from(StripState::Inside, e).1);
    } else if (c as u32) < 0x20 {
        assert(e.len() == 6);
        assert(e[0] == '\\');
        let tail = e.skip(2);
        assert(forall|i: int| 0 <= i < tail.len() ==> #[trigger] tail[i] != '"' && tail[i]
            != '\\') by {
            lemma_hex_char_harmless((c as u32 / 16) as nat);
            lemma_hex_char_harmless((c as u32 % 16) as nat);
            assert(tail =~= seq![
                '0',
                '0',
                hex_char((c as u32 / 16) as nat),
                hex_char((c as u32 % 16) as nat),
            ]);
        }
        lemma_strip_one(StripState::Inside, e[0]);
        lemma_strip_one(StripState::Escaped, e[1]);
        lemma_strip_instr(tail);
        lemma_strip_concat(StripState::Inside, seq![e[0]], seq![e[1]] + tail);
        lemma_strip_concat(StripState::Escaped, seq![e[1]], tail);
        assert(seq![e[0]] + (seq![e[1]] + tail) =~= e);
        assert(strip_from(StripState::Inside, e).1 =~= e);
    } else {
        assert(e =~= seq![c]);
        lemma_strip_one(StripState::Inside, c);
    }
}

/// A whole string body passes through stripping.
proof fn lemma_strip_qbody(x: Seq<char>)
    ensures
        strip_from(StripState::Inside, qbody(x)) == (StripState::Inside, qbody(x)),
    decreases x.len(),
{
    if x.len() == 0 {
    } else {
        lemma_strip_esc(x[0]);
        lemma_strip_qbody(x.drop_first());
        lemma_strip_concat(StripState::Inside, esc_char(x[0]), qbody(x.drop_first()));
    }
}

/// A whole string literal passes through stripping and ends outside.
proof fn lemma_strip_qstr(x: Seq<char>)
    ensures
        strip_from(StripState::Outside, qstr(x)) == (StripState::Outside, qstr(x)),
{
    let q = seq!['"'];
    lemma_strip_one(StripState::Outside, '"');
    lemma_strip_one(StripState::Inside, '"');
    lemma_strip_qbody(x);
    lemma_strip_concat(StripState::Outside, q, qbody(x) + q);
    lemma_strip_concat(StripState::Inside, qbody(x), q);
    assert(qstr(x) =~= q + (qbody(x) + q));
    assert(strip_from(StripState::Outside, qstr(x)).1 =~= qstr(x));
}

/// Decimal digits are plain characters.
proof fn lemma_digits_plain(n: nat)
    ensures
        all_plain(dec_digits(n)),
    decreases n,
{
    if n < 10 {
        assert(dec_digits(n) =~= seq![digit_char(n)]);
    } else {
        lemma_digits_plain(n / 10);
        assert(forall|i: int|
            0 <= i < dec_digits(n).len() ==> plain_char(#[trigger] dec_digits(n)[i])) by {
            assert(dec_digits(n) == dec_digits(n / 10) + seq![digit_char(n % 10)]);
        }
    }
}

/// One `"key":value` member passes through stripping.
proof fn lemma_strip_item(p: (Seq<char>, nat))
    ensures
        strip_from(StripState::Outside, num_item(p)) == (StripState::Outside, num_item(p)),
{
    lemma_strip_qstr(p.0);
    lemma_digits_plain(p.1);
    lemma_strip_plain(seq![':'] + dec_digits(p.1));
    assert(all_plain(seq![':'] + dec_digits(p.1))) by {
        lemma_digits_plain(p.1);
    }
    lemma_strip_concat(StripState::Outside, qstr(p.0), seq![':'] + dec_digits(p.1));
    assert(num_item(p) =~= qstr(p.0) + (seq![':'] + dec_digits(p.1)));
    assert(strip_from(StripState::Outside, num_item(p)).1 =~= num_item(p));
}

/// An object body of numeric members passes through stripping.
proof fn lemma_strip_obj_body(ps: Seq<(Seq<char>, nat)>)
    ensures
        strip_from(StripState::Outside, obj_body(ps)) == (StripState::Outside, obj_body(ps)),
    decreases ps.len(),
{
    if ps.len() == 0 {
    } else if ps.len() == 1 {
        lemma_strip_item(ps[0]);
    } else {
        lemma_strip_item(ps[0]);
        lemma_strip_obj_body(ps.drop_first());
        lemma_strip_plain(seq![',']);
        lemma_strip_concat(StripState::Outside, num_item(ps[0]), seq![','] + obj_body(
            ps.drop_first(),
        ));
        lemma_strip_concat(StripState::Outside, seq![','], obj_body(ps.drop_first()));
        assert(obj_body(ps) =~= num_item(ps[0]) + (seq![','] + obj_body(ps.drop_first())));
        assert(strip_from(StripState::Outside, obj_body(ps)).1 =~= obj_body(ps));
    }
}

/// An object of numeric members passes through stripping.
proof fn lemma_strip_obj(ps: Seq<(Seq<char>, nat)>)
    ensures
        strip_from(StripState::Outside, obj(ps)) == (StripState::Outside, obj(ps)),
{
    lemma_strip_plain(seq!['{']);
    lemma_strip_plain(seq!['}']);
    lemma_strip_obj_body(ps);
    lemma_strip_concat(StripState::Outside, seq!['{'], obj_body(ps) + seq!['}']);
    lemma_strip_concat(StripState::Outside, obj_body(ps), seq!['}']);
    assert(obj(ps) =~= seq!['{'] + (obj_body(ps) + seq!['}']));
    assert(strip_from(StripState::Outside, obj(ps)).1 =~= obj(ps));
}

/// The token-table members pass through stripping.
proof fn lemma_strip_tok_body(es: Seq<LabelEntry>)
    ensures
        strip_from(StripState::Outside, tok_body(es)) == (StripState::Outside, tok_body(es)),
    decreases es.len(),
{
    if es.len() == 0 {
    } else {
        let head = qstr(es[0].label@) + seq![':'] + obj(pairs_tok(es[0].tokens@));
        assert(strip_from(StripState::Outside, head) == (StripState::Outside, head)) by {
            lemma_strip_qstr(es[0].label@);
            lemma_strip_plain(seq![':']);
            lemma_strip_obj(pairs_tok(es[0].tokens@));
            lemma_strip_concat(StripState::Outside, qstr(es[0].label@), seq![':'] + obj(
                pairs_tok(es[0].tokens@),
            ));
            lemma_strip_concat(StripState::Outside, seq![':'], obj(pairs_tok(es[0].tokens@)));
            assert(head =~= qstr(es[0].label@) + (seq![':'] + obj(pairs_tok(es[0].tokens@))));
            assert(strip_from(StripState::Outside, head).1 =~= head);
        }
        if es.len() == 1 {
        } else {
            lemma_strip_tok_body(es.drop_first());
            lemma_strip_plain(seq![',']);
            lemma_strip_concat(StripState::Outside, head, seq![','] + tok_body(es.drop_first()));
            lemma_strip_concat(StripState::Outside, seq![','], tok_body(es.drop_first()));
            assert(tok_body(es) =~= head + (seq![','] + tok_body(es.drop_first())));
            assert(strip_from(StripState::Outside, tok_body(es)).1 =~= tok_body(es));
        }
    }
}

/// The fixed key fragments pass through stripping.
#[verifier::rlimit(60)]
proof fn lemma_strip_frag(which: int)
    requires
        0 <= which < 3,
    ensures
        ({
            let f = if which == 0 {
                frag_train()
            } else if which == 1 {
                frag_token()
            } else {
                frag_total()
            };
            strip_from(StripState::Outside, f) == (StripState::Outside, f)
        }),
{
    let f = if which == 0 {
        frag_train()
    } else if which == 1 {
        frag_token()
    } else {
        frag_total()
    };
    let key = f.subrange(2, 14);
    assert(f =~= seq![f[0]] + (qstr(key) + seq![':'])) by {
        assert(qbody(key) =~= key) by {
            lemma_qbody_keyid(key);
        }
    }
    lemma_strip_plain(seq![f[0]]);
    assert(strip_from(StripState::Outside, qstr(key)) == (StripState::Outside, qstr(key))) by {
        lemma_strip_qstr(key);
    }
    lemma_strip_plain(seq![':']);
    lemma_strip_concat(StripState::Outside, seq![f[0]], qstr(key) + seq![':']);
    lemma_strip_concat(StripState::Outside, qstr(key), seq![':']);
    assert(strip_from(StripState::Outside, f).1 =~= f);
}

/// A key of printable characters needs no escaping.
proof fn lemma_qbody_keyid(s: Seq<char>)
    requires
        forall|i: int|
            0 <= i < s.len() ==> (#[trigger] s[i]) != '"' && s[i] != '\\' && (s[i] as u32) >= 0x20,
    ensures
        qbody(s) == s,
    decreases s.len(),
{
    if s.len() > 0 {
        lemma_qbody_keyid(s.drop_first());
        assert(esc_char(s[0]) =~= seq![s[0]]);
        assert(seq![s[0]] + s.drop_first() =~= s);
    }
}

/// The compact document of any classifier passes through stripping
/// untouched.
#[verifier::rlimit(80)]
proof fn lemma_strip_compact(es: Seq<LabelEntry>)
    ensures
        strip_ws(json_compact(es)) == json_compact(es),
{
    let a1 = frag_train();
    let a2 = obj(pairs_doc(es));
    let a3 = frag_token();
    let a4 = seq!['{'] + tok_body(es) + seq!['}'];
    let a5 = frag_total();
    let a6 = obj(pairs_tot(es));
    let a7 = seq!['}'];
    lemma_strip_frag(0);
    lemma_strip_obj(pairs_doc(es));
    lemma_strip_frag(1);
    assert(strip_from(StripState::Outside, a4) == (StripState::Outside, a4)) by {
        lemma_strip_plain(seq!['{']);
        lemma_strip_plain(seq!['}']);
        lemma_strip_tok_body(es);
        lemma_strip_concat(StripState::Outside, seq!['{'], tok_body(es) + seq!['}']);
        lemma_strip_concat(StripState::Outside, tok_body(es), seq!['}']);
        assert(a4 =~= seq!['{'] + (tok_body(es) + seq!['}']));
        assert(strip_from(StripState::Outside, a4).1 =~= a4);
    }
    lemma_strip_frag(2);
    lemma_strip_obj(pairs_tot(es));
    lemma_strip_plain(a7);
    let t2 = a6 + a7;
    let t3 = a5 + t2;
    let t4 = a4 + t3;
    let t5 = a3 + t4;
    let t6 = a2 + t5;
    lemma_strip_concat(StripState::Outside, a6, a7);
    lemma_strip_concat(StripState::Outside, a5, t2);
    lemma_strip_concat(StripState::Outside, a4, t3);
    lemma_strip_concat(StripState::Outside, a3, t4);
    lemma_strip_concat(StripState::Outside, a2, t5);
    lemma_strip_concat(StripState::Outside, a1, t6);
    assert(strip_from(StripState::Outside, t2).1 =~= t2);
    assert(strip_from(StripState::Outside, t3).1 =~= t3);
    assert(strip_from(StripState::Outside, t4).1 =~= t4);
    assert(strip_from(StripState::Outside, t5).1 =~= t5);
    assert(strip_from(StripState::Outside, t6).1 =~= t6);
    assert(json_compact(es) =~= a1 + t6);
    assert(strip_from(StripState::Outside, a1 + t6).1 =~= a1 + t6);
}

/// Reading back a written decimal digit gives the digit.
proof fn lemma_digit_roundtrip(n: nat)
    requires
        n < 10,
    ensures
        digit_val(digit_char(n)) == Some(n),
{
}

/// Reading back a written hexadecimal digit gives the digit.
proof fn lemma_hex_roundtrip(n: nat)
    requires
        n < 16,
    ensures
        hex_val(hex_char(n)) == Some(n),
{
}

/// Every character of a written number is a digit, and the first is not
/// zero unless the number is zero.
proof fn lemma_dec_digits_shape(n: nat)
    ensures
        dec_digits(n).len() >= 1,
        forall|i: int|
            0 <= i < dec_digits(n).len() ==> digit_val(#[trigger] dec_digits(n)[i]) is Some,
        dec_digits(n)[0] == '0' ==> n == 0,
    decreases n,
{
    if n < 10 {
        lemma_digit_roundtrip(n);
        assert(dec_digits(n) =~= seq![digit_char(n)]);
    } else {
        lemma_dec_digits_shape(n / 10);
        lemma_digit_roundtrip(n % 10);
        assert(dec_digits(n) == dec_digits(n / 10) + seq![digit_char(n % 10)]);
        assert(dec_digits(n)[0] == dec_digits(n / 10)[0]);
        assert(forall|i: int|
            0 <= i < dec_digits(n).len() ==> digit_val(#[trigger] dec_digits(n)[i]) is Some) by {
            assert(forall|i: int|
                0 <= i < dec_digits(n / 10).len() ==> dec_digits(n)[i] == dec_digits(n / 10)[i]);
            assert(dec_digits(n)[dec_digits(n).len() - 1] == digit_char(n % 10));
        }
    }
}

/// The scale a written number shifts an accumulator by: ten to the power
/// of its digit count.
spec fn shift10(n: nat) -> nat
    decreases n,
{
    if n < 10 {
        10
    } else {
        10 * shift10(n / 10)
    }
}

/// Reading a written number folds it onto the accumulator.
proof fn lemma_parse_num_from_digits(m: nat, rest: Seq<char>, acc: nat)
    ensures
        parse_num_from(dec_digits(m) + rest, acc) == parse_num_from(rest, acc * shift10(m) + m),
    decreases m,
{
    let s = dec_digits(m) + rest;
    if m < 10 {
        lemma_digit_roundtrip(m);
        assert(s[0] == digit_char(m));
        assert(s.drop_first() =~= rest);
        assert(parse_num_from(s, acc) == parse_num_from(rest, acc * 10 + m));
    } else {
        lemma_digit_roundtrip(m % 10);
        assert(dec_digits(m) == dec_digits(m / 10) + seq![digit_char(m % 10)]);
        assert(s =~= dec_digits(m / 10) + (seq![digit_char(m % 10)] + rest));
        lemma_parse_num_from_digits(m / 10, seq![digit_char(m % 10)] + rest, acc);
        let mid = seq![digit_char(m % 10)] + rest;
        let acc2 = acc * shift10(m / 10) + m / 10;
        assert(mid[0] == digit_char(m % 10));
        assert(mid.drop_first() =~= rest);
        assert(parse_num_from(mid, acc2) == parse_num_from(rest, acc2 * 10 + m % 10));
        assert(acc2 * 10 + m % 10 == acc * shift10(m) + m) by (nonlinear_arith)
            requires
                acc2 == acc * shift10(m / 10) + m / 10,
                shift10(m) == 10 * shift10(m / 10),
                m == 10 * (m / 10) + m % 10,
        ;
        assert(m == 10 * (m / 10) + m % 10) by (nonlinear_arith)
            requires
                m >= 10,
        ;
    }
}

/// Reading back a written number gives the number, when what follows is
/// not a digit.
proof fn lemma_parse_num_inv(n: nat, rest: Seq<char>)
    requires
        n <= usize::MAX,
        rest.len() == 0 || digit_val(rest[0]) is None,
    ensures
        parse_num(dec_digits(n) + rest) == Some((n, rest)),
{
    let s = dec_digits(n) + rest;
    lemma_dec_digits_shape(n);
    assert(s[0] == dec_digits(n)[0]);
    if s[0] == '0' {
        assert(n == 0);
        assert(dec_digits(0) =~= seq![digit_char(0)]);
        if s.len() >= 2 {
            assert(s[1] == rest[0]);
        }
    } else {
        if s.len() >= 2 && dec_digits(n).len() == 1 {
            assert(s[1] == rest[0]);
        }
    }
    assert(!(s[0] == '0' && s.len() >= 2 && digit_val(s[1]) is Some)) by {
        if s[0] == '0' && s.len() >= 2 {
            assert(s[1] == rest[0]);
        }
    }
    lemma_parse_num_from_digits(n, rest, 0);
    assert(0 * shift10(n) == 0) by (nonlinear_arith);
    assert(parse_num_from(rest, n) == (n, rest));
}

/// Reading back a written string body gives the string.
proof fn lemma_parse_qbody_inv(x: Seq<char>, rest: Seq<char>)
    ensures
        parse_qbody(qbody(x) + seq!['"'] + rest) == Some((x, rest)),
    decreases x.len(),
{
    let s = qbody(x) + seq!['"'] + rest;
    if x.len() == 0 {
        assert(qbody(x) =~= Seq::<char>::empty());
        assert(s =~= seq!['"'] + rest);
        assert(s[0] == '"');
        assert(s.drop_first() =~= rest);
    } else {
        let c = x[0];
        let e = esc_char(c);
        let tail = qbody(x.drop_first()) + seq!['"'] + rest;
        assert(s =~= e + tail);
        lemma_parse_qbody_inv(x.drop_first(), rest);
        if c == '"' || c == '\\' {
            assert(e.len() == 2 && e[0] == '\\' && e[1] == c);
            assert(s[0] == '\\');
            assert(s.len() >= 2 && s[1] == c);
            assert(s.skip(2) =~= tail);
            assert(cont_qbody(c, tail) == Some((seq![c] + x.drop_first(), rest)));
            assert(seq![c] + x.drop_first() =~= x);
        } else if c == '\u{8}' || c == '\u{c}' || c == '\n' || c == '\r' || c == '\t' {
            assert(e.len() == 2 && e[0] == '\\');
            assert(s[0] == '\\');
            assert(s[1] == e[1]);
            assert(s.skip(2) =~= tail);
            assert(cont_qbody(c, tail) == Some((seq![c] + x.drop_first(), rest)));
            assert(seq![c] + x.drop_first() =~= x);
        } else if (c as u32) < 0x20 {
            let hi = (c as u32 / 16) as nat;
            let lo = (c as u32 % 16) as nat;
            assert(e =~= seq!['\\', 'u', '0', '0', hex_char(hi), hex_char(lo)]);
            assert(s[0] == '\\');
            assert(s[1] == 'u');
            assert(s[2] == '0');
            assert(s[3] == '0');
            assert(s[4] == hex_char(hi));
            assert(s[5] == hex_char(lo));
            lemma_hex_roundtrip(hi);
            lemma_hex_roundtrip(lo);
            assert(hex_val(s[2]) == Some(0nat));
            assert(hex_val(s[3]) == Some(0nat));
            let v = hex_val(s[2])->Some_0 * 0x1000 + hex_val(s[3])->Some_0 * 0x100 + hex_val(
                s[4],
            )->Some_0 * 0x10 + hex_val(s[5])->Some_0;
            assert(v == hi * 0x10 + lo);
            assert(hi * 0x10 + lo == c as u32) by (nonlinear_arith)
                requires
                    hi == (c as u32) / 16,
                    lo == (c as u32) % 16,
            ;
            assert(v < 0x20);
            assert(is_scalar_val(v));
            assert((v as u32) as char == c) by {
                vstd::utf8::char_u32_cast(c, v as u32);
            }
            assert(s.skip(6) =~= tail);
            assert(cont_qbody(c, tail) == Some((seq![c] + x.drop_first(), rest)));
            assert(seq![c] + x.drop_first() =~= x);
        } else {
            assert(e =~= seq![c]);
            assert(s[0] == c);
            assert(s.drop_first() =~= tail);
            assert(cont_qbody(c, tail) == Some((seq![c] + x.drop_first(), rest)));
            assert(seq![c] + x.drop_first() =~= x);
        }
    }
}

/// Reading back a written string literal gives the string.
proof fn lemma_parse_qstr_inv(x: Seq<char>, rest: Seq<char>)
    ensures
        parse_qstr(qstr(x) + rest) == Some((x, rest)),
{
    let s = qstr(x) + rest;
    assert(s[0] == '"');
    assert(s.drop_first() =~= qbody(x) + seq!['"'] + rest);
    lemma_parse_qbody_inv(x, rest);
}

/// A written object body is at least as long as its member count.
proof fn lemma_obj_body_min_len(ps: Seq<(Seq<char>, nat)>)
    ensures
        obj_body(ps).len() >= ps.len(),
    decreases ps.len(),
{
    if ps.len() > 1 {
        lemma_obj_body_min_len(ps.drop_first());
    }
}

/// Reading back a written member list gives the members.
proof fn lemma_parse_members_inv(ps: Seq<(Seq<char>, nat)>, rest: Seq<char>, fuel: nat)
    requires
        ps.len() >= 1,
        fuel >= ps.len(),
        forall|i: int| 0 <= i < ps.len() ==> (#[trigger] ps[i]).1 <= usize::MAX,
    ensures
        parse_flat_members(obj_body(ps) + seq!['}'] + rest, fuel) == Some((ps, rest)),
    decreases ps.len(),
{
    let s = obj_body(ps) + seq!['}'] + rest;
    let p = ps[0];
    if ps.len() == 1 {
        assert(obj_body(ps) == num_item(p));
        assert(s =~= qstr(p.0) + (seq![':'] + dec_digits(p.1) + seq!['}'] + rest));
        lemma_parse_qstr_inv(p.0, seq![':'] + dec_digits(p.1) + seq!['}'] + rest);
        let r1 = seq![':'] + dec_digits(p.1) + seq!['}'] + rest;
        assert(r1[0] == ':');
        assert(r1.drop_first() =~= dec_digits(p.1) + (seq!['}'] + rest));
        lemma_parse_num_inv(p.1, seq!['}'] + rest);
        let r2 = seq!['}'] + rest;
        assert(r2[0] == '}');
        assert(r2.drop_first() =~= rest);
        assert(seq![(p.0, p.1)] =~= ps);
        assert(seq![(p.0, p.1)] == seq![p]);
    } else {
        assert(obj_body(ps) == num_item(p) + seq![','] + obj_body(ps.drop_first()));
        let after = obj_body(ps.drop_first()) + seq!['}'] + rest;
        assert(s =~= qstr(p.0) + (seq![':'] + dec_digits(p.1) + seq![','] + after));
        lemma_parse_qstr_inv(p.0, seq![':'] + dec_digits(p.1) + seq![','] + after);
        let r1 = seq![':'] + dec_digits(p.1) + seq![','] + after;
        assert(r1[0] == ':');
        assert(r1.drop_first() =~= dec_digits(p.1) + (seq![','] + after));
        lemma_parse_num_inv(p.1, seq![','] + after);
        let r2 = seq![','] + after;
        assert(r2[0] == ',');
        assert(r2.drop_first() =~= after);
        lemma_parse_members_inv(ps.drop_first(), rest, (fuel - 1) as nat);
        assert(seq![p] + ps.drop_first() =~= ps);
    }
}

/// Reading back a written object gives its members.
proof fn lemma_parse_flat_obj_inv(ps: Seq<(Seq<char>, nat)>, rest: Seq<char>)
    requires
        forall|i: int| 0 <= i < ps.len() ==> (#[trigger] ps[i]).1 <= usize::MAX,
    ensures
        parse_flat_obj(obj(ps) + rest) == Some((ps, rest)),
{
    let s = obj(ps) + rest;
    assert(s[0] == '{');
    if ps.len() == 0 {
        assert(obj_body(ps) =~= Seq::<char>::empty());
        assert(obj(ps) =~= seq!['{', '}']);
        assert(s.len() >= 2 && s[1] == '}');
        assert(s.skip(2) =~= rest);
        assert(Seq::<(Seq<char>, nat)>::empty() =~= ps);
    } else {
        assert(obj_body(ps).len() >= 1) by {
            lemma_obj_body_min_len(ps);
        }
        assert(obj_body(ps)[0] == '"') by {
            if ps.len() == 1 {
                assert(obj_body(ps) == num_item(ps[0]));
            }
            assert(num_item(ps[0])[0] == '"');
        }
        assert(s[1] == obj_body(ps)[0]);
        assert(!(s.len() >= 2 && s[1] == '}'));
        assert(s.drop_first() =~= obj_body(ps) + seq!['}'] + rest);
        lemma_obj_body_min_len(ps);
        lemma_parse_members_inv(ps, rest, s.len());
    }
}

/// The labels and token tables of a classifier's entries, in order.
pub open(crate) spec fn toks_of(es: Seq<LabelEntry>) -> Seq<(Seq<char>, Seq<(Seq<char>, nat)>)> {
    es.map_values(|e: LabelEntry| (e.label@, pairs_tok(e.tokens@)))
}

/// Reading back the written token tables gives them, label by label.
#[verifier::rlimit(100)]
proof fn lemma_parse_tok_members_inv(es: Seq<LabelEntry>, rest: Seq<char>, fuel: nat)
    requires
        es.len() >= 1,
        fuel >= es.len(),
    ensures
        parse_tok_members(tok_body(es) + seq!['}'] + rest, fuel) == Some((toks_of(es), rest)),
    decreases es.len(),
{
    let s = tok_body(es) + seq!['}'] + rest;
    let e = es[0];
    assert(forall|i: int|
        0 <= i < pairs_tok(e.tokens@).len() ==> (#[trigger] pairs_tok(e.tokens@)[i]).1
            <= usize::MAX);
    if es.len() == 1 {
        assert(tok_body(es) == qstr(e.label@) + seq![':'] + obj(pairs_tok(e.tokens@)));
        assert(s =~= qstr(e.label@) + (seq![':'] + obj(pairs_tok(e.tokens@)) + seq!['}'] + rest));
        lemma_parse_qstr_inv(e.label@, seq![':'] + obj(pairs_tok(e.tokens@)) + seq!['}'] + rest);
        let r1 = seq![':'] + obj(pairs_tok(e.tokens@)) + seq!['}'] + rest;
        assert(r1[0] == ':');
        assert(r1.drop_first() =~= obj(pairs_tok(e.tokens@)) + (seq!['}'] + rest));
        lemma_parse_flat_obj_inv(pairs_tok(e.tokens@), seq!['}'] + rest);
        let r2 = seq!['}'] + rest;
        assert(r2[0] == '}');
        assert(r2.drop_first() =~= rest);
        assert(seq![(e.label@, pairs_tok(e.tokens@))] =~= toks_of(es));
    } else {
        let head = qstr(e.label@) + seq![':'] + obj(pairs_tok(e.tokens@));
        assert(tok_body(es) == head + seq![','] + tok_body(es.drop_first()));
        let after = tok_body(es.drop_first()) + seq!['}'] + rest;
        assert(s =~= qstr(e.label@) + (seq![':'] + obj(pairs_tok(e.tokens@)) + seq![','] + after));
        lemma_parse_qstr_inv(e.label@, seq![':'] + obj(pairs_tok(e.tokens@)) + seq![','] + after);
        let r1 = seq![':'] + obj(pairs_tok(e.tokens@)) + seq![','] + after;
        assert(r1[0] == ':');
        assert(r1.drop_first() =~= obj(pairs_tok(e.tokens@)) + (seq![','] + after));
        lemma_parse_flat_obj_inv(pairs_tok(e.tokens@), seq![','] + after);
        let r2 = seq![','] + after;
        assert(r2[0] == ',');
        assert(r2.drop_first() =~= after);
        lemma_parse_tok_members_inv(es.drop_first(), rest, (fuel - 1) as nat);
        assert(toks_of(es.drop_first()) =~= toks_of(es).drop_first());
        assert(seq![(e.label@, pairs_tok(e.tokens@))] + toks_of(es).drop_first() =~= toks_of(es));
    }
}

/// Reading back the written token-table object gives it whole.
proof fn lemma_parse_tok_obj_inv(es: Seq<LabelEntry>, rest: Seq<char>)
    ensures
        parse_tok_obj(seq!['{'] + tok_body(es) + seq!['}'] + rest) == Some((toks_of(es), rest)),
{
    let s = seq!['{'] + tok_body(es) + seq!['}'] + rest;
    assert(s[0] == '{');
    if es.len() == 0 {
        assert(tok_body(es) =~= Seq::<char>::empty());
        assert(s =~= seq!['{', '}'] + rest);
        assert(s.len() >= 2 && s[1] == '}');
        assert(s.skip(2) =~= rest);
        assert(Seq::<(Seq<char>, Seq<(Seq<char>, nat)>)>::empty() =~= toks_of(es));
    } else {
        assert(tok_body(es).len() >= 1) by {
            lemma_tok_body_min_len(es);
        }
        assert(tok_body(es)[0] == '"') by {
            if es.len() == 1 {
                assert(tok_body(es) == qstr(es[0].label@) + seq![':'] + obj(
                    pairs_tok(es[0].tokens@),
                ));
            }
            assert(qstr(es[0].label@)[0] == '"');
        }
        assert(s[1] == tok_body(es)[0]);
        assert(!(s.len() >= 2 && s[1] == '}'));
        assert(s.drop_first() =~= tok_body(es) + seq!['}'] + rest);
        lemma_tok_body_min_len(es);
        lemma_parse_tok_members_inv(es, rest, s.len());
    }
}

/// A written token-table body is at least as long as its label count.
proof fn lemma_tok_body_min_len(es: Seq<LabelEntry>)
    ensures
        tok_body(es).len() >= es.len(),
    decreases es.len(),
{
    if es.len() > 1 {
        lemma_tok_body_min_len(es.drop_first());
    }
}

/// Reading back a whole written document gives the three tables.
#[verifier::rlimit(100)]
proof fn lemma_parse_doc_inv(es: Seq<LabelEntry>)
    requires
        forall|i: int| 0 <= i < es.len() ==> (#[trigger] es[i]).train_count <= usize::MAX,
        forall|i: int| 0 <= i < es.len() ==> (#[trigger] es[i]).total_count <= usize::MAX,
    ensures
        parse_doc(json_compact(es)) == Some((pairs_doc(es), toks_of(es), pairs_tot(es))),
{
    let s = json_compact(es);
    let b1 = obj(pairs_doc(es));
    let c4 = seq!['{'] + tok_body(es) + seq!['}'];
    let b2 = obj(pairs_tot(es));
    let t5 = b2 + seq!['}'];
    let t4 = frag_total() + t5;
    let t3 = c4 + t4;
    let t2 = frag_token() + t3;
    let t1 = b1 + t2;
    assert(s =~= frag_train() + t1);
    assert(s.len() >= 16);
    assert(s.take(16) =~= frag_train());
    assert(s.skip(16) =~= t1);
    assert(forall|i: int|
        0 <= i < pairs_doc(es).len() ==> (#[trigger] pairs_doc(es)[i]).1 <= usize::MAX);
    lemma_parse_flat_obj_inv(pairs_doc(es), t2);
    assert(t2.len() >= 16);
    assert(t2.take(16) =~= frag_token());
    assert(t2.skip(16) =~= t3);
    assert(t3 =~= seq!['{'] + tok_body(es) + seq!['}'] + t4);
    lemma_parse_tok_obj_inv(es, t4);
    assert(t4.len() >= 16);
    assert(t4.take(16) =~= frag_total());
    assert(t4.skip(16) =~= t5);
    assert(forall|i: int|
        0 <= i < pairs_tot(es).len() ==> (#[trigger] pairs_tot(es)[i]).1 <= usize::MAX);
    lemma_parse_flat_obj_inv(pairs_tot(es), seq!['}']);
    assert(t5 =~= obj(pairs_tot(es)) + seq!['}']);
}

/// Persistence round trip: the decoded form of any well-formed
/// classifier's JSON document is exactly that classifier's entries, with
/// identical labels and identical integer tables.
pub proof fn lemma_json_round_trip(nb: NaiveBayes)
    requires
        nb.wf(),
    ensures
        spec_decode(nb.json_spec()) == Some(nb_view(nb)),
        forall|s: Seq<char>|
            strip_ws(s) == nb.json_spec() ==> #[trigger] spec_decode(s) == Some(nb_view(nb)),
{
    let es = nb.entries@;
    assert(forall|i: int| 0 <= i < es.len() ==> (#[trigger] es[i]).wf());
    lemma_strip_compact(es);
    lemma_parse_doc_inv(es);
    let docs = pairs_doc(es);
    let toks = toks_of(es);
    let tots = pairs_tot(es);
    assert forall|i: int| 0 <= i < docs.len() implies {
        let l = (#[trigger] docs[i]).0;
        &&& docs[i].1 >= 1
        &&& find_tok(toks, l) is Some
        &&& find_pair(tots, l) is Some
        &&& find_tok(toks, l) == Some(pairs_tok(es[i].tokens@))
        &&& find_pair(tots, l) == Some(es[i].total_count as nat)
        &&& pair_keys_unique(find_tok(toks, l)->Some_0)
        &&& (forall|j: int|
            0 <= j < find_tok(toks, l)->Some_0.len() ==> (#[trigger] find_tok(
                toks,
                l,
            )->Some_0[j]).1 >= 1)
        &&& pair_sum(find_tok(toks, l)->Some_0) == find_pair(tots, l)->Some_0
    } by {
        assert(es[i].wf());
        lemma_find_tok_at(toks, docs[i].0, i);
        lemma_find_pair_at(tots, docs[i].0, i);
        lemma_pair_sum_tok(es[i].tokens@);
        assert(pair_keys_unique(pairs_tok(es[i].tokens@))) by {
            assert(forall|a: int, b: int|
                0 <= a < b < es[i].tokens@.len() ==> es[i].tokens@[a].token@
                    != es[i].tokens@[b].token@);
        }
    }
    assert(valid_parsed(docs, toks, tots));
    assert forall|i: int| 0 <= i < docs.len() implies #[trigger] assemble(docs, toks, tots)[i]
        == entry_view(es[i]) by {
        lemma_find_tok_at(toks, docs[i].0, i);
        lemma_find_pair_at(tots, docs[i].0, i);
    }
    assert(assemble(docs, toks, tots) =~= nb_view(nb));
}

/// Serialise the classifier to its compact JSON document.
pub fn to_json(nb: &NaiveBayes) -> (r: String)
    ensures
        r@ == nb.json_spec(),
{
    let mut out = String::new();
    out.append("{\"train_counts\":");
    proof {
        reveal_strlit("{\"train_counts\":");
        assert("{\"train_counts\":"@ =~= frag_train());
    }
    write_label_obj(&mut out, nb, true);
    out.append(",\"token_counts\":");
    proof {
        reveal_strlit(",\"token_counts\":");
        assert(",\"token_counts\":"@ =~= frag_token());
    }
    write_tok_objs(&mut out, nb);
    out.append(",\"total_counts\":");
    proof {
        reveal_strlit(",\"total_counts\":");
        assert(",\"total_counts\":"@ =~= frag_total());
    }
    write_label_obj(&mut out, nb, false);
    push_char(&mut out, '}');
    proof {
        assert(out@ =~= nb.json_spec());
    }
    out
}

/// Whitespace dissolves outside string literals.
proof fn lemma_strip_ws_out(s: Seq<char>)
    requires
        forall|i: int| 0 <= i < s.len() ==> is_ws(#[trigger] s[i]),
    ensures
        strip_from(StripState::Outside, s) == (StripState::Outside, Seq::<char>::empty()),
    decreases s.len(),
{
    if s.len() > 0 {
        lemma_strip_ws_out(s.drop_first());
        assert(Seq::<char>::empty() + Seq::<char>::empty() =~= Seq::<char>::empty());
    }
}

/// Padding of `n` spaces.
fn write_pad(out: &mut String, n: usize)
    ensures
        final (out)@.len() >= old(out)@.len(),
        final (out)@.take(old(out)@.len() as int) == old(out)@,
        strip_from(StripState::Outside, final (out)@.skip(old(out)@.len() as int)) == (
            StripState::Outside,
            Seq::<char>::empty(),
        ),
    decreases n,
{
    let ghost base = out@;
    for i in 0..n
        invariant
            out@.len() >= base.len(),
            out@.take(base.len() as int) == base,
            forall|j: int| base.len() <= j < out@.len() ==> is_ws(#[trigger] out@[j]),
    {
        push_char(out, ' ');
        proof {
            assert(out@.take(base.len() as int) =~= base);
        }
    }
    proof {
        lemma_strip_ws_out(out@.skip(base.len() as int));
    }
}

/// One member separator and the following indentation, in pretty form.
fn write_sep_pretty(out: &mut String, first: bool, pad: usize)
    ensures
        final (out)@.len() >= old(out)@.len(),
        final (out)@.take(old(out)@.len() as int) == old(out)@,
        strip_from(StripState::Outside, final (out)@.skip(old(out)@.len() as int)) == (
            StripState::Outside,
            if first {
                Seq::<char>::empty()
            } else {
                seq![',']
            },
        ),
{
    let ghost base = out@;
    if !first {
        push_char(out, ',');
    }
    push_char(out, '\n');
    let ghost mid = out@;
    write_pad(out, pad);
    proof {
        let d1 = mid.skip(base.len() as int);
        let d2 = out@.skip(mid.len() as int);
        assert(out@.skip(base.len() as int) =~= d1 + d2);
        assert(out@.take(base.len() as int) =~= base);
        if first {
            assert(d1 =~= seq!['\n']);
            lemma_strip_ws_out(d1);
        } else {
            assert(d1 =~= seq![',', '\n']);
            lemma_strip_one(StripState::Outside, ',');
            lemma_strip_one(StripState::Outside, '\n');
            lemma_strip_concat(StripState::Outside, seq![','], seq!['\n']);
            assert(seq![','] + seq!['\n'] =~= d1);
            assert(seq![','] + Seq::<char>::empty() =~= seq![',']);
        }
        lemma_strip_concat(StripState::Outside, d1, d2);
        if first {
            assert(Seq::<char>::empty() + Seq::<char>::empty() =~= Seq::<char>::empty());
        } else {
            assert(seq![','] + Seq::<char>::empty() =~= seq![',']);
        }
    }
}

/// One `"key": value` member with a numeric value, in pretty form.
fn write_item_pretty(out: &mut String, key: &str, val: usize)
    ensures
        final (out)@.len() >= old(out)@.len(),
        final (out)@.take(old(out)@.len() as int) == old(out)@,
        strip_from(StripState::Outside, final (out)@.skip(old(out)@.len() as int)) == (
            StripState::Outside,
            num_item((key@, val as nat)),
        ),
{
    let ghost base = out@;
    write_qstr(out, key);
    push_char(out, ':');
    push_char(out, ' ');
    let ghost mid = out@;
    write_num(out, val);
    proof {
        let d1 = qstr(key@);
        let d2 = seq![':', ' '];
        let d3 = dec_digits(val as nat);
        assert(out@.skip(base.len() as int) =~= d1 + (d2 + d3));
        assert(out@.take(base.len() as int) =~= base);
        lemma_strip_qstr(key@);
        lemma_strip_one(StripState::Outside, ':');
        lemma_strip_one(StripState::Outside, ' ');
        lemma_strip_concat(StripState::Outside, seq![':'], seq![' ']);
        assert(seq![':'] + seq![' '] =~= d2);
        assert(seq![':'] + Seq::<char>::empty() =~= seq![':']);
        lemma_digits_plain(val as nat);
        lemma_strip_plain(d3);
        lemma_strip_concat(StripState::Outside, d2, d3);
        lemma_strip_concat(StripState::Outside, d1, d2 + d3);
        assert(seq![':'] + d3 =~= strip_from(StripState::Outside, d2 + d3).1);
        assert(d1 + (seq![':'] + d3) =~= num_item((key@, val as nat)));
    }
}

/// A pretty object of numeric values drawn from the label entries.
#[verifier::rlimit(60)]
fn write_label_obj_pretty(out: &mut String, nb: &NaiveBayes, docs: bool, pad: usize)
    requires
        pad <= 1024,
    ensures
        final (out)@.len() >= old(out)@.len(),
        final (out)@.take(old(out)@.len() as int) == old(out)@,
        strip_from(StripState::Outside, final (out)@.skip(old(out)@.len() as int)) == (
            StripState::Outside,
            if docs {
                obj(pairs_doc(nb.entries@))
            } else {
                obj(pairs_tot(nb.entries@))
            },
        ),
{
    let ghost base = out@;
    let ghost ps = if docs {
        pairs_doc(nb.entries@)
    } else {
        pairs_tot(nb.entries@)
    };
    push_char(out, '{');
    let n = nb.entries.len();
    if n == 0 {
        push_char(out, '}');
        proof {
            assert(out@.skip(base.len() as int) =~= seq!['{', '}']);
            assert(out@.take(base.len() as int) =~= base);
            lemma_strip_plain(seq!['{', '}']);
            assert(obj_body(ps) =~= Seq::<char>::empty());
            assert(obj(ps) =~= seq!['{', '}']);
        }
        return ;
    }
    proof {
        assert(out@.skip(base.len() as int) =~= seq!['{']);
        assert(out@.take(base.len() as int) =~= base);
        lemma_strip_one(StripState::Outside, '{');
        assert(obj_body(ps.take(0)) =~= Seq::<char>::empty());
        assert(seq!['{'] + obj_body(ps.take(0)) =~= seq!['{']);
    }
    for i in 0..n
        invariant
            n == nb.entries@.len(),
            n >= 1,
            ps == if docs {
                pairs_doc(nb.entries@)
            } else {
                pairs_tot(nb.entries@)
            },
            ps.len() == n,
            pad + 2 <= usize::MAX,
            out@.len() >= base.len(),
            out@.take(base.len() as int) == base,
            strip_from(StripState::Outside, out@.skip(base.len() as int)) == (
                StripState::Outside,
                seq!['{'] + obj_body(ps.take(i as int)),
            ),
    {
        let ghost pre = out@;
        write_sep_pretty(out, i == 0, pad + 2);
        let ghost mid = out@;
        if docs {
            write_item_pretty(out, self_label(nb, i), nb.entries[i].train_count);
        } else {
            write_item_pretty(out, self_label(nb, i), nb.entries[i].total_count);
        }
        proof {
            let d0 = pre.skip(base.len() as int);
            let d1 = mid.skip(pre.len() as int);
            let d2 = out@.skip(mid.len() as int);
            assert(out@.take(base.len() as int) =~= base);
            assert(out@.skip(base.len() as int) =~= d0 + (d1 + d2));
            lemma_strip_concat(StripState::Outside, d1, d2);
            lemma_strip_concat(StripState::Outside, d0, d1 + d2);
            lemma_obj_body_snoc(ps, i as int);
            assert(ps[i as int] == (nb.entries@[i as int].label@, if docs {
                nb.entries@[i as int].train_count as nat
            } else {
                nb.entries@[i as int].total_count as nat
            }));
            if i == 0 {
                assert(Seq::<char>::empty() + num_item(ps[0]) =~= num_item(ps[0]));
                assert((seq!['{'] + obj_body(ps.take(0))) + num_item(ps[0]) =~= seq!['{']
                    + obj_body(ps.take(1)));
            } else {
                assert(seq![','] + num_item(ps[i as int]) =~= strip_from(
                    StripState::Outside,
                    d1 + d2,
                ).1);
                assert((seq!['{'] + obj_body(ps.take(i as int))) + (seq![','] + num_item(
                    ps[i as int],
                )) =~= seq!['{'] + obj_body(ps.take(i + 1)));
            }
        }
    }
    let ghost pre = out@;
    push_char(out, '\n');
    let ghost m1 = out@;
    write_pad(out, pad);
    let ghost m2 = out@;
    push_char(out, '}');
    proof {
        let d0 = pre.skip(base.len() as int);
        let d1 = out@.skip(pre.len() as int);
        assert(m1 == pre.push('\n'));
        assert(m2.take(m1.len() as int) == m1);
        assert(out@ == m2.push('}'));
        assert(pre.take(base.len() as int) == base);
        assert(forall|j: int| 0 <= j < m1.len() ==> #[trigger] m2[j] == m1[j]) by {
            assert(forall|j: int|
                0 <= j < m1.len() ==> m2.take(m1.len() as int)[j] == #[trigger] m2[j]);
        }
        assert(out@.take(base.len() as int) =~= base);
        assert(out@.skip(base.len() as int) =~= d0 + d1);
        let dnl = m1.skip(pre.len() as int);
        let dpad = m2.skip(m1.len() as int);
        let dbr = out@.skip(m2.len() as int);
        assert(dnl =~= seq!['\n']);
        assert(dbr =~= seq!['}']);
        assert(d1 =~= dnl + (dpad + dbr));
        lemma_strip_one(StripState::Outside, '\n');
        lemma_strip_one(StripState::Outside, '}');
        lemma_strip_concat(StripState::Outside, dpad, dbr);
        lemma_strip_concat(StripState::Outside, dnl, dpad + dbr);
        assert(Seq::<char>::empty() + seq!['}'] =~= seq!['}']);
        assert(strip_from(StripState::Outside, d1).1 =~= seq!['}']);
        lemma_strip_concat(StripState::Outside, d0, d1);
        assert(ps.take(n as int) =~= ps);
        assert((seq!['{'] + obj_body(ps)) + seq!['}'] =~= obj(ps));
    }
}

/// A pretty object of one label's token counts.
#[verifier::rlimit(60)]
fn write_token_obj_pretty(out: &mut String, tokens: &Vec<TokenCount>, pad: usize)
    requires
        pad <= 1024,
    ensures
        final (out)@.len() >= old(out)@.len(),
        final (out)@.take(old(out)@.len() as int) == old(out)@,
        strip_from(StripState::Outside, final (out)@.skip(old(out)@.len() as int)) == (
            StripState::Outside,
            obj(pairs_tok(tokens@)),
        ),
{
    let ghost base = out@;
    let ghost ps = pairs_tok(tokens@);
    push_char(out, '{');
    let n = tokens.len();
    if n == 0 {
        push_char(out, '}');
        proof {
            assert(out@.skip(base.len() as int) =~= seq!['{', '}']);
            assert(out@.take(base.len() as int) =~= base);
            lemma_strip_plain(seq!['{', '}']);
            assert(obj_body(ps) =~= Seq::<char>::empty());
            assert(obj(ps) =~= seq!['{', '}']);
        }
        return ;
    }
    proof {
        assert(out@.skip(base.len() as int) =~= seq!['{']);
        assert(out@.take(base.len() as int) =~= base);
        lemma_strip_one(StripState::Outside, '{');
        assert(obj_body(ps.take(0)) =~= Seq::<char>::empty());
        assert(seq!['{'] + obj_body(ps.take(0)) =~= seq!['{']);
    }
    for i in 0..n
        invariant
            n == tokens@.len(),
            n >= 1,
            ps == pairs_tok(tokens@),
            ps.len() == n,
            pad <= 1024,
            out@.len() >= base.len(),
            out@.take(base.len() as int) == base,
            strip_from(StripState::Outside, out@.skip(base.len() as int)) == (
                StripState::Outside,
                seq!['{'] + obj_body(ps.take(i as int)),
            ),
    {
        let ghost pre = out@;
        write_sep_pretty(out, i == 0, pad + 2);
        let ghost mid = out@;
        write_item_pretty(out, tokens[i].token.as_str(), tokens[i].count);
        proof {
            let d0 = pre.skip(base.len() as int);
            let d1 = mid.skip(pre.len() as int);
            let d2 = out@.skip(mid.len() as int);
            assert(out@.take(base.len() as int) =~= base);
            assert(out@.skip(base.len() as int) =~= d0 + (d1 + d2));
            lemma_strip_concat(StripState::Outside, d1, d2);
            lemma_strip_concat(StripState::Outside, d0, d1 + d2);
            lemma_obj_body_snoc(ps, i as int);
            assert(ps[i as int] == (tokens@[i as int].token@, tokens@[i as int].count as nat));
            if i == 0 {
                assert(Seq::<char>::empty() + num_item(ps[0]) =~= num_item(ps[0]));
                assert((seq!['{'] + obj_body(ps.take(0))) + num_item(ps[0]) =~= seq!['{']
                    + obj_body(ps.take(1)));
            } else {
                assert(seq![','] + num_item(ps[i as int]) =~= strip_from(
                    StripState::Outside,
                    d1 + d2,
                ).1);
                assert((seq!['{'] + obj_body(ps.take(i as int))) + (seq![','] + num_item(
                    ps[i as int],
                )) =~= seq!['{'] + obj_body(ps.take(i + 1)));
            }
        }
    }
    let ghost pre = out@;
    push_char(out, '\n');
    let ghost m1 = out@;
    write_pad(out, pad);
    let ghost m2 = out@;
    push_char(out, '}');
    proof {
        let d0 = pre.skip(base.len() as int);
        let d1 = out@.skip(pre.len() as int);
        assert(m1 == pre.push('\n'));
        assert(m2.take(m1.len() as int) == m1);
        assert(out@ == m2.push('}'));
        assert(pre.take(base.len() as int) == base);
        assert(forall|j: int| 0 <= j < m1.len() ==> #[trigger] m2[j] == m1[j]) by {
            assert(forall|j: int|
                0 <= j < m1.len() ==> m2.take(m1.len() as int)[j] == #[trigger] m2[j]);
        }
        assert(out@.take(base.len() as int) =~= base);
        assert(out@.skip(base.len() as int) =~= d0 + d1);
        let dnl = m1.skip(pre.len() as int);
        let dpad = m2.skip(m1.len() as int);
        let dbr = out@.skip(m2.len() as int);
        assert(dnl =~= seq!['\n']);
        assert(dbr =~= seq!['}']);
        assert(d1 =~= dnl + (dpad + dbr));
        lemma_strip_one(StripState::Outside, '\n');
        lemma_strip_one(StripState::Outside, '}');
        lemma_strip_concat(StripState::Outside, dpad, dbr);
        lemma_strip_concat(StripState::Outside, dnl, dpad + dbr);
        assert(Seq::<char>::empty() + seq!['}'] =~= seq!['}']);
        assert(strip_from(StripState::Outside, d1).1 =~= seq!['}']);
        lemma_strip_concat(StripState::Outside, d0, d1);
        assert(ps.take(n as int) =~= ps);
        assert((seq!['{'] + obj_body(ps)) + seq!['}'] =~= obj(ps));
    }
}

/// A `"key": ` prefix of a pretty member with an object value.
fn write_keyc_pretty(out: &mut String, key: &str)
    ensures
        final (out)@.len() >= old(out)@.len(),
        final (out)@.take(old(out)@.len() as int) == old(out)@,
        strip_from(StripState::Outside, final (out)@.skip(old(out)@.len() as int)) == (
            StripState::Outside,
            qstr(key@) + seq![':'],
        ),
{
    let ghost base = out@;
    write_qstr(out, key);
    push_char(out, ':');
    push_char(out, ' ');
    proof {
        let d1 = qstr(key@);
        let d2 = seq![':', ' '];
        assert(out@.skip(base.len() as int) =~= d1 + d2);
        assert(out@.take(base.len() as int) =~= base);
        lemma_strip_qstr(key@);
        lemma_strip_one(StripState::Outside, ':');
        lemma_strip_one(StripState::Outside, ' ');
        lemma_strip_concat(StripState::Outside, seq![':'], seq![' ']);
        assert(seq![':'] + seq![' '] =~= d2);
        assert(seq![':'] + Seq::<char>::empty() =~= seq![':']);
        lemma_strip_concat(StripState::Outside, d1, d2);
    }
}

/// The pretty `token_counts` object: one pretty inner object per label.
#[verifier::rlimit(100)]
fn write_tok_objs_pretty(out: &mut String, nb: &NaiveBayes)
    ensures
        final (out)@.len() >= old(out)@.len(),
        final (out)@.take(old(out)@.len() as int) == old(out)@,
        strip_from(StripState::Outside, final (out)@.skip(old(out)@.len() as int)) == (
            StripState::Outside,
            seq!['{'] + tok_body(nb.entries@) + seq!['}'],
        ),
{
    let ghost base = out@;
    let ghost es = nb.entries@;
    push_char(out, '{');
    let n = nb.entries.len();
    if n == 0 {
        push_char(out, '}');
        proof {
            assert(out@.skip(base.len() as int) =~= seq!['{', '}']);
            assert(out@.take(base.len() as int) =~= base);
            lemma_strip_plain(seq!['{', '}']);
            assert(tok_body(es) =~= Seq::<char>::empty());
            assert(seq!['{'] + tok_body(es) + seq!['}'] =~= seq!['{', '}']);
        }
        return ;
    }
    proof {
        assert(out@.skip(base.len() as int) =~= seq!['{']);
        assert(out@.take(base.len() as int) =~= base);
        lemma_strip_one(StripState::Outside, '{');
        assert(tok_body(es.take(0)) =~= Seq::<char>::empty());
        assert(seq!['{'] + tok_body(es.take(0)) =~= seq!['{']);
    }
    for i in 0..n
        invariant
            n == nb.entries@.len(),
            n >= 1,
            es == nb.entries@,
            out@.len() >= base.len(),
            out@.take(base.len() as int) == base,
            strip_from(StripState::Outside, out@.skip(base.len() as int)) == (
                StripState::Outside,
                seq!['{'] + tok_body(es.take(i as int)),
            ),
    {
        let ghost pre = out@;
        write_sep_pretty(out, i == 0, 4);
        let ghost mid = out@;
        write_keyc_pretty(out, self_label(nb, i));
        let ghost mid2 = out@;
        write_token_obj_pretty(out, &nb.entries[i].tokens, 4);
        proof {
            let d0 = pre.skip(base.len() as int);
            let d1 = mid.skip(pre.len() as int);
            let d2 = mid2.skip(mid.len() as int);
            let d3 = out@.skip(mid2.len() as int);
            assert(out@.take(base.len() as int) =~= base);
            assert(out@.skip(base.len() as int) =~= d0 + (d1 + (d2 + d3)));
            lemma_strip_concat(StripState::Outside, d2, d3);
            lemma_strip_concat(StripState::Outside, d1, d2 + d3);
            lemma_strip_concat(StripState::Outside, d0, d1 + (d2 + d3));
            lemma_tok_body_snoc(es, i as int);
            let item = qstr(es[i as int].label@) + seq![':'] + obj(pairs_tok(es[i as int].tokens@));
            assert(strip_from(StripState::Outside, d2 + d3).1 =~= item);
            if i == 0 {
                assert(Seq::<char>::empty() + item =~= item);
                assert((seq!['{'] + tok_body(es.take(0))) + item =~= seq!['{'] + tok_body(
                    es.take(1),
                ));
            } else {
                assert(seq![','] + item =~= strip_from(StripState::Outside, d1 + (d2 + d3)).1);
                assert((seq!['{'] + tok_body(es.take(i as int))) + (seq![','] + item) =~= seq!['{']
                    + tok_body(es.take(i + 1)));
            }
        }
    }
    let ghost pre = out@;
    push_char(out, '\n');
    let ghost m1 = out@;
    write_pad(out, 2);
    let ghost m2 = out@;
    push_char(out, '}');
    proof {
        let d0 = pre.skip(base.len() as int);
        let d1 = out@.skip(pre.len() as int);
        assert(m1 == pre.push('\n'));
        assert(m2.take(m1.len() as int) == m1);
        assert(out@ == m2.push('}'));
        assert(pre.take(base.len() as int) == base);
        assert(forall|j: int| 0 <= j < m1.len() ==> #[trigger] m2[j] == m1[j]) by {
            assert(forall|j: int|
                0 <= j < m1.len() ==> m2.take(m1.len() as int)[j] == #[trigger] m2[j]);
        }
        assert(out@.take(base.len() as int) =~= base);
        assert(out@.skip(base.len() as int) =~= d0 + d1);
        let dnl = m1.skip(pre.len() as int);
        let dpad = m2.skip(m1.len() as int);
        let dbr = out@.skip(m2.len() as int);
        assert(dnl =~= seq!['\n']);
        assert(dbr =~= seq!['}']);
        assert(d1 =~= dnl + (dpad + dbr));
        lemma_strip_one(StripState::Outside, '\n');
        lemma_strip_one(StripState::Outside, '}');
        lemma_strip_concat(StripState::Outside, dpad, dbr);
        lemma_strip_concat(StripState::Outside, dnl, dpad + dbr);
        assert(Seq::<char>::empty() + seq!['}'] =~= seq!['}']);
        assert(strip_from(StripState::Outside, d1).1 =~= seq!['}']);
        lemma_strip_concat(StripState::Outside, d0, d1);
        assert(es.take(n as int) =~= es);
        assert((seq!['{'] + tok_body(es)) + seq!['}'] =~= seq!['{'] + tok_body(es) + seq!['}']);
    }
}

/// One pretty top-level key segment, with its leading brace or comma.
#[verifier::rlimit(60)]
fn write_key_pretty(out: &mut String, which: u8)
    requires
        which < 3,
    ensures
        final (out)@.len() >= old(out)@.len(),
        final (out)@.take(old(out)@.len() as int) == old(out)@,
        strip_from(StripState::Outside, final (out)@.skip(old(out)@.len() as int)) == (
            StripState::Outside,
            if which == 0 {
                frag_train()
            } else if which == 1 {
                frag_token()
            } else {
                frag_total()
            },
        ),
{
    let ghost base = out@;
    let ghost f = if which == 0 {
        frag_train()
    } else if which == 1 {
        frag_token()
    } else {
        frag_total()
    };
    if which == 0 {
        out.append("{\n  \"train_counts\": ");
        proof {
            reveal_strlit("{\n  \"train_counts\": ");
            assert(out@.skip(base.len() as int) =~= "{\n  \"train_counts\": "@);
        }
    } else if which == 1 {
        out.append(",\n  \"token_counts\": ");
        proof {
            reveal_strlit(",\n  \"token_counts\": ");
            assert(out@.skip(base.len() as int) =~= ",\n  \"token_counts\": "@);
        }
    } else {
        out.append(",\n  \"total_counts\": ");
        proof {
            reveal_strlit(",\n  \"total_counts\": ");
            assert(out@.skip(base.len() as int) =~= ",\n  \"total_counts\": "@);
        }
    }
    proof {
        let d = out@.skip(base.len() as int);
        assert(out@.take(base.len() as int) =~= base);
        let key = f.subrange(2, 14);
        let head = seq![f[0]];
        let ws1 = seq!['\n', ' ', ' '];
        let ws2 = seq![' '];
        assert(qbody(key) =~= key) by {
            lemma_qbody_keyid(key);
        }
        assert(d =~= head + (ws1 + (qstr(key) + (seq![':'] + ws2))));
        lemma_strip_plain(head);
        lemma_strip_ws_out(ws1);
        lemma_strip_qstr(key);
        lemma_strip_one(StripState::Outside, ':');
        lemma_strip_ws_out(ws2);
        lemma_strip_concat(StripState::Outside, seq![':'], ws2);
        assert(seq![':'] + Seq::<char>::empty() =~= seq![':']);
        lemma_strip_concat(StripState::Outside, qstr(key), seq![':'] + ws2);
        lemma_strip_concat(StripState::Outside, ws1, qstr(key) + (seq![':'] + ws2));
        lemma_strip_concat(StripState::Outside, head, ws1 + (qstr(key) + (seq![':'] + ws2)));
        assert(Seq::<char>::empty() + (qstr(key) + seq![':']) =~= qstr(key) + seq![':']);
        assert(head + (qstr(key) + seq![':']) =~= f);
        assert(strip_from(StripState::Outside, d).1 =~= f);
    }
}

/// Serialise the classifier to its pretty JSON document: the same
/// content as `to_json`, laid out with two-space indentation.  Stripped
/// of its layout whitespace, the output is exactly the compact document,
/// so decoding restores the same classifier.
#[verifier::rlimit(60)]
pub fn to_json_pretty(nb: &NaiveBayes) -> (r: String)
    ensures
        strip_ws(r@) == nb.json_spec(),
{
    let mut out = String::new();
    write_key_pretty(&mut out, 0);
    let ghost m1 = out@;
    write_label_obj_pretty(&mut out, nb, true, 2);
    let ghost m2 = out@;
    write_key_pretty(&mut out, 1);
    let ghost m3 = out@;
    write_tok_objs_pretty(&mut out, nb);
    let ghost m4 = out@;
    write_key_pretty(&mut out, 2);
    let ghost m5 = out@;
    write_label_obj_pretty(&mut out, nb, false, 2);
    let ghost m6 = out@;
    out.append("\n}");
    proof {
        reveal_strlit("\n}");
        let d1 = m1;
        let d2 = m2.skip(m1.len() as int);
        let d3 = m3.skip(m2.len() as int);
        let d4 = m4.skip(m3.len() as int);
        let d5 = m5.skip(m4.len() as int);
        let d6 = m6.skip(m5.len() as int);
        let d7 = out@.skip(m6.len() as int);
        assert(d7 =~= seq!['\n', '}']);
        assert(d1 =~= m1.skip(0));
        assert(strip_from(StripState::Outside, d1) == (StripState::Outside, frag_train())) by {
            assert(m1.skip(0) =~= m1);
        }
        assert(strip_from(StripState::Outside, d7) == (StripState::Outside, seq!['}'])) by {
            lemma_strip_one(StripState::Outside, '\n');
            lemma_strip_one(StripState::Outside, '}');
            lemma_strip_concat(StripState::Outside, seq!['\n'], seq!['}']);
            assert(seq!['\n'] + seq!['}'] =~= d7);
            assert(Seq::<char>::empty() + seq!['}'] =~= seq!['}']);
        }
        let t7 = d7;
        let t6 = d6 + t7;
        let t5 = d5 + t6;
        let t4 = d4 + t5;
        let t3 = d3 + t4;
        let t2 = d2 + t3;
        lemma_strip_concat(StripState::Outside, d6, t7);
        lemma_strip_concat(StripState::Outside, d5, t6);
        lemma_strip_concat(StripState::Outside, d4, t5);
        lemma_strip_concat(StripState::Outside, d3, t4);
        lemma_strip_concat(StripState::Outside, d2, t3);
        lemma_strip_concat(StripState::Outside, d1, t2);
        assert(out@ =~= d1 + t2);
        let es = nb.entries@;
        assert(strip_from(StripState::Outside, out@).1 =~= frag_train() + (obj(pairs_doc(es)) + (
        frag_token() + ((seq!['{'] + tok_body(es) + seq!['}']) + (frag_total() + (obj(
            pairs_tot(es),
        ) + seq!['}']))))));
        assert(frag_train() + (obj(pairs_doc(es)) + (frag_token() + ((seq!['{'] + tok_body(es)
            + seq!['}']) + (frag_total() + (obj(pairs_tot(es)) + seq!['}']))))) =~= json_compact(
            es,
        ));
    }
    out
}

} // verus!
