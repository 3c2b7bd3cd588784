//! Byte-level byte-pair tokenizer.
//!
//! Every byte of a piece is written as one printable character; neighbouring parts
//! are merged by the lowest-ranked rule until none applies; the parts that remain are
//! looked up in the vocabulary.

use crate::pretoken::{
    chars_of, concat, lemma_concat_add, lemma_concat_push, pieces, pieces_put_together_are_the_text,
    pretokenize, text_of, texts,
};
use std::collections::HashMap;
use vstd::hash_map::StringHashMap;
use vstd::prelude::*;
use vstd::string::StringExecFns;
use vstd::utf8::{
    decode_utf8, encode_utf8, encode_utf8_decode_utf8, encode_utf8_valid_utf8, valid_utf8,
};

verus! {

broadcast use vstd::std_specs::hash::group_hash_axioms;

/// `serde_json::Error`.
#[verifier::external_type_specification]
#[verifier::external_body]
pub struct ExJsonError(serde_json::Error);

/// The object of names and numbers that `serde_json::from_str` reads from a text,
/// `None` where the text is no such object.
pub uninterp spec fn json_vocab(text: Seq<char>) -> Option<Map<Seq<char>, u32>>;

/// Calls `serde_json::from_str` for a map from strings to 32-bit numbers. The claim is
/// that the outcome depends on the text alone, and that the entries come each under a
/// key of its own; in which order they come is not stated.
#[verifier::external_body]
fn parse_vocab(text: &str) -> (r: Result<Vec<(String, u32)>, serde_json::Error>)
    ensures
        match r {
            Ok(v) => json_vocab(text@) == Some(entry_map(v@)) && distinct_keys(v@),
            Err(e) => json_vocab(text@) is None,
        },
{
    let map: HashMap<String, u32> = serde_json::from_str(text)?;
    Ok(map.into_iter().collect())
}

/// What `String::from_utf8_lossy` makes of a byte string that is not valid UTF-8.
pub uninterp spec fn lossy(bytes: Seq<u8>) -> Seq<char>;

/// Calls `String::from_utf8_lossy`. The claim is that valid bytes are decoded as they
/// are, and that otherwise the result depends on the bytes alone; what invalid bytes
/// become is not stated.
#[verifier::external_body]
fn from_utf8_lossy(bytes: &[u8]) -> (s: String)
    ensures
        valid_utf8(bytes@) ==> s@ == decode_utf8(bytes@),
        !valid_utf8(bytes@) ==> s@ == lossy(bytes@),
{
    String::from_utf8_lossy(bytes).into_owned()
}

/// `char::from_u32` gives the character of a Unicode scalar value, and nothing for a
/// surrogate or a number beyond the last one.
pub assume_specification[ char::from_u32 ](i: u32) -> (r: Option<char>)
    ensures
        r == (if i < 0xD800 || 0xE000 <= i <= 0x10FFFF {
            Some(i as char)
        } else {
            None
        }),
;

/// The entries of a list, a later one replacing an earlier one under the same key.
pub open spec fn entry_map(v: Seq<(String, u32)>) -> Map<Seq<char>, u32>
    decreases v.len(),
{
    if v.len() == 0 {
        Map::empty()
    } else {
        entry_map(v.drop_last()).insert(v.last().0@, v.last().1)
    }
}

/// No key twice.
pub open spec fn distinct_keys(v: Seq<(String, u32)>) -> bool {
    forall|i: int, j: int|
        0 <= i < j < v.len() ==> (#[trigger] v[i]).0@ != (#[trigger] v[j]).0@
}

/// The printable character that stands for a byte: printable bytes stand for
/// themselves, the others take the characters from 256 on, in order.
pub open spec fn byte_char(b: u8) -> char {
    if b <= 32 {
        (256 + b) as char
    } else if 127 <= b <= 160 {
        (b + 162) as char
    } else if b == 173 {
        323 as char
    } else {
        b as char
    }
}

/// The byte that a character stands for.
pub open spec fn char_byte(c: char) -> Option<u8> {
    let u = c as u32;
    if 256 <= u <= 288 {
        Some((u - 256) as u8)
    } else if 289 <= u <= 322 {
        Some((u - 162) as u8)
    } else if u == 323 {
        Some(173u8)
    } else if 33 <= u <= 126 || 161 <= u <= 172 || 174 <= u <= 255 {
        Some(u as u8)
    } else {
        None
    }
}

/// Bytes and their characters stand for each other.
pub proof fn byte_characters_are_reversible(b: u8, c: char)
    ensures
        char_byte(byte_char(b)) == Some(b),
        char_byte(c) == Some(b) <==> c == byte_char(b),
{
}

/// Bytes that stand for themselves: the printable characters of Latin-1 but the soft hyphen.
pub open spec fn prints(b: int) -> bool {
    33 <= b <= 126 || (161 <= b <= 255 && b != 173)
}

/// How many bytes below `b` do not stand for themselves.
pub open spec fn others_below(b: int) -> int
    decreases b,
{
    if b <= 0 {
        0
    } else {
        others_below(b - 1) + if prints(b - 1) {
            0int
        } else {
            1
        }
    }
}

proof fn lemma_others_below(b: int)
    requires
        0 <= b <= 256,
    ensures
        others_below(b) == (if b <= 33 {
            b
        } else if b <= 127 {
            33
        } else if b <= 161 {
            b - 94
        } else if b <= 173 {
            67
        } else {
            68
        }),
    decreases b,
{
    if b > 0 {
        lemma_others_below(b - 1);
    }
}

/// Printable bytes stand for themselves; the others take the characters from 256 on, in their
/// order.
pub proof fn bytes_take_characters_in_order(b: u8)
    ensures
        prints(b as int) ==> byte_char(b) as u32 == b,
        !prints(b as int) ==> byte_char(b) as u32 == 256 + others_below(b as int),
{
    lemma_others_below(b as int);
}

/// The characters that stand for the 256 bytes.
pub fn bytes_to_unicode() -> (table: Vec<char>)
    ensures
        table@.len() == 256,
        forall|b: u8| #[trigger] table@[b as int] == byte_char(b),
{
    let mut table: Vec<char> = Vec::new();
    let mut extra: u32 = 0;
    let mut b: u32 = 0;
    while b < 256
        invariant
            b <= 256,
            table@.len() == b,
            extra == (if b <= 33 {
                b as int
            } else if b <= 127 {
                33
            } else if b <= 161 {
                33 + b - 127
            } else if b <= 173 {
                67
            } else {
                68
            }),
            forall|i: int| 0 <= i < b ==> #[trigger] table@[i] == byte_char(i as u8),
        decreases 256 - b,
    {
        let printable: bool = (33 <= b && b <= 126) || (161 <= b && b <= 172) || (174 <= b && b
            <= 255);
        if printable {
            table.push((b as u8) as char);
        } else {
            let c: char = match char::from_u32(256 + extra) {
                Some(c) => c,
                None => '?',
            };
            table.push(c);
            extra = extra + 1;
        }
        b = b + 1;
    }
    table
}

/// The byte that a character stands for.
pub fn char_to_byte(c: char) -> (r: Option<u8>)
    ensures
        r == char_byte(c),
{
    let u: u32 = c as u32;
    if 256 <= u && u <= 288 {
        Some((u - 256) as u8)
    } else if 289 <= u && u <= 322 {
        Some((u - 162) as u8)
    } else if u == 323 {
        Some(173)
    } else if (33 <= u && u <= 126) || (161 <= u && u <= 172) || (174 <= u && u <= 255) {
        Some(u as u8)
    } else {
        None
    }
}

/// Place of the first newline from `i` on, the length where there is none.
pub open spec fn newline_from(s: Seq<char>, i: int) -> int
    decreases s.len() - i,
{
    if 0 <= i < s.len() && s[i] != '\n' {
        newline_from(s, i + 1)
    } else {
        i
    }
}

/// The line without the carriage return at its end.
pub open spec fn strip_cr(l: Seq<char>) -> Seq<char> {
    if l.len() > 0 && l.last() == '\r' {
        l.drop_last()
    } else {
        l
    }
}

/// The lines of a text from `i` on. A newline ends a line, with or without a carriage
/// return before it; the last line may go without.
pub open spec fn lines_from(s: Seq<char>, i: int) -> Seq<Seq<char>>
    decreases s.len() - i,
{
    let e = newline_from(s, i);
    if !(0 <= i < s.len()) || e < i {
        Seq::empty()
    } else if e >= s.len() {
        seq![s.subrange(i, s.len() as int)]
    } else {
        seq![strip_cr(s.subrange(i, e))] + lines_from(s, e + 1)
    }
}

proof fn lemma_newline_from(s: Seq<char>, i: int)
    requires
        0 <= i <= s.len(),
    ensures
        i <= newline_from(s, i) <= s.len(),
    decreases s.len() - i,
{
    if i < s.len() && s[i] != '\n' {
        lemma_newline_from(s, i + 1);
    }
}

/// The lines of a text.
pub fn lines(text: &str) -> (out: Vec<String>)
    ensures
        texts(out@) == lines_from(text@, 0),
{
    let cs: Vec<char> = chars_of(text);
    let mut out: Vec<String> = Vec::new();
    let mut i: usize = 0;
    let ghost all = lines_from(text@, 0);
    assert(texts(out@) + all =~= all);
    while i < cs.len()
        invariant
            i <= cs.len(),
            cs@ == text@,
            all == lines_from(text@, 0),
            texts(out@) + lines_from(text@, i as int) == all,
        decreases cs.len() - i,
    {
        let mut e: usize = i;
        while e < cs.len() && cs[e] != '\n'
            invariant
                i <= e <= cs.len(),
                newline_from(cs@, i as int) == newline_from(cs@, e as int),
            decreases cs.len() - e,
        {
            e = e + 1;
        }
        let ghost before = texts(out@);
        if e == cs.len() {
            let l: String = text_of(&cs, i, e);
            out.push(l);
            proof {
                assert(texts(out@) =~= before.push(l@));
                assert(before + seq![l@] =~= texts(out@));
                assert(texts(out@) + lines_from(text@, e as int) =~= texts(out@));
            }
            i = e;
        } else {
            let end: usize = if e > i && cs[e - 1] == '\r' {
                e - 1
            } else {
                e
            };
            let l: String = text_of(&cs, i, end);
            out.push(l);
            proof {
                assert(l@ =~= strip_cr(text@.subrange(i as int, e as int)));
                assert(texts(out@) =~= before.push(l@));
                let rest = lines_from(text@, e + 1);
                assert(before + (seq![l@] + rest) =~= texts(out@) + rest);
            }
            i = e + 1;
        }
    }
    assert(texts(out@) + Seq::<Seq<char>>::empty() =~= texts(out@));
    out
}

/// The lines that are not empty.
pub open spec fn not_empty(ls: Seq<Seq<char>>) -> Seq<Seq<char>>
    decreases ls.len(),
{
    if ls.len() == 0 {
        Seq::empty()
    } else if ls.last().len() == 0 {
        not_empty(ls.drop_last())
    } else {
        not_empty(ls.drop_last()).push(ls.last())
    }
}

/// The rule lines of a merge file: all but the header and empty lines.
pub open spec fn rule_lines(text: Seq<char>) -> Seq<Seq<char>> {
    let ls = lines_from(text, 0);
    not_empty(if ls.len() == 0 {
        ls
    } else {
        ls.skip(1)
    })
}

/// A space occurs in the text.
pub open spec fn has_space(s: Seq<char>) -> bool {
    exists|i: int| 0 <= i < s.len() && #[trigger] s[i] == ' '
}

/// Rules by their line, a later line replacing an equal earlier one. The rank of a
/// rule is the place of its line.
pub open spec fn rank_map(ls: Seq<Seq<char>>) -> Map<Seq<char>, usize>
    decreases ls.len(),
{
    if ls.len() == 0 {
        Map::empty()
    } else {
        rank_map(ls.drop_last()).insert(ls.last(), (ls.len() - 1) as usize)
    }
}

/// The rank of the rule that merges `a` and `b`. The line of a rule is split at its
/// first space, so that `a` has none.
pub open spec fn rank(rules: Map<Seq<char>, usize>, a: Seq<char>, b: Seq<char>) -> Option<usize> {
    let line = a + seq![' '] + b;
    if !has_space(a) && rules.contains_key(line) {
        Some(rules[line])
    } else {
        None
    }
}

/// A rule applies to the parts at `i`.
pub open spec fn applies(rules: Map<Seq<char>, usize>, parts: Seq<Seq<char>>, i: int) -> bool {
    0 <= i < parts.len() - 1 && rank(rules, parts[i], parts[i + 1]) is Some
}

/// The merge to do next: the lowest rank, and the first place of that rank.
pub open spec fn is_next_merge(
    rules: Map<Seq<char>, usize>,
    parts: Seq<Seq<char>>,
    i: int,
) -> bool {
    &&& applies(rules, parts, i)
    &&& forall|j: int| #[trigger]
        applies(rules, parts, j) ==> {
            let (ri, rj) = (
                rank(rules, parts[i], parts[i + 1]).unwrap(),
                rank(rules, parts[j], parts[j + 1]).unwrap(),
            );
            ri < rj || (ri == rj && i <= j)
        }
}

/// The parts with the two at `i` merged.
pub open spec fn merge_at(parts: Seq<Seq<char>>, i: int) -> Seq<Seq<char>> {
    parts.take(i).push(parts[i] + parts[i + 1]) + parts.skip(i + 2)
}

/// The parts after all merges.
pub open spec fn merged(rules: Map<Seq<char>, usize>, parts: Seq<Seq<char>>) -> Seq<Seq<char>>
    decreases parts.len(),
{
    if exists|i: int| is_next_merge(rules, parts, i) {
        let i = choose|i: int| is_next_merge(rules, parts, i);
        if 0 <= i < parts.len() - 1 {
            merged(rules, merge_at(parts, i))
        } else {
            parts
        }
    } else {
        parts
    }
}

/// There is one next merge at most.
proof fn lemma_next_merge(
    rules: Map<Seq<char>, usize>,
    parts: Seq<Seq<char>>,
    i: int,
    j: int,
)
    requires
        is_next_merge(rules, parts, i),
        is_next_merge(rules, parts, j),
    ensures
        i == j,
{
    assert(applies(rules, parts, i) && applies(rules, parts, j));
}

proof fn lemma_merge_keeps_text(parts: Seq<Seq<char>>, i: int)
    requires
        0 <= i < parts.len() - 1,
    ensures
        concat(merge_at(parts, i)) == concat(parts),
{
    let a = parts.take(i);
    let b = parts.skip(i + 2);
    let (x, y) = (parts[i], parts[i + 1]);
    assert(parts =~= a.push(x).push(y) + b);
    lemma_concat_add(a.push(x).push(y), b);
    lemma_concat_push(a.push(x), y);
    lemma_concat_push(a, x);
    lemma_concat_add(a.push(x + y), b);
    lemma_concat_push(a, x + y);
    assert(concat(a) + x + y =~= concat(a) + (x + y));
}

/// Merging loses nothing: the parts in a row are the text they came from.
pub proof fn merging_keeps_the_text(rules: Map<Seq<char>, usize>, parts: Seq<Seq<char>>)
    ensures
        concat(merged(rules, parts)) == concat(parts),
    decreases parts.len(),
{
    if exists|i: int| is_next_merge(rules, parts, i) {
        let i = choose|i: int| is_next_merge(rules, parts, i);
        if 0 <= i < parts.len() - 1 {
            lemma_merge_keeps_text(parts, i);
            merging_keeps_the_text(rules, merge_at(parts, i));
        }
    }
}

/// The rule that joins two parts: a line of the merge file that is the first of them, which has
/// no space in it, a space, and the second.
pub open spec fn joins(rules: Map<Seq<char>, usize>, a: Seq<char>, b: Seq<char>) -> bool {
    &&& forall|i: int| 0 <= i < a.len() ==> #[trigger] a[i] != ' '
    &&& rules.contains_key(a + seq![' '] + b)
}

/// A rule joins the parts at `j` and behind it.
pub open spec fn neighbours_join(
    rules: Map<Seq<char>, usize>,
    parts: Seq<Seq<char>>,
    j: int,
) -> bool {
    0 <= j < parts.len() - 1 && joins(rules, parts[j], parts[j + 1])
}

/// The place in the merge file of the rule for the parts at `j` and behind it.
pub open spec fn neighbours_place(
    rules: Map<Seq<char>, usize>,
    parts: Seq<Seq<char>>,
    j: int,
) -> usize {
    rules[parts[j] + seq![' '] + parts[j + 1]]
}

proof fn lemma_joins(rules: Map<Seq<char>, usize>, a: Seq<char>, b: Seq<char>)
    ensures
        joins(rules, a, b) <==> rank(rules, a, b) is Some,
        joins(rules, a, b) ==> rank(rules, a, b) == Some(rules[a + seq![' '] + b]),
{
    if has_space(a) {
        let i = choose|i: int| 0 <= i < a.len() && #[trigger] a[i] == ' ';
        assert(a[i] == ' ');
    } else {
        assert forall|i: int| 0 <= i < a.len() implies #[trigger] a[i] != ' ' by {
        }
    }
}

/// Of the pairs of neighbours that a rule joins, the one whose rule stands first in the merge
/// file is joined, and of several such pairs the leftmost; then the same goes on.
pub proof fn earliest_rule_merges_first(
    rules: Map<Seq<char>, usize>,
    parts: Seq<Seq<char>>,
    i: int,
)
    requires
        neighbours_join(rules, parts, i),
        forall|j: int|
            j != i && #[trigger] neighbours_join(rules, parts, j) ==> {
                let (a, b) = (neighbours_place(rules, parts, i), neighbours_place(rules, parts, j));
                a < b || (a == b && i < j)
            },
    ensures
        merged(rules, parts) == merged(
            rules,
            parts.take(i) + seq![parts[i] + parts[i + 1]] + parts.skip(i + 2),
        ),
{
    lemma_joins(rules, parts[i], parts[i + 1]);
    assert forall|j: int| #[trigger] applies(rules, parts, j) implies {
        let (ri, rj) = (
            rank(rules, parts[i], parts[i + 1]).unwrap(),
            rank(rules, parts[j], parts[j + 1]).unwrap(),
        );
        ri < rj || (ri == rj && i <= j)
    } by {
        lemma_joins(rules, parts[j], parts[j + 1]);
        assert(neighbours_join(rules, parts, j));
    }
    assert(is_next_merge(rules, parts, i));
    let k = choose|k: int| is_next_merge(rules, parts, k);
    lemma_next_merge(rules, parts, i, k);
    assert(merge_at(parts, i) =~= parts.take(i) + seq![parts[i] + parts[i + 1]] + parts.skip(i + 2));
}

/// Where no rule joins two neighbours, nothing is merged.
pub proof fn merging_ends_when_no_rule_is_left(rules: Map<Seq<char>, usize>, parts: Seq<Seq<char>>)
    requires
        forall|j: int| !#[trigger] neighbours_join(rules, parts, j),
    ensures
        merged(rules, parts) == parts,
{
    assert forall|i: int| !is_next_merge(rules, parts, i) by {
        if is_next_merge(rules, parts, i) {
            assert(applies(rules, parts, i));
            lemma_joins(rules, parts[i], parts[i + 1]);
            assert(neighbours_join(rules, parts, i));
        }
    }
}

/// A rule ranks by its place in the list of rules, and by the last where it stands there more
/// than once.
pub proof fn rules_rank_by_their_place(ls: Seq<Seq<char>>, line: Seq<char>)
    requires
        ls.len() <= usize::MAX,
    ensures
        rank_map(ls).contains_key(line) <==> ls.contains(line),
        ls.contains(line) ==> {
            let k = rank_map(ls)[line] as int;
            &&& 0 <= k < ls.len()
            &&& ls[k] == line
            &&& forall|j: int| k < j < ls.len() ==> #[trigger] ls[j] != line
        },
    decreases ls.len(),
{
    if ls.len() > 0 {
        let front = ls.drop_last();
        rules_rank_by_their_place(front, line);
        if ls.last() == line {
            assert(ls[ls.len() - 1] == line);
        } else {
            if front.contains(line) {
                let j = choose|j: int| 0 <= j < front.len() && front[j] == line;
                assert(ls[j] == line);
                let k = rank_map(front)[line] as int;
                assert(ls[k] == front[k]);
                assert forall|j: int| k < j < ls.len() implies #[trigger] ls[j] != line by {
                    if j < front.len() {
                        assert(front[j] == ls[j]);
                    }
                }
            }
            if ls.contains(line) {
                let j = choose|j: int| 0 <= j < ls.len() && ls[j] == line;
                assert(front[j] == line);
            }
        }
    }
}

/// Every character as a part of its own.
pub open spec fn singles(s: Seq<char>) -> Seq<Seq<char>> {
    s.map_values(|c: char| seq![c])
}

/// A piece with every byte written as one character.
pub open spec fn mapped(p: Seq<char>) -> Seq<char> {
    encode_utf8(p).map_values(|b: u8| byte_char(b))
}

/// The parts of a piece after all merges.
pub open spec fn piece_parts(rules: Map<Seq<char>, usize>, p: Seq<char>) -> Seq<Seq<char>> {
    merged(rules, singles(mapped(p)))
}

/// The parts of pieces, one piece after the other.
pub open spec fn parts_of(rules: Map<Seq<char>, usize>, ps: Seq<Seq<char>>) -> Seq<Seq<char>>
    decreases ps.len(),
{
    if ps.len() == 0 {
        Seq::empty()
    } else {
        parts_of(rules, ps.drop_last()) + piece_parts(rules, ps.last())
    }
}

/// A text is encoded piece by piece: the parts of a run of pieces are those of each of them in
/// turn, and the parts of one are its characters, a byte each, after all merges.
pub proof fn pieces_are_encoded_apart(
    rules: Map<Seq<char>, usize>,
    a: Seq<Seq<char>>,
    b: Seq<Seq<char>>,
    p: Seq<char>,
)
    ensures
        parts_of(rules, a + b) == parts_of(rules, a) + parts_of(rules, b),
        parts_of(rules, seq![p]) == merged(
            rules,
            Seq::new(encode_utf8(p).len(), |i: int| seq![byte_char(encode_utf8(p)[i])]),
        ),
    decreases b.len(),
{
    let one = seq![p];
    assert(one.drop_last() =~= Seq::empty());
    assert(singles(mapped(p)) =~= Seq::new(
        encode_utf8(p).len(),
        |i: int| seq![byte_char(encode_utf8(p)[i])],
    ));
    assert(parts_of(rules, one.drop_last()) =~= Seq::empty());
    assert(parts_of(rules, one) =~= piece_parts(rules, p));
    if b.len() == 0 {
        assert(a + b =~= a);
        assert(parts_of(rules, a) + parts_of(rules, b) =~= parts_of(rules, a));
    } else {
        assert((a + b).drop_last() =~= a + b.drop_last());
        pieces_are_encoded_apart(rules, a, b.drop_last(), p);
        assert(parts_of(rules, a + b) =~= parts_of(rules, a) + parts_of(rules, b));
    }
}

/// What a `Tokenizer` holds.
#[verifier::ext_equal]
pub struct TokenizerView {
    /// Token ids.
    pub vocab: Map<Seq<char>, u32>,
    /// A token for every id.
    pub inv: Map<u32, Seq<char>>,
    /// Ranks of the merge rules, by their line.
    pub rules: Map<Seq<char>, usize>,
}

impl TokenizerView {
    /// Every id has a token with that id.
    pub open spec fn wf(self) -> bool {
        &&& forall|t: Seq<char>| #[trigger]
            self.vocab.contains_key(t) ==> self.inv.contains_key(self.vocab[t])
        &&& forall|id: u32| #[trigger]
            self.inv.contains_key(id) ==> self.vocab.contains_key(self.inv[id])
                && self.vocab[self.inv[id]] == id
    }

    /// The parts of a text.
    pub open spec fn parts(self, text: Seq<char>) -> Seq<Seq<char>> {
        parts_of(self.rules, pieces(text))
    }

    /// Every part is in the vocabulary.
    pub open spec fn knows(self, parts: Seq<Seq<char>>) -> bool {
        forall|i: int| 0 <= i < parts.len() ==> self.vocab.contains_key(#[trigger] parts[i])
    }

    /// The ids of parts.
    pub open spec fn ids(self, parts: Seq<Seq<char>>) -> Seq<u32> {
        parts.map_values(|p: Seq<char>| self.vocab[p])
    }

    /// The token of an id, empty where no token has it.
    pub open spec fn token(self, id: u32) -> Seq<char> {
        if self.inv.contains_key(id) {
            self.inv[id]
        } else {
            Seq::empty()
        }
    }

    /// The tokens of ids.
    pub open spec fn tokens(self, ids: Seq<u32>) -> Seq<Seq<char>> {
        ids.map_values(|id: u32| self.token(id))
    }

    /// The text that ids stand for.
    pub open spec fn decoded(self, ids: Seq<u32>) -> Seq<char> {
        bytes_text(unmapped(concat(self.tokens(ids))))
    }
}

/// The text of a byte string.
pub open spec fn bytes_text(bytes: Seq<u8>) -> Seq<char> {
    if valid_utf8(bytes) {
        decode_utf8(bytes)
    } else {
        lossy(bytes)
    }
}

/// The bytes that characters stand for; characters that stand for none are dropped.
pub open spec fn unmapped(s: Seq<char>) -> Seq<u8>
    decreases s.len(),
{
    if s.len() == 0 {
        Seq::empty()
    } else {
        match char_byte(s.last()) {
            Some(b) => unmapped(s.drop_last()).push(b),
            None => unmapped(s.drop_last()),
        }
    }
}

proof fn lemma_encode_add(a: Seq<char>, b: Seq<char>)
    ensures
        encode_utf8(a + b) == encode_utf8(a) + encode_utf8(b),
    decreases a.len(),
{
    if a.len() == 0 {
        assert(a + b =~= b);
        assert(encode_utf8(a) + encode_utf8(b) =~= encode_utf8(b));
    } else {
        assert((a + b).drop_first() =~= a.drop_first() + b);
        lemma_encode_add(a.drop_first(), b);
        assert((a + b)[0] == a[0]);
        assert(encode_utf8(a + b) =~= encode_utf8(a) + encode_utf8(b));
    }
}

proof fn lemma_mapped_add(a: Seq<char>, b: Seq<char>)
    ensures
        mapped(a + b) == mapped(a) + mapped(b),
{
    lemma_encode_add(a, b);
    assert(mapped(a + b) =~= mapped(a) + mapped(b));
}

proof fn lemma_concat_singles(s: Seq<char>)
    ensures
        concat(singles(s)) == s,
    decreases s.len(),
{
    if s.len() == 0 {
        assert(concat(singles(s)) =~= s);
    } else {
        assert(singles(s) =~= singles(s.drop_last()).push(seq![s.last()]));
        lemma_concat_singles(s.drop_last());
        lemma_concat_push(singles(s.drop_last()), seq![s.last()]);
        assert(concat(singles(s)) =~= s);
    }
}

proof fn lemma_parts_text(rules: Map<Seq<char>, usize>, ps: Seq<Seq<char>>)
    ensures
        concat(parts_of(rules, ps)) == mapped(concat(ps)),
    decreases ps.len(),
{
    if ps.len() == 0 {
        assert(mapped(concat(ps)) =~= Seq::empty());
    } else {
        let front = ps.drop_last();
        let p = ps.last();
        lemma_parts_text(rules, front);
        lemma_concat_add(parts_of(rules, front), piece_parts(rules, p));
        merging_keeps_the_text(rules, singles(mapped(p)));
        lemma_concat_singles(mapped(p));
        assert(ps =~= front.push(p));
        lemma_concat_push(front, p);
        lemma_mapped_add(concat(front), p);
    }
}

proof fn lemma_unmapped(bs: Seq<u8>)
    ensures
        unmapped(bs.map_values(|b: u8| byte_char(b))) == bs,
    decreases bs.len(),
{
    let s = bs.map_values(|b: u8| byte_char(b));
    if bs.len() == 0 {
        assert(unmapped(s) =~= bs);
    } else {
        let t = bs.drop_last();
        assert(s.drop_last() =~= t.map_values(|b: u8| byte_char(b)));
        lemma_unmapped(t);
        byte_characters_are_reversible(bs.last(), byte_char(bs.last()));
        assert(unmapped(s) =~= bs);
    }
}

/// Decoding gives back what was encoded: where no two tokens share an id and every
/// part of the text is in the vocabulary, decoding the text's ids gives the text.
pub proof fn decoding_undoes_encoding(t: TokenizerView, text: Seq<char>)
    requires
        t.wf(),
        forall|a: Seq<char>, b: Seq<char>| #[trigger]
            t.vocab.contains_key(a) && #[trigger] t.vocab.contains_key(b) && t.vocab[a]
                == t.vocab[b] ==> a == b,
        t.knows(t.parts(text)),
    ensures
        t.decoded(t.ids(t.parts(text))) == text,
{
    let parts = t.parts(text);
    let ids = t.ids(parts);
    assert(t.tokens(ids) =~= parts) by {
        assert forall|i: int| 0 <= i < parts.len() implies t.tokens(ids)[i] == parts[i] by {
            let p = parts[i];
            assert(t.vocab.contains_key(p));
            assert(t.inv.contains_key(t.vocab[p]));
            assert(t.vocab.contains_key(t.inv[t.vocab[p]]));
        }
    }
    lemma_parts_text(t.rules, pieces(text));
    pieces_put_together_are_the_text(text, crate::pretoken::all_props(text));
    lemma_unmapped(encode_utf8(text));
    encode_utf8_valid_utf8(text);
    encode_utf8_decode_utf8(text);
}

/// Why a tokenizer cannot be made.
#[derive(Debug, Clone, Copy, PartialEq, Eq, Structural)]
pub enum TokenizerError {
    /// The vocabulary is no object of names and numbers.
    BadVocab,
    /// The rule line of that number has no space.
    BadMerge(usize),
}

/// The first rule line without a space.
pub open spec fn is_first_bad(ls: Seq<Seq<char>>, k: int) -> bool {
    &&& 0 <= k < ls.len()
    &&& !has_space(ls[k])
    &&& forall|j: int| 0 <= j < k ==> has_space(#[trigger] ls[j])
}

/// Every rule line has a space.
pub open spec fn all_rules(ls: Seq<Seq<char>>) -> bool {
    forall|j: int| 0 <= j < ls.len() ==> has_space(#[trigger] ls[j])
}

/// True where a space occurs in the text.
fn contains_space(s: &str) -> (r: bool)
    ensures
        r == has_space(s@),
{
    let cs: Vec<char> = chars_of(s);
    let mut i: usize = 0;
    while i < cs.len()
        invariant
            i <= cs.len(),
            cs@ == s@,
            forall|j: int| 0 <= j < i ==> #[trigger] cs@[j] != ' ',
        decreases cs.len() - i,
    {
        if cs[i] == ' ' {
            assert(s@[i as int] == ' ');
            return true;
        }
        i = i + 1;
    }
    false
}

/// Reads the rules of a merge file.
fn read_rules(text: &str) -> (r: Result<StringHashMap<usize>, TokenizerError>)
    ensures
        match r {
            Ok(m) => all_rules(rule_lines(text@)) && m@ == rank_map(rule_lines(text@)),
            Err(TokenizerError::BadMerge(k)) => is_first_bad(rule_lines(text@), k as int),
            Err(TokenizerError::BadVocab) => false,
        },
{
    let ls: Vec<String> = lines(text);
    let ghost all = lines_from(text@, 0);
    let ghost body = if all.len() == 0 {
        all
    } else {
        all.skip(1)
    };
    let mut rules: StringHashMap<usize> = StringHashMap::new();
    let mut n: usize = 0;
    let mut i: usize = 1;
    proof {
        assert(body.take(0) =~= Seq::empty());
        assert(rank_map(not_empty(body.take(0))) =~= Map::empty());
    }
    while i < ls.len()
        invariant
            1 <= i,
            ls@.len() > 0 ==> i <= ls@.len(),
            ls@.len() == 0 ==> i == 1,
            texts(ls@) == all,
            all == lines_from(text@, 0),
            body == (if all.len() == 0 {
                all
            } else {
                all.skip(1)
            }),
            rule_lines(text@) == not_empty(body),
            n < i,
            n == not_empty(body.take(i - 1)).len(),
            all_rules(not_empty(body.take(i - 1))),
            rules@ == rank_map(not_empty(body.take(i - 1))),
            i - 1 <= body.len(),
        decreases ls.len() - i,
    {
        let l: &String = &ls[i];
        let ghost t = body.take(i as int);
        let ghost before = not_empty(body.take(i - 1));
        proof {
            assert(t.drop_last() =~= body.take(i - 1));
            assert(t.last() == texts(ls@)[i as int]);
            assert(t.last() == l@);
        }
        if !l.as_str().is_empty() {
            assert(not_empty(t) == before.push(l@));
            if !contains_space(l.as_str()) {
                proof {
                    lemma_not_empty_prefix(body, i as int);
                    let rl = not_empty(body);
                    assert(rl[n as int] == l@);
                    assert forall|j: int| 0 <= j < n implies has_space(#[trigger] rl[j]) by {
                        assert(rl[j] == before[j]);
                    }
                }
                return Err(TokenizerError::BadMerge(n));
            }
            rules.insert(l.clone(), n);
            proof {
                assert(not_empty(t).drop_last() =~= before);
                assert forall|j: int| 0 <= j < not_empty(t).len() implies has_space(
                    #[trigger] not_empty(t)[j],
                ) by {
                    if j < before.len() {
                        assert(not_empty(t)[j] == before[j]);
                    }
                }
            }
            n = n + 1;
        }
        i = i + 1;
    }
    proof {
        if ls@.len() > 0 {
            assert(body.take(i - 1) =~= body);
        } else {
            assert(body =~= body.take(0));
        }
    }
    Ok(rules)
}

/// The lines kept of the front of a list are the front of the lines kept.
proof fn lemma_not_empty_prefix(ls: Seq<Seq<char>>, k: int)
    requires
        0 <= k <= ls.len(),
    ensures
        not_empty(ls.take(k)).len() <= not_empty(ls).len(),
        forall|j: int|
            0 <= j < not_empty(ls.take(k)).len() ==> #[trigger] not_empty(ls)[j] == not_empty(
                ls.take(k),
            )[j],
    decreases ls.len() - k,
{
    if k < ls.len() {
        lemma_not_empty_prefix(ls, k + 1);
        let t = ls.take(k + 1);
        assert(t.drop_last() =~= ls.take(k));
        let a = not_empty(ls.take(k));
        let b = not_empty(t);
        assert forall|j: int| 0 <= j < a.len() implies #[trigger] not_empty(ls)[j] == a[j] by {
            assert(b[j] == a[j]);
            assert(not_empty(ls)[j] == b[j]);
        }
    } else {
        assert(ls.take(k) =~= ls);
    }
}

/// The tokens of the map's values.
pub open spec fn string_map(m: Map<u32, String>) -> Map<u32, Seq<char>> {
    m.map_values(|s: String| s@)
}

pub struct Tokenizer {
    vocab: StringHashMap<u32>,
    inv_vocab: HashMap<u32, String>,
    merges: StringHashMap<usize>,
}

impl View for Tokenizer {
    type V = TokenizerView;

    closed spec fn view(&self) -> TokenizerView {
        TokenizerView {
            vocab: self.vocab@,
            inv: string_map(self.inv_vocab@),
            rules: self.merges@,
        }
    }
}

/// The keys of a list of entries are the keys of its map.
proof fn lemma_entry_keys(v: Seq<(String, u32)>)
    ensures
        forall|t: Seq<char>| #[trigger] entry_map(v).contains_key(t) ==> exists|i: int|
            0 <= i < v.len() && (#[trigger] v[i]).0@ == t && v[i].1 == entry_map(v)[t],
    decreases v.len(),
{
    if v.len() > 0 {
        let u = v.drop_last();
        lemma_entry_keys(u);
        assert forall|t: Seq<char>| #[trigger] entry_map(v).contains_key(t) implies exists|i: int|
            0 <= i < v.len() && (#[trigger] v[i]).0@ == t && v[i].1 == entry_map(v)[t] by {
            if t == v.last().0@ {
                assert(v[v.len() - 1].0@ == t);
            } else {
                assert(entry_map(u).contains_key(t));
                let i = choose|i: int|
                    0 <= i < u.len() && (#[trigger] u[i]).0@ == t && u[i].1 == entry_map(u)[t];
                assert(v[i].0@ == t);
            }
        }
    }
}

impl Tokenizer {
    /// Makes a tokenizer from the entries of a vocabulary and the text of a merge file.
    /// Which token stands for an id that several have is not stated.
    pub fn from_parts(entries: Vec<(String, u32)>, merges_txt: &str) -> (r: Result<
        Tokenizer,
        TokenizerError,
    >)
        ensures
            match r {
                Ok(t) => {
                    &&& t@.wf()
                    &&& t@.vocab == entry_map(entries@)
                    &&& t@.rules == rank_map(rule_lines(merges_txt@))
                    &&& all_rules(rule_lines(merges_txt@))
                },
                Err(TokenizerError::BadMerge(k)) => is_first_bad(
                    rule_lines(merges_txt@),
                    k as int,
                ),
                Err(TokenizerError::BadVocab) => false,
            },
    {
        let mut vocab: StringHashMap<u32> = StringHashMap::new();
        let mut i: usize = 0;
        assert(entry_map(entries@.take(0)) =~= Map::empty());
        while i < entries.len()
            invariant
                i <= entries.len(),
                vocab@ == entry_map(entries@.take(i as int)),
            decreases entries.len() - i,
        {
            proof {
                let t = entries@.take(i + 1);
                assert(t.drop_last() =~= entries@.take(i as int));
                assert(t.last() == entries@[i as int]);
            }
            vocab.insert(entries[i].0.clone(), entries[i].1);
            i = i + 1;
        }
        assert(entries@.take(i as int) =~= entries@);
        let mut inv_vocab: HashMap<u32, String> = HashMap::new();
        let mut k: usize = 0;
        while k < entries.len()
            invariant
                k <= entries.len(),
                vocab@ == entry_map(entries@),
                forall|id: u32| #[trigger]
                    inv_vocab@.contains_key(id) ==> vocab@.contains_key(inv_vocab@[id]@)
                        && vocab@[inv_vocab@[id]@] == id,
                forall|j: int|
                    0 <= j < k && vocab@.contains_key((#[trigger] entries@[j]).0@)
                        && vocab@[entries@[j].0@] == entries@[j].1 ==> inv_vocab@.contains_key(
                        entries@[j].1,
                    ),
            decreases entries.len() - k,
        {
            let token: &String = &entries[k].0;
            let id: u32 = entries[k].1;
            match vocab.get(token.as_str()) {
                Some(v) => {
                    if *v == id {
                        inv_vocab.insert(id, token.clone());
                    }
                },
                None => {},
            }
            k = k + 1;
        }
        match read_rules(merges_txt) {
            Err(e) => Err(e),
            Ok(merges) => {
                let t = Tokenizer { vocab, inv_vocab, merges };
                proof {
                    lemma_entry_keys(entries@);
                    assert forall|x: Seq<char>| #[trigger] t@.vocab.contains_key(
                        x,
                    ) implies t@.inv.contains_key(t@.vocab[x]) by {
                        let j = choose|j: int|
                            0 <= j < entries@.len() && (#[trigger] entries@[j]).0@ == x
                                && entries@[j].1 == entry_map(entries@)[x];
                        assert(inv_vocab@.contains_key(entries@[j].1));
                    }
                    assert forall|id: u32| #[trigger] t@.inv.contains_key(
                        id,
                    ) implies t@.vocab.contains_key(t@.inv[id]) && t@.vocab[t@.inv[id]] == id by {
                        assert(inv_vocab@.contains_key(id));
                    }
                }
                Ok(t)
            },
        }
    }

    /// Makes a tokenizer from the texts of `vocab.json` and `merges.txt`.
    pub fn load(vocab_json: &str, merges_txt: &str) -> (r: Result<Tokenizer, TokenizerError>)
        ensures
            match r {
                Ok(t) => {
                    &&& t@.wf()
                    &&& json_vocab(vocab_json@) == Some(t@.vocab)
                    &&& t@.rules == rank_map(rule_lines(merges_txt@))
                    &&& all_rules(rule_lines(merges_txt@))
                },
                Err(TokenizerError::BadVocab) => json_vocab(vocab_json@) is None,
                Err(TokenizerError::BadMerge(k)) => json_vocab(vocab_json@) is Some && is_first_bad(
                    rule_lines(merges_txt@),
                    k as int,
                ),
            },
    {
        match parse_vocab(vocab_json) {
            Err(_) => Err(TokenizerError::BadVocab),
            Ok(entries) => Tokenizer::from_parts(entries, merges_txt),
        }
    }

    /// The rank of the rule that merges two parts.
    fn rank_of(&self, a: &str, b: &str) -> (r: Option<usize>)
        ensures
            r == rank(self@.rules, a@, b@),
    {
        if contains_space(a) {
            return None;
        }
        let mut key: String = a.to_owned();
        key.push(' ');
        key.append(b);
        assert(key@ =~= a@ + seq![' '] + b@);
        match self.merges.get(key.as_str()) {
            Some(r) => Some(*r),
            None => None,
        }
    }

    /// The place of the next merge.
    fn next_merge(&self, parts: &Vec<String>) -> (r: Option<usize>)
        ensures
            match r {
                Some(i) => is_next_merge(self@.rules, texts(parts@), i as int),
                None => forall|j: int| !#[trigger] applies(self@.rules, texts(parts@), j),
            },
    {
        let ghost ps = texts(parts@);
        let ghost rules = self@.rules;
        let mut best: Option<(usize, usize)> = None;
        let mut i: usize = 0;
        while parts.len() > 1 && i < parts.len() - 1
            invariant
                i <= parts.len(),
                ps == texts(parts@),
                rules == self@.rules,
                match best {
                    Some((r, k)) => {
                        &&& k < i
                        &&& applies(rules, ps, k as int)
                        &&& rank(rules, ps[k as int], ps[k + 1]) == Some(r)
                        &&& forall|j: int|
                            0 <= j < i && #[trigger] applies(rules, ps, j) ==> {
                                let rj = rank(rules, ps[j], ps[j + 1]).unwrap();
                                r < rj || (r == rj && k <= j)
                            }
                    },
                    None => forall|j: int| 0 <= j < i ==> !#[trigger] applies(rules, ps, j),
                },
            decreases parts.len() - i,
        {
            let here: Option<usize> = self.rank_of(parts[i].as_str(), parts[i + 1].as_str());
            assert(ps[i as int] == parts@[i as int]@ && ps[i + 1] == parts@[i + 1]@);
            match here {
                Some(r) => {
                    assert(applies(rules, ps, i as int));
                    match best {
                        Some((b, k)) => {
                            if r < b {
                                best = Some((r, i));
                            }
                        },
                        None => {
                            best = Some((r, i));
                        },
                    }
                },
                None => {
                    assert(!applies(rules, ps, i as int));
                },
            }
            i = i + 1;
        }
        match best {
            Some((r, k)) => Some(k),
            None => None,
        }
    }

    /// Merges the characters of a token until no rule applies.
    pub fn bpe(&self, token: &str) -> (out: Vec<String>)
        ensures
            texts(out@) == merged(self@.rules, singles(token@)),
    {
        let cs: Vec<char> = chars_of(token);
        let mut parts: Vec<String> = Vec::new();
        let ghost start = singles(token@);
        let ghost rules = self@.rules;
        let mut k: usize = 0;
        while k < cs.len()
            invariant
                k <= cs.len(),
                cs@ == token@,
                start == singles(token@),
                texts(parts@) == start.take(k as int),
            decreases cs.len() - k,
        {
            let ghost before = texts(parts@);
            let s: String = text_of(&cs, k, k + 1);
            parts.push(s);
            proof {
                assert(s@ =~= seq![cs@[k as int]]);
                assert(texts(parts@) =~= before.push(s@));
                assert(start.take(k + 1) =~= start.take(k as int).push(start[k as int]));
            }
            k = k + 1;
        }
        assert(start.take(k as int) =~= start);
        loop
            invariant
                rules == self@.rules,
                merged(rules, texts(parts@)) == merged(rules, start),
            ensures
                texts(parts@) == merged(rules, start),
            decreases parts.len(),
        {
            let ghost ps = texts(parts@);
            match self.next_merge(&parts) {
                None => {
                    proof {
                        assert forall|j: int| !is_next_merge(rules, ps, j) by {
                            assert(!applies(rules, ps, j));
                        }
                    }
                    break;
                },
                Some(i) => {
                    proof {
                        let k = choose|k: int| is_next_merge(rules, ps, k);
                        lemma_next_merge(rules, ps, i as int, k);
                        assert(applies(rules, ps, i as int));
                    }
                    let right: String = parts.remove(i + 1);
                    let left: String = parts.remove(i);
                    let both: String = left.concat(right.as_str());
                    parts.insert(i, both);
                    assert(texts(parts@) =~= merge_at(ps, i as int));
                },
            }
        }
        parts
    }

    /// The parts of a piece after all merges.
    fn piece(&self, table: &Vec<char>, p: &String) -> (out: Vec<String>)
        requires
            table@.len() == 256,
            forall|b: u8| #[trigger] table@[b as int] == byte_char(b),
        ensures
            texts(out@) == piece_parts(self@.rules, p@),
    {
        let bytes: &[u8] = p.as_str().as_bytes();
        let mut token: String = String::new();
        let ghost want = mapped(p@);
        let mut i: usize = 0;
        while i < bytes.len()
            invariant
                i <= bytes.len(),
                bytes@ == encode_utf8(p@),
                want == mapped(p@),
                table@.len() == 256,
                forall|b: u8| #[trigger] table@[b as int] == byte_char(b),
                token@ == want.take(i as int),
            decreases bytes.len() - i,
        {
            let b: u8 = bytes[i];
            token.push(table[b as usize]);
            proof {
                assert(table@[b as int] == byte_char(b));
                assert(want.take(i + 1) =~= want.take(i as int).push(want[i as int]));
            }
            i = i + 1;
        }
        assert(want.take(i as int) =~= want);
        self.bpe(token.as_str())
    }

    /// The parts of a list of pieces after all merges.
    pub fn parts(&self, ps: &Vec<String>) -> (out: Vec<String>)
        ensures
            texts(out@) == parts_of(self@.rules, texts(ps@)),
    {
        let table: Vec<char> = bytes_to_unicode();
        let mut out: Vec<String> = Vec::new();
        let ghost all = texts(ps@);
        let ghost rules = self@.rules;
        let mut i: usize = 0;
        assert(all.take(0) =~= Seq::empty());
        assert(texts(out@) =~= parts_of(rules, all.take(0)));
        while i < ps.len()
            invariant
                i <= ps.len(),
                all == texts(ps@),
                rules == self@.rules,
                table@.len() == 256,
                forall|b: u8| #[trigger] table@[b as int] == byte_char(b),
                texts(out@) == parts_of(rules, all.take(i as int)),
            decreases ps.len() - i,
        {
            let mut more: Vec<String> = self.piece(&table, &ps[i]);
            let ghost before = out@;
            let ghost added = more@;
            out.append(&mut more);
            proof {
                let t = all.take(i + 1);
                assert(t.drop_last() =~= all.take(i as int));
                assert(t.last() == ps@[i as int]@);
                assert(texts(out@) =~= texts(before) + texts(added));
            }
            i = i + 1;
        }
        assert(all.take(i as int) =~= all);
        out
    }

    /// The ids of parts, or the first part that the vocabulary does not hold.
    pub fn look_up(&self, parts: &Vec<String>) -> (r: Result<Vec<u32>, String>)
        ensures
            match r {
                Ok(ids) => self@.knows(texts(parts@)) && ids@ == self@.ids(texts(parts@)),
                Err(p) => exists|k: int|
                    0 <= k < parts@.len() && (#[trigger] parts@[k])@ == p@
                        && !self@.vocab.contains_key(p@) && self@.knows(texts(parts@).take(k)),
            },
    {
        let ghost ps = texts(parts@);
        let mut ids: Vec<u32> = Vec::new();
        let mut i: usize = 0;
        while i < parts.len()
            invariant
                i <= parts.len(),
                ps == texts(parts@),
                self@.knows(ps.take(i as int)),
                ids@ == self@.ids(ps.take(i as int)),
            decreases parts.len() - i,
        {
            let p: &String = &parts[i];
            assert(ps[i as int] == p@);
            match self.vocab.get(p.as_str()) {
                None => {
                    assert(parts@[i as int]@ == p@);
                    return Err(p.clone());
                },
                Some(id) => {
                    ids.push(*id);
                },
            }
            proof {
                let t = ps.take(i + 1);
                assert forall|j: int| 0 <= j < t.len() implies self@.vocab.contains_key(
                    #[trigger] t[j],
                ) by {
                    if j < i {
                        assert(ps.take(i as int)[j] == t[j]);
                    }
                }
                assert(ids@ =~= self@.ids(t));
            }
            i = i + 1;
        }
        assert(ps.take(i as int) =~= ps);
        Ok(ids)
    }

    /// The ids of a text whose every part is in the vocabulary.
    pub fn encode(&self, text: &str) -> (ids: Vec<u32>)
        requires
            self@.knows(self@.parts(text@)),
        ensures
            ids@ == self@.ids(self@.parts(text@)),
    {
        let parts: Vec<String> = self.parts(&pretokenize(text));
        match self.look_up(&parts) {
            Ok(ids) => ids,
            Err(p) => {
                assert(false) by {
                    let ps = texts(parts@);
                    let k = choose|k: int|
                        0 <= k < parts@.len() && (#[trigger] parts@[k])@ == p@
                            && !self@.vocab.contains_key(p@) && self@.knows(ps.take(k));
                    assert(ps[k] == p@);
                }
                Vec::new()
            },
        }
    }

    /// The ids of a text, or its first part that the vocabulary does not hold.
    pub fn try_encode(&self, text: &str) -> (r: Result<Vec<u32>, String>)
        ensures
            match r {
                Ok(ids) => self@.knows(self@.parts(text@)) && ids@ == self@.ids(
                    self@.parts(text@),
                ),
                Err(p) => exists|k: int|
                    0 <= k < self@.parts(text@).len() && (#[trigger] self@.parts(text@)[k]) == p@
                        && !self@.vocab.contains_key(p@) && self@.knows(self@.parts(text@).take(k)),
            },
    {
        let parts: Vec<String> = self.parts(&pretokenize(text));
        match self.look_up(&parts) {
            Ok(_) => Ok(self.encode(text)),
            Err(p) => {
                proof {
                    let ps = texts(parts@);
                    let k = choose|k: int|
                        0 <= k < parts@.len() && (#[trigger] parts@[k])@ == p@
                            && !self@.vocab.contains_key(p@) && self@.knows(ps.take(k));
                    assert(self@.parts(text@)[k] == p@);
                }
                Err(p)
            },
        }
    }

    /// The text that ids stand for; ids without a token are passed over.
    pub fn decode(&self, ids: &[u32]) -> (s: String)
        ensures
            s@ == self@.decoded(ids@),
    {
        let mut bytes: Vec<u8> = Vec::new();
        let ghost toks = self@.tokens(ids@);
        let mut i: usize = 0;
        assert(toks.take(0) =~= Seq::empty());
        assert(unmapped(concat(toks.take(0))) =~= Seq::empty());
        while i < ids.len()
            invariant
                i <= ids.len(),
                toks == self@.tokens(ids@),
                bytes@ == unmapped(concat(toks.take(i as int))),
            decreases ids.len() - i,
        {
            let ghost before = concat(toks.take(i as int));
            proof {
                assert(toks.take(i + 1) =~= toks.take(i as int).push(toks[i as int]));
                lemma_concat_push(toks.take(i as int), toks[i as int]);
            }
            match self.inv_vocab.get(&ids[i]) {
                None => {
                    assert(before + toks[i as int] =~= before);
                },
                Some(t) => {
                    assert(toks[i as int] == t@);
                    let cs: Vec<char> = chars_of(t.as_str());
                    let mut k: usize = 0;
                    assert(before + cs@.take(0) =~= before);
                    while k < cs.len()
                        invariant
                            k <= cs.len(),
                            bytes@ == unmapped(before + cs@.take(k as int)),
                        decreases cs.len() - k,
                    {
                        proof {
                            let n = before + cs@.take(k + 1);
                            assert(n.drop_last() =~= before + cs@.take(k as int));
                            assert(n.last() == cs@[k as int]);
                        }
                        match char_to_byte(cs[k]) {
                            Some(b) => {
                                bytes.push(b);
                            },
                            None => {},
                        }
                        k = k + 1;
                    }
                    assert(cs@.take(k as int) =~= t@);
                },
            }
            i = i + 1;
        }
        assert(toks.take(i as int) =~= toks);
        from_utf8_lossy(&bytes)
    }
}

/// An id that no token has adds nothing to the text, wherever it stands.
pub proof fn unknown_ids_are_passed_over(t: TokenizerView, a: Seq<u32>, id: u32, b: Seq<u32>)
    requires
        !t.inv.contains_key(id),
    ensures
        t.decoded(a.push(id) + b) == t.decoded(a + b),
{
    let (x, y) = (t.tokens(a), t.tokens(b));
    assert(t.tokens(a.push(id) + b) =~= x.push(Seq::empty()) + y);
    assert(t.tokens(a + b) =~= x + y);
    lemma_concat_add(x.push(Seq::empty()), y);
    lemma_concat_push(x, Seq::empty());
    lemma_concat_add(x, y);
    assert(concat(x) + Seq::<char>::empty() =~= concat(x));
}

} // verus!
