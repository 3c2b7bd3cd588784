//! Splitting text into the pieces that byte-pair merging works on.
//!
//! A piece is what the first of these patterns matches that matches at all, from
//! where the last piece ended:
//! `'s|'t|'re|'ve|'m|'ll|'d| ?L+| ?N+| ?[^SLN]+|S+(?!non-S)|S+`
//! with L the characters of the Unicode category of letters, N those of the category of
//! numbers and S the whitespace.

use crate::marks::{is_marked, mark_table, marked, MARKS};
use crate::text::{is_whitespace, whitespace};
use vstd::prelude::*;

verus! {

/// `char::is_alphabetic` for one character: the Unicode property `Alphabetic`.
pub uninterp spec fn alphabetic(c: char) -> bool;

/// `char::is_numeric` for one character: the Unicode number categories.
pub uninterp spec fn numeric(c: char) -> bool;

/// Calls `char::is_alphabetic`. The claim is that the answer depends on the character
/// alone; which characters have the property is not stated.
#[verifier::external_body]
fn is_alphabetic(c: char) -> (r: bool)
    ensures
        r == alphabetic(c),
{
    c.is_alphabetic()
}

/// Calls `char::is_numeric`. The claim is that the answer depends on the character
/// alone; which characters have the property is not stated.
#[verifier::external_body]
fn is_digit(c: char) -> (r: bool)
    ensures
        r == numeric(c),
{
    c.is_numeric()
}

/// The character is a letter: alphabetic, and neither a letter number nor a mark nor an
/// enclosed letter.
pub open spec fn letter(c: char) -> bool {
    alphabetic(c) && !numeric(c) && !marked(MARKS@, c)
}

/// Whether a character is a letter, by the table of marks.
fn is_letter(c: char, marks: &[char]) -> (r: bool)
    requires
        marks@ == MARKS@,
    ensures
        r == letter(c),
{
    is_alphabetic(c) && !is_digit(c) && !is_marked(marks, c)
}

/// No character is both a letter and a digit.
pub proof fn letters_are_no_digits(c: char)
    ensures
        !(props(c).letter && props(c).digit),
{
}

/// Kinds of characters that a piece is a run of.
#[derive(Debug, Clone, Copy, PartialEq, Eq, Structural)]
pub enum Class {
    Letter,
    Digit,
    /// Neither letter nor digit nor whitespace.
    Other,
    Space,
}

/// The properties of a character that splitting goes by.
#[derive(Debug, Clone, Copy, PartialEq, Eq, Structural)]
pub struct Props {
    pub letter: bool,
    pub digit: bool,
    pub space: bool,
}

/// The properties of a character.
pub open spec fn props(c: char) -> Props {
    Props { letter: letter(c), digit: numeric(c), space: whitespace(c) }
}

/// The properties of the characters of a text.
pub open spec fn all_props(s: Seq<char>) -> Seq<Props> {
    s.map_values(|c: char| props(c))
}

/// A character of these properties is of the kind.
pub open spec fn in_class(p: Props, k: Class) -> bool {
    match k {
        Class::Letter => p.letter,
        Class::Digit => p.digit,
        Class::Other => !p.space && !p.letter && !p.digit,
        Class::Space => p.space,
    }
}

fn is_in_class(p: Props, k: Class) -> (r: bool)
    ensures
        r == in_class(p, k),
{
    match k {
        Class::Letter => p.letter,
        Class::Digit => p.digit,
        Class::Other => !p.space && !p.letter && !p.digit,
        Class::Space => p.space,
    }
}

/// Where the run of a kind that goes on at `i` ends.
pub open spec fn run_end(ps: Seq<Props>, k: Class, i: int) -> int
    decreases ps.len() - i,
{
    if 0 <= i < ps.len() && in_class(ps[i], k) {
        run_end(ps, k, i + 1)
    } else {
        i
    }
}

/// Length of the contraction at `i`, zero where there is none.
pub open spec fn contraction(s: Seq<char>, i: int) -> int {
    if s[i] != '\'' || i + 1 >= s.len() {
        0
    } else if s[i + 1] == 's' || s[i + 1] == 't' || s[i + 1] == 'm' || s[i + 1] == 'd' {
        2
    } else if i + 2 < s.len() && ((s[i + 1] == 'r' && s[i + 2] == 'e') || (s[i + 1] == 'v' && s[i
        + 2] == 'e') || (s[i + 1] == 'l' && s[i + 2] == 'l')) {
        3
    } else {
        0
    }
}

/// Where the piece that begins at `i` ends. Of several whitespace characters before
/// something else, the last is left for the next piece.
pub open spec fn piece_end(s: Seq<char>, ps: Seq<Props>, i: int) -> int {
    let k = if s[i] == ' ' {
        i + 1
    } else {
        i
    };
    if contraction(s, i) > 0 {
        i + contraction(s, i)
    } else if k < s.len() && in_class(ps[k], Class::Letter) {
        run_end(ps, Class::Letter, k)
    } else if k < s.len() && in_class(ps[k], Class::Digit) {
        run_end(ps, Class::Digit, k)
    } else if k < s.len() && in_class(ps[k], Class::Other) {
        run_end(ps, Class::Other, k)
    } else {
        let j = run_end(ps, Class::Space, i + 1);
        if j < s.len() && j - i > 1 {
            j - 1
        } else {
            j
        }
    }
}

proof fn lemma_run_end(ps: Seq<Props>, k: Class, i: int)
    requires
        0 <= i <= ps.len(),
    ensures
        i <= run_end(ps, k, i) <= ps.len(),
        i < ps.len() && in_class(ps[i], k) ==> i < run_end(ps, k, i),
    decreases ps.len() - i,
{
    if i < ps.len() && in_class(ps[i], k) {
        lemma_run_end(ps, k, i + 1);
    }
}

/// A piece is not empty and does not run past the text.
pub proof fn pieces_make_progress(s: Seq<char>, ps: Seq<Props>, i: int)
    requires
        ps.len() == s.len(),
        0 <= i < s.len(),
    ensures
        i < piece_end(s, ps, i) <= s.len(),
{
    let k = if s[i] == ' ' {
        i + 1
    } else {
        i
    };
    lemma_run_end(ps, Class::Letter, k);
    lemma_run_end(ps, Class::Digit, k);
    lemma_run_end(ps, Class::Other, k);
    lemma_run_end(ps, Class::Space, i + 1);
}

/// The pieces from `i` on.
pub open spec fn pieces_from(s: Seq<char>, ps: Seq<Props>, i: int) -> Seq<Seq<char>>
    decreases s.len() - i,
{
    if 0 <= i < s.len() && i < piece_end(s, ps, i) <= s.len() {
        seq![s.subrange(i, piece_end(s, ps, i))] + pieces_from(s, ps, piece_end(s, ps, i))
    } else {
        Seq::empty()
    }
}

/// The pieces of a text.
pub open spec fn pieces(s: Seq<char>) -> Seq<Seq<char>> {
    pieces_from(s, all_props(s), 0)
}

/// Texts in a row.
pub open spec fn concat<T>(ps: Seq<Seq<T>>) -> Seq<T>
    decreases ps.len(),
{
    if ps.len() == 0 {
        Seq::empty()
    } else {
        ps[0] + concat(ps.skip(1))
    }
}

pub proof fn lemma_concat_push<T>(ps: Seq<Seq<T>>, p: Seq<T>)
    ensures
        concat(ps.push(p)) == concat(ps) + p,
    decreases ps.len(),
{
    if ps.len() == 0 {
        assert(ps.push(p).skip(1) =~= Seq::empty());
        assert(concat(Seq::<Seq<T>>::empty()) =~= Seq::empty());
        assert(concat(ps.push(p)) =~= concat(ps) + p);
    } else {
        assert(ps.push(p).skip(1) =~= ps.skip(1).push(p));
        lemma_concat_push(ps.skip(1), p);
        assert(concat(ps.push(p)) =~= concat(ps) + p);
    }
}

pub proof fn lemma_concat_add<T>(a: Seq<Seq<T>>, b: Seq<Seq<T>>)
    ensures
        concat(a + b) == concat(a) + concat(b),
    decreases a.len(),
{
    if a.len() == 0 {
        assert(a + b =~= b);
        assert(concat(a) + concat(b) =~= concat(b));
    } else {
        assert((a + b).skip(1) =~= a.skip(1) + b);
        lemma_concat_add(a.skip(1), b);
        assert(concat(a + b) =~= concat(a) + concat(b));
    }
}

proof fn lemma_pieces_from(s: Seq<char>, ps: Seq<Props>, i: int)
    requires
        ps.len() == s.len(),
        0 <= i <= s.len(),
    ensures
        concat(pieces_from(s, ps, i)) == s.skip(i),
        forall|k: int|
            0 <= k < pieces_from(s, ps, i).len() ==> (#[trigger] pieces_from(s, ps, i)[k]).len()
                > 0,
    decreases s.len() - i,
{
    if i < s.len() {
        pieces_make_progress(s, ps, i);
        let e = piece_end(s, ps, i);
        let rest = pieces_from(s, ps, e);
        lemma_pieces_from(s, ps, e);
        let all = pieces_from(s, ps, i);
        assert(all.skip(1) =~= rest);
        assert(s.skip(i) =~= s.subrange(i, e) + s.skip(e));
        assert forall|k: int| 0 <= k < all.len() implies (#[trigger] all[k]).len() > 0 by {
            if k > 0 {
                assert(all[k] == rest[k - 1]);
            }
        }
    } else {
        assert(s.skip(i) =~= Seq::empty());
    }
}

/// The text goes on with `w` at `i`.
pub open spec fn stands_at(s: Seq<char>, i: int, w: Seq<char>) -> bool {
    i + w.len() <= s.len() && s.subrange(i, i + w.len()) == w
}

/// The endings that are pieces of their own: `'s`, `'t`, `'re`, `'ve`, `'m`, `'ll`, `'d`.
pub open spec fn endings() -> Seq<Seq<char>> {
    seq![
        seq!['\'', 's'],
        seq!['\'', 't'],
        seq!['\'', 'r', 'e'],
        seq!['\'', 'v', 'e'],
        seq!['\'', 'm'],
        seq!['\'', 'l', 'l'],
        seq!['\'', 'd'],
    ]
}

/// One of the endings stands at `i`.
pub open spec fn ending_at(s: Seq<char>, i: int) -> bool {
    exists|n: int| 0 <= n < endings().len() && stands_at(s, i, #[trigger] endings()[n])
}

/// `[i, e)` is all letters, all digits or all neither with nothing of whitespace, as its
/// first character is, and goes on as far as that holds.
pub open spec fn whole_run(ps: Seq<Props>, i: int, e: int) -> bool {
    &&& 0 <= i < e <= ps.len()
    &&& if ps[i].letter {
        &&& forall|j: int| i <= j < e ==> (#[trigger] ps[j]).letter
        &&& e < ps.len() ==> !ps[e].letter
    } else if ps[i].digit {
        &&& forall|j: int| i <= j < e ==> (#[trigger] ps[j]).digit
        &&& e < ps.len() ==> !ps[e].digit
    } else {
        &&& forall|j: int|
            i <= j < e ==> !(#[trigger] ps[j]).letter && !ps[j].digit && !ps[j].space
        &&& e < ps.len() ==> ps[e].letter || ps[e].digit || ps[e].space
    }
}

/// Whitespace from `i` to `e`: all of it up to the end of the text; before anything else all
/// but the last character; and a single one where there is no more.
pub open spec fn whole_gap(ps: Seq<Props>, i: int, e: int) -> bool {
    &&& 0 <= i < e <= ps.len()
    &&& forall|j: int| i < j < e ==> (#[trigger] ps[j]).space
    &&& {
        ||| e == ps.len()
        ||| e == i + 1 && !ps[e].space
        ||| e + 1 < ps.len() && ps[e].space && !ps[e + 1].space
    }
}

/// What the patterns match at `i` ends at `e`: an ending; else a run of letters, of digits or
/// of other characters, behind a space where there is one; else whitespace.
pub open spec fn matches_at(s: Seq<char>, ps: Seq<Props>, i: int, e: int) -> bool {
    let k = if s[i] == ' ' {
        i + 1
    } else {
        i
    };
    if ending_at(s, i) {
        exists|n: int|
            0 <= n < endings().len() && stands_at(s, i, #[trigger] endings()[n]) && e == i
                + endings()[n].len()
    } else if k < ps.len() && (ps[k].letter || ps[k].digit || !ps[k].space) {
        whole_run(ps, k, e)
    } else {
        whole_gap(ps, i, e)
    }
}

proof fn lemma_run_is_whole(ps: Seq<Props>, k: Class, i: int, e: int)
    requires
        0 <= i <= ps.len(),
        e == run_end(ps, k, i),
    ensures
        i <= e <= ps.len(),
        forall|j: int| i <= j < e ==> in_class(#[trigger] ps[j], k),
        e < ps.len() ==> !in_class(ps[e], k),
    decreases ps.len() - i,
{
    if i < ps.len() && in_class(ps[i], k) {
        lemma_run_is_whole(ps, k, i + 1, e);
    }
}

proof fn lemma_ending(s: Seq<char>, i: int)
    requires
        0 <= i < s.len(),
    ensures
        contraction(s, i) > 0 <==> ending_at(s, i),
        contraction(s, i) > 0 ==> exists|n: int|
            0 <= n < endings().len() && stands_at(s, i, #[trigger] endings()[n]) && contraction(
                s,
                i,
            ) == endings()[n].len(),
{
    let c = contraction(s, i);
    if c == 2 {
        let w = seq!['\'', s[i + 1]];
        assert(s.subrange(i, i + 2) =~= w);
        let n: int = if s[i + 1] == 's' {
            0
        } else if s[i + 1] == 't' {
            1
        } else if s[i + 1] == 'm' {
            4
        } else {
            6
        };
        assert(endings()[n] =~= w);
        assert(stands_at(s, i, endings()[n]));
    } else if c == 3 {
        let w = seq!['\'', s[i + 1], s[i + 2]];
        assert(s.subrange(i, i + 3) =~= w);
        let n: int = if s[i + 1] == 'r' {
            2
        } else if s[i + 1] == 'v' {
            3
        } else {
            5
        };
        assert(endings()[n] =~= w);
        assert(stands_at(s, i, endings()[n]));
    } else if ending_at(s, i) {
        let n = choose|n: int| 0 <= n < endings().len() && stands_at(s, i, #[trigger] endings()[n]);
        let w = endings()[n];
        assert(s.subrange(i, i + w.len())[0] == s[i] && w[0] == '\'');
        assert(s.subrange(i, i + w.len())[1] == s[i + 1]);
        if w.len() == 3 {
            assert(s.subrange(i, i + w.len())[2] == s[i + 2]);
        }
        assert(false);
    }
}

/// A piece is what the patterns match: it ends where they end, and nowhere else.
pub proof fn pieces_match_the_patterns(s: Seq<char>, ps: Seq<Props>, i: int, e: int)
    requires
        ps.len() == s.len(),
        0 <= i < s.len(),
    ensures
        piece_end(s, ps, i) == e <==> matches_at(s, ps, i, e),
{
    let k = if s[i] == ' ' {
        i + 1
    } else {
        i
    };
    let p = piece_end(s, ps, i);
    lemma_ending(s, i);
    if contraction(s, i) > 0 {
        assert forall|n: int|
            0 <= n < endings().len() && stands_at(s, i, #[trigger] endings()[n]) implies endings()[n].len()
            == contraction(s, i) by {
            let w = endings()[n];
            assert(s.subrange(i, i + w.len())[0] == s[i]);
            assert(s.subrange(i, i + w.len())[1] == s[i + 1]);
        }
    } else if k < s.len() && ps[k].letter {
        lemma_run_is_whole(ps, Class::Letter, k, p);
    } else if k < s.len() && ps[k].digit {
        lemma_run_is_whole(ps, Class::Digit, k, p);
    } else if k < s.len() && !ps[k].space {
        lemma_run_is_whole(ps, Class::Other, k, p);
    } else {
        let j = run_end(ps, Class::Space, i + 1);
        lemma_run_is_whole(ps, Class::Space, i + 1, j);
    }
    pieces_make_progress(s, ps, i);
    assert(matches_at(s, ps, i, p));
    if matches_at(s, ps, i, e) && e != p {
        if contraction(s, i) == 0 {
            if k < s.len() && (ps[k].letter || ps[k].digit || !ps[k].space) {
                if e < p {
                    assert(ps[e].letter || ps[e].digit || ps[e].space || !ps[e].space);
                } else {
                    assert(ps[p].letter || ps[p].digit || ps[p].space || !ps[p].space);
                }
            } else {
                let j = run_end(ps, Class::Space, i + 1);
                if e < p {
                    assert(ps[e].space);
                    assert(e + 1 < p ==> ps[e + 1].space);
                } else {
                    assert(p < e ==> p == i + 1 || ps[p].space);
                    if p + 1 < e {
                        assert(ps[p + 1].space);
                    }
                    assert(ps[p].space || !ps[p].space);
                }
            }
        }
        assert(false);
    }
}

/// Where the piece of number `n` starts.
pub open spec fn piece_start(ps: Seq<Seq<char>>, n: int) -> int {
    concat(ps.take(n)).len() as int
}

proof fn lemma_starts(s: Seq<char>, ps: Seq<Props>, i: int, n: int)
    requires
        ps.len() == s.len(),
        0 <= i <= s.len(),
        0 <= n < pieces_from(s, ps, i).len(),
    ensures
        ({
            let all = pieces_from(s, ps, i);
            let at = i + piece_start(all, n);
            &&& 0 <= at < s.len()
            &&& all[n] == s.subrange(at, at + all[n].len())
            &&& at + all[n].len() == piece_end(s, ps, at)
        }),
    decreases n,
{
    let all = pieces_from(s, ps, i);
    let e = piece_end(s, ps, i);
    let rest = pieces_from(s, ps, e);
    assert(all =~= seq![s.subrange(i, e)] + rest);
    if n == 0 {
        assert(all.take(0) =~= Seq::empty());
        assert(concat(all.take(0)).len() == 0);
    } else {
        assert(all[n] == rest[n - 1]);
        lemma_starts(s, ps, e, n - 1);
        assert(all.take(n)[0] == s.subrange(i, e));
        assert(all.take(n).skip(1) =~= rest.take(n - 1));
    }
}

/// Splitting cuts a text at the places where the patterns match and nowhere else: the pieces
/// stand in a row, and each of them is what the patterns match where it starts.
pub proof fn splitting_follows_the_patterns(s: Seq<char>, ps: Seq<Props>, n: int)
    requires
        ps.len() == s.len(),
        0 <= n < pieces_from(s, ps, 0).len(),
    ensures
        ({
            let all = pieces_from(s, ps, 0);
            let at = piece_start(all, n);
            &&& 0 <= at < s.len()
            &&& all[n] == s.subrange(at, at + all[n].len())
            &&& matches_at(s, ps, at, at + all[n].len() as int)
        }),
{
    lemma_starts(s, ps, 0, n);
    let at = piece_start(pieces_from(s, ps, 0), n);
    pieces_match_the_patterns(s, ps, at, at + pieces_from(s, ps, 0)[n].len() as int);
}

/// No cut falls inside a run of letters or inside a run of digits, but for the one behind an
/// ending such as `'s`.
pub proof fn runs_are_not_split(s: Seq<char>, i: int)
    requires
        0 <= i < s.len(),
        !ending_at(s, i),
        piece_end(s, all_props(s), i) < s.len(),
    ensures
        ({
            let e = piece_end(s, all_props(s), i);
            s[e - 1] != ' ' && !whitespace(s[e - 1]) ==> {
                &&& !(letter(s[e - 1]) && letter(s[e]))
                &&& !(numeric(s[e - 1]) && numeric(s[e]))
            }
        }),
{
    let ps = all_props(s);
    let e = piece_end(s, ps, i);
    pieces_match_the_patterns(s, ps, i, e);
    pieces_make_progress(s, ps, i);
    assert(ps[e - 1] == props(s[e - 1]) && ps[e] == props(s[e]));
    assert(ps[i] == props(s[i]));
}

/// Nothing is lost in splitting, whatever the properties of the characters are: the
/// pieces in a row are the text, and none is empty.
pub proof fn pieces_put_together_are_the_text(s: Seq<char>, ps: Seq<Props>)
    requires
        ps.len() == s.len(),
    ensures
        concat(pieces_from(s, ps, 0)) == s,
        forall|k: int|
            0 <= k < pieces_from(s, ps, 0).len() ==> (#[trigger] pieces_from(s, ps, 0)[k]).len()
                > 0,
{
    lemma_pieces_from(s, ps, 0);
    assert(s.skip(0) =~= s);
}

/// The characters of a text.
pub fn chars_of(text: &str) -> (v: Vec<char>)
    ensures
        v@ == text@,
{
    let mut v: Vec<char> = Vec::new();
    for c in it: text.chars()
        invariant
            v@ == it.seq().take(it.index() as int),
            it.seq() == text@,
    {
        v.push(c);
        assert(v@ =~= it.seq().take(it.index() + 1));
    }
    assert(v@ =~= text@);
    v
}

/// The text of a run of characters.
pub fn text_of(cs: &[char], from: usize, to: usize) -> (s: String)
    requires
        from <= to <= cs.len(),
    ensures
        s@ == cs@.subrange(from as int, to as int),
{
    let mut s: String = String::new();
    let mut i: usize = from;
    while i < to
        invariant
            from <= i <= to <= cs.len(),
            s@ == cs@.subrange(from as int, i as int),
        decreases to - i,
    {
        s.push(cs[i]);
        i = i + 1;
        assert(s@ =~= cs@.subrange(from as int, i as int));
    }
    s
}

/// Where the run of a kind ends.
fn end_of_run(ps: &[Props], k: Class, from: usize) -> (j: usize)
    requires
        from <= ps.len(),
    ensures
        j == run_end(ps@, k, from as int),
        from <= j <= ps.len(),
{
    let mut j: usize = from;
    while j < ps.len() && is_in_class(ps[j], k)
        invariant
            from <= j <= ps.len(),
            run_end(ps@, k, from as int) == run_end(ps@, k, j as int),
        decreases ps.len() - j,
    {
        j = j + 1;
    }
    j
}

/// Length of the contraction at a place.
fn contraction_at(s: &[char], i: usize) -> (n: usize)
    requires
        i < s.len(),
    ensures
        n == contraction(s@, i as int),
{
    if s[i] != '\'' || s.len() - i < 2 {
        return 0;
    }
    let a: char = s[i + 1];
    if a == 's' || a == 't' || a == 'm' || a == 'd' {
        return 2;
    }
    if s.len() - i < 3 {
        return 0;
    }
    let b: char = s[i + 2];
    if (a == 'r' && b == 'e') || (a == 'v' && b == 'e') || (a == 'l' && b == 'l') {
        3
    } else {
        0
    }
}

/// Where the piece that begins at a place ends.
fn end_of_piece(s: &[char], ps: &[Props], i: usize) -> (e: usize)
    requires
        i < s.len(),
        ps.len() == s.len(),
    ensures
        e == piece_end(s@, ps@, i as int),
        i < e <= s.len(),
{
    proof {
        pieces_make_progress(s@, ps@, i as int);
    }
    let n: usize = contraction_at(s, i);
    if n > 0 {
        return i + n;
    }
    let k: usize = if s[i] == ' ' {
        i + 1
    } else {
        i
    };
    if k < s.len() {
        if ps[k].letter {
            return end_of_run(ps, Class::Letter, k);
        }
        if ps[k].digit {
            return end_of_run(ps, Class::Digit, k);
        }
        if is_in_class(ps[k], Class::Other) {
            return end_of_run(ps, Class::Other, k);
        }
    }
    let j: usize = end_of_run(ps, Class::Space, i + 1);
    if j < s.len() && j - i > 1 {
        j - 1
    } else {
        j
    }
}

/// The texts of a list of strings.
pub open spec fn texts(v: Seq<String>) -> Seq<Seq<char>> {
    v.map_values(|s: String| s@)
}

/// Splits characters of known properties into pieces.
pub fn split(chars: &[char], ps: &[Props]) -> (out: Vec<String>)
    requires
        ps.len() == chars.len(),
    ensures
        texts(out@) == pieces_from(chars@, ps@, 0),
{
    let mut out: Vec<String> = Vec::new();
    let mut i: usize = 0;
    let ghost all = pieces_from(chars@, ps@, 0);
    assert(texts(out@) + all =~= all);
    while i < chars.len()
        invariant
            i <= chars.len(),
            ps.len() == chars.len(),
            all == pieces_from(chars@, ps@, 0),
            texts(out@) + pieces_from(chars@, ps@, i as int) == all,
        decreases chars.len() - i,
    {
        let e: usize = end_of_piece(chars, ps, i);
        let ghost before = texts(out@);
        let p: String = text_of(chars, i, e);
        out.push(p);
        proof {
            let rest = pieces_from(chars@, ps@, e as int);
            assert(texts(out@) =~= before.push(p@));
            assert(before + (seq![p@] + rest) =~= texts(out@) + rest);
        }
        i = e;
    }
    assert(texts(out@) + Seq::<Seq<char>>::empty() =~= texts(out@));
    out
}

/// The properties of characters.
fn props_of(chars: &[char]) -> (ps: Vec<Props>)
    ensures
        ps@ == all_props(chars@),
{
    let marks: Vec<char> = mark_table();
    let mut ps: Vec<Props> = Vec::new();
    let mut i: usize = 0;
    while i < chars.len()
        invariant
            marks@ == MARKS@,
            i <= chars.len(),
            ps@ == all_props(chars@).take(i as int),
        decreases chars.len() - i,
    {
        let c: char = chars[i];
        ps.push(Props { letter: is_letter(c, &marks), digit: is_digit(c), space: is_whitespace(c) });
        i = i + 1;
        assert(ps@ =~= all_props(chars@).take(i as int));
    }
    assert(ps@ =~= all_props(chars@));
    ps
}

/// Splits a text into pieces.
pub fn pretokenize(text: &str) -> (out: Vec<String>)
    ensures
        texts(out@) == pieces(text@),
{
    let chars: Vec<char> = chars_of(text);
    let ps: Vec<Props> = props_of(&chars);
    split(&chars, &ps)
}

} // verus!
