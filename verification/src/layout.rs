//! Device layouts of quantized weights.
//!
//! The dot-product kernels read a `[n_in, n_out]` matrix as rows of 32-bit words,
//! one word per column: word `w * n_out + o` holds a run of input channels of
//! column `o`, and its byte `j` holds the channels whose index is `j` modulo 4, in
//! successive fields from the low bits up.

use crate::floatbits::{abs_gt, signed_absmax};
use vstd::arithmetic::div_mod::lemma_fundamental_div_mod;
use vstd::prelude::*;

verus! {

/// Byte `j` of word `w` of column `o`.
pub open spec fn byte_index(n_out: int, w: int, o: int, j: int) -> int {
    (w * n_out + o) * 4 + j
}

/// Field `p` of a byte of four two-bit fields.
pub open spec fn crumb(b: u8, p: int) -> int {
    if p == 0 {
        b as int % 4
    } else if p == 1 {
        (b as int / 4) % 4
    } else if p == 2 {
        (b as int / 16) % 4
    } else {
        b as int / 64
    }
}

/// Bit `p` of a byte.
pub open spec fn bit(b: u8, p: int) -> int {
    if p == 0 {
        b as int % 2
    } else if p == 1 {
        (b as int / 2) % 2
    } else if p == 2 {
        (b as int / 4) % 2
    } else if p == 3 {
        (b as int / 8) % 2
    } else if p == 4 {
        (b as int / 16) % 2
    } else if p == 5 {
        (b as int / 32) % 2
    } else if p == 6 {
        (b as int / 64) % 2
    } else {
        b as int / 128
    }
}

/// The four-bit weight of input channel `i` and column `o`.
pub open spec fn q4_at(q: Seq<u8>, n_out: int, i: int, o: int) -> int {
    let b = q[byte_index(n_out, i / 8, o, i % 4)] as int;
    if i % 8 < 4 {
        b % 16
    } else {
        b / 16
    }
}

/// The two-bit weight of input channel `i` and column `o`.
pub open spec fn q2_at(q: Seq<u8>, n_out: int, i: int, o: int) -> int {
    crumb(q[byte_index(n_out, i / 16, o, i % 4)], (i % 16) / 4)
}

/// The three-bit weight of input channel `i` and column `o`: two low bits in a
/// two-bit plane, the high bit in the third word of the block of 32 channels.
pub open spec fn q3_at(q: Seq<u8>, n_out: int, i: int, o: int) -> int {
    crumb(q[byte_index(n_out, 3 * (i / 32) + (i % 32) / 16, o, i % 4)], (i % 16) / 4) + 4 * bit(
        q[byte_index(n_out, 3 * (i / 32) + 2, o, i % 4)],
        (i % 32) / 4,
    )
}

/// The eight-bit weight of input channel `i` and column `o`.
pub open spec fn q8_at(q: Seq<i8>, n_out: int, i: int, o: int) -> i8 {
    q[byte_index(n_out, i / 4, o, i % 4)]
}

/// Element `i` of column `o` of a column-major matrix.
proof fn lemma_column_bound(n_in: int, n_out: int, i: int, o: int)
    requires
        0 <= o < n_out,
        0 <= i < n_in,
    ensures
        0 <= o * n_in + i < n_in * n_out,
        0 <= o * n_in,
{
    assert(o * n_in + n_in <= n_in * n_out) by (nonlinear_arith)
        requires
            o + 1 <= n_out,
            0 <= n_in,
    ;
    assert(0 <= o * n_in) by (nonlinear_arith)
        requires
            0 <= o,
            0 <= n_in,
    ;
}

/// Element `o` of row `i` of a row-major matrix.
pub proof fn lemma_row_bound(n_in: int, n_out: int, i: int, o: int)
    requires
        0 <= o < n_out,
        0 <= i < n_in,
    ensures
        0 <= i * n_out + o < n_in * n_out,
        0 <= i * n_out,
{
    assert(i * n_out + n_out <= n_in * n_out) by (nonlinear_arith)
        requires
            i + 1 <= n_in,
            0 <= n_out,
    ;
    assert(0 <= i * n_out) by (nonlinear_arith)
        requires
            0 <= i,
            0 <= n_out,
    ;
}

/// Fills a plane of words from a function that gives the four bytes of a word.
fn fill_plane<T: Copy, F: Fn(usize, usize) -> (T, T, T, T)>(
    rows: usize,
    n_out: usize,
    word: F,
) -> (q: Vec<T>)
    requires
        forall|w: usize, o: usize| w < rows && o < n_out ==> word.requires((w, o)),
    ensures
        q@.len() == 4 * (rows * n_out),
        forall|w: usize, o: usize|
            w < rows && o < n_out ==> #[trigger] filled(word, q@, n_out as int, w, o),
{
    let mut q: Vec<T> = Vec::new();
    let ghost n = n_out as int;
    let mut w: usize = 0;
    assert(0 * n == 0) by (nonlinear_arith);
    while w < rows
        invariant
            w <= rows,
            n == n_out,
            forall|a: usize, b: usize| a < rows && b < n_out ==> word.requires((a, b)),
            q@.len() == 4 * (w * n),
            forall|a: usize, b: usize| a < w && b < n_out ==> #[trigger] filled(word, q@, n, a, b),
        decreases rows - w,
    {
        let mut o: usize = 0;
        while o < n_out
            invariant
                w < rows,
                o <= n_out,
                n == n_out,
                forall|a: usize, b: usize| a < rows && b < n_out ==> word.requires((a, b)),
                q@.len() == 4 * (w * n + o),
                forall|a: usize, b: usize|
                    b < n_out && (a < w || (a == w && b < o)) ==> #[trigger] filled(
                        word,
                        q@,
                        n,
                        a,
                        b,
                    ),
            decreases n_out - o,
        {
            let ghost before = q@;
            let (b0, b1, b2, b3) = word(w, o);
            q.push(b0);
            q.push(b1);
            q.push(b2);
            q.push(b3);
            proof {
                let at = byte_index(n, w as int, o as int, 0);
                assert(q@[at] == b0 && q@[at + 1] == b1 && q@[at + 2] == b2 && q@[at + 3] == b3);
                assert(filled(word, q@, n, w, o));
                assert forall|a: usize, b: usize|
                    b < n_out && (a < w || (a == w && b < o)) implies #[trigger] filled(
                    word,
                    q@,
                    n,
                    a,
                    b,
                ) by {
                    assert(filled(word, before, n, a, b));
                    lemma_word_order(n, a as int, b as int, w as int, o as int);
                    let c = byte_index(n, a as int, b as int, 0);
                    assert(q@[c] == before[c] && q@[c + 1] == before[c + 1] && q@[c + 2] == before[c
                        + 2] && q@[c + 3] == before[c + 3]);
                }
            }
            o = o + 1;
        }
        proof {
            assert((w + 1) * n == w * n + n) by (nonlinear_arith);
        }
        w = w + 1;
    }
    q
}

/// The four bytes of a word are a result of the function.
spec fn filled<T, F: Fn(usize, usize) -> (T, T, T, T)>(
    word: F,
    q: Seq<T>,
    n_out: int,
    w: usize,
    o: usize,
) -> bool {
    let at = byte_index(n_out, w as int, o as int, 0);
    word.ensures((w, o), (q[at], q[at + 1], q[at + 2], q[at + 3]))
}

/// An earlier word ends before a later one begins.
proof fn lemma_word_order(n: int, a: int, b: int, w: int, o: int)
    requires
        0 <= b < n,
        0 <= o,
        0 <= a,
        a < w || (a == w && b < o),
    ensures
        0 <= byte_index(n, a, b, 0),
        byte_index(n, a, b, 0) + 4 <= 4 * (w * n + o),
{
    assert(0 <= a * n) by (nonlinear_arith)
        requires
            0 <= a,
            0 <= n,
    ;
    if a < w {
        assert(a * n + n <= w * n) by (nonlinear_arith)
            requires
                a + 1 <= w,
                0 <= n,
        ;
    }
}

/// The byte that holds two four-bit fields.
fn join_nibbles(lo: u8, hi: u8) -> (b: u8)
    requires
        lo < 16,
        hi < 16,
    ensures
        b == lo + 16 * hi,
        b % 16 == lo,
        b / 16 == hi,
{
    lo + 16 * hi
}

/// The byte that holds four two-bit fields.
fn join_crumbs(c0: u8, c1: u8, c2: u8, c3: u8) -> (b: u8)
    requires
        c0 < 4,
        c1 < 4,
        c2 < 4,
        c3 < 4,
    ensures
        crumb(b, 0) == c0,
        crumb(b, 1) == c1,
        crumb(b, 2) == c2,
        crumb(b, 3) == c3,
{
    c0 + 4 * c1 + 16 * c2 + 64 * c3
}

/// The byte that holds eight bits.
fn join_bits(lo: (u8, u8, u8, u8), hi: (u8, u8, u8, u8)) -> (b: u8)
    requires
        lo.0 < 2,
        lo.1 < 2,
        lo.2 < 2,
        lo.3 < 2,
        hi.0 < 2,
        hi.1 < 2,
        hi.2 < 2,
        hi.3 < 2,
    ensures
        bit(b, 0) == lo.0,
        bit(b, 1) == lo.1,
        bit(b, 2) == lo.2,
        bit(b, 3) == lo.3,
        bit(b, 4) == hi.0,
        bit(b, 5) == hi.1,
        bit(b, 6) == hi.2,
        bit(b, 7) == hi.3,
{
    let n7: u8 = hi.3;
    let n6: u8 = hi.2 + 2 * n7;
    let n5: u8 = hi.1 + 2 * n6;
    let n4: u8 = hi.0 + 2 * n5;
    let n3: u8 = lo.3 + 2 * n4;
    let n2: u8 = lo.2 + 2 * n3;
    let n1: u8 = lo.1 + 2 * n2;
    let n0: u8 = lo.0 + 2 * n1;
    proof {
        let b = n0 as int;
        assert(b / 2 == n1);
        assert(b / 4 == n2);
        assert(b / 8 == n3);
        assert(b / 16 == n4);
        assert(b / 32 == n5);
        assert(b / 64 == n6);
        assert(b / 128 == n7);
    }
    n0
}

/// Element `i` of column `o` of a column-major matrix.
fn column_elem(v: &[u8], n_in: usize, n_out: usize, i: usize, o: usize) -> (x: u8)
    requires
        i < n_in,
        o < n_out,
        v.len() == n_in * n_out,
    ensures
        x == v@[o * n_in + i],
        0 <= o * n_in + i < v@.len(),
{
    proof {
        lemma_column_bound(n_in as int, n_out as int, i as int, o as int);
    }
    v[o * n_in + i]
}

/// Packs four-bit weights. `v` is column-major: `v[o * n_in + i]`.
pub fn pack_q4(v: &[u8], n_in: usize, n_out: usize) -> (q: Vec<u8>)
    requires
        n_in % 8 == 0,
        v.len() == n_in * n_out,
        forall|k: int| 0 <= k < v@.len() ==> #[trigger] v@[k] < 16,
    ensures
        q@.len() == 4 * ((n_in / 8) * n_out),
        forall|i: int, o: int|
            0 <= i < n_in && 0 <= o < n_out ==> #[trigger] q4_at(q@, n_out as int, i, o) == v@[o
                * n_in + i],
{
    let rows: usize = n_in / 8;
    let word = |w: usize, o: usize| -> (r: (u8, u8, u8, u8))
        requires
            w < rows,
            o < n_out,
        ensures
            r.0 % 16 == v@[o * n_in + 8 * w],
            r.1 % 16 == v@[o * n_in + (8 * w + 1)],
            r.2 % 16 == v@[o * n_in + (8 * w + 2)],
            r.3 % 16 == v@[o * n_in + (8 * w + 3)],
            r.0 / 16 == v@[o * n_in + (8 * w + 4)],
            r.1 / 16 == v@[o * n_in + (8 * w + 5)],
            r.2 / 16 == v@[o * n_in + (8 * w + 6)],
            r.3 / 16 == v@[o * n_in + (8 * w + 7)],
        {
            let i: usize = 8 * w;
            (
                join_nibbles(
                    column_elem(v, n_in, n_out, i, o),
                    column_elem(v, n_in, n_out, i + 4, o),
                ),
                join_nibbles(
                    column_elem(v, n_in, n_out, i + 1, o),
                    column_elem(v, n_in, n_out, i + 5, o),
                ),
                join_nibbles(
                    column_elem(v, n_in, n_out, i + 2, o),
                    column_elem(v, n_in, n_out, i + 6, o),
                ),
                join_nibbles(
                    column_elem(v, n_in, n_out, i + 3, o),
                    column_elem(v, n_in, n_out, i + 7, o),
                ),
            )
        };
    let q = fill_plane(rows, n_out, word);
    proof {
        let n = n_out as int;
        assert forall|i: int, o: int| 0 <= i < n_in && 0 <= o < n_out implies #[trigger] q4_at(
            q@,
            n,
            i,
            o,
        ) == v@[o * n_in + i] by {
            let w = i / 8;
            assert(filled(word, q@, n, w as usize, o as usize));
            assert(i == 8 * w + i % 8);
        }
    }
    q
}

/// The four bytes of a word hold the two-bit weights of 16 channels.
spec fn q2_word(v: Seq<u8>, n_in: int, w: int, o: int, b0: u8, b1: u8, b2: u8, b3: u8) -> bool {
    forall|p: int|
        0 <= p < 4 ==> {
            &&& #[trigger] crumb(b0, p) == v[o * n_in + (16 * w + 4 * p)]
            &&& crumb(b1, p) == v[o * n_in + (16 * w + 4 * p + 1)]
            &&& crumb(b2, p) == v[o * n_in + (16 * w + 4 * p + 2)]
            &&& crumb(b3, p) == v[o * n_in + (16 * w + 4 * p + 3)]
        }
}

/// The four bytes of a word hold the low two bits of 16 channels from `first` on.
spec fn low_word(
    v: Seq<u8>,
    n_in: int,
    first: int,
    o: int,
    b0: u8,
    b1: u8,
    b2: u8,
    b3: u8,
) -> bool {
    forall|p: int|
        0 <= p < 4 ==> {
            &&& #[trigger] crumb(b0, p) == v[o * n_in + (first + 4 * p)] as int % 4
            &&& crumb(b1, p) == v[o * n_in + (first + 4 * p + 1)] as int % 4
            &&& crumb(b2, p) == v[o * n_in + (first + 4 * p + 2)] as int % 4
            &&& crumb(b3, p) == v[o * n_in + (first + 4 * p + 3)] as int % 4
        }
}

/// The four bytes of a word hold the third bits of 32 channels from `first` on.
spec fn high_word(
    v: Seq<u8>,
    n_in: int,
    first: int,
    o: int,
    b0: u8,
    b1: u8,
    b2: u8,
    b3: u8,
) -> bool {
    forall|p: int|
        0 <= p < 8 ==> {
            &&& #[trigger] bit(b0, p) == v[o * n_in + (first + 4 * p)] as int / 4
            &&& bit(b1, p) == v[o * n_in + (first + 4 * p + 1)] as int / 4
            &&& bit(b2, p) == v[o * n_in + (first + 4 * p + 2)] as int / 4
            &&& bit(b3, p) == v[o * n_in + (first + 4 * p + 3)] as int / 4
        }
}

/// Packs two-bit weights. `v` is column-major: `v[o * n_in + i]`.
pub fn pack_q2(v: &[u8], n_in: usize, n_out: usize) -> (q: Vec<u8>)
    requires
        n_in % 16 == 0,
        v.len() == n_in * n_out,
        forall|k: int| 0 <= k < v@.len() ==> #[trigger] v@[k] < 4,
    ensures
        q@.len() == 4 * ((n_in / 16) * n_out),
        forall|i: int, o: int|
            0 <= i < n_in && 0 <= o < n_out ==> #[trigger] q2_at(q@, n_out as int, i, o) == v@[o
                * n_in + i],
{
    let rows: usize = n_in / 16;
    let word = |w: usize, o: usize| -> (r: (u8, u8, u8, u8))
        requires
            w < rows,
            o < n_out,
        ensures
            q2_word(v@, n_in as int, w as int, o as int, r.0, r.1, r.2, r.3),
        {
            let i: usize = 16 * w;
            let b0: u8 = crumb_column(v, n_in, n_out, i, o);
            let b1: u8 = crumb_column(v, n_in, n_out, i + 1, o);
            let b2: u8 = crumb_column(v, n_in, n_out, i + 2, o);
            let b3: u8 = crumb_column(v, n_in, n_out, i + 3, o);
            assert forall|p: int| 0 <= p < 4 implies {
                &&& #[trigger] crumb(b0, p) == v@[o * n_in + (16 * w + 4 * p)]
                &&& crumb(b1, p) == v@[o * n_in + (16 * w + 4 * p + 1)]
                &&& crumb(b2, p) == v@[o * n_in + (16 * w + 4 * p + 2)]
                &&& crumb(b3, p) == v@[o * n_in + (16 * w + 4 * p + 3)]
            } by {
                assert(crumb(b1, p) == v@[o * n_in + (i + 1 + 4 * p)] as int % 4);
                assert(crumb(b2, p) == v@[o * n_in + (i + 2 + 4 * p)] as int % 4);
                assert(crumb(b3, p) == v@[o * n_in + (i + 3 + 4 * p)] as int % 4);
                lemma_column_bound(n_in as int, n_out as int, 16 * w + 4 * p, o as int);
                lemma_column_bound(n_in as int, n_out as int, 16 * w + 4 * p + 1, o as int);
                lemma_column_bound(n_in as int, n_out as int, 16 * w + 4 * p + 2, o as int);
                lemma_column_bound(n_in as int, n_out as int, 16 * w + 4 * p + 3, o as int);
            }
            (b0, b1, b2, b3)
        };
    let q = fill_plane(rows, n_out, word);
    proof {
        let n = n_out as int;
        assert forall|i: int, o: int| 0 <= i < n_in && 0 <= o < n_out implies #[trigger] q2_at(
            q@,
            n,
            i,
            o,
        ) == v@[o * n_in + i] by {
            let w = i / 16;
            let p = (i % 16) / 4;
            assert(filled(word, q@, n, w as usize, o as usize));
            let at = byte_index(n, w, o, 0);
            assert(q2_word(v@, n_in as int, w, o, q@[at], q@[at + 1], q@[at + 2], q@[at + 3]));
            assert(crumb(q@[at], p) == v@[o * n_in + (16 * w + 4 * p)]);
            assert(i == 16 * w + 4 * p + i % 4);
        }
    }
    q
}

/// The low two bits of four weights of a column, four channels apart.
fn crumb_column(v: &[u8], n_in: usize, n_out: usize, i: usize, o: usize) -> (b: u8)
    requires
        i + 12 < n_in,
        o < n_out,
        v.len() == n_in * n_out,
    ensures
        forall|p: int|
            0 <= p < 4 ==> {
                &&& #[trigger] crumb(b, p) == v@[o * n_in + (i + 4 * p)] as int % 4
                &&& 0 <= o * n_in + (i + 4 * p) < v@.len()
            },
{
    let b: u8 = join_crumbs(
        column_elem(v, n_in, n_out, i, o) % 4,
        column_elem(v, n_in, n_out, i + 4, o) % 4,
        column_elem(v, n_in, n_out, i + 8, o) % 4,
        column_elem(v, n_in, n_out, i + 12, o) % 4,
    );
    b
}

/// The third bit of eight weights of a column, four channels apart.
fn bit_column(v: &[u8], n_in: usize, n_out: usize, i: usize, o: usize) -> (b: u8)
    requires
        i + 28 < n_in,
        o < n_out,
        v.len() == n_in * n_out,
        forall|k: int| 0 <= k < v@.len() ==> #[trigger] v@[k] < 8,
    ensures
        forall|p: int|
            0 <= p < 8 ==> {
                &&& #[trigger] bit(b, p) == v@[o * n_in + (i + 4 * p)] as int / 4
                &&& 0 <= o * n_in + (i + 4 * p) < v@.len()
            },
{
    let b: u8 = join_bits(
        (
            column_elem(v, n_in, n_out, i, o) / 4,
            column_elem(v, n_in, n_out, i + 4, o) / 4,
            column_elem(v, n_in, n_out, i + 8, o) / 4,
            column_elem(v, n_in, n_out, i + 12, o) / 4,
        ),
        (
            column_elem(v, n_in, n_out, i + 16, o) / 4,
            column_elem(v, n_in, n_out, i + 20, o) / 4,
            column_elem(v, n_in, n_out, i + 24, o) / 4,
            column_elem(v, n_in, n_out, i + 28, o) / 4,
        ),
    );
    b
}

/// The four bytes of a word of low bits.
fn low_bytes(v: &[u8], n_in: usize, n_out: usize, i: usize, o: usize) -> (r: (u8, u8, u8, u8))
    requires
        i + 15 < n_in,
        o < n_out,
        v.len() == n_in * n_out,
    ensures
        low_word(v@, n_in as int, i as int, o as int, r.0, r.1, r.2, r.3),
{
    let b0: u8 = crumb_column(v, n_in, n_out, i, o);
    let b1: u8 = crumb_column(v, n_in, n_out, i + 1, o);
    let b2: u8 = crumb_column(v, n_in, n_out, i + 2, o);
    let b3: u8 = crumb_column(v, n_in, n_out, i + 3, o);
    assert forall|p: int| 0 <= p < 4 implies {
        &&& #[trigger] crumb(b0, p) == v@[o * n_in + (i + 4 * p)] as int % 4
        &&& crumb(b1, p) == v@[o * n_in + (i + 4 * p + 1)] as int % 4
        &&& crumb(b2, p) == v@[o * n_in + (i + 4 * p + 2)] as int % 4
        &&& crumb(b3, p) == v@[o * n_in + (i + 4 * p + 3)] as int % 4
    } by {
        assert(crumb(b1, p) == v@[o * n_in + (i + 1 + 4 * p)] as int % 4);
        assert(crumb(b2, p) == v@[o * n_in + (i + 2 + 4 * p)] as int % 4);
        assert(crumb(b3, p) == v@[o * n_in + (i + 3 + 4 * p)] as int % 4);
    }
    (b0, b1, b2, b3)
}

/// The four bytes of a word of third bits.
fn high_bytes(v: &[u8], n_in: usize, n_out: usize, i: usize, o: usize) -> (r: (u8, u8, u8, u8))
    requires
        i + 31 < n_in,
        o < n_out,
        v.len() == n_in * n_out,
        forall|k: int| 0 <= k < v@.len() ==> #[trigger] v@[k] < 8,
    ensures
        high_word(v@, n_in as int, i as int, o as int, r.0, r.1, r.2, r.3),
{
    let b0: u8 = bit_column(v, n_in, n_out, i, o);
    let b1: u8 = bit_column(v, n_in, n_out, i + 1, o);
    let b2: u8 = bit_column(v, n_in, n_out, i + 2, o);
    let b3: u8 = bit_column(v, n_in, n_out, i + 3, o);
    assert forall|p: int| 0 <= p < 8 implies {
        &&& #[trigger] bit(b0, p) == v@[o * n_in + (i + 4 * p)] as int / 4
        &&& bit(b1, p) == v@[o * n_in + (i + 4 * p + 1)] as int / 4
        &&& bit(b2, p) == v@[o * n_in + (i + 4 * p + 2)] as int / 4
        &&& bit(b3, p) == v@[o * n_in + (i + 4 * p + 3)] as int / 4
    } by {
        assert(bit(b1, p) == v@[o * n_in + (i + 1 + 4 * p)] as int / 4);
        assert(bit(b2, p) == v@[o * n_in + (i + 2 + 4 * p)] as int / 4);
        assert(bit(b3, p) == v@[o * n_in + (i + 3 + 4 * p)] as int / 4);
    }
    (b0, b1, b2, b3)
}

/// A three-bit weight is read from its low-bit word and its third-bit word.
proof fn lemma_q3_at(v: Seq<u8>, q: Seq<u8>, n_in: int, n: int, i: int, o: int)
    requires
        0 <= i < n_in,
        0 <= o < n,
        v.len() == n_in * n,
        forall|k: int| 0 <= k < v.len() ==> #[trigger] v[k] < 8,
        ({
            let at = byte_index(n, 3 * (i / 32) + (i % 32) / 16, o, 0);
            low_word(
                v,
                n_in,
                32 * (i / 32) + 16 * ((i % 32) / 16),
                o,
                q[at],
                q[at + 1],
                q[at + 2],
                q[at + 3],
            )
        }),
        ({
            let ah = byte_index(n, 3 * (i / 32) + 2, o, 0);
            high_word(v, n_in, 32 * (i / 32), o, q[ah], q[ah + 1], q[ah + 2], q[ah + 3])
        }),
    ensures
        q3_at(q, n, i, o) == v[o * n_in + i],
{
    lemma_channel_parts(i);
    let (b, t, p, j) = (i / 32, (i % 32) / 16, (i % 16) / 4, i % 4);
    lemma_column_bound(n_in, n, i, o);
    let x = v[o * n_in + i];
    let at = byte_index(n, 3 * b + t, o, 0);
    let ah = byte_index(n, 3 * b + 2, o, 0);
    assert(crumb(q[at + j], p) == x as int % 4) by {
        assert(crumb(q[at], p) == v[o * n_in + (32 * b + 16 * t + 4 * p)] as int % 4);
        assert(32 * b + 16 * t + 4 * p + j == i);
    }
    assert(bit(q[ah + j], 4 * t + p) == x as int / 4) by {
        let u = 4 * t + p;
        assert(bit(q[ah], u) == v[o * n_in + (32 * b + 4 * u)] as int / 4);
        assert(32 * b + 4 * u + j == i);
    }
}

/// A channel index in its parts: block of 32, half of the block, field and byte.
proof fn lemma_channel_parts(i: int)
    requires
        0 <= i,
    ensures
        i == 32 * (i / 32) + 16 * ((i % 32) / 16) + 4 * ((i % 16) / 4) + i % 4,
        (i % 32) / 4 == 4 * ((i % 32) / 16) + (i % 16) / 4,
        0 <= (i % 32) / 16 < 2,
        0 <= (i % 16) / 4 < 4,
        0 <= i % 4 < 4,
{
    let r = i % 32;
    assert(i % 16 == r % 16);
    assert(i % 4 == r % 4);
}

/// Packs three-bit weights. `v` is column-major: `v[o * n_in + i]`.
pub fn pack_q3(v: &[u8], n_in: usize, n_out: usize) -> (q: Vec<u8>)
    requires
        n_in % 32 == 0,
        v.len() == n_in * n_out,
        forall|k: int| 0 <= k < v@.len() ==> #[trigger] v@[k] < 8,
    ensures
        q@.len() == 4 * ((n_in / 32 * 3) * n_out),
        forall|i: int, o: int|
            0 <= i < n_in && 0 <= o < n_out ==> #[trigger] q3_at(q@, n_out as int, i, o) == v@[o
                * n_in + i],
{
    let rows: usize = n_in / 32 * 3;
    let word = |w: usize, o: usize| -> (r: (u8, u8, u8, u8))
        requires
            w < rows,
            o < n_out,
        ensures
            w % 3 < 2 ==> low_word(
                v@,
                n_in as int,
                32 * (w / 3) + 16 * (w % 3),
                o as int,
                r.0,
                r.1,
                r.2,
                r.3,
            ),
            w % 3 == 2 ==> high_word(
                v@,
                n_in as int,
                32 * (w / 3) as int,
                o as int,
                r.0,
                r.1,
                r.2,
                r.3,
            ),
        {
            if w % 3 < 2 {
                low_bytes(v, n_in, n_out, 32 * (w / 3) + 16 * (w % 3), o)
            } else {
                high_bytes(v, n_in, n_out, 32 * (w / 3), o)
            }
        };
    let q = fill_plane(rows, n_out, word);
    proof {
        let n = n_out as int;
        assert forall|i: int, o: int| 0 <= i < n_in && 0 <= o < n_out implies #[trigger] q3_at(
            q@,
            n,
            i,
            o,
        ) == v@[o * n_in + i] by {
            let w = 3 * (i / 32) + (i % 32) / 16;
            let h = 3 * (i / 32) + 2;
            assert(filled(word, q@, n, w as usize, o as usize));
            assert(filled(word, q@, n, h as usize, o as usize));
            assert(w / 3 == i / 32 && w % 3 == (i % 32) / 16);
            assert(h / 3 == i / 32 && h % 3 == 2);
            lemma_q3_at(v@, q@, n_in as int, n, i, o);
        }
    }
    q
}

/// Packs eight-bit weights. `v` is row-major: `v[i * n_out + o]`.
pub fn pack_q8(v: &[i8], n_in: usize, n_out: usize) -> (q: Vec<i8>)
    requires
        n_in % 4 == 0,
        v.len() == n_in * n_out,
    ensures
        q@.len() == 4 * ((n_in / 4) * n_out),
        forall|i: int, o: int|
            0 <= i < n_in && 0 <= o < n_out ==> #[trigger] q8_at(q@, n_out as int, i, o) == v@[i
                * n_out + o],
{
    let rows: usize = n_in / 4;
    let word = |w: usize, o: usize| -> (r: (i8, i8, i8, i8))
        requires
            w < rows,
            o < n_out,
        ensures
            r.0 == v@[(4 * w) * n_out + o],
            r.1 == v@[(4 * w + 1) * n_out + o],
            r.2 == v@[(4 * w + 2) * n_out + o],
            r.3 == v@[(4 * w + 3) * n_out + o],
        {
            let i: usize = 4 * w;
            proof {
                lemma_row_bound(n_in as int, n_out as int, i as int, o as int);
                lemma_row_bound(n_in as int, n_out as int, i + 1, o as int);
                lemma_row_bound(n_in as int, n_out as int, i + 2, o as int);
                lemma_row_bound(n_in as int, n_out as int, i + 3, o as int);
            }
            (
                v[i * n_out + o],
                v[(i + 1) * n_out + o],
                v[(i + 2) * n_out + o],
                v[(i + 3) * n_out + o],
            )
        };
    let q = fill_plane(rows, n_out, word);
    proof {
        let n = n_out as int;
        assert forall|i: int, o: int| 0 <= i < n_in && 0 <= o < n_out implies #[trigger] q8_at(
            q@,
            n,
            i,
            o,
        ) == v@[i * n_out + o] by {
            let w = i / 4;
            assert(filled(word, q@, n, w as usize, o as usize));
            assert(i == 4 * w + i % 4);
        }
    }
    q
}

/// A place in a plane names its word row, its column and its byte in the word.
proof fn lemma_place(rows: int, n_out: int, k: int)
    requires
        0 <= rows,
        0 <= n_out,
        0 <= k < 4 * (rows * n_out),
    ensures
        ({
            let (w, o) = (k / 4 / n_out, k / 4 % n_out);
            &&& 0 <= w < rows
            &&& 0 <= o < n_out
            &&& byte_index(n_out, w, o, k % 4) == k
        }),
{
    let c = k / 4;
    assert(rows > 0 && n_out > 0) by (nonlinear_arith)
        requires
            0 <= rows,
            0 <= n_out,
            0 < rows * n_out,
    ;
    lemma_fundamental_div_mod(c, n_out);
    let w = c / n_out;
    assert(n_out * w == w * n_out) by (nonlinear_arith);
    assert(0 <= w < rows) by (nonlinear_arith)
        requires
            n_out > 0,
            c == n_out * w + c % n_out,
            0 <= c % n_out < n_out,
            0 <= c < rows * n_out,
    ;
}

/// The two weights in a byte of a four-bit plane determine it.
proof fn lemma_nibbles(p: Seq<u8>, q: Seq<u8>, n_out: int, w: int, o: int, j: int)
    requires
        0 <= w,
        0 <= j < 4,
        q4_at(p, n_out, 8 * w + j, o) == q4_at(q, n_out, 8 * w + j, o),
        q4_at(p, n_out, 8 * w + 4 + j, o) == q4_at(q, n_out, 8 * w + 4 + j, o),
    ensures
        p[byte_index(n_out, w, o, j)] == q[byte_index(n_out, w, o, j)],
{
    let (lo, hi) = (8 * w + j, 8 * w + 4 + j);
    assert(lo / 8 == w && lo % 8 == j && lo % 4 == j);
    assert(hi / 8 == w && hi % 8 == 4 + j && hi % 4 == j);
}

/// Four-bit weights determine the plane that they are packed in.
pub proof fn q4_planes_are_determined(p: Seq<u8>, q: Seq<u8>, n_in: int, n_out: int)
    requires
        0 <= n_in,
        0 <= n_out,
        n_in % 8 == 0,
        p.len() == 4 * ((n_in / 8) * n_out),
        q.len() == p.len(),
        forall|i: int, o: int|
            0 <= i < n_in && 0 <= o < n_out ==> #[trigger] q4_at(p, n_out, i, o) == q4_at(
                q,
                n_out,
                i,
                o,
            ),
    ensures
        p == q,
{
    assert forall|k: int| 0 <= k < p.len() implies #[trigger] p[k] == q[k] by {
        lemma_place(n_in / 8, n_out, k);
        let (w, o, j) = (k / 4 / n_out, k / 4 % n_out, k % 4);
        assert(q4_at(p, n_out, 8 * w + j, o) == q4_at(q, n_out, 8 * w + j, o));
        assert(q4_at(p, n_out, 8 * w + 4 + j, o) == q4_at(q, n_out, 8 * w + 4 + j, o));
        lemma_nibbles(p, q, n_out, w, o, j);
    }
    assert(p =~= q);
}

/// Two-bit weights determine the plane that they are packed in.
pub proof fn q2_planes_are_determined(p: Seq<u8>, q: Seq<u8>, n_in: int, n_out: int)
    requires
        0 <= n_in,
        0 <= n_out,
        n_in % 16 == 0,
        p.len() == 4 * ((n_in / 16) * n_out),
        q.len() == p.len(),
        forall|i: int, o: int|
            0 <= i < n_in && 0 <= o < n_out ==> #[trigger] q2_at(p, n_out, i, o) == q2_at(
                q,
                n_out,
                i,
                o,
            ),
    ensures
        p == q,
{
    assert forall|k: int| 0 <= k < p.len() implies #[trigger] p[k] == q[k] by {
        lemma_place(n_in / 16, n_out, k);
        let (w, o, j) = (k / 4 / n_out, k / 4 % n_out, k % 4);
        assert forall|f: int| 0 <= f < 4 implies #[trigger] crumb(p[k], f) == crumb(q[k], f) by {
            let i = 16 * w + 4 * f + j;
            assert(i / 16 == w && i % 4 == j && (i % 16) / 4 == f);
            assert(q2_at(p, n_out, i, o) == q2_at(q, n_out, i, o));
        }
        lemma_crumbs(p[k], q[k]);
    }
    assert(p =~= q);
}

/// A byte is its four two-bit fields.
proof fn lemma_crumbs(a: u8, b: u8)
    requires
        forall|f: int| 0 <= f < 4 ==> #[trigger] crumb(a, f) == crumb(b, f),
    ensures
        a == b,
{
    assert(crumb(a, 0) == crumb(b, 0));
    assert(crumb(a, 1) == crumb(b, 1));
    assert(crumb(a, 2) == crumb(b, 2));
    assert(crumb(a, 3) == crumb(b, 3));
}

/// A byte of a four-bit plane holds two weights of a column, four channels apart: the lower
/// one in its lower half. The four bytes of a word hold the weights of eight channels.
pub proof fn four_bit_bytes_hold_two_weights(p: Seq<u8>, n_out: int, w: int, o: int, j: int)
    requires
        0 <= w,
        0 <= o < n_out,
        0 <= j < 4,
    ensures
        p[4 * (w * n_out + o) + j] == q4_at(p, n_out, 8 * w + j, o) + 16 * q4_at(
            p,
            n_out,
            8 * w + 4 + j,
            o,
        ),
        0 <= q4_at(p, n_out, 8 * w + j, o) < 16,
        0 <= q4_at(p, n_out, 8 * w + 4 + j, o) < 16,
{
    let (lo, hi) = (8 * w + j, 8 * w + 4 + j);
    assert(lo / 8 == w && lo % 8 == j && lo % 4 == j);
    assert(hi / 8 == w && hi % 8 == 4 + j && hi % 4 == j);
}

/// A byte of a two-bit plane holds four weights of a column, four channels apart, the lowest
/// one in its lowest bits. The four bytes of a word hold the weights of sixteen channels.
pub proof fn two_bit_bytes_hold_four_weights(p: Seq<u8>, n_out: int, w: int, o: int, j: int)
    requires
        0 <= w,
        0 <= o < n_out,
        0 <= j < 4,
    ensures
        p[4 * (w * n_out + o) + j] == q2_at(p, n_out, 16 * w + j, o) + 4 * q2_at(
            p,
            n_out,
            16 * w + 4 + j,
            o,
        ) + 16 * q2_at(p, n_out, 16 * w + 8 + j, o) + 64 * q2_at(p, n_out, 16 * w + 12 + j, o),
{
    let b = p[4 * (w * n_out + o) + j];
    lemma_crumb_place(w, j, 0);
    lemma_crumb_place(w, j, 1);
    lemma_crumb_place(w, j, 2);
    lemma_crumb_place(w, j, 3);
    assert(b == crumb(b, 0) + 4 * crumb(b, 1) + 16 * crumb(b, 2) + 64 * crumb(b, 3));
}

proof fn lemma_crumb_place(w: int, j: int, f: int)
    requires
        0 <= w,
        0 <= j < 4,
        0 <= f < 4,
    ensures
        (16 * w + 4 * f + j) / 16 == w,
        (16 * w + 4 * f + j) % 4 == j,
        ((16 * w + 4 * f + j) % 16) / 4 == f,
{
}

/// A word of an eight-bit plane holds the weights of four channels of a column, in order.
pub proof fn eight_bit_words_hold_four_weights(p: Seq<i8>, n_out: int, w: int, o: int, j: int)
    requires
        0 <= w,
        0 <= o < n_out,
        0 <= j < 4,
    ensures
        q8_at(p, n_out, 4 * w + j, o) == p[4 * (w * n_out + o) + j],
{
    assert((4 * w + j) / 4 == w && (4 * w + j) % 4 == j);
}

/// A three-bit weight is the two low bits that a byte of the first or the second word of its
/// block holds, and a third bit from the third word: the first word has the first sixteen
/// channels of the block, the second the others, and the third one bit of each.
pub proof fn three_bit_weights_are_split(
    p: Seq<u8>,
    n_out: int,
    b: int,
    t: int,
    o: int,
    j: int,
    f: int,
)
    requires
        0 <= b,
        0 <= t < 2,
        0 <= o < n_out,
        0 <= j < 4,
        0 <= f < 4,
    ensures
        q3_at(p, n_out, 32 * b + 16 * t + 4 * f + j, o) == crumb(
            p[4 * ((3 * b + t) * n_out + o) + j],
            f,
        ) + 4 * bit(p[4 * ((3 * b + 2) * n_out + o) + j], 4 * t + f),
{
    lemma_low_bits_place(b, t, j, f);
    lemma_third_bit_place(b, j, 4 * t + f);
}

/// A byte is the sum of its eight bits.
proof fn lemma_bit_sum(a: u8)
    ensures
        a == bit(a, 0) + 2 * bit(a, 1) + 4 * bit(a, 2) + 8 * bit(a, 3) + 16 * bit(a, 4) + 32 * bit(
            a,
            5,
        ) + 64 * bit(a, 6) + 128 * bit(a, 7),
{
    let x = a as int;
    assert(x == 2 * (x / 2) + bit(a, 0));
    assert(x / 2 == 2 * (x / 4) + bit(a, 1));
    assert(x / 4 == 2 * (x / 8) + bit(a, 2));
    assert(x / 8 == 2 * (x / 16) + bit(a, 3));
    assert(x / 16 == 2 * (x / 32) + bit(a, 4));
    assert(x / 32 == 2 * (x / 64) + bit(a, 5));
    assert(x / 64 == 2 * (x / 128) + bit(a, 6));
}

/// A byte is its eight bits.
proof fn lemma_bits(a: u8, b: u8)
    requires
        forall|f: int| 0 <= f < 8 ==> #[trigger] bit(a, f) == bit(b, f),
    ensures
        a == b,
{
    lemma_bit_sum(a);
    lemma_bit_sum(b);
}

/// Three-bit weights determine the fields of a word of low bits.
proof fn lemma_low_field(p: Seq<u8>, q: Seq<u8>, n_out: int, b: int, t: int, o: int, j: int, f: int)
    requires
        0 <= b,
        0 <= t < 2,
        0 <= j < 4,
        0 <= f < 4,
        q3_at(p, n_out, 32 * b + 16 * t + 4 * f + j, o) == q3_at(
            q,
            n_out,
            32 * b + 16 * t + 4 * f + j,
            o,
        ),
    ensures
        ({
            let k = byte_index(n_out, 3 * b + t, o, j);
            crumb(p[k], f) == crumb(q[k], f)
        }),
{
    lemma_low_bits_place(b, t, j, f);
}

proof fn lemma_low_bits_place(b: int, t: int, j: int, f: int)
    requires
        0 <= b,
        0 <= t < 2,
        0 <= j < 4,
        0 <= f < 4,
    ensures
        (32 * b + 16 * t + 4 * f + j) / 32 == b,
        ((32 * b + 16 * t + 4 * f + j) % 32) / 16 == t,
        (32 * b + 16 * t + 4 * f + j) % 4 == j,
        ((32 * b + 16 * t + 4 * f + j) % 16) / 4 == f,
{
}

/// Three-bit weights determine the bits of a word of third bits.
proof fn lemma_high_field(p: Seq<u8>, q: Seq<u8>, n_out: int, b: int, o: int, j: int, f: int)
    requires
        0 <= b,
        0 <= j < 4,
        0 <= f < 8,
        q3_at(p, n_out, 32 * b + 4 * f + j, o) == q3_at(q, n_out, 32 * b + 4 * f + j, o),
    ensures
        ({
            let k = byte_index(n_out, 3 * b + 2, o, j);
            bit(p[k], f) == bit(q[k], f)
        }),
{
    lemma_third_bit_place(b, j, f);
}

proof fn lemma_third_bit_place(b: int, j: int, f: int)
    requires
        0 <= b,
        0 <= j < 4,
        0 <= f < 8,
    ensures
        (32 * b + 4 * f + j) / 32 == b,
        (32 * b + 4 * f + j) % 4 == j,
        ((32 * b + 4 * f + j) % 32) / 4 == f,
{
}

/// Three-bit weights determine a byte of the plane.
proof fn lemma_q3_byte(p: Seq<u8>, q: Seq<u8>, n_in: int, n_out: int, w: int, o: int, j: int)
    requires
        n_in % 32 == 0,
        0 <= w < n_in / 32 * 3,
        0 <= o < n_out,
        0 <= j < 4,
        forall|i: int|
            0 <= i < n_in ==> #[trigger] q3_at(p, n_out, i, o) == q3_at(q, n_out, i, o),
    ensures
        p[byte_index(n_out, w, o, j)] == q[byte_index(n_out, w, o, j)],
{
    let k = byte_index(n_out, w, o, j);
    let (b, t) = (w / 3, w % 3);
    if t < 2 {
        assert forall|f: int| 0 <= f < 4 implies #[trigger] crumb(p[k], f) == crumb(q[k], f) by {
            lemma_low_field(p, q, n_out, b, t, o, j, f);
        }
        lemma_crumbs(p[k], q[k]);
    } else {
        assert forall|f: int| 0 <= f < 8 implies #[trigger] bit(p[k], f) == bit(q[k], f) by {
            lemma_high_field(p, q, n_out, b, o, j, f);
        }
        lemma_bits(p[k], q[k]);
    }
}

/// Three-bit weights determine the plane that they are packed in.
pub proof fn q3_planes_are_determined(p: Seq<u8>, q: Seq<u8>, n_in: int, n_out: int)
    requires
        0 <= n_in,
        0 <= n_out,
        n_in % 32 == 0,
        p.len() == 4 * ((n_in / 32 * 3) * n_out),
        q.len() == p.len(),
        forall|i: int, o: int|
            0 <= i < n_in && 0 <= o < n_out ==> #[trigger] q3_at(p, n_out, i, o) == q3_at(
                q,
                n_out,
                i,
                o,
            ),
    ensures
        p == q,
{
    assert forall|k: int| 0 <= k < p.len() implies #[trigger] p[k] == q[k] by {
        lemma_place(n_in / 32 * 3, n_out, k);
        lemma_q3_byte(p, q, n_in, n_out, k / 4 / n_out, k / 4 % n_out, k % 4);
    }
    assert(p =~= q);
}

/// Eight-bit weights determine the plane that they are packed in.
pub proof fn q8_planes_are_determined(p: Seq<i8>, q: Seq<i8>, n_in: int, n_out: int)
    requires
        0 <= n_in,
        0 <= n_out,
        n_in % 4 == 0,
        p.len() == 4 * ((n_in / 4) * n_out),
        q.len() == p.len(),
        forall|i: int, o: int|
            0 <= i < n_in && 0 <= o < n_out ==> #[trigger] q8_at(p, n_out, i, o) == q8_at(
                q,
                n_out,
                i,
                o,
            ),
    ensures
        p == q,
{
    assert forall|k: int| 0 <= k < p.len() implies #[trigger] p[k] == q[k] by {
        lemma_place(n_in / 4, n_out, k);
        let (w, o, j) = (k / 4 / n_out, k / 4 % n_out, k % 4);
        let i = 4 * w + j;
        assert(i / 4 == w && i % 4 == j);
        assert(q8_at(p, n_out, i, o) == q8_at(q, n_out, i, o));
    }
    assert(p =~= q);
}

/// The matrix with rows and columns exchanged.
pub open spec fn is_transpose<T>(t: Seq<T>, w: Seq<T>, rows: int, cols: int) -> bool {
    &&& t.len() == w.len()
    &&& forall|i: int, j: int|
        0 <= i < rows && 0 <= j < cols ==> #[trigger] t[j * rows + i] == w[i * cols + j]
}

/// Exchanges the rows and columns of a row-major `[rows, cols]` matrix.
pub fn transpose<T: Copy>(w: &[T], rows: usize, cols: usize) -> (t: Vec<T>)
    requires
        w.len() == rows * cols,
    ensures
        is_transpose(t@, w@, rows as int, cols as int),
{
    let mut t: Vec<T> = Vec::with_capacity(w.len());
    let mut j: usize = 0;
    let ghost n = rows as int;
    assert(0 * n == 0) by (nonlinear_arith);
    while j < cols
        invariant
            j <= cols,
            n == rows,
            w.len() == rows * cols,
            t@.len() == j * n,
            forall|a: int, b: int|
                0 <= a < rows && 0 <= b < j ==> #[trigger] t@[b * n + a] == w@[a * cols + b],
        decreases cols - j,
    {
        let mut i: usize = 0;
        while i < rows
            invariant
                j < cols,
                i <= rows,
                n == rows,
                w.len() == rows * cols,
                t@.len() == j * n + i,
                forall|a: int, b: int|
                    0 <= a < rows && 0 <= b < j ==> #[trigger] t@[b * n + a] == w@[a * cols + b],
                forall|a: int| 0 <= a < i ==> #[trigger] t@[j * n + a] == w@[a * cols + j],
            decreases rows - i,
        {
            proof {
                lemma_row_bound(rows as int, cols as int, i as int, j as int);
            }
            let ghost before = t@;
            t.push(w[i * cols + j]);
            proof {
                assert forall|a: int, b: int| 0 <= a < rows && 0 <= b < j implies #[trigger] t@[b * n
                    + a] == w@[a * cols + b] by {
                    lemma_row_bound(j as int, n, b, a);
                    assert(t@[b * n + a] == before[b * n + a]);
                }
                assert forall|a: int| 0 <= a < i + 1 implies #[trigger] t@[j * n + a] == w@[a * cols
                    + j] by {
                    assert(0 <= j * n) by (nonlinear_arith)
                        requires
                            0 <= n,
                    ;
                    if a < i {
                        assert(t@[j * n + a] == before[j * n + a]);
                    }
                }
            }
            i = i + 1;
        }
        proof {
            assert((j + 1) * n == j * n + n) by (nonlinear_arith);
            assert forall|a: int, b: int| 0 <= a < rows && 0 <= b < j + 1 implies #[trigger] t@[b * n
                + a] == w@[a * cols + b] by {}
        }
        j = j + 1;
    }
    proof {
        assert(cols * n == rows * cols) by (nonlinear_arith)
            requires
                n == rows,
        ;
    }
    t
}

/// Transposing twice changes nothing.
pub proof fn transpose_undoes_itself<T>(w: Seq<T>, t: Seq<T>, u: Seq<T>, rows: int, cols: int)
    requires
        0 <= rows,
        0 <= cols,
        w.len() == rows * cols,
        is_transpose(t, w, rows, cols),
        is_transpose(u, t, cols, rows),
    ensures
        u == w,
{
    assert forall|k: int| 0 <= k < w.len() implies u[k] == w[k] by {
        if cols == 0 {
            assert(rows * cols == 0) by (nonlinear_arith)
                requires
                    cols == 0,
            ;
        }
        let i = k / cols;
        let j = k % cols;
        vstd::arithmetic::div_mod::lemma_fundamental_div_mod(k, cols);
        assert(k == i * cols + j) by (nonlinear_arith)
            requires
                k == cols * (k / cols) + k % cols,
                i == k / cols,
                j == k % cols,
        ;
        assert(0 <= i < rows) by (nonlinear_arith)
            requires
                0 <= k < rows * cols,
                k == i * cols + j,
                0 <= j < cols,
        ;
        assert(t[j * rows + i] == w[i * cols + j]);
        assert(u[i * cols + j] == t[j * rows + i]);
    }
    assert(u =~= w);
}

/// The input channels of a group of `size` rows, in one column.
pub open spec fn column_group(w: Seq<u32>, n_out: int, first: int, size: int, o: int) -> Seq<u32> {
    Seq::new(size as nat, |k: int| w[(first + k) * n_out + o])
}

/// The element of largest magnitude of a run of rows of one column.
fn column_absmax(
    w: &[u32],
    n_in: usize,
    n_out: usize,
    first: usize,
    size: usize,
    o: usize,
) -> (m: u32)
    requires
        w.len() == n_in * n_out,
        first + size <= n_in,
        o < n_out,
    ensures
        m == signed_absmax(column_group(w@, n_out as int, first as int, size as int, o as int)),
{
    let mut m: u32 = 0;
    let mut k: usize = 0;
    while k < size
        invariant
            k <= size,
            w.len() == n_in * n_out,
            first + size <= n_in,
            o < n_out,
            m == signed_absmax(column_group(w@, n_out as int, first as int, k as int, o as int)),
        decreases size - k,
    {
        proof {
            lemma_row_bound(n_in as int, n_out as int, first + k, o as int);
        }
        let v: u32 = w[(first + k) * n_out + o];
        proof {
            let g = column_group(w@, n_out as int, first as int, k + 1, o as int);
            assert(g.drop_last() =~= column_group(
                w@,
                n_out as int,
                first as int,
                k as int,
                o as int,
            ));
            assert(g.last() == v);
        }
        if abs_gt(v, m) {
            m = v;
        }
        k = k + 1;
    }
    m
}

/// Per group of `size` input channels and column, the element of largest magnitude
/// with its sign: entry `g * n_out + o`.
pub fn group_absmax(w: &[u32], n_in: usize, n_out: usize, size: usize) -> (m: Vec<u32>)
    requires
        size > 0,
        n_in % size == 0,
        w.len() == n_in * n_out,
    ensures
        m@.len() == (n_in / size) * n_out,
        forall|g: int, o: int|
            0 <= g < n_in / size && 0 <= o < n_out ==> #[trigger] m@[g * n_out + o] == signed_absmax(
                column_group(w@, n_out as int, g * size, size as int, o),
            ),
{
    let groups: usize = n_in / size;
    let mut m: Vec<u32> = Vec::new();
    let mut g: usize = 0;
    let ghost n = n_out as int;
    proof {
        assert(0 * n == 0) by (nonlinear_arith);
        vstd::arithmetic::div_mod::lemma_fundamental_div_mod(n_in as int, size as int);
    }
    while g < groups
        invariant
            g <= groups,
            size > 0,
            n == n_out,
            w.len() == n_in * n_out,
            groups == n_in / size,
            n_in == size * groups,
            m@.len() == g * n,
            forall|a: int, b: int|
                0 <= a < g && 0 <= b < n_out ==> #[trigger] m@[a * n + b] == signed_absmax(
                    column_group(w@, n, a * size, size as int, b),
                ),
        decreases groups - g,
    {
        let mut o: usize = 0;
        proof {
            assert(g * size + size <= size * groups) by (nonlinear_arith)
                requires
                    g + 1 <= groups,
                    size > 0,
            ;
            assert(0 <= g * size) by (nonlinear_arith);
        }
        let first: usize = g * size;
        while o < n_out
            invariant
                o <= n_out,
                g < groups,
                n == n_out,
                first == g * size,
                first + size <= n_in,
                w.len() == n_in * n_out,
                m@.len() == g * n + o,
                forall|a: int, b: int|
                    0 <= a < g && 0 <= b < n_out ==> #[trigger] m@[a * n + b] == signed_absmax(
                        column_group(w@, n, a * size, size as int, b),
                    ),
                forall|b: int|
                    0 <= b < o ==> #[trigger] m@[g * n + b] == signed_absmax(
                        column_group(w@, n, g * size, size as int, b),
                    ),
            decreases n_out - o,
        {
            let ghost before = m@;
            m.push(column_absmax(w, n_in, n_out, first, size, o));
            proof {
                assert forall|a: int, b: int| 0 <= a < g && 0 <= b < n_out implies #[trigger] m@[a
                    * n + b] == signed_absmax(column_group(w@, n, a * size, size as int, b)) by {
                    lemma_row_bound(g as int, n, a, b);
                    assert(m@[a * n + b] == before[a * n + b]);
                }
                assert forall|b: int| 0 <= b < o + 1 implies #[trigger] m@[g * n + b]
                    == signed_absmax(column_group(w@, n, g * size, size as int, b)) by {
                    assert(0 <= g * n) by (nonlinear_arith)
                        requires
                            0 <= n,
                    ;
                    if b < o {
                        assert(m@[g * n + b] == before[g * n + b]);
                    }
                }
            }
            o = o + 1;
        }
        proof {
            assert((g + 1) * n == g * n + n) by (nonlinear_arith);
        }
        g = g + 1;
    }
    m
}

} // verus!
