//! What the kernels compute, as a device that carries out plans.
//!
//! Arithmetic stays abstract: sums, products of a row by a stored matrix, norms, rotations,
//! attention and activations are functions of the numbers they take, given by `Math`. What is
//! fixed here is which numbers a launch takes, by the places of its arguments, and where its
//! results go. A launch has an effect only where its blocks cover all that it is to compute
//! and its shared memory holds what it stages.

use crate::floatbits::argmax_index;
use crate::kernel::Kernel;
use crate::launch::{Buf, KvPart, LaunchView, StepView};
use crate::replay::{Device, Memory};
use vstd::prelude::*;

verus! {

/// The form that a matrix is stored in.
pub enum Form {
    F32,
    F16,
    Int8,
    Int4,
    Int4K,
    Int3,
    Int2,
}

/// The arithmetic of a device.
pub struct Math {
    /// The sum of two numbers.
    pub plus: spec_fn(u32, u32) -> u32,
    /// One output of a row times a matrix: the form and the planes of the matrix, the row,
    /// the number of outputs, and which one.
    pub dot: spec_fn(Form, Seq<Seq<u32>>, Seq<u32>, int, int) -> u32,
    /// The same of quantized rows: the form and the planes of the matrix, the packed values
    /// and the scales of the rows, which row, the width of a row, the number of outputs, and
    /// which one.
    pub dot_packed: spec_fn(Form, Seq<Seq<u32>>, Seq<u32>, Seq<u32>, int, int, int, int) -> u32,
    /// Packed values of numbers that are quantized, by place.
    pub packed: spec_fn(Seq<u32>, int) -> u32,
    /// Scales of numbers that are quantized, by group.
    pub scale: spec_fn(Seq<u32>, int) -> u32,
    /// Sums of numbers that are quantized, by group.
    pub sum: spec_fn(Seq<u32>, int) -> u32,
    /// A channel of a row that is normalized with scales and offsets.
    pub layernorm: spec_fn(Seq<u32>, Seq<u32>, Seq<u32>, u32, int) -> u32,
    /// A channel of a row that is normalized with scales.
    pub rmsnorm: spec_fn(Seq<u32>, Seq<u32>, u32, int) -> u32,
    /// A channel of the queries and keys of a row, rotated by its position: the row, the
    /// position, the numbers of heads and of key-value heads, the width of a head, the base
    /// of the angles, and which channel.
    pub rotated: spec_fn(Seq<u32>, int, int, int, int, u32, int) -> u32,
    /// An element of a part of the eight-bit cache: the part, the keys or values of a row,
    /// the number of key-value heads, the width of a head, and which element.
    pub narrowed: spec_fn(KvPart, Seq<u32>, int, int, int) -> u32,
    /// A channel of the attention of queries over what the cache holds: whether it holds
    /// eight bits, the queries, the parts of the cache up to and with the position of the
    /// queries, the numbers of heads and of key-value heads, the width of a head, and which
    /// channel.
    pub attended: spec_fn(bool, Seq<u32>, Seq<Seq<u32>>, int, int, int, int) -> u32,
    /// The activation of GPT-2.
    pub gelu: spec_fn(u32) -> u32,
    /// The activation of the rotary archs: the gating number, which goes through the
    /// sigmoid-weighted unit, and the number that it weighs.
    pub gated: spec_fn(u32, u32) -> u32,
    /// A channel of the embedding of a token: the form and the planes of the table, the width
    /// of an embedding, the size of the vocabulary, the token, and which channel.
    pub embedded: spec_fn(Form, Seq<Seq<u32>>, int, int, u32, int) -> u32,
}

/// The memory with other words in a buffer.
pub open spec fn put(m: Memory, b: Buf, s: Seq<u32>) -> Memory {
    |x: Buf|
        if x == b {
            s
        } else {
            m(x)
        }
}

/// The words with `n` of them, from `at` on, replaced.
pub open spec fn over(old: Seq<u32>, at: int, n: int, f: spec_fn(int) -> u32) -> Seq<u32> {
    Seq::new(
        old.len(),
        |i: int|
            if at <= i < at + n {
                f(i - at)
            } else {
                old[i]
            },
    )
}

/// The words with `rows` rows of `w` of them, from `at` on, replaced.
pub open spec fn rows_over(
    old: Seq<u32>,
    at: int,
    rows: int,
    w: int,
    f: spec_fn(int, int) -> u32,
) -> Seq<u32> {
    over(old, at, rows * w, |i: int| f(i / w, i % w))
}

/// Row `r` of rows of `w` words.
pub open spec fn row(s: Seq<u32>, w: int, r: int) -> Seq<u32> {
    s.subrange(r * w, r * w + w)
}

/// The buffer that is an argument.
pub open spec fn buf(l: LaunchView, i: int) -> Buf {
    l.args[i]->Buf_0
}

/// The number that is an argument.
pub open spec fn num(l: LaunchView, i: int) -> int {
    l.args[i]->I32_0 as int
}

/// The pattern of the single-precision number that is an argument.
pub open spec fn pattern(l: LaunchView, i: int) -> u32 {
    l.args[i]->F32_0
}

/// One thread for each of `n` elements, or more.
pub open spec fn covers(l: LaunchView, n: int) -> bool {
    n <= l.grid.0 * l.block.0
}

/// The form that a one-row multiplication or a lookup works on.
pub open spec fn form_of(k: Kernel) -> Form {
    match k {
        Kernel::Gemv | Kernel::Embed | Kernel::EmbedDyn | Kernel::EmbedBatch => Form::F32,
        Kernel::GemvHalf | Kernel::EmbedHalf | Kernel::EmbedHalfDyn | Kernel::EmbedHalfBatch => {
            Form::F16
        },
        Kernel::GemvInt8 | Kernel::EmbedInt8 | Kernel::EmbedInt8Dyn | Kernel::EmbedInt8Batch => {
            Form::Int8
        },
        Kernel::GemvInt4 | Kernel::EmbedInt4 | Kernel::EmbedInt4Dyn | Kernel::EmbedInt4Batch => {
            Form::Int4
        },
        Kernel::GemvInt4k | Kernel::EmbedInt4k | Kernel::EmbedInt4kDyn | Kernel::EmbedInt4kBatch => {
            Form::Int4K
        },
        Kernel::GemvInt3 | Kernel::EmbedInt3 | Kernel::EmbedInt3Dyn | Kernel::EmbedInt3Batch => {
            Form::Int3
        },
        _ => Form::Int2,
    }
}

/// How many planes a form has that every kernel takes.
pub open spec fn plane_count(f: Form) -> int {
    match f {
        Form::F32 => 1,
        Form::F16 => 1,
        Form::Int8 => 2,
        Form::Int4 => 2,
        _ => 3,
    }
}

/// The planes of a matrix, from the argument of number `i` on.
pub open spec fn plane_words(m: Memory, l: LaunchView, f: Form, i: int) -> Seq<Seq<u32>> {
    Seq::new(plane_count(f) as nat, |k: int| m(buf(l, i + k)))
}

/// Bytes that a one-row multiplication stages: the row as numbers, or packed with a scale per
/// group, and for the forms of four bits and less two sums besides, per group and per block.
pub open spec fn staged(f: Form, n_in: int, ag: int) -> int {
    match f {
        Form::F32 => 4 * n_in,
        Form::F16 => 4 * n_in,
        Form::Int8 => n_in + 4 * (n_in / ag),
        Form::Int4 => n_in + 2 * n_in + n_in / 8,
        _ => n_in + 2 * n_in + n_in / 4,
    }
}

/// A row times a matrix, with a bias added; added to what is there where the last number
/// says so. The four-bit form takes the order of the channels besides.
pub open spec fn gemv_meaning(x: Math, ag: int, m: Memory, l: LaunchView) -> Memory {
    let f = form_of(l.kernel);
    let p = plane_count(f);
    let (y, n_in, n_out) = (buf(l, 0), num(l, p + 3), num(l, p + 4));
    let order = if f is Int4 && l.args[p + 6] is Buf {
        seq![m(buf(l, p + 6))]
    } else {
        Seq::empty()
    };
    let w = plane_words(m, l, f, 2) + order;
    let v = m(buf(l, 1)).take(n_in);
    let each = |o: int|
        {
            let d = (x.plus)((x.dot)(f, w, v, n_out, o), m(buf(l, p + 2))[o]);
            if num(l, p + 5) != 0 {
                (x.plus)(m(y)[o], d)
            } else {
                d
            }
        };
    if covers(l, n_out) && staged(f, n_in, ag) <= l.shared {
        put(m, y, over(m(y), 0, n_out, each))
    } else {
        m
    }
}

/// How a several-row multiplication works: the form, the rows and columns of a tile (none for
/// one pass over the columns), and the threads of a block.
pub open spec fn tiling(k: Kernel) -> (Form, Option<(int, int)>, (u32, u32, u32)) {
    let square = (16u32, 16u32, 1u32);
    let flat = (256u32, 1u32, 1u32);
    match k {
        Kernel::GemmRowsF32 => (Form::F32, None, flat),
        Kernel::GemmF32Skinny => (Form::F32, Some((16, 64)), square),
        Kernel::GemmF32 => (Form::F32, Some((64, 64)), square),
        Kernel::GemmF32Wide => (Form::F32, Some((128, 128)), flat),
        Kernel::GemmRowsHalf => (Form::F16, None, flat),
        Kernel::GemmHalfSkinny => (Form::F16, Some((16, 64)), square),
        Kernel::GemmHalf => (Form::F16, Some((64, 64)), square),
        Kernel::GemmHalfWide => (Form::F16, Some((128, 128)), flat),
        Kernel::GemmRowsInt8 => (Form::Int8, None, flat),
        Kernel::GemmInt8Skinny => (Form::Int8, Some((16, 64)), square),
        Kernel::GemmInt8 => (Form::Int8, Some((64, 64)), square),
        Kernel::GemmInt8Wide => (Form::Int8, Some((128, 128)), flat),
        Kernel::GemmRowsInt4 => (Form::Int4, None, flat),
        Kernel::GemmInt4Skinny => (Form::Int4, Some((16, 64)), square),
        Kernel::GemmInt4 => (Form::Int4, Some((64, 64)), square),
        Kernel::GemmInt4Wide => (Form::Int4, Some((128, 64)), flat),
        Kernel::GemmRowsInt4k => (Form::Int4K, None, flat),
        Kernel::GemmInt4kSkinny => (Form::Int4K, Some((16, 64)), square),
        Kernel::GemmInt4k => (Form::Int4K, Some((64, 64)), square),
        Kernel::GemmInt4kWide => (Form::Int4K, Some((128, 64)), flat),
        Kernel::GemmRowsInt3 => (Form::Int3, None, flat),
        Kernel::GemmInt3Skinny => (Form::Int3, Some((16, 64)), square),
        Kernel::GemmInt3 => (Form::Int3, Some((64, 64)), square),
        Kernel::GemmRowsInt2 => (Form::Int2, None, flat),
        Kernel::GemmInt2Skinny => (Form::Int2, Some((16, 64)), square),
        _ => (Form::Int2, Some((64, 64)), square),
    }
}

/// The tiles cover `m` rows and `n` columns. One pass takes up to eight rows, a thread per
/// column, or per four of them where there are many.
pub open spec fn tiles_cover(l: LaunchView, m: int, n: int) -> bool {
    let (f, tile, threads) = tiling(l.kernel);
    &&& l.block == threads
    &&& match tile {
        None => m <= 8 && (if n % 4 == 0 && n >= 4096 {
            n / 4
        } else {
            n
        }) <= l.grid.0 * 256,
        Some((rows, cols)) => m <= l.grid.1 * rows && n <= l.grid.0 * cols,
    }
}

/// Rows times a matrix, with a bias added to each. The forms of integers take the rows
/// quantized.
pub open spec fn gemm_meaning(x: Math, m: Memory, l: LaunchView) -> Memory {
    let f = tiling(l.kernel).0;
    let whole = !(f is F32) && !(f is F16);
    let a: int = if whole {
        3
    } else {
        2
    };
    let p = plane_count(f);
    let (rows, n, k) = (num(l, a + p + 1), num(l, a + p + 2), num(l, a + p + 3));
    let w = plane_words(m, l, f, a);
    let bias = m(buf(l, a + p));
    let each = |r: int, o: int|
        (x.plus)(
            if whole {
                (x.dot_packed)(f, w, m(buf(l, 1)), m(buf(l, 2)), r, k, n, o)
            } else {
                (x.dot)(f, w, row(m(buf(l, 1)), k, r), n, o)
            },
            bias[o],
        );
    if tiles_cover(l, rows, n) && k % 16 == 0 && (whole ==> k % 32 == 0) {
        put(m, buf(l, 0), rows_over(m(buf(l, 0)), 0, rows, n, each))
    } else {
        m
    }
}

/// Numbers quantized in groups of `ag`.
pub open spec fn quantize_meaning(x: Math, ag: int, m: Memory, l: LaunchView) -> Memory {
    let n = num(l, 4) * ag;
    let v = m(buf(l, 3)).take(n);
    if covers(l, num(l, 4)) {
        let a = put(m, buf(l, 0), over(m(buf(l, 0)), 0, n / 4, |i: int| (x.packed)(v, i)));
        let b = put(a, buf(l, 1), over(m(buf(l, 1)), 0, num(l, 4), |i: int| (x.scale)(v, i)));
        put(b, buf(l, 2), over(m(buf(l, 2)), 0, num(l, 4), |i: int| (x.sum)(v, i)))
    } else {
        m
    }
}

/// A lookup of `rows` tokens from a position on, into rows of `n` numbers; `i` is the place of
/// the first argument behind the planes, the position embeddings.
pub open spec fn embed_meaning(
    x: Math,
    m: Memory,
    l: LaunchView,
    tokens: spec_fn(int) -> u32,
    pos: int,
    rows: int,
    n: int,
    vocab: int,
) -> Memory {
    let f = form_of(l.kernel);
    let w = plane_words(m, l, f, 1);
    let wpe = m(buf(l, plane_count(f) + 1));
    let each = |r: int, i: int|
        (x.plus)((x.embedded)(f, w, n, vocab, tokens(r), i), wpe[(pos + r) * n + i]);
    if covers(l, rows * n) {
        put(m, buf(l, 0), rows_over(m(buf(l, 0)), 0, rows, n, each))
    } else {
        m
    }
}

/// One token and its position, as arguments.
pub open spec fn embed_host_meaning(x: Math, m: Memory, l: LaunchView) -> Memory {
    let p = plane_count(form_of(l.kernel));
    embed_meaning(
        x,
        m,
        l,
        |r: int| l.args[p + 2]->I32_0 as u32,
        num(l, p + 3),
        1,
        num(l, p + 4),
        num(l, p + 5),
    )
}

/// One token and its position, in memory.
pub open spec fn embed_dyn_meaning(x: Math, m: Memory, l: LaunchView) -> Memory {
    let p = plane_count(form_of(l.kernel));
    embed_meaning(
        x,
        m,
        l,
        |r: int| m(buf(l, p + 2))[0],
        m(buf(l, p + 3))[0] as int,
        1,
        num(l, p + 4),
        num(l, p + 5),
    )
}

/// A run of tokens in memory, from a position on.
pub open spec fn embed_batch_meaning(x: Math, m: Memory, l: LaunchView) -> Memory {
    let p = plane_count(form_of(l.kernel));
    embed_meaning(
        x,
        m,
        l,
        |r: int| m(buf(l, p + 2))[r],
        num(l, p + 3),
        num(l, p + 4),
        num(l, p + 5),
        num(l, p + 6),
    )
}

/// Normalization of `rows` rows of `n` numbers, with the scales in the third argument, and
/// the offsets in the fourth where there are any. A block works on a row.
pub open spec fn norm_meaning(
    x: Math,
    m: Memory,
    l: LaunchView,
    offsets: bool,
    rows: int,
    n: int,
    eps: u32,
) -> Memory {
    let each = |r: int, i: int|
        {
            let v = row(m(buf(l, 1)), n, r);
            if offsets {
                (x.layernorm)(v, m(buf(l, 2)), m(buf(l, 3)), eps, i)
            } else {
                (x.rmsnorm)(v, m(buf(l, 2)), eps, i)
            }
        };
    if rows <= l.grid.0 && l.block.0 == 256 {
        put(m, buf(l, 0), rows_over(m(buf(l, 0)), 0, rows, n, each))
    } else {
        m
    }
}

/// Rotation of the queries and keys of `rows` rows of `w` numbers, from a position on, in
/// place; a thread turns two numbers.
pub open spec fn rope_meaning(
    x: Math,
    m: Memory,
    l: LaunchView,
    pos: int,
    rows: int,
    nh: int,
    nkv: int,
    hd: int,
    w: int,
    theta: u32,
) -> Memory {
    let b = buf(l, 0);
    let each = |r: int, i: int|
        if i < (nh + nkv) * hd {
            (x.rotated)(row(m(b), w, r), pos + r, nh, nkv, hd, theta, i)
        } else {
            m(b)[r * w + i]
        };
    if covers(l, rows * ((nh + nkv) * hd) / 2) {
        put(m, b, rows_over(m(b), 0, rows, w, each))
    } else {
        m
    }
}

/// The parts of a cache, in order.
pub open spec fn parts(kv8: bool) -> Seq<KvPart> {
    if kv8 {
        seq![KvPart::K, KvPart::V, KvPart::Ks, KvPart::Vs, KvPart::Kb, KvPart::Vb]
    } else {
        seq![KvPart::K, KvPart::V]
    }
}

/// The part belongs to the keys.
pub open spec fn of_keys(p: KvPart) -> bool {
    p is K || p is Ks || p is Kb
}

/// How many elements of a part of a cache a position has.
pub open spec fn part_width(p: KvPart, nkv: int, hd: int) -> int {
    if p is K || p is V {
        nkv * hd
    } else {
        nkv
    }
}

/// What a part of the cache holds of a row of queries, keys and values, behind `qd` numbers
/// of queries.
pub open spec fn part_row(
    x: Math,
    kv8: bool,
    p: KvPart,
    v: Seq<u32>,
    qd: int,
    nkv: int,
    hd: int,
) -> Seq<u32> {
    let w = nkv * hd;
    let from = if of_keys(p) {
        v.subrange(qd, qd + w)
    } else {
        v.subrange(qd + w, qd + w + w)
    };
    if kv8 {
        Seq::new(part_width(p, nkv, hd) as nat, |j: int| (x.narrowed)(p, from, nkv, hd, j))
    } else {
        from
    }
}

/// A part of a cache with `rows` rows stored in it, from a position on. The rows are `w`
/// numbers apart.
pub open spec fn stored_rows(
    x: Math,
    kv8: bool,
    p: KvPart,
    old: Seq<u32>,
    pos: int,
    rows: int,
    v: Seq<u32>,
    w: int,
    qd: int,
    nkv: int,
    hd: int,
) -> Seq<u32> {
    let n = part_width(p, nkv, hd);
    rows_over(
        old,
        pos * n,
        rows,
        n,
        |r: int, j: int| part_row(x, kv8, p, row(v, w, r), qd, nkv, hd)[j],
    )
}

/// Storing rows in an eight-bit cache: a block works on a head of a row.
pub open spec fn narrow_meaning(
    x: Math,
    m: Memory,
    l: LaunchView,
    pos: int,
    w: int,
) -> Memory {
    let rows = l.grid.1 as int;
    let (v, qd, nkv, hd) = (m(buf(l, 6)), num(l, 8), num(l, 9), num(l, 10));
    let part = |i: int|
        stored_rows(x, true, parts(true)[i], m(buf(l, i)), pos, rows, v, w, qd, nkv, hd);
    if nkv <= l.grid.0 && hd <= l.block.0 {
        put(
            put(
                put(
                    put(
                        put(put(m, buf(l, 0), part(0)), buf(l, 1), part(1)),
                        buf(l, 2),
                        part(2),
                    ),
                    buf(l, 3),
                    part(3),
                ),
                buf(l, 4),
                part(4),
            ),
            buf(l, 5),
            part(5),
        )
    } else {
        m
    }
}

/// Storing rows in a single-precision cache.
pub open spec fn store_meaning(
    x: Math,
    m: Memory,
    l: LaunchView,
    pos: int,
    rows: int,
    qd: int,
    kvd: int,
    w: int,
) -> Memory {
    let v = m(buf(l, 2));
    let part = |i: int|
        stored_rows(x, false, parts(false)[i], m(buf(l, i)), pos, rows, v, w, qd, 1, kvd);
    if covers(l, kvd) && rows <= l.grid.1 {
        put(put(m, buf(l, 0), part(0)), buf(l, 1), part(1))
    } else {
        m
    }
}

/// What a cache holds up to and with a position, part by part; its buffers are arguments from
/// the third on.
pub open spec fn past(m: Memory, l: LaunchView, kv8: bool, pos: int, nkv: int, hd: int) -> Seq<
    Seq<u32>,
> {
    Seq::new(
        parts(kv8).len(),
        |i: int| m(buf(l, 2 + i)).take((pos + 1) * part_width(parts(kv8)[i], nkv, hd)),
    )
}

/// Attention of `rows` rows from a position on, each over the cache up to its own position.
/// The queries are the first numbers of rows that are `w` numbers apart.
pub open spec fn attend_meaning(
    x: Math,
    m: Memory,
    l: LaunchView,
    kv8: bool,
    pos: int,
    rows: int,
    nh: int,
    nkv: int,
    hd: int,
    w: int,
) -> Memory {
    let v = m(buf(l, 1));
    let each = |r: int, i: int|
        (x.attended)(
            kv8,
            row(v, w, r).take(nh * hd),
            past(m, l, kv8, pos + r, nkv, hd),
            nh,
            nkv,
            hd,
            i,
        );
    put(m, buf(l, 0), rows_over(m(buf(l, 0)), 0, rows, nh * hd, each))
}

/// Attention of one row: a block works on a head. The row in memory is as wide as the queries
/// are, or wider.
pub open spec fn attend_one_meaning(
    x: Math,
    m: Memory,
    l: LaunchView,
    kv8: bool,
    pos: int,
    at: int,
) -> Memory {
    let (nh, nkv, hd) = (num(l, at), num(l, at + 1), num(l, at + 2));
    if nh <= l.grid.0 && l.block.0 == 128 {
        attend_meaning(x, m, l, kv8, pos, 1, nh, nkv, hd, m(buf(l, 1)).len() as int)
    } else {
        m
    }
}

/// Attention of a batch, for heads of 64 numbers: a block works on a head of 64 rows.
pub open spec fn attend_batch_meaning(
    x: Math,
    m: Memory,
    l: LaunchView,
    kv8: bool,
    at: int,
) -> Memory {
    let (pos, rows, nh, nkv) = (num(l, at), num(l, at + 1), num(l, at + 2), num(l, at + 3));
    let (w, qd) = (num(l, at + 4), num(l, at + 5));
    if nh <= l.grid.0 && rows <= l.grid.1 * 64 && l.block.0 == 64 && qd == nh * 64 {
        attend_meaning(x, m, l, kv8, pos, rows, nh, nkv, 64, w)
    } else {
        m
    }
}

/// Element-wise work on the first buffer, with the second at hand.
pub open spec fn each_meaning(
    m: Memory,
    l: LaunchView,
    n: int,
    f: spec_fn(u32, u32) -> u32,
    second: Seq<u32>,
) -> Memory {
    let b = buf(l, 0);
    if covers(l, n) {
        put(m, b, over(m(b), 0, n, |i: int| f(m(b)[i], second[i])))
    } else {
        m
    }
}

/// The greedy choice of each row of logits, a block per row.
pub open spec fn choices_meaning(m: Memory, l: LaunchView) -> Memory {
    let (n, v) = (num(l, 2), m(buf(l, 1)));
    put(
        m,
        buf(l, 0),
        over(m(buf(l, 0)), 0, l.grid.0 as int, |r: int| argmax_index(row(v, n, r)) as u32),
    )
}

/// The greedy choice in place of the token, and the next position.
pub open spec fn advance_meaning(m: Memory, l: LaunchView) -> Memory {
    let best = argmax_index(m(buf(l, 2)).take(num(l, 3))) as u32;
    let next = (m(buf(l, 1))[0] + 1) as u32;
    if 1 <= l.grid.0 {
        put(
            put(m, buf(l, 0), over(m(buf(l, 0)), 0, 1, |i: int| best)),
            buf(l, 1),
            over(m(buf(l, 1)), 0, 1, |i: int| next),
        )
    } else {
        m
    }
}

/// What a launch does.
#[verifier::opaque]
pub open spec fn launch_meaning(x: Math, ag: int, m: Memory, l: LaunchView) -> Memory {
    match l.kernel {
        Kernel::Gemv | Kernel::GemvHalf | Kernel::GemvInt8 | Kernel::GemvInt4 | Kernel::GemvInt4k
        | Kernel::GemvInt3 | Kernel::GemvInt2 => gemv_meaning(x, ag, m, l),
        Kernel::Embed | Kernel::EmbedHalf | Kernel::EmbedInt8 | Kernel::EmbedInt4
        | Kernel::EmbedInt4k | Kernel::EmbedInt3 | Kernel::EmbedInt2 => embed_host_meaning(x, m, l),
        Kernel::EmbedDyn | Kernel::EmbedHalfDyn | Kernel::EmbedInt8Dyn | Kernel::EmbedInt4Dyn
        | Kernel::EmbedInt4kDyn | Kernel::EmbedInt3Dyn | Kernel::EmbedInt2Dyn => {
            embed_dyn_meaning(x, m, l)
        },
        Kernel::EmbedBatch | Kernel::EmbedHalfBatch | Kernel::EmbedInt8Batch
        | Kernel::EmbedInt4Batch | Kernel::EmbedInt4kBatch | Kernel::EmbedInt3Batch
        | Kernel::EmbedInt2Batch => embed_batch_meaning(x, m, l),
        Kernel::Layernorm => norm_meaning(x, m, l, true, 1, num(l, 4), pattern(l, 5)),
        Kernel::Rmsnorm => norm_meaning(x, m, l, false, 1, num(l, 3), pattern(l, 4)),
        Kernel::LayernormBatch => norm_meaning(x, m, l, true, num(l, 4), num(l, 5), pattern(l, 6)),
        Kernel::RmsnormBatch => norm_meaning(x, m, l, false, num(l, 3), num(l, 4), pattern(l, 5)),
        Kernel::Rope => {
            let w = m(buf(l, 0)).len() as int;
            rope_meaning(x, m, l, num(l, 1), 1, num(l, 2), num(l, 3), num(l, 4), w, pattern(l, 5))
        },
        Kernel::RopeDyn => {
            let w = m(buf(l, 0)).len() as int;
            let pos = m(buf(l, 1))[0] as int;
            rope_meaning(x, m, l, pos, 1, num(l, 2), num(l, 3), num(l, 4), w, pattern(l, 5))
        },
        Kernel::RopeBatch => rope_meaning(
            x,
            m,
            l,
            num(l, 1),
            num(l, 2),
            num(l, 3),
            num(l, 4),
            num(l, 5),
            num(l, 6),
            pattern(l, 7),
        ),
        Kernel::QuantizeKv => narrow_meaning(x, m, l, num(l, 7), m(buf(l, 6)).len() as int),
        Kernel::QuantizeKvDyn => narrow_meaning(
            x,
            m,
            l,
            m(buf(l, 7))[0] as int,
            m(buf(l, 6)).len() as int,
        ),
        Kernel::QuantizeKvBatch => narrow_meaning(x, m, l, num(l, 7), num(l, 11)),
        Kernel::CopyKvDyn => store_meaning(
            x,
            m,
            l,
            m(buf(l, 3))[0] as int,
            1,
            num(l, 4),
            num(l, 5),
            m(buf(l, 2)).len() as int,
        ),
        Kernel::CopyKvBatch => store_meaning(
            x,
            m,
            l,
            num(l, 3),
            l.grid.1 as int,
            num(l, 4),
            num(l, 5),
            num(l, 6),
        ),
        Kernel::AttnDecode => attend_one_meaning(x, m, l, false, num(l, 4), 5),
        Kernel::AttnDecodeDyn => attend_one_meaning(x, m, l, false, m(buf(l, 4))[0] as int, 5),
        Kernel::AttnDecodeQ8 => attend_one_meaning(x, m, l, true, num(l, 8), 9),
        Kernel::AttnDecodeQ8Dyn => attend_one_meaning(x, m, l, true, m(buf(l, 8))[0] as int, 9),
        Kernel::AttnPrefill => attend_batch_meaning(x, m, l, false, 4),
        Kernel::AttnPrefillQ8 => attend_batch_meaning(x, m, l, true, 8),
        Kernel::QuantizeAct => quantize_meaning(x, ag, m, l),
        Kernel::AddInplace => each_meaning(m, l, num(l, 2), x.plus, m(buf(l, 1))),
        Kernel::GeluInplace => {
            let f = |a: u32, b: u32| (x.gelu)(a);
            each_meaning(m, l, num(l, 1), f, m(buf(l, 0)))
        },
        Kernel::SiluMul => each_meaning(m, l, num(l, 2), x.gated, m(buf(l, 1))),
        Kernel::CopyRow => {
            let (n, from) = (num(l, 3), num(l, 2));
            let f = |a: u32, b: u32| b;
            each_meaning(m, l, n, f, row(m(buf(l, 1)), n, from))
        },
        Kernel::ArgmaxRows => choices_meaning(m, l),
        Kernel::ArgmaxAdvance => advance_meaning(m, l),
        _ => gemm_meaning(x, m, l),
    }
}

/// What a step does.
pub open spec fn meaning(x: Math, ag: int, m: Memory, step: StepView) -> Memory {
    match step {
        StepView::Launch(l) => launch_meaning(x, ag, m, l),
        StepView::Copy { src, src_at, dst, dst_at, len } => put(
            m,
            dst,
            over(m(dst), dst_at, len, |i: int| m(src)[src_at + i]),
        ),
        StepView::Upload { dst, values } => put(
            m,
            dst,
            over(m(dst), 0, values.len() as int, |i: int| values[i] as u32),
        ),
    }
}

/// The device of an arithmetic whose kernels quantize activations in groups of `ag`.
pub open spec fn gpu(x: Math, ag: int) -> Device {
    |m: Memory, step: StepView| meaning(x, ag, m, step)
}

} // verus!
