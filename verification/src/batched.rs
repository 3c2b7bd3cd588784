//! What the plans over several tokens compute: the same as decode steps one after the other.
//!
//! On the device of an arithmetic whose kernels for several rows agree with those for one row,
//! a batched prefill ends with the logits and the cache that decode steps of the tokens end
//! with, and the verification of a draft with the greedy choice after each of its tokens.

use crate::batch::token_words;
use crate::engine::{or_zero, Engine, MAX_SPEC_TOKENS};
use crate::floatbits::argmax_index;
use crate::gptq::Role;
use crate::kernel::Kernel;
use crate::launch::{
    add_step, blocks_cover_exactly, gemm_steps, gemm_width_ok, grid1d, norm_batch_step, planes,
    quantize_act_step, quantized, Arg, Buf, KvPart, StepView, Tensor, VecName, Weights,
};
use crate::meaning::{
    buf, form_of, gpu, launch_meaning, meaning, num, over, part_row, part_width, parts, plane_count,
    plane_words, put, row, rows_over, stored_rows, tiles_cover, tiling, Form, Math,
};
use crate::model::{Arch, Config};
use crate::plans::{engine_ready, holds, layer_ready};
use crate::quant::div_up;
use crate::reference::{
    activated, attention, cache_after, cached, countable, decode_step_is_the_transformer, form,
    hidden, lemma_bias, lemma_grid, lemma_hidden_stays, lemma_no_bias, lemma_planes, lemma_run_at,
    lemma_run_one, lemma_same_matrix, lemma_weights_stay, logits_of, looked_up, matrix, mixed,
    next_logits, normed, offsets, placed, positioned, product, projected, same_model, scratch,
    summed, unordered, widened,
};
use crate::replay::{lemma_run_add, run, Memory};
use crate::setup::Setup;
use vstd::prelude::*;

verus! {

/// The words are the packed values and the scales of the numbers.
pub open spec fn packs(x: Math, ag: int, v: Seq<u32>, q: Seq<u32>, scales: Seq<u32>) -> bool {
    &&& v.len() / 4 <= q.len()
    &&& v.len() as int / ag <= scales.len()
    &&& forall|i: int| 0 <= i < v.len() / 4 ==> #[trigger] q[i] == (x.packed)(v, i)
    &&& forall|i: int| 0 <= i < v.len() as int / ag ==> #[trigger] scales[i] == (x.scale)(v, i)
}

/// A row that is quantized apart gives the product that the row itself gives, which the
/// kernels for one row quantize themselves.
pub open spec fn row_agrees(
    x: Math,
    ag: int,
    f: Form,
    w: Seq<Seq<u32>>,
    v: Seq<u32>,
    q: Seq<u32>,
    scales: Seq<u32>,
    r: int,
    k: int,
    n: int,
    o: int,
) -> bool {
    packs(x, ag, v, q, scales) && 0 <= r && 0 <= k && r * k + k <= v.len() ==> (x.dot_packed)(
        f,
        w,
        q,
        scales,
        r,
        k,
        n,
        o,
    ) == (x.dot)(f, w, row(v, k, r), n, o)
}

/// The kernels for several rows agree with those for one row.
pub open spec fn agrees(x: Math, ag: int) -> bool {
    forall|
        f: Form,
        w: Seq<Seq<u32>>,
        v: Seq<u32>,
        q: Seq<u32>,
        scales: Seq<u32>,
        r: int,
        k: int,
        n: int,
        o: int,
    | #[trigger]
        row_agrees(x, ag, f, w, v, q, scales, r, k, n, o)
}

/// The counts of a batch are numbers that kernels take.
pub open spec fn batch_countable(c: Config) -> bool {
    &&& countable(c)
    &&& c.n_ctx * c.n_embd <= 0x7fff_ffff
    &&& c.n_ctx * c.n_inter <= 0x7fff_ffff
    &&& c.n_ctx * c.qkv_width() <= 0x7fff_ffff
}

/// There is room to quantize rows of `k` numbers.
pub open spec fn room(m: Memory, e: Engine, k: int) -> bool {
    &&& e.config.n_ctx * k / 4 <= m(Buf::ActQ).len()
    &&& e.config.n_ctx * k / (e.ag as int) <= m(Buf::ActScale).len()
}

/// The buffers of a batch have the sizes that opening a model gives them.
pub open spec fn spread(m: Memory, e: Engine) -> bool {
    let c = e.config;
    &&& placed(m, e)
    &&& m(Buf::BatchTok).len() == c.n_ctx
    &&& m(Buf::BatchX).len() == c.n_ctx * c.n_embd
    &&& m(Buf::BatchXb).len() == c.n_ctx * c.n_embd
    &&& m(Buf::BatchQkv).len() == c.n_ctx * c.qkv_width()
    &&& m(Buf::BatchAttn).len() == c.n_ctx * c.q_width()
    &&& m(Buf::BatchH).len() == c.n_ctx * c.n_inter
    &&& m(Buf::BatchH2).len() == c.n_ctx * c.n_inter
    &&& m(Buf::BatchLogits).len() == MAX_SPEC_TOKENS * c.n_vocab
    &&& m(Buf::BatchArgmax).len() == MAX_SPEC_TOKENS
    &&& room(m, e, c.n_embd as int)
    &&& room(m, e, c.q_width())
    &&& room(m, e, c.n_inter as int)
}

/// The buffer is one that rows are quantized into.
pub open spec fn of_act(b: Buf) -> bool {
    b == Buf::ActQ || b == Buf::ActScale || b == Buf::ActSum
}

/// The buffer is one that a batch works in.
pub open spec fn batch_scratch(b: Buf) -> bool {
    of_act(b) || b == Buf::BatchTok || b == Buf::BatchX || b == Buf::BatchXb || b == Buf::BatchQkv || b
        == Buf::BatchAttn || b == Buf::BatchH || b == Buf::BatchH2
}

/// Places of a row inside rows.
pub proof fn lemma_row_place(rows: int, w: int, r: int)
    requires
        0 <= r < rows,
        0 <= w,
    ensures
        0 <= r * w <= r * w + w <= rows * w,
        (r + 1) * w == r * w + w,
{
    assert(0 <= r * w && r * w + w <= rows * w && (r + 1) * w == r * w + w) by (nonlinear_arith)
        requires
            0 <= r < rows,
            0 <= w,
    ;
}

/// A row among rows that were replaced.
pub proof fn lemma_row_of(
    old: Seq<u32>,
    rows: int,
    w: int,
    f: spec_fn(int, int) -> u32,
    r: int,
    s: Seq<u32>,
)
    requires
        0 <= r < rows,
        0 <= w,
        rows * w <= old.len(),
        s.len() == w,
        forall|j: int| 0 <= j < w ==> #[trigger] s[j] == f(r, j),
    ensures
        row(rows_over(old, 0, rows, w, f), w, r) == s,
        r * w + w <= old.len(),
{
    lemma_row_place(rows, w, r);
    let a = row(rows_over(old, 0, rows, w, f), w, r);
    assert forall|j: int| 0 <= j < w implies a[j] == s[j] by {
        let i = r * w + j;
        assert(i == w * r + j) by (nonlinear_arith)
            requires
                i == r * w + j,
        ;
        vstd::arithmetic::div_mod::lemma_fundamental_div_mod_converse(i, w, r, j);
        assert(s[j] == f(r, j));
    }
    assert(a =~= s);
}

/// A row of rows that keep theirs.
pub proof fn lemma_row_kept(s: Seq<u32>, n: int, w: int, r: int)
    requires
        0 <= r < n,
        0 <= w,
        n * w <= s.len(),
    ensures
        row(s, w, r).len() == w,
        row(s.take(n * w), w, r) == row(s, w, r),
        forall|j: int| 0 <= j < w ==> #[trigger] row(s, w, r)[j] == s[r * w + j],
{
    lemma_row_place(n, w, r);
    assert(row(s.take(n * w), w, r) =~= row(s, w, r));
}

proof fn lemma_tiles(ag: int, c: Buf, a: Buf, w: Weights, b: Buf, rows: int, n: int, k: int)
    requires
        0 < rows <= 0x1000_0000,
        0 <= n <= 0x1000_0000,
    ensures
        ({
            let l = gemm_steps(ag, c, a, w, b, rows, n, k).last()->Launch_0;
            tiles_cover(l, rows, n) && tiling(l.kernel).0 == form(w)
        }),
{
    let l = gemm_steps(ag, c, a, w, b, rows, n, k).last()->Launch_0;
    let tile = tiling(l.kernel).1;
    match tile {
        None => {
            let cols = if n % 4 == 0 && n >= 4096 {
                n / 4
            } else {
                n
            };
            lemma_grid(cols);
        },
        Some((tr, tc)) => {
            blocks_cover_exactly(rows, tr);
            blocks_cover_exactly(n, tc);
            assert(0 <= div_up(rows, tr) <= rows) by (nonlinear_arith)
                requires
                    (div_up(rows, tr) - 1) * tr < rows,
                    div_up(rows, tr) * tr >= rows,
                    rows > 0,
                    tr >= 1,
            ;
            assert(0 <= div_up(n, tc) <= n) by (nonlinear_arith)
                requires
                    n > 0 ==> (div_up(n, tc) - 1) * tc < n,
                    n == 0 ==> div_up(n, tc) == 0,
                    div_up(n, tc) * tc >= n,
                    n >= 0,
                    tc >= 1,
            ;
        },
    }
}

/// What the quantization of rows leaves.
proof fn lemma_quantize_does(x: Math, e: Engine, m: Memory, a: Buf, rows: int, k: int) -> (r: Memory)
    requires
        e.ag == 4 || e.ag == 8,
        0 <= rows <= e.config.n_ctx,
        0 <= k,
        k % 32 == 0,
        rows * k <= 0x7fff_ffff,
        rows * k <= m(a).len(),
        room(m, e, k),
        !of_act(a),
    ensures
        r == meaning(x, e.ag as int, m, quantize_act_step(e.ag as int, a, rows, k)),
        packs(x, e.ag as int, m(a).take(rows * k), r(Buf::ActQ), r(Buf::ActScale)),
        forall|b: Buf| !of_act(b) ==> #[trigger] r(b) == m(b),
        shaped(m, r),
{
    let ag = e.ag as int;
    let step = quantize_act_step(ag, a, rows, k);
    let l = step->Launch_0;
    let n = rows * k;
    let c = e.config;
    assert(0 <= n && n <= c.n_ctx * k) by (nonlinear_arith)
        requires
            n == rows * k,
            0 <= rows <= c.n_ctx,
            0 <= k,
    ;
    let q = k / 32;
    assert(k == 32 * q);
    assert(n == 32 * (rows * q)) by (nonlinear_arith)
        requires
            n == rows * k,
            k == 32 * q,
    ;
    assert(n / ag * ag == n && 0 <= n / ag <= n && n / ag <= c.n_ctx * k / ag && n / 4 <= c.n_ctx * k
        / 4);
    lemma_grid(n / ag);
    assert(num(l, 4) == n / ag);
    let v = m(a).take(n);
    reveal(launch_meaning);
    let r = meaning(x, ag, m, step);
    assert(r == crate::meaning::quantize_meaning(x, ag, m, l));
    assert(v.len() == n);
    r
}

/// What the multiplication of several rows leaves: the product of each.
pub proof fn lemma_gemm_does(
    x: Math,
    e: Engine,
    m: Memory,
    c: Buf,
    a: Buf,
    w: Weights,
    t: Tensor,
    b: Buf,
    rows: int,
    n: int,
    k: int,
) -> (r: Memory)
    requires
        agrees(x, e.ag as int),
        e.ag == 4 || e.ag == 8,
        holds(w, t),
        unordered(w) == w,
        gemm_width_ok(w, k),
        0 < rows <= e.config.n_ctx <= 0x1000_0000,
        0 <= n <= 0x1000_0000,
        0 <= k <= 0x1000_0000,
        rows * k <= 0x7fff_ffff,
        rows * k <= m(a).len(),
        rows * n <= m(c).len(),
        room(m, e, k),
        !of_act(a) && !of_act(b) && !of_act(c),
    ensures
        r == run(gpu(x, e.ag as int), m, gemm_steps(e.ag as int, c, a, w, b, rows, n, k)),
        forall|i: int|
            0 <= i < rows ==> #[trigger] row(r(c), n, i) == product(
                x,
                form(w),
                matrix(m, w, t),
                row(m(a), k, i),
                m(b),
                n,
            ),
        r(c).len() == m(c).len(),
        forall|z: Buf| z != c && !of_act(z) ==> #[trigger] r(z) == m(z),
        shaped(m, r),
{
    let ag = e.ag as int;
    let dev = gpu(x, ag);
    let steps = gemm_steps(ag, c, a, w, b, rows, n, k);
    let whole = quantized(w);
    let main = steps.last();
    let l = main->Launch_0;
    let f = form(w);
    let p = plane_count(f);
    let none = Seq::<Seq<u32>>::empty();
    let z = if whole {
        lemma_run_at(dev, m, steps, 0);
        lemma_run_at(dev, m, steps, 1);
        lemma_quantize_does(x, e, m, a, rows, k)
    } else {
        lemma_run_at(dev, m, steps, 0);
        m
    };
    let r = run(dev, m, steps);
    assert(r == meaning(x, ag, z, main));
    let at: int = if whole {
        3
    } else {
        2
    };
    lemma_tiles(ag, c, a, w, b, rows, n, k);
    assert forall|i: int| 0 <= i < planes(w).len() implies l.args[at + i] == #[trigger] planes(w)[i] by {
    }
    lemma_planes(z, w, t, l, at, none);
    assert(plane_words(z, l, f, at) + none =~= plane_words(z, l, f, at));
    assert(matrix(z, w, t) =~= matrix(m, w, t));
    assert(l.args[0] == Arg::Buf(c) && l.args[at + p] == Arg::Buf(b));
    assert(num(l, at + p + 1) == rows && num(l, at + p + 2) == n && num(l, at + p + 3) == k);
    reveal(launch_meaning);
    assert(r == crate::meaning::gemm_meaning(x, z, l));
    let wm = matrix(m, w, t);
    let each = |i: int, o: int|
        (x.plus)(
            if whole {
                (x.dot_packed)(f, plane_words(z, l, f, at), z(buf(l, 1)), z(buf(l, 2)), i, k, n, o)
            } else {
                (x.dot)(f, plane_words(z, l, f, at), row(z(buf(l, 1)), k, i), n, o)
            },
            z(buf(l, at + p))[o],
        );
    assert(r(c) =~= rows_over(z(c), 0, rows, n, each));
    assert forall|i: int| 0 <= i < rows implies #[trigger] row(r(c), n, i) == product(
        x,
        f,
        wm,
        row(m(a), k, i),
        m(b),
        n,
    ) by {
        let s = product(x, f, wm, row(m(a), k, i), m(b), n);
        lemma_row_kept(m(a), rows, k, i);
        lemma_row_place(rows, k, i);
        assert forall|o: int| 0 <= o < n implies #[trigger] s[o] == each(i, o) by {
            if whole {
                assert(row_agrees(
                    x,
                    ag,
                    f,
                    wm,
                    m(a).take(rows * k),
                    z(Buf::ActQ),
                    z(Buf::ActScale),
                    i,
                    k,
                    n,
                    o,
                ));
            }
        }
        lemma_row_of(z(c), rows, n, each, i, s);
    }
    r
}

/// What the normalization of several rows leaves.
proof fn lemma_norm_batch_does(
    x: Math,
    ag: int,
    m: Memory,
    out: Buf,
    v: Buf,
    g: Buf,
    b: Option<Buf>,
    rows: int,
    n: int,
    eps: u32,
) -> (r: Memory)
    requires
        0 <= rows <= 0x1000_0000,
        0 <= n <= 0x1000_0000,
        rows * n <= m(out).len(),
        rows * n <= m(v).len(),
    ensures
        r == meaning(x, ag, m, norm_batch_step(out, v, g, b, rows, n, eps)),
        ({
            let off = match b {
                Some(b) => Some(m(b)),
                None => None,
            };
            forall|i: int|
                0 <= i < rows ==> #[trigger] row(r(out), n, i) == normed(
                    x,
                    row(m(v), n, i),
                    m(g),
                    off,
                    eps,
                )
        }),
        forall|z: Buf| z != out ==> #[trigger] r(z) == m(z),
        shaped(m, r),
{
    let step = norm_batch_step(out, v, g, b, rows, n, eps);
    let l = step->Launch_0;
    let there = b is Some;
    let off = match b {
        Some(b) => Some(m(b)),
        None => None,
    };
    reveal(launch_meaning);
    let r = meaning(x, ag, m, step);
    assert(r == crate::meaning::norm_meaning(x, m, l, there, rows, n, eps));
    let each = |q: int, i: int|
        {
            let v = row(m(buf(l, 1)), n, q);
            if there {
                (x.layernorm)(v, m(buf(l, 2)), m(buf(l, 3)), eps, i)
            } else {
                (x.rmsnorm)(v, m(buf(l, 2)), eps, i)
            }
        };
    assert(r(out) =~= rows_over(m(out), 0, rows, n, each));
    assert forall|i: int| 0 <= i < rows implies #[trigger] row(r(out), n, i) == normed(
        x,
        row(m(v), n, i),
        m(g),
        off,
        eps,
    ) by {
        lemma_row_kept(m(v), rows, n, i);
        lemma_row_of(m(out), rows, n, each, i, normed(x, row(m(v), n, i), m(g), off, eps));
    }
    r
}

/// What the element-wise sum of rows leaves.
proof fn lemma_add_does(x: Math, ag: int, m: Memory, a: Buf, b: Buf, rows: int, n: int) -> (r: Memory)
    requires
        0 <= rows,
        0 <= n,
        rows * n <= 0x7fff_ffff,
        rows * n <= m(a).len(),
        rows * n <= m(b).len(),
    ensures
        r == meaning(x, ag, m, add_step(a, b, rows * n)),
        forall|i: int|
            0 <= i < rows ==> #[trigger] row(r(a), n, i) == summed(x, row(m(a), n, i), row(m(b), n, i)),
        forall|z: Buf| z != a ==> #[trigger] r(z) == m(z),
        shaped(m, r),
{
    let step = add_step(a, b, rows * n);
    let l = step->Launch_0;
    let count = rows * n;
    assert(0 <= count) by (nonlinear_arith)
        requires
            count == rows * n,
            0 <= rows,
            0 <= n,
    ;
    lemma_grid(count);
    reveal(launch_meaning);
    let r = meaning(x, ag, m, step);
    assert(r == crate::meaning::each_meaning(m, l, count, x.plus, m(b)));
    assert forall|i: int| 0 <= i < rows implies #[trigger] row(r(a), n, i) == summed(
        x,
        row(m(a), n, i),
        row(m(b), n, i),
    ) by {
        lemma_row_kept(m(a), rows, n, i);
        lemma_row_kept(m(b), rows, n, i);
        lemma_row_place(rows, n, i);
        assert(row(r(a), n, i) =~= summed(x, row(m(a), n, i), row(m(b), n, i)));
    }
    r
}

/// Every buffer keeps its size.
pub open spec fn shaped(m: Memory, r: Memory) -> bool {
    forall|b: Buf| (#[trigger] r(b)).len() == m(b).len()
}

/// Outside the buffers that a batch works in, nothing differs.
pub open spec fn works(m: Memory, r: Memory) -> bool {
    forall|b: Buf| !batch_scratch(b) ==> #[trigger] r(b) == m(b)
}

/// What the lookup of a run of tokens leaves.
proof fn lemma_embed_batch_does(
    x: Math,
    e: Engine,
    m: Memory,
    s: Seq<Setup>,
    tokens: Seq<u32>,
    pos0: usize,
) -> (r: Memory)
    requires
        engine_ready(e, s),
        batch_countable(e.config),
        spread(m, e),
        0 < tokens.len(),
        pos0 + tokens.len() <= e.config.n_ctx,
    ensures
        r == run(gpu(x, e.ag as int), m, e.embed_batch_steps(tokens, pos0)),
        forall|i: int|
            0 <= i < tokens.len() ==> #[trigger] row(r(Buf::BatchX), e.config.n_embd as int, i)
                == looked_up(x, e, m, tokens[i], pos0 + i),
        works(m, r),
        shaped(m, r),
{
    let c = e.config;
    let ag = e.ag as int;
    let dev = gpu(x, ag);
    let steps = e.embed_batch_steps(tokens, pos0);
    let w = e.wte_t;
    let n = c.n_embd as int;
    let rows = tokens.len() as int;
    lemma_run_at(dev, m, steps, 0);
    lemma_run_at(dev, m, steps, 1);
    let a = run(dev, m, steps.take(1));
    let r = run(dev, m, steps);
    assert forall|i: int| 0 <= i < rows implies #[trigger] a(Buf::BatchTok)[i] == tokens[i] by {
        let t = tokens[i];
        assert((t as i32) as u32 == t) by (bit_vector);
        assert(token_words(tokens)[i] == t as i32);
    }
    let l = steps[1]->Launch_0;
    let k = planes(w).len() as int;
    let none = Seq::<Seq<u32>>::empty();
    let bare = unordered(w);
    assert forall|i: int| 0 <= i < planes(w).len() implies l.args[1 + i] == #[trigger] planes(w)[i] by {
    }
    assert(planes(bare) == planes(w));
    lemma_planes(a, bare, Tensor::Wte, l, 1, none);
    assert(plane_words(a, l, form(w), 1) + none =~= plane_words(a, l, form(w), 1));
    assert(matrix(a, bare, Tensor::Wte) =~= matrix(m, bare, Tensor::Wte));
    assert(rows * n <= c.n_ctx * n && 0 <= rows * n) by (nonlinear_arith)
        requires
            0 <= rows <= c.n_ctx,
            0 <= n,
    ;
    lemma_grid(rows * n);
    assert(form_of(l.kernel) == form(w));
    assert(k == plane_count(form(w)));
    assert(l.args[0] == Arg::Buf(Buf::BatchX) && l.args[k + 1] == Arg::Buf(Buf::Wpe));
    assert(l.args[k + 2] == Arg::Buf(Buf::BatchTok));
    assert(num(l, k + 3) == pos0 && num(l, k + 4) == rows && num(l, k + 5) == n && num(l, k + 6)
        == c.n_vocab);
    reveal(launch_meaning);
    assert(r == crate::meaning::embed_batch_meaning(x, a, l));
    let toks = |q: int| a(buf(l, k + 2))[q];
    let each = |q: int, i: int|
        (x.plus)(
            (x.embedded)(form(w), plane_words(a, l, form(w), 1), n, c.n_vocab as int, toks(q), i),
            a(Buf::Wpe)[(pos0 + q) * n + i],
        );
    assert(r(Buf::BatchX) =~= rows_over(a(Buf::BatchX), 0, rows, n, each));
    assert forall|i: int| 0 <= i < rows implies #[trigger] row(r(Buf::BatchX), n, i) == looked_up(
        x,
        e,
        m,
        tokens[i],
        pos0 + i,
    ) by {
        let want = looked_up(x, e, m, tokens[i], pos0 + i);
        assert(a(Buf::BatchTok)[i] == tokens[i]);
        lemma_row_of(a(Buf::BatchX), rows, n, each, i, want);
    }
    r
}

/// What the rotation of several rows leaves.
proof fn lemma_rope_batch_does(x: Math, e: Engine, m: Memory, rows: int, pos0: usize) -> (r: Memory)
    requires
        batch_countable(e.config),
        spread(m, e),
        0 < rows,
        pos0 + rows <= e.config.n_ctx,
    ensures
        r == run(gpu(x, e.ag as int), m, e.rope_batch_steps(rows, pos0)),
        forall|i: int|
            0 <= i < rows ==> #[trigger] row(r(Buf::BatchQkv), e.config.qkv_width(), i) == positioned(
                x,
                e.config,
                row(m(Buf::BatchQkv), e.config.qkv_width(), i),
                pos0 + i,
            ),
        forall|z: Buf| z != Buf::BatchQkv ==> #[trigger] r(z) == m(z),
        shaped(m, r),
{
    let c = e.config;
    let ag = e.ag as int;
    let dev = gpu(x, ag);
    let steps = e.rope_batch_steps(rows, pos0);
    let r = run(dev, m, steps);
    let w = c.qkv_width();
    let v = m(Buf::BatchQkv);
    crate::engine::lemma_config_widths(c);
    if c.arch != Arch::Gpt2 {
        let step = steps[0];
        let l = step->Launch_0;
        let (nh, nkv, hd) = (c.n_head as int, c.n_kv_head as int, c.head_dim as int);
        let turned = c.q_width() + c.kv_width();
        assert(steps =~= seq![step]);
        lemma_run_one(dev, m, step);
        assert(0 <= rows * turned <= rows * w && rows * w <= c.n_ctx * w) by (nonlinear_arith)
            requires
                0 <= rows <= c.n_ctx,
                0 <= turned <= w,
        ;
        lemma_grid(rows * turned / 2);
        reveal(launch_meaning);
        assert(r == crate::meaning::rope_meaning(
            x,
            m,
            l,
            pos0 as int,
            rows,
            nh,
            nkv,
            hd,
            w,
            c.rope_theta,
        ));
        assert((nh + nkv) * hd == turned);
        let each = |q: int, i: int|
            if i < (nh + nkv) * hd {
                (x.rotated)(row(v, w, q), pos0 + q, nh, nkv, hd, c.rope_theta, i)
            } else {
                v[q * w + i]
            };
        assert(r(Buf::BatchQkv) =~= rows_over(v, 0, rows, w, each));
        assert forall|i: int| 0 <= i < rows implies #[trigger] row(r(Buf::BatchQkv), w, i)
            == positioned(x, c, row(v, w, i), pos0 + i) by {
            lemma_row_kept(v, rows, w, i);
            lemma_row_of(v, rows, w, each, i, positioned(x, c, row(v, w, i), pos0 + i));
        }
    }
    r
}

/// What storing the keys and values of several rows leaves.
pub open spec fn stored_batch(
    x: Math,
    e: Engine,
    old: Seq<u32>,
    p: KvPart,
    v: Seq<u32>,
    pos: int,
    rows: int,
) -> Seq<u32> {
    let c = e.config;
    stored_rows(
        x,
        e.kv8,
        p,
        old,
        pos,
        rows,
        v,
        c.qkv_width(),
        c.q_width(),
        c.n_kv_head as int,
        c.head_dim as int,
    )
}

proof fn lemma_store_batch_does(x: Math, e: Engine, m: Memory, l: usize, rows: int, pos0: usize) -> (r:
    Memory)
    requires
        batch_countable(e.config),
        spread(m, e),
        l < e.config.n_layer,
        0 < rows,
        pos0 + rows <= e.config.n_ctx,
    ensures
        r == meaning(x, e.ag as int, m, e.attn_batch_steps(l, rows, pos0)[0]),
        forall|p: KvPart|
            parts(e.kv8).contains(p) ==> #[trigger] r(Buf::Kv(l, p)) == stored_batch(
                x,
                e,
                m(Buf::Kv(l, p)),
                p,
                m(Buf::BatchQkv),
                pos0 as int,
                rows,
            ),
        forall|b: Buf| !(b is Kv && b->Kv_0 == l) ==> #[trigger] r(b) == m(b),
        shaped(m, r),
{
    let c = e.config;
    let step = e.attn_batch_steps(l, rows, pos0)[0];
    let g = step->Launch_0;
    let v = m(Buf::BatchQkv);
    let (nkv, hd, qd, kw) = (c.n_kv_head as int, c.head_dim as int, c.q_width(), c.kv_width());
    crate::engine::lemma_config_widths(c);
    reveal(launch_meaning);
    let r = meaning(x, e.ag as int, m, step);
    if e.kv8 {
        assert(r == crate::meaning::narrow_meaning(x, m, g, pos0 as int, c.qkv_width()));
        assert(buf(g, 6) == Buf::BatchQkv && num(g, 8) == qd && num(g, 9) == nkv && num(g, 10) == hd);
        assert(buf(g, 0) == Buf::Kv(l, KvPart::K) && buf(g, 1) == Buf::Kv(l, KvPart::V) && buf(g, 2)
            == Buf::Kv(l, KvPart::Ks) && buf(g, 3) == Buf::Kv(l, KvPart::Vs) && buf(g, 4) == Buf::Kv(
            l,
            KvPart::Kb,
        ) && buf(g, 5) == Buf::Kv(l, KvPart::Vb));
        assert(parts(true)[0] == KvPart::K && parts(true)[1] == KvPart::V && parts(true)[2]
            == KvPart::Ks && parts(true)[3] == KvPart::Vs && parts(true)[4] == KvPart::Kb
            && parts(true)[5] == KvPart::Vb);
    } else {
        blocks_cover_exactly(kw, 256);
        lemma_grid(kw);
        assert(grid1d(kw).0 == g.grid.0);
        assert(r == crate::meaning::store_meaning(
            x,
            m,
            g,
            pos0 as int,
            rows,
            qd,
            kw,
            c.qkv_width(),
        ));
        assert(buf(g, 0) == Buf::Kv(l, KvPart::K) && buf(g, 1) == Buf::Kv(l, KvPart::V) && buf(g, 2)
            == Buf::BatchQkv);
        assert(parts(false)[0] == KvPart::K && parts(false)[1] == KvPart::V);
        assert forall|p: KvPart| parts(e.kv8).contains(p) implies #[trigger] r(Buf::Kv(l, p))
            == stored_batch(x, e, m(Buf::Kv(l, p)), p, v, pos0 as int, rows) by {
            assert(p == KvPart::K || p == KvPart::V);
            assert(1 * kw == kw);
            assert(part_width(p, 1, kw) == part_width(p, nkv, hd));
            let a = |q: int, j: int|
                part_row(x, false, p, row(v, c.qkv_width(), q), qd, 1, kw)[j];
            let b = |q: int, j: int|
                part_row(x, false, p, row(v, c.qkv_width(), q), qd, nkv, hd)[j];
            assert(a =~= b);
        }
    }
    r
}

/// What attention of several rows leaves, once keys and values are stored.
proof fn lemma_attend_batch_does(x: Math, e: Engine, m: Memory, l: usize, rows: int, pos0: usize) -> (r:
    Memory)
    requires
        batch_countable(e.config),
        spread(m, e),
        l < e.config.n_layer,
        0 < rows,
        pos0 + rows <= e.config.n_ctx,
        e.config.head_dim == 64,
    ensures
        r == meaning(x, e.ag as int, m, e.attn_batch_steps(l, rows, pos0)[1]),
        forall|i: int|
            0 <= i < rows ==> #[trigger] row(r(Buf::BatchAttn), e.config.q_width(), i) == attention(
                x,
                e,
                |p: KvPart| m(Buf::Kv(l, p)),
                row(m(Buf::BatchQkv), e.config.qkv_width(), i),
                pos0 + i,
            ),
        forall|z: Buf| z != Buf::BatchAttn ==> #[trigger] r(z) == m(z),
        shaped(m, r),
{
    let c = e.config;
    let step = e.attn_batch_steps(l, rows, pos0)[1];
    let g = step->Launch_0;
    let v = m(Buf::BatchQkv);
    let w = c.qkv_width();
    let (nh, nkv, hd, qd) = (c.n_head as int, c.n_kv_head as int, c.head_dim as int, c.q_width());
    let cache = |p: KvPart| m(Buf::Kv(l, p));
    crate::engine::lemma_config_widths(c);
    blocks_cover_exactly(rows, 64);
    assert(0 <= div_up(rows, 64) <= rows) by (nonlinear_arith)
        requires
            (div_up(rows, 64) - 1) * 64 < rows,
            div_up(rows, 64) * 64 >= rows,
            rows > 0,
    ;
    reveal(launch_meaning);
    let r = meaning(x, e.ag as int, m, step);
    let at: int = if e.kv8 {
        8
    } else {
        4
    };
    assert(num(g, at) == pos0 && num(g, at + 1) == rows && num(g, at + 2) == nh && num(g, at + 3)
        == nkv && num(g, at + 4) == w && num(g, at + 5) == qd);
    assert(r == crate::meaning::attend_batch_meaning(x, m, g, e.kv8, at));
    assert(r == crate::meaning::attend_meaning(x, m, g, e.kv8, pos0 as int, rows, nh, nkv, hd, w));
    let each = |q: int, i: int|
        (x.attended)(
            e.kv8,
            row(v, w, q).take(nh * hd),
            crate::meaning::past(m, g, e.kv8, pos0 + q, nkv, hd),
            nh,
            nkv,
            hd,
            i,
        );
    assert(r(Buf::BatchAttn) =~= rows_over(m(Buf::BatchAttn), 0, rows, qd, each));
    assert forall|i: int| 0 <= i < parts(e.kv8).len() implies #[trigger] buf(g, 2 + i) == Buf::Kv(
        l,
        parts(e.kv8)[i],
    ) by {
    }
    assert(rows * qd <= c.n_ctx * qd) by (nonlinear_arith)
        requires
            0 <= rows <= c.n_ctx,
            0 <= qd,
    ;
    assert forall|q: int| 0 <= q < rows implies #[trigger] row(r(Buf::BatchAttn), qd, q) == attention(
        x,
        e,
        cache,
        row(v, w, q),
        pos0 + q,
    ) by {
        let pos = pos0 + q;
        let seen = Seq::new(
            parts(e.kv8).len(),
            |i: int| cache(parts(e.kv8)[i]).take((pos + 1) * part_width(parts(e.kv8)[i], nkv, hd)),
        );
        assert(crate::meaning::past(m, g, e.kv8, pos, nkv, hd) =~= seen);
        lemma_row_of(
            m(Buf::BatchAttn),
            rows,
            qd,
            each,
            q,
            attention(x, e, cache, row(v, w, q), pos),
        );
    }
    r
}

/// No linear of the engine takes its inputs in an order of its own.
pub open spec fn in_order(e: Engine) -> bool {
    &&& unordered(e.head()) == e.head()
    &&& forall|l: int|
        0 <= l < e.layers@.len() ==> {
            let y = #[trigger] e.layers@[l];
            &&& unordered(y.qkv_w) == y.qkv_w
            &&& unordered(y.proj_w) == y.proj_w
            &&& unordered(y.fc_w) == y.fc_w
            &&& unordered(y.fc2_w) == y.fc2_w
            &&& (y.up_w matches Some(up) ==> unordered(up) == up)
        }
}

/// What the laws on batches ask of an engine and of the arithmetic.
pub open spec fn batches(x: Math, e: Engine, s: Seq<Setup>) -> bool {
    &&& engine_ready(e, s)
    &&& batch_countable(e.config)
    &&& (e.ag == 4 || e.ag == 8)
    &&& e.batchable()
    &&& in_order(e)
    &&& agrees(x, e.ag as int)
}

/// Sizes of a batch of rows.
proof fn lemma_batch_counts(c: Config, rows: int)
    requires
        batch_countable(c),
        0 < rows <= c.n_ctx,
    ensures
        0 <= rows * c.n_embd <= c.n_ctx * c.n_embd,
        0 <= rows * c.n_inter <= c.n_ctx * c.n_inter,
        0 <= rows * c.qkv_width() <= c.n_ctx * c.qkv_width(),
        0 <= rows * c.q_width() <= c.n_ctx * c.q_width() <= 0x7fff_ffff,
        0 <= c.q_width() <= c.qkv_width(),
        0 <= c.kv_width() <= c.qkv_width(),
{
    crate::engine::lemma_config_widths(c);
    let (t, a, b, d, q) = (
        c.n_ctx as int,
        c.n_embd as int,
        c.n_inter as int,
        c.qkv_width(),
        c.q_width(),
    );
    assert(0 <= rows * a <= t * a && 0 <= rows * b <= t * b && 0 <= rows * d <= t * d && 0 <= rows * q
        <= t * q && t * q <= t * d) by (nonlinear_arith)
        requires
            0 < rows <= t,
            0 <= a,
            0 <= b,
            0 <= q <= d,
    ;
}

proof fn lemma_still_spread(m: Memory, r: Memory, e: Engine)
    requires
        spread(m, e),
        shaped(m, r),
        r(Buf::ZeroBias) == m(Buf::ZeroBias),
    ensures
        spread(r, e),
{
    assert forall|l: usize, p: KvPart|
        l < e.config.n_layer && parts(e.kv8).contains(p) implies (#[trigger] r(Buf::Kv(l, p))).len()
        == e.config.n_ctx * part_width(
        p,
        e.config.n_kv_head as int,
        e.config.head_dim as int,
    ) by {
        assert(r(Buf::Kv(l, p)).len() == m(Buf::Kv(l, p)).len());
    }
    assert(r(Buf::X).len() == m(Buf::X).len() && r(Buf::Xb).len() == m(Buf::Xb).len() && r(
        Buf::Qkv,
    ).len() == m(Buf::Qkv).len() && r(Buf::Attn).len() == m(Buf::Attn).len() && r(Buf::H).len() == m(
        Buf::H,
    ).len() && r(Buf::H2).len() == m(Buf::H2).len() && r(Buf::Logits).len() == m(Buf::Logits).len());
    assert(r(Buf::BatchTok).len() == m(Buf::BatchTok).len() && r(Buf::BatchX).len() == m(
        Buf::BatchX,
    ).len() && r(Buf::BatchXb).len() == m(Buf::BatchXb).len() && r(Buf::BatchQkv).len() == m(
        Buf::BatchQkv,
    ).len() && r(Buf::BatchAttn).len() == m(Buf::BatchAttn).len() && r(Buf::BatchH).len() == m(
        Buf::BatchH,
    ).len() && r(Buf::BatchH2).len() == m(Buf::BatchH2).len());
    assert(r(Buf::BatchLogits).len() == m(Buf::BatchLogits).len() && r(Buf::BatchArgmax).len() == m(
        Buf::BatchArgmax,
    ).len() && r(Buf::ActQ).len() == m(Buf::ActQ).len() && r(Buf::ActScale).len() == m(
        Buf::ActScale,
    ).len());
}

proof fn lemma_front_batch_does(x: Math, e: Engine, m: Memory, s: Seq<Setup>, l: int, rows: int) -> (r:
    Memory)
    requires
        batches(x, e, s),
        spread(m, e),
        0 <= l < e.config.n_layer,
        0 < rows <= e.config.n_ctx,
    ensures
        r == run(gpu(x, e.ag as int), m, e.front_batch_steps(l, rows)),
        forall|i: int|
            0 <= i < rows ==> #[trigger] row(r(Buf::BatchQkv), e.config.qkv_width(), i) == projected(
                x,
                e,
                m,
                l,
                row(m(Buf::BatchX), e.config.n_embd as int, i),
            ),
        r(Buf::BatchX) == m(Buf::BatchX),
        works(m, r),
        shaped(m, r),
{
    let c = e.config;
    let ag = e.ag as int;
    let dev = gpu(x, ag);
    let y = e.layers@[l];
    let k = l as usize;
    let (ne, w) = (c.n_embd as int, c.qkv_width());
    let t = Tensor::Linear(k, Role::Qkv);
    assert(layer_ready(y, k, e.kv8, s));
    lemma_batch_counts(c, rows);
    let first = norm_batch_step(Buf::BatchXb, Buf::BatchX, y.ln1_g, y.ln1_b, rows, ne, c.norm_eps);
    let rest = gemm_steps(ag, Buf::BatchQkv, Buf::BatchXb, y.qkv_w, y.qkv_b, rows, w, ne);
    let a = lemma_norm_batch_does(
        x,
        ag,
        m,
        Buf::BatchXb,
        Buf::BatchX,
        y.ln1_g,
        y.ln1_b,
        rows,
        ne,
        c.norm_eps,
    );
    lemma_still_spread(m, a, e);
    lemma_run_one(dev, m, first);
    lemma_run_add(dev, m, seq![first], rest);
    let r = lemma_gemm_does(
        x,
        e,
        a,
        Buf::BatchQkv,
        Buf::BatchXb,
        y.qkv_w,
        t,
        y.qkv_b,
        rows,
        w,
        ne,
    );
    lemma_same_matrix(m, a, y.qkv_w, t);
    assert forall|i: int| 0 <= i < rows implies #[trigger] row(r(Buf::BatchQkv), w, i) == projected(
        x,
        e,
        m,
        l,
        row(m(Buf::BatchX), ne, i),
    ) by {
        assert(row(a(Buf::BatchXb), ne, i) == row(a(Buf::BatchXb), ne, i));
        assert(a(y.qkv_b) == m(y.qkv_b));
    }
    r
}

proof fn lemma_proj_batch_does(x: Math, e: Engine, m: Memory, s: Seq<Setup>, l: int, rows: int) -> (r:
    Memory)
    requires
        batches(x, e, s),
        spread(m, e),
        0 <= l < e.config.n_layer,
        0 < rows <= e.config.n_ctx,
    ensures
        r == run(gpu(x, e.ag as int), m, e.proj_batch_steps(l, rows)),
        forall|i: int|
            0 <= i < rows ==> #[trigger] row(r(Buf::BatchX), e.config.n_embd as int, i) == mixed(
                x,
                e,
                m,
                l,
                row(m(Buf::BatchX), e.config.n_embd as int, i),
                row(m(Buf::BatchAttn), e.config.q_width(), i),
            ),
        forall|i: int|
            0 <= i < rows ==> #[trigger] row(r(Buf::BatchXb), e.config.n_embd as int, i) == normed(
                x,
                row(r(Buf::BatchX), e.config.n_embd as int, i),
                m(Buf::Vector(l as usize, VecName::Ln2G)),
                offsets(m, e.layers@[l].ln2_b is Some, Buf::Vector(l as usize, VecName::Ln2B)),
                e.config.norm_eps,
            ),
        works(m, r),
        shaped(m, r),
{
    let c = e.config;
    let ag = e.ag as int;
    let dev = gpu(x, ag);
    let y = e.layers@[l];
    let k = l as usize;
    let (ne, qd) = (c.n_embd as int, c.q_width());
    let t = Tensor::Linear(k, Role::Proj);
    assert(layer_ready(y, k, e.kv8, s));
    lemma_batch_counts(c, rows);
    let first = gemm_steps(ag, Buf::BatchXb, Buf::BatchAttn, y.proj_w, y.proj_b, rows, ne, qd);
    let add = add_step(Buf::BatchX, Buf::BatchXb, rows * ne);
    let nrm = norm_batch_step(Buf::BatchXb, Buf::BatchX, y.ln2_g, y.ln2_b, rows, ne, c.norm_eps);
    let a = lemma_gemm_does(
        x,
        e,
        m,
        Buf::BatchXb,
        Buf::BatchAttn,
        y.proj_w,
        t,
        y.proj_b,
        rows,
        ne,
        qd,
    );
    lemma_still_spread(m, a, e);
    let b = lemma_add_does(x, ag, a, Buf::BatchX, Buf::BatchXb, rows, ne);
    lemma_still_spread(a, b, e);
    let r = lemma_norm_batch_does(
        x,
        ag,
        b,
        Buf::BatchXb,
        Buf::BatchX,
        y.ln2_g,
        y.ln2_b,
        rows,
        ne,
        c.norm_eps,
    );
    lemma_run_one(dev, a, add);
    lemma_run_one(dev, b, nrm);
    lemma_run_add(dev, a, seq![add], seq![nrm]);
    assert(seq![add] + seq![nrm] =~= seq![add, nrm]);
    lemma_run_add(dev, m, first, seq![add, nrm]);
    assert forall|i: int| 0 <= i < rows implies #[trigger] row(r(Buf::BatchX), ne, i) == mixed(
        x,
        e,
        m,
        l,
        row(m(Buf::BatchX), ne, i),
        row(m(Buf::BatchAttn), qd, i),
    ) by {
        assert(row(b(Buf::BatchX), ne, i) == summed(
            x,
            row(a(Buf::BatchX), ne, i),
            row(a(Buf::BatchXb), ne, i),
        ));
        assert(a(Buf::BatchX) == m(Buf::BatchX));
    }
    r
}

/// What the activation of the MLP over several rows leaves, from the normalized rows on.
proof fn lemma_act_batch_does(
    x: Math,
    e: Engine,
    m: Memory,
    s: Seq<Setup>,
    l: int,
    rows: int,
    v: Seq<u32>,
) -> (r: Memory)
    requires
        batches(x, e, s),
        spread(m, e),
        0 <= l < e.config.n_layer,
        0 < rows <= e.config.n_ctx,
        forall|i: int|
            0 <= i < rows ==> #[trigger] row(m(Buf::BatchXb), e.config.n_embd as int, i) == normed(
                x,
                row(v, e.config.n_embd as int, i),
                m(Buf::Vector(l as usize, VecName::Ln2G)),
                offsets(m, e.layers@[l].ln2_b is Some, Buf::Vector(l as usize, VecName::Ln2B)),
                e.config.norm_eps,
            ),
    ensures
        ({
            let c = e.config;
            let y = e.layers@[l];
            let first = gemm_steps(
                e.ag as int,
                Buf::BatchH,
                Buf::BatchXb,
                y.fc_w,
                or_zero(y.fc_b),
                rows,
                c.n_inter as int,
                c.n_embd as int,
            );
            r == run(gpu(x, e.ag as int), m, first + e.act_batch_steps(l, rows))
        }),
        forall|i: int|
            0 <= i < rows ==> #[trigger] row(r(Buf::BatchH), e.config.n_inter as int, i) == activated(
                x,
                e,
                m,
                l,
                row(v, e.config.n_embd as int, i),
            ),
        r(Buf::BatchX) == m(Buf::BatchX),
        works(m, r),
        shaped(m, r),
{
    let c = e.config;
    let ag = e.ag as int;
    let dev = gpu(x, ag);
    let y = e.layers@[l];
    let k = l as usize;
    let (ne, ni) = (c.n_embd as int, c.n_inter as int);
    let t = Tensor::Linear(k, Role::Fc);
    assert(layer_ready(y, k, e.kv8, s));
    lemma_batch_counts(c, rows);
    let b0 = or_zero(y.fc_b);
    let first = gemm_steps(ag, Buf::BatchH, Buf::BatchXb, y.fc_w, b0, rows, ni, ne);
    let a = lemma_gemm_does(x, e, m, Buf::BatchH, Buf::BatchXb, y.fc_w, t, b0, rows, ni, ne);
    lemma_still_spread(m, a, e);
    let rest = e.act_batch_steps(l, rows);
    lemma_run_add(dev, m, first, rest);
    lemma_grid(rows * ni);
    let r = run(dev, a, rest);
    match y.up_w {
        None => {
            let g = rest[0]->Launch_0;
            assert(rest =~= seq![rest[0]]);
            lemma_run_one(dev, a, rest[0]);
            reveal(launch_meaning);
            let f = |p: u32, q: u32| (x.gelu)(p);
            assert(r == crate::meaning::each_meaning(a, g, rows * ni, f, a(Buf::BatchH)));
            assert forall|i: int| 0 <= i < rows implies #[trigger] row(r(Buf::BatchH), ni, i)
                == activated(x, e, m, l, row(v, ne, i)) by {
                let in_row = row(m(Buf::BatchXb), ne, i);
                lemma_bias(
                    x,
                    e,
                    m,
                    form(y.fc_w),
                    matrix(m, y.fc_w, t),
                    in_row,
                    y.fc_b,
                    Buf::Vector(k, VecName::FcB),
                    ni,
                );
                lemma_row_kept(a(Buf::BatchH), rows, ni, i);
                lemma_row_place(rows, ni, i);
                assert(row(a(Buf::BatchH), ni, i) == product(
                    x,
                    form(y.fc_w),
                    matrix(m, y.fc_w, t),
                    in_row,
                    m(b0),
                    ni,
                ));
                assert(row(r(Buf::BatchH), ni, i) =~= activated(x, e, m, l, row(v, ne, i)));
            }
        },
        Some(up) => {
            let tu = Tensor::Linear(k, Role::Up);
            let second = gemm_steps(ag, Buf::BatchH2, Buf::BatchXb, up, Buf::ZeroBias, rows, ni, ne);
            let b = lemma_gemm_does(
                x,
                e,
                a,
                Buf::BatchH2,
                Buf::BatchXb,
                up,
                tu,
                Buf::ZeroBias,
                rows,
                ni,
                ne,
            );
            let last = rest.last();
            let g = last->Launch_0;
            assert(rest =~= second + seq![last]);
            lemma_run_add(dev, a, second, seq![last]);
            lemma_run_one(dev, b, last);
            lemma_same_matrix(m, a, up, tu);
            reveal(launch_meaning);
            assert(r == crate::meaning::each_meaning(b, g, rows * ni, x.gated, b(Buf::BatchH2)));
            assert forall|i: int| 0 <= i < rows implies #[trigger] row(r(Buf::BatchH), ni, i)
                == activated(x, e, m, l, row(v, ne, i)) by {
                let in_row = row(m(Buf::BatchXb), ne, i);
                lemma_bias(
                    x,
                    e,
                    m,
                    form(y.fc_w),
                    matrix(m, y.fc_w, t),
                    in_row,
                    y.fc_b,
                    Buf::Vector(k, VecName::FcB),
                    ni,
                );
                lemma_no_bias(x, e, m, form(up), matrix(m, up, tu), in_row, ni);
                lemma_row_kept(b(Buf::BatchH), rows, ni, i);
                lemma_row_kept(b(Buf::BatchH2), rows, ni, i);
                lemma_row_place(rows, ni, i);
                assert(row(a(Buf::BatchH), ni, i) == product(
                    x,
                    form(y.fc_w),
                    matrix(m, y.fc_w, t),
                    in_row,
                    m(b0),
                    ni,
                ));
                assert(row(b(Buf::BatchH2), ni, i) == product(
                    x,
                    form(up),
                    matrix(m, up, tu),
                    in_row,
                    m(Buf::ZeroBias),
                    ni,
                ));
                assert(row(r(Buf::BatchH), ni, i) =~= activated(x, e, m, l, row(v, ne, i)));
            }
        },
    }
    r
}

proof fn lemma_mlp_batch_does(x: Math, e: Engine, m: Memory, s: Seq<Setup>, l: int, rows: int) -> (r:
    Memory)
    requires
        batches(x, e, s),
        spread(m, e),
        0 <= l < e.config.n_layer,
        0 < rows <= e.config.n_ctx,
        forall|i: int|
            0 <= i < rows ==> #[trigger] row(m(Buf::BatchXb), e.config.n_embd as int, i) == normed(
                x,
                row(m(Buf::BatchX), e.config.n_embd as int, i),
                m(Buf::Vector(l as usize, VecName::Ln2G)),
                offsets(m, e.layers@[l].ln2_b is Some, Buf::Vector(l as usize, VecName::Ln2B)),
                e.config.norm_eps,
            ),
    ensures
        r == run(gpu(x, e.ag as int), m, e.mlp_batch_steps(l, rows)),
        forall|i: int|
            0 <= i < rows ==> #[trigger] row(r(Buf::BatchX), e.config.n_embd as int, i) == widened(
                x,
                e,
                m,
                l,
                row(m(Buf::BatchX), e.config.n_embd as int, i),
            ),
        works(m, r),
        shaped(m, r),
{
    let c = e.config;
    let ag = e.ag as int;
    let dev = gpu(x, ag);
    let y = e.layers@[l];
    let k = l as usize;
    let (ne, ni) = (c.n_embd as int, c.n_inter as int);
    let t = Tensor::Linear(k, Role::Fc2);
    assert(layer_ready(y, k, e.kv8, s));
    lemma_batch_counts(c, rows);
    let b0 = or_zero(y.fc2_b);
    let first = gemm_steps(ag, Buf::BatchH, Buf::BatchXb, y.fc_w, or_zero(y.fc_b), rows, ni, ne);
    let act = e.act_batch_steps(l, rows);
    let down = gemm_steps(ag, Buf::BatchXb, Buf::BatchH, y.fc2_w, b0, rows, ne, ni);
    let add = add_step(Buf::BatchX, Buf::BatchXb, rows * ne);
    let a = lemma_act_batch_does(x, e, m, s, l, rows, m(Buf::BatchX));
    lemma_still_spread(m, a, e);
    let b = lemma_gemm_does(x, e, a, Buf::BatchXb, Buf::BatchH, y.fc2_w, t, b0, rows, ne, ni);
    lemma_still_spread(a, b, e);
    let r = lemma_add_does(x, ag, b, Buf::BatchX, Buf::BatchXb, rows, ne);
    lemma_run_add(dev, m, first + act, down);
    lemma_run_one(dev, b, add);
    lemma_run_add(dev, m, first + act + down, seq![add]);
    lemma_same_matrix(m, a, y.fc2_w, t);
    assert forall|i: int| 0 <= i < rows implies #[trigger] row(r(Buf::BatchX), ne, i) == widened(
        x,
        e,
        m,
        l,
        row(m(Buf::BatchX), ne, i),
    ) by {
        let h = row(a(Buf::BatchH), ni, i);
        lemma_bias(
            x,
            e,
            m,
            form(y.fc2_w),
            matrix(m, y.fc2_w, t),
            h,
            y.fc2_b,
            Buf::Vector(k, VecName::Fc2B),
            ne,
        );
        assert(h == activated(x, e, m, l, row(m(Buf::BatchX), ne, i)));
        assert(row(b(Buf::BatchXb), ne, i) == product(
            x,
            form(y.fc2_w),
            matrix(m, y.fc2_w, t),
            h,
            m(b0),
            ne,
        ));
        assert(b(Buf::BatchX) == m(Buf::BatchX));
    }
    r
}

/// What a layer over several rows leaves: of each row what a layer makes of it, with the
/// attention over the cache that all the rows have been stored in.
proof fn lemma_layer_batch_does(
    x: Math,
    e: Engine,
    m: Memory,
    s: Seq<Setup>,
    l: int,
    rows: int,
    pos0: usize,
) -> (r: (Seq<u32>, Memory))
    requires
        batches(x, e, s),
        spread(m, e),
        0 <= l < e.config.n_layer,
        0 < rows,
        pos0 + rows <= e.config.n_ctx,
    ensures
        r.1 == run(gpu(x, e.ag as int), m, e.layer_batch_steps(l, rows, pos0)),
        r.0.len() == m(Buf::BatchQkv).len(),
        forall|i: int|
            0 <= i < rows ==> #[trigger] row(r.0, e.config.qkv_width(), i) == positioned(
                x,
                e.config,
                projected(x, e, m, l, row(m(Buf::BatchX), e.config.n_embd as int, i)),
                pos0 + i,
            ),
        forall|p: KvPart|
            parts(e.kv8).contains(p) ==> #[trigger] r.1(Buf::Kv(l as usize, p)) == stored_batch(
                x,
                e,
                m(Buf::Kv(l as usize, p)),
                p,
                r.0,
                pos0 as int,
                rows,
            ),
        forall|i: int|
            0 <= i < rows ==> #[trigger] row(r.1(Buf::BatchX), e.config.n_embd as int, i) == widened(
                x,
                e,
                m,
                l,
                mixed(
                    x,
                    e,
                    m,
                    l,
                    row(m(Buf::BatchX), e.config.n_embd as int, i),
                    attention(
                        x,
                        e,
                        |p: KvPart| r.1(Buf::Kv(l as usize, p)),
                        row(r.0, e.config.qkv_width(), i),
                        pos0 + i,
                    ),
                ),
            ),
        forall|b: Buf|
            !batch_scratch(b) && !(b is Kv && b->Kv_0 == l as usize) ==> #[trigger] r.1(b) == m(b),
        shaped(m, r.1),
{
    let c = e.config;
    let ag = e.ag as int;
    let dev = gpu(x, ag);
    let k = l as usize;
    let (ne, w, qd) = (c.n_embd as int, c.qkv_width(), c.q_width());
    let f = e.front_batch_steps(l, rows);
    let p = e.rope_batch_steps(rows, pos0);
    let t = e.attn_batch_steps(k, rows, pos0);
    let j = e.proj_batch_steps(l, rows);
    let u = e.mlp_batch_steps(l, rows);
    let m1 = lemma_front_batch_does(x, e, m, s, l, rows);
    lemma_still_spread(m, m1, e);
    let m2 = lemma_rope_batch_does(x, e, m1, rows, pos0);
    lemma_still_spread(m1, m2, e);
    lemma_run_add(dev, m, f, p);
    let qkv = m2(Buf::BatchQkv);
    let m3 = lemma_store_batch_does(x, e, m2, k, rows, pos0);
    lemma_still_spread(m2, m3, e);
    let m4 = lemma_attend_batch_does(x, e, m3, k, rows, pos0);
    lemma_still_spread(m3, m4, e);
    lemma_run_at(dev, m2, t, 0);
    lemma_run_at(dev, m2, t, 1);
    assert(run(dev, m2, t) == m4);
    lemma_run_add(dev, m, f + p, t);
    let m5 = lemma_proj_batch_does(x, e, m4, s, l, rows);
    lemma_still_spread(m4, m5, e);
    lemma_run_add(dev, m, f + p + t, j);
    let m6 = lemma_mlp_batch_does(x, e, m5, s, l, rows);
    lemma_run_add(dev, m, f + p + t + j, u);
    assert forall|i: int| 0 <= i < rows implies #[trigger] row(qkv, w, i) == positioned(
        x,
        c,
        projected(x, e, m, l, row(m(Buf::BatchX), ne, i)),
        pos0 + i,
    ) by {
        assert(row(m1(Buf::BatchQkv), w, i) == projected(x, e, m, l, row(m(Buf::BatchX), ne, i)));
    }
    let before = |q: KvPart| m3(Buf::Kv(k, q));
    let after = |q: KvPart| m6(Buf::Kv(k, q));
    assert(before =~= after);
    assert forall|i: int| 0 <= i < rows implies #[trigger] row(m6(Buf::BatchX), ne, i) == widened(
        x,
        e,
        m,
        l,
        mixed(
            x,
            e,
            m,
            l,
            row(m(Buf::BatchX), ne, i),
            attention(x, e, after, row(qkv, w, i), pos0 + i),
        ),
    ) by {
        let v = row(m(Buf::BatchX), ne, i);
        let att = attention(x, e, after, row(qkv, w, i), pos0 + i);
        assert(row(m4(Buf::BatchAttn), qd, i) == att);
        assert(m4(Buf::BatchX) == m(Buf::BatchX));
        assert(row(m5(Buf::BatchX), ne, i) == mixed(x, e, m4, l, v, att));
        lemma_weights_stay(x, e, m, m4, l, v);
        lemma_weights_stay(x, e, m, m5, l, mixed(x, e, m, l, v, att));
    }
    (qkv, m6)
}

/// The memory after decode steps of the first `r` tokens, one after the other.
pub open spec fn decoded(x: Math, e: Engine, m: Memory, tokens: Seq<u32>, pos0: int, r: nat) -> Memory
    decreases r,
{
    if r == 0 {
        m
    } else {
        run(
            gpu(x, e.ag as int),
            decoded(x, e, m, tokens, pos0, (r - 1) as nat),
            e.forward_steps(tokens[r - 1], (pos0 + r - 1) as usize),
        )
    }
}

/// What decode steps keep.
pub proof fn lemma_decoded(
    x: Math,
    e: Engine,
    m: Memory,
    s: Seq<Setup>,
    tokens: Seq<u32>,
    pos0: usize,
    r: nat,
)
    requires
        engine_ready(e, s),
        countable(e.config),
        e.ag > 0,
        placed(m, e),
        r <= tokens.len(),
        pos0 + tokens.len() <= e.config.n_ctx,
    ensures
        ({
            let h = decoded(x, e, m, tokens, pos0 as int, r);
            &&& placed(h, e)
            &&& forall|b: Buf| !scratch(b) && !(b is Kv) ==> #[trigger] h(b) == m(b)
            &&& same_model(m, h)
        }),
        r > 0 ==> {
            let g = decoded(x, e, m, tokens, pos0 as int, (r - 1) as nat);
            let h = decoded(x, e, m, tokens, pos0 as int, r);
            &&& h(Buf::Logits) == next_logits(x, e, g, tokens[r - 1], pos0 + r - 1)
            &&& forall|l: usize, p: KvPart|
                l < e.config.n_layer && parts(e.kv8).contains(p) ==> #[trigger] h(Buf::Kv(l, p))
                    == cache_after(x, e, g, l as int, p, tokens[r - 1], pos0 + r - 1)
        },
    decreases r,
{
    if r > 0 {
        lemma_decoded(x, e, m, s, tokens, pos0, (r - 1) as nat);
        let g = decoded(x, e, m, tokens, pos0 as int, (r - 1) as nat);
        decode_step_is_the_transformer(x, e, g, s, tokens[r - 1], (pos0 + r - 1) as usize);
    }
}

/// One more row in the cache.
proof fn lemma_stored_more(
    x: Math,
    e: Engine,
    old: Seq<u32>,
    p: KvPart,
    v: Seq<u32>,
    pos: int,
    r: int,
)
    requires
        0 <= pos,
        0 <= r,
    ensures
        stored_batch(x, e, old, p, v, pos, 0) == old,
        stored_batch(x, e, old, p, v, pos, r + 1) == cached(
            x,
            e,
            stored_batch(x, e, old, p, v, pos, r),
            p,
            row(v, e.config.qkv_width(), r),
            pos + r,
        ),
{
    let c = e.config;
    let (nkv, hd) = (c.n_kv_head as int, c.head_dim as int);
    let w = part_width(p, nkv, hd);
    assert(0 <= nkv * hd) by (nonlinear_arith)
        requires
            0 <= nkv,
            0 <= hd,
    ;
    assert(0 * w == 0);
    assert(stored_batch(x, e, old, p, v, pos, 0) =~= old);
    let a = stored_batch(x, e, old, p, v, pos, r + 1);
    let b = cached(
        x,
        e,
        stored_batch(x, e, old, p, v, pos, r),
        p,
        row(v, c.qkv_width(), r),
        pos + r,
    );
    assert((pos + r) * w == pos * w + r * w && (r + 1) * w == r * w + w && 0 <= pos * w && 0 <= r * w)
        by (nonlinear_arith)
        requires
            0 <= pos,
            0 <= r,
            0 <= w,
    ;
    assert forall|i: int| 0 <= i < old.len() implies a[i] == b[i] by {
        if pos * w + r * w <= i < pos * w + r * w + w {
            let j = i - pos * w - r * w;
            assert(i - pos * w == w * r + j) by (nonlinear_arith)
                requires
                    j == i - pos * w - r * w,
            ;
            vstd::arithmetic::div_mod::lemma_fundamental_div_mod_converse(i - pos * w, w, r, j);
        }
    }
    assert(a =~= b);
}

/// What later tokens store lies behind what earlier ones did.
proof fn lemma_prefix(
    x: Math,
    e: Engine,
    m: Memory,
    s: Seq<Setup>,
    tokens: Seq<u32>,
    pos0: usize,
    l: usize,
    p: KvPart,
    r: nat,
    k: nat,
)
    requires
        engine_ready(e, s),
        countable(e.config),
        e.ag > 0,
        placed(m, e),
        pos0 + tokens.len() <= e.config.n_ctx,
        l < e.config.n_layer,
        parts(e.kv8).contains(p),
        0 < r <= k <= tokens.len(),
    ensures
        ({
            let w = part_width(p, e.config.n_kv_head as int, e.config.head_dim as int);
            let a = decoded(x, e, m, tokens, pos0 as int, r)(Buf::Kv(l, p));
            let b = decoded(x, e, m, tokens, pos0 as int, k)(Buf::Kv(l, p));
            b.take((pos0 + r) * w) == a.take((pos0 + r) * w)
        }),
    decreases k,
{
    if k > r {
        let c = e.config;
        let (nkv, hd) = (c.n_kv_head as int, c.head_dim as int);
        let w = part_width(p, nkv, hd);
        lemma_prefix(x, e, m, s, tokens, pos0, l, p, r, (k - 1) as nat);
        lemma_decoded(x, e, m, s, tokens, pos0, k);
        lemma_decoded(x, e, m, s, tokens, pos0, (k - 1) as nat);
        let a = decoded(x, e, m, tokens, pos0 as int, r)(Buf::Kv(l, p));
        let h = decoded(x, e, m, tokens, pos0 as int, (k - 1) as nat)(Buf::Kv(l, p));
        let b = decoded(x, e, m, tokens, pos0 as int, k)(Buf::Kv(l, p));
        assert(0 <= nkv * hd) by (nonlinear_arith)
            requires
                0 <= nkv,
                0 <= hd,
        ;
        assert(0 <= (pos0 + r) * w <= (pos0 + k - 1) * w && (pos0 + r) * w <= c.n_ctx * w)
            by (nonlinear_arith)
            requires
                0 <= w,
                r <= k - 1,
                pos0 + r <= c.n_ctx,
        ;
        assert(h.len() == c.n_ctx * w);
        assert(b.len() == h.len());
        assert(b.take((pos0 + r) * w) =~= h.take((pos0 + r) * w));
    }
}

/// Attention sees no more of the cache than is stored up to its position.
proof fn lemma_attention_prefix(
    x: Math,
    e: Engine,
    a: spec_fn(KvPart) -> Seq<u32>,
    b: spec_fn(KvPart) -> Seq<u32>,
    v: Seq<u32>,
    pos: int,
)
    requires
        forall|p: KvPart|
            parts(e.kv8).contains(p) ==> (#[trigger] a(p)).take(
                (pos + 1) * part_width(p, e.config.n_kv_head as int, e.config.head_dim as int),
            ) == b(p).take(
                (pos + 1) * part_width(p, e.config.n_kv_head as int, e.config.head_dim as int),
            ),
    ensures
        attention(x, e, a, v, pos) == attention(x, e, b, v, pos),
{
    let c = e.config;
    let (nkv, hd) = (c.n_kv_head as int, c.head_dim as int);
    let sa = Seq::new(
        parts(e.kv8).len(),
        |i: int| a(parts(e.kv8)[i]).take((pos + 1) * part_width(parts(e.kv8)[i], nkv, hd)),
    );
    let sb = Seq::new(
        parts(e.kv8).len(),
        |i: int| b(parts(e.kv8)[i]).take((pos + 1) * part_width(parts(e.kv8)[i], nkv, hd)),
    );
    assert forall|i: int| 0 <= i < sa.len() implies sa[i] == sb[i] by {
        let p = parts(e.kv8)[i];
        assert(parts(e.kv8).contains(p));
        assert(a(p).take((pos + 1) * part_width(p, nkv, hd)) == b(p).take(
            (pos + 1) * part_width(p, nkv, hd),
        ));
    }
    assert(sa =~= sb);
}

/// The cache that a batch stores its rows in is the one that decode steps leave.
proof fn lemma_same_cache(
    x: Math,
    e: Engine,
    m: Memory,
    s: Seq<Setup>,
    tokens: Seq<u32>,
    pos0: usize,
    l: int,
    p: KvPart,
    v: Seq<u32>,
    r: nat,
)
    requires
        engine_ready(e, s),
        countable(e.config),
        e.ag > 0,
        placed(m, e),
        pos0 + tokens.len() <= e.config.n_ctx,
        0 <= l < e.config.n_layer,
        parts(e.kv8).contains(p),
        r <= tokens.len(),
        forall|i: int|
            0 <= i < tokens.len() ==> #[trigger] row(v, e.config.qkv_width(), i) == ({
                let h = decoded(x, e, m, tokens, pos0 as int, i as nat);
                positioned(
                    x,
                    e.config,
                    projected(x, e, h, l, hidden(x, e, h, l as nat, tokens[i], pos0 + i)),
                    pos0 + i,
                )
            }),
    ensures
        stored_batch(x, e, m(Buf::Kv(l as usize, p)), p, v, pos0 as int, r as int) == decoded(
            x,
            e,
            m,
            tokens,
            pos0 as int,
            r,
        )(Buf::Kv(l as usize, p)),
    decreases r,
{
    let old = m(Buf::Kv(l as usize, p));
    if r == 0 {
        lemma_stored_more(x, e, old, p, v, pos0 as int, 0);
    } else {
        let k = (r - 1) as nat;
        lemma_same_cache(x, e, m, s, tokens, pos0, l, p, v, k);
        lemma_stored_more(x, e, old, p, v, pos0 as int, k as int);
        lemma_decoded(x, e, m, s, tokens, pos0, r);
        assert(row(v, e.config.qkv_width(), k as int) == row(v, e.config.qkv_width(), k as int));
    }
}

/// Every row of a batch is what the decode step of its token has in front of layer `n`.
pub open spec fn in_step(
    x: Math,
    e: Engine,
    m: Memory,
    q: Memory,
    n: nat,
    tokens: Seq<u32>,
    pos0: int,
) -> bool {
    forall|i: int|
        0 <= i < tokens.len() ==> #[trigger] row(q(Buf::BatchX), e.config.n_embd as int, i) == hidden(
            x,
            e,
            decoded(x, e, m, tokens, pos0, i as nat),
            n,
            tokens[i],
            pos0 + i,
        )
}

/// Outside the buffers of a batch and the cache of the first `n` layers nothing has changed,
/// and the cache of those layers is what decode steps leave.
pub open spec fn carried(
    x: Math,
    e: Engine,
    m: Memory,
    r: Memory,
    n: int,
    tokens: Seq<u32>,
    pos0: int,
) -> bool {
    &&& forall|l: usize, p: KvPart|
        l < n && parts(e.kv8).contains(p) ==> #[trigger] r(Buf::Kv(l, p)) == decoded(
            x,
            e,
            m,
            tokens,
            pos0,
            tokens.len(),
        )(Buf::Kv(l, p))
    &&& forall|b: Buf| !batch_scratch(b) && !(b is Kv && b->Kv_0 < n) ==> #[trigger] r(b) == m(b)
    &&& shaped(m, r)
}

/// What a batch projects of a row is what the decode step of its token projects.
proof fn lemma_rows_projected(
    x: Math,
    e: Engine,
    m: Memory,
    q: Memory,
    s: Seq<Setup>,
    l: int,
    tokens: Seq<u32>,
    pos0: usize,
    i: int,
)
    requires
        batches(x, e, s),
        spread(m, e),
        in_step(x, e, m, q, l as nat, tokens, pos0 as int),
        carried(x, e, m, q, l, tokens, pos0 as int),
        0 <= l < e.config.n_layer,
        0 <= i < tokens.len(),
        pos0 + tokens.len() <= e.config.n_ctx,
    ensures
        ({
            let h = decoded(x, e, m, tokens, pos0 as int, i as nat);
            let hid = hidden(x, e, h, l as nat, tokens[i], pos0 + i);
            &&& row(q(Buf::BatchX), e.config.n_embd as int, i) == hid
            &&& projected(x, e, q, l, hid) == projected(x, e, h, l, hid)
            &&& same_model(h, q)
        }),
{
    let h = decoded(x, e, m, tokens, pos0 as int, i as nat);
    lemma_decoded(x, e, m, s, tokens, pos0, i as nat);
    let hid = hidden(x, e, h, l as nat, tokens[i], pos0 + i);
    assert(row(q(Buf::BatchX), e.config.n_embd as int, i) == hid);
    assert(same_model(h, q));
    lemma_weights_stay(x, e, h, q, l, hid);
}

/// A row attends over the cache of the whole batch as it does over that of the tokens up to
/// its own.
proof fn lemma_rows_attend(
    x: Math,
    e: Engine,
    m: Memory,
    r: Memory,
    s: Seq<Setup>,
    l: int,
    tokens: Seq<u32>,
    pos0: usize,
    i: int,
)
    requires
        batches(x, e, s),
        spread(m, e),
        0 <= l < e.config.n_layer,
        0 <= i < tokens.len(),
        pos0 + tokens.len() <= e.config.n_ctx,
        forall|p: KvPart|
            parts(e.kv8).contains(p) ==> #[trigger] r(Buf::Kv(l as usize, p)) == decoded(
                x,
                e,
                m,
                tokens,
                pos0 as int,
                tokens.len(),
            )(Buf::Kv(l as usize, p)),
    ensures
        ({
            let k = l as usize;
            let h = decoded(x, e, m, tokens, pos0 as int, i as nat);
            let hid = hidden(x, e, h, l as nat, tokens[i], pos0 + i);
            let qkv = positioned(x, e.config, projected(x, e, h, l, hid), pos0 + i);
            attention(x, e, |p: KvPart| r(Buf::Kv(k, p)), qkv, pos0 + i) == attention(
                x,
                e,
                |p: KvPart| cached(x, e, h(Buf::Kv(k, p)), p, qkv, pos0 + i),
                qkv,
                pos0 + i,
            )
        }),
{
    let c = e.config;
    let k = l as usize;
    let h = decoded(x, e, m, tokens, pos0 as int, i as nat);
    let next = decoded(x, e, m, tokens, pos0 as int, (i + 1) as nat);
    let full = decoded(x, e, m, tokens, pos0 as int, tokens.len());
    let hid = hidden(x, e, h, l as nat, tokens[i], pos0 + i);
    let qkv = positioned(x, c, projected(x, e, h, l, hid), pos0 + i);
    lemma_decoded(x, e, m, s, tokens, pos0, (i + 1) as nat);
    let seen = |p: KvPart| r(Buf::Kv(k, p));
    let want = |p: KvPart| cached(x, e, h(Buf::Kv(k, p)), p, qkv, pos0 + i);
    assert forall|p: KvPart| parts(e.kv8).contains(p) implies (#[trigger] seen(p)).take(
        (pos0 + i + 1) * part_width(p, c.n_kv_head as int, c.head_dim as int),
    ) == want(p).take((pos0 + i + 1) * part_width(p, c.n_kv_head as int, c.head_dim as int)) by {
        lemma_prefix(x, e, m, s, tokens, pos0, k, p, (i + 1) as nat, tokens.len());
        assert(next(Buf::Kv(k, p)) == want(p));
        assert(r(Buf::Kv(k, p)) == full(Buf::Kv(k, p)));
    }
    lemma_attention_prefix(x, e, seen, want, qkv, pos0 + i);
}

/// A layer over a batch keeps in step with the decode steps.
proof fn lemma_layer_in_step(
    x: Math,
    e: Engine,
    m: Memory,
    q: Memory,
    s: Seq<Setup>,
    l: int,
    tokens: Seq<u32>,
    pos0: usize,
) -> (r: Memory)
    requires
        batches(x, e, s),
        spread(m, e),
        in_step(x, e, m, q, l as nat, tokens, pos0 as int),
        carried(x, e, m, q, l, tokens, pos0 as int),
        0 <= l < e.config.n_layer,
        0 < tokens.len(),
        pos0 + tokens.len() <= e.config.n_ctx,
    ensures
        r == run(gpu(x, e.ag as int), q, e.layer_batch_steps(l, tokens.len() as int, pos0)),
        in_step(x, e, m, r, (l + 1) as nat, tokens, pos0 as int),
        carried(x, e, m, r, l + 1, tokens, pos0 as int),
{
    let c = e.config;
    let rows = tokens.len() as int;
    let (ne, w) = (c.n_embd as int, c.qkv_width());
    let k = l as usize;
    lemma_still_spread(m, q, e);
    let (v, r) = lemma_layer_batch_does(x, e, q, s, l, rows, pos0);
    assert forall|i: int| 0 <= i < rows implies #[trigger] row(v, w, i) == ({
        let h = decoded(x, e, m, tokens, pos0 as int, i as nat);
        positioned(
            x,
            c,
            projected(x, e, h, l, hidden(x, e, h, l as nat, tokens[i], pos0 + i)),
            pos0 + i,
        )
    }) by {
        lemma_rows_projected(x, e, m, q, s, l, tokens, pos0, i);
    }
    let full = decoded(x, e, m, tokens, pos0 as int, tokens.len());
    assert forall|p: KvPart| parts(e.kv8).contains(p) implies #[trigger] r(Buf::Kv(k, p)) == full(
        Buf::Kv(k, p),
    ) by {
        assert(q(Buf::Kv(k, p)) == m(Buf::Kv(k, p)));
        lemma_same_cache(x, e, m, s, tokens, pos0, l, p, v, tokens.len());
    }
    assert forall|i: int| 0 <= i < rows implies #[trigger] row(r(Buf::BatchX), ne, i) == hidden(
        x,
        e,
        decoded(x, e, m, tokens, pos0 as int, i as nat),
        (l + 1) as nat,
        tokens[i],
        pos0 + i,
    ) by {
        let h = decoded(x, e, m, tokens, pos0 as int, i as nat);
        let hid = hidden(x, e, h, l as nat, tokens[i], pos0 + i);
        let qkv = row(v, w, i);
        lemma_rows_projected(x, e, m, q, s, l, tokens, pos0, i);
        lemma_rows_attend(x, e, m, r, s, l, tokens, pos0, i);
        let want = |p: KvPart| cached(x, e, h(Buf::Kv(k, p)), p, qkv, pos0 + i);
        let att = attention(x, e, want, qkv, pos0 + i);
        lemma_weights_stay(x, e, h, q, l, hid);
        lemma_weights_stay(x, e, h, q, l, mixed(x, e, h, l, hid, att));
    }
    r
}

/// The first layers of a batch keep in step with the decode steps.
proof fn lemma_layers_batch_do(
    x: Math,
    e: Engine,
    m: Memory,
    a: Memory,
    s: Seq<Setup>,
    n: nat,
    tokens: Seq<u32>,
    pos0: usize,
) -> (r: Memory)
    requires
        batches(x, e, s),
        spread(m, e),
        works(m, a),
        shaped(m, a),
        n <= e.config.n_layer,
        0 < tokens.len(),
        pos0 + tokens.len() <= e.config.n_ctx,
        forall|i: int|
            0 <= i < tokens.len() ==> #[trigger] row(a(Buf::BatchX), e.config.n_embd as int, i)
                == looked_up(x, e, m, tokens[i], pos0 + i),
    ensures
        r == run(gpu(x, e.ag as int), a, e.layers_batch_steps(n, tokens.len() as int, pos0)),
        in_step(x, e, m, r, n, tokens, pos0 as int),
        carried(x, e, m, r, n as int, tokens, pos0 as int),
    decreases n,
{
    let dev = gpu(x, e.ag as int);
    let rows = tokens.len() as int;
    if n == 0 {
        assert forall|i: int| 0 <= i < rows implies #[trigger] row(
            a(Buf::BatchX),
            e.config.n_embd as int,
            i,
        ) == hidden(
            x,
            e,
            decoded(x, e, m, tokens, pos0 as int, i as nat),
            0,
            tokens[i],
            pos0 + i,
        ) by {
            let h = decoded(x, e, m, tokens, pos0 as int, i as nat);
            lemma_decoded(x, e, m, s, tokens, pos0, i as nat);
            lemma_hidden_stays(x, e, m, h, 0, tokens[i], pos0 + i);
        }
        a
    } else {
        let l = n - 1;
        let q = lemma_layers_batch_do(x, e, m, a, s, l as nat, tokens, pos0);
        let r = lemma_layer_in_step(x, e, m, q, s, l, tokens, pos0);
        lemma_run_add(
            dev,
            a,
            e.layers_batch_steps(l as nat, rows, pos0),
            e.layer_batch_steps(l, rows, pos0),
        );
        r
    }
}

/// What the trunk of a batch leaves: the normalized hidden states of all rows.
proof fn lemma_trunk_does(
    x: Math,
    e: Engine,
    m: Memory,
    s: Seq<Setup>,
    tokens: Seq<u32>,
    pos0: usize,
) -> (r: Memory)
    requires
        batches(x, e, s),
        spread(m, e),
        0 < tokens.len(),
        pos0 + tokens.len() <= e.config.n_ctx,
    ensures
        r == run(gpu(x, e.ag as int), m, e.batch_steps(tokens, pos0)),
        forall|i: int|
            0 <= i < tokens.len() ==> #[trigger] row(r(Buf::BatchXb), e.config.n_embd as int, i)
                == normed(
                x,
                hidden(
                    x,
                    e,
                    decoded(x, e, m, tokens, pos0 as int, i as nat),
                    e.config.n_layer as nat,
                    tokens[i],
                    pos0 + i,
                ),
                m(Buf::LnfG),
                offsets(m, e.lnf_b is Some, Buf::LnfB),
                e.config.norm_eps,
            ),
        carried(x, e, m, r, e.config.n_layer as int, tokens, pos0 as int),
{
    let c = e.config;
    let ag = e.ag as int;
    let dev = gpu(x, ag);
    let rows = tokens.len() as int;
    let ne = c.n_embd as int;
    let first = e.embed_batch_steps(tokens, pos0);
    let body = e.layers_batch_steps(c.n_layer as nat, rows, pos0);
    let last = norm_batch_step(Buf::BatchXb, Buf::BatchX, e.lnf_g, e.lnf_b, rows, ne, c.norm_eps);
    lemma_batch_counts(c, rows);
    let a = lemma_embed_batch_does(x, e, m, s, tokens, pos0);
    let b = lemma_layers_batch_do(x, e, m, a, s, c.n_layer as nat, tokens, pos0);
    lemma_still_spread(m, b, e);
    let r = lemma_norm_batch_does(
        x,
        ag,
        b,
        Buf::BatchXb,
        Buf::BatchX,
        e.lnf_g,
        e.lnf_b,
        rows,
        ne,
        c.norm_eps,
    );
    lemma_run_add(dev, m, first, body);
    lemma_run_one(dev, b, last);
    lemma_run_add(dev, m, first + body, seq![last]);
    assert forall|i: int| 0 <= i < rows implies #[trigger] row(r(Buf::BatchXb), ne, i) == normed(
        x,
        hidden(
            x,
            e,
            decoded(x, e, m, tokens, pos0 as int, i as nat),
            c.n_layer as nat,
            tokens[i],
            pos0 + i,
        ),
        m(Buf::LnfG),
        offsets(m, e.lnf_b is Some, Buf::LnfB),
        c.norm_eps,
    ) by {
        assert(row(b(Buf::BatchX), ne, i) == row(b(Buf::BatchX), ne, i));
    }
    r
}

/// The first tokens of a run are decoded as they are without the rest.
proof fn lemma_decoded_front(
    x: Math,
    e: Engine,
    m: Memory,
    tokens: Seq<u32>,
    front: Seq<u32>,
    pos0: int,
    r: nat,
)
    requires
        r <= front.len() <= tokens.len(),
        front == tokens.take(front.len() as int),
    ensures
        decoded(x, e, m, front, pos0, r) == decoded(x, e, m, tokens, pos0, r),
    decreases r,
{
    if r > 0 {
        lemma_decoded_front(x, e, m, tokens, front, pos0, (r - 1) as nat);
        assert(front[r - 1] == tokens[r - 1]);
    }
}

/// Decode steps of a run of tokens are decode steps one after the other.
proof fn lemma_forward_all(x: Math, e: Engine, m: Memory, tokens: Seq<u32>, pos0: usize)
    ensures
        run(gpu(x, e.ag as int), m, e.forward_all_steps(tokens, pos0)) == decoded(
            x,
            e,
            m,
            tokens,
            pos0 as int,
            tokens.len(),
        ),
    decreases tokens.len(),
{
    let dev = gpu(x, e.ag as int);
    if tokens.len() > 0 {
        let front = tokens.drop_last();
        let k = (tokens.len() - 1) as nat;
        lemma_forward_all(x, e, m, front, pos0);
        lemma_decoded_front(x, e, m, tokens, front, pos0 as int, k);
        lemma_run_add(
            dev,
            m,
            e.forward_all_steps(front, pos0),
            e.forward_steps(tokens.last(), (pos0 + k) as usize),
        );
    }
}

/// The head rests on the model.
proof fn lemma_logits_stay(x: Math, e: Engine, m: Memory, n: Memory, v: Seq<u32>)
    requires
        same_model(m, n),
    ensures
        logits_of(x, e, n, v) == logits_of(x, e, m, v),
{
    lemma_same_matrix(m, n, e.head(), Tensor::Wte);
    lemma_same_matrix(m, n, e.head(), Tensor::LmHead);
}

/// The tensor that logits are read off.
pub open spec fn head_tensor(e: Engine) -> Tensor {
    if e.lm_head_t is Some {
        Tensor::LmHead
    } else {
        Tensor::Wte
    }
}

/// The product of a normalized row with the head.
proof fn lemma_head_product(x: Math, e: Engine, m: Memory, n: Memory, v: Seq<u32>, a: Seq<u32>)
    requires
        placed(m, e),
        same_model(m, n),
        n(Buf::ZeroBias) == m(Buf::ZeroBias),
        a == normed(
            x,
            v,
            m(Buf::LnfG),
            offsets(m, e.lnf_b is Some, Buf::LnfB),
            e.config.norm_eps,
        ),
    ensures
        product(
            x,
            form(e.head()),
            matrix(n, e.head(), head_tensor(e)),
            a,
            n(Buf::ZeroBias),
            e.config.n_vocab as int,
        ) == logits_of(x, e, m, v),
{
    let t = head_tensor(e);
    lemma_same_matrix(m, n, e.head(), t);
    lemma_no_bias(x, e, m, form(e.head()), matrix(m, e.head(), t), a, e.config.n_vocab as int);
}

/// What the copy of a row leaves.
proof fn lemma_copy_row_does(x: Math, e: Engine, m: Memory, step: StepView, rows: int, r: int) -> (n:
    Memory)
    requires
        batch_countable(e.config),
        spread(m, e),
        0 <= r < rows <= e.config.n_ctx,
        step is Launch,
        step->Launch_0.kernel == Kernel::CopyRow,
        step->Launch_0.grid == grid1d(e.config.n_embd as int),
        step->Launch_0.block.0 == 256,
        step->Launch_0.args == seq![
            Arg::Buf(Buf::Xb),
            Arg::Buf(Buf::BatchXb),
            Arg::I32(r as i32),
            Arg::I32(e.config.n_embd as i32),
        ],
    ensures
        n == meaning(x, e.ag as int, m, step),
        n(Buf::Xb) == row(m(Buf::BatchXb), e.config.n_embd as int, r),
        n(Buf::Xb).len() == e.config.n_embd,
        forall|b: Buf| b != Buf::Xb ==> #[trigger] n(b) == m(b),
{
    let ne = e.config.n_embd as int;
    let l = step->Launch_0;
    let from = row(m(Buf::BatchXb), ne, r);
    lemma_grid(ne);
    lemma_batch_counts(e.config, rows);
    lemma_row_kept(m(Buf::BatchXb), rows, ne, r);
    reveal(launch_meaning);
    let n = meaning(x, e.ag as int, m, step);
    let f = |p: u32, q: u32| q;
    assert(num(l, 2) == r && num(l, 3) == ne);
    assert(n == crate::meaning::each_meaning(m, l, ne, f, from));
    assert(n(Buf::Xb) =~= from);
    n
}

/// The logits and the cache of all layers are the same.
pub open spec fn ends_like(e: Engine, r: Memory, h: Memory) -> bool {
    &&& r(Buf::Logits) == h(Buf::Logits)
    &&& forall|l: usize, p: KvPart|
        l < e.config.n_layer && parts(e.kv8).contains(p) ==> #[trigger] r(Buf::Kv(l, p)) == h(
            Buf::Kv(l, p),
        )
}

/// Prefill of a run of tokens ends with the logits that follow its last token, and with the
/// cache, as decode steps of the tokens one after the other do. Where it works in a batch, the
/// kernels for several rows agree with those for one row, and no linear takes its inputs in an
/// order of its own.
pub proof fn prefill_is_decoding_in_turn(
    x: Math,
    e: Engine,
    m: Memory,
    s: Seq<Setup>,
    tokens: Seq<u32>,
    pos0: usize,
)
    requires
        engine_ready(e, s),
        countable(e.config),
        e.ag > 0,
        spread(m, e),
        0 < tokens.len(),
        pos0 + tokens.len() <= e.config.n_ctx,
        tokens.len() > 1 && !e.gptq_act_order ==> batches(x, e, s),
    ensures
        ends_like(
            e,
            run(gpu(x, e.ag as int), m, e.prefill_steps(tokens, pos0)),
            decoded(x, e, m, tokens, pos0 as int, tokens.len()),
        ),
{
    let c = e.config;
    let ag = e.ag as int;
    let dev = gpu(x, ag);
    let rows = tokens.len() as int;
    let (ne, nv) = (c.n_embd as int, c.n_vocab as int);
    if tokens.len() == 1 || e.gptq_act_order {
        lemma_forward_all(x, e, m, tokens, pos0);
    } else {
        lemma_batched_prefill(x, e, m, s, tokens, pos0);
    }
}

/// A batched prefill is the trunk, the copy of the last row, and the head.
proof fn lemma_prefill_parts(e: Engine, tokens: Seq<u32>, pos0: usize) -> (copy: StepView)
    requires
        1 < tokens.len(),
        !e.gptq_act_order,
    ensures
        e.prefill_steps(tokens, pos0) == e.batch_steps(tokens, pos0) + seq![copy, e.head_step()],
        copy is Launch,
        copy->Launch_0.kernel == Kernel::CopyRow,
        copy->Launch_0.grid == grid1d(e.config.n_embd as int),
        copy->Launch_0.block.0 == 256,
        copy->Launch_0.args == seq![
            Arg::Buf(Buf::Xb),
            Arg::Buf(Buf::BatchXb),
            Arg::I32((tokens.len() - 1) as i32),
            Arg::I32(e.config.n_embd as i32),
        ],
{
    let trunk = e.batch_steps(tokens, pos0);
    let steps = e.prefill_steps(tokens, pos0);
    let copy = steps[trunk.len() as int];
    assert(steps =~= trunk + seq![copy, e.head_step()]);
    copy
}

proof fn lemma_batched_prefill(
    x: Math,
    e: Engine,
    m: Memory,
    s: Seq<Setup>,
    tokens: Seq<u32>,
    pos0: usize,
)
    requires
        batches(x, e, s),
        spread(m, e),
        1 < tokens.len(),
        !e.gptq_act_order,
        pos0 + tokens.len() <= e.config.n_ctx,
    ensures
        ends_like(
            e,
            run(gpu(x, e.ag as int), m, e.prefill_steps(tokens, pos0)),
            decoded(x, e, m, tokens, pos0 as int, tokens.len()),
        ),
{
    let c = e.config;
    let dev = gpu(x, e.ag as int);
    let rows = tokens.len() as int;
    let ne = c.n_embd as int;
    let trunk = e.batch_steps(tokens, pos0);
    let copy = lemma_prefill_parts(e, tokens, pos0);
    let a = lemma_trunk_does(x, e, m, s, tokens, pos0);
    lemma_run_add(dev, m, trunk, seq![copy, e.head_step()]);
    lemma_still_spread(m, a, e);
    let b = lemma_copy_row_does(x, e, a, copy, rows, rows - 1);
    let h = decoded(x, e, m, tokens, pos0 as int, (rows - 1) as nat);
    let hid = hidden(x, e, h, c.n_layer as nat, tokens[rows - 1], pos0 + rows - 1);
    assert(row(a(Buf::BatchXb), ne, rows - 1) == row(a(Buf::BatchXb), ne, rows - 1));
    lemma_last_logits(x, e, m, a, b, s, copy, hid);
    lemma_decoded(x, e, m, s, tokens, pos0, (rows - 1) as nat);
    lemma_decoded(x, e, m, s, tokens, pos0, rows as nat);
    lemma_logits_stay(x, e, m, h, hid);
}

/// What the copy of a normalized row and the head leave.
proof fn lemma_last_logits(
    x: Math,
    e: Engine,
    m: Memory,
    a: Memory,
    b: Memory,
    s: Seq<Setup>,
    copy: StepView,
    hid: Seq<u32>,
)
    requires
        engine_ready(e, s),
        countable(e.config),
        e.ag > 0,
        placed(m, e),
        placed(a, e),
        same_model(m, a),
        a(Buf::ZeroBias) == m(Buf::ZeroBias),
        b == meaning(x, e.ag as int, a, copy),
        forall|z: Buf| z != Buf::Xb ==> #[trigger] b(z) == a(z),
        b(Buf::Xb).len() == e.config.n_embd,
        b(Buf::Xb) == normed(
            x,
            hid,
            m(Buf::LnfG),
            offsets(m, e.lnf_b is Some, Buf::LnfB),
            e.config.norm_eps,
        ),
    ensures
        ({
            let r = run(gpu(x, e.ag as int), a, seq![copy, e.head_step()]);
            &&& r(Buf::Logits) == logits_of(x, e, m, hid)
            &&& forall|z: Buf| z != Buf::Xb && z != Buf::Logits ==> #[trigger] r(z) == a(z)
        }),
{
    let dev = gpu(x, e.ag as int);
    let tail = seq![copy, e.head_step()];
    lemma_run_at(dev, a, tail, 0);
    lemma_run_at(dev, a, tail, 1);
    assert(same_model(m, b));
    lemma_head_product(x, e, m, b, hid, b(Buf::Xb));
    lemma_head_does(x, e, b);
}

/// What the multiplication of a row by the head leaves.
proof fn lemma_head_does(x: Math, e: Engine, m: Memory)
    requires
        holds(e.head(), head_tensor(e)),
        countable(e.config),
        e.ag > 0,
        m(Buf::Xb).len() == e.config.n_embd,
        m(Buf::Logits).len() == e.config.n_vocab,
    ensures
        meaning(x, e.ag as int, m, e.head_step()) == put(
            m,
            Buf::Logits,
            product(
                x,
                form(e.head()),
                matrix(m, e.head(), head_tensor(e)),
                m(Buf::Xb),
                m(Buf::ZeroBias),
                e.config.n_vocab as int,
            ),
        ),
{
    crate::reference::lemma_gemv_does(
        x,
        e.ag as int,
        m,
        Buf::Logits,
        Buf::Xb,
        e.head(),
        head_tensor(e),
        Buf::ZeroBias,
        e.config.n_embd as int,
        e.config.n_vocab as int,
        false,
    );
}

/// What the greedy choices of rows of logits leave.
proof fn lemma_choices_do(
    x: Math,
    e: Engine,
    m: Memory,
    h: spec_fn(int) -> Seq<u32>,
    tokens: Seq<u32>,
    step: StepView,
) -> (r: Memory)
    requires
        countable(e.config),
        m(Buf::BatchArgmax).len() == MAX_SPEC_TOKENS,
        0 < tokens.len() <= MAX_SPEC_TOKENS,
        forall|i: int|
            0 <= i < tokens.len() ==> #[trigger] row(m(Buf::BatchLogits), e.config.n_vocab as int, i)
                == h(i),
        step is Launch,
        step->Launch_0.kernel == Kernel::ArgmaxRows,
        tokens.len() <= step->Launch_0.grid.0,
        step->Launch_0.args == seq![
            Arg::Buf(Buf::BatchArgmax),
            Arg::Buf(Buf::BatchLogits),
            Arg::I32(e.config.n_vocab as i32),
        ],
    ensures
        r == meaning(x, e.ag as int, m, step),
        forall|i: int|
            0 <= i < tokens.len() ==> #[trigger] r(Buf::BatchArgmax)[i] == argmax_index(h(i)) as u32,
        forall|b: Buf| b != Buf::BatchArgmax ==> #[trigger] r(b) == m(b),
{
    let l = step->Launch_0;
    reveal(launch_meaning);
    let r = meaning(x, e.ag as int, m, step);
    assert(r == crate::meaning::choices_meaning(m, l));
    assert(num(l, 2) == e.config.n_vocab);
    assert forall|i: int| 0 <= i < tokens.len() implies #[trigger] r(Buf::BatchArgmax)[i]
        == argmax_index(h(i)) as u32 by {
        assert(row(m(Buf::BatchLogits), e.config.n_vocab as int, i) == h(i));
    }
    r
}

/// A decode step does the same in memories with the same model and the same cache.
proof fn lemma_forward_alike(
    x: Math,
    e: Engine,
    q: Memory,
    g: Memory,
    s: Seq<Setup>,
    tok: u32,
    pos: usize,
)
    requires
        engine_ready(e, s),
        countable(e.config),
        e.ag > 0,
        placed(q, e),
        placed(g, e),
        pos < e.config.n_ctx,
        same_model(g, q),
        forall|l: usize, p: KvPart|
            l < e.config.n_layer && parts(e.kv8).contains(p) ==> #[trigger] q(Buf::Kv(l, p)) == g(
                Buf::Kv(l, p),
            ),
    ensures
        ({
            let f = run(gpu(x, e.ag as int), q, e.forward_steps(tok, pos));
            let h = run(gpu(x, e.ag as int), g, e.forward_steps(tok, pos));
            &&& ends_like(e, f, h)
            &&& placed(f, e)
            &&& forall|b: Buf| !scratch(b) && !(b is Kv) ==> #[trigger] f(b) == q(b)
        }),
{
    decode_step_is_the_transformer(x, e, q, s, tok, pos);
    decode_step_is_the_transformer(x, e, g, s, tok, pos);
    lemma_hidden_stays(x, e, g, q, e.config.n_layer as nat, tok, pos as int);
    let f = run(gpu(x, e.ag as int), q, e.forward_steps(tok, pos));
    let h = run(gpu(x, e.ag as int), g, e.forward_steps(tok, pos));
    assert forall|l: usize, p: KvPart|
        l < e.config.n_layer && parts(e.kv8).contains(p) implies #[trigger] f(Buf::Kv(l, p)) == h(
        Buf::Kv(l, p),
    ) by {
        assert(q(Buf::Kv(l, p)) == g(Buf::Kv(l, p)));
        let hid = hidden(x, e, g, l as nat, tok, pos as int);
        lemma_hidden_stays(x, e, g, q, l as nat, tok, pos as int);
        lemma_weights_stay(x, e, g, q, l as int, hid);
        assert(h(Buf::Kv(l, p)) == cache_after(x, e, g, l as int, p, tok, pos as int));
    }
}

/// A row that is copied in stands in its place, and the rows before it stay.
proof fn lemma_row_copied(old: Seq<u32>, v: Seq<u32>, w: int, k: int, i: int, rows: int)
    requires
        0 <= w,
        v.len() == w,
        0 <= i <= k < rows,
        rows * w <= old.len(),
    ensures
        ({
            let new = over(old, k * w, w, |j: int| v[0 + j]);
            row(new, w, i) == if i == k {
                v
            } else {
                row(old, w, i)
            }
        }),
{
    let new = over(old, k * w, w, |j: int| v[0 + j]);
    lemma_row_place(rows, w, k);
    lemma_row_place(rows, w, i);
    if i < k {
        lemma_row_place(k, w, i);
        assert(row(new, w, i) =~= row(old, w, i));
    } else {
        assert(row(new, w, i) =~= v);
    }
}

/// The rows that have been verified token by token are the logits of the decode steps, and
/// the cache is theirs.
pub open spec fn verified(
    x: Math,
    e: Engine,
    m: Memory,
    r: Memory,
    tokens: Seq<u32>,
    pos0: int,
) -> bool {
    let h = decoded(x, e, m, tokens, pos0, tokens.len());
    &&& forall|i: int|
        0 <= i < tokens.len() ==> #[trigger] row(r(Buf::BatchLogits), e.config.n_vocab as int, i)
            == decoded(x, e, m, tokens, pos0, (i + 1) as nat)(Buf::Logits)
    &&& forall|l: usize, p: KvPart|
        l < e.config.n_layer && parts(e.kv8).contains(p) ==> #[trigger] r(Buf::Kv(l, p)) == h(
            Buf::Kv(l, p),
        )
}

proof fn lemma_each_row(
    x: Math,
    e: Engine,
    m: Memory,
    s: Seq<Setup>,
    tokens: Seq<u32>,
    pos0: usize,
) -> (r: Memory)
    requires
        engine_ready(e, s),
        countable(e.config),
        e.ag > 0,
        placed(m, e),
        m(Buf::BatchLogits).len() == MAX_SPEC_TOKENS * e.config.n_vocab,
        tokens.len() <= MAX_SPEC_TOKENS,
        pos0 + tokens.len() <= e.config.n_ctx,
    ensures
        r == run(gpu(x, e.ag as int), m, e.verify_each_steps(tokens, pos0)),
        verified(x, e, m, r, tokens, pos0 as int),
        forall|b: Buf|
            !scratch(b) && !(b is Kv) && b != Buf::BatchLogits ==> #[trigger] r(b) == m(b),
        placed(r, e),
        r(Buf::BatchLogits).len() == m(Buf::BatchLogits).len(),
    decreases tokens.len(),
{
    let c = e.config;
    let dev = gpu(x, e.ag as int);
    let nv = c.n_vocab as int;
    if tokens.len() == 0 {
        m
    } else {
        let front = tokens.drop_last();
        let k = tokens.len() - 1;
        let q = lemma_each_row(x, e, m, s, front, pos0);
        let pos = (pos0 + k) as usize;
        let tok = tokens.last();
        let fwd = e.forward_steps(tok, pos);
        let before = e.verify_each_steps(front, pos0);
        let steps = e.verify_each_steps(tokens, pos0);
        let copy = steps.last();
        assert(steps =~= before + fwd + seq![copy]);
        lemma_run_add(dev, m, before, fwd);
        let f = run(dev, q, fwd);
        lemma_run_one(dev, f, copy);
        lemma_run_add(dev, m, before + fwd, seq![copy]);
        let r = run(dev, m, steps);
        let g = decoded(x, e, m, tokens, pos0 as int, k as nat);
        lemma_decoded_front(x, e, m, tokens, front, pos0 as int, k as nat);
        lemma_decoded(x, e, m, s, tokens, pos0, k as nat);
        lemma_forward_alike(x, e, q, g, s, tok, pos);
        let h = decoded(x, e, m, tokens, pos0 as int, tokens.len());
        assert(h == run(dev, g, fwd));
        assert(r == put(
            f,
            Buf::BatchLogits,
            over(f(Buf::BatchLogits), k * nv, nv, |j: int| f(Buf::Logits)[0 + j]),
        ));
        assert(f(Buf::BatchLogits) == q(Buf::BatchLogits));
        assert forall|i: int| 0 <= i < tokens.len() implies #[trigger] row(
            r(Buf::BatchLogits),
            nv,
            i,
        ) == decoded(x, e, m, tokens, pos0 as int, (i + 1) as nat)(Buf::Logits) by {
            lemma_row_copied(
                q(Buf::BatchLogits),
                f(Buf::Logits),
                nv,
                k as int,
                i,
                MAX_SPEC_TOKENS as int,
            );
            if i < k {
                lemma_decoded_front(x, e, m, tokens, front, pos0 as int, (i + 1) as nat);
                assert(row(q(Buf::BatchLogits), nv, i) == row(q(Buf::BatchLogits), nv, i));
            }
        }
        r
    }
}

/// The rows of logits of a draft that is verified in a batch are those of the decode steps of
/// its tokens.
proof fn lemma_batched_rows(
    x: Math,
    e: Engine,
    m: Memory,
    s: Seq<Setup>,
    tokens: Seq<u32>,
    pos0: usize,
) -> (r: Memory)
    requires
        batches(x, e, s),
        spread(m, e),
        0 < tokens.len() <= MAX_SPEC_TOKENS,
        pos0 + tokens.len() <= e.config.n_ctx,
        !e.gptq_act_order,
    ensures
        r == run(gpu(x, e.ag as int), m, e.verify_rows_steps(tokens, pos0)),
        verified(x, e, m, r, tokens, pos0 as int),
        r(Buf::BatchArgmax).len() == m(Buf::BatchArgmax).len(),
{
    let c = e.config;
    let ag = e.ag as int;
    let dev = gpu(x, ag);
    let rows = tokens.len() as int;
    let (ne, nv) = (c.n_embd as int, c.n_vocab as int);
    let t = head_tensor(e);
    let trunk = e.batch_steps(tokens, pos0);
    let rest = gemm_steps(
        ag,
        Buf::BatchLogits,
        Buf::BatchXb,
        e.head(),
        Buf::ZeroBias,
        rows,
        nv,
        ne,
    );
    let a = lemma_trunk_does(x, e, m, s, tokens, pos0);
    lemma_still_spread(m, a, e);
    lemma_batch_counts(c, rows);
    assert(rows * nv <= MAX_SPEC_TOKENS * nv) by (nonlinear_arith)
        requires
            rows <= MAX_SPEC_TOKENS,
            0 <= nv,
    ;
    let r = lemma_gemm_does(
        x,
        e,
        a,
        Buf::BatchLogits,
        Buf::BatchXb,
        e.head(),
        t,
        Buf::ZeroBias,
        rows,
        nv,
        ne,
    );
    lemma_run_add(dev, m, trunk, rest);
    assert forall|i: int| 0 <= i < rows implies #[trigger] row(r(Buf::BatchLogits), nv, i) == decoded(
        x,
        e,
        m,
        tokens,
        pos0 as int,
        (i + 1) as nat,
    )(Buf::Logits) by {
        let h = decoded(x, e, m, tokens, pos0 as int, i as nat);
        let v = row(a(Buf::BatchXb), ne, i);
        let hid = hidden(x, e, h, c.n_layer as nat, tokens[i], pos0 + i);
        lemma_decoded(x, e, m, s, tokens, pos0, i as nat);
        lemma_decoded(x, e, m, s, tokens, pos0, (i + 1) as nat);
        lemma_head_product(x, e, m, a, hid, v);
        lemma_logits_stay(x, e, m, h, hid);
    }
    r
}

/// Verification of a draft leaves in `BatchArgmax`, for every one of its tokens, the greedy
/// choice after it: the argmax of the logits that decode steps of the draft up to that token
/// end with. The cache is then as those decode steps leave it.
pub proof fn verification_chooses_after_every_token(
    x: Math,
    e: Engine,
    m: Memory,
    s: Seq<Setup>,
    tokens: Seq<u32>,
    pos0: usize,
)
    requires
        engine_ready(e, s),
        countable(e.config),
        e.ag > 0,
        spread(m, e),
        0 < tokens.len() <= MAX_SPEC_TOKENS,
        pos0 + tokens.len() <= e.config.n_ctx,
        !e.gptq_act_order ==> batches(x, e, s),
    ensures
        ({
            let r = run(gpu(x, e.ag as int), m, e.verify_steps(tokens, pos0));
            let h = decoded(x, e, m, tokens, pos0 as int, tokens.len());
            &&& forall|i: int|
                0 <= i < tokens.len() ==> #[trigger] r(Buf::BatchArgmax)[i] == argmax_index(
                    decoded(x, e, m, tokens, pos0 as int, (i + 1) as nat)(Buf::Logits),
                ) as u32
            &&& forall|l: usize, p: KvPart|
                l < e.config.n_layer && parts(e.kv8).contains(p) ==> #[trigger] r(Buf::Kv(l, p)) == h(
                    Buf::Kv(l, p),
                )
        }),
{
    let dev = gpu(x, e.ag as int);
    let steps = e.verify_steps(tokens, pos0);
    let rows = e.verify_rows_steps(tokens, pos0);
    let last = steps.last();
    let a = if e.gptq_act_order {
        lemma_each_row(x, e, m, s, tokens, pos0)
    } else {
        lemma_batched_rows(x, e, m, s, tokens, pos0)
    };
    let each = |i: int| decoded(x, e, m, tokens, pos0 as int, (i + 1) as nat)(Buf::Logits);
    let r = lemma_choices_do(x, e, a, each, tokens, last);
    assert(steps =~= rows + seq![last]);
    lemma_run_one(dev, a, last);
    lemma_run_add(dev, m, rows, seq![last]);
    assert forall|i: int| 0 <= i < tokens.len() implies #[trigger] r(Buf::BatchArgmax)[i]
        == argmax_index(
        decoded(x, e, m, tokens, pos0 as int, (i + 1) as nat)(Buf::Logits),
    ) as u32 by {
        assert(each(i) == decoded(x, e, m, tokens, pos0 as int, (i + 1) as nat)(Buf::Logits));
    }
}

} // verus!
