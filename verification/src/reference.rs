//! What a decode step computes: the transformer.
//!
//! The reference is written over the tensors and vectors by name. On the device of any
//! arithmetic, the plan of a decode step leaves in `Logits` what the reference gives, and in
//! the cache the keys and values of the token.

use crate::engine::{or_zero, Engine};
use crate::gptq::Role;
use crate::kernel::Kernel;
use crate::launch::{
    blocks_cover_exactly, gemv_step, grid1d, norm_step, planes, Arg, Buf, KvPart, LaunchView, StepView,
    Tensor, VecName, Weights,
};
use crate::meaning::{
    buf, form_of, gpu, launch_meaning, meaning, num, over, part_row, part_width, parts, plane_count,
    plane_words, put, row, rows_over, staged, stored_rows, Form, Math,
};
use crate::model::{zeros, Arch, Config};
use crate::plans::{engine_ready, holds, layer_ready};
use crate::quant::div_up;
use crate::replay::{lemma_run_add, run, Device, Memory};
use crate::setup::Setup;
use vstd::prelude::*;

verus! {

/// The form of a stored matrix.
pub open spec fn form(w: Weights) -> Form {
    match w {
        Weights::F32(..) => Form::F32,
        Weights::F16(..) => Form::F16,
        Weights::Int8 { .. } => Form::Int8,
        Weights::Int4 { .. } => Form::Int4,
        Weights::Int4K { .. } => Form::Int4K,
        Weights::Int3 { .. } => Form::Int3,
        Weights::Int2 { .. } => Form::Int2,
    }
}

/// The planes of a tensor, in the order of its form: the values, then the scales, and the
/// order of the channels where there is one; or the values, the scales of the sub-blocks and
/// those of the blocks.
pub open spec fn matrix(m: Memory, w: Weights, t: Tensor) -> Seq<Seq<u32>> {
    let of = |p: crate::launch::Plane| m(Buf::Matrix(t, p));
    match w {
        Weights::F32(..) => seq![of(crate::launch::Plane::Values)],
        Weights::F16(..) => seq![of(crate::launch::Plane::Values)],
        Weights::Int8 { .. } => seq![
            of(crate::launch::Plane::Values),
            of(crate::launch::Plane::Scales),
        ],
        Weights::Int4 { q, scales, perm } => if perm is Some {
            seq![
                of(crate::launch::Plane::Values),
                of(crate::launch::Plane::Scales),
                of(crate::launch::Plane::Perm),
            ]
        } else {
            seq![of(crate::launch::Plane::Values), of(crate::launch::Plane::Scales)]
        },
        _ => seq![
            of(crate::launch::Plane::Values),
            of(crate::launch::Plane::Sub),
            of(crate::launch::Plane::Dm),
        ],
    }
}

/// A row times a matrix, plus a bias.
pub open spec fn product(
    x: Math,
    f: Form,
    w: Seq<Seq<u32>>,
    v: Seq<u32>,
    bias: Seq<u32>,
    n: int,
) -> Seq<u32> {
    Seq::new(n as nat, |o: int| (x.plus)((x.dot)(f, w, v, n, o), bias[o]))
}

/// The sum of two rows.
pub open spec fn summed(x: Math, a: Seq<u32>, b: Seq<u32>) -> Seq<u32> {
    Seq::new(a.len(), |i: int| (x.plus)(a[i], b[i]))
}

/// A row normalized, with offsets where there are any.
pub open spec fn normed(x: Math, v: Seq<u32>, g: Seq<u32>, b: Option<Seq<u32>>, eps: u32) -> Seq<u32> {
    Seq::new(
        v.len(),
        |i: int|
            match b {
                Some(b) => (x.layernorm)(v, g, b, eps, i),
                None => (x.rmsnorm)(v, g, eps, i),
            },
    )
}

/// A vector of the model, where it has it.
pub open spec fn offsets(m: Memory, there: bool, b: Buf) -> Option<Seq<u32>> {
    if there {
        Some(m(b))
    } else {
        None
    }
}

/// A bias of the model, zeros where it has none.
pub open spec fn bias(m: Memory, there: bool, b: Buf, n: int) -> Seq<u32> {
    if there {
        m(b)
    } else {
        zeros(n)
    }
}

/// The stored matrix without an order of its channels.
pub open spec fn unordered(w: Weights) -> Weights {
    match w {
        Weights::Int4 { q, scales, perm } => Weights::Int4 { q, scales, perm: None },
        _ => w,
    }
}

/// The sum of the embeddings of a token and of its position.
pub open spec fn looked_up(x: Math, e: Engine, m: Memory, tok: u32, pos: int) -> Seq<u32> {
    let c = e.config;
    let n = c.n_embd as int;
    let w = matrix(m, unordered(e.wte_t), Tensor::Wte);
    Seq::new(
        n as nat,
        |i: int|
            (x.plus)(
                (x.embedded)(form(e.wte_t), w, n, c.n_vocab as int, tok, i),
                m(Buf::Wpe)[pos * n + i],
            ),
    )
}

/// Queries, keys and values of a layer, before they get their position.
pub open spec fn projected(x: Math, e: Engine, m: Memory, l: int, v: Seq<u32>) -> Seq<u32> {
    let c = e.config;
    let k = l as usize;
    let y = e.layers@[l];
    let b = offsets(m, y.ln1_b is Some, Buf::Vector(k, VecName::Ln1B));
    product(
        x,
        form(y.qkv_w),
        matrix(m, y.qkv_w, Tensor::Linear(k, Role::Qkv)),
        normed(x, v, m(Buf::Vector(k, VecName::Ln1G)), b, c.norm_eps),
        m(Buf::Vector(k, VecName::QkvB)),
        c.qkv_width(),
    )
}

/// Queries and keys get their position, where the arch has rotary positions.
pub open spec fn positioned(x: Math, c: Config, v: Seq<u32>, pos: int) -> Seq<u32> {
    if c.arch == Arch::Gpt2 {
        v
    } else {
        let (nh, nkv, hd) = (c.n_head as int, c.n_kv_head as int, c.head_dim as int);
        Seq::new(
            v.len(),
            |i: int|
                if i < c.q_width() + c.kv_width() {
                    (x.rotated)(v, pos, nh, nkv, hd, c.rope_theta, i)
                } else {
                    v[i]
                },
        )
    }
}

/// A part of a layer's cache after the row of a position has been stored.
pub open spec fn cached(
    x: Math,
    e: Engine,
    old: Seq<u32>,
    p: KvPart,
    v: Seq<u32>,
    pos: int,
) -> Seq<u32> {
    let c = e.config;
    let (nkv, hd) = (c.n_kv_head as int, c.head_dim as int);
    let n = part_width(p, nkv, hd);
    over(old, pos * n, n, |j: int| part_row(x, e.kv8, p, v, c.q_width(), nkv, hd)[j])
}

/// Attention of a row over the cache of its layer, up to and with its own position.
pub open spec fn attention(
    x: Math,
    e: Engine,
    cache: spec_fn(KvPart) -> Seq<u32>,
    v: Seq<u32>,
    pos: int,
) -> Seq<u32> {
    let c = e.config;
    let (nh, nkv, hd) = (c.n_head as int, c.n_kv_head as int, c.head_dim as int);
    let seen = Seq::new(
        parts(e.kv8).len(),
        |i: int| cache(parts(e.kv8)[i]).take((pos + 1) * part_width(parts(e.kv8)[i], nkv, hd)),
    );
    Seq::new(
        c.q_width() as nat,
        |i: int| (x.attended)(e.kv8, v.take(c.q_width()), seen, nh, nkv, hd, i),
    )
}

/// The residual stream behind the attention of a layer.
pub open spec fn mixed(x: Math, e: Engine, m: Memory, l: int, v: Seq<u32>, att: Seq<u32>) -> Seq<u32> {
    let k = l as usize;
    let y = e.layers@[l];
    summed(
        x,
        v,
        product(
            x,
            form(y.proj_w),
            matrix(m, y.proj_w, Tensor::Linear(k, Role::Proj)),
            att,
            m(Buf::Vector(k, VecName::ProjB)),
            e.config.n_embd as int,
        ),
    )
}

/// The activated hidden row of the MLP of a layer.
pub open spec fn activated(x: Math, e: Engine, m: Memory, l: int, v: Seq<u32>) -> Seq<u32> {
    let c = e.config;
    let k = l as usize;
    let y = e.layers@[l];
    let n = c.n_inter as int;
    let b = offsets(m, y.ln2_b is Some, Buf::Vector(k, VecName::Ln2B));
    let a = normed(x, v, m(Buf::Vector(k, VecName::Ln2G)), b, c.norm_eps);
    let h = product(
        x,
        form(y.fc_w),
        matrix(m, y.fc_w, Tensor::Linear(k, Role::Fc)),
        a,
        bias(m, y.fc_b is Some, Buf::Vector(k, VecName::FcB), n),
        n,
    );
    match y.up_w {
        None => Seq::new(n as nat, |i: int| (x.gelu)(h[i])),
        Some(up) => {
            let u = product(
                x,
                form(up),
                matrix(m, up, Tensor::Linear(k, Role::Up)),
                a,
                zeros(n),
                n,
            );
            Seq::new(n as nat, |i: int| (x.gated)(h[i], u[i]))
        },
    }
}

/// The residual stream behind the MLP of a layer.
pub open spec fn widened(x: Math, e: Engine, m: Memory, l: int, v: Seq<u32>) -> Seq<u32> {
    let k = l as usize;
    let y = e.layers@[l];
    let n = e.config.n_embd as int;
    summed(
        x,
        v,
        product(
            x,
            form(y.fc2_w),
            matrix(m, y.fc2_w, Tensor::Linear(k, Role::Fc2)),
            activated(x, e, m, l, v),
            bias(m, y.fc2_b is Some, Buf::Vector(k, VecName::Fc2B), n),
            n,
        ),
    )
}

/// A layer: `y = x + proj(attention(norm(x)))`, then `y + down(act(norm(y)))`.
pub open spec fn layer_out(x: Math, e: Engine, m: Memory, l: int, v: Seq<u32>, pos: int) -> Seq<u32> {
    let k = l as usize;
    let qkv = positioned(x, e.config, projected(x, e, m, l, v), pos);
    let cache = |p: KvPart| cached(x, e, m(Buf::Kv(k, p)), p, qkv, pos);
    widened(x, e, m, l, mixed(x, e, m, l, v, attention(x, e, cache, qkv, pos)))
}

/// The residual stream in front of layer `l`, of a token at a position.
pub open spec fn hidden(x: Math, e: Engine, m: Memory, l: nat, tok: u32, pos: int) -> Seq<u32>
    decreases l,
{
    if l == 0 {
        looked_up(x, e, m, tok, pos)
    } else {
        layer_out(x, e, m, l - 1, hidden(x, e, m, (l - 1) as nat, tok, pos), pos)
    }
}

/// The head applied to a row that has gone through all layers.
pub open spec fn logits_of(x: Math, e: Engine, m: Memory, v: Seq<u32>) -> Seq<u32> {
    let c = e.config;
    let n = c.n_vocab as int;
    let t = if e.lm_head_t is Some {
        Tensor::LmHead
    } else {
        Tensor::Wte
    };
    product(
        x,
        form(e.head()),
        matrix(m, e.head(), t),
        normed(x, v, m(Buf::LnfG), offsets(m, e.lnf_b is Some, Buf::LnfB), c.norm_eps),
        zeros(n),
        n,
    )
}

/// The logits after a token at a position.
pub open spec fn next_logits(x: Math, e: Engine, m: Memory, tok: u32, pos: int) -> Seq<u32> {
    logits_of(x, e, m, hidden(x, e, m, e.config.n_layer as nat, tok, pos))
}

/// What layer `l` stores in a part of its cache for a token at a position.
pub open spec fn cache_after(
    x: Math,
    e: Engine,
    m: Memory,
    l: int,
    p: KvPart,
    tok: u32,
    pos: int,
) -> Seq<u32> {
    let v = hidden(x, e, m, l as nat, tok, pos);
    cached(
        x,
        e,
        m(Buf::Kv(l as usize, p)),
        p,
        positioned(x, e.config, projected(x, e, m, l, v), pos),
        pos,
    )
}

/// The counts that kernels take are numbers of theirs.
pub open spec fn countable(c: Config) -> bool {
    &&& c.n_embd <= 0x1000_0000
    &&& c.n_inter <= 0x1000_0000
    &&& c.n_vocab <= 0x1000_0000
    &&& c.n_head <= 0x1000_0000
    &&& c.n_kv_head <= 0x1000_0000
    &&& c.head_dim <= 0x1000_0000
    &&& c.qkv_width() <= 0x1000_0000
    &&& c.n_ctx <= 0x1000_0000
}

/// The buffers of a decode step have the sizes that opening a model gives them, and what
/// stands for a missing bias is zeros.
pub open spec fn placed(m: Memory, e: Engine) -> bool {
    let c = e.config;
    let (nkv, hd) = (c.n_kv_head as int, c.head_dim as int);
    &&& m(Buf::X).len() == c.n_embd
    &&& m(Buf::Xb).len() == c.n_embd
    &&& m(Buf::Qkv).len() == c.qkv_width()
    &&& m(Buf::Attn).len() == c.q_width()
    &&& m(Buf::H).len() == c.n_inter
    &&& m(Buf::H2).len() == c.n_inter
    &&& m(Buf::Logits).len() == c.n_vocab
    &&& c.n_embd <= m(Buf::ZeroBias).len()
    &&& c.n_inter <= m(Buf::ZeroBias).len()
    &&& c.n_vocab <= m(Buf::ZeroBias).len()
    &&& forall|i: int| 0 <= i < m(Buf::ZeroBias).len() ==> #[trigger] m(Buf::ZeroBias)[i] == 0
    &&& forall|l: usize, p: KvPart|
        l < c.n_layer && parts(e.kv8).contains(p) ==> (#[trigger] m(Buf::Kv(l, p))).len() == c.n_ctx
            * part_width(p, nkv, hd)
}

/// The buffer is one that a decode step works in.
pub open spec fn scratch(b: Buf) -> bool {
    b == Buf::X || b == Buf::Xb || b == Buf::Qkv || b == Buf::Attn || b == Buf::H || b == Buf::H2 || b
        == Buf::Logits
}

/// Outside the buffers that a decode step works in, nothing differs.
pub open spec fn steady(m: Memory, n: Memory) -> bool {
    forall|b: Buf| !scratch(b) ==> #[trigger] n(b) == m(b)
}

/// All buffers but one are the same.
pub open spec fn but(m: Memory, n: Memory, x: Buf) -> bool {
    forall|b: Buf| b != x ==> #[trigger] n(b) == m(b)
}

pub proof fn lemma_grid(n: int)
    requires
        0 <= n <= 0x7fff_ffff,
    ensures
        n <= grid1d(n).0 * 256,
{
    blocks_cover_exactly(n, 256);
    assert(div_up(n, 256) <= n + 1) by (nonlinear_arith)
        requires
            (div_up(n, 256) - 1) * 256 < n || n == 0,
            n >= 0,
            n == 0 ==> div_up(n, 256) == 0,
    ;
}

/// One row is no more than a run of words.
pub proof fn lemma_one_row(
    old: Seq<u32>,
    at: int,
    w: int,
    f: spec_fn(int, int) -> u32,
    g: spec_fn(int) -> u32,
)
    requires
        0 <= w,
        forall|j: int| 0 <= j < w ==> #[trigger] f(0, j) == g(j),
    ensures
        rows_over(old, at, 1, w, f) == over(old, at, w, g),
{
    let a = rows_over(old, at, 1, w, f);
    let b = over(old, at, w, g);
    assert forall|i: int| 0 <= i < old.len() implies a[i] == b[i] by {
        if at <= i < at + w {
            let j = i - at;
            assert(j / w == 0 && j % w == j) by (nonlinear_arith)
                requires
                    0 <= j < w,
            ;
            assert(f(0, j) == g(j));
        }
    }
    assert(a =~= b);
}

/// Words that are all replaced are a row of their own.
pub proof fn lemma_all_over(old: Seq<u32>, f: spec_fn(int) -> u32, r: Seq<u32>)
    requires
        old.len() == r.len(),
        forall|i: int| 0 <= i < r.len() ==> #[trigger] r[i] == f(i),
    ensures
        over(old, 0, r.len() as int, f) == r,
{
    assert(over(old, 0, r.len() as int, f) =~= r);
}

/// The planes that a launch is handed are those of the tensor.
pub proof fn lemma_planes(m: Memory, w: Weights, t: Tensor, l: LaunchView, at: int, order: Seq<Seq<u32>>)
    requires
        holds(w, t),
        0 <= at,
        at + planes(w).len() <= l.args.len(),
        forall|i: int| 0 <= i < planes(w).len() ==> l.args[at + i] == #[trigger] planes(w)[i],
        order == (if w is Int4 && w->Int4_perm is Some {
            seq![m(Buf::Matrix(t, crate::launch::Plane::Perm))]
        } else {
            Seq::empty()
        }),
    ensures
        plane_words(m, l, form(w), at) + order == matrix(m, w, t),
        planes(w).len() == plane_count(form(w)),
{
    let a = plane_words(m, l, form(w), at) + order;
    assert(planes(w).len() == plane_count(form(w)));
    assert(l.args[at] == planes(w)[0]);
    if planes(w).len() > 1 {
        assert(l.args[at + 1] == planes(w)[1]);
    }
    if planes(w).len() > 2 {
        assert(l.args[at + 2] == planes(w)[2]);
    }
    assert(a =~= matrix(m, w, t));
}

/// What a one-row multiplication leaves: the product, or the sum with what was there.
pub proof fn lemma_gemv_does(
    x: Math,
    ag: int,
    m: Memory,
    y: Buf,
    v: Buf,
    w: Weights,
    t: Tensor,
    b: Buf,
    n_in: int,
    n_out: int,
    accum: bool,
)
    requires
        holds(w, t),
        ag > 0,
        0 <= n_in <= 0x1000_0000,
        0 <= n_out <= 0x1000_0000,
        m(y).len() == n_out,
        m(v).len() == n_in,
    ensures
        ({
            let p = product(x, form(w), matrix(m, w, t), m(v), m(b), n_out);
            let r = if accum {
                summed(x, m(y), p)
            } else {
                p
            };
            meaning(x, ag, m, gemv_step(ag, y, v, w, b, n_in, n_out, accum)) == put(m, y, r)
        }),
{
    let step = gemv_step(ag, y, v, w, b, n_in, n_out, accum);
    let l = step->Launch_0;
    let k = planes(w).len() as int;
    let p = product(x, form(w), matrix(m, w, t), m(v), m(b), n_out);
    let r = if accum {
        summed(x, m(y), p)
    } else {
        p
    };
    let order = if w is Int4 && w->Int4_perm is Some {
        seq![m(Buf::Matrix(t, crate::launch::Plane::Perm))]
    } else {
        Seq::empty()
    };
    assert forall|i: int| 0 <= i < planes(w).len() implies l.args[2 + i] == #[trigger] planes(w)[i] by {
    }
    lemma_planes(m, w, t, l, 2, order);
    lemma_grid(n_out);
    assert(form_of(l.kernel) == form(w));
    assert(k == plane_count(form(w)));
    assert(l.args[0] == Arg::Buf(y) && l.args[1] == Arg::Buf(v));
    assert(l.args[k + 2] == Arg::Buf(b));
    assert(num(l, k + 3) == n_in && num(l, k + 4) == n_out);
    assert(num(l, k + 5) == if accum {
        1int
    } else {
        0
    });
    assert(n_in / ag <= n_in) by (nonlinear_arith)
        requires
            ag > 0,
            n_in >= 0,
    ;
    assert(0 <= n_in / ag) by (nonlinear_arith)
        requires
            ag > 0,
            n_in >= 0,
    ;
    assert(staged(form(w), n_in, ag) <= l.shared);
    assert(m(v).take(n_in) =~= m(v));
    reveal(launch_meaning);
    let mine = meaning(x, ag, m, step);
    assert(mine == crate::meaning::gemv_meaning(x, ag, m, l));
    let each = |o: int|
        {
            let d = (x.plus)((x.dot)(form(w), matrix(m, w, t), m(v), n_out, o), m(b)[o]);
            if num(l, k + 5) != 0 {
                (x.plus)(m(y)[o], d)
            } else {
                d
            }
        };
    assert(over(m(y), 0, n_out, each) =~= r);
    assert(mine(y) =~= r);
    assert(mine =~= put(m, y, r));
}

/// What a one-row normalization leaves.
pub proof fn lemma_norm_does(
    x: Math,
    ag: int,
    m: Memory,
    out: Buf,
    v: Buf,
    g: Buf,
    b: Option<Buf>,
    n: int,
    eps: u32,
)
    requires
        0 <= n <= 0x1000_0000,
        m(out).len() == n,
        m(v).len() == n,
    ensures
        ({
            let off = match b {
                Some(b) => Some(m(b)),
                None => None,
            };
            meaning(x, ag, m, norm_step(out, v, g, b, n, eps)) == put(
                m,
                out,
                normed(x, m(v), m(g), off, eps),
            )
        }),
{
    let step = norm_step(out, v, g, b, n, eps);
    let l = step->Launch_0;
    let off = match b {
        Some(b) => Some(m(b)),
        None => None,
    };
    let r = normed(x, m(v), m(g), off, eps);
    reveal(launch_meaning);
    let mine = meaning(x, ag, m, step);
    let there = b is Some;
    assert(mine == crate::meaning::norm_meaning(x, m, l, there, 1, n, eps));
    let each = |q: int, i: int|
        {
            let v = row(m(buf(l, 1)), n, q);
            if there {
                (x.layernorm)(v, m(buf(l, 2)), m(buf(l, 3)), eps, i)
            } else {
                (x.rmsnorm)(v, m(buf(l, 2)), eps, i)
            }
        };
    assert(0 * n == 0);
    assert(row(m(v), n, 0) =~= m(v));
    let flat = |i: int| each(0, i);
    lemma_one_row(m(out), 0, n, each, flat);
    lemma_all_over(m(out), flat, r);
    assert(mine(out) =~= r);
    assert(mine =~= put(m, out, r));
}

/// What the lookup of a token leaves.
pub proof fn lemma_lookup_does(x: Math, e: Engine, m: Memory, s: Seq<Setup>, tok: u32, pos: usize)
    requires
        engine_ready(e, s),
        countable(e.config),
        placed(m, e),
        pos < e.config.n_ctx,
    ensures
        meaning(x, e.ag as int, m, e.lookup_step(tok, Some(pos))) == put(
            m,
            Buf::X,
            looked_up(x, e, m, tok, pos as int),
        ),
{
    let c = e.config;
    let w = e.wte_t;
    let n = c.n_embd as int;
    let step = e.lookup_step(tok, Some(pos));
    let l = step->Launch_0;
    let k = planes(w).len() as int;
    let r = looked_up(x, e, m, tok, pos as int);
    assert forall|i: int| 0 <= i < planes(w).len() implies l.args[1 + i] == #[trigger] planes(w)[i] by {
    }
    let none = Seq::<Seq<u32>>::empty();
    let bare = unordered(w);
    assert(planes(bare) == planes(w));
    lemma_planes(m, bare, Tensor::Wte, l, 1, none);
    assert(plane_words(m, l, form(w), 1) + none =~= plane_words(m, l, form(w), 1));
    lemma_grid(n);
    assert(1 * n == n);
    assert(form_of(l.kernel) == form(w));
    assert(k == plane_count(form(w)));
    assert(l.args[0] == Arg::Buf(Buf::X) && l.args[k + 1] == Arg::Buf(Buf::Wpe));
    assert(l.args[k + 2] == Arg::I32(tok as i32) && l.args[k + 3] == Arg::I32(pos as i32));
    assert(num(l, k + 4) == n && num(l, k + 5) == c.n_vocab);
    assert((tok as i32) as u32 == tok) by (bit_vector);
    reveal(launch_meaning);
    let mine = meaning(x, e.ag as int, m, step);
    assert(mine == crate::meaning::embed_host_meaning(x, m, l));
    let toks = |q: int| l.args[k + 2]->I32_0 as u32;
    let each = |q: int, i: int|
        (x.plus)(
            (x.embedded)(form(w), plane_words(m, l, form(w), 1), n, c.n_vocab as int, toks(q), i),
            m(Buf::Wpe)[(pos + q) * n + i],
        );
    let flat = |i: int| each(0, i);
    lemma_one_row(m(Buf::X), 0, n, each, flat);
    assert forall|i: int| 0 <= i < r.len() implies #[trigger] r[i] == flat(i) by {
        assert(pos + 0 == pos);
    }
    lemma_all_over(m(Buf::X), flat, r);
    assert(mine(Buf::X) =~= r);
    assert(mine =~= put(m, Buf::X, r));
}

/// A plan up to a step is the plan before it and then the step.
pub proof fn lemma_run_at(dev: Device, m: Memory, steps: Seq<StepView>, i: int)
    requires
        0 <= i < steps.len(),
    ensures
        run(dev, m, steps.take(0)) == m,
        run(dev, m, steps.take(i + 1)) == dev(run(dev, m, steps.take(i)), steps[i]),
        steps.take(steps.len() as int) == steps,
{
    let t = steps.take(i + 1);
    assert(t.drop_last() =~= steps.take(i));
    assert(steps.take(steps.len() as int) =~= steps);
}

/// A plan of one step is the step.
pub proof fn lemma_run_one(dev: Device, m: Memory, step: StepView)
    ensures
        run(dev, m, seq![step]) == dev(m, step),
{
    let steps = seq![step];
    lemma_run_at(dev, m, steps, 0);
    assert(steps.take(1) =~= steps);
}

/// What the start of a layer leaves: the projected row.
proof fn lemma_front_does(x: Math, e: Engine, m: Memory, s: Seq<Setup>, l: int) -> (n: Memory)
    requires
        engine_ready(e, s),
        countable(e.config),
        e.ag > 0,
        placed(m, e),
        0 <= l < e.config.n_layer,
    ensures
        n == run(gpu(x, e.ag as int), m, e.front_steps(l)),
        n(Buf::Qkv) == projected(x, e, m, l, m(Buf::X)),
        n(Buf::X) == m(Buf::X),
        steady(m, n),
        placed(n, e),
{
    let c = e.config;
    let ag = e.ag as int;
    let y = e.layers@[l];
    let k = l as usize;
    let dev = gpu(x, ag);
    let steps = e.front_steps(l);
    assert(layer_ready(y, k, e.kv8, s));
    crate::engine::lemma_config_widths(c);
    lemma_run_at(dev, m, steps, 0);
    lemma_run_at(dev, m, steps, 1);
    lemma_norm_does(x, ag, m, Buf::Xb, Buf::X, y.ln1_g, y.ln1_b, c.n_embd as int, c.norm_eps);
    let a = run(dev, m, steps.take(1));
    let t = Tensor::Linear(k, Role::Qkv);
    lemma_gemv_does(
        x,
        ag,
        a,
        Buf::Qkv,
        Buf::Xb,
        y.qkv_w,
        t,
        y.qkv_b,
        c.n_embd as int,
        c.qkv_width(),
        false,
    );
    assert(matrix(a, y.qkv_w, t) =~= matrix(m, y.qkv_w, t));
    let n = run(dev, m, steps);
    assert(a(y.qkv_b) == m(y.qkv_b));
    n
}

/// What the rotation leaves.
proof fn lemma_rope_does(x: Math, e: Engine, m: Memory, pos: usize) -> (n: Memory)
    requires
        countable(e.config),
        placed(m, e),
        pos < e.config.n_ctx,
    ensures
        n == run(gpu(x, e.ag as int), m, e.rope_steps(Some(pos))),
        n(Buf::Qkv) == positioned(x, e.config, m(Buf::Qkv), pos as int),
        but(m, n, Buf::Qkv),
        placed(n, e),
{
    let c = e.config;
    let ag = e.ag as int;
    let dev = gpu(x, ag);
    let steps = e.rope_steps(Some(pos));
    let n = run(dev, m, steps);
    crate::engine::lemma_config_widths(c);
    if c.arch != Arch::Gpt2 {
        let step = steps[0];
        let l = step->Launch_0;
        let (nh, nkv, hd) = (c.n_head as int, c.n_kv_head as int, c.head_dim as int);
        let v = m(Buf::Qkv);
        let w = v.len() as int;
        assert(steps =~= seq![step]);
        lemma_run_one(dev, m, step);
        lemma_grid((c.q_width() + c.kv_width()) / 2);
        reveal(launch_meaning);
        assert(n == crate::meaning::rope_meaning(
            x,
            m,
            l,
            pos as int,
            1,
            nh,
            nkv,
            hd,
            w,
            c.rope_theta,
        ));
        let each = |r: int, i: int|
            if i < (nh + nkv) * hd {
                (x.rotated)(row(v, w, r), pos + r, nh, nkv, hd, c.rope_theta, i)
            } else {
                v[r * w + i]
            };
        let flat = |i: int| each(0, i);
        let r = positioned(x, c, v, pos as int);
        assert(0 * w == 0);
        assert(row(v, w, 0) =~= v);
        assert(1 * ((nh + nkv) * hd) / 2 == (c.q_width() + c.kv_width()) / 2);
        lemma_one_row(v, 0, w, each, flat);
        assert forall|i: int| 0 <= i < r.len() implies #[trigger] r[i] == flat(i) by {
            assert(pos + 0 == pos);
        }
        lemma_all_over(v, flat, r);
        assert(n(Buf::Qkv) =~= r);
    }
    n
}

/// Storing the row of one position.
proof fn lemma_stored_one(x: Math, e: Engine, old: Seq<u32>, p: KvPart, v: Seq<u32>, pos: int)
    requires
        v.len() == e.config.qkv_width(),
    ensures
        stored_rows(
            x,
            e.kv8,
            p,
            old,
            pos,
            1,
            v,
            v.len() as int,
            e.config.q_width(),
            e.config.n_kv_head as int,
            e.config.head_dim as int,
        ) == cached(x, e, old, p, v, pos),
{
    let c = e.config;
    let (nkv, hd, w) = (c.n_kv_head as int, c.head_dim as int, v.len() as int);
    let n = part_width(p, nkv, hd);
    assert(0 * w == 0);
    assert(row(v, w, 0) =~= v);
    assert(0 <= nkv * hd) by (nonlinear_arith)
        requires
            0 <= nkv,
            0 <= hd,
    ;
    let each = |r: int, j: int| part_row(x, e.kv8, p, row(v, w, r), c.q_width(), nkv, hd)[j];
    let flat = |j: int| part_row(x, e.kv8, p, v, c.q_width(), nkv, hd)[j];
    lemma_one_row(old, pos * n, n, each, flat);
}

/// What storing keys and values leaves: the row in every part of the cache.
pub open spec fn stores(x: Math, e: Engine, m: Memory, n: Memory, l: usize, pos: int) -> bool {
    &&& forall|p: KvPart|
        parts(e.kv8).contains(p) ==> #[trigger] n(Buf::Kv(l, p)) == cached(
            x,
            e,
            m(Buf::Kv(l, p)),
            p,
            m(Buf::Qkv),
            pos,
        )
    &&& forall|b: Buf| !(b is Kv && b->Kv_0 == l) ==> #[trigger] n(b) == m(b)
}

proof fn lemma_copies_do(x: Math, e: Engine, m: Memory, l: usize, pos: usize) -> (n: Memory)
    requires
        countable(e.config),
        placed(m, e),
        !e.kv8,
        l < e.config.n_layer,
    ensures
        n == run(gpu(x, e.ag as int), m, e.store_steps(l, Some(pos))),
        stores(x, e, m, n, l, pos as int),
{
    let c = e.config;
    let dev = gpu(x, e.ag as int);
    let steps = e.store_steps(l, Some(pos));
    let v = m(Buf::Qkv);
    let (qd, kw) = (c.q_width(), c.kv_width());
    crate::engine::lemma_config_widths(c);
    lemma_run_at(dev, m, steps, 0);
    lemma_run_at(dev, m, steps, 1);
    let n = run(dev, m, steps);
    assert forall|p: KvPart| parts(e.kv8).contains(p) implies #[trigger] n(Buf::Kv(l, p)) == cached(
        x,
        e,
        m(Buf::Kv(l, p)),
        p,
        v,
        pos as int,
    ) by {
        assert(p == KvPart::K || p == KvPart::V);
        assert(n(Buf::Kv(l, p)) =~= cached(x, e, m(Buf::Kv(l, p)), p, v, pos as int));
    }
    n
}

proof fn lemma_narrow_does(x: Math, e: Engine, m: Memory, l: usize, pos: usize) -> (n: Memory)
    requires
        countable(e.config),
        placed(m, e),
        e.kv8,
        l < e.config.n_layer,
        pos < e.config.n_ctx,
    ensures
        n == meaning(x, e.ag as int, m, e.attn_steps(l, Some(pos))[0]),
        stores(x, e, m, n, l, pos as int),
{
    let c = e.config;
    let step = e.attn_steps(l, Some(pos))[0];
    let g = step->Launch_0;
    let v = m(Buf::Qkv);
    let (nkv, hd, qd) = (c.n_kv_head as int, c.head_dim as int, c.q_width());
    crate::engine::lemma_config_widths(c);
    reveal(launch_meaning);
    let n = meaning(x, e.ag as int, m, step);
    assert(n == crate::meaning::narrow_meaning(x, m, g, pos as int, v.len() as int));
    assert(g.grid.1 == 1);
    assert(buf(g, 6) == Buf::Qkv && num(g, 8) == qd && num(g, 9) == nkv && num(g, 10) == hd);
    assert forall|i: int| 0 <= i < 6 implies #[trigger] buf(g, i) == Buf::Kv(l, parts(true)[i]) by {
    }
    assert forall|i: int| 0 <= i < 6 implies stored_rows(
        x,
        true,
        #[trigger] parts(true)[i],
        m(Buf::Kv(l, parts(true)[i])),
        pos as int,
        1,
        v,
        v.len() as int,
        qd,
        nkv,
        hd,
    ) == cached(x, e, m(Buf::Kv(l, parts(true)[i])), parts(true)[i], v, pos as int) by {
        lemma_stored_one(x, e, m(Buf::Kv(l, parts(true)[i])), parts(true)[i], v, pos as int);
    }
    assert(buf(g, 0) == Buf::Kv(l, KvPart::K) && buf(g, 1) == Buf::Kv(l, KvPart::V) && buf(g, 2)
        == Buf::Kv(l, KvPart::Ks) && buf(g, 3) == Buf::Kv(l, KvPart::Vs) && buf(g, 4) == Buf::Kv(
        l,
        KvPart::Kb,
    ) && buf(g, 5) == Buf::Kv(l, KvPart::Vb));
    assert(parts(true)[0] == KvPart::K && parts(true)[1] == KvPart::V && parts(true)[2]
        == KvPart::Ks && parts(true)[3] == KvPart::Vs && parts(true)[4] == KvPart::Kb
        && parts(true)[5] == KvPart::Vb);
    n
}

/// What attention leaves, once keys and values are stored.
proof fn lemma_attend_does(x: Math, e: Engine, m: Memory, l: usize, pos: usize) -> (n: Memory)
    requires
        countable(e.config),
        placed(m, e),
        l < e.config.n_layer,
        pos < e.config.n_ctx,
    ensures
        n == meaning(x, e.ag as int, m, e.attn_steps(l, Some(pos)).last()),
        n(Buf::Attn) == attention(
            x,
            e,
            |p: KvPart| m(Buf::Kv(l, p)),
            m(Buf::Qkv),
            pos as int,
        ),
        but(m, n, Buf::Attn),
{
    let c = e.config;
    let step = e.attn_steps(l, Some(pos)).last();
    let g = step->Launch_0;
    let v = m(Buf::Qkv);
    let w = v.len() as int;
    let (nh, nkv, hd, qd) = (c.n_head as int, c.n_kv_head as int, c.head_dim as int, c.q_width());
    let cache = |p: KvPart| m(Buf::Kv(l, p));
    crate::engine::lemma_config_widths(c);
    reveal(launch_meaning);
    let n = meaning(x, e.ag as int, m, step);
    let at: int = if e.kv8 {
        9
    } else {
        5
    };
    assert(num(g, at) == nh && num(g, at + 1) == nkv && num(g, at + 2) == hd);
    assert(num(g, at - 1) == pos);
    assert(n == crate::meaning::attend_one_meaning(x, m, g, e.kv8, pos as int, at));
    assert(n == crate::meaning::attend_meaning(x, m, g, e.kv8, pos as int, 1, nh, nkv, hd, w));
    let each = |r: int, i: int|
        (x.attended)(
            e.kv8,
            row(v, w, r).take(nh * hd),
            crate::meaning::past(m, g, e.kv8, pos + r, nkv, hd),
            nh,
            nkv,
            hd,
            i,
        );
    let flat = |i: int| each(0, i);
    let r = attention(x, e, cache, v, pos as int);
    assert(0 * w == 0);
    assert(row(v, w, 0) =~= v);
    assert(pos + 0 == pos);
    let seen = Seq::new(
        parts(e.kv8).len(),
        |i: int| cache(parts(e.kv8)[i]).take((pos + 1) * part_width(parts(e.kv8)[i], nkv, hd)),
    );
    assert forall|i: int| 0 <= i < parts(e.kv8).len() implies #[trigger] buf(g, 2 + i) == Buf::Kv(
        l,
        parts(e.kv8)[i],
    ) by {
    }
    assert(crate::meaning::past(m, g, e.kv8, pos as int, nkv, hd) =~= seen);
    lemma_one_row(m(Buf::Attn), 0, qd, each, flat);
    lemma_all_over(m(Buf::Attn), flat, r);
    assert(n(Buf::Attn) =~= r);
    n
}

/// The product with what stands for a missing bias is the product with zeros.
pub proof fn lemma_bias(
    x: Math,
    e: Engine,
    m: Memory,
    f: Form,
    w: Seq<Seq<u32>>,
    v: Seq<u32>,
    b: Option<Buf>,
    name: Buf,
    n: int,
)
    requires
        placed(m, e),
        0 <= n <= m(Buf::ZeroBias).len(),
        b matches Some(v) ==> v == name,
    ensures
        product(x, f, w, v, m(or_zero(b)), n) == product(x, f, w, v, bias(m, b is Some, name, n), n),
{
    let p = product(x, f, w, v, m(or_zero(b)), n);
    let q = product(x, f, w, v, bias(m, b is Some, name, n), n);
    assert forall|o: int| 0 <= o < n implies p[o] == q[o] by {
        if b is None {
            assert(m(Buf::ZeroBias)[o] == 0);
            assert(zeros(n)[o] == 0);
        }
    }
    assert(p =~= q);
}

/// The same with nothing but zeros for a bias.
pub proof fn lemma_no_bias(x: Math, e: Engine, m: Memory, f: Form, w: Seq<Seq<u32>>, v: Seq<u32>, n: int)
    requires
        placed(m, e),
        0 <= n <= m(Buf::ZeroBias).len(),
    ensures
        product(x, f, w, v, m(Buf::ZeroBias), n) == product(x, f, w, v, zeros(n), n),
{
    lemma_bias(x, e, m, f, w, v, None, Buf::ZeroBias, n);
}

/// What the steps up to the hidden row of the MLP leave.
proof fn lemma_proj_does(x: Math, e: Engine, m: Memory, s: Seq<Setup>, l: int) -> (n: Memory)
    requires
        engine_ready(e, s),
        countable(e.config),
        e.ag > 0,
        placed(m, e),
        0 <= l < e.config.n_layer,
    ensures
        n == run(gpu(x, e.ag as int), m, e.back_steps(l).take(2)),
        n(Buf::X) == mixed(x, e, m, l, m(Buf::X), m(Buf::Attn)),
        n(Buf::Xb) == normed(
            x,
            n(Buf::X),
            m(Buf::Vector(l as usize, VecName::Ln2G)),
            offsets(m, e.layers@[l].ln2_b is Some, Buf::Vector(l as usize, VecName::Ln2B)),
            e.config.norm_eps,
        ),
        steady(m, n),
        placed(n, e),
{
    let c = e.config;
    let ag = e.ag as int;
    let y = e.layers@[l];
    let k = l as usize;
    let dev = gpu(x, ag);
    let steps = e.back_steps(l);
    let ne = c.n_embd as int;
    assert(layer_ready(y, k, e.kv8, s));
    crate::engine::lemma_config_widths(c);
    lemma_run_at(dev, m, steps, 0);
    lemma_run_at(dev, m, steps, 1);
    let t = Tensor::Linear(k, Role::Proj);
    lemma_gemv_does(x, ag, m, Buf::X, Buf::Attn, y.proj_w, t, y.proj_b, c.q_width(), ne, true);
    let a = run(dev, m, steps.take(1));
    lemma_norm_does(x, ag, a, Buf::Xb, Buf::X, y.ln2_g, y.ln2_b, ne, c.norm_eps);
    run(dev, m, steps.take(2))
}

/// What the activation of the MLP leaves, from the normalized row on.
proof fn lemma_act_does(x: Math, e: Engine, m: Memory, s: Seq<Setup>, l: int, v: Seq<u32>) -> (n:
    Memory)
    requires
        engine_ready(e, s),
        countable(e.config),
        e.ag > 0,
        placed(m, e),
        0 <= l < e.config.n_layer,
        m(Buf::Xb) == normed(
            x,
            v,
            m(Buf::Vector(l as usize, VecName::Ln2G)),
            offsets(m, e.layers@[l].ln2_b is Some, Buf::Vector(l as usize, VecName::Ln2B)),
            e.config.norm_eps,
        ),
    ensures
        n == run(
            gpu(x, e.ag as int),
            m,
            e.back_steps(l).subrange(2, e.back_steps(l).len() - 1),
        ),
        n(Buf::H) == activated(x, e, m, l, v),
        n(Buf::X) == m(Buf::X),
        steady(m, n),
        placed(n, e),
{
    let c = e.config;
    let ag = e.ag as int;
    let y = e.layers@[l];
    let k = l as usize;
    let dev = gpu(x, ag);
    let steps = e.back_steps(l).subrange(2, e.back_steps(l).len() - 1);
    let (ne, ni) = (c.n_embd as int, c.n_inter as int);
    assert(layer_ready(y, k, e.kv8, s));
    lemma_run_at(dev, m, steps, 0);
    lemma_run_at(dev, m, steps, 1);
    let t = Tensor::Linear(k, Role::Fc);
    assert(steps[0] == gemv_step(ag, Buf::H, Buf::Xb, y.fc_w, or_zero(y.fc_b), ne, ni, false));
    lemma_gemv_does(x, ag, m, Buf::H, Buf::Xb, y.fc_w, t, or_zero(y.fc_b), ne, ni, false);
    lemma_bias(
        x,
        e,
        m,
        form(y.fc_w),
        matrix(m, y.fc_w, t),
        m(Buf::Xb),
        y.fc_b,
        Buf::Vector(k, VecName::FcB),
        ni,
    );
    let a = run(dev, m, steps.take(1));
    let n = run(dev, m, steps);
    lemma_grid(ni);
    match y.up_w {
        None => {
            assert(steps.len() == 2);
            let g = steps[1]->Launch_0;
            assert(g.kernel == Kernel::GeluInplace);
            reveal(launch_meaning);
            let f = |p: u32, q: u32| (x.gelu)(p);
            assert(n == crate::meaning::each_meaning(a, g, ni, f, a(Buf::H)));
            assert(n(Buf::H) =~= activated(x, e, m, l, v));
        },
        Some(up) => {
            assert(steps.len() == 3);
            let tu = Tensor::Linear(k, Role::Up);
            lemma_run_at(dev, m, steps, 2);
            assert(steps[1] == gemv_step(ag, Buf::H2, Buf::Xb, up, Buf::ZeroBias, ne, ni, false));
            lemma_gemv_does(x, ag, a, Buf::H2, Buf::Xb, up, tu, Buf::ZeroBias, ne, ni, false);
            assert(matrix(a, up, tu) =~= matrix(m, up, tu));
            assert(a(Buf::ZeroBias) == m(Buf::ZeroBias));
            lemma_no_bias(x, e, m, form(up), matrix(m, up, tu), m(Buf::Xb), ni);
            let b = run(dev, m, steps.take(2));
            let g = steps[2]->Launch_0;
            assert(g.kernel == Kernel::SiluMul);
            reveal(launch_meaning);
            assert(n == crate::meaning::each_meaning(b, g, ni, x.gated, b(Buf::H2)));
            assert(n(Buf::H) =~= activated(x, e, m, l, v));
        },
    }
    n
}

/// What the end of a layer leaves: the residual stream behind attention and MLP.
proof fn lemma_back_does(x: Math, e: Engine, m: Memory, s: Seq<Setup>, l: int) -> (n: Memory)
    requires
        engine_ready(e, s),
        countable(e.config),
        e.ag > 0,
        placed(m, e),
        0 <= l < e.config.n_layer,
    ensures
        n == run(gpu(x, e.ag as int), m, e.back_steps(l)),
        n(Buf::X) == widened(x, e, m, l, mixed(x, e, m, l, m(Buf::X), m(Buf::Attn))),
        steady(m, n),
        placed(n, e),
{
    let c = e.config;
    let ag = e.ag as int;
    let y = e.layers@[l];
    let k = l as usize;
    let dev = gpu(x, ag);
    let steps = e.back_steps(l);
    let last = steps.len() - 1;
    let (ne, ni) = (c.n_embd as int, c.n_inter as int);
    assert(layer_ready(y, k, e.kv8, s));
    let p = lemma_proj_does(x, e, m, s, l);
    let v = mixed(x, e, m, l, m(Buf::X), m(Buf::Attn));
    let q = lemma_act_does(x, e, p, s, l, v);
    lemma_run_add(dev, m, steps.take(2), steps.subrange(2, last));
    assert(steps.take(2) + steps.subrange(2, last) =~= steps.take(last));
    lemma_run_at(dev, m, steps, last);
    let t = Tensor::Linear(k, Role::Fc2);
    assert(steps[last] == gemv_step(ag, Buf::X, Buf::H, y.fc2_w, or_zero(y.fc2_b), ni, ne, true));
    lemma_gemv_does(x, ag, q, Buf::X, Buf::H, y.fc2_w, t, or_zero(y.fc2_b), ni, ne, true);
    lemma_bias(
        x,
        e,
        q,
        form(y.fc2_w),
        matrix(q, y.fc2_w, t),
        q(Buf::H),
        y.fc2_b,
        Buf::Vector(k, VecName::Fc2B),
        ne,
    );
    let n = run(dev, m, steps);
    lemma_weights_stay(x, e, m, p, l, v);
    lemma_weights_stay(x, e, m, q, l, v);
    assert(matrix(q, y.fc2_w, t) =~= matrix(m, y.fc2_w, t));
    assert(q(Buf::Vector(k, VecName::Fc2B)) == m(Buf::Vector(k, VecName::Fc2B)));
    n
}

/// The reference reads the tensors and vectors of the model, and those stay.
pub open spec fn same_model(m: Memory, n: Memory) -> bool {
    forall|b: Buf|
        b is Matrix || b is Vector || b == Buf::Wpe || b == Buf::LnfG || b == Buf::LnfB ==> #[trigger] n(
            b,
        ) == m(b)
}

pub proof fn lemma_same_matrix(m: Memory, n: Memory, w: Weights, t: Tensor)
    requires
        same_model(m, n),
    ensures
        matrix(n, w, t) == matrix(m, w, t),
{
    assert(matrix(n, w, t) =~= matrix(m, w, t));
}

pub proof fn lemma_weights_stay(x: Math, e: Engine, m: Memory, n: Memory, l: int, v: Seq<u32>)
    requires
        same_model(m, n),
        0 <= l < e.layers@.len(),
    ensures
        activated(x, e, n, l, v) == activated(x, e, m, l, v),
        widened(x, e, n, l, v) == widened(x, e, m, l, v),
        forall|a: Seq<u32>| #[trigger] mixed(x, e, n, l, v, a) == mixed(x, e, m, l, v, a),
        projected(x, e, n, l, v) == projected(x, e, m, l, v),
{
    let k = l as usize;
    let y = e.layers@[l];
    lemma_same_matrix(m, n, y.qkv_w, Tensor::Linear(k, Role::Qkv));
    lemma_same_matrix(m, n, y.proj_w, Tensor::Linear(k, Role::Proj));
    lemma_same_matrix(m, n, y.fc_w, Tensor::Linear(k, Role::Fc));
    lemma_same_matrix(m, n, y.fc2_w, Tensor::Linear(k, Role::Fc2));
    if let Some(up) = y.up_w {
        lemma_same_matrix(m, n, up, Tensor::Linear(k, Role::Up));
    }
}

/// The reference of a layer rests on the model and on the cache of the layer.
pub proof fn lemma_layer_stays(
    x: Math,
    e: Engine,
    m: Memory,
    n: Memory,
    l: int,
    v: Seq<u32>,
    pos: int,
)
    requires
        same_model(m, n),
        0 <= l < e.layers@.len(),
        forall|p: KvPart|
            parts(e.kv8).contains(p) ==> #[trigger] n(Buf::Kv(l as usize, p)) == m(
                Buf::Kv(l as usize, p),
            ),
    ensures
        layer_out(x, e, n, l, v, pos) == layer_out(x, e, m, l, v, pos),
{
    let k = l as usize;
    lemma_weights_stay(x, e, m, n, l, v);
    let qkv = positioned(x, e.config, projected(x, e, m, l, v), pos);
    let a = |p: KvPart| cached(x, e, m(Buf::Kv(k, p)), p, qkv, pos);
    let b = |p: KvPart| cached(x, e, n(Buf::Kv(k, p)), p, qkv, pos);
    assert forall|p: KvPart| parts(e.kv8).contains(p) implies #[trigger] a(p) == b(p) by {
        assert(n(Buf::Kv(k, p)) == m(Buf::Kv(k, p)));
    }
    lemma_attention_parts(x, e, a, b, qkv, pos);
    let w = mixed(x, e, m, l, v, attention(x, e, a, qkv, pos));
    lemma_weights_stay(x, e, m, n, l, w);
}

/// The logits and what is stored rest on the model and on the cache.
pub proof fn lemma_hidden_stays(
    x: Math,
    e: Engine,
    m: Memory,
    n: Memory,
    l: nat,
    tok: u32,
    pos: int,
)
    requires
        same_model(m, n),
        l <= e.layers@.len(),
        forall|k: usize, p: KvPart|
            k < l && parts(e.kv8).contains(p) ==> #[trigger] n(Buf::Kv(k, p)) == m(Buf::Kv(k, p)),
        e.layers@.len() <= usize::MAX,
    ensures
        hidden(x, e, n, l, tok, pos) == hidden(x, e, m, l, tok, pos),
        logits_of(x, e, n, hidden(x, e, m, l, tok, pos)) == logits_of(
            x,
            e,
            m,
            hidden(x, e, m, l, tok, pos),
        ),
    decreases l,
{
    lemma_same_matrix(m, n, unordered(e.wte_t), Tensor::Wte);
    lemma_same_matrix(m, n, e.head(), Tensor::Wte);
    lemma_same_matrix(m, n, e.head(), Tensor::LmHead);
    if l == 0 {
        assert(looked_up(x, e, n, tok, pos) =~= looked_up(x, e, m, tok, pos));
    } else {
        lemma_hidden_stays(x, e, m, n, (l - 1) as nat, tok, pos);
        lemma_layer_stays(x, e, m, n, l - 1, hidden(x, e, m, (l - 1) as nat, tok, pos), pos);
    }
}

/// What a layer of a decode step leaves.
proof fn lemma_layer_does(x: Math, e: Engine, m: Memory, s: Seq<Setup>, l: int, pos: usize) -> (n:
    Memory)
    requires
        engine_ready(e, s),
        countable(e.config),
        e.ag > 0,
        placed(m, e),
        0 <= l < e.config.n_layer,
        pos < e.config.n_ctx,
    ensures
        n == run(gpu(x, e.ag as int), m, e.layer_steps(l, Some(pos))),
        n(Buf::X) == layer_out(x, e, m, l, m(Buf::X), pos as int),
        forall|p: KvPart|
            parts(e.kv8).contains(p) ==> #[trigger] n(Buf::Kv(l as usize, p)) == cached(
                x,
                e,
                m(Buf::Kv(l as usize, p)),
                p,
                positioned(x, e.config, projected(x, e, m, l, m(Buf::X)), pos as int),
                pos as int,
            ),
        forall|b: Buf|
            !scratch(b) && !(b is Kv && b->Kv_0 == l as usize) ==> #[trigger] n(b) == m(b),
        placed(n, e),
{
    let k = l as usize;
    let dev = gpu(x, e.ag as int);
    let f = e.front_steps(l);
    let r = e.rope_steps(Some(pos));
    let a = e.attn_steps(k, Some(pos));
    let b = e.back_steps(l);
    let v = m(Buf::X);
    let qkv = positioned(x, e.config, projected(x, e, m, l, v), pos as int);
    let m1 = lemma_front_does(x, e, m, s, l);
    let m2 = lemma_rope_does(x, e, m1, pos);
    lemma_run_add(dev, m, f, r);
    let (m3, m4) = lemma_attn_does(x, e, m2, k, pos);
    lemma_run_add(dev, m, f + r, a);
    let n = lemma_back_does(x, e, m4, s, l);
    lemma_run_add(dev, m, f + r + a, b);
    let old = |p: KvPart| m3(Buf::Kv(k, p));
    let new = |p: KvPart| cached(x, e, m(Buf::Kv(k, p)), p, qkv, pos as int);
    lemma_attention_parts(x, e, old, new, qkv, pos as int);
    let att = attention(x, e, new, qkv, pos as int);
    assert(m4(Buf::Attn) == att);
    lemma_weights_stay(x, e, m, m4, l, v);
    lemma_weights_stay(x, e, m, m4, l, mixed(x, e, m, l, v, att));
    n
}

/// Attention rests on the parts that a cache has.
pub proof fn lemma_attention_parts(
    x: Math,
    e: Engine,
    a: spec_fn(KvPart) -> Seq<u32>,
    b: spec_fn(KvPart) -> Seq<u32>,
    v: Seq<u32>,
    pos: int,
)
    requires
        forall|p: KvPart| parts(e.kv8).contains(p) ==> #[trigger] a(p) == b(p),
    ensures
        attention(x, e, a, v, pos) == attention(x, e, b, v, pos),
{
    let c = e.config;
    let (nkv, hd) = (c.n_kv_head as int, c.head_dim as int);
    let sa = Seq::new(
        parts(e.kv8).len(),
        |i: int| a(parts(e.kv8)[i]).take((pos + 1) * part_width(parts(e.kv8)[i], nkv, hd)),
    );
    let sb = Seq::new(
        parts(e.kv8).len(),
        |i: int| b(parts(e.kv8)[i]).take((pos + 1) * part_width(parts(e.kv8)[i], nkv, hd)),
    );
    assert forall|i: int| 0 <= i < sa.len() implies sa[i] == sb[i] by {
        assert(parts(e.kv8).contains(parts(e.kv8)[i]));
        assert(a(parts(e.kv8)[i]) == b(parts(e.kv8)[i]));
    }
    assert(sa =~= sb);
}

/// What storing and attending leave.
proof fn lemma_attn_does(x: Math, e: Engine, m: Memory, l: usize, pos: usize) -> (r: (Memory, Memory))
    requires
        countable(e.config),
        placed(m, e),
        l < e.config.n_layer,
        pos < e.config.n_ctx,
    ensures
        stores(x, e, m, r.0, l, pos as int),
        r.1 == run(gpu(x, e.ag as int), m, e.attn_steps(l, Some(pos))),
        r.1(Buf::Attn) == attention(
            x,
            e,
            |p: KvPart| r.0(Buf::Kv(l, p)),
            m(Buf::Qkv),
            pos as int,
        ),
        but(r.0, r.1, Buf::Attn),
        placed(r.1, e),
{
    let dev = gpu(x, e.ag as int);
    let steps = e.attn_steps(l, Some(pos));
    let front = steps.drop_last();
    let n = if e.kv8 {
        lemma_run_at(dev, m, steps, 0);
        assert(front =~= steps.take(1));
        lemma_narrow_does(x, e, m, l, pos)
    } else {
        assert(front =~= e.store_steps(l, Some(pos)));
        lemma_copies_do(x, e, m, l, pos)
    };
    assert(n == run(dev, m, front));
    assert(placed(n, e)) by {
        assert forall|k: usize, p: KvPart|
            k < e.config.n_layer && parts(e.kv8).contains(p) implies (#[trigger] n(
            Buf::Kv(k, p),
        )).len() == e.config.n_ctx * part_width(
            p,
            e.config.n_kv_head as int,
            e.config.head_dim as int,
        ) by {
            assert(m(Buf::Kv(k, p)).len() == e.config.n_ctx * part_width(
                p,
                e.config.n_kv_head as int,
                e.config.head_dim as int,
            ));
        }
    }
    let z = lemma_attend_does(x, e, n, l, pos);
    assert(z == run(dev, m, steps));
    (n, z)
}

/// What the first layers of a decode step leave.
proof fn lemma_layers_do(
    x: Math,
    e: Engine,
    m: Memory,
    base: Memory,
    s: Seq<Setup>,
    n: nat,
    tok: u32,
    pos: usize,
) -> (r: Memory)
    requires
        engine_ready(e, s),
        countable(e.config),
        e.ag > 0,
        placed(m, e),
        n <= e.config.n_layer,
        pos < e.config.n_ctx,
        m(Buf::X) == looked_up(x, e, base, tok, pos as int),
        steady(base, m),
    ensures
        r == run(gpu(x, e.ag as int), m, e.layers_steps(n, Some(pos))),
        r(Buf::X) == hidden(x, e, base, n, tok, pos as int),
        forall|l: usize, p: KvPart|
            l < n && parts(e.kv8).contains(p) ==> #[trigger] r(Buf::Kv(l, p)) == cache_after(
                x,
                e,
                base,
                l as int,
                p,
                tok,
                pos as int,
            ),
        forall|b: Buf| !scratch(b) && !(b is Kv && b->Kv_0 < n) ==> #[trigger] r(b) == base(b),
        placed(r, e),
    decreases n,
{
    let dev = gpu(x, e.ag as int);
    if n == 0 {
        m
    } else {
        let l = n - 1;
        let q = lemma_layers_do(x, e, m, base, s, l as nat, tok, pos);
        let r = lemma_layer_does(x, e, q, s, l, pos);
        lemma_run_add(dev, m, e.layers_steps(l as nat, Some(pos)), e.layer_steps(l, Some(pos)));
        let v = hidden(x, e, base, l as nat, tok, pos as int);
        lemma_layer_stays(x, e, base, q, l, v, pos as int);
        lemma_weights_stay(x, e, base, q, l, v);
        r
    }
}

/// The plan of a decode step computes the transformer: it leaves in `Logits` the head applied
/// to the final norm of what the layers make of the embeddings of token and position, each of
/// them `y = x + proj(attention(norm(x)))` and then `y + down(act(norm(y)))`; it stores the
/// keys and values of the token at its position in the cache of every layer, and changes
/// nothing else that outlives the step. This holds in every arithmetic.
pub proof fn decode_step_is_the_transformer(
    x: Math,
    e: Engine,
    m: Memory,
    s: Seq<Setup>,
    tok: u32,
    pos: usize,
)
    requires
        engine_ready(e, s),
        countable(e.config),
        e.ag > 0,
        placed(m, e),
        pos < e.config.n_ctx,
    ensures
        ({
            let r = run(gpu(x, e.ag as int), m, e.forward_steps(tok, pos));
            &&& r(Buf::Logits) == next_logits(x, e, m, tok, pos as int)
            &&& forall|l: usize, p: KvPart|
                l < e.config.n_layer && parts(e.kv8).contains(p) ==> #[trigger] r(Buf::Kv(l, p))
                    == cache_after(x, e, m, l as int, p, tok, pos as int)
            &&& forall|b: Buf|
                !scratch(b) && !(b is Kv && b->Kv_0 < e.config.n_layer) ==> #[trigger] r(b) == m(b)
            &&& placed(r, e)
        }),
{
    let c = e.config;
    let ag = e.ag as int;
    let dev = gpu(x, ag);
    let (ne, nv) = (c.n_embd as int, c.n_vocab as int);
    let first = seq![e.lookup_step(tok, Some(pos))];
    let body = e.layers_steps(c.n_layer as nat, Some(pos));
    let tail = seq![
        norm_step(Buf::Xb, Buf::X, e.lnf_g, e.lnf_b, ne, c.norm_eps),
        e.head_step(),
    ];
    let t = if e.lm_head_t is Some {
        Tensor::LmHead
    } else {
        Tensor::Wte
    };
    lemma_run_one(dev, m, first[0]);
    lemma_lookup_does(x, e, m, s, tok, pos);
    let m1 = run(dev, m, first);
    let m2 = lemma_layers_do(x, e, m1, m, s, c.n_layer as nat, tok, pos);
    lemma_run_at(dev, m2, tail, 0);
    lemma_run_at(dev, m2, tail, 1);
    lemma_norm_does(x, ag, m2, Buf::Xb, Buf::X, e.lnf_g, e.lnf_b, ne, c.norm_eps);
    let m3 = run(dev, m2, tail.take(1));
    lemma_gemv_does(x, ag, m3, Buf::Logits, Buf::Xb, e.head(), t, Buf::ZeroBias, ne, nv, false);
    lemma_same_matrix(m, m3, e.head(), t);
    lemma_no_bias(x, e, m3, form(e.head()), matrix(m, e.head(), t), m3(Buf::Xb), nv);
    lemma_run_add(dev, m, first, body + tail);
    lemma_run_add(dev, m1, body, tail);
    assert(e.forward_steps(tok, pos) =~= first + (body + tail));
}

} // verus!
