//! What every plan of an opened engine keeps: it names only buffers that opening the model
//! has set up, hands no buffer to a launch twice, and stays inside the cache and the
//! scratch.

use crate::batch::repeated;
use crate::engine::{or_zero, Engine, LayerG, MAX_SPEC_TOKENS};
use crate::gptq::{EntryView, Role};
use crate::kernel::Kernel;
use crate::launch::{
    add_step, embed_step, gemm_steps, gemv_step, grid1d, launch, norm_batch_step, norm_step, planes, Arg,
    Buf, EmbedForm, KvPart, Plane, StepView, Tensor, VecName, Weights,
};
use crate::model::{Config, LayerView, ModelView};
use crate::quant::{group_width, tiers, WeightMode};
use crate::setup::{
    attn_setup, cache_setup, layer_setup, layer_stored, layers_setup, linear_setup, linear_weights,
    mlp_setup, model_setup, optional, scratch_setup, stored, tables_setup, Setup,
};
use vstd::prelude::*;

verus! {

/// The buffer is part of the stored matrix.
pub open spec fn part_of(b: Buf, w: Weights) -> bool {
    match w {
        Weights::F32(v) => b == v,
        Weights::F16(v) => b == v,
        Weights::Int8 { q, scales } => b == q || b == scales,
        Weights::Int4 { q, scales, perm } => b == q || b == scales || perm == Some(b),
        Weights::Int4K { q, sub, dm } => b == q || b == sub || b == dm,
        Weights::Int3 { q, sub, dm } => b == q || b == sub || b == dm,
        Weights::Int2 { q, sub, dm } => b == q || b == sub || b == dm,
    }
}

/// The allocation or upload makes the buffer.
pub open spec fn makes(s: Setup, b: Buf) -> bool {
    match s {
        Setup::Zeros { buf, elem, len } => b == buf,
        Setup::Vector(buf) => b == buf,
        Setup::Matrix { w, tensor, mode, n_in, n_out } => part_of(b, w),
        Setup::Entry { w, layer, role } => part_of(b, w),
    }
}

/// Some allocation or upload makes the buffer.
pub open spec fn made(s: Seq<Setup>, b: Buf) -> bool {
    exists|i: int| 0 <= i < s.len() && makes(#[trigger] s[i], b)
}

/// No buffer is handed over twice.
pub open spec fn apart(args: Seq<Arg>) -> bool {
    forall|i: int, j: int|
        0 <= i < j < args.len() && args[i] is Buf ==> #[trigger] args[i] != #[trigger] args[j]
}

/// Every buffer that is handed over has been made.
pub open spec fn known(args: Seq<Arg>, s: Seq<Setup>) -> bool {
    forall|i: int| 0 <= i < args.len() ==> (#[trigger] args[i] matches Arg::Buf(b) ==> made(s, b))
}

/// The step works on buffers that have been made, each of them once.
pub open spec fn sound(step: StepView, s: Seq<Setup>) -> bool {
    match step {
        StepView::Launch(l) => apart(l.args) && known(l.args, s),
        StepView::Copy { src, src_at, dst, dst_at, len } => src != dst && made(s, src) && made(s, dst),
        StepView::Upload { dst, values } => made(s, dst),
    }
}

/// Every step of the plan is sound.
pub open spec fn all_sound(steps: Seq<StepView>, s: Seq<Setup>) -> bool {
    forall|i: int| 0 <= i < steps.len() ==> sound(#[trigger] steps[i], s)
}

/// All parts of the stored matrix have been made.
pub open spec fn matrix_made(w: Weights, s: Seq<Setup>) -> bool {
    forall|b: Buf| #[trigger] part_of(b, w) ==> made(s, b)
}

/// The parts of the stored matrix are planes of the tensor, each a different one.
pub open spec fn holds(w: Weights, t: Tensor) -> bool {
    let at = |p: Plane| Buf::Matrix(t, p);
    match w {
        Weights::F32(v) => v == at(Plane::Values),
        Weights::F16(v) => v == at(Plane::Values),
        Weights::Int8 { q, scales } => q == at(Plane::Values) && scales == at(Plane::Scales),
        Weights::Int4 { q, scales, perm } => q == at(Plane::Values) && scales == at(Plane::Scales)
            && (perm matches Some(p) ==> p == at(Plane::Perm)),
        Weights::Int4K { q, sub, dm } => q == at(Plane::Values) && sub == at(Plane::Sub) && dm == at(
            Plane::Dm,
        ),
        Weights::Int3 { q, sub, dm } => q == at(Plane::Values) && sub == at(Plane::Sub) && dm == at(
            Plane::Dm,
        ),
        Weights::Int2 { q, sub, dm } => q == at(Plane::Values) && sub == at(Plane::Sub) && dm == at(
            Plane::Dm,
        ),
    }
}

/// The stored matrix is a tensor of the model and has been made.
pub open spec fn ready(w: Weights, t: Tensor, s: Seq<Setup>) -> bool {
    holds(w, t) && matrix_made(w, s)
}

/// A buffer that is not part of a matrix, and has been made.
pub open spec fn plain(b: Buf, s: Seq<Setup>) -> bool {
    !(b is Matrix) && made(s, b)
}

/// Everything that a layer is stored in has been made.
pub open spec fn layer_ready(y: LayerG, l: usize, kv8: bool, s: Seq<Setup>) -> bool {
    &&& y.ln1_g == Buf::Vector(l, VecName::Ln1G) && made(s, y.ln1_g)
    &&& (y.ln1_b matches Some(b) ==> b == Buf::Vector(l, VecName::Ln1B) && made(s, b))
    &&& y.qkv_b == Buf::Vector(l, VecName::QkvB) && made(s, y.qkv_b)
    &&& y.proj_b == Buf::Vector(l, VecName::ProjB) && made(s, y.proj_b)
    &&& y.ln2_g == Buf::Vector(l, VecName::Ln2G) && made(s, y.ln2_g)
    &&& (y.ln2_b matches Some(b) ==> b == Buf::Vector(l, VecName::Ln2B) && made(s, b))
    &&& (y.fc_b matches Some(b) ==> b == Buf::Vector(l, VecName::FcB) && made(s, b))
    &&& (y.fc2_b matches Some(b) ==> b == Buf::Vector(l, VecName::Fc2B) && made(s, b))
    &&& ready(y.qkv_w, Tensor::Linear(l, Role::Qkv), s)
    &&& ready(y.proj_w, Tensor::Linear(l, Role::Proj), s)
    &&& ready(y.fc_w, Tensor::Linear(l, Role::Fc), s)
    &&& (y.up_w matches Some(w) ==> ready(w, Tensor::Linear(l, Role::Up), s))
    &&& ready(y.fc2_w, Tensor::Linear(l, Role::Fc2), s)
    &&& made(s, Buf::Kv(l, KvPart::K))
    &&& made(s, Buf::Kv(l, KvPart::V))
    &&& kv8 ==> {
        &&& made(s, Buf::Kv(l, KvPart::Ks))
        &&& made(s, Buf::Kv(l, KvPart::Vs))
        &&& made(s, Buf::Kv(l, KvPart::Kb))
        &&& made(s, Buf::Kv(l, KvPart::Vb))
    }
}

/// The scratch buffers have been made.
pub open spec fn scratch_ready(s: Seq<Setup>) -> bool {
    &&& made(s, Buf::X)
    &&& made(s, Buf::Xb)
    &&& made(s, Buf::Qkv)
    &&& made(s, Buf::Attn)
    &&& made(s, Buf::H)
    &&& made(s, Buf::H2)
    &&& made(s, Buf::ZeroBias)
    &&& made(s, Buf::Logits)
    &&& made(s, Buf::BatchTok)
    &&& made(s, Buf::BatchX)
    &&& made(s, Buf::BatchXb)
    &&& made(s, Buf::BatchQkv)
    &&& made(s, Buf::BatchAttn)
    &&& made(s, Buf::BatchH)
    &&& made(s, Buf::BatchH2)
    &&& made(s, Buf::BatchLogits)
    &&& made(s, Buf::BatchArgmax)
    &&& made(s, Buf::ActQ)
    &&& made(s, Buf::ActScale)
    &&& made(s, Buf::ActSum)
    &&& made(s, Buf::GraphTok)
    &&& made(s, Buf::GraphPos)
}

/// Everything that the engine names has been made.
pub open spec fn engine_ready(e: Engine, s: Seq<Setup>) -> bool {
    &&& scratch_ready(s)
    &&& ready(e.wte_t, Tensor::Wte, s)
    &&& (e.lm_head_t matches Some(w) ==> ready(w, Tensor::LmHead, s))
    &&& made(s, Buf::Wpe)
    &&& e.lnf_g == Buf::LnfG && made(s, Buf::LnfG)
    &&& (e.lnf_b matches Some(b) ==> b == Buf::LnfB && made(s, b))
    &&& e.layers@.len() == e.config.n_layer
    &&& forall|l: int|
        0 <= l < e.layers@.len() ==> layer_ready(#[trigger] e.layers@[l], l as usize, e.kv8, s)
}

proof fn lemma_sound_add(a: Seq<StepView>, b: Seq<StepView>, s: Seq<Setup>)
    requires
        all_sound(a, s),
        all_sound(b, s),
    ensures
        all_sound(a + b, s),
{
    assert forall|i: int| 0 <= i < (a + b).len() implies sound(#[trigger] (a + b)[i], s) by {
        if i < a.len() {
            assert((a + b)[i] == a[i]);
        } else {
            assert((a + b)[i] == b[i - a.len()]);
        }
    }
}

proof fn lemma_one_sound(x: StepView, s: Seq<Setup>)
    requires
        sound(x, s),
    ensures
        all_sound(seq![x], s),
{
}

proof fn lemma_norm(out: Buf, x: Buf, g: Buf, b: Option<Buf>, n: int, eps: u32, s: Seq<Setup>)
    requires
        made(s, out),
        made(s, x),
        made(s, g),
        b matches Some(v) ==> made(s, v) && v != out && v != x && v != g,
        out != x && out != g && x != g,
    ensures
        sound(norm_step(out, x, g, b, n, eps), s),
        forall|rows: int| sound(#[trigger] norm_batch_step(out, x, g, b, rows, n, eps), s),
{
}

#[verifier::rlimit(40)]
proof fn lemma_gemv(
    ag: int,
    y: Buf,
    x: Buf,
    w: Weights,
    b: Buf,
    n_in: int,
    n_out: int,
    accum: bool,
    t: Tensor,
    s: Seq<Setup>,
)
    requires
        ready(w, t, s),
        plain(y, s),
        plain(x, s),
        plain(b, s),
        y != x && y != b && x != b,
    ensures
        sound(gemv_step(ag, y, x, w, b, n_in, n_out, accum), s),
{
    match w {
        Weights::F32(v) => {
            assert(part_of(v, w));
        },
        Weights::F16(v) => {
            assert(part_of(v, w));
        },
        Weights::Int8 { q, scales } => {
            assert(part_of(q, w) && part_of(scales, w));
        },
        Weights::Int4 { q, scales, perm } => {
            assert(part_of(q, w) && part_of(scales, w));
            if let Some(p) = perm {
                assert(part_of(p, w));
            }
        },
        Weights::Int4K { q, sub, dm } => {
            assert(part_of(q, w) && part_of(sub, w) && part_of(dm, w));
        },
        Weights::Int3 { q, sub, dm } => {
            assert(part_of(q, w) && part_of(sub, w) && part_of(dm, w));
        },
        Weights::Int2 { q, sub, dm } => {
            assert(part_of(q, w) && part_of(sub, w) && part_of(dm, w));
        },
    }
}

proof fn lemma_planes_made(w: Weights, s: Seq<Setup>)
    requires
        matrix_made(w, s),
    ensures
        known(planes(w), s),
{
    match w {
        Weights::F32(v) => {
            assert(part_of(v, w));
        },
        Weights::F16(v) => {
            assert(part_of(v, w));
        },
        Weights::Int8 { q, scales } => {
            assert(part_of(q, w) && part_of(scales, w));
        },
        Weights::Int4 { q, scales, perm } => {
            assert(part_of(q, w) && part_of(scales, w));
        },
        Weights::Int4K { q, sub, dm } => {
            assert(part_of(q, w) && part_of(sub, w) && part_of(dm, w));
        },
        Weights::Int3 { q, sub, dm } => {
            assert(part_of(q, w) && part_of(sub, w) && part_of(dm, w));
        },
        Weights::Int2 { q, sub, dm } => {
            assert(part_of(q, w) && part_of(sub, w) && part_of(dm, w));
        },
    }
}

#[verifier::rlimit(40)]
proof fn lemma_gemm(
    ag: int,
    c: Buf,
    a: Buf,
    w: Weights,
    bias: Buf,
    m: int,
    n: int,
    k: int,
    t: Tensor,
    s: Seq<Setup>,
)
    requires
        scratch_ready(s),
        ready(w, t, s),
        plain(c, s),
        plain(a, s),
        plain(bias, s),
        c != a && c != bias && a != bias,
        c != Buf::ActQ && c != Buf::ActScale && c != Buf::ActSum,
        a != Buf::ActQ && a != Buf::ActScale && a != Buf::ActSum,
        bias != Buf::ActQ && bias != Buf::ActScale && bias != Buf::ActSum,
    ensures
        all_sound(gemm_steps(ag, c, a, w, bias, m, n, k), s),
{
    lemma_planes_made(w, s);
    let steps = gemm_steps(ag, c, a, w, bias, m, n, k);
    let main = steps.last()->Launch_0.args;
    let p = planes(w);
    assert forall|i: int| 0 <= i < main.len() implies (#[trigger] main[i] matches Arg::Buf(b)
        ==> made(s, b)) by {
        let r = if crate::launch::quantized(w) {
            2int
        } else {
            1
        };
        if 1 + r <= i < 1 + r + p.len() {
            assert(main[i] == p[i - 1 - r]);
        }
    }
    assert(apart(main));
}

#[verifier::rlimit(40)]
proof fn lemma_embed(
    w: Weights,
    f: EmbedForm,
    dst: Buf,
    n: int,
    which: Seq<Arg>,
    n_embd: usize,
    n_vocab: usize,
    s: Seq<Setup>,
)
    requires
        ready(w, Tensor::Wte, s),
        plain(dst, s),
        dst != Buf::Wpe,
        made(s, Buf::Wpe),
        which.len() <= 3,
        apart(which),
        known(which, s),
        forall|i: int|
            0 <= i < which.len() ==> (#[trigger] which[i] matches Arg::Buf(b) ==> !(b is Matrix) && b
                != dst && b != Buf::Wpe),
    ensures
        sound(embed_step(w, f, dst, n, which, n_embd, n_vocab), s),
{
    lemma_planes_made(w, s);
    let p = planes(w);
    let args = embed_step(w, f, dst, n, which, n_embd, n_vocab)->Launch_0.args;
    assert(args.len() == 1 + p.len() + 1 + which.len() + 2);
    assert forall|i: int| 0 <= i < args.len() implies (#[trigger] args[i] matches Arg::Buf(b)
        ==> made(s, b)) by {
        if 1 <= i < 1 + p.len() {
            assert(args[i] == p[i - 1]);
        } else if 2 + p.len() <= i < 2 + p.len() + which.len() {
            assert(args[i] == which[i - 2 - p.len()]);
        }
    }
    assert forall|i: int, j: int| 0 <= i < j < args.len() && args[i] is Buf implies #[trigger] args[i]
        != #[trigger] args[j] by {
        if 2 + p.len() <= i < 2 + p.len() + which.len() {
            assert(args[i] == which[i - 2 - p.len()]);
        }
        if 2 + p.len() <= j < 2 + p.len() + which.len() {
            assert(args[j] == which[j - 2 - p.len()]);
        }
        if 1 <= i < 1 + p.len() {
            assert(args[i] == p[i - 1]);
        }
        if 1 <= j < 1 + p.len() {
            assert(args[j] == p[j - 1]);
        }
    }
}

proof fn lemma_front(e: Engine, l: int, s: Seq<Setup>)
    requires
        engine_ready(e, s),
        0 <= l < e.config.n_layer,
    ensures
        all_sound(e.front_steps(l), s),
{
    let c = e.config;
    let y = e.layers@[l];
    assert(layer_ready(y, l as usize, e.kv8, s));
    lemma_norm(Buf::Xb, Buf::X, y.ln1_g, y.ln1_b, c.n_embd as int, c.norm_eps, s);
    lemma_gemv(
        e.ag as int,
        Buf::Qkv,
        Buf::Xb,
        y.qkv_w,
        y.qkv_b,
        c.n_embd as int,
        c.qkv_width(),
        false,
        Tensor::Linear(l as usize, Role::Qkv),
        s,
    );
}

#[verifier::rlimit(40)]
proof fn lemma_attend(e: Engine, l: int, at: Option<usize>, s: Seq<Setup>)
    requires
        engine_ready(e, s),
        0 <= l < e.config.n_layer,
    ensures
        all_sound(e.rope_steps(at), s),
        all_sound(e.attn_steps(l as usize, at), s),
{
    assert(layer_ready(e.layers@[l], l as usize, e.kv8, s));
    let steps = e.attn_steps(l as usize, at);
    let store = e.store_steps(l as usize, at);
    assert(all_sound(store, s));
    assert forall|i: int| 0 <= i < steps.len() implies sound(#[trigger] steps[i], s) by {
        if !e.kv8 && i < store.len() {
            assert(steps[i] == store[i]);
        }
    }
}

proof fn lemma_back(e: Engine, l: int, s: Seq<Setup>)
    requires
        engine_ready(e, s),
        0 <= l < e.config.n_layer,
    ensures
        all_sound(e.back_steps(l), s),
{
    let c = e.config;
    let y = e.layers@[l];
    let (n, inter, ag) = (c.n_embd as int, c.n_inter as int, e.ag as int);
    let k = l as usize;
    assert(layer_ready(y, k, e.kv8, s));
    lemma_gemv(ag, Buf::X, Buf::Attn, y.proj_w, y.proj_b, c.q_width(), n, true, Tensor::Linear(k, Role::Proj), s);
    lemma_norm(Buf::Xb, Buf::X, y.ln2_g, y.ln2_b, n, c.norm_eps, s);
    lemma_gemv(ag, Buf::H, Buf::Xb, y.fc_w, or_zero(y.fc_b), n, inter, false, Tensor::Linear(k, Role::Fc), s);
    lemma_gemv(ag, Buf::X, Buf::H, y.fc2_w, or_zero(y.fc2_b), inter, n, true, Tensor::Linear(k, Role::Fc2), s);
    if let Some(up) = y.up_w {
        lemma_gemv(ag, Buf::H2, Buf::Xb, up, Buf::ZeroBias, n, inter, false, Tensor::Linear(k, Role::Up), s);
    }
}

proof fn lemma_layers(e: Engine, n: nat, at: Option<usize>, s: Seq<Setup>)
    requires
        engine_ready(e, s),
        n <= e.config.n_layer,
    ensures
        all_sound(e.layers_steps(n, at), s),
    decreases n,
{
    if n > 0 {
        let l = n - 1;
        lemma_layers(e, (n - 1) as nat, at, s);
        lemma_front(e, l, s);
        lemma_attend(e, l, at, s);
        lemma_back(e, l, s);
        let a = e.front_steps(l);
        let b = e.rope_steps(at);
        let c = e.attn_steps(l as usize, at);
        lemma_sound_add(a, b, s);
        lemma_sound_add(a + b, c, s);
        lemma_sound_add(a + b + c, e.back_steps(l), s);
        lemma_sound_add(e.layers_steps((n - 1) as nat, at), e.layer_steps(l, at), s);
    }
}

proof fn lemma_head(e: Engine, s: Seq<Setup>)
    requires
        engine_ready(e, s),
    ensures
        sound(e.head_step(), s),
{
    let c = e.config;
    let t = if e.lm_head_t is Some {
        Tensor::LmHead
    } else {
        Tensor::Wte
    };
    lemma_gemv(
        e.ag as int,
        Buf::Logits,
        Buf::Xb,
        e.head(),
        Buf::ZeroBias,
        c.n_embd as int,
        c.n_vocab as int,
        false,
        t,
        s,
    );
}

proof fn lemma_body(e: Engine, at: Option<usize>, s: Seq<Setup>)
    requires
        engine_ready(e, s),
    ensures
        all_sound(e.body_steps(at), s),
{
    let c = e.config;
    lemma_layers(e, c.n_layer as nat, at, s);
    lemma_norm(Buf::Xb, Buf::X, e.lnf_g, e.lnf_b, c.n_embd as int, c.norm_eps, s);
    lemma_head(e, s);
    let tail = seq![
        norm_step(Buf::Xb, Buf::X, e.lnf_g, e.lnf_b, c.n_embd as int, c.norm_eps),
        e.head_step(),
    ];
    assert(all_sound(tail, s));
    lemma_sound_add(e.layers_steps(c.n_layer as nat, at), tail, s);
}

proof fn lemma_lookup(e: Engine, tok: u32, at: Option<usize>, s: Seq<Setup>)
    requires
        engine_ready(e, s),
    ensures
        sound(e.lookup_step(tok, at), s),
{
    let c = e.config;
    match at {
        Some(pos) => {
            lemma_embed(
                e.wte_t,
                EmbedForm::Host,
                Buf::X,
                c.n_embd as int,
                seq![Arg::I32(tok as i32), Arg::I32(pos as i32)],
                c.n_embd,
                c.n_vocab,
                s,
            );
        },
        None => {
            lemma_embed(
                e.wte_t,
                EmbedForm::Dyn,
                Buf::X,
                c.n_embd as int,
                seq![Arg::Buf(Buf::GraphTok), Arg::Buf(Buf::GraphPos)],
                c.n_embd,
                c.n_vocab,
                s,
            );
        },
    }
}

proof fn lemma_forward(e: Engine, tok: u32, pos: usize, s: Seq<Setup>)
    requires
        engine_ready(e, s),
    ensures
        all_sound(e.forward_steps(tok, pos), s),
{
    lemma_lookup(e, tok, Some(pos), s);
    lemma_body(e, Some(pos), s);
    lemma_one_sound(e.lookup_step(tok, Some(pos)), s);
    lemma_sound_add(seq![e.lookup_step(tok, Some(pos))], e.body_steps(Some(pos)), s);
}

proof fn lemma_graph(e: Engine, s: Seq<Setup>)
    requires
        engine_ready(e, s),
    ensures
        all_sound(e.graph_steps(), s),
{
    lemma_lookup(e, 0, None, s);
    lemma_body(e, None, s);
    let first = seq![e.lookup_step(0, None)];
    let steps = e.graph_steps();
    let last = seq![steps.last()];
    lemma_one_sound(e.lookup_step(0, None), s);
    assert(sound(steps.last(), s));
    lemma_one_sound(steps.last(), s);
    lemma_sound_add(first, e.body_steps(None), s);
    lemma_sound_add(first + e.body_steps(None), last, s);
    assert(steps =~= first + e.body_steps(None) + last);
}

proof fn lemma_repeated(steps: Seq<StepView>, n: nat, s: Seq<Setup>)
    requires
        all_sound(steps, s),
    ensures
        all_sound(repeated(steps, n), s),
    decreases n,
{
    if n > 0 {
        lemma_repeated(steps, (n - 1) as nat, s);
        lemma_sound_add(repeated(steps, (n - 1) as nat), steps, s);
    }
}

proof fn lemma_graph_run(e: Engine, tok: u32, pos: usize, n: nat, s: Seq<Setup>)
    requires
        engine_ready(e, s),
    ensures
        all_sound(e.graph_run(tok, pos, n), s),
{
    lemma_graph(e, s);
    lemma_repeated(e.graph_steps(), n, s);
    lemma_sound_add(e.graph_start(tok, pos), repeated(e.graph_steps(), n), s);
}

proof fn lemma_front_batch(e: Engine, l: int, n: int, s: Seq<Setup>)
    requires
        engine_ready(e, s),
        0 <= l < e.config.n_layer,
    ensures
        all_sound(e.front_batch_steps(l, n), s),
{
    let c = e.config;
    let y = e.layers@[l];
    let w = c.n_embd as int;
    assert(layer_ready(y, l as usize, e.kv8, s));
    lemma_norm(Buf::BatchXb, Buf::BatchX, y.ln1_g, y.ln1_b, w, c.norm_eps, s);
    let first = norm_batch_step(Buf::BatchXb, Buf::BatchX, y.ln1_g, y.ln1_b, n, w, c.norm_eps);
    lemma_one_sound(first, s);
    lemma_gemm(
        e.ag as int,
        Buf::BatchQkv,
        Buf::BatchXb,
        y.qkv_w,
        y.qkv_b,
        n,
        c.qkv_width(),
        w,
        Tensor::Linear(l as usize, Role::Qkv),
        s,
    );
    lemma_sound_add(
        seq![first],
        gemm_steps(e.ag as int, Buf::BatchQkv, Buf::BatchXb, y.qkv_w, y.qkv_b, n, c.qkv_width(), w),
        s,
    );
}

#[verifier::rlimit(40)]
proof fn lemma_attend_batch(e: Engine, l: int, n: int, pos0: usize, s: Seq<Setup>)
    requires
        engine_ready(e, s),
        0 <= l < e.config.n_layer,
    ensures
        all_sound(e.rope_batch_steps(n, pos0), s),
        all_sound(e.attn_batch_steps(l as usize, n, pos0), s),
{
    assert(layer_ready(e.layers@[l], l as usize, e.kv8, s));
}

proof fn lemma_proj_batch(e: Engine, l: int, n: int, s: Seq<Setup>)
    requires
        engine_ready(e, s),
        0 <= l < e.config.n_layer,
    ensures
        all_sound(e.proj_batch_steps(l, n), s),
{
    let c = e.config;
    let y = e.layers@[l];
    let w = c.n_embd as int;
    assert(layer_ready(y, l as usize, e.kv8, s));
    lemma_gemm(
        e.ag as int,
        Buf::BatchXb,
        Buf::BatchAttn,
        y.proj_w,
        y.proj_b,
        n,
        w,
        c.q_width(),
        Tensor::Linear(l as usize, Role::Proj),
        s,
    );
    lemma_norm(Buf::BatchXb, Buf::BatchX, y.ln2_g, y.ln2_b, w, c.norm_eps, s);
    let tail = seq![
        add_step(Buf::BatchX, Buf::BatchXb, n * w),
        norm_batch_step(Buf::BatchXb, Buf::BatchX, y.ln2_g, y.ln2_b, n, w, c.norm_eps),
    ];
    assert(all_sound(tail, s));
    lemma_sound_add(
        gemm_steps(e.ag as int, Buf::BatchXb, Buf::BatchAttn, y.proj_w, y.proj_b, n, w, c.q_width()),
        tail,
        s,
    );
}

proof fn lemma_act_batch(e: Engine, l: int, n: int, s: Seq<Setup>)
    requires
        engine_ready(e, s),
        0 <= l < e.config.n_layer,
    ensures
        all_sound(e.act_batch_steps(l, n), s),
{
    let c = e.config;
    let y = e.layers@[l];
    assert(layer_ready(y, l as usize, e.kv8, s));
    if let Some(up) = y.up_w {
        let (w, inter, ag) = (c.n_embd as int, c.n_inter as int, e.ag as int);
        lemma_gemm(
            ag,
            Buf::BatchH2,
            Buf::BatchXb,
            up,
            Buf::ZeroBias,
            n,
            inter,
            w,
            Tensor::Linear(l as usize, Role::Up),
            s,
        );
        let a = gemm_steps(ag, Buf::BatchH2, Buf::BatchXb, up, Buf::ZeroBias, n, inter, w);
        let steps = e.act_batch_steps(l, n);
        let tail = seq![steps.last()];
        assert(sound(steps.last(), s));
        lemma_one_sound(steps.last(), s);
        lemma_sound_add(a, tail, s);
        assert(steps =~= a + tail);
    }
}

proof fn lemma_mlp_batch(e: Engine, l: int, n: int, s: Seq<Setup>)
    requires
        engine_ready(e, s),
        0 <= l < e.config.n_layer,
    ensures
        all_sound(e.mlp_batch_steps(l, n), s),
{
    let c = e.config;
    let y = e.layers@[l];
    let (w, inter, ag) = (c.n_embd as int, c.n_inter as int, e.ag as int);
    let k = l as usize;
    assert(layer_ready(y, k, e.kv8, s));
    lemma_gemm(ag, Buf::BatchH, Buf::BatchXb, y.fc_w, or_zero(y.fc_b), n, inter, w, Tensor::Linear(k, Role::Fc), s);
    lemma_act_batch(e, l, n, s);
    lemma_gemm(ag, Buf::BatchXb, Buf::BatchH, y.fc2_w, or_zero(y.fc2_b), n, w, inter, Tensor::Linear(k, Role::Fc2), s);
    let a = gemm_steps(ag, Buf::BatchH, Buf::BatchXb, y.fc_w, or_zero(y.fc_b), n, inter, w);
    let b = e.act_batch_steps(l, n);
    let d = gemm_steps(ag, Buf::BatchXb, Buf::BatchH, y.fc2_w, or_zero(y.fc2_b), n, w, inter);
    let last = add_step(Buf::BatchX, Buf::BatchXb, n * w);
    lemma_one_sound(last, s);
    lemma_sound_add(a, b, s);
    lemma_sound_add(a + b, d, s);
    lemma_sound_add(a + b + d, seq![last], s);
}

proof fn lemma_layers_batch(e: Engine, k: nat, n: int, pos0: usize, s: Seq<Setup>)
    requires
        engine_ready(e, s),
        k <= e.config.n_layer,
    ensures
        all_sound(e.layers_batch_steps(k, n, pos0), s),
    decreases k,
{
    if k > 0 {
        let l = k - 1;
        lemma_layers_batch(e, (k - 1) as nat, n, pos0, s);
        lemma_front_batch(e, l, n, s);
        lemma_attend_batch(e, l, n, pos0, s);
        lemma_proj_batch(e, l, n, s);
        lemma_mlp_batch(e, l, n, s);
        let a = e.front_batch_steps(l, n);
        let b = e.rope_batch_steps(n, pos0);
        let c = e.attn_batch_steps(l as usize, n, pos0);
        let d = e.proj_batch_steps(l, n);
        lemma_sound_add(a, b, s);
        lemma_sound_add(a + b, c, s);
        lemma_sound_add(a + b + c, d, s);
        lemma_sound_add(a + b + c + d, e.mlp_batch_steps(l, n), s);
        lemma_sound_add(
            e.layers_batch_steps((k - 1) as nat, n, pos0),
            e.layer_batch_steps(l, n, pos0),
            s,
        );
    }
}

proof fn lemma_batch(e: Engine, tokens: Seq<u32>, pos0: usize, s: Seq<Setup>)
    requires
        engine_ready(e, s),
    ensures
        all_sound(e.batch_steps(tokens, pos0), s),
{
    let c = e.config;
    let n = tokens.len() as int;
    lemma_embed(
        e.wte_t,
        EmbedForm::Batch,
        Buf::BatchX,
        n * c.n_embd,
        seq![Arg::Buf(Buf::BatchTok), Arg::I32(pos0 as i32), Arg::I32(n as i32)],
        c.n_embd,
        c.n_vocab,
        s,
    );
    let a = e.embed_batch_steps(tokens, pos0);
    assert(all_sound(a, s));
    let b = e.layers_batch_steps(c.n_layer as nat, n, pos0);
    lemma_layers_batch(e, c.n_layer as nat, n, pos0, s);
    lemma_norm(Buf::BatchXb, Buf::BatchX, e.lnf_g, e.lnf_b, c.n_embd as int, c.norm_eps, s);
    let last = norm_batch_step(
        Buf::BatchXb,
        Buf::BatchX,
        e.lnf_g,
        e.lnf_b,
        n,
        c.n_embd as int,
        c.norm_eps,
    );
    lemma_one_sound(last, s);
    lemma_sound_add(a, b, s);
    lemma_sound_add(a + b, seq![last], s);
}

proof fn lemma_forward_all(e: Engine, tokens: Seq<u32>, pos0: usize, s: Seq<Setup>)
    requires
        engine_ready(e, s),
    ensures
        all_sound(e.forward_all_steps(tokens, pos0), s),
    decreases tokens.len(),
{
    if tokens.len() > 0 {
        let at = (pos0 + tokens.len() - 1) as usize;
        lemma_forward_all(e, tokens.drop_last(), pos0, s);
        lemma_forward(e, tokens.last(), at, s);
        lemma_sound_add(
            e.forward_all_steps(tokens.drop_last(), pos0),
            e.forward_steps(tokens.last(), at),
            s,
        );
    }
}

#[verifier::rlimit(40)]
proof fn lemma_prefill(e: Engine, tokens: Seq<u32>, pos0: usize, s: Seq<Setup>)
    requires
        engine_ready(e, s),
    ensures
        all_sound(e.prefill_steps(tokens, pos0), s),
{
    let c = e.config;
    lemma_forward_all(e, tokens, pos0, s);
    lemma_batch(e, tokens, pos0, s);
    lemma_head(e, s);
    let row = launch(
        Kernel::CopyRow,
        grid1d(c.n_embd as int),
        (256, 1, 1),
        0,
        seq![
            Arg::Buf(Buf::Xb),
            Arg::Buf(Buf::BatchXb),
            Arg::I32((tokens.len() - 1) as i32),
            Arg::I32(c.n_embd as i32),
        ],
    );
    assert(sound(row, s));
    let tail = seq![row, e.head_step()];
    assert(all_sound(tail, s));
    lemma_sound_add(e.batch_steps(tokens, pos0), tail, s);
}

proof fn lemma_verify_each(e: Engine, tokens: Seq<u32>, pos0: usize, s: Seq<Setup>)
    requires
        engine_ready(e, s),
    ensures
        all_sound(e.verify_each_steps(tokens, pos0), s),
    decreases tokens.len(),
{
    if tokens.len() > 0 {
        let i = tokens.len() - 1;
        let a = e.verify_each_steps(tokens.drop_last(), pos0);
        let b = e.forward_steps(tokens.last(), (pos0 + i) as usize);
        let copy = StepView::Copy {
            src: Buf::Logits,
            src_at: 0,
            dst: Buf::BatchLogits,
            dst_at: i * e.config.n_vocab,
            len: e.config.n_vocab as int,
        };
        lemma_verify_each(e, tokens.drop_last(), pos0, s);
        lemma_forward(e, tokens.last(), (pos0 + i) as usize, s);
        lemma_sound_add(a, b, s);
        lemma_one_sound(copy, s);
        lemma_sound_add(a + b, seq![copy], s);
    }
}

proof fn lemma_verify_rows(e: Engine, tokens: Seq<u32>, pos0: usize, s: Seq<Setup>)
    requires
        engine_ready(e, s),
    ensures
        all_sound(e.verify_rows_steps(tokens, pos0), s),
{
    let c = e.config;
    let n = tokens.len() as int;
    if e.gptq_act_order {
        lemma_verify_each(e, tokens, pos0, s);
    } else {
        let t = if e.lm_head_t is Some {
            Tensor::LmHead
        } else {
            Tensor::Wte
        };
        lemma_batch(e, tokens, pos0, s);
        lemma_gemm(
            e.ag as int,
            Buf::BatchLogits,
            Buf::BatchXb,
            e.head(),
            Buf::ZeroBias,
            n,
            c.n_vocab as int,
            c.n_embd as int,
            t,
            s,
        );
        let a = e.batch_steps(tokens, pos0);
        let b = gemm_steps(
            e.ag as int,
            Buf::BatchLogits,
            Buf::BatchXb,
            e.head(),
            Buf::ZeroBias,
            n,
            c.n_vocab as int,
            c.n_embd as int,
        );
        lemma_sound_add(a, b, s);
    }
}

proof fn lemma_verify(e: Engine, tokens: Seq<u32>, pos0: usize, s: Seq<Setup>)
    requires
        engine_ready(e, s),
    ensures
        all_sound(e.verify_steps(tokens, pos0), s),
{
    let rows = e.verify_rows_steps(tokens, pos0);
    lemma_verify_rows(e, tokens, pos0, s);
    let last = e.verify_steps(tokens, pos0).last();
    assert(e.verify_steps(tokens, pos0) =~= rows + seq![last]);
    assert(sound(last, s));
    lemma_one_sound(last, s);
    lemma_sound_add(rows, seq![last], s);
}

proof fn lemma_made_in(a: Seq<Setup>, b: Seq<Setup>, c: Seq<Setup>, x: Buf)
    requires
        made(b, x),
    ensures
        made(a + b + c, x),
{
    let i = choose|i: int| 0 <= i < b.len() && makes(#[trigger] b[i], x);
    assert((a + b + c)[a.len() + i] == b[i]);
}

proof fn lemma_made_at(s: Seq<Setup>, i: int, x: Buf)
    requires
        0 <= i < s.len(),
        makes(s[i], x),
    ensures
        made(s, x),
{
}

proof fn lemma_stored_holds(t: Tensor, m: WeightMode)
    ensures
        holds(stored(t, m), t),
{
}

/// The list of layers holds what one of them is made with.
proof fn lemma_layer_within(
    c: Config,
    side: Map<(usize, Role), EntryView>,
    ys: Seq<LayerView>,
    m: WeightMode,
    down: WeightMode,
    l: int,
    x: Buf,
)
    requires
        0 <= l < ys.len(),
        made(layer_setup(c, side, l as usize, ys[l], m, down), x),
    ensures
        made(layers_setup(c, side, ys, m, down), x),
    decreases ys.len(),
{
    let front = layers_setup(c, side, ys.drop_last(), m, down);
    let last = layer_setup(c, side, (ys.len() - 1) as usize, ys.last(), m, down);
    let none = Seq::<Setup>::empty();
    if l == ys.len() - 1 {
        lemma_made_in(front, last, none, x);
        assert(front + last + none =~= front + last);
    } else {
        assert(ys.drop_last()[l] == ys[l]);
        lemma_layer_within(c, side, ys.drop_last(), m, down, l, x);
        lemma_made_in(none, front, last, x);
        assert(none + front + last =~= front + last);
    }
}

/// Everything that the first list makes, the second one makes.
spec fn within(a: Seq<Setup>, b: Seq<Setup>) -> bool {
    forall|x: Buf| #[trigger] made(a, x) ==> made(b, x)
}

proof fn lemma_linear_made(
    side: Map<(usize, Role), EntryView>,
    l: usize,
    role: Role,
    m: WeightMode,
    n_in: usize,
    n_out: usize,
    a: Seq<Setup>,
    i: int,
    s: Seq<Setup>,
)
    requires
        0 <= i < a.len(),
        a[i] == linear_setup(side, l, role, m, n_in, n_out),
        within(a, s),
    ensures
        ready(linear_weights(side, l, role, m), Tensor::Linear(l, role), s),
{
    let w = linear_weights(side, l, role, m);
    assert forall|b: Buf| #[trigger] part_of(b, w) implies made(s, b) by {
        assert(makes(a[i], b));
        assert(made(a, b));
    }
}

proof fn lemma_attn_made(
    c: Config,
    side: Map<(usize, Role), EntryView>,
    l: usize,
    y: LayerView,
    m: WeightMode,
    down: WeightMode,
    s: Seq<Setup>,
)
    requires
        within(attn_setup(c, side, l, y, m), s),
    ensures
        ({
            let g = layer_stored(side, l, y, m, down);
            &&& made(s, g.ln1_g)
            &&& (g.ln1_b matches Some(b) ==> made(s, b))
            &&& made(s, g.qkv_b)
            &&& made(s, g.proj_b)
            &&& made(s, g.ln2_g)
            &&& ready(g.qkv_w, Tensor::Linear(l, Role::Qkv), s)
            &&& ready(g.proj_w, Tensor::Linear(l, Role::Proj), s)
        }),
{
    let a = attn_setup(c, side, l, y, m);
    let e = c.n_embd;
    let (q, qkv) = (c.q_width() as usize, c.qkv_width() as usize);
    let o = optional(Buf::Vector(l, VecName::Ln1B), y.ln1_b).len() as int;
    lemma_made_at(a, 0, Buf::Vector(l, VecName::Ln1G));
    if o > 0 {
        lemma_made_at(a, 1, Buf::Vector(l, VecName::Ln1B));
    }
    assert(a[1 + o] == linear_setup(side, l, Role::Qkv, m, e, qkv));
    lemma_linear_made(side, l, Role::Qkv, m, e, qkv, a, 1 + o, s);
    lemma_made_at(a, 2 + o, Buf::Vector(l, VecName::QkvB));
    assert(a[3 + o] == linear_setup(side, l, Role::Proj, m, q, e));
    lemma_linear_made(side, l, Role::Proj, m, q, e, a, 3 + o, s);
    lemma_made_at(a, 4 + o, Buf::Vector(l, VecName::ProjB));
    lemma_made_at(a, 5 + o, Buf::Vector(l, VecName::Ln2G));
}

proof fn lemma_mlp_made(
    c: Config,
    side: Map<(usize, Role), EntryView>,
    l: usize,
    y: LayerView,
    m: WeightMode,
    down: WeightMode,
    s: Seq<Setup>,
)
    requires
        within(mlp_setup(c, side, l, y, m, down), s),
    ensures
        ({
            let g = layer_stored(side, l, y, m, down);
            &&& (g.ln2_b matches Some(b) ==> made(s, b))
            &&& (g.fc_b matches Some(b) ==> made(s, b))
            &&& (g.fc2_b matches Some(b) ==> made(s, b))
            &&& ready(g.fc_w, Tensor::Linear(l, Role::Fc), s)
            &&& (g.up_w matches Some(w) ==> ready(w, Tensor::Linear(l, Role::Up), s))
            &&& ready(g.fc2_w, Tensor::Linear(l, Role::Fc2), s)
        }),
{
    let a = mlp_setup(c, side, l, y, m, down);
    let (e, inter) = (c.n_embd, c.n_inter);
    let o = optional(Buf::Vector(l, VecName::Ln2B), y.ln2_b).len() as int;
    let p = optional(Buf::Vector(l, VecName::FcB), y.fc_b).len() as int;
    let u = if y.up_w.len() == 0 {
        0int
    } else {
        1
    };
    if o > 0 {
        lemma_made_at(a, 0, Buf::Vector(l, VecName::Ln2B));
    }
    assert(a[o] == linear_setup(side, l, Role::Fc, m, e, inter));
    lemma_linear_made(side, l, Role::Fc, m, e, inter, a, o, s);
    if p > 0 {
        lemma_made_at(a, o + 1, Buf::Vector(l, VecName::FcB));
    }
    if u > 0 {
        assert(a[o + 1 + p] == linear_setup(side, l, Role::Up, m, e, inter));
        lemma_linear_made(side, l, Role::Up, m, e, inter, a, o + 1 + p, s);
    }
    assert(a[o + 1 + p + u] == linear_setup(side, l, Role::Fc2, down, inter, e));
    lemma_linear_made(side, l, Role::Fc2, down, inter, e, a, o + 1 + p + u, s);
    if y.fc2_b.len() > 0 {
        lemma_made_at(a, o + 2 + p + u, Buf::Vector(l, VecName::Fc2B));
    }
}

proof fn lemma_cache_made(c: Config, kv8: bool, l: int, part: KvPart)
    requires
        0 <= l < c.n_layer,
        kv8 || part == KvPart::K || part == KvPart::V,
    ensures
        made(cache_setup(c, kv8), Buf::Kv(l as usize, part)),
{
    let a = cache_setup(c, kv8);
    let n = c.n_layer as int;
    let k = match part {
        KvPart::K => 0int,
        KvPart::V => 1,
        KvPart::Ks => 2,
        KvPart::Vs => 3,
        KvPart::Kb => 4,
        KvPart::Vb => 5,
    };
    assert(k * n + l >= 0) by (nonlinear_arith)
        requires
            k >= 0,
            n >= 0,
            l >= 0,
    ;
    assert(makes(a[k * n + l], Buf::Kv(l as usize, part)));
    lemma_made_at(a, k * n + l, Buf::Kv(l as usize, part));
}

proof fn lemma_scratch_made(c: Config, ag: int, s: Seq<Setup>)
    requires
        within(scratch_setup(c, ag), s),
    ensures
        scratch_ready(s),
{
    let a = scratch_setup(c, ag);
    lemma_made_at(a, 0, Buf::X);
    lemma_made_at(a, 1, Buf::Xb);
    lemma_made_at(a, 2, Buf::Qkv);
    lemma_made_at(a, 3, Buf::Attn);
    lemma_made_at(a, 4, Buf::H);
    lemma_made_at(a, 5, Buf::H2);
    lemma_made_at(a, 6, Buf::ZeroBias);
    lemma_made_at(a, 7, Buf::Logits);
    lemma_made_at(a, 8, Buf::BatchTok);
    lemma_made_at(a, 9, Buf::BatchX);
    lemma_made_at(a, 10, Buf::BatchXb);
    lemma_made_at(a, 11, Buf::BatchQkv);
    lemma_made_at(a, 12, Buf::BatchAttn);
    lemma_made_at(a, 13, Buf::BatchH);
    lemma_made_at(a, 14, Buf::BatchH2);
    lemma_made_at(a, 15, Buf::BatchLogits);
    lemma_made_at(a, 16, Buf::BatchArgmax);
    lemma_made_at(a, 17, Buf::ActQ);
    lemma_made_at(a, 18, Buf::ActScale);
    lemma_made_at(a, 19, Buf::ActSum);
    lemma_made_at(a, 20, Buf::GraphTok);
    lemma_made_at(a, 21, Buf::GraphPos);
}

proof fn lemma_tables_made(m: ModelView, embed: WeightMode, s: Seq<Setup>)
    requires
        within(tables_setup(m, embed), s),
    ensures
        ready(stored(Tensor::Wte, embed), Tensor::Wte, s),
        m.lm_head.len() > 0 ==> ready(stored(Tensor::LmHead, embed), Tensor::LmHead, s),
        made(s, Buf::Wpe),
        made(s, Buf::LnfG),
        m.lnf_b.len() > 0 ==> made(s, Buf::LnfB),
{
    let a = tables_setup(m, embed);
    let h = if m.lm_head.len() == 0 {
        0int
    } else {
        1
    };
    lemma_stored_holds(Tensor::Wte, embed);
    lemma_stored_holds(Tensor::LmHead, embed);
    let w = stored(Tensor::Wte, embed);
    assert forall|b: Buf| #[trigger] part_of(b, w) implies made(s, b) by {
        lemma_made_at(a, 0, b);
    }
    if h > 0 {
        let w = stored(Tensor::LmHead, embed);
        assert forall|b: Buf| #[trigger] part_of(b, w) implies made(s, b) by {
            lemma_made_at(a, 1, b);
        }
    }
    lemma_made_at(a, 1 + h, Buf::Wpe);
    lemma_made_at(a, 2 + h, Buf::LnfG);
    if m.lnf_b.len() > 0 {
        lemma_made_at(a, 3 + h, Buf::LnfB);
    }
}

proof fn lemma_front_within(a: Seq<Setup>, b: Seq<Setup>)
    ensures
        within(a, a + b),
        within(b, a + b),
{
    let none = Seq::<Setup>::empty();
    assert forall|x: Buf| #[trigger] made(a, x) implies made(a + b, x) by {
        lemma_made_in(none, a, b, x);
        assert(none + a + b =~= a + b);
    }
    assert forall|x: Buf| #[trigger] made(b, x) implies made(a + b, x) by {
        lemma_made_in(a, b, none, x);
        assert(a + b + none =~= a + b);
    }
}

proof fn lemma_layer_ready(
    c: Config,
    side: Map<(usize, Role), EntryView>,
    ys: Seq<LayerView>,
    m: WeightMode,
    down: WeightMode,
    kv8: bool,
    l: int,
    s: Seq<Setup>,
)
    requires
        0 <= l < ys.len(),
        ys.len() == c.n_layer,
        within(layers_setup(c, side, ys, m, down), s),
        within(cache_setup(c, kv8), s),
    ensures
        layer_ready(layer_stored(side, l as usize, ys[l], m, down), l as usize, kv8, s),
{
    let y = ys[l];
    let k = l as usize;
    let attn = attn_setup(c, side, k, y, m);
    let mlp = mlp_setup(c, side, k, y, m, down);
    lemma_front_within(attn, mlp);
    assert forall|x: Buf| #[trigger] made(attn, x) implies made(s, x) by {
        lemma_layer_within(c, side, ys, m, down, l, x);
    }
    assert forall|x: Buf| #[trigger] made(mlp, x) implies made(s, x) by {
        lemma_layer_within(c, side, ys, m, down, l, x);
    }
    lemma_attn_made(c, side, k, y, m, down, s);
    lemma_mlp_made(c, side, k, y, m, down, s);
    lemma_cache_made(c, kv8, l, KvPart::K);
    lemma_cache_made(c, kv8, l, KvPart::V);
    if kv8 {
        lemma_cache_made(c, kv8, l, KvPart::Ks);
        lemma_cache_made(c, kv8, l, KvPart::Vs);
        lemma_cache_made(c, kv8, l, KvPart::Kb);
        lemma_cache_made(c, kv8, l, KvPart::Vb);
    }
}

/// Opening a model makes everything that its engine names.
#[verifier::rlimit(40)]
pub proof fn opening_makes_everything(
    e: Engine,
    m: ModelView,
    mode: WeightMode,
    kv8: bool,
    side: Map<(usize, Role), EntryView>,
    embed_int8: bool,
    ffn_down_int8: bool,
)
    requires
        e.opened(m, mode, kv8, side, embed_int8, ffn_down_int8),
        m.layers.len() == m.config.n_layer,
    ensures
        engine_ready(e, model_setup(m, mode, kv8, side, embed_int8, ffn_down_int8)),
{
    let s = model_setup(m, mode, kv8, side, embed_int8, ffn_down_int8);
    let (embed, down) = tiers(mode, embed_int8, ffn_down_int8);
    let c = m.config;
    let layers = layers_setup(c, side, m.layers, mode, down);
    let tables = tables_setup(m, embed);
    let cache = cache_setup(c, kv8);
    let scratch = scratch_setup(c, group_width(c.arch));
    lemma_front_within(layers, tables);
    lemma_front_within(layers + tables, cache);
    lemma_front_within(layers + tables + cache, scratch);
    assert(within(layers, s));
    assert(within(tables, s));
    assert(within(cache, s));
    lemma_scratch_made(c, group_width(c.arch), s);
    lemma_tables_made(m, embed, s);
    assert forall|l: int| 0 <= l < e.layers@.len() implies layer_ready(
        #[trigger] e.layers@[l],
        l as usize,
        e.kv8,
        s,
    ) by {
        lemma_layer_ready(c, side, m.layers, mode, down, kv8, l, s);
        assert(e.layers@[l] == layer_stored(side, l as usize, m.layers[l], mode, down));
    }
}

/// Every plan of an engine works on buffers that have been made, and hands none of them to
/// a launch twice.
pub proof fn plans_are_sound(e: Engine, s: Seq<Setup>, tok: u32, pos: usize, tokens: Seq<u32>)
    requires
        engine_ready(e, s),
    ensures
        all_sound(e.forward_steps(tok, pos), s),
        all_sound(e.prefill_steps(tokens, pos), s),
        all_sound(e.verify_steps(tokens, pos), s),
        all_sound(e.graph_steps(), s),
        forall|n: nat| #[trigger] all_sound(e.graph_run(tok, pos, n), s),
{
    lemma_forward(e, tok, pos, s);
    lemma_prefill(e, tokens, pos, s);
    lemma_verify(e, tokens, pos, s);
    lemma_graph(e, s);
    assert forall|n: nat| #[trigger] all_sound(e.graph_run(tok, pos, n), s) by {
        lemma_graph_run(e, tok, pos, n, s);
    }
}

/// The elements that a copy writes.
pub open spec fn written(step: StepView) -> (int, int) {
    (step->Copy_dst_at, step->Copy_dst_at + step->Copy_len)
}

/// A decode step at a position of the context stores key and value inside the cache, from
/// inside the projected row, and different positions write different elements.
pub proof fn cache_slots_fit(e: Engine, l: usize, p: usize, q: usize)
    requires
        e.wf(),
        p < q,
        q < e.config.n_ctx,
    ensures
        ({
            let c = e.config;
            let len = c.n_ctx * c.kv_width();
            let (a, b) = (e.store_steps(l, Some(p)), e.store_steps(l, Some(q)));
            &&& len <= usize::MAX
            &&& a.len() == 2 && b.len() == 2
            &&& forall|i: int|
                0 <= i < 2 ==> {
                    &&& 0 <= written(#[trigger] a[i]).0 <= written(a[i]).1 <= written(b[i]).0
                    &&& written(b[i]).1 <= len
                    &&& c.q_width() <= a[i]->Copy_src_at
                    &&& a[i]->Copy_src_at + a[i]->Copy_len <= c.qkv_width()
                }
        }),
{
    let c = e.config;
    let w = c.kv_width();
    crate::engine::lemma_config_widths(c);
    assert(c.n_ctx * w <= c.n_ctx * c.qkv_width()) by (nonlinear_arith)
        requires
            w <= c.qkv_width(),
    ;
    assert(0 <= p * w && p * w + w <= q * w && q * w + w <= c.n_ctx * w) by (nonlinear_arith)
        requires
            0 <= p,
            p + 1 <= q,
            q + 1 <= c.n_ctx,
            0 <= w,
    ;
}

/// Where a draft is verified token by token, the logits after its last token are copied into
/// a row of their own behind those of the tokens before, inside the verification scratch.
pub proof fn verified_rows_fit(e: Engine, tokens: Seq<u32>, pos0: usize)
    requires
        0 < tokens.len() <= MAX_SPEC_TOKENS,
    ensures
        ({
            let v = e.config.n_vocab as int;
            let step = e.verify_each_steps(tokens, pos0).last();
            &&& step is Copy && step->Copy_dst == Buf::BatchLogits
            &&& written(step) == ((tokens.len() - 1) * v, tokens.len() * v)
            &&& 0 <= (tokens.len() - 1) * v
            &&& tokens.len() * v <= MAX_SPEC_TOKENS * v
        }),
{
    let (n, v) = (tokens.len() as int, e.config.n_vocab as int);
    assert((n - 1) * v + v == n * v && 0 <= (n - 1) * v && n * v <= MAX_SPEC_TOKENS * v)
        by (nonlinear_arith)
        requires
            0 < n <= MAX_SPEC_TOKENS,
            0 <= v,
    ;
}

/// The activation scratch that opening a model sets up has room for every batch of rows
/// whose width is at most that of the MLP, and the verification scratch for every draft.
pub proof fn scratch_suffices(c: Config, n: int, k: int, draft: int)
    requires
        0 <= n <= c.n_ctx,
        0 <= k <= c.n_inter,
        0 <= draft <= MAX_SPEC_TOKENS,
    ensures
        ({
            let ag = group_width(c.arch);
            &&& n * k / 4 <= c.n_ctx * c.n_inter / 4
            &&& n * k / ag <= c.n_ctx * c.n_inter / ag
            &&& draft * c.n_vocab <= MAX_SPEC_TOKENS * c.n_vocab
        }),
{
    assert(n * k <= c.n_ctx * c.n_inter) by (nonlinear_arith)
        requires
            0 <= n <= c.n_ctx,
            0 <= k <= c.n_inter,
    ;
    assert(draft * c.n_vocab <= MAX_SPEC_TOKENS * c.n_vocab) by (nonlinear_arith)
        requires
            0 <= draft <= MAX_SPEC_TOKENS,
    ;
    let ag = group_width(c.arch);
    vstd::arithmetic::div_mod::lemma_div_is_ordered(n * k, c.n_ctx * c.n_inter, ag);
}

} // verus!
