//! What replaying the decode graph computes.
//!
//! The graph is the decode step with token and position read from device memory, followed by
//! the greedy choice. Of a device whose kernels do what their names say, it is proved that
//! the token in memory after any number of replays is the one that a loop of decode steps
//! and choices on the host ends with.

use crate::batch::repeated;
use crate::engine::{or_zero, Engine};
use crate::floatbits::argmax_index;
use crate::gptq::Role;
use crate::kernel::Kernel;
use crate::launch::{
    gemv_step, launch, norm_step, planes, Arg, Buf, LaunchView, StepView, Tensor, Weights,
};
use crate::plans::{engine_ready, holds, layer_ready};
use crate::setup::Setup;
use vstd::prelude::*;

verus! {

/// The words in each buffer of a device.
pub type Memory = spec_fn(Buf) -> Seq<u32>;

/// What a device makes of its memory when it carries out a step.
pub type Device = spec_fn(Memory, StepView) -> Memory;

/// The memory after a plan.
pub open spec fn run(dev: Device, m: Memory, steps: Seq<StepView>) -> Memory
    decreases steps.len(),
{
    if steps.len() == 0 {
        m
    } else {
        dev(run(dev, m, steps.drop_last()), steps.last())
    }
}

/// The step is handed the buffer.
pub open spec fn names(step: StepView, b: Buf) -> bool {
    match step {
        StepView::Launch(l) => l.args.contains(Arg::Buf(b)),
        StepView::Copy { src, src_at, dst, dst_at, len } => b == src || b == dst,
        StepView::Upload { dst, values } => b == dst,
    }
}

/// The token and the position of the decode graph.
pub open spec fn of_graph(b: Buf) -> bool {
    b == Buf::GraphTok || b == Buf::GraphPos
}

/// No step is handed the token or the position of the decode graph.
pub open spec fn off_graph(steps: Seq<StepView>) -> bool {
    forall|i: int, b: Buf| 0 <= i < steps.len() && of_graph(b) ==> !#[trigger] names(steps[i], b)
}

/// The memories differ at most in the token and the position of the decode graph.
pub open spec fn agree(a: Memory, b: Memory) -> bool {
    forall|x: Buf| !of_graph(x) ==> #[trigger] a(x) == b(x)
}

/// The decode graph finds this token and this position.
pub open spec fn shows(m: Memory, tok: u32, pos: int) -> bool {
    &&& m(Buf::GraphTok).len() > 0
    &&& m(Buf::GraphTok)[0] == tok
    &&& m(Buf::GraphPos).len() > 0
    &&& m(Buf::GraphPos)[0] == pos
}

/// The kernel that reads its position, and its token where it takes one, from device memory.
pub open spec fn reading(k: Kernel) -> Option<Kernel> {
    match k {
        Kernel::Embed => Some(Kernel::EmbedDyn),
        Kernel::EmbedHalf => Some(Kernel::EmbedHalfDyn),
        Kernel::EmbedInt8 => Some(Kernel::EmbedInt8Dyn),
        Kernel::EmbedInt4 => Some(Kernel::EmbedInt4Dyn),
        Kernel::EmbedInt4k => Some(Kernel::EmbedInt4kDyn),
        Kernel::EmbedInt3 => Some(Kernel::EmbedInt3Dyn),
        Kernel::EmbedInt2 => Some(Kernel::EmbedInt2Dyn),
        Kernel::Rope => Some(Kernel::RopeDyn),
        Kernel::QuantizeKv => Some(Kernel::QuantizeKvDyn),
        Kernel::AttnDecode => Some(Kernel::AttnDecodeDyn),
        Kernel::AttnDecodeQ8 => Some(Kernel::AttnDecodeQ8Dyn),
        _ => None,
    }
}

/// Where the position stands among the arguments of a kernel. In a lookup it stands behind
/// the token, before the last two arguments.
pub open spec fn position_place(k: Kernel, n_args: int) -> int {
    match k {
        Kernel::Rope => 1,
        Kernel::QuantizeKv => 7,
        Kernel::AttnDecode => 4,
        Kernel::AttnDecodeQ8 => 8,
        _ => n_args - 3,
    }
}

/// The kernel takes a token.
pub open spec fn takes_token(k: Kernel) -> bool {
    reading(k) is Some && !(k is Rope || k is QuantizeKv || k is AttnDecode || k is AttnDecodeQ8)
}

/// The launch is one at this token and position.
pub open spec fn launched_at(l: LaunchView, tok: u32, pos: usize) -> bool {
    let p = position_place(l.kernel, l.args.len() as int);
    &&& reading(l.kernel) is Some
    &&& 1 <= p < l.args.len()
    &&& l.args[p] == Arg::I32(pos as i32)
    &&& takes_token(l.kernel) ==> l.args[p - 1] == Arg::I32(tok as i32)
}

/// The launch that reads from device memory what the given one is handed.
pub open spec fn reading_launch(l: LaunchView) -> LaunchView {
    let p = position_place(l.kernel, l.args.len() as int);
    let args = l.args.update(p, Arg::Buf(Buf::GraphPos));
    LaunchView {
        kernel: reading(l.kernel)->0,
        args: if takes_token(l.kernel) {
            args.update(p - 1, Arg::Buf(Buf::GraphTok))
        } else {
            args
        },
        ..l
    }
}

/// The step of the decode graph does at the token and position in memory what the steps of
/// the host do at this token and this position: it is the launch that reads them, or the
/// store of key and value, which the host writes as two copies.
pub open spec fn twins(e: Engine, host: Seq<StepView>, step: StepView, tok: u32, pos: usize) -> bool {
    ||| exists|l: LaunchView|
        host == seq![StepView::Launch(l)] && #[trigger] launched_at(l, tok, pos) && step
            == StepView::Launch(reading_launch(l))
    ||| exists|l: usize|
        l < e.config.n_layer && host == #[trigger] e.store_steps(l, Some(pos)) && seq![step]
            == e.store_steps(l, None)
}

/// A device touches no buffer that a step is not handed.
pub open spec fn confined(dev: Device, m: Memory, step: StepView, b: Buf) -> bool {
    !names(step, b) ==> dev(m, step)(b) == m(b)
}

/// What a step writes is determined by the buffers that it is handed.
pub open spec fn determined(dev: Device, m: Memory, n: Memory, step: StepView, b: Buf) -> bool {
    names(step, b) && (forall|x: Buf| names(step, x) ==> #[trigger] m(x) == n(x)) ==> dev(m, step)(b)
        == dev(n, step)(b)
}

/// Kernels that read token and position from memory do what the kernels do that are handed
/// them.
pub open spec fn reads_memory(
    dev: Device,
    e: Engine,
    m: Memory,
    host: Seq<StepView>,
    step: StepView,
    tok: u32,
    pos: usize,
    b: Buf,
) -> bool {
    twins(e, host, step, tok, pos) && shows(m, tok, pos as int) && pos < e.config.n_ctx ==> dev(
        m,
        step,
    )(b) == run(dev, m, host)(b)
}

/// An upload puts its values in front of the buffer.
pub open spec fn loads(dev: Device, m: Memory, dst: Buf, values: Seq<i32>) -> bool {
    let now = dev(m, StepView::Upload { dst, values })(dst);
    &&& values.len() <= now.len()
    &&& forall|k: int| 0 <= k < values.len() ==> #[trigger] now[k] == values[k] as u32
}

/// The last step of the decode graph puts the argmax of the logits in place of the token and
/// moves the position on by one.
pub open spec fn advances(dev: Device, e: Engine, m: Memory, tok: u32, pos: int) -> bool {
    let now = dev(m, e.graph_steps().last());
    shows(m, tok, pos) && pos < e.config.n_ctx ==> {
        &&& shows(now, argmax_index(m(Buf::Logits)) as u32, pos + 1)
        &&& now(Buf::Logits) == m(Buf::Logits)
    }
}

/// The kernels of the device do what their names say.
pub open spec fn faithful(dev: Device, e: Engine) -> bool {
    &&& forall|m: Memory, step: StepView, b: Buf| #[trigger] confined(dev, m, step, b)
    &&& forall|m: Memory, n: Memory, step: StepView, b: Buf| #[trigger]
        determined(dev, m, n, step, b)
    &&& forall|
        m: Memory,
        host: Seq<StepView>,
        step: StepView,
        tok: u32,
        pos: usize,
        b: Buf,
    | #[trigger]
        reads_memory(dev, e, m, host, step, tok, pos, b)
    &&& forall|m: Memory, dst: Buf, values: Seq<i32>| #[trigger] loads(dev, m, dst, values)
    &&& forall|m: Memory, tok: u32, pos: int| #[trigger] advances(dev, e, m, tok, pos)
}

/// Steps of the host, each with the step of the decode graph that stands for them.
pub type Pairs = Seq<(Seq<StepView>, StepView)>;

/// The host's side of the pairs.
pub open spec fn host_side(pairs: Pairs) -> Seq<StepView>
    decreases pairs.len(),
{
    if pairs.len() == 0 {
        Seq::empty()
    } else {
        host_side(pairs.drop_last()) + pairs.last().0
    }
}

/// The graph's side of the pairs.
pub open spec fn graph_side(pairs: Pairs) -> Seq<StepView> {
    Seq::new(pairs.len(), |i: int| pairs[i].1)
}

/// The host's steps keep off the graph's token and position, and the step of the graph is
/// the same, or reads token and position from memory.
pub open spec fn paired(
    e: Engine,
    host: Seq<StepView>,
    step: StepView,
    tok: u32,
    pos: usize,
) -> bool {
    off_graph(host) && (host == seq![step] || twins(e, host, step, tok, pos))
}

/// All the pairs belong together.
pub open spec fn all_paired(e: Engine, pairs: Pairs, tok: u32, pos: usize) -> bool {
    forall|i: int|
        0 <= i < pairs.len() ==> paired(e, (#[trigger] pairs[i]).0, pairs[i].1, tok, pos)
}

/// The plan of the host and the plan of the graph are the two sides of pairs of steps.
pub open spec fn mirrors(
    e: Engine,
    host: Seq<StepView>,
    graph: Seq<StepView>,
    tok: u32,
    pos: usize,
) -> bool {
    exists|pairs: Pairs| #[trigger]
        all_paired(e, pairs, tok, pos) && host == host_side(pairs) && graph == graph_side(pairs)
}

/// Decoding on the host: a decode step, then the argmax of its logits, `n` times. The memory
/// and the token at the end.
pub open spec fn host_loop(
    dev: Device,
    e: Engine,
    m: Memory,
    first_tok: u32,
    pos: usize,
    n: nat,
) -> (Memory, u32)
    decreases n,
{
    if n == 0 {
        (m, first_tok)
    } else {
        let (before, tok) = host_loop(dev, e, m, first_tok, pos, (n - 1) as nat);
        let after = run(dev, before, e.forward_steps(tok, (pos + n - 1) as usize));
        (after, argmax_index(after(Buf::Logits)) as u32)
    }
}

proof fn lemma_host_side_add(a: Pairs, b: Pairs)
    ensures
        host_side(a + b) == host_side(a) + host_side(b),
    decreases b.len(),
{
    if b.len() == 0 {
        assert(a + b =~= a);
        assert(host_side(a) + host_side(b) =~= host_side(a));
    } else {
        assert((a + b).drop_last() =~= a + b.drop_last());
        lemma_host_side_add(a, b.drop_last());
        assert(host_side(a + b) =~= host_side(a) + host_side(b));
    }
}

proof fn lemma_mirrors_add(
    e: Engine,
    h1: Seq<StepView>,
    g1: Seq<StepView>,
    h2: Seq<StepView>,
    g2: Seq<StepView>,
    tok: u32,
    pos: usize,
)
    requires
        mirrors(e, h1, g1, tok, pos),
        mirrors(e, h2, g2, tok, pos),
    ensures
        mirrors(e, h1 + h2, g1 + g2, tok, pos),
{
    let a = choose|pairs: Pairs| #[trigger]
        all_paired(e, pairs, tok, pos) && h1 == host_side(pairs) && g1 == graph_side(pairs);
    let b = choose|pairs: Pairs| #[trigger]
        all_paired(e, pairs, tok, pos) && h2 == host_side(pairs) && g2 == graph_side(pairs);
    lemma_host_side_add(a, b);
    let both = a + b;
    assert forall|i: int| 0 <= i < both.len() implies paired(
        e,
        (#[trigger] both[i]).0,
        both[i].1,
        tok,
        pos,
    ) by {
        if i < a.len() {
            assert(both[i] == a[i]);
        } else {
            assert(both[i] == b[i - a.len()]);
        }
    }
    assert(graph_side(both) =~= g1 + g2);
    assert(all_paired(e, both, tok, pos));
}

proof fn lemma_mirrors_one(e: Engine, host: Seq<StepView>, step: StepView, tok: u32, pos: usize)
    requires
        paired(e, host, step, tok, pos),
    ensures
        mirrors(e, host, seq![step], tok, pos),
{
    let pairs: Pairs = seq![(host, step)];
    assert(pairs.drop_last() =~= Seq::empty());
    assert(host_side(pairs.drop_last()) =~= Seq::empty());
    assert(host_side(pairs) =~= host);
    assert(graph_side(pairs) =~= seq![step]);
    assert(all_paired(e, pairs, tok, pos));
}

proof fn lemma_mirrors_same(e: Engine, steps: Seq<StepView>, tok: u32, pos: usize)
    requires
        off_graph(steps),
    ensures
        mirrors(e, steps, steps, tok, pos),
    decreases steps.len(),
{
    if steps.len() == 0 {
        let pairs: Pairs = Seq::empty();
        assert(host_side(pairs) =~= steps);
        assert(graph_side(pairs) =~= steps);
        assert(all_paired(e, pairs, tok, pos));
    } else {
        let last = seq![steps.last()];
        assert forall|i: int, b: Buf| 0 <= i < last.len() && of_graph(b) implies !#[trigger] names(
            last[i],
            b,
        ) by {
            assert(last[i] == steps[steps.len() - 1]);
        }
        assert forall|i: int, b: Buf|
            0 <= i < steps.drop_last().len() && of_graph(b) implies !#[trigger] names(
            steps.drop_last()[i],
            b,
        ) by {
            assert(steps.drop_last()[i] == steps[i]);
        }
        lemma_mirrors_same(e, steps.drop_last(), tok, pos);
        lemma_mirrors_one(e, last, steps.last(), tok, pos);
        lemma_mirrors_add(e, steps.drop_last(), steps.drop_last(), last, last, tok, pos);
        assert(steps.drop_last() + last =~= steps);
    }
}

proof fn lemma_gemv_off(
    ag: int,
    y: Buf,
    x: Buf,
    w: Weights,
    b: Buf,
    n_in: int,
    n_out: int,
    accum: bool,
    t: Tensor,
)
    requires
        holds(w, t),
        !of_graph(y) && !of_graph(x) && !of_graph(b),
    ensures
        off_graph(seq![gemv_step(ag, y, x, w, b, n_in, n_out, accum)]),
{
    let step = gemv_step(ag, y, x, w, b, n_in, n_out, accum);
    let args = step->Launch_0.args;
    assert forall|i: int| 0 <= i < args.len() implies (#[trigger] args[i] matches Arg::Buf(g)
        ==> !of_graph(g)) by {
    }
    assert forall|g: Buf| of_graph(g) implies !#[trigger] names(step, g) by {
    }
}

proof fn lemma_norm_off(out: Buf, x: Buf, g: Buf, b: Option<Buf>, n: int, eps: u32)
    requires
        !of_graph(out) && !of_graph(x) && !of_graph(g),
        b matches Some(v) ==> !of_graph(v),
    ensures
        off_graph(seq![norm_step(out, x, g, b, n, eps)]),
{
}

proof fn lemma_off_add(a: Seq<StepView>, b: Seq<StepView>)
    requires
        off_graph(a),
        off_graph(b),
    ensures
        off_graph(a + b),
{
    assert forall|i: int, g: Buf| 0 <= i < (a + b).len() && of_graph(g) implies !#[trigger] names(
        (a + b)[i],
        g,
    ) by {
        if i < a.len() {
            assert((a + b)[i] == a[i]);
        } else {
            assert((a + b)[i] == b[i - a.len()]);
        }
    }
}

proof fn lemma_front_off(e: Engine, l: int, s: Seq<Setup>)
    requires
        engine_ready(e, s),
        0 <= l < e.config.n_layer,
    ensures
        off_graph(e.front_steps(l)),
{
    let c = e.config;
    let y = e.layers@[l];
    let t = Tensor::Linear(l as usize, Role::Qkv);
    assert(layer_ready(y, l as usize, e.kv8, s));
    let (n, w) = (c.n_embd as int, c.qkv_width());
    let a = norm_step(Buf::Xb, Buf::X, y.ln1_g, y.ln1_b, n, c.norm_eps);
    let b = gemv_step(e.ag as int, Buf::Qkv, Buf::Xb, y.qkv_w, y.qkv_b, n, w, false);
    lemma_norm_off(Buf::Xb, Buf::X, y.ln1_g, y.ln1_b, n, c.norm_eps);
    lemma_gemv_off(e.ag as int, Buf::Qkv, Buf::Xb, y.qkv_w, y.qkv_b, n, w, false, t);
    lemma_off_add(seq![a], seq![b]);
    assert(e.front_steps(l) =~= seq![a] + seq![b]);
}

proof fn lemma_mlp_off(e: Engine, l: int, s: Seq<Setup>)
    requires
        engine_ready(e, s),
        0 <= l < e.config.n_layer,
    ensures
        off_graph(e.back_steps(l)),
{
    let c = e.config;
    let y = e.layers@[l];
    let k = l as usize;
    assert(layer_ready(y, k, e.kv8, s));
    let (n, inter, ag) = (c.n_embd as int, c.n_inter as int, e.ag as int);
    let steps = e.back_steps(l);
    lemma_gemv_off(ag, Buf::X, Buf::Attn, y.proj_w, y.proj_b, c.q_width(), n, true, Tensor::Linear(k, Role::Proj));
    lemma_norm_off(Buf::Xb, Buf::X, y.ln2_g, y.ln2_b, n, c.norm_eps);
    lemma_gemv_off(ag, Buf::H, Buf::Xb, y.fc_w, or_zero(y.fc_b), n, inter, false, Tensor::Linear(k, Role::Fc));
    lemma_gemv_off(ag, Buf::X, Buf::H, y.fc2_w, or_zero(y.fc2_b), inter, n, true, Tensor::Linear(k, Role::Fc2));
    if let Some(up) = y.up_w {
        lemma_gemv_off(ag, Buf::H2, Buf::Xb, up, Buf::ZeroBias, n, inter, false, Tensor::Linear(k, Role::Up));
    }
    assert forall|i: int, b: Buf| 0 <= i < steps.len() && of_graph(b) implies !#[trigger] names(
        steps[i],
        b,
    ) by {
        let one = seq![steps[i]];
        assert(one[0] == steps[i]);
        if i == 0 {
            assert(steps[0] == gemv_step(ag, Buf::X, Buf::Attn, y.proj_w, y.proj_b, c.q_width(), n, true));
        } else if i == 1 {
            assert(steps[1] == norm_step(Buf::Xb, Buf::X, y.ln2_g, y.ln2_b, n, c.norm_eps));
        } else if i == 2 {
            assert(steps[2] == gemv_step(ag, Buf::H, Buf::Xb, y.fc_w, or_zero(y.fc_b), n, inter, false));
        } else if i == steps.len() - 1 {
            assert(steps[i] == gemv_step(ag, Buf::X, Buf::H, y.fc2_w, or_zero(y.fc2_b), inter, n, true));
        } else if y.up_w is Some && i == 3 {
            assert(steps[3] == gemv_step(ag, Buf::H2, Buf::Xb, y.up_w->0, Buf::ZeroBias, n, inter, false));
        }
        assert(!names(one[0], b));
    }
}

proof fn lemma_tail_off(e: Engine, s: Seq<Setup>)
    requires
        engine_ready(e, s),
    ensures
        off_graph(
            seq![
                norm_step(Buf::Xb, Buf::X, e.lnf_g, e.lnf_b, e.config.n_embd as int, e.config.norm_eps),
                e.head_step(),
            ],
        ),
{
    let c = e.config;
    let (n, v) = (c.n_embd as int, c.n_vocab as int);
    let t = if e.lm_head_t is Some {
        Tensor::LmHead
    } else {
        Tensor::Wte
    };
    let a = norm_step(Buf::Xb, Buf::X, e.lnf_g, e.lnf_b, n, c.norm_eps);
    lemma_norm_off(Buf::Xb, Buf::X, e.lnf_g, e.lnf_b, n, c.norm_eps);
    lemma_gemv_off(e.ag as int, Buf::Logits, Buf::Xb, e.head(), Buf::ZeroBias, n, v, false, t);
    lemma_off_add(seq![a], seq![e.head_step()]);
    assert(seq![a] + seq![e.head_step()] =~= seq![a, e.head_step()]);
}

/// A launch at a token and a position, that is handed none of the graph's buffers, belongs
/// to the one that reads them.
proof fn lemma_launch_paired(e: Engine, host: StepView, step: StepView, tok: u32, pos: usize)
    requires
        host is Launch,
        launched_at(host->Launch_0, tok, pos),
        step == StepView::Launch(reading_launch(host->Launch_0)),
        off_graph(seq![host]),
    ensures
        mirrors(e, seq![host], seq![step], tok, pos),
{
    assert(host == StepView::Launch(host->Launch_0));
    assert(twins(e, seq![host], step, tok, pos));
    lemma_mirrors_one(e, seq![host], step, tok, pos);
}

proof fn lemma_rope_mirrors(e: Engine, tok: u32, pos: usize)
    ensures
        mirrors(e, e.rope_steps(Some(pos)), e.rope_steps(None), tok, pos),
{
    let h = e.rope_steps(Some(pos));
    let g = e.rope_steps(None);
    if h.len() == 0 {
        assert(h =~= g);
        lemma_mirrors_same(e, h, tok, pos);
    } else {
        let (a, b) = (h[0], g[0]);
        assert(h =~= seq![a]);
        assert(g =~= seq![b]);
        assert(b->Launch_0.args =~= a->Launch_0.args.update(1, Arg::Buf(Buf::GraphPos)));
        assert(b == StepView::Launch(reading_launch(a->Launch_0)));
        lemma_launch_paired(e, a, b, tok, pos);
    }
}

proof fn lemma_store_mirrors(e: Engine, l: usize, tok: u32, pos: usize)
    requires
        l < e.config.n_layer,
    ensures
        mirrors(e, e.store_steps(l, Some(pos)), e.store_steps(l, None), tok, pos),
{
    let h = e.store_steps(l, Some(pos));
    let g = e.store_steps(l, None);
    assert(g =~= seq![g[0]]);
    assert(twins(e, h, g[0], tok, pos));
    lemma_mirrors_one(e, h, g[0], tok, pos);
}

proof fn lemma_attn_mirrors(e: Engine, l: usize, tok: u32, pos: usize)
    requires
        l < e.config.n_layer,
    ensures
        mirrors(e, e.attn_steps(l, Some(pos)), e.attn_steps(l, None), tok, pos),
{
    let h = e.attn_steps(l, Some(pos));
    let g = e.attn_steps(l, None);
    if e.kv8 {
        let (a, b) = (h[0], g[0]);
        let (c, d) = (h[1], g[1]);
        assert(b->Launch_0.args =~= a->Launch_0.args.update(7, Arg::Buf(Buf::GraphPos)));
        assert(d->Launch_0.args =~= c->Launch_0.args.update(8, Arg::Buf(Buf::GraphPos)));
        assert(b == StepView::Launch(reading_launch(a->Launch_0)));
        assert(d == StepView::Launch(reading_launch(c->Launch_0)));
        lemma_launch_paired(e, a, b, tok, pos);
        lemma_launch_paired(e, c, d, tok, pos);
        lemma_mirrors_add(e, seq![a], seq![b], seq![c], seq![d], tok, pos);
        assert(h =~= seq![a] + seq![c]);
        assert(g =~= seq![b] + seq![d]);
    } else {
        let (a, b) = (h.last(), g.last());
        let sh = e.store_steps(l, Some(pos));
        let sg = e.store_steps(l, None);
        assert(b->Launch_0.args =~= a->Launch_0.args.update(4, Arg::Buf(Buf::GraphPos)));
        assert(b == StepView::Launch(reading_launch(a->Launch_0)));
        lemma_store_mirrors(e, l, tok, pos);
        lemma_launch_paired(e, a, b, tok, pos);
        lemma_mirrors_add(e, sh, sg, seq![a], seq![b], tok, pos);
        assert(h =~= sh + seq![a]);
        assert(g =~= sg + seq![b]);
    }
}

proof fn lemma_lookup_mirrors(e: Engine, s: Seq<Setup>, tok: u32, pos: usize)
    requires
        engine_ready(e, s),
    ensures
        mirrors(e, seq![e.lookup_step(tok, Some(pos))], seq![e.lookup_step(0, None)], tok, pos),
{
    let (a, b) = (e.lookup_step(tok, Some(pos)), e.lookup_step(0, None));
    let (x, y) = (a->Launch_0.args, b->Launch_0.args);
    let p = x.len() - 3;
    let k = planes(e.wte_t).len();
    assert(p == k + 3);
    assert(x[p] == Arg::I32(pos as i32));
    assert(x[p - 1] == Arg::I32(tok as i32));
    assert(y =~= x.update(p, Arg::Buf(Buf::GraphPos)).update(p - 1, Arg::Buf(Buf::GraphTok)));
    assert(b == StepView::Launch(reading_launch(a->Launch_0)));
    assert forall|i: int| 0 <= i < x.len() implies (#[trigger] x[i] matches Arg::Buf(g)
        ==> !of_graph(g)) by {
        if 1 <= i < 1 + k {
            assert(x[i] == planes(e.wte_t)[i - 1]);
        }
    }
    lemma_launch_paired(e, a, b, tok, pos);
}

proof fn lemma_layers_mirror(e: Engine, s: Seq<Setup>, n: nat, tok: u32, pos: usize)
    requires
        engine_ready(e, s),
        n <= e.config.n_layer,
    ensures
        mirrors(e, e.layers_steps(n, Some(pos)), e.layers_steps(n, None), tok, pos),
    decreases n,
{
    if n == 0 {
        lemma_mirrors_same(e, Seq::empty(), tok, pos);
    } else {
        let l = n - 1;
        let (f, b) = (e.front_steps(l), e.back_steps(l));
        let (rh, rg) = (e.rope_steps(Some(pos)), e.rope_steps(None));
        let (ah, ag) = (e.attn_steps(l as usize, Some(pos)), e.attn_steps(l as usize, None));
        lemma_layers_mirror(e, s, l as nat, tok, pos);
        lemma_front_off(e, l, s);
        lemma_mirrors_same(e, f, tok, pos);
        lemma_rope_mirrors(e, tok, pos);
        lemma_attn_mirrors(e, l as usize, tok, pos);
        lemma_mlp_off(e, l, s);
        lemma_mirrors_same(e, b, tok, pos);
        lemma_mirrors_add(e, f, f, rh, rg, tok, pos);
        lemma_mirrors_add(e, f + rh, f + rg, ah, ag, tok, pos);
        lemma_mirrors_add(e, f + rh + ah, f + rg + ag, b, b, tok, pos);
        lemma_mirrors_add(
            e,
            e.layers_steps(l as nat, Some(pos)),
            e.layers_steps(l as nat, None),
            e.layer_steps(l, Some(pos)),
            e.layer_steps(l, None),
            tok,
            pos,
        );
    }
}

/// The decode graph is the decode step, step for step, with token and position read from
/// device memory, and then the greedy choice. This holds at every token and every position.
pub proof fn graph_is_the_decode_step(e: Engine, s: Seq<Setup>, tok: u32, pos: usize)
    requires
        engine_ready(e, s),
    ensures
        mirrors(e, e.forward_steps(tok, pos), e.graph_steps().drop_last(), tok, pos),
        e.graph_steps().len() > 0,
        e.graph_steps().last() == launch(
            Kernel::ArgmaxAdvance,
            (1, 1, 1),
            (256, 1, 1),
            0,
            seq![
                Arg::Buf(Buf::GraphTok),
                Arg::Buf(Buf::GraphPos),
                Arg::Buf(Buf::Logits),
                Arg::I32(e.config.n_vocab as i32),
            ],
        ),
{
    let c = e.config;
    let n = c.n_layer as nat;
    let tail = seq![
        norm_step(Buf::Xb, Buf::X, e.lnf_g, e.lnf_b, c.n_embd as int, c.norm_eps),
        e.head_step(),
    ];
    let (a, b) = (seq![e.lookup_step(tok, Some(pos))], seq![e.lookup_step(0, None)]);
    let (lh, lg) = (e.layers_steps(n, Some(pos)), e.layers_steps(n, None));
    lemma_lookup_mirrors(e, s, tok, pos);
    lemma_layers_mirror(e, s, n, tok, pos);
    lemma_tail_off(e, s);
    lemma_mirrors_same(e, tail, tok, pos);
    lemma_mirrors_add(e, lh, lg, tail, tail, tok, pos);
    lemma_mirrors_add(e, a, b, lh + tail, lg + tail, tok, pos);
    assert(e.graph_steps().drop_last() =~= b + (lg + tail));
}

pub proof fn lemma_run_add(dev: Device, m: Memory, a: Seq<StepView>, b: Seq<StepView>)
    ensures
        run(dev, m, a + b) == run(dev, run(dev, m, a), b),
    decreases b.len(),
{
    if b.len() == 0 {
        assert(a + b =~= a);
    } else {
        assert((a + b).drop_last() =~= a + b.drop_last());
        lemma_run_add(dev, m, a, b.drop_last());
    }
}

/// Steps off the graph's token and position do the same in memories that agree, and leave
/// both as they are.
proof fn lemma_off_run(dev: Device, e: Engine, steps: Seq<StepView>, m: Memory, n: Memory)
    requires
        faithful(dev, e),
        off_graph(steps),
        agree(m, n),
    ensures
        agree(run(dev, m, steps), run(dev, n, steps)),
        forall|b: Buf| of_graph(b) ==> #[trigger] run(dev, n, steps)(b) == n(b),
    decreases steps.len(),
{
    if steps.len() > 0 {
        let front = steps.drop_last();
        let last = steps.last();
        assert forall|i: int, b: Buf| 0 <= i < front.len() && of_graph(b) implies !#[trigger] names(
            front[i],
            b,
        ) by {
            assert(front[i] == steps[i]);
        }
        lemma_off_run(dev, e, front, m, n);
        let (p, q) = (run(dev, m, front), run(dev, n, front));
        assert forall|b: Buf| of_graph(b) implies !#[trigger] names(last, b) by {
            assert(!names(steps[steps.len() - 1], b));
        }
        assert forall|x: Buf| names(last, x) implies #[trigger] p(x) == q(x) by {
            assert(!of_graph(x));
        }
        assert forall|x: Buf| !of_graph(x) implies #[trigger] run(dev, m, steps)(x) == run(
            dev,
            n,
            steps,
        )(x) by {
            assert(confined(dev, p, last, x));
            assert(confined(dev, q, last, x));
            assert(determined(dev, p, q, last, x));
            assert(p(x) == q(x));
        }
        assert forall|b: Buf| of_graph(b) implies #[trigger] run(dev, n, steps)(b) == n(b) by {
            assert(confined(dev, q, last, b));
            assert(run(dev, n, front)(b) == n(b));
        }
    }
}

/// The two sides of pairs of steps do the same in memories that agree.
proof fn lemma_pairs_run(
    dev: Device,
    e: Engine,
    pairs: Pairs,
    m: Memory,
    n: Memory,
    tok: u32,
    pos: usize,
)
    requires
        faithful(dev, e),
        all_paired(e, pairs, tok, pos),
        agree(m, n),
        shows(n, tok, pos as int),
        pos < e.config.n_ctx,
    ensures
        agree(run(dev, m, host_side(pairs)), run(dev, n, graph_side(pairs))),
        shows(run(dev, n, graph_side(pairs)), tok, pos as int),
    decreases pairs.len(),
{
    if pairs.len() > 0 {
        let front = pairs.drop_last();
        let (host, step) = pairs.last();
        assert(paired(e, pairs[pairs.len() - 1].0, pairs[pairs.len() - 1].1, tok, pos));
        assert forall|i: int| 0 <= i < front.len() implies paired(
            e,
            (#[trigger] front[i]).0,
            front[i].1,
            tok,
            pos,
        ) by {
            assert(front[i] == pairs[i]);
        }
        lemma_pairs_run(dev, e, front, m, n, tok, pos);
        let (p, q) = (run(dev, m, host_side(front)), run(dev, n, graph_side(front)));
        lemma_run_add(dev, m, host_side(front), host);
        assert(graph_side(pairs).drop_last() =~= graph_side(front));
        assert(graph_side(pairs).last() == step);
        lemma_off_run(dev, e, host, p, q);
        let now = run(dev, n, graph_side(pairs));
        assert(now == dev(q, step));
        assert forall|b: Buf| #[trigger] now(b) == run(dev, q, host)(b) by {
            if host == seq![step] {
                assert(host.drop_last() =~= Seq::empty());
                assert(run(dev, q, host.drop_last()) == q);
                assert(host.last() == step);
            } else {
                assert(reads_memory(dev, e, q, host, step, tok, pos, b));
            }
        }
    }
}

/// One replay is one turn of the loop on the host.
proof fn lemma_replay(
    dev: Device,
    e: Engine,
    s: Seq<Setup>,
    m: Memory,
    n: Memory,
    tok: u32,
    pos: usize,
)
    requires
        engine_ready(e, s),
        faithful(dev, e),
        agree(m, n),
        shows(n, tok, pos as int),
        pos < e.config.n_ctx,
    ensures
        ({
            let host = run(dev, m, e.forward_steps(tok, pos));
            let graph = run(dev, n, e.graph_steps());
            &&& agree(host, graph)
            &&& shows(graph, argmax_index(host(Buf::Logits)) as u32, pos + 1)
        }),
{
    let steps = e.graph_steps();
    let last = steps.last();
    graph_is_the_decode_step(e, s, tok, pos);
    let pairs = choose|pairs: Pairs| #[trigger]
        all_paired(e, pairs, tok, pos) && e.forward_steps(tok, pos) == host_side(pairs)
            && steps.drop_last() == graph_side(pairs);
    lemma_pairs_run(dev, e, pairs, m, n, tok, pos);
    let host = run(dev, m, e.forward_steps(tok, pos));
    let q = run(dev, n, steps.drop_last());
    let graph = run(dev, n, steps);
    assert(graph == dev(q, last));
    assert(advances(dev, e, q, tok, pos as int));
    assert(host(Buf::Logits) == q(Buf::Logits));
    assert forall|x: Buf| !of_graph(x) implies #[trigger] host(x) == graph(x) by {
        assert(confined(dev, q, last, x));
        assert(host(x) == q(x));
        if x != Buf::Logits {
            let args = last->Launch_0.args;
            assert(args[0] == Arg::Buf(Buf::GraphTok) && args[1] == Arg::Buf(Buf::GraphPos)
                && args[2] == Arg::Buf(Buf::Logits));
            assert(!names(last, x));
        }
    }
}

proof fn lemma_replays(
    dev: Device,
    e: Engine,
    s: Seq<Setup>,
    m: Memory,
    start: Memory,
    first_tok: u32,
    pos: usize,
    n: nat,
)
    requires
        engine_ready(e, s),
        faithful(dev, e),
        agree(m, start),
        shows(start, first_tok, pos as int),
        pos + n <= e.config.n_ctx,
    ensures
        ({
            let (host, tok) = host_loop(dev, e, m, first_tok, pos, n);
            let graph = run(dev, start, repeated(e.graph_steps(), n));
            &&& agree(host, graph)
            &&& shows(graph, tok, pos + n)
        }),
    decreases n,
{
    if n > 0 {
        let k = (n - 1) as nat;
        lemma_replays(dev, e, s, m, start, first_tok, pos, k);
        let (before, tok) = host_loop(dev, e, m, first_tok, pos, k);
        let graph = run(dev, start, repeated(e.graph_steps(), k));
        lemma_replay(dev, e, s, before, graph, tok, (pos + k) as usize);
        lemma_run_add(dev, start, repeated(e.graph_steps(), k), e.graph_steps());
    }
}

/// Decoding by the graph leaves in device memory the token that a loop of decode steps on
/// the host ends with, each followed by the argmax of its logits: the first token where
/// there is nothing to decode. Everything else in memory is as the loop leaves it.
pub proof fn graph_decoding_is_host_decoding(
    dev: Device,
    e: Engine,
    s: Seq<Setup>,
    m: Memory,
    first_tok: u32,
    pos: usize,
    n: nat,
)
    requires
        engine_ready(e, s),
        faithful(dev, e),
        e.config.n_ctx <= i32::MAX,
        pos + n <= e.config.n_ctx,
    ensures
        ({
            let (host, tok) = host_loop(dev, e, m, first_tok, pos, n);
            let graph = run(dev, m, e.graph_run(first_tok, pos, n));
            &&& shows(graph, tok, pos + n)
            &&& agree(host, graph)
        }),
{
    let start = e.graph_start(first_tok, pos);
    let (a, b) = (start[0], start[1]);
    assert(start =~= seq![a] + seq![b]);
    lemma_run_add(dev, m, seq![a], seq![b]);
    assert(seq![a].drop_last() =~= Seq::empty());
    assert(seq![b].drop_last() =~= Seq::empty());
    let one = dev(m, a);
    let two = dev(one, b);
    assert(run(dev, m, seq![a]) == dev(run(dev, m, seq![a].drop_last()), seq![a].last()));
    assert(run(dev, one, seq![b]) == dev(run(dev, one, seq![b].drop_last()), seq![b].last()));
    assert(run(dev, m, start) == two);
    assert(loads(dev, m, Buf::GraphTok, seq![first_tok as i32]));
    assert(loads(dev, one, Buf::GraphPos, seq![pos as i32]));
    assert(confined(dev, one, b, Buf::GraphTok));
    assert((first_tok as i32) as u32 == first_tok) by (bit_vector);
    assert(one(Buf::GraphTok)[0] == seq![first_tok as i32][0] as u32);
    assert(two(Buf::GraphPos)[0] == seq![pos as i32][0] as u32);
    assert(shows(two, first_tok, pos as int));
    assert forall|x: Buf| !of_graph(x) implies #[trigger] m(x) == two(x) by {
        assert(confined(dev, m, a, x));
        assert(confined(dev, one, b, x));
    }
    lemma_replays(dev, e, s, m, two, first_tok, pos, n);
    lemma_run_add(dev, m, start, repeated(e.graph_steps(), n));
}

} // verus!
