//! What opening a model comes to: which form each of its tensors is stored in, from which
//! tensor each buffer is filled, and how large the working buffers are.

use crate::batched::in_order;
use crate::engine::{Engine, LayerG, MAX_SPEC_TOKENS};
use crate::gptq::{EntryView, Role};
use crate::launch::{Buf, KvPart, Tensor, VecName, Weights};
use crate::meaning::{part_width, parts, Form};
use crate::model::{Arch, Config, LayerView, ModelView};
use crate::plans::holds;
use crate::quant::{tiers, WeightMode};
use crate::reference::{form, unordered};
use crate::setup::{
    attn_setup, cache_setup, layer_setup, layer_stored, layers_setup, mlp_setup, model_setup,
    scratch_setup, tables_setup, Setup,
};
use crate::upload::{is_matrix_data, vector_data};
use vstd::prelude::*;

verus! {

/// The form that a mode stores matrices in.
pub open spec fn mode_form(m: WeightMode) -> Form {
    match m {
        WeightMode::Fp32 => Form::F32,
        WeightMode::Fp16 => Form::F16,
        WeightMode::Int8 => Form::Int8,
        WeightMode::Int4 => Form::Int4,
        WeightMode::Int4K => Form::Int4K,
        WeightMode::Int3 => Form::Int3,
        WeightMode::Int2 => Form::Int2,
    }
}

/// The form of embeddings and head: that of the mode, but eight bits where they are asked for
/// and the mode has fewer, and else four bits where it has two or three.
pub open spec fn table_form(m: WeightMode, eight: bool) -> Form {
    match m {
        WeightMode::Fp32 => Form::F32,
        WeightMode::Fp16 => Form::F16,
        WeightMode::Int8 => Form::Int8,
        WeightMode::Int4K => if eight {
            Form::Int8
        } else {
            Form::Int4K
        },
        _ => if eight {
            Form::Int8
        } else {
            Form::Int4
        },
    }
}

/// The form of the output projections of the MLP: that of the mode, but eight bits where they
/// are asked for and the mode has fewer, and else four bits where it has two.
pub open spec fn down_form(m: WeightMode, eight: bool) -> Form {
    match m {
        WeightMode::Fp32 => Form::F32,
        WeightMode::Fp16 => Form::F16,
        WeightMode::Int8 => Form::Int8,
        _ => if eight {
            Form::Int8
        } else if m == WeightMode::Int2 {
            Form::Int4
        } else {
            mode_form(m)
        },
    }
}

/// The sidecar holds the linear in an order of channels that is not the plain one.
pub open spec fn reordered(side: Map<(usize, Role), EntryView>, l: usize, role: Role) -> bool {
    side.contains_key((l, role)) && exists|i: int|
        0 <= i < side[(l, role)].perm.len() && #[trigger] side[(l, role)].perm[i] != i
}

/// The linear is the tensor of its layer and role: in four bits where the sidecar holds it,
/// with an order of channels where that is not the plain one; else in the given form.
pub open spec fn linear_follows(
    w: Weights,
    side: Map<(usize, Role), EntryView>,
    l: usize,
    role: Role,
    f: Form,
) -> bool {
    &&& holds(w, Tensor::Linear(l, role))
    &&& form(w) == if side.contains_key((l, role)) {
        Form::Int4
    } else {
        f
    }
    &&& unordered(w) != w <==> reordered(side, l, role)
}

/// The stored layer has the vectors that the layer has, and its linears.
pub open spec fn layer_follows(
    y: LayerG,
    v: LayerView,
    side: Map<(usize, Role), EntryView>,
    l: usize,
    mode: WeightMode,
    eight: bool,
) -> bool {
    &&& y.ln1_g == Buf::Vector(l, VecName::Ln1G)
    &&& y.ln1_b is Some <==> v.ln1_b.len() > 0
    &&& y.qkv_b == Buf::Vector(l, VecName::QkvB)
    &&& y.proj_b == Buf::Vector(l, VecName::ProjB)
    &&& y.ln2_g == Buf::Vector(l, VecName::Ln2G)
    &&& y.ln2_b is Some <==> v.ln2_b.len() > 0
    &&& y.fc_b is Some <==> v.fc_b.len() > 0
    &&& y.fc2_b is Some <==> v.fc2_b.len() > 0
    &&& y.up_w is Some <==> v.up_w.len() > 0
    &&& linear_follows(y.qkv_w, side, l, Role::Qkv, mode_form(mode))
    &&& linear_follows(y.proj_w, side, l, Role::Proj, mode_form(mode))
    &&& linear_follows(y.fc_w, side, l, Role::Fc, mode_form(mode))
    &&& y.up_w matches Some(up) ==> linear_follows(up, side, l, Role::Up, mode_form(mode))
    &&& linear_follows(y.fc2_w, side, l, Role::Fc2, down_form(mode, eight))
}

/// An opened engine is the model in the mode: the vectors that the model has and no others,
/// every linear in its form, from the sidecar where that holds it, and the head that the model
/// has. It says that channels are reordered exactly where the sidecar reorders some.
pub proof fn opening_follows_the_model(
    e: Engine,
    m: ModelView,
    mode: WeightMode,
    kv8: bool,
    side: Map<(usize, Role), EntryView>,
    embed_int8: bool,
    ffn_down_int8: bool,
)
    requires
        e.opened(m, mode, kv8, side, embed_int8, ffn_down_int8),
        m.layers.len() == m.config.n_layer,
    ensures
        e.config == m.config,
        e.kv8 == kv8,
        e.ag == (if m.config.arch == Arch::Gpt2 {
            4int
        } else {
            8
        }),
        e.lnf_g == Buf::LnfG,
        e.lnf_b is Some <==> m.lnf_b.len() > 0,
        holds(e.wte_t, Tensor::Wte) && unordered(e.wte_t) == e.wte_t,
        form(e.wte_t) == table_form(mode, embed_int8),
        e.lm_head_t is Some <==> m.lm_head.len() > 0,
        e.lm_head_t matches Some(w) ==> holds(w, Tensor::LmHead) && unordered(w) == w && form(w)
            == table_form(mode, embed_int8),
        e.layers@.len() == m.layers.len(),
        forall|l: int|
            0 <= l < m.layers.len() ==> layer_follows(
                #[trigger] e.layers@[l],
                m.layers[l],
                side,
                l as usize,
                mode,
                ffn_down_int8,
            ),
        e.gptq_act_order <==> exists|l: usize, role: Role| #[trigger] reordered(side, l, role),
        !e.gptq_act_order ==> in_order(e),
{
    let (embed, down) = tiers(mode, embed_int8, ffn_down_int8);
    assert forall|l: int| 0 <= l < m.layers.len() implies layer_follows(
        #[trigger] e.layers@[l],
        m.layers[l],
        side,
        l as usize,
        mode,
        ffn_down_int8,
    ) by {
        let k = l as usize;
        assert(e.layers@[l] == layer_stored(side, k, m.layers[l], mode, down));
        lemma_linear_follows(side, k, Role::Qkv, mode);
        lemma_linear_follows(side, k, Role::Proj, mode);
        lemma_linear_follows(side, k, Role::Fc, mode);
        lemma_linear_follows(side, k, Role::Up, mode);
        lemma_linear_follows(side, k, Role::Fc2, down);
        assert(mode_form(down) == down_form(mode, ffn_down_int8));
    }
    if e.gptq_act_order {
        let k = choose|k: (usize, Role)| #[trigger]
            side.contains_key(k) && !crate::gptq::identity_perm(side[k].perm);
        lemma_identity(side, k.0, k.1);
        assert(k == (k.0, k.1));
        assert(reordered(side, k.0, k.1));
    } else {
        assert forall|l: usize, role: Role| !#[trigger] reordered(side, l, role) by {
            if side.contains_key((l, role)) {
                lemma_identity(side, l, role);
                assert(crate::gptq::identity_perm(side[(l, role)].perm));
            }
        }
        assert forall|l: int| 0 <= l < e.layers@.len() implies {
            let y = #[trigger] e.layers@[l];
            &&& unordered(y.qkv_w) == y.qkv_w
            &&& unordered(y.proj_w) == y.proj_w
            &&& unordered(y.fc_w) == y.fc_w
            &&& unordered(y.fc2_w) == y.fc2_w
            &&& (y.up_w matches Some(up) ==> unordered(up) == up)
        } by {
            assert(layer_follows(
                e.layers@[l],
                m.layers[l],
                side,
                l as usize,
                mode,
                ffn_down_int8,
            ));
        }
    }
}

proof fn lemma_identity(side: Map<(usize, Role), EntryView>, l: usize, role: Role)
    requires
        side.contains_key((l, role)),
    ensures
        reordered(side, l, role) <==> !crate::gptq::identity_perm(side[(l, role)].perm),
{
}

proof fn lemma_linear_follows(
    side: Map<(usize, Role), EntryView>,
    l: usize,
    role: Role,
    m: WeightMode,
)
    ensures
        linear_follows(
            crate::setup::linear_weights(side, l, role, m),
            side,
            l,
            role,
            mode_form(m),
        ),
{
    if side.contains_key((l, role)) {
        lemma_identity(side, l, role);
    }
}

/// Rows and columns of a stored matrix: the channels that enter it, and those that leave it.
pub open spec fn shape(c: Config, t: Tensor) -> (int, int) {
    let (e, v, inter) = (c.n_embd as int, c.n_vocab as int, c.n_inter as int);
    let (q, kv) = (c.n_head * c.head_dim, c.n_kv_head * c.head_dim);
    match t {
        Tensor::Linear(l, role) => match role {
            Role::Qkv => (e, q + 2 * kv),
            Role::Proj => (q, e),
            Role::Fc => (e, inter),
            Role::Up => (e, inter),
            Role::Fc2 => (inter, e),
        },
        _ => (e, v),
    }
}

/// An upload goes where it belongs: a matrix in its shape into the planes of its tensor, in
/// the form of its mode, and an entry of the sidecar into those of its layer and role.
pub open spec fn upload_fits(c: Config, s: Setup) -> bool {
    match s {
        Setup::Matrix { w, tensor, mode, n_in, n_out } => {
            &&& (n_in as int, n_out as int) == shape(c, tensor)
            &&& holds(w, tensor)
            &&& form(w) == mode_form(mode)
            &&& unordered(w) == w
        },
        Setup::Entry { w, layer, role } => holds(w, Tensor::Linear(layer, role)) && w is Int4,
        _ => true,
    }
}

/// Every upload goes where it belongs.
pub open spec fn uploads_fit(c: Config, s: Seq<Setup>) -> bool {
    forall|i: int| 0 <= i < s.len() ==> upload_fits(c, #[trigger] s[i])
}

proof fn lemma_fit_add(c: Config, a: Seq<Setup>, b: Seq<Setup>)
    requires
        uploads_fit(c, a),
        uploads_fit(c, b),
    ensures
        uploads_fit(c, a + b),
{
}

proof fn lemma_layer_fits(
    c: Config,
    side: Map<(usize, Role), EntryView>,
    l: usize,
    y: LayerView,
    m: WeightMode,
    down: WeightMode,
)
    requires
        c.qkv_width() <= usize::MAX,
    ensures
        uploads_fit(c, layer_setup(c, side, l, y, m, down)),
{
    crate::engine::lemma_config_widths(c);
    let a = attn_setup(c, side, l, y, m);
    let b = mlp_setup(c, side, l, y, m, down);
    assert forall|i: int| 0 <= i < a.len() implies upload_fits(c, #[trigger] a[i]) by {
    }
    assert forall|i: int| 0 <= i < b.len() implies upload_fits(c, #[trigger] b[i]) by {
    }
    lemma_fit_add(c, a, b);
}

proof fn lemma_layers_fit(
    c: Config,
    side: Map<(usize, Role), EntryView>,
    ys: Seq<LayerView>,
    m: WeightMode,
    down: WeightMode,
)
    requires
        c.qkv_width() <= usize::MAX,
    ensures
        uploads_fit(c, layers_setup(c, side, ys, m, down)),
    decreases ys.len(),
{
    if ys.len() > 0 {
        let l = (ys.len() - 1) as usize;
        lemma_layers_fit(c, side, ys.drop_last(), m, down);
        lemma_layer_fits(c, side, l, ys.last(), m, down);
        lemma_fit_add(
            c,
            layers_setup(c, side, ys.drop_last(), m, down),
            layer_setup(c, side, l, ys.last(), m, down),
        );
    }
}

/// Every matrix that opening a model uploads has the shape of its tensor and goes into the
/// planes of that tensor, in the form that it is quantized to; every entry of the sidecar goes
/// into the planes of its layer and role.
pub proof fn uploads_go_where_they_belong(
    m: ModelView,
    mode: WeightMode,
    kv8: bool,
    side: Map<(usize, Role), EntryView>,
    embed_int8: bool,
    ffn_down_int8: bool,
)
    requires
        m.config.qkv_width() <= usize::MAX,
    ensures
        uploads_fit(m.config, model_setup(m, mode, kv8, side, embed_int8, ffn_down_int8)),
{
    let c = m.config;
    let (embed, down) = tiers(mode, embed_int8, ffn_down_int8);
    let a = layers_setup(c, side, m.layers, mode, down);
    let b = tables_setup(m, embed);
    let d = cache_setup(c, kv8);
    let e = scratch_setup(c, crate::quant::group_width(c.arch));
    lemma_layers_fit(c, side, m.layers, mode, down);
    assert forall|i: int| 0 <= i < b.len() implies upload_fits(c, #[trigger] b[i]) by {
    }
    assert forall|i: int| 0 <= i < d.len() implies upload_fits(c, #[trigger] d[i]) by {
        assert(d[i] is Zeros);
    }
    lemma_fit_add(c, a, b);
    lemma_fit_add(c, a + b, d);
    lemma_fit_add(c, a + b + d, e);
}

/// The list makes a buffer of that many zeros.
pub open spec fn zeros_made(s: Seq<Setup>, b: Buf, n: int) -> bool {
    exists|i: int| 0 <= i < s.len() && (#[trigger] s[i] matches Setup::Zeros { buf, elem, len } && buf
        == b && len == n)
}

proof fn lemma_zeros_at(s: Seq<Setup>, i: int, b: Buf, n: int)
    requires
        0 <= i < s.len(),
        s[i] matches Setup::Zeros { buf, elem, len } && buf == b && len == n,
    ensures
        zeros_made(s, b, n),
{
}

proof fn lemma_zeros_in(a: Seq<Setup>, b: Seq<Setup>, x: Buf, n: int)
    ensures
        zeros_made(a, x, n) ==> zeros_made(a + b, x, n),
        zeros_made(b, x, n) ==> zeros_made(a + b, x, n),
{
    if zeros_made(a, x, n) {
        let i = choose|i: int|
            0 <= i < a.len() && (#[trigger] a[i] matches Setup::Zeros { buf, elem, len } && buf == x
                && len == n);
        assert((a + b)[i] == a[i]);
        lemma_zeros_at(a + b, i, x, n);
    }
    if zeros_made(b, x, n) {
        let i = choose|i: int|
            0 <= i < b.len() && (#[trigger] b[i] matches Setup::Zeros { buf, elem, len } && buf == x
                && len == n);
        assert((a + b)[a.len() + i] == b[i]);
        lemma_zeros_at(a + b, a.len() + i, x, n);
    }
}

/// The list makes a part of the cache of a layer, with room for every position.
pub open spec fn part_made(s: Seq<Setup>, c: Config, l: usize, p: KvPart) -> bool {
    zeros_made(
        s,
        Buf::Kv(l, p),
        c.n_ctx * part_width(p, c.n_kv_head as int, c.head_dim as int),
    )
}

/// A part of the cache of a layer.
proof fn lemma_cache_sizes(c: Config, kv8: bool, l: int, p: KvPart)
    requires
        c.n_ctx * c.qkv_width() <= usize::MAX,
        c.n_ctx * c.n_kv_head <= usize::MAX,
        0 <= l < c.n_layer,
        parts(kv8).contains(p),
    ensures
        zeros_made(
            cache_setup(c, kv8),
            Buf::Kv(l as usize, p),
            c.n_ctx * part_width(p, c.n_kv_head as int, c.head_dim as int),
        ),
{
    let n = c.n_layer as int;
    let s = cache_setup(c, kv8);
    let b = Buf::Kv(l as usize, p);
    crate::engine::lemma_config_widths(c);
    let want = c.n_ctx * part_width(p, c.n_kv_head as int, c.head_dim as int);
    assert(0 <= want <= usize::MAX) by (nonlinear_arith)
        requires
            want == c.n_ctx * c.kv_width() || want == c.n_ctx * c.n_kv_head,
            0 <= c.kv_width() <= c.qkv_width(),
            c.n_ctx * c.qkv_width() <= usize::MAX,
            c.n_ctx * c.n_kv_head <= usize::MAX,
    ;
    let k: int = match p {
        KvPart::K => 0,
        KvPart::V => 1,
        KvPart::Ks => 2,
        KvPart::Vs => 3,
        KvPart::Kb => 4,
        KvPart::Vb => 5,
    };
    assert(kv8 || k < 2);
    assert(0 <= k * n + l < s.len());
    lemma_zeros_at(s, k * n + l, b, want);
}

/// The working buffers of a model have room for what the plans put in them: one row each for a
/// decode step, a row per position for a batch, the logits of the longest draft, and every
/// position of every layer in the cache.
pub proof fn working_buffers_have_their_sizes(
    e: Engine,
    m: ModelView,
    mode: WeightMode,
    kv8: bool,
    side: Map<(usize, Role), EntryView>,
    embed_int8: bool,
    ffn_down_int8: bool,
)
    requires
        e.opened(m, mode, kv8, side, embed_int8, ffn_down_int8),
    ensures
        ({
            let s = model_setup(m, mode, kv8, side, embed_int8, ffn_down_int8);
            let c = m.config;
            &&& zeros_made(s, Buf::X, c.n_embd as int)
            &&& zeros_made(s, Buf::Xb, c.n_embd as int)
            &&& zeros_made(s, Buf::Qkv, c.qkv_width())
            &&& zeros_made(s, Buf::Attn, c.q_width())
            &&& zeros_made(s, Buf::H, c.n_inter as int)
            &&& zeros_made(s, Buf::H2, c.n_inter as int)
            &&& zeros_made(s, Buf::ZeroBias, c.n_vocab as int)
            &&& zeros_made(s, Buf::Logits, c.n_vocab as int)
            &&& zeros_made(s, Buf::BatchTok, c.n_ctx as int)
            &&& zeros_made(s, Buf::BatchX, c.n_ctx * c.n_embd)
            &&& zeros_made(s, Buf::BatchXb, c.n_ctx * c.n_embd)
            &&& zeros_made(s, Buf::BatchQkv, c.n_ctx * c.qkv_width())
            &&& zeros_made(s, Buf::BatchAttn, c.n_ctx * c.q_width())
            &&& zeros_made(s, Buf::BatchH, c.n_ctx * c.n_inter)
            &&& zeros_made(s, Buf::BatchH2, c.n_ctx * c.n_inter)
            &&& zeros_made(s, Buf::BatchLogits, MAX_SPEC_TOKENS * c.n_vocab)
            &&& zeros_made(s, Buf::BatchArgmax, MAX_SPEC_TOKENS as int)
            &&& zeros_made(s, Buf::ActQ, c.n_ctx * c.n_inter / 4)
            &&& zeros_made(s, Buf::ActScale, c.n_ctx * c.n_inter / (e.ag as int))
            &&& zeros_made(s, Buf::GraphTok, 1)
            &&& zeros_made(s, Buf::GraphPos, 1)
            &&& forall|l: usize, p: KvPart|
                l < c.n_layer && parts(kv8).contains(p) ==> #[trigger] part_made(s, c, l, p)
        }),
{
    let c = m.config;
    let (embed, down) = tiers(mode, embed_int8, ffn_down_int8);
    let ag = crate::quant::group_width(c.arch);
    let front = layers_setup(c, side, m.layers, mode, down) + tables_setup(m, embed);
    let cache = cache_setup(c, kv8);
    let scratch = scratch_setup(c, ag);
    let s = model_setup(m, mode, kv8, side, embed_int8, ffn_down_int8);
    assert(s == front + cache + scratch);
    crate::engine::lemma_config_widths(c);
    let (t, i, q, w) = (c.n_ctx as int, c.n_inter as int, c.q_width(), c.qkv_width());
    assert(0 <= t * q <= t * w && 0 <= t * i) by (nonlinear_arith)
        requires
            0 <= t,
            0 <= i,
            0 <= q <= w,
    ;
    assert(0 <= t * c.n_embd) by (nonlinear_arith)
        requires
            0 <= t,
            0 <= c.n_embd,
    ;
    assert(t * i / ag <= t * i && 0 <= t * i / ag) by (nonlinear_arith)
        requires
            0 <= t * i,
            ag >= 1,
    ;
    let k = front.len() + cache.len();
    assert forall|j: int| 0 <= j < scratch.len() implies s[k + j] == #[trigger] scratch[j] by {
    }
    assert forall|b: Buf, n: int| #[trigger] zeros_made(scratch, b, n) implies zeros_made(s, b, n) by {
        lemma_zeros_in(front + cache, scratch, b, n);
    }
    lemma_zeros_at(scratch, 0, Buf::X, c.n_embd as int);
    lemma_zeros_at(scratch, 1, Buf::Xb, c.n_embd as int);
    lemma_zeros_at(scratch, 2, Buf::Qkv, w);
    lemma_zeros_at(scratch, 3, Buf::Attn, q);
    lemma_zeros_at(scratch, 4, Buf::H, i);
    lemma_zeros_at(scratch, 5, Buf::H2, i);
    lemma_zeros_at(scratch, 6, Buf::ZeroBias, c.n_vocab as int);
    lemma_zeros_at(scratch, 7, Buf::Logits, c.n_vocab as int);
    lemma_zeros_at(scratch, 8, Buf::BatchTok, t);
    lemma_zeros_at(scratch, 9, Buf::BatchX, t * c.n_embd);
    lemma_zeros_at(scratch, 10, Buf::BatchXb, t * c.n_embd);
    lemma_zeros_at(scratch, 11, Buf::BatchQkv, t * w);
    lemma_zeros_at(scratch, 12, Buf::BatchAttn, t * q);
    lemma_zeros_at(scratch, 13, Buf::BatchH, t * i);
    lemma_zeros_at(scratch, 14, Buf::BatchH2, t * i);
    lemma_zeros_at(scratch, 15, Buf::BatchLogits, MAX_SPEC_TOKENS * c.n_vocab);
    lemma_zeros_at(scratch, 16, Buf::BatchArgmax, MAX_SPEC_TOKENS as int);
    lemma_zeros_at(scratch, 17, Buf::ActQ, t * i / 4);
    lemma_zeros_at(scratch, 18, Buf::ActScale, t * i / ag);
    lemma_zeros_at(scratch, 20, Buf::GraphTok, 1);
    lemma_zeros_at(scratch, 21, Buf::GraphPos, 1);
    assert forall|l: usize, p: KvPart|
        l < c.n_layer && parts(kv8).contains(p) implies #[trigger] part_made(s, c, l, p) by {
        let n = c.n_ctx * part_width(p, c.n_kv_head as int, c.head_dim as int);
        lemma_cache_sizes(c, kv8, l as int, p);
        lemma_zeros_in(front, cache, Buf::Kv(l, p), n);
        lemma_zeros_in(front + cache, scratch, Buf::Kv(l, p), n);
    }
}

/// Every buffer of a vector is filled from the vector that it is named after.
pub proof fn vectors_fill_their_buffers(m: ModelView, l: usize)
    requires
        l < m.layers.len(),
    ensures
        vector_data(m, Buf::Wpe) == Some(m.wpe),
        vector_data(m, Buf::LnfG) == Some(m.lnf_g),
        vector_data(m, Buf::LnfB) == Some(m.lnf_b),
        ({
            let y = m.layers[l as int];
            &&& vector_data(m, Buf::Vector(l, VecName::Ln1G)) == Some(y.ln1_g)
            &&& vector_data(m, Buf::Vector(l, VecName::Ln1B)) == Some(y.ln1_b)
            &&& vector_data(m, Buf::Vector(l, VecName::QkvB)) == Some(y.qkv_b)
            &&& vector_data(m, Buf::Vector(l, VecName::ProjB)) == Some(y.proj_b)
            &&& vector_data(m, Buf::Vector(l, VecName::Ln2G)) == Some(y.ln2_g)
            &&& vector_data(m, Buf::Vector(l, VecName::Ln2B)) == Some(y.ln2_b)
            &&& vector_data(m, Buf::Vector(l, VecName::FcB)) == Some(y.fc_b)
            &&& vector_data(m, Buf::Vector(l, VecName::Fc2B)) == Some(y.fc2_b)
        }),
{
}

/// Every matrix is filled from the tensor that it is named after, with its input channels as
/// rows: a linear as the model has it, and the tables, which the model has by token, turned
/// round.
pub proof fn matrices_fill_their_planes(
    m: ModelView,
    l: usize,
    role: Role,
    n_in: int,
    n_out: int,
    v: Seq<u32>,
)
    requires
        l < m.layers.len(),
    ensures
        is_matrix_data(m, Tensor::Linear(l, role), n_in, n_out, v) <==> v == (match role {
            Role::Qkv => m.layers[l as int].qkv_w,
            Role::Proj => m.layers[l as int].proj_w,
            Role::Fc => m.layers[l as int].fc_w,
            Role::Up => m.layers[l as int].up_w,
            Role::Fc2 => m.layers[l as int].fc2_w,
        }),
        is_matrix_data(m, Tensor::Wte, n_in, n_out, v) ==> forall|i: int, o: int|
            0 <= i < n_in && 0 <= o < n_out ==> #[trigger] v[i * n_out + o] == m.wte[o * n_in + i],
        is_matrix_data(m, Tensor::LmHead, n_in, n_out, v) ==> forall|i: int, o: int|
            0 <= i < n_in && 0 <= o < n_out ==> #[trigger] v[i * n_out + o] == m.lm_head[o * n_in + i],
{
}

} // verus!
