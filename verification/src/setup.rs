//! Opening a model: which form every tensor is stored in, and the list of device
//! allocations and uploads that puts it there.

use crate::engine::{fits_device, Engine, LayerG, MAX_CTX, MAX_SPEC_TOKENS};
use crate::gptq::{identity_perm, is_identity, EntryView, Role, Sidecar};
use crate::launch::{Buf, KvPart, Plane, Tensor, VecName, Weights};
use crate::model::{layer_views, model_sized, Config, Layer, LayerView, Model, ModelView};
use crate::quant::{act_group, group_width, mixed_tiers, tiers, WeightMode};
use vstd::prelude::*;

verus! {

/// Element of a device buffer.
#[derive(Debug, Clone, Copy, PartialEq, Eq, Structural)]
pub enum Elem {
    Single,
    Word,
    Byte,
}

/// One allocation or upload.
#[derive(Debug, Clone, Copy, PartialEq, Eq, Structural)]
pub enum Setup {
    /// A buffer of zeros.
    Zeros { buf: Buf, elem: Elem, len: usize },
    /// A vector or table of the model, as it is.
    Vector(Buf),
    /// A matrix of the model, stored in a mode.
    Matrix { w: Weights, tensor: Tensor, mode: WeightMode, n_in: usize, n_out: usize },
    /// A pre-quantized linear of the sidecar.
    Entry { w: Weights, layer: usize, role: Role },
}

/// Why a model cannot be opened.
#[derive(Debug, Clone, Copy, PartialEq, Eq, Structural)]
pub enum EngineError {
    /// The context is longer than the decode-attention kernels have room for.
    ContextTooLong(usize),
    /// A linear's input width does not fill the blocks of its storage mode.
    BadWidth(WeightMode, usize),
}

/// The mode can store a matrix of that input width.
pub open spec fn mode_takes(m: WeightMode, n_in: int) -> bool {
    match m {
        WeightMode::Fp32 => true,
        WeightMode::Fp16 => true,
        WeightMode::Int8 => n_in % 4 == 0,
        WeightMode::Int4 => n_in % 32 == 0,
        _ => n_in % 128 == 0,
    }
}

/// True where the mode can store a matrix of that input width.
pub fn mode_accepts(m: WeightMode, n_in: usize) -> (r: bool)
    ensures
        r == mode_takes(m, n_in as int),
{
    match m {
        WeightMode::Fp32 => true,
        WeightMode::Fp16 => true,
        WeightMode::Int8 => n_in % 4 == 0,
        WeightMode::Int4 => n_in % 32 == 0,
        _ => n_in % 128 == 0,
    }
}

/// The buffers of a matrix stored in a mode.
pub open spec fn stored(t: Tensor, m: WeightMode) -> Weights {
    let q = Buf::Matrix(t, Plane::Values);
    let scales = Buf::Matrix(t, Plane::Scales);
    let sub = Buf::Matrix(t, Plane::Sub);
    let dm = Buf::Matrix(t, Plane::Dm);
    match m {
        WeightMode::Fp32 => Weights::F32(q),
        WeightMode::Fp16 => Weights::F16(q),
        WeightMode::Int8 => Weights::Int8 { q, scales },
        WeightMode::Int4 => Weights::Int4 { q, scales, perm: None },
        WeightMode::Int4K => Weights::Int4K { q, sub, dm },
        WeightMode::Int3 => Weights::Int3 { q, sub, dm },
        WeightMode::Int2 => Weights::Int2 { q, sub, dm },
    }
}

/// The buffers of a matrix stored in a mode.
pub fn store_as(t: Tensor, m: WeightMode) -> (w: Weights)
    ensures
        w == stored(t, m),
{
    let q: Buf = Buf::Matrix(t, Plane::Values);
    let scales: Buf = Buf::Matrix(t, Plane::Scales);
    let sub: Buf = Buf::Matrix(t, Plane::Sub);
    let dm: Buf = Buf::Matrix(t, Plane::Dm);
    match m {
        WeightMode::Fp32 => Weights::F32(q),
        WeightMode::Fp16 => Weights::F16(q),
        WeightMode::Int8 => Weights::Int8 { q, scales },
        WeightMode::Int4 => Weights::Int4 { q, scales, perm: None },
        WeightMode::Int4K => Weights::Int4K { q, sub, dm },
        WeightMode::Int3 => Weights::Int3 { q, sub, dm },
        WeightMode::Int2 => Weights::Int2 { q, sub, dm },
    }
}

/// What a sidecar holds, nothing where there is none.
pub open spec fn held(side: Option<&Sidecar>) -> Map<(usize, Role), EntryView> {
    match side {
        Some(s) => s@,
        None => Map::empty(),
    }
}

/// How a linear is stored: from the sidecar where it holds it, with a channel order
/// only where that reorders, else in the mode.
pub open spec fn linear_weights(
    side: Map<(usize, Role), EntryView>,
    l: usize,
    role: Role,
    m: WeightMode,
) -> Weights {
    let t = Tensor::Linear(l, role);
    if side.contains_key((l, role)) {
        Weights::Int4 {
            q: Buf::Matrix(t, Plane::Values),
            scales: Buf::Matrix(t, Plane::Scales),
            perm: if identity_perm(side[(l, role)].perm) {
                None
            } else {
                Some(Buf::Matrix(t, Plane::Perm))
            },
        }
    } else {
        stored(t, m)
    }
}

/// The upload of a linear.
pub open spec fn linear_setup(
    side: Map<(usize, Role), EntryView>,
    l: usize,
    role: Role,
    m: WeightMode,
    n_in: usize,
    n_out: usize,
) -> Setup {
    let w = linear_weights(side, l, role, m);
    if side.contains_key((l, role)) {
        Setup::Entry { w, layer: l, role }
    } else {
        Setup::Matrix { w, tensor: Tensor::Linear(l, role), mode: m, n_in, n_out }
    }
}

/// The upload of a vector that the model may leave out.
pub open spec fn optional(buf: Buf, t: Seq<u32>) -> Seq<Setup> {
    if t.len() == 0 {
        Seq::empty()
    } else {
        seq![Setup::Vector(buf)]
    }
}

/// The buffer of a vector that the model may leave out.
pub open spec fn optional_buf(buf: Buf, t: Seq<u32>) -> Option<Buf> {
    if t.len() == 0 {
        None
    } else {
        Some(buf)
    }
}

/// The uploads of a layer's attention and of its second norm's scale, in order.
pub open spec fn attn_setup(
    c: Config,
    side: Map<(usize, Role), EntryView>,
    l: usize,
    y: LayerView,
    m: WeightMode,
) -> Seq<Setup> {
    let e = c.n_embd;
    let (q, qkv) = (c.q_width() as usize, c.qkv_width() as usize);
    seq![Setup::Vector(Buf::Vector(l, VecName::Ln1G))] + optional(
        Buf::Vector(l, VecName::Ln1B),
        y.ln1_b,
    ) + seq![
        linear_setup(side, l, Role::Qkv, m, e, qkv),
        Setup::Vector(Buf::Vector(l, VecName::QkvB)),
        linear_setup(side, l, Role::Proj, m, q, e),
        Setup::Vector(Buf::Vector(l, VecName::ProjB)),
        Setup::Vector(Buf::Vector(l, VecName::Ln2G)),
    ]
}

/// The uploads of a layer's MLP, in order.
pub open spec fn mlp_setup(
    c: Config,
    side: Map<(usize, Role), EntryView>,
    l: usize,
    y: LayerView,
    m: WeightMode,
    down: WeightMode,
) -> Seq<Setup> {
    let (e, inter) = (c.n_embd, c.n_inter);
    optional(Buf::Vector(l, VecName::Ln2B), y.ln2_b) + seq![
        linear_setup(side, l, Role::Fc, m, e, inter),
    ] + optional(Buf::Vector(l, VecName::FcB), y.fc_b) + (if y.up_w.len() == 0 {
        Seq::empty()
    } else {
        seq![linear_setup(side, l, Role::Up, m, e, inter)]
    }) + seq![linear_setup(side, l, Role::Fc2, down, inter, e)] + optional(
        Buf::Vector(l, VecName::Fc2B),
        y.fc2_b,
    )
}

/// The uploads of a layer, in order.
pub open spec fn layer_setup(
    c: Config,
    side: Map<(usize, Role), EntryView>,
    l: usize,
    y: LayerView,
    m: WeightMode,
    down: WeightMode,
) -> Seq<Setup> {
    attn_setup(c, side, l, y, m) + mlp_setup(c, side, l, y, m, down)
}

/// The stored form of a layer.
pub open spec fn layer_stored(
    side: Map<(usize, Role), EntryView>,
    l: usize,
    y: LayerView,
    m: WeightMode,
    down: WeightMode,
) -> LayerG {
    LayerG {
        ln1_g: Buf::Vector(l, VecName::Ln1G),
        ln1_b: optional_buf(Buf::Vector(l, VecName::Ln1B), y.ln1_b),
        qkv_w: linear_weights(side, l, Role::Qkv, m),
        qkv_b: Buf::Vector(l, VecName::QkvB),
        proj_w: linear_weights(side, l, Role::Proj, m),
        proj_b: Buf::Vector(l, VecName::ProjB),
        ln2_g: Buf::Vector(l, VecName::Ln2G),
        ln2_b: optional_buf(Buf::Vector(l, VecName::Ln2B), y.ln2_b),
        fc_w: linear_weights(side, l, Role::Fc, m),
        fc_b: optional_buf(Buf::Vector(l, VecName::FcB), y.fc_b),
        up_w: if y.up_w.len() == 0 {
            None
        } else {
            Some(linear_weights(side, l, Role::Up, m))
        },
        fc2_w: linear_weights(side, l, Role::Fc2, down),
        fc2_b: optional_buf(Buf::Vector(l, VecName::Fc2B), y.fc2_b),
    }
}

/// The uploads of the first `n` layers.
pub open spec fn layers_setup(
    c: Config,
    side: Map<(usize, Role), EntryView>,
    ys: Seq<LayerView>,
    m: WeightMode,
    down: WeightMode,
) -> Seq<Setup>
    decreases ys.len(),
{
    if ys.len() == 0 {
        Seq::empty()
    } else {
        layers_setup(c, side, ys.drop_last(), m, down) + layer_setup(
            c,
            side,
            (ys.len() - 1) as usize,
            ys.last(),
            m,
            down,
        )
    }
}

/// The uploads outside the layers.
pub open spec fn tables_setup(m: ModelView, embed: WeightMode) -> Seq<Setup> {
    let c = m.config;
    let (e, v) = (c.n_embd, c.n_vocab);
    seq![
        Setup::Matrix {
            w: stored(Tensor::Wte, embed),
            tensor: Tensor::Wte,
            mode: embed,
            n_in: e,
            n_out: v,
        },
    ] + (if m.lm_head.len() == 0 {
        Seq::empty()
    } else {
        seq![
            Setup::Matrix {
                w: stored(Tensor::LmHead, embed),
                tensor: Tensor::LmHead,
                mode: embed,
                n_in: e,
                n_out: v,
            },
        ]
    }) + seq![
        if m.wpe.len() == 0 {
            Setup::Zeros { buf: Buf::Wpe, elem: Elem::Single, len: (c.n_ctx * e) as usize }
        } else {
            Setup::Vector(Buf::Wpe)
        },
        Setup::Vector(Buf::LnfG),
    ] + optional(Buf::LnfB, m.lnf_b)
}

/// One part of the cache, for every layer.
pub open spec fn cache_part(n_layer: int, part: KvPart, elem: Elem, len: int) -> Seq<Setup> {
    Seq::new(
        n_layer as nat,
        |l: int| Setup::Zeros { buf: Buf::Kv(l as usize, part), elem, len: len as usize },
    )
}

/// The key-value cache.
pub open spec fn cache_setup(c: Config, kv8: bool) -> Seq<Setup> {
    let n = c.n_layer as int;
    let wide = c.n_ctx * c.kv_width();
    let narrow = c.n_ctx * c.n_kv_head;
    if kv8 {
        cache_part(n, KvPart::K, Elem::Byte, wide) + cache_part(n, KvPart::V, Elem::Byte, wide)
            + cache_part(n, KvPart::Ks, Elem::Single, narrow) + cache_part(
            n,
            KvPart::Vs,
            Elem::Single,
            narrow,
        ) + cache_part(n, KvPart::Kb, Elem::Single, narrow) + cache_part(
            n,
            KvPart::Vb,
            Elem::Single,
            narrow,
        )
    } else {
        cache_part(n, KvPart::K, Elem::Single, wide) + cache_part(n, KvPart::V, Elem::Single, wide)
    }
}

/// A scratch buffer of single-precision numbers.
pub open spec fn singles(buf: Buf, len: int) -> Setup {
    Setup::Zeros { buf, elem: Elem::Single, len: len as usize }
}

/// A scratch buffer of words.
pub open spec fn words(buf: Buf, len: int) -> Setup {
    Setup::Zeros { buf, elem: Elem::Word, len: len as usize }
}

/// The scratch buffers. The activation scratch is sized for the widest rows that
/// are quantized, those of the MLP.
pub open spec fn scratch_setup(c: Config, ag: int) -> Seq<Setup> {
    let (e, v, inter, t) = (c.n_embd as int, c.n_vocab as int, c.n_inter as int, c.n_ctx as int);
    seq![
        singles(Buf::X, e),
        singles(Buf::Xb, e),
        singles(Buf::Qkv, c.qkv_width()),
        singles(Buf::Attn, c.q_width()),
        singles(Buf::H, inter),
        singles(Buf::H2, inter),
        singles(Buf::ZeroBias, v),
        singles(Buf::Logits, v),
        words(Buf::BatchTok, t),
        singles(Buf::BatchX, t * e),
        singles(Buf::BatchXb, t * e),
        singles(Buf::BatchQkv, t * c.qkv_width()),
        singles(Buf::BatchAttn, t * c.q_width()),
        singles(Buf::BatchH, t * inter),
        singles(Buf::BatchH2, t * inter),
        singles(Buf::BatchLogits, MAX_SPEC_TOKENS * v),
        words(Buf::BatchArgmax, MAX_SPEC_TOKENS as int),
        words(Buf::ActQ, t * inter / 4),
        singles(Buf::ActScale, t * inter / ag),
        words(Buf::ActSum, t * inter / ag),
        words(Buf::GraphTok, 1),
        words(Buf::GraphPos, 1),
    ]
}

/// All allocations and uploads, in order.
pub open spec fn model_setup(
    m: ModelView,
    mode: WeightMode,
    kv8: bool,
    side: Map<(usize, Role), EntryView>,
    embed_int8: bool,
    ffn_down_int8: bool,
) -> Seq<Setup> {
    let (embed, down) = tiers(mode, embed_int8, ffn_down_int8);
    layers_setup(m.config, side, m.layers, mode, down) + tables_setup(m, embed) + cache_setup(
        m.config,
        kv8,
    ) + scratch_setup(m.config, group_width(m.config.arch))
}

/// The first matrix in a list whose input width its mode cannot store.
pub open spec fn first_bad(s: Seq<Setup>) -> Option<(WeightMode, usize)>
    decreases s.len(),
{
    if s.len() == 0 {
        None
    } else if first_bad(s.drop_last()) is Some {
        first_bad(s.drop_last())
    } else {
        match s.last() {
            Setup::Matrix { w, tensor, mode, n_in, n_out } => if mode_takes(mode, n_in as int) {
                None
            } else {
                Some((mode, n_in))
            },
            _ => None,
        }
    }
}

/// The first matrix in a list whose input width its mode cannot store.
fn find_bad(s: &[Setup]) -> (r: Option<(WeightMode, usize)>)
    ensures
        r == first_bad(s@),
{
    let mut i: usize = 0;
    assert(s@.take(0) =~= Seq::empty());
    while i < s.len()
        invariant
            i <= s.len(),
            first_bad(s@.take(i as int)) is None,
        decreases s.len() - i,
    {
        proof {
            let t = s@.take(i + 1);
            assert(t.drop_last() =~= s@.take(i as int));
            assert(t.last() == s@[i as int]);
        }
        match s[i] {
            Setup::Matrix { w, tensor, mode, n_in, n_out } => {
                if !mode_accepts(mode, n_in) {
                    proof {
                        lemma_bad_stays(s@, i + 1);
                    }
                    return Some((mode, n_in));
                }
            },
            _ => {},
        }
        i = i + 1;
    }
    assert(s@.take(i as int) =~= s@);
    None
}

/// What is wrong with the front of a list is what is wrong with the list.
proof fn lemma_bad_stays(s: Seq<Setup>, k: int)
    requires
        0 <= k <= s.len(),
        first_bad(s.take(k)) is Some,
    ensures
        first_bad(s) == first_bad(s.take(k)),
    decreases s.len() - k,
{
    if k < s.len() {
        let t = s.take(k + 1);
        assert(t.drop_last() =~= s.take(k));
        lemma_bad_stays(s, k + 1);
    } else {
        assert(s.take(k) =~= s);
    }
}

/// Stores a linear.
fn add_linear(
    out: &mut Vec<Setup>,
    side: Option<&Sidecar>,
    l: usize,
    role: Role,
    m: WeightMode,
    n_in: usize,
    n_out: usize,
) -> (w: Weights)
    requires
        side matches Some(s) ==> s.wf(),
    ensures
        w == linear_weights(held(side), l, role, m),
        final(out)@ == old(out)@.push(linear_setup(held(side), l, role, m, n_in, n_out)),
{
    let t: Tensor = Tensor::Linear(l, role);
    match side {
        Some(s) => {
            match s.get(l, role) {
                Some(e) => {
                    let perm: Option<Buf> = if is_identity(&e.perm) {
                        None
                    } else {
                        Some(Buf::Matrix(t, Plane::Perm))
                    };
                    let w = Weights::Int4 {
                        q: Buf::Matrix(t, Plane::Values),
                        scales: Buf::Matrix(t, Plane::Scales),
                        perm,
                    };
                    out.push(Setup::Entry { w, layer: l, role });
                    return w;
                },
                None => {},
            }
        },
        None => {},
    }
    let w = store_as(t, m);
    out.push(Setup::Matrix { w, tensor: t, mode: m, n_in, n_out });
    w
}

/// Stores a vector that the model may leave out.
fn add_optional(out: &mut Vec<Setup>, buf: Buf, t: &Vec<u32>) -> (b: Option<Buf>)
    ensures
        b == optional_buf(buf, t@),
        final(out)@ == old(out)@ + optional(buf, t@),
{
    if t.len() == 0 {
        assert(out@ =~= old(out)@ + optional(buf, t@));
        None
    } else {
        out.push(Setup::Vector(buf));
        assert(out@ =~= old(out)@ + optional(buf, t@));
        Some(buf)
    }
}

/// Stores a layer's attention: its two linears and the two biases of its norms.
fn add_attn(
    out: &mut Vec<Setup>,
    c: &Config,
    side: Option<&Sidecar>,
    l: usize,
    y: &Layer,
    m: WeightMode,
) -> (g: (Option<Buf>, Weights, Weights))
    requires
        side matches Some(s) ==> s.wf(),
        c.qkv_width() <= usize::MAX,
    ensures
        g.0 == optional_buf(Buf::Vector(l, VecName::Ln1B), y@.ln1_b),
        g.1 == linear_weights(held(side), l, Role::Qkv, m),
        g.2 == linear_weights(held(side), l, Role::Proj, m),
        final(out)@ == old(out)@ + attn_setup(*c, held(side), l, y@, m),
{
    proof {
        crate::engine::lemma_config_widths(*c);
    }
    let ghost before = out@;
    let (e, qd, qkvd): (usize, usize, usize) = (c.n_embd, c.q_dim(), c.qkv_dim());
    out.push(Setup::Vector(Buf::Vector(l, VecName::Ln1G)));
    let ln1_b = add_optional(out, Buf::Vector(l, VecName::Ln1B), &y.ln1_b);
    let qkv_w = add_linear(out, side, l, Role::Qkv, m, e, qkvd);
    out.push(Setup::Vector(Buf::Vector(l, VecName::QkvB)));
    let proj_w = add_linear(out, side, l, Role::Proj, m, qd, e);
    out.push(Setup::Vector(Buf::Vector(l, VecName::ProjB)));
    out.push(Setup::Vector(Buf::Vector(l, VecName::Ln2G)));
    assert(out@ =~= before + attn_setup(*c, held(side), l, y@, m));
    (ln1_b, qkv_w, proj_w)
}

proof fn lemma_setup_assoc(a: Seq<Setup>, b: Seq<Setup>, c: Seq<Setup>)
    ensures
        (a + b) + c == a + (b + c),
{
    assert((a + b) + c =~= a + (b + c));
}

proof fn lemma_push_as_add(a: Seq<Setup>, x: Setup)
    ensures
        a.push(x) == a + seq![x],
{
    assert(a.push(x) =~= a + seq![x]);
}

/// A layer's MLP as it is stored.
struct Mlp {
    ln2_b: Option<Buf>,
    fc_w: Weights,
    fc_b: Option<Buf>,
    up_w: Option<Weights>,
    fc2_w: Weights,
    fc2_b: Option<Buf>,
}

/// Stores a layer's MLP.
fn add_mlp(
    out: &mut Vec<Setup>,
    c: &Config,
    side: Option<&Sidecar>,
    l: usize,
    y: &Layer,
    m: WeightMode,
    down: WeightMode,
) -> (g: Mlp)
    requires
        side matches Some(s) ==> s.wf(),
    ensures
        g.ln2_b == optional_buf(Buf::Vector(l, VecName::Ln2B), y@.ln2_b),
        g.fc_w == linear_weights(held(side), l, Role::Fc, m),
        g.fc_b == optional_buf(Buf::Vector(l, VecName::FcB), y@.fc_b),
        g.up_w == (if y@.up_w.len() == 0 {
            None
        } else {
            Some(linear_weights(held(side), l, Role::Up, m))
        }),
        g.fc2_w == linear_weights(held(side), l, Role::Fc2, down),
        g.fc2_b == optional_buf(Buf::Vector(l, VecName::Fc2B), y@.fc2_b),
        final(out)@ == old(out)@ + mlp_setup(*c, held(side), l, y@, m, down),
{
    let ghost before = out@;
    let (e, inter): (usize, usize) = (c.n_embd, c.n_inter);
    let ln2_b = add_optional(out, Buf::Vector(l, VecName::Ln2B), &y.ln2_b);
    let fc_w = add_linear(out, side, l, Role::Fc, m, e, inter);
    let fc_b = add_optional(out, Buf::Vector(l, VecName::FcB), &y.fc_b);
    let ghost s1 = out@;
    let up_w: Option<Weights> = if y.up_w.len() == 0 {
        None
    } else {
        Some(add_linear(out, side, l, Role::Up, m, e, inter))
    };
    let ghost s2 = out@;
    let fc2_w = add_linear(out, side, l, Role::Fc2, down, inter, e);
    let fc2_b = add_optional(out, Buf::Vector(l, VecName::Fc2B), &y.fc2_b);
    proof {
        let o1 = optional(Buf::Vector(l, VecName::Ln2B), y.ln2_b@);
        let f1 = seq![linear_setup(held(side), l, Role::Fc, m, e, inter)];
        let o2 = optional(Buf::Vector(l, VecName::FcB), y.fc_b@);
        let u = if y.up_w@.len() == 0 {
            Seq::empty()
        } else {
            seq![linear_setup(held(side), l, Role::Up, m, e, inter)]
        };
        let f2 = seq![linear_setup(held(side), l, Role::Fc2, down, inter, e)];
        let o3 = optional(Buf::Vector(l, VecName::Fc2B), y.fc2_b@);
        lemma_push_as_add(before + o1, f1[0]);
        lemma_setup_assoc(before, o1, f1);
        lemma_setup_assoc(before, o1 + f1, o2);
        assert(s2 == s1 + u) by {
            if y.up_w@.len() == 0 {
                assert(s1 + u =~= s1);
            } else {
                lemma_push_as_add(s1, u[0]);
            }
        }
        lemma_setup_assoc(before, o1 + f1 + o2, u);
        lemma_push_as_add(s2, f2[0]);
        lemma_setup_assoc(before, o1 + f1 + o2 + u, f2);
        lemma_setup_assoc(before, o1 + f1 + o2 + u + f2, o3);
    }
    Mlp { ln2_b, fc_w, fc_b, up_w, fc2_w, fc2_b }
}

/// Stores a layer.
fn add_layer(
    out: &mut Vec<Setup>,
    c: &Config,
    side: Option<&Sidecar>,
    l: usize,
    y: &Layer,
    m: WeightMode,
    down: WeightMode,
) -> (g: LayerG)
    requires
        side matches Some(s) ==> s.wf(),
        c.qkv_width() <= usize::MAX,
    ensures
        g == layer_stored(held(side), l, y@, m, down),
        final(out)@ == old(out)@ + layer_setup(*c, held(side), l, y@, m, down),
{
    let ghost before = out@;
    let (ln1_b, qkv_w, proj_w) = add_attn(out, c, side, l, y, m);
    let k = add_mlp(out, c, side, l, y, m, down);
    proof {
        let a = attn_setup(*c, held(side), l, y@, m);
        let b = mlp_setup(*c, held(side), l, y@, m, down);
        assert((before + a) + b =~= before + (a + b));
    }
    LayerG {
        ln1_g: Buf::Vector(l, VecName::Ln1G),
        ln1_b,
        qkv_w,
        qkv_b: Buf::Vector(l, VecName::QkvB),
        proj_w,
        proj_b: Buf::Vector(l, VecName::ProjB),
        ln2_g: Buf::Vector(l, VecName::Ln2G),
        ln2_b: k.ln2_b,
        fc_w: k.fc_w,
        fc_b: k.fc_b,
        up_w: k.up_w,
        fc2_w: k.fc2_w,
        fc2_b: k.fc2_b,
    }
}

/// Stores what the model has outside its layers.
fn add_tables(out: &mut Vec<Setup>, model: &Model, embed: WeightMode) -> (r: (
    Weights,
    Option<Weights>,
    Option<Buf>,
))
    requires
        model.config.n_ctx * model.config.n_embd <= usize::MAX,
    ensures
        r.0 == stored(Tensor::Wte, embed),
        r.1 == (if model@.lm_head.len() == 0 {
            None
        } else {
            Some(stored(Tensor::LmHead, embed))
        }),
        r.2 == optional_buf(Buf::LnfB, model@.lnf_b),
        final(out)@ == old(out)@ + tables_setup(model@, embed),
{
    let c = &model.config;
    let ghost before = out@;
    let wte_t = store_as(Tensor::Wte, embed);
    out.push(
        Setup::Matrix {
            w: wte_t,
            tensor: Tensor::Wte,
            mode: embed,
            n_in: c.n_embd,
            n_out: c.n_vocab,
        },
    );
    let lm_head_t: Option<Weights> = if model.lm_head.len() == 0 {
        None
    } else {
        let w = store_as(Tensor::LmHead, embed);
        out.push(
            Setup::Matrix {
                w,
                tensor: Tensor::LmHead,
                mode: embed,
                n_in: c.n_embd,
                n_out: c.n_vocab,
            },
        );
        Some(w)
    };
    if model.wpe.len() == 0 {
        proof {
            assert(0 <= c.n_ctx * c.n_embd) by (nonlinear_arith);
        }
        out.push(Setup::Zeros { buf: Buf::Wpe, elem: Elem::Single, len: c.n_ctx * c.n_embd });
    } else {
        out.push(Setup::Vector(Buf::Wpe));
    }
    out.push(Setup::Vector(Buf::LnfG));
    let lnf_b = add_optional(out, Buf::LnfB, &model.lnf_b);
    assert(out@ =~= before + tables_setup(model@, embed));
    (wte_t, lm_head_t, lnf_b)
}

/// Allocates one part of the cache for every layer.
fn add_cache_part(out: &mut Vec<Setup>, n_layer: usize, part: KvPart, elem: Elem, len: usize)
    ensures
        final(out)@ == old(out)@ + cache_part(n_layer as int, part, elem, len as int),
{
    let ghost before = out@;
    let ghost all = cache_part(n_layer as int, part, elem, len as int);
    let mut l: usize = 0;
    assert(all.take(0) =~= Seq::empty());
    assert(out@ =~= before + all.take(0));
    while l < n_layer
        invariant
            l <= n_layer,
            all == cache_part(n_layer as int, part, elem, len as int),
            out@ == before + all.take(l as int),
        decreases n_layer - l,
    {
        out.push(Setup::Zeros { buf: Buf::Kv(l, part), elem, len });
        l = l + 1;
        assert(out@ =~= before + all.take(l as int));
    }
    assert(all.take(l as int) =~= all);
}

fn add_singles(out: &mut Vec<Setup>, buf: Buf, len: usize)
    ensures
        final(out)@ == old(out)@.push(singles(buf, len as int)),
{
    out.push(Setup::Zeros { buf, elem: Elem::Single, len });
}

fn add_words(out: &mut Vec<Setup>, buf: Buf, len: usize)
    ensures
        final(out)@ == old(out)@.push(words(buf, len as int)),
{
    out.push(Setup::Zeros { buf, elem: Elem::Word, len });
}

/// Allocates the cache.
fn add_cache(out: &mut Vec<Setup>, c: &Config, kv8: bool)
    requires
        fits_device(*c),
    ensures
        final(out)@ == old(out)@ + cache_setup(*c, kv8),
{
    let ghost before = out@;
    proof {
        crate::engine::lemma_config_widths(*c);
        lemma_scaled(c.n_ctx as int, c.kv_width(), c.qkv_width());
        assert(0 <= c.n_ctx * c.n_kv_head) by (nonlinear_arith);
    }
    let n: usize = c.n_layer;
    let wide: usize = c.n_ctx * c.kv_dim();
    let narrow: usize = c.n_ctx * c.n_kv_head;
    if kv8 {
        add_cache_part(out, n, KvPart::K, Elem::Byte, wide);
        add_cache_part(out, n, KvPart::V, Elem::Byte, wide);
        add_cache_part(out, n, KvPart::Ks, Elem::Single, narrow);
        add_cache_part(out, n, KvPart::Vs, Elem::Single, narrow);
        add_cache_part(out, n, KvPart::Kb, Elem::Single, narrow);
        add_cache_part(out, n, KvPart::Vb, Elem::Single, narrow);
    } else {
        add_cache_part(out, n, KvPart::K, Elem::Single, wide);
        add_cache_part(out, n, KvPart::V, Elem::Single, wide);
    }
    assert(out@ =~= before + cache_setup(*c, kv8));
}

proof fn lemma_scaled(n: int, a: int, b: int)
    requires
        0 <= n,
        0 <= a <= b,
    ensures
        0 <= n * a <= n * b,
{
    assert(0 <= n * a <= n * b) by (nonlinear_arith)
        requires
            0 <= n,
            0 <= a <= b,
    ;
}

/// Allocates the scratch buffers.
fn add_scratch(out: &mut Vec<Setup>, c: &Config, ag: usize)
    requires
        fits_device(*c),
        ag > 0,
    ensures
        final(out)@ == old(out)@ + scratch_setup(*c, ag as int),
{
    let ghost before = out@;
    proof {
        crate::engine::lemma_config_widths(*c);
        lemma_scaled(c.n_ctx as int, c.q_width(), c.qkv_width());
        lemma_scaled(c.n_ctx as int, c.n_embd as int, c.n_embd as int);
        lemma_scaled(c.n_ctx as int, c.n_inter as int, c.n_inter as int);
    }
    let (e, v, inter, t): (usize, usize, usize, usize) = (c.n_embd, c.n_vocab, c.n_inter, c.n_ctx);
    let (qd, qkvd): (usize, usize) = (c.q_dim(), c.qkv_dim());
    add_singles(out, Buf::X, e);
    add_singles(out, Buf::Xb, e);
    add_singles(out, Buf::Qkv, qkvd);
    add_singles(out, Buf::Attn, qd);
    add_singles(out, Buf::H, inter);
    add_singles(out, Buf::H2, inter);
    add_singles(out, Buf::ZeroBias, v);
    add_singles(out, Buf::Logits, v);
    add_words(out, Buf::BatchTok, t);
    add_singles(out, Buf::BatchX, t * e);
    add_singles(out, Buf::BatchXb, t * e);
    add_singles(out, Buf::BatchQkv, t * qkvd);
    add_singles(out, Buf::BatchAttn, t * qd);
    add_singles(out, Buf::BatchH, t * inter);
    add_singles(out, Buf::BatchH2, t * inter);
    add_singles(out, Buf::BatchLogits, MAX_SPEC_TOKENS * v);
    add_words(out, Buf::BatchArgmax, MAX_SPEC_TOKENS);
    add_words(out, Buf::ActQ, t * inter / 4);
    add_singles(out, Buf::ActScale, t * inter / ag);
    add_words(out, Buf::ActSum, t * inter / ag);
    add_words(out, Buf::GraphTok, 1);
    add_words(out, Buf::GraphPos, 1);
    assert(out@ =~= before + scratch_setup(*c, ag as int));
}

/// Some held linear has a channel order of its own.
pub open spec fn reorders(side: Map<(usize, Role), EntryView>) -> bool {
    exists|k: (usize, Role)| #[trigger] side.contains_key(k) && !identity_perm(side[k].perm)
}

impl Engine {
    /// The engine stores the model in the mode, its linears from the sidecar where it
    /// holds them.
    pub open spec fn opened(
        self,
        m: ModelView,
        mode: WeightMode,
        kv8: bool,
        side: Map<(usize, Role), EntryView>,
        embed_int8: bool,
        ffn_down_int8: bool,
    ) -> bool {
        let (embed, down) = tiers(mode, embed_int8, ffn_down_int8);
        &&& self.wf()
        &&& self.config == m.config
        &&& self.wte_t == stored(Tensor::Wte, embed)
        &&& self.lm_head_t == (if m.lm_head.len() == 0 {
            None
        } else {
            Some(stored(Tensor::LmHead, embed))
        })
        &&& self.layers@ == Seq::new(
            m.config.n_layer as nat,
            |l: int| layer_stored(side, l as usize, m.layers[l], mode, down),
        )
        &&& self.lnf_g == Buf::LnfG
        &&& self.lnf_b == optional_buf(Buf::LnfB, m.lnf_b)
        &&& self.kv8 == kv8
        &&& self.gptq_act_order == reorders(side)
        &&& !self.captured
    }

    /// Opens a model in a mode, without sidecar and mixed precision.
    pub fn new(model: &Model, mode: WeightMode, kv8: bool) -> (r: Result<
        (Engine, Vec<Setup>),
        EngineError,
    >)
        requires
            model_sized(model@),
            model@.config.n_ctx <= MAX_CTX ==> fits_device(model@.config),
        ensures
            match r {
                Ok((e, s)) => {
                    let none = Map::<(usize, Role), EntryView>::empty();
                    &&& model@.config.n_ctx <= MAX_CTX
                    &&& s@ == model_setup(model@, mode, kv8, none, false, false)
                    &&& first_bad(s@) is None
                    &&& e.opened(model@, mode, kv8, none, false, false)
                },
                Err(EngineError::ContextTooLong(n)) => n == model@.config.n_ctx && n > MAX_CTX,
                Err(EngineError::BadWidth(m, n)) => model@.config.n_ctx <= MAX_CTX && first_bad(
                    model_setup(model@, mode, kv8, Map::empty(), false, false),
                ) == Some((m, n)),
            },
    {
        Engine::new_quant(model, mode, kv8, None, false, false)
    }

    /// Opens a model: how it is stored, and the allocations and uploads that put it
    /// there. `gptq` supplies pre-quantized linears; the two flags keep embeddings
    /// and head, or the MLP's output projections, at int8.
    pub fn new_quant(
        model: &Model,
        mode: WeightMode,
        kv8: bool,
        gptq: Option<&Sidecar>,
        embed_int8: bool,
        ffn_down_int8: bool,
    ) -> (r: Result<(Engine, Vec<Setup>), EngineError>)
        requires
            model_sized(model@),
            model@.config.n_ctx <= MAX_CTX ==> fits_device(model@.config),
            gptq matches Some(s) ==> s.wf(),
        ensures
            match r {
                Ok((e, s)) => {
                    &&& model@.config.n_ctx <= MAX_CTX
                    &&& s@ == model_setup(
                        model@,
                        mode,
                        kv8,
                        held(gptq),
                        embed_int8,
                        ffn_down_int8,
                    )
                    &&& first_bad(s@) is None
                    &&& e.opened(model@, mode, kv8, held(gptq), embed_int8, ffn_down_int8)
                },
                Err(EngineError::ContextTooLong(n)) => n == model@.config.n_ctx && n > MAX_CTX,
                Err(EngineError::BadWidth(m, n)) => model@.config.n_ctx <= MAX_CTX && first_bad(
                    model_setup(model@, mode, kv8, held(gptq), embed_int8, ffn_down_int8),
                ) == Some((m, n)),
            },
    {
        let c: Config = model.config;
        if c.n_ctx > MAX_CTX {
            return Err(EngineError::ContextTooLong(c.n_ctx));
        }
        let (embed, down) = mixed_tiers(mode, embed_int8, ffn_down_int8);
        let ag: usize = act_group(c.arch);
        let mut out: Vec<Setup> = Vec::new();
        let mut layers: Vec<LayerG> = Vec::new();
        let ghost side = held(gptq);
        let ghost ys = model@.layers;
        let ghost want = Seq::new(
            c.n_layer as nat,
            |l: int| layer_stored(side, l as usize, model@.layers[l], mode, down),
        );
        let mut l: usize = 0;
        assert(ys.take(0) =~= Seq::empty());
        assert(out@ =~= layers_setup(c, side, ys.take(0), mode, down));
        while l < model.layers.len()
            invariant
                l <= model.layers.len(),
                c == model.config,
                c.qkv_width() <= usize::MAX,
                gptq matches Some(s) ==> s.wf(),
                side == held(gptq),
                ys == layer_views(model.layers@),
                layers@.len() == l,
                forall|j: int|
                    0 <= j < l ==> #[trigger] layers@[j] == layer_stored(
                        side,
                        j as usize,
                        ys[j],
                        mode,
                        down,
                    ),
                out@ == layers_setup(c, side, ys.take(l as int), mode, down),
            decreases model.layers.len() - l,
        {
            let g = add_layer(&mut out, &c, gptq, l, &model.layers[l], mode, down);
            proof {
                let t = ys.take(l + 1);
                assert(t.drop_last() =~= ys.take(l as int));
                assert(t.last() == model.layers@[l as int]@);
            }
            layers.push(g);
            l = l + 1;
        }
        proof {
            assert(ys.take(l as int) =~= ys);
            assert(layers@ =~= want);
        }
        let (wte_t, lm_head_t, lnf_b) = add_tables(&mut out, model, embed);
        add_cache(&mut out, &c, kv8);
        add_scratch(&mut out, &c, ag);
        match find_bad(&out) {
            Some((m, n)) => {
                return Err(EngineError::BadWidth(m, n));
            },
            None => {},
        }
        let gptq_act_order: bool = match gptq {
            Some(s) => s.has_act_order(),
            None => false,
        };
        let e = Engine {
            config: c,
            ag,
            wte_t,
            lm_head_t,
            layers,
            lnf_g: Buf::LnfG,
            lnf_b,
            kv8,
            gptq_act_order,
            captured: false,
        };
        Ok((e, out))
    }
}

} // verus!
