//! What goes into the buffers of an opened model: the tensor behind each upload.

use crate::gptq::{EntryView, Role};
use crate::launch::{Buf, Tensor, VecName};
use crate::layout::{is_transpose, transpose};
use crate::model::{layer_sized, model_sized, Config, Layer, LayerView, Model, ModelView};
use crate::quant::{group_width, tiers, WeightMode};
use crate::setup::{
    attn_setup, cache_setup, layer_setup, layers_setup, linear_setup, mlp_setup, model_setup,
    optional, scratch_setup, tables_setup, Setup,
};
use vstd::prelude::*;

verus! {

/// The vector of a layer.
pub open spec fn layer_vector(y: LayerView, name: VecName) -> Seq<u32> {
    match name {
        VecName::Ln1G => y.ln1_g,
        VecName::Ln1B => y.ln1_b,
        VecName::QkvB => y.qkv_b,
        VecName::ProjB => y.proj_b,
        VecName::Ln2G => y.ln2_g,
        VecName::Ln2B => y.ln2_b,
        VecName::FcB => y.fc_b,
        VecName::Fc2B => y.fc2_b,
    }
}

/// The linear of a layer.
pub open spec fn layer_linear(y: LayerView, role: Role) -> Seq<u32> {
    match role {
        Role::Qkv => y.qkv_w,
        Role::Proj => y.proj_w,
        Role::Fc => y.fc_w,
        Role::Up => y.up_w,
        Role::Fc2 => y.fc2_w,
    }
}

/// The vector or table of the model that a buffer is filled from, nothing for a buffer
/// that is filled otherwise.
pub open spec fn vector_data(m: ModelView, b: Buf) -> Option<Seq<u32>> {
    match b {
        Buf::Wpe => Some(m.wpe),
        Buf::LnfG => Some(m.lnf_g),
        Buf::LnfB => Some(m.lnf_b),
        Buf::Vector(l, name) => if l < m.layers.len() {
            Some(layer_vector(m.layers[l as int], name))
        } else {
            None
        },
        _ => None,
    }
}

/// The model has the tensor as an `[n_in, n_out]` matrix.
pub open spec fn has_matrix(m: ModelView, t: Tensor, n_in: int, n_out: int) -> bool {
    match t {
        Tensor::Wte => m.wte.len() == n_out * n_in,
        Tensor::LmHead => m.lm_head.len() == n_out * n_in,
        Tensor::Linear(l, role) => l < m.layers.len() && layer_linear(
            m.layers[l as int],
            role,
        ).len() == n_in * n_out,
        Tensor::Bench => false,
    }
}

/// The elements that the tensor is stored from: the tables are turned round, so that
/// every stored matrix has its input channels as rows.
pub open spec fn is_matrix_data(m: ModelView, t: Tensor, n_in: int, n_out: int, v: Seq<u32>) -> bool {
    match t {
        Tensor::Wte => is_transpose(v, m.wte, n_out, n_in),
        Tensor::LmHead => is_transpose(v, m.lm_head, n_out, n_in),
        Tensor::Linear(l, role) => v == layer_linear(m.layers[l as int], role),
        Tensor::Bench => false,
    }
}

fn vector_in<'a>(y: &'a Layer, name: VecName) -> (v: &'a Vec<u32>)
    ensures
        v@ == layer_vector(y@, name),
{
    match name {
        VecName::Ln1G => &y.ln1_g,
        VecName::Ln1B => &y.ln1_b,
        VecName::QkvB => &y.qkv_b,
        VecName::ProjB => &y.proj_b,
        VecName::Ln2G => &y.ln2_g,
        VecName::Ln2B => &y.ln2_b,
        VecName::FcB => &y.fc_b,
        VecName::Fc2B => &y.fc2_b,
    }
}

/// The linear of a layer.
pub fn linear_in<'a>(y: &'a Layer, role: Role) -> (v: &'a Vec<u32>)
    ensures
        v@ == layer_linear(y@, role),
{
    match role {
        Role::Qkv => &y.qkv_w,
        Role::Proj => &y.proj_w,
        Role::Fc => &y.fc_w,
        Role::Up => &y.up_w,
        Role::Fc2 => &y.fc2_w,
    }
}

/// The vector or table of the model that a buffer is filled from.
pub fn vector_of<'a>(model: &'a Model, b: Buf) -> (r: Option<&'a Vec<u32>>)
    ensures
        match r {
            Some(v) => vector_data(model@, b) == Some(v@),
            None => vector_data(model@, b) is None,
        },
{
    match b {
        Buf::Wpe => Some(&model.wpe),
        Buf::LnfG => Some(&model.lnf_g),
        Buf::LnfB => Some(&model.lnf_b),
        Buf::Vector(l, name) => {
            if l < model.layers.len() {
                Some(vector_in(&model.layers[l], name))
            } else {
                None
            }
        },
        _ => None,
    }
}

/// The elements that a tensor is stored from, nothing where the model does not have it as
/// an `[n_in, n_out]` matrix.
pub fn matrix_of(model: &Model, t: Tensor, n_in: usize, n_out: usize) -> (r: Option<Vec<u32>>)
    ensures
        match r {
            Some(v) => has_matrix(model@, t, n_in as int, n_out as int) && v@.len() == n_in * n_out
                && is_matrix_data(model@, t, n_in as int, n_out as int, v@),
            None => !has_matrix(model@, t, n_in as int, n_out as int),
        },
{
    let w: &Vec<u32> = match t {
        Tensor::Wte => &model.wte,
        Tensor::LmHead => &model.lm_head,
        Tensor::Linear(l, role) => {
            if l >= model.layers.len() {
                return None;
            }
            linear_in(&model.layers[l], role)
        },
        Tensor::Bench => {
            return None;
        },
    };
    proof {
        assert(n_in * n_out == n_out * n_in) by (nonlinear_arith);
        assert(0 <= n_in * n_out <= u64::MAX * u64::MAX) by (nonlinear_arith)
            requires
                0 <= n_in <= u64::MAX,
                0 <= n_out <= u64::MAX,
        ;
    }
    if w.len() as u128 != n_in as u128 * n_out as u128 {
        return None;
    }
    match t {
        Tensor::Linear(l, role) => {
            let v: Vec<u32> = w.clone();
            assert(v@ =~= w@);
            Some(v)
        },
        _ => Some(transpose(w, n_out, n_in)),
    }
}

/// The upload has its data: a tensor of the model in the size that is asked for, or an
/// entry of the sidecar.
pub open spec fn has_data(m: ModelView, side: Map<(usize, Role), EntryView>, s: Setup) -> bool {
    match s {
        Setup::Zeros { buf, elem, len } => true,
        Setup::Vector(b) => vector_data(m, b) is Some,
        Setup::Matrix { w, tensor, mode, n_in, n_out } => has_matrix(
            m,
            tensor,
            n_in as int,
            n_out as int,
        ),
        Setup::Entry { w, layer, role } => side.contains_key((layer, role)),
    }
}

/// Every upload of the list has its data.
pub open spec fn all_have_data(
    m: ModelView,
    side: Map<(usize, Role), EntryView>,
    s: Seq<Setup>,
) -> bool {
    forall|i: int| 0 <= i < s.len() ==> has_data(m, side, #[trigger] s[i])
}

proof fn lemma_joined(
    m: ModelView,
    side: Map<(usize, Role), EntryView>,
    a: Seq<Setup>,
    b: Seq<Setup>,
)
    requires
        all_have_data(m, side, a),
        all_have_data(m, side, b),
    ensures
        all_have_data(m, side, a + b),
{
}

proof fn lemma_layer(
    m: ModelView,
    side: Map<(usize, Role), EntryView>,
    l: usize,
    mode: WeightMode,
    down: WeightMode,
)
    requires
        model_sized(m),
        l < m.layers.len(),
    ensures
        all_have_data(m, side, layer_setup(m.config, side, l, m.layers[l as int], mode, down)),
{
    let c = m.config;
    let y = m.layers[l as int];
    assert(layer_sized(c, y));
    assert(0 <= c.q_width() <= c.qkv_width()) by {
        lemma_widths(c);
    }
    let a1 = seq![Setup::Vector(Buf::Vector(l, VecName::Ln1G))];
    let a2 = optional(Buf::Vector(l, VecName::Ln1B), y.ln1_b);
    let a3 = seq![
        linear_setup(side, l, Role::Qkv, mode, c.n_embd, c.qkv_width() as usize),
        Setup::Vector(Buf::Vector(l, VecName::QkvB)),
        linear_setup(side, l, Role::Proj, mode, c.q_width() as usize, c.n_embd),
        Setup::Vector(Buf::Vector(l, VecName::ProjB)),
        Setup::Vector(Buf::Vector(l, VecName::Ln2G)),
    ];
    lemma_joined(m, side, a1, a2);
    lemma_joined(m, side, a1 + a2, a3);
    assert(attn_setup(c, side, l, y, mode) == a1 + a2 + a3);
    let b1 = optional(Buf::Vector(l, VecName::Ln2B), y.ln2_b);
    let b2 = seq![linear_setup(side, l, Role::Fc, mode, c.n_embd, c.n_inter)];
    let b3 = optional(Buf::Vector(l, VecName::FcB), y.fc_b);
    let b4 = if y.up_w.len() == 0 {
        Seq::empty()
    } else {
        seq![linear_setup(side, l, Role::Up, mode, c.n_embd, c.n_inter)]
    };
    let b5 = seq![linear_setup(side, l, Role::Fc2, down, c.n_inter, c.n_embd)];
    let b6 = optional(Buf::Vector(l, VecName::Fc2B), y.fc2_b);
    lemma_joined(m, side, b1, b2);
    lemma_joined(m, side, b1 + b2, b3);
    lemma_joined(m, side, b1 + b2 + b3, b4);
    lemma_joined(m, side, b1 + b2 + b3 + b4, b5);
    lemma_joined(m, side, b1 + b2 + b3 + b4 + b5, b6);
    assert(mlp_setup(c, side, l, y, mode, down) == b1 + b2 + b3 + b4 + b5 + b6);
    lemma_joined(m, side, attn_setup(c, side, l, y, mode), mlp_setup(c, side, l, y, mode, down));
}

proof fn lemma_widths(c: Config)
    ensures
        0 <= c.q_width() <= c.qkv_width(),
{
    assert(0 <= c.n_head * c.head_dim) by (nonlinear_arith);
    assert(0 <= c.n_kv_head * c.head_dim) by (nonlinear_arith);
}

proof fn lemma_layers(
    m: ModelView,
    side: Map<(usize, Role), EntryView>,
    k: int,
    mode: WeightMode,
    down: WeightMode,
)
    requires
        model_sized(m),
        0 <= k <= m.layers.len(),
    ensures
        all_have_data(m, side, layers_setup(m.config, side, m.layers.take(k), mode, down)),
    decreases k,
{
    if k > 0 {
        lemma_layers(m, side, k - 1, mode, down);
        let ys = m.layers.take(k);
        assert(ys.drop_last() =~= m.layers.take(k - 1));
        assert(ys.last() == m.layers[k - 1]);
        lemma_layer(m, side, (k - 1) as usize, mode, down);
        lemma_joined(
            m,
            side,
            layers_setup(m.config, side, m.layers.take(k - 1), mode, down),
            layer_setup(m.config, side, (k - 1) as usize, ys.last(), mode, down),
        );
    }
}

proof fn lemma_tables(m: ModelView, side: Map<(usize, Role), EntryView>, embed: WeightMode)
    requires
        model_sized(m),
    ensures
        all_have_data(m, side, tables_setup(m, embed)),
{
}

proof fn lemma_cache(m: ModelView, side: Map<(usize, Role), EntryView>, kv8: bool)
    ensures
        all_have_data(m, side, cache_setup(m.config, kv8)),
{
    let s = cache_setup(m.config, kv8);
    assert forall|i: int| 0 <= i < s.len() implies has_data(m, side, #[trigger] s[i]) by {
        assert(s[i] is Zeros);
    }
}

/// Every upload of a model whose tensors have their sizes finds what it is to upload: a
/// tensor of the model in the shape that is asked for, or an entry of the sidecar.
pub proof fn uploads_have_their_data(
    m: ModelView,
    mode: WeightMode,
    kv8: bool,
    side: Map<(usize, Role), EntryView>,
    embed_int8: bool,
    ffn_down_int8: bool,
)
    requires
        model_sized(m),
    ensures
        all_have_data(m, side, model_setup(m, mode, kv8, side, embed_int8, ffn_down_int8)),
{
    let (embed, down) = tiers(mode, embed_int8, ffn_down_int8);
    let c = m.config;
    let layers = layers_setup(c, side, m.layers, mode, down);
    let tables = tables_setup(m, embed);
    let cache = cache_setup(c, kv8);
    assert(m.layers.take(m.layers.len() as int) =~= m.layers);
    lemma_layers(m, side, m.layers.len() as int, mode, down);
    lemma_tables(m, side, embed);
    lemma_cache(m, side, kv8);
    lemma_joined(m, side, layers, tables);
    lemma_joined(m, side, layers + tables, cache);
    lemma_joined(m, side, layers + tables + cache, scratch_setup(c, group_width(c.arch)));
}

} // verus!
