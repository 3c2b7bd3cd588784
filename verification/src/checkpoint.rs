//! Converting published checkpoints into models.
//!
//! A checkpoint is a safetensors file: named tensors in single precision or bfloat16.
//! GPT-2 stores its linears as `[n_in, n_out]` already; the rotary archs store
//! `[n_out, n_in]`, with query, key and value apart.

use crate::bytes::{bytes_halves, bytes_words, half_at, read_u32};
use crate::layout::transpose;
use crate::matrix::at;
use crate::model::{gpt2_config, qwen_config, tinyllama_config};
use crate::model::{zeros, Arch, Config, Layer, LayerView, Model, ModelView};
use crate::text::{decimal, push_decimal};
use safetensors::SafeTensors;
use vstd::prelude::*;
use vstd::slice::slice_subrange;
use vstd::string::StringExecFns;

verus! {

/// `safetensors::SafeTensors`: the tensors of a file, by name.
#[verifier::external_type_specification]
#[verifier::external_body]
pub struct ExSafeTensors<'data>(SafeTensors<'data>);

/// `safetensors::SafeTensorError`.
#[verifier::external_type_specification]
#[verifier::external_body]
pub struct ExSafeTensorError(safetensors::SafeTensorError);

/// How the elements of a tensor are stored.
#[derive(Debug, Clone, Copy, PartialEq, Eq, Structural)]
pub enum Store {
    Single,
    /// The upper half of a single-precision number.
    Brain,
    Other,
}

/// The tensors of an opened file: element type and bytes, by name.
pub uninterp spec fn tensors_of(st: SafeTensors<'_>) -> Map<Seq<char>, (Store, Seq<u8>)>;

/// The tensors that `SafeTensors::deserialize` finds in a file, `None` where it does
/// not accept the file.
pub uninterp spec fn safetensors_file(buf: Seq<u8>) -> Option<Map<Seq<char>, (Store, Seq<u8>)>>;

/// Calls `SafeTensors::deserialize`. The claim is that the bytes alone decide whether
/// the file is accepted and which tensors it holds; the file format is not stated.
#[verifier::external_body]
fn open_safetensors<'d>(buf: &'d [u8]) -> (r: Result<
    SafeTensors<'d>,
    safetensors::SafeTensorError,
>)
    ensures
        match r {
            Ok(st) => safetensors_file(buf@) == Some(tensors_of(st)),
            Err(e) => safetensors_file(buf@) is None,
        },
{
    SafeTensors::deserialize(buf)
}

/// Calls `SafeTensors::tensor` and takes element type and bytes of the view it
/// returns. The claim is that it finds the tensor of that name, and nothing where the
/// file holds none.
#[verifier::external_body]
fn find_tensor<'d>(st: &SafeTensors<'d>, name: &str) -> (r: Option<(Store, &'d [u8])>)
    ensures
        match r {
            Some(t) => tensors_of(*st).contains_key(name@) && tensors_of(*st)[name@] == (t.0, t.1@),
            None => !tensors_of(*st).contains_key(name@),
        },
{
    let view = st.tensor(name).ok()?;
    let store = match view.dtype() {
        safetensors::Dtype::F32 => Store::Single,
        safetensors::Dtype::BF16 => Store::Brain,
        _ => Store::Other,
    };
    Some((store, view.data()))
}

/// Why a checkpoint cannot be converted.
#[derive(Debug, PartialEq, Eq)]
pub enum ConvertError {
    /// The bytes are no safetensors file.
    BadCheckpoint,
    /// No tensor of that name.
    Missing(String),
    /// The tensor of that name has elements of another type.
    UnsupportedDtype(String),
    /// The matrix of that name has fewer elements than its shape.
    TooSmall(String),
}

/// What a `ConvertError` says.
pub enum ConvertErrorView {
    BadCheckpoint,
    Missing(Seq<char>),
    UnsupportedDtype(Seq<char>),
    TooSmall(Seq<char>),
}

impl View for ConvertError {
    type V = ConvertErrorView;

    open spec fn view(&self) -> ConvertErrorView {
        match self {
            ConvertError::BadCheckpoint => ConvertErrorView::BadCheckpoint,
            ConvertError::Missing(s) => ConvertErrorView::Missing(s@),
            ConvertError::UnsupportedDtype(s) => ConvertErrorView::UnsupportedDtype(s@),
            ConvertError::TooSmall(s) => ConvertErrorView::TooSmall(s@),
        }
    }
}

/// The elements of a tensor as single-precision patterns. Bytes that do not fill an
/// element are passed over.
pub open spec fn elements(s: Store, data: Seq<u8>) -> Option<Seq<u32>> {
    match s {
        Store::Single => Some(bytes_words(data)),
        Store::Brain => Some(
            bytes_halves(data).map_values(|h: u16| (h * 65536) as u32),
        ),
        Store::Other => None,
    }
}

/// The elements of a tensor as single-precision patterns.
pub fn decode_tensor(s: Store, data: &[u8]) -> (r: Option<Vec<u32>>)
    ensures
        match r {
            Some(v) => elements(s, data@) == Some(v@),
            None => elements(s, data@) is None,
        },
{
    match s {
        Store::Other => None,
        Store::Single => {
            let n: usize = data.len() / 4;
            let mut v: Vec<u32> = Vec::with_capacity(n);
            let mut i: usize = 0;
            while i < n
                invariant
                    i <= n,
                    n == data.len() / 4,
                    v@ == bytes_words(data@).take(i as int),
                decreases n - i,
            {
                v.push(read_u32(data, 4 * i));
                i = i + 1;
                assert(v@ =~= bytes_words(data@).take(i as int));
            }
            assert(v@ =~= bytes_words(data@));
            Some(v)
        },
        Store::Brain => {
            let n: usize = data.len() / 2;
            let mut v: Vec<u32> = Vec::with_capacity(n);
            let ghost want = bytes_halves(data@).map_values(|h: u16| (h * 65536) as u32);
            let mut i: usize = 0;
            while i < n
                invariant
                    i <= n,
                    n == data.len() / 2,
                    want == bytes_halves(data@).map_values(|h: u16| (h * 65536) as u32),
                    v@ == want.take(i as int),
                decreases n - i,
            {
                let h: u32 = data[2 * i] as u32 + 256 * (data[2 * i + 1] as u32);
                assert(half_at(data@, 2 * i) == h);
                v.push(h * 65536);
                i = i + 1;
                assert(v@ =~= want.take(i as int));
            }
            assert(v@ =~= want);
            Some(v)
        },
    }
}

/// A tensor to read, and the `[n_out, n_in]` shape of one that is to be transposed.
pub struct Item {
    pub name: String,
    pub shape: Option<(usize, usize)>,
}

/// What an `Item` says.
pub struct ItemView {
    pub name: Seq<char>,
    pub shape: Option<(usize, usize)>,
}

impl View for Item {
    type V = ItemView;

    open spec fn view(&self) -> ItemView {
        ItemView { name: self.name@, shape: self.shape }
    }
}

/// What items say.
pub open spec fn item_views(v: Seq<Item>) -> Seq<ItemView> {
    v.map_values(|i: Item| i@)
}

/// A tensor that is taken as it is.
pub open spec fn plain(name: Seq<char>) -> ItemView {
    ItemView { name, shape: None }
}

/// A linear that is transposed.
pub open spec fn linear(name: Seq<char>, n_out: int, n_in: int) -> ItemView {
    ItemView { name, shape: Some((n_out as usize, n_in as usize)) }
}

/// The name of a tensor of a layer.
pub open spec fn in_layer(front: Seq<char>, l: int, back: Seq<char>) -> Seq<char> {
    front + decimal(l) + back
}

/// The tensors of a layer, in reading order.
pub open spec fn layer_items(c: Config, l: int) -> Seq<ItemView> {
    let (e, inter) = (c.n_embd as int, c.n_inter as int);
    let (q, kv) = (c.q_width(), c.kv_width());
    match c.arch {
        Arch::Gpt2 => seq![
            plain(in_layer("h."@, l, ".ln_1.weight"@)),
            plain(in_layer("h."@, l, ".ln_1.bias"@)),
            plain(in_layer("h."@, l, ".attn.c_attn.weight"@)),
            plain(in_layer("h."@, l, ".attn.c_attn.bias"@)),
            plain(in_layer("h."@, l, ".attn.c_proj.weight"@)),
            plain(in_layer("h."@, l, ".attn.c_proj.bias"@)),
            plain(in_layer("h."@, l, ".ln_2.weight"@)),
            plain(in_layer("h."@, l, ".ln_2.bias"@)),
            plain(in_layer("h."@, l, ".mlp.c_fc.weight"@)),
            plain(in_layer("h."@, l, ".mlp.c_fc.bias"@)),
            plain(in_layer("h."@, l, ".mlp.c_proj.weight"@)),
            plain(in_layer("h."@, l, ".mlp.c_proj.bias"@)),
        ],
        Arch::Qwen2 => seq![
            linear(in_layer("model.layers."@, l, ".self_attn.q_proj.weight"@), q, e),
            linear(in_layer("model.layers."@, l, ".self_attn.k_proj.weight"@), kv, e),
            linear(in_layer("model.layers."@, l, ".self_attn.v_proj.weight"@), kv, e),
            plain(in_layer("model.layers."@, l, ".self_attn.q_proj.bias"@)),
            plain(in_layer("model.layers."@, l, ".self_attn.k_proj.bias"@)),
            plain(in_layer("model.layers."@, l, ".self_attn.v_proj.bias"@)),
            plain(in_layer("model.layers."@, l, ".input_layernorm.weight"@)),
            linear(in_layer("model.layers."@, l, ".self_attn.o_proj.weight"@), e, q),
            plain(in_layer("model.layers."@, l, ".post_attention_layernorm.weight"@)),
            linear(in_layer("model.layers."@, l, ".mlp.gate_proj.weight"@), inter, e),
            linear(in_layer("model.layers."@, l, ".mlp.up_proj.weight"@), inter, e),
            linear(in_layer("model.layers."@, l, ".mlp.down_proj.weight"@), e, inter),
        ],
        Arch::Llama => seq![
            linear(in_layer("model.layers."@, l, ".self_attn.q_proj.weight"@), q, e),
            linear(in_layer("model.layers."@, l, ".self_attn.k_proj.weight"@), kv, e),
            linear(in_layer("model.layers."@, l, ".self_attn.v_proj.weight"@), kv, e),
            plain(in_layer("model.layers."@, l, ".input_layernorm.weight"@)),
            linear(in_layer("model.layers."@, l, ".self_attn.o_proj.weight"@), e, q),
            plain(in_layer("model.layers."@, l, ".post_attention_layernorm.weight"@)),
            linear(in_layer("model.layers."@, l, ".mlp.gate_proj.weight"@), inter, e),
            linear(in_layer("model.layers."@, l, ".mlp.up_proj.weight"@), inter, e),
            linear(in_layer("model.layers."@, l, ".mlp.down_proj.weight"@), e, inter),
        ],
    }
}

/// The tensors outside the layers, in reading order.
pub open spec fn table_items(a: Arch) -> Seq<ItemView> {
    match a {
        Arch::Gpt2 => seq![
            plain("wte.weight"@),
            plain("wpe.weight"@),
            plain("ln_f.weight"@),
            plain("ln_f.bias"@),
        ],
        Arch::Qwen2 => seq![plain("model.embed_tokens.weight"@), plain("model.norm.weight"@)],
        Arch::Llama => seq![
            plain("model.embed_tokens.weight"@),
            plain("model.norm.weight"@),
            plain("lm_head.weight"@),
        ],
    }
}

fn plain_item(name: &str) -> (i: Item)
    ensures
        i@ == plain(name@),
{
    Item { name: name.to_owned(), shape: None }
}

fn layer_name(front: &str, l: usize, back: &str) -> (s: String)
    ensures
        s@ == in_layer(front@, l as int, back@),
{
    let mut s: String = front.to_owned();
    push_decimal(&mut s, l);
    s.append(back);
    s
}

fn gpt2_item(l: usize, back: &str) -> (i: Item)
    ensures
        i@ == plain(in_layer("h."@, l as int, back@)),
{
    Item { name: layer_name("h.", l, back), shape: None }
}

fn hf_plain(l: usize, back: &str) -> (i: Item)
    ensures
        i@ == plain(in_layer("model.layers."@, l as int, back@)),
{
    Item { name: layer_name("model.layers.", l, back), shape: None }
}

fn hf_linear(l: usize, back: &str, n_out: usize, n_in: usize) -> (i: Item)
    ensures
        i@ == linear(in_layer("model.layers."@, l as int, back@), n_out as int, n_in as int),
{
    Item { name: layer_name("model.layers.", l, back), shape: Some((n_out, n_in)) }
}

/// The tensors of a layer, in reading order.
pub fn layer_tensors(c: &Config, l: usize) -> (v: Vec<Item>)
    requires
        c.qkv_width() <= usize::MAX,
    ensures
        item_views(v@) == layer_items(*c, l as int),
{
    proof {
        crate::engine::lemma_config_widths(*c);
    }
    let (e, inter, q, kv): (usize, usize, usize, usize) = (
        c.n_embd,
        c.n_inter,
        c.q_dim(),
        c.kv_dim(),
    );
    let v: Vec<Item> = match c.arch {
        Arch::Gpt2 => vec![
            gpt2_item(l, ".ln_1.weight"),
            gpt2_item(l, ".ln_1.bias"),
            gpt2_item(l, ".attn.c_attn.weight"),
            gpt2_item(l, ".attn.c_attn.bias"),
            gpt2_item(l, ".attn.c_proj.weight"),
            gpt2_item(l, ".attn.c_proj.bias"),
            gpt2_item(l, ".ln_2.weight"),
            gpt2_item(l, ".ln_2.bias"),
            gpt2_item(l, ".mlp.c_fc.weight"),
            gpt2_item(l, ".mlp.c_fc.bias"),
            gpt2_item(l, ".mlp.c_proj.weight"),
            gpt2_item(l, ".mlp.c_proj.bias"),
        ],
        Arch::Qwen2 => vec![
            hf_linear(l, ".self_attn.q_proj.weight", q, e),
            hf_linear(l, ".self_attn.k_proj.weight", kv, e),
            hf_linear(l, ".self_attn.v_proj.weight", kv, e),
            hf_plain(l, ".self_attn.q_proj.bias"),
            hf_plain(l, ".self_attn.k_proj.bias"),
            hf_plain(l, ".self_attn.v_proj.bias"),
            hf_plain(l, ".input_layernorm.weight"),
            hf_linear(l, ".self_attn.o_proj.weight", e, q),
            hf_plain(l, ".post_attention_layernorm.weight"),
            hf_linear(l, ".mlp.gate_proj.weight", inter, e),
            hf_linear(l, ".mlp.up_proj.weight", inter, e),
            hf_linear(l, ".mlp.down_proj.weight", e, inter),
        ],
        Arch::Llama => vec![
            hf_linear(l, ".self_attn.q_proj.weight", q, e),
            hf_linear(l, ".self_attn.k_proj.weight", kv, e),
            hf_linear(l, ".self_attn.v_proj.weight", kv, e),
            hf_plain(l, ".input_layernorm.weight"),
            hf_linear(l, ".self_attn.o_proj.weight", e, q),
            hf_plain(l, ".post_attention_layernorm.weight"),
            hf_linear(l, ".mlp.gate_proj.weight", inter, e),
            hf_linear(l, ".mlp.up_proj.weight", inter, e),
            hf_linear(l, ".mlp.down_proj.weight", e, inter),
        ],
    };
    assert(item_views(v@) =~= layer_items(*c, l as int));
    v
}

/// The tensors outside the layers, in reading order.
pub fn table_tensors(arch: Arch) -> (v: Vec<Item>)
    ensures
        item_views(v@) == table_items(arch),
{
    let v: Vec<Item> = match arch {
        Arch::Gpt2 => vec![
            plain_item("wte.weight"),
            plain_item("wpe.weight"),
            plain_item("ln_f.weight"),
            plain_item("ln_f.bias"),
        ],
        Arch::Qwen2 => vec![
            plain_item("model.embed_tokens.weight"),
            plain_item("model.norm.weight"),
        ],
        Arch::Llama => vec![
            plain_item("model.embed_tokens.weight"),
            plain_item("model.norm.weight"),
            plain_item("lm_head.weight"),
        ],
    };
    assert(item_views(v@) =~= table_items(arch));
    v
}

/// A `[n_out, n_in]` matrix with rows and columns exchanged; what is stored beyond the
/// matrix becomes zeros.
pub open spec fn transposed(w: Seq<u32>, n_out: int, n_in: int) -> Seq<u32> {
    Seq::new(
        w.len(),
        |k: int|
            if k < n_in * n_out {
                w[(k % n_out) * n_in + k / n_out]
            } else {
                0u32
            },
    )
}

/// Exchanges rows and columns of a linear.
pub fn transpose_linear(w: &[u32], n_out: usize, n_in: usize) -> (t: Vec<u32>)
    requires
        n_out * n_in <= w.len(),
    ensures
        t@ == transposed(w@, n_out as int, n_in as int),
{
    proof {
        assert(0 <= n_out * n_in) by (nonlinear_arith);
    }
    let n: usize = n_out * n_in;
    let front: &[u32] = slice_subrange(w, 0, n);
    let mut t: Vec<u32> = transpose(front, n_out, n_in);
    let ghost want = transposed(w@, n_out as int, n_in as int);
    proof {
        let (r, c) = (n_out as int, n_in as int);
        assert(c * r == n) by (nonlinear_arith)
            requires
                r * c == n,
        ;
        assert forall|k: int| 0 <= k < n implies t@[k] == want[k] by {
            if r == 0 {
                assert(r * c == 0) by (nonlinear_arith)
                    requires
                        r == 0,
                ;
            }
            let (j, i) = (k / r, k % r);
            vstd::arithmetic::div_mod::lemma_fundamental_div_mod(k, r);
            assert(k == j * r + i) by (nonlinear_arith)
                requires
                    k == r * (k / r) + k % r,
                    j == k / r,
                    i == k % r,
            ;
            assert(0 <= j < c) by (nonlinear_arith)
                requires
                    0 <= k < c * r,
                    k == j * r + i,
                    0 <= i < r,
            ;
            assert(t@[j * r + i] == front@[i * c + j]);
            crate::layout::lemma_row_bound(r, c, i, j);
        }
    }
    while t.len() < w.len()
        invariant
            n <= t.len() <= w.len(),
            n == n_in * n_out,
            want == transposed(w@, n_out as int, n_in as int),
            forall|k: int| 0 <= k < t@.len() ==> t@[k] == want[k],
        decreases w.len() - t.len(),
    {
        t.push(0);
    }
    assert(t@ =~= want);
    t
}

/// Query, key and value weights side by side: row `i` is the three rows `i` in a row.
pub open spec fn side_by_side(
    q: Seq<u32>,
    k: Seq<u32>,
    v: Seq<u32>,
    rows: int,
    qd: int,
    kvd: int,
) -> Seq<u32> {
    let w = qd + 2 * kvd;
    Seq::new(
        (rows * w) as nat,
        |x: int|
            {
                let (i, j) = (x / w, x % w);
                if j < qd {
                    q[i * qd + j]
                } else if j < qd + kvd {
                    k[i * kvd + (j - qd)]
                } else {
                    v[i * kvd + (j - qd - kvd)]
                }
            },
    )
}

/// Puts query, key and value weights side by side.
pub fn join_qkv(q: &[u32], k: &[u32], v: &[u32], rows: usize, qd: usize, kvd: usize) -> (r: Vec<u32>)
    requires
        rows * qd <= q.len(),
        rows * kvd <= k.len(),
        rows * kvd <= v.len(),
        qd + 2 * kvd <= usize::MAX,
    ensures
        r@ == side_by_side(q@, k@, v@, rows as int, qd as int, kvd as int),
{
    let mut r: Vec<u32> = Vec::new();
    let ghost w = qd + 2 * kvd;
    let ghost want = side_by_side(q@, k@, v@, rows as int, qd as int, kvd as int);
    let mut i: usize = 0;
    assert(0 * w == 0) by (nonlinear_arith);
    while i < rows
        invariant
            i <= rows,
            rows * qd <= q.len(),
            rows * kvd <= k.len(),
            rows * kvd <= v.len(),
            w == qd + 2 * kvd,
            w <= usize::MAX,
            want == side_by_side(q@, k@, v@, rows as int, qd as int, kvd as int),
            r@.len() == i * w,
            i * w <= want.len(),
            forall|x: int| 0 <= x < r@.len() ==> #[trigger] r@[x] == want[x],
        decreases rows - i,
    {
        let mut j: usize = 0;
        proof {
            assert((i + 1) * w == i * w + w) by (nonlinear_arith);
            assert((i + 1) * w <= rows * w) by (nonlinear_arith)
                requires
                    i + 1 <= rows,
                    w >= 0,
            ;
        }
        while j < qd + 2 * kvd
            invariant
                j <= w,
                i < rows,
                rows * qd <= q.len(),
                rows * kvd <= k.len(),
                rows * kvd <= v.len(),
                w == qd + 2 * kvd,
                w <= usize::MAX,
                want == side_by_side(q@, k@, v@, rows as int, qd as int, kvd as int),
                r@.len() == i * w + j,
                i * w + w <= want.len(),
                forall|x: int| 0 <= x < r@.len() ==> #[trigger] r@[x] == want[x],
            decreases w - j,
        {
            proof {
                let x = i * w + j;
                assert(0 <= i * w) by (nonlinear_arith)
                    requires
                        w >= 0,
                ;
                vstd::arithmetic::div_mod::lemma_fundamental_div_mod_converse(
                    x,
                    w,
                    i as int,
                    j as int,
                );
                if j < qd {
                    crate::layout::lemma_row_bound(rows as int, qd as int, i as int, j as int);
                } else if j < qd + kvd {
                    crate::layout::lemma_row_bound(rows as int, kvd as int, i as int, j - qd);
                } else {
                    crate::layout::lemma_row_bound(
                        rows as int,
                        kvd as int,
                        i as int,
                        j - qd - kvd,
                    );
                }
            }
            if j < qd {
                r.push(q[i * qd + j]);
            } else if j < qd + kvd {
                r.push(k[i * kvd + (j - qd)]);
            } else {
                r.push(v[i * kvd + (j - qd - kvd)]);
            }
            j = j + 1;
        }
        i = i + 1;
    }
    assert(r@ =~= want);
    r
}

/// The layer that its tensors, read and transposed, make up.
pub open spec fn layer_from(c: Config, xs: Seq<Seq<u32>>) -> LayerView {
    let none = Seq::<u32>::empty();
    let qkv = side_by_side(xs[0], xs[1], xs[2], c.n_embd as int, c.q_width(), c.kv_width());
    match c.arch {
        Arch::Gpt2 => LayerView {
            ln1_g: xs[0],
            ln1_b: xs[1],
            qkv_w: xs[2],
            qkv_b: xs[3],
            proj_w: xs[4],
            proj_b: xs[5],
            ln2_g: xs[6],
            ln2_b: xs[7],
            fc_w: xs[8],
            fc_b: xs[9],
            up_w: none,
            fc2_w: xs[10],
            fc2_b: xs[11],
        },
        Arch::Qwen2 => LayerView {
            ln1_g: xs[6],
            ln1_b: none,
            qkv_w: qkv,
            qkv_b: xs[3] + xs[4] + xs[5],
            proj_w: xs[7],
            proj_b: zeros(c.n_embd as int),
            ln2_g: xs[8],
            ln2_b: none,
            fc_w: xs[9],
            fc_b: none,
            up_w: xs[10],
            fc2_w: xs[11],
            fc2_b: none,
        },
        Arch::Llama => LayerView {
            ln1_g: xs[3],
            ln1_b: none,
            qkv_w: qkv,
            qkv_b: zeros(c.qkv_width()),
            proj_w: xs[4],
            proj_b: zeros(c.n_embd as int),
            ln2_g: xs[5],
            ln2_b: none,
            fc_w: xs[6],
            fc_b: none,
            up_w: xs[7],
            fc2_w: xs[8],
            fc2_b: none,
        },
    }
}

/// What tensors hold.
pub open spec fn tensor_views(v: Seq<Vec<u32>>) -> Seq<Seq<u32>> {
    v.map_values(|x: Vec<u32>| x@)
}

/// Takes the next tensor off the end.
fn take_last(xs: &mut Vec<Vec<u32>>) -> (x: Vec<u32>)
    requires
        old(xs)@.len() > 0,
    ensures
        final(xs)@.len() == old(xs)@.len() - 1,
        tensor_views(final(xs)@) == tensor_views(old(xs)@).drop_last(),
        x@ == tensor_views(old(xs)@).last(),
{
    match xs.pop() {
        Some(x) => {
            assert(tensor_views(xs@) =~= tensor_views(old(xs)@).drop_last());
            x
        },
        None => Vec::new(),
    }
}

fn zero_tensor(n: usize) -> (v: Vec<u32>)
    ensures
        v@ == zeros(n as int),
{
    let v: Vec<u32> = vec![0u32; n];
    assert(v@ =~= zeros(n as int));
    v
}

/// Makes a layer of its tensors.
pub fn make_layer(c: &Config, tensors: Vec<Vec<u32>>) -> (y: Layer)
    requires
        c.qkv_width() <= usize::MAX,
        tensors@.len() == layer_items(*c, 0).len(),
        c.arch != Arch::Gpt2 ==> {
            &&& c.n_embd * c.q_width() <= tensors@[0]@.len()
            &&& c.n_embd * c.kv_width() <= tensors@[1]@.len()
            &&& c.n_embd * c.kv_width() <= tensors@[2]@.len()
        },
    ensures
        y@ == layer_from(*c, tensor_views(tensors@)),
{
    proof {
        crate::engine::lemma_config_widths(*c);
    }
    let mut xs: Vec<Vec<u32>> = tensors;
    let ghost all = tensor_views(xs@);
    let y: Layer = match c.arch {
        Arch::Gpt2 => {
            let fc2_b = take_last(&mut xs);
            let fc2_w = take_last(&mut xs);
            let fc_b = take_last(&mut xs);
            let fc_w = take_last(&mut xs);
            let ln2_b = take_last(&mut xs);
            let ln2_g = take_last(&mut xs);
            let proj_b = take_last(&mut xs);
            let proj_w = take_last(&mut xs);
            let qkv_b = take_last(&mut xs);
            let qkv_w = take_last(&mut xs);
            let ln1_b = take_last(&mut xs);
            let ln1_g = take_last(&mut xs);
            Layer {
                ln1_g,
                ln1_b,
                qkv_w,
                qkv_b,
                proj_w,
                proj_b,
                ln2_g,
                ln2_b,
                fc_w,
                fc_b,
                up_w: Vec::new(),
                fc2_w,
                fc2_b,
            }
        },
        Arch::Qwen2 => {
            let fc2_w = take_last(&mut xs);
            let up_w = take_last(&mut xs);
            let fc_w = take_last(&mut xs);
            let ln2_g = take_last(&mut xs);
            let proj_w = take_last(&mut xs);
            let ln1_g = take_last(&mut xs);
            let mut vb = take_last(&mut xs);
            let mut kb = take_last(&mut xs);
            let mut qkv_b = take_last(&mut xs);
            qkv_b.append(&mut kb);
            qkv_b.append(&mut vb);
            let v = take_last(&mut xs);
            let k = take_last(&mut xs);
            let q = take_last(&mut xs);
            assert(q@ == all[0] && k@ == all[1] && v@ == all[2]);
            let qkv_w = join_qkv(&q, &k, &v, c.n_embd, c.q_dim(), c.kv_dim());
            Layer {
                ln1_g,
                ln1_b: Vec::new(),
                qkv_w,
                qkv_b,
                proj_w,
                proj_b: zero_tensor(c.n_embd),
                ln2_g,
                ln2_b: Vec::new(),
                fc_w,
                fc_b: Vec::new(),
                up_w,
                fc2_w,
                fc2_b: Vec::new(),
            }
        },
        Arch::Llama => {
            let fc2_w = take_last(&mut xs);
            let up_w = take_last(&mut xs);
            let fc_w = take_last(&mut xs);
            let ln2_g = take_last(&mut xs);
            let proj_w = take_last(&mut xs);
            let ln1_g = take_last(&mut xs);
            let v = take_last(&mut xs);
            let k = take_last(&mut xs);
            let q = take_last(&mut xs);
            assert(q@ == all[0] && k@ == all[1] && v@ == all[2]);
            let qkv_w = join_qkv(&q, &k, &v, c.n_embd, c.q_dim(), c.kv_dim());
            Layer {
                ln1_g,
                ln1_b: Vec::new(),
                qkv_w,
                qkv_b: zero_tensor(c.qkv_dim()),
                proj_w,
                proj_b: zero_tensor(c.n_embd),
                ln2_g,
                ln2_b: Vec::new(),
                fc_w,
                fc_b: Vec::new(),
                up_w,
                fc2_w,
                fc2_b: Vec::new(),
            }
        },
    };
    assert(y@ =~= layer_from(*c, all));
    y
}

/// The model that its layers and the tensors outside them make up.
pub open spec fn model_from(c: Config, layers: Seq<LayerView>, xs: Seq<Seq<u32>>) -> ModelView {
    let none = Seq::<u32>::empty();
    ModelView {
        config: c,
        wte: xs[0],
        wpe: if c.arch == Arch::Gpt2 {
            xs[1]
        } else {
            none
        },
        layers,
        lnf_g: if c.arch == Arch::Gpt2 {
            xs[2]
        } else {
            xs[1]
        },
        lnf_b: if c.arch == Arch::Gpt2 {
            xs[3]
        } else {
            none
        },
        lm_head: if c.arch == Arch::Llama {
            xs[2]
        } else {
            none
        },
    }
}

/// Makes a model of its layers and the tensors outside them.
pub fn make_model(c: Config, layers: Vec<Layer>, tables: Vec<Vec<u32>>) -> (m: Model)
    requires
        tables@.len() == table_items(c.arch).len(),
    ensures
        m@ == model_from(c, crate::model::layer_views(layers@), tensor_views(tables@)),
{
    let mut xs: Vec<Vec<u32>> = tables;
    let ghost all = tensor_views(xs@);
    let m: Model = match c.arch {
        Arch::Gpt2 => {
            let lnf_b = take_last(&mut xs);
            let lnf_g = take_last(&mut xs);
            let wpe = take_last(&mut xs);
            let wte = take_last(&mut xs);
            Model { config: c, wte, wpe, layers, lnf_g, lnf_b, lm_head: Vec::new() }
        },
        Arch::Qwen2 => {
            let lnf_g = take_last(&mut xs);
            let wte = take_last(&mut xs);
            Model {
                config: c,
                wte,
                wpe: Vec::new(),
                layers,
                lnf_g,
                lnf_b: Vec::new(),
                lm_head: Vec::new(),
            }
        },
        Arch::Llama => {
            let lm_head = take_last(&mut xs);
            let lnf_g = take_last(&mut xs);
            let wte = take_last(&mut xs);
            Model { config: c, wte, wpe: Vec::new(), layers, lnf_g, lnf_b: Vec::new(), lm_head }
        },
    };
    assert(m@ =~= model_from(c, crate::model::layer_views(layers@), all));
    m
}

/// A tensor of a file, under its bare name or behind `transformer.`.
pub open spec fn resolve(ts: Map<Seq<char>, (Store, Seq<u8>)>, name: Seq<char>) -> Option<
    (Store, Seq<u8>),
> {
    if ts.contains_key(name) {
        Some(ts[name])
    } else if ts.contains_key("transformer."@ + name) {
        Some(ts["transformer."@ + name])
    } else {
        None
    }
}

/// An item of a file, transposed where its shape asks for it.
pub open spec fn read_item(ts: Map<Seq<char>, (Store, Seq<u8>)>, i: ItemView) -> Result<
    Seq<u32>,
    ConvertErrorView,
> {
    match resolve(ts, i.name) {
        None => Err(ConvertErrorView::Missing(i.name)),
        Some((store, data)) => match elements(store, data) {
            None => Err(ConvertErrorView::UnsupportedDtype(i.name)),
            Some(w) => match i.shape {
                None => Ok(w),
                Some((n_out, n_in)) => if w.len() < n_out * n_in {
                    Err(ConvertErrorView::TooSmall(i.name))
                } else {
                    Ok(transposed(w, n_out as int, n_in as int))
                },
            },
        },
    }
}

/// The items of a file, or what is wrong with the first that cannot be read.
pub open spec fn read_items(ts: Map<Seq<char>, (Store, Seq<u8>)>, is: Seq<ItemView>) -> Result<
    Seq<Seq<u32>>,
    ConvertErrorView,
>
    decreases is.len(),
{
    if is.len() == 0 {
        Ok(Seq::empty())
    } else {
        match read_items(ts, is.drop_last()) {
            Err(e) => Err(e),
            Ok(xs) => match read_item(ts, is.last()) {
                Err(e) => Err(e),
                Ok(x) => Ok(xs.push(x)),
            },
        }
    }
}

/// The first `n` layers of a file, or what is wrong with the first item that cannot be
/// read.
pub open spec fn read_layers(ts: Map<Seq<char>, (Store, Seq<u8>)>, c: Config, n: nat) -> Result<
    Seq<LayerView>,
    ConvertErrorView,
>
    decreases n,
{
    if n == 0 {
        Ok(Seq::empty())
    } else {
        match read_layers(ts, c, (n - 1) as nat) {
            Err(e) => Err(e),
            Ok(ls) => match read_items(ts, layer_items(c, n - 1)) {
                Err(e) => Err(e),
                Ok(xs) => Ok(ls.push(layer_from(c, xs))),
            },
        }
    }
}

/// The model of a configuration in a file: its layers, then the tensors outside them.
pub open spec fn read_model(ts: Map<Seq<char>, (Store, Seq<u8>)>, c: Config) -> Result<
    ModelView,
    ConvertErrorView,
> {
    match read_layers(ts, c, c.n_layer as nat) {
        Err(e) => Err(e),
        Ok(ls) => match read_items(ts, table_items(c.arch)) {
            Err(e) => Err(e),
            Ok(xs) => Ok(model_from(c, ls, xs)),
        },
    }
}

/// The model of a configuration in a checkpoint.
pub open spec fn converted(buf: Seq<u8>, c: Config) -> Result<ModelView, ConvertErrorView> {
    match safetensors_file(buf) {
        None => Err(ConvertErrorView::BadCheckpoint),
        Some(ts) => read_model(ts, c),
    }
}

/// The result of a conversion, seen as a specification value.
pub open spec fn conversion(r: Result<Model, ConvertError>) -> Result<ModelView, ConvertErrorView> {
    match r {
        Ok(m) => Ok(m@),
        Err(e) => Err(e@),
    }
}

proof fn lemma_items_prefix(ts: Map<Seq<char>, (Store, Seq<u8>)>, is: Seq<ItemView>, k: int)
    requires
        0 <= k <= is.len(),
        read_items(ts, is.take(k)) is Err,
    ensures
        read_items(ts, is) == read_items(ts, is.take(k)),
    decreases is.len() - k,
{
    if k < is.len() {
        let t = is.take(k + 1);
        assert(t.drop_last() =~= is.take(k));
        lemma_items_prefix(ts, is, k + 1);
    } else {
        assert(is.take(k) =~= is);
    }
}

proof fn lemma_items_len(ts: Map<Seq<char>, (Store, Seq<u8>)>, is: Seq<ItemView>)
    ensures
        read_items(ts, is) matches Ok(xs) ==> xs.len() == is.len() && forall|i: int|
            0 <= i < xs.len() ==> read_item(ts, is[i]) == Ok::<Seq<u32>, ConvertErrorView>(
                #[trigger] xs[i],
            ),
    decreases is.len(),
{
    if is.len() > 0 {
        let t = is.drop_last();
        lemma_items_len(ts, t);
        match read_items(ts, is) {
            Ok(xs) => {
                let ys = read_items(ts, t)->Ok_0;
                assert forall|i: int| 0 <= i < xs.len() implies read_item(ts, is[i]) == Ok::<
                    Seq<u32>,
                    ConvertErrorView,
                >(#[trigger] xs[i]) by {
                    if i < t.len() {
                        assert(xs[i] == ys[i]);
                        assert(t[i] == is[i]);
                    }
                }
            },
            Err(e) => {},
        }
    }
}

proof fn lemma_layers_prefix(
    ts: Map<Seq<char>, (Store, Seq<u8>)>,
    c: Config,
    k: nat,
    n: nat,
)
    requires
        k <= n,
        read_layers(ts, c, k) is Err,
    ensures
        read_layers(ts, c, n) == read_layers(ts, c, k),
    decreases n - k,
{
    if k < n {
        lemma_layers_prefix(ts, c, k, (n - 1) as nat);
    }
}

/// The file holds a tensor of that name, bare or behind `transformer.`, and its numbers are
/// `v`: four bytes each, or the upper two bytes of each, the lowest first.
pub open spec fn is_tensor(ts: Map<Seq<char>, (Store, Seq<u8>)>, name: Seq<char>, v: Seq<u32>) -> bool {
    let key = if ts.contains_key(name) {
        name
    } else {
        "transformer."@ + name
    };
    let (store, data) = ts[key];
    &&& ts.contains_key(key)
    &&& match store {
        Store::Single => {
            &&& v.len() == data.len() / 4
            &&& forall|i: int|
                0 <= i < v.len() ==> #[trigger] v[i] == data[4 * i] + 0x100 * data[4 * i + 1]
                    + 0x10000 * data[4 * i + 2] + 0x1000000 * data[4 * i + 3]
        },
        Store::Brain => {
            &&& v.len() == data.len() / 2
            &&& forall|i: int|
                0 <= i < v.len() ==> #[trigger] v[i] == 0x10000 * data[2 * i] + 0x1000000 * data[2
                    * i + 1]
        },
        Store::Other => false,
    }
}

/// The file holds an `[n_out, n_in]` matrix of that name, and `t` is that matrix with rows and
/// columns exchanged.
pub open spec fn is_turned(
    ts: Map<Seq<char>, (Store, Seq<u8>)>,
    name: Seq<char>,
    n_out: int,
    n_in: int,
    t: Seq<u32>,
) -> bool {
    exists|w: Seq<u32>| #[trigger]
        is_tensor(ts, name, w) && n_out * n_in <= w.len() && t.len() == w.len() && forall|i: int, o: int|
            0 <= i < n_in && 0 <= o < n_out ==> #[trigger] at(t, n_out, i, o) == at(w, n_in, o, i)
}

/// The file holds query, key and value matrices of these names, and row `i` of `t` is column
/// `i` of the first, then that of the second, then that of the third.
pub open spec fn is_joined(
    ts: Map<Seq<char>, (Store, Seq<u8>)>,
    q_name: Seq<char>,
    k_name: Seq<char>,
    v_name: Seq<char>,
    c: Config,
    t: Seq<u32>,
) -> bool {
    let (e, qd, kvd) = (c.n_embd as int, c.n_head * c.head_dim, c.n_kv_head * c.head_dim);
    let w = qd + 2 * kvd;
    exists|q: Seq<u32>, k: Seq<u32>, v: Seq<u32>| #[trigger]
        is_tensor(ts, q_name, q) && #[trigger] is_tensor(ts, k_name, k) && #[trigger] is_tensor(
            ts,
            v_name,
            v,
        ) && t.len() == e * w && forall|i: int, j: int|
            0 <= i < e && 0 <= j < w ==> #[trigger] at(t, w, i, j) == if j < qd {
                at(q, e, j, i)
            } else if j < qd + kvd {
                at(k, e, j - qd, i)
            } else {
                at(v, e, j - qd - kvd, i)
            }
}

proof fn lemma_plain_read(ts: Map<Seq<char>, (Store, Seq<u8>)>, name: Seq<char>, v: Seq<u32>)
    requires
        read_item(ts, plain(name)) == Ok::<Seq<u32>, ConvertErrorView>(v),
    ensures
        is_tensor(ts, name, v),
{
    let (store, data) = resolve(ts, name)->0;
    assert(elements(store, data) == Some(v));
    match store {
        Store::Single => {
            assert forall|i: int| 0 <= i < v.len() implies #[trigger] v[i] == data[4 * i] + 0x100
                * data[4 * i + 1] + 0x10000 * data[4 * i + 2] + 0x1000000 * data[4 * i + 3] by {
                assert(v[i] == bytes_words(data)[i]);
            }
        },
        Store::Brain => {
            assert forall|i: int| 0 <= i < v.len() implies #[trigger] v[i] == 0x10000 * data[2 * i]
                + 0x1000000 * data[2 * i + 1] by {
                let h = bytes_halves(data)[i];
                assert(h == data[2 * i] + 0x100 * data[2 * i + 1]);
                assert(v[i] == (h * 65536) as u32);
            }
        },
        Store::Other => {},
    }
}

/// An entry of a turned matrix, seen from its place.
proof fn lemma_turned_entry(w: Seq<u32>, n_out: int, n_in: int, i: int, o: int)
    requires
        0 <= i < n_in,
        0 <= o < n_out,
        n_out * n_in <= w.len(),
    ensures
        at(transposed(w, n_out, n_in), n_out, i, o) == at(w, n_in, o, i),
        0 <= i * n_out + o < n_in * n_out,
        n_in * n_out == n_out * n_in,
{
    let k = i * n_out + o;
    crate::layout::lemma_row_bound(n_in, n_out, i, o);
    assert(n_in * n_out == n_out * n_in) by (nonlinear_arith);
    assert(k == n_out * i + o) by (nonlinear_arith)
        requires
            k == i * n_out + o,
    ;
    vstd::arithmetic::div_mod::lemma_fundamental_div_mod_converse(k, n_out, i, o);
}

/// What a linear that was read is made of.
proof fn lemma_linear_parts(
    ts: Map<Seq<char>, (Store, Seq<u8>)>,
    name: Seq<char>,
    n_out: int,
    n_in: int,
    t: Seq<u32>,
) -> (w: Seq<u32>)
    requires
        0 <= n_out <= usize::MAX,
        0 <= n_in <= usize::MAX,
        read_item(ts, linear(name, n_out, n_in)) == Ok::<Seq<u32>, ConvertErrorView>(t),
    ensures
        is_tensor(ts, name, w),
        n_out * n_in <= w.len(),
        t == transposed(w, n_out, n_in),
{
    let (store, data) = resolve(ts, name)->0;
    let w = elements(store, data)->0;
    assert(read_item(ts, plain(name)) == Ok::<Seq<u32>, ConvertErrorView>(w));
    lemma_plain_read(ts, name, w);
    w
}

proof fn lemma_linear_read(
    ts: Map<Seq<char>, (Store, Seq<u8>)>,
    name: Seq<char>,
    n_out: int,
    n_in: int,
    t: Seq<u32>,
)
    requires
        0 <= n_out <= usize::MAX,
        0 <= n_in <= usize::MAX,
        read_item(ts, linear(name, n_out, n_in)) == Ok::<Seq<u32>, ConvertErrorView>(t),
    ensures
        is_turned(ts, name, n_out, n_in, t),
{
    let w = lemma_linear_parts(ts, name, n_out, n_in, t);
    assert forall|i: int, o: int| 0 <= i < n_in && 0 <= o < n_out implies #[trigger] at(t, n_out, i, o)
        == at(w, n_in, o, i) by {
        lemma_turned_entry(w, n_out, n_in, i, o);
    }
}

proof fn lemma_joined_read(
    ts: Map<Seq<char>, (Store, Seq<u8>)>,
    q_name: Seq<char>,
    k_name: Seq<char>,
    v_name: Seq<char>,
    c: Config,
    q: Seq<u32>,
    k: Seq<u32>,
    v: Seq<u32>,
)
    requires
        c.qkv_width() <= usize::MAX,
        read_item(ts, linear(q_name, c.q_width(), c.n_embd as int)) == Ok::<
            Seq<u32>,
            ConvertErrorView,
        >(q),
        read_item(ts, linear(k_name, c.kv_width(), c.n_embd as int)) == Ok::<
            Seq<u32>,
            ConvertErrorView,
        >(k),
        read_item(ts, linear(v_name, c.kv_width(), c.n_embd as int)) == Ok::<
            Seq<u32>,
            ConvertErrorView,
        >(v),
    ensures
        is_joined(
            ts,
            q_name,
            k_name,
            v_name,
            c,
            side_by_side(q, k, v, c.n_embd as int, c.q_width(), c.kv_width()),
        ),
{
    crate::engine::lemma_config_widths(c);
    let (e, qd, kvd) = (c.n_embd as int, c.q_width(), c.kv_width());
    let t = side_by_side(q, k, v, e, qd, kvd);
    let w = qd + 2 * kvd;
    let wq = lemma_linear_parts(ts, q_name, qd, e, q);
    let wk = lemma_linear_parts(ts, k_name, kvd, e, k);
    let wv = lemma_linear_parts(ts, v_name, kvd, e, v);
    assert(0 <= e * w) by (nonlinear_arith)
        requires
            0 <= e,
            0 <= w,
    ;
    assert forall|i: int, j: int| 0 <= i < e && 0 <= j < w implies #[trigger] at(t, w, i, j) == if j
        < qd {
        at(wq, e, j, i)
    } else if j < qd + kvd {
        at(wk, e, j - qd, i)
    } else {
        at(wv, e, j - qd - kvd, i)
    } by {
        let x = i * w + j;
        crate::layout::lemma_row_bound(e, w, i, j);
        vstd::arithmetic::div_mod::lemma_fundamental_div_mod_converse(x, w, i, j);
        if j < qd {
            lemma_turned_entry(wq, qd, e, i, j);
        } else if j < qd + kvd {
            lemma_turned_entry(wk, kvd, e, i, j - qd);
        } else {
            lemma_turned_entry(wv, kvd, e, i, j - qd - kvd);
        }
    }
}

/// The name of a tensor of layer `l` in a checkpoint of a rotary arch.
pub open spec fn rotary_name(l: int, what: Seq<char>) -> Seq<char> {
    "model.layers."@ + decimal(l) + what
}

/// The name of a tensor of layer `l` in a checkpoint of GPT-2.
pub open spec fn gpt2_name(l: int, what: Seq<char>) -> Seq<char> {
    "h."@ + decimal(l) + what
}

/// The layer holds the tensors of its number, each under the name that says what it is.
pub open spec fn layer_named(
    ts: Map<Seq<char>, (Store, Seq<u8>)>,
    c: Config,
    l: int,
    y: LayerView,
) -> bool {
    let (e, inter, q) = (c.n_embd as int, c.n_inter as int, c.n_head * c.head_dim);
    let nm = |what: Seq<char>| rotary_name(l, what);
    if c.arch == Arch::Gpt2 {
        &&& is_tensor(ts, gpt2_name(l, ".ln_1.weight"@), y.ln1_g)
        &&& is_tensor(ts, gpt2_name(l, ".ln_1.bias"@), y.ln1_b)
        &&& is_tensor(ts, gpt2_name(l, ".attn.c_attn.weight"@), y.qkv_w)
        &&& is_tensor(ts, gpt2_name(l, ".attn.c_attn.bias"@), y.qkv_b)
        &&& is_tensor(ts, gpt2_name(l, ".attn.c_proj.weight"@), y.proj_w)
        &&& is_tensor(ts, gpt2_name(l, ".attn.c_proj.bias"@), y.proj_b)
        &&& is_tensor(ts, gpt2_name(l, ".ln_2.weight"@), y.ln2_g)
        &&& is_tensor(ts, gpt2_name(l, ".ln_2.bias"@), y.ln2_b)
        &&& is_tensor(ts, gpt2_name(l, ".mlp.c_fc.weight"@), y.fc_w)
        &&& is_tensor(ts, gpt2_name(l, ".mlp.c_fc.bias"@), y.fc_b)
        &&& y.up_w.len() == 0
        &&& is_tensor(ts, gpt2_name(l, ".mlp.c_proj.weight"@), y.fc2_w)
        &&& is_tensor(ts, gpt2_name(l, ".mlp.c_proj.bias"@), y.fc2_b)
    } else {
        &&& is_tensor(ts, nm(".input_layernorm.weight"@), y.ln1_g)
        &&& y.ln1_b.len() == 0
        &&& is_joined(
            ts,
            nm(".self_attn.q_proj.weight"@),
            nm(".self_attn.k_proj.weight"@),
            nm(".self_attn.v_proj.weight"@),
            c,
            y.qkv_w,
        )
        &&& if c.arch == Arch::Qwen2 {
            exists|a: Seq<u32>, b: Seq<u32>, d: Seq<u32>| #[trigger]
                is_tensor(ts, nm(".self_attn.q_proj.bias"@), a) && #[trigger] is_tensor(
                    ts,
                    nm(".self_attn.k_proj.bias"@),
                    b,
                ) && #[trigger] is_tensor(ts, nm(".self_attn.v_proj.bias"@), d) && y.qkv_b == a + b
                    + d
        } else {
            &&& y.qkv_b.len() == q + 2 * (c.n_kv_head * c.head_dim)
            &&& forall|i: int| 0 <= i < y.qkv_b.len() ==> #[trigger] y.qkv_b[i] == 0
        }
        &&& is_turned(ts, nm(".self_attn.o_proj.weight"@), e, q, y.proj_w)
        &&& y.proj_b.len() == e
        &&& forall|i: int| 0 <= i < e ==> #[trigger] y.proj_b[i] == 0
        &&& is_tensor(ts, nm(".post_attention_layernorm.weight"@), y.ln2_g)
        &&& y.ln2_b.len() == 0
        &&& is_turned(ts, nm(".mlp.gate_proj.weight"@), inter, e, y.fc_w)
        &&& y.fc_b.len() == 0
        &&& is_turned(ts, nm(".mlp.up_proj.weight"@), inter, e, y.up_w)
        &&& is_turned(ts, nm(".mlp.down_proj.weight"@), e, inter, y.fc2_w)
        &&& y.fc2_b.len() == 0
    }
}

/// The tensors outside the layers are those that their names say.
pub open spec fn tables_named(ts: Map<Seq<char>, (Store, Seq<u8>)>, m: ModelView) -> bool {
    match m.config.arch {
        Arch::Gpt2 => {
            &&& is_tensor(ts, "wte.weight"@, m.wte)
            &&& is_tensor(ts, "wpe.weight"@, m.wpe)
            &&& is_tensor(ts, "ln_f.weight"@, m.lnf_g)
            &&& is_tensor(ts, "ln_f.bias"@, m.lnf_b)
            &&& m.lm_head.len() == 0
        },
        Arch::Qwen2 => {
            &&& is_tensor(ts, "model.embed_tokens.weight"@, m.wte)
            &&& m.wpe.len() == 0
            &&& is_tensor(ts, "model.norm.weight"@, m.lnf_g)
            &&& m.lnf_b.len() == 0
            &&& m.lm_head.len() == 0
        },
        Arch::Llama => {
            &&& is_tensor(ts, "model.embed_tokens.weight"@, m.wte)
            &&& m.wpe.len() == 0
            &&& is_tensor(ts, "model.norm.weight"@, m.lnf_g)
            &&& m.lnf_b.len() == 0
            &&& is_tensor(ts, "lm_head.weight"@, m.lm_head)
        },
    }
}

proof fn lemma_item_read(
    ts: Map<Seq<char>, (Store, Seq<u8>)>,
    is: Seq<ItemView>,
    xs: Seq<Seq<u32>>,
    i: int,
)
    requires
        read_items(ts, is) == Ok::<Seq<Seq<u32>>, ConvertErrorView>(xs),
        0 <= i < is.len(),
    ensures
        xs.len() == is.len(),
        read_item(ts, is[i]) == Ok::<Seq<u32>, ConvertErrorView>(xs[i]),
{
    lemma_items_len(ts, is);
    assert(read_item(ts, is[i]) == Ok::<Seq<u32>, ConvertErrorView>(xs[i]));
}

proof fn lemma_gpt2_layer(
    ts: Map<Seq<char>, (Store, Seq<u8>)>,
    c: Config,
    l: int,
    xs: Seq<Seq<u32>>,
)
    requires
        c.arch == Arch::Gpt2,
        read_items(ts, layer_items(c, l)) == Ok::<Seq<Seq<u32>>, ConvertErrorView>(xs),
    ensures
        layer_named(ts, c, l, layer_from(c, xs)),
{
    let is = layer_items(c, l);
    let y = layer_from(c, xs);
    assert forall|i: int| 0 <= i < 12 implies is_tensor(ts, #[trigger] is[i].name, xs[i]) by {
        lemma_item_read(ts, is, xs, i);
        lemma_plain_read(ts, is[i].name, xs[i]);
    }
    assert(is_tensor(ts, is[0].name, y.ln1_g));
    assert(is_tensor(ts, is[1].name, y.ln1_b));
    assert(is_tensor(ts, is[2].name, y.qkv_w));
    assert(is_tensor(ts, is[3].name, y.qkv_b));
    assert(is_tensor(ts, is[4].name, y.proj_w));
    assert(is_tensor(ts, is[5].name, y.proj_b));
    assert(is_tensor(ts, is[6].name, y.ln2_g));
    assert(is_tensor(ts, is[7].name, y.ln2_b));
    assert(is_tensor(ts, is[8].name, y.fc_w));
    assert(is_tensor(ts, is[9].name, y.fc_b));
    assert(is_tensor(ts, is[10].name, y.fc2_w));
    assert(is_tensor(ts, is[11].name, y.fc2_b));
}

proof fn lemma_rotary_layer(
    ts: Map<Seq<char>, (Store, Seq<u8>)>,
    c: Config,
    l: int,
    xs: Seq<Seq<u32>>,
)
    requires
        c.arch != Arch::Gpt2,
        c.qkv_width() <= usize::MAX,
        read_items(ts, layer_items(c, l)) == Ok::<Seq<Seq<u32>>, ConvertErrorView>(xs),
    ensures
        layer_named(ts, c, l, layer_from(c, xs)),
{
    crate::engine::lemma_config_widths(c);
    let is = layer_items(c, l);
    let y = layer_from(c, xs);
    let (e, inter, q) = (c.n_embd as int, c.n_inter as int, c.q_width());
    let nm = |what: Seq<char>| rotary_name(l, what);
    assert forall|i: int| 0 <= i < is.len() implies read_item(ts, #[trigger] is[i]) == Ok::<
        Seq<u32>,
        ConvertErrorView,
    >(xs[i]) by {
        lemma_item_read(ts, is, xs, i);
    }
    assert(is[0] == linear(nm(".self_attn.q_proj.weight"@), q, e));
    assert(is[1] == linear(nm(".self_attn.k_proj.weight"@), c.kv_width(), e));
    assert(is[2] == linear(nm(".self_attn.v_proj.weight"@), c.kv_width(), e));
    lemma_joined_read(
        ts,
        nm(".self_attn.q_proj.weight"@),
        nm(".self_attn.k_proj.weight"@),
        nm(".self_attn.v_proj.weight"@),
        c,
        xs[0],
        xs[1],
        xs[2],
    );
    let b: int = if c.arch == Arch::Qwen2 {
        6
    } else {
        3
    };
    if c.arch == Arch::Qwen2 {
        assert(is[3] == plain(nm(".self_attn.q_proj.bias"@)));
        assert(is[4] == plain(nm(".self_attn.k_proj.bias"@)));
        assert(is[5] == plain(nm(".self_attn.v_proj.bias"@)));
        lemma_plain_read(ts, nm(".self_attn.q_proj.bias"@), xs[3]);
        lemma_plain_read(ts, nm(".self_attn.k_proj.bias"@), xs[4]);
        lemma_plain_read(ts, nm(".self_attn.v_proj.bias"@), xs[5]);
    }
    assert(is[b] == plain(nm(".input_layernorm.weight"@)));
    assert(is[b + 1] == linear(nm(".self_attn.o_proj.weight"@), e, q));
    assert(is[b + 2] == plain(nm(".post_attention_layernorm.weight"@)));
    assert(is[b + 3] == linear(nm(".mlp.gate_proj.weight"@), inter, e));
    assert(is[b + 4] == linear(nm(".mlp.up_proj.weight"@), inter, e));
    assert(is[b + 5] == linear(nm(".mlp.down_proj.weight"@), e, inter));
    lemma_plain_read(ts, nm(".input_layernorm.weight"@), xs[b]);
    lemma_linear_read(ts, nm(".self_attn.o_proj.weight"@), e, q, xs[b + 1]);
    lemma_plain_read(ts, nm(".post_attention_layernorm.weight"@), xs[b + 2]);
    lemma_linear_read(ts, nm(".mlp.gate_proj.weight"@), inter, e, xs[b + 3]);
    lemma_linear_read(ts, nm(".mlp.up_proj.weight"@), inter, e, xs[b + 4]);
    lemma_linear_read(ts, nm(".mlp.down_proj.weight"@), e, inter, xs[b + 5]);
}

proof fn lemma_layers_named(
    ts: Map<Seq<char>, (Store, Seq<u8>)>,
    c: Config,
    n: nat,
    ys: Seq<LayerView>,
)
    requires
        c.qkv_width() <= usize::MAX,
        read_layers(ts, c, n) == Ok::<Seq<LayerView>, ConvertErrorView>(ys),
    ensures
        ys.len() == n,
        forall|l: int| 0 <= l < n ==> layer_named(ts, c, l, #[trigger] ys[l]),
    decreases n,
{
    if n > 0 {
        let front = read_layers(ts, c, (n - 1) as nat)->Ok_0;
        let xs = read_items(ts, layer_items(c, n - 1))->Ok_0;
        lemma_layers_named(ts, c, (n - 1) as nat, front);
        if c.arch == Arch::Gpt2 {
            lemma_gpt2_layer(ts, c, n - 1, xs);
        } else {
            lemma_rotary_layer(ts, c, n - 1, xs);
        }
        assert(ys == front.push(layer_from(c, xs)));
    }
}

/// A converted model holds, in every field of every layer and outside them, the tensor of the
/// file whose name says that it belongs there, with rows and columns exchanged where the file
/// stores a linear the other way round.
pub proof fn conversion_goes_by_name(
    ts: Map<Seq<char>, (Store, Seq<u8>)>,
    c: Config,
    m: ModelView,
)
    requires
        c.qkv_width() <= usize::MAX,
        read_model(ts, c) == Ok::<ModelView, ConvertErrorView>(m),
    ensures
        m.config == c,
        m.layers.len() == c.n_layer,
        forall|l: int| 0 <= l < c.n_layer ==> layer_named(ts, c, l, #[trigger] m.layers[l]),
        tables_named(ts, m),
{
    let ls = read_layers(ts, c, c.n_layer as nat)->Ok_0;
    let is = table_items(c.arch);
    let xs = read_items(ts, is)->Ok_0;
    lemma_layers_named(ts, c, c.n_layer as nat, ls);
    assert forall|i: int| 0 <= i < is.len() implies is_tensor(ts, #[trigger] is[i].name, xs[i]) by {
        lemma_item_read(ts, is, xs, i);
        lemma_plain_read(ts, is[i].name, xs[i]);
    }
    assert(is_tensor(ts, is[0].name, m.wte));
    if c.arch == Arch::Gpt2 {
        assert(is_tensor(ts, is[1].name, m.wpe));
        assert(is_tensor(ts, is[2].name, m.lnf_g));
        assert(is_tensor(ts, is[3].name, m.lnf_b));
    } else {
        assert(is_tensor(ts, is[1].name, m.lnf_g));
        if c.arch == Arch::Llama {
            assert(is_tensor(ts, is[2].name, m.lm_head));
        }
    }
}

/// Reads an item of an opened file.
fn read_one(st: &SafeTensors, item: &Item) -> (r: Result<Vec<u32>, ConvertError>)
    ensures
        match r {
            Ok(v) => read_item(tensors_of(*st), item@) == Ok::<Seq<u32>, ConvertErrorView>(v@),
            Err(e) => read_item(tensors_of(*st), item@) == Err::<Seq<u32>, ConvertErrorView>(e@),
        },
{
    let prefixed: String = "transformer.".to_owned().concat(item.name.as_str());
    let found: Option<(Store, &[u8])> = match find_tensor(st, item.name.as_str()) {
        Some(t) => Some(t),
        None => find_tensor(st, prefixed.as_str()),
    };
    proof {
        let ts = tensors_of(*st);
        assert(prefixed@ == "transformer."@ + item.name@);
        match found {
            None => {
                assert(resolve(ts, item@.name) is None);
            },
            Some(t) => {
                assert(resolve(ts, item@.name) == Some((t.0, t.1@)));
            },
        }
    }
    match found {
        None => Err(ConvertError::Missing(item.name.clone())),
        Some((store, data)) => {
            match decode_tensor(store, data) {
                None => Err(ConvertError::UnsupportedDtype(item.name.clone())),
                Some(w) => {
                    match item.shape {
                        None => Ok(w),
                        Some((n_out, n_in)) => {
                            proof {
                                assert(0 <= n_out * n_in) by (nonlinear_arith);
                            }
                            match n_out.checked_mul(n_in) {
                                None => Err(ConvertError::TooSmall(item.name.clone())),
                                Some(n) => {
                                    if w.len() < n {
                                        Err(ConvertError::TooSmall(item.name.clone()))
                                    } else {
                                        let t: Vec<u32> = transpose_linear(&w, n_out, n_in);
                                        assert(read_item(tensors_of(*st), item@) == Ok::<Seq<u32>, ConvertErrorView>(t@));
                                        Ok(t)
                                    }
                                },
                            }
                        },
                    }
                },
            }
        },
    }
}

/// Reads items of an opened file.
fn read_all(st: &SafeTensors, items: &Vec<Item>) -> (r: Result<Vec<Vec<u32>>, ConvertError>)
    ensures
        match r {
            Ok(v) => read_items(tensors_of(*st), item_views(items@)) == Ok::<
                Seq<Seq<u32>>,
                ConvertErrorView,
            >(tensor_views(v@)),
            Err(e) => read_items(tensors_of(*st), item_views(items@)) == Err::<
                Seq<Seq<u32>>,
                ConvertErrorView,
            >(e@),
        },
{
    let ghost ts = tensors_of(*st);
    let ghost is = item_views(items@);
    let mut out: Vec<Vec<u32>> = Vec::new();
    let mut i: usize = 0;
    proof {
        assert(is.take(0) =~= Seq::empty());
        assert(tensor_views(out@) =~= Seq::empty());
    }
    while i < items.len()
        invariant
            i <= items.len(),
            ts == tensors_of(*st),
            is == item_views(items@),
            read_items(ts, is.take(i as int)) == Ok::<Seq<Seq<u32>>, ConvertErrorView>(
                tensor_views(out@),
            ),
        decreases items.len() - i,
    {
        proof {
            let t = is.take(i + 1);
            assert(t.drop_last() =~= is.take(i as int));
            assert(t.last() == items@[i as int]@);
        }
        match read_one(st, &items[i]) {
            Err(e) => {
                proof {
                    lemma_items_prefix(ts, is, i + 1);
                }
                return Err(e);
            },
            Ok(w) => {
                let ghost before = tensor_views(out@);
                out.push(w);
                assert(tensor_views(out@) =~= before.push(w@));
            },
        }
        i = i + 1;
    }
    assert(is.take(i as int) =~= is);
    Ok(out)
}

/// Reads a model of a configuration from an opened file.
fn read_opened(st: &SafeTensors, c: Config) -> (r: Result<Model, ConvertError>)
    requires
        c.qkv_width() <= usize::MAX,
    ensures
        conversion(r) == read_model(tensors_of(*st), c),
{
    let ghost ts = tensors_of(*st);
    let mut layers: Vec<Layer> = Vec::new();
    let mut l: usize = 0;
    assert(crate::model::layer_views(layers@) =~= Seq::empty());
    while l < c.n_layer
        invariant
            l <= c.n_layer,
            c.qkv_width() <= usize::MAX,
            ts == tensors_of(*st),
            read_layers(ts, c, l as nat) == Ok::<Seq<LayerView>, ConvertErrorView>(
                crate::model::layer_views(layers@),
            ),
        decreases c.n_layer - l,
    {
        let items: Vec<Item> = layer_tensors(&c, l);
        match read_all(st, &items) {
            Err(e) => {
                proof {
                    lemma_layers_prefix(ts, c, (l + 1) as nat, c.n_layer as nat);
                }
                return Err(e);
            },
            Ok(xs) => {
                proof {
                    lemma_layer_sizes(ts, c, l as int, tensor_views(xs@));
                }
                let ghost before = crate::model::layer_views(layers@);
                let y: Layer = make_layer(&c, xs);
                layers.push(y);
                assert(crate::model::layer_views(layers@) =~= before.push(y@));
            },
        }
        l = l + 1;
    }
    let items: Vec<Item> = table_tensors(c.arch);
    match read_all(st, &items) {
        Err(e) => Err(e),
        Ok(xs) => {
            proof {
                lemma_items_len(ts, table_items(c.arch));
            }
            Ok(make_model(c, layers, xs))
        },
    }
}

/// The tensors of a layer are as many as its items, and the attention linears of the
/// rotary archs have at least their shape.
proof fn lemma_layer_sizes(
    ts: Map<Seq<char>, (Store, Seq<u8>)>,
    c: Config,
    l: int,
    xs: Seq<Seq<u32>>,
)
    requires
        c.qkv_width() <= usize::MAX,
        read_items(ts, layer_items(c, l)) == Ok::<Seq<Seq<u32>>, ConvertErrorView>(xs),
    ensures
        xs.len() == layer_items(c, 0).len(),
        c.arch != Arch::Gpt2 ==> {
            &&& c.n_embd * c.q_width() <= xs[0].len()
            &&& c.n_embd * c.kv_width() <= xs[1].len()
            &&& c.n_embd * c.kv_width() <= xs[2].len()
        },
{
    crate::engine::lemma_config_widths(c);
    let is = layer_items(c, l);
    lemma_items_len(ts, is);
    if c.arch != Arch::Gpt2 {
        let (e, q, kv) = (c.n_embd as int, c.q_width(), c.kv_width());
        assert(read_item(ts, is[0]) == Ok::<Seq<u32>, ConvertErrorView>(xs[0]));
        assert(read_item(ts, is[1]) == Ok::<Seq<u32>, ConvertErrorView>(xs[1]));
        assert(read_item(ts, is[2]) == Ok::<Seq<u32>, ConvertErrorView>(xs[2]));
        assert(e * q == q * e && e * kv == kv * e) by (nonlinear_arith);
    }
}

/// Converts a checkpoint of a configuration.
fn convert_as(buf: &[u8], c: Config) -> (r: Result<Model, ConvertError>)
    requires
        c.qkv_width() <= usize::MAX,
    ensures
        conversion(r) == converted(buf@, c),
{
    match open_safetensors(buf) {
        Err(_) => Err(ConvertError::BadCheckpoint),
        Ok(st) => read_opened(&st, c),
    }
}

/// Converts a GPT-2 small checkpoint.
pub fn convert(buf: &[u8]) -> (r: Result<Model, ConvertError>)
    ensures
        conversion(r) == converted(buf@, gpt2_config()),
{
    convert_as(buf, Config::gpt2_small())
}

/// Converts a Qwen2.5-0.5B checkpoint.
pub fn convert_qwen(buf: &[u8]) -> (r: Result<Model, ConvertError>)
    ensures
        conversion(r) == converted(buf@, qwen_config()),
{
    convert_as(buf, Config::qwen25_05b())
}

/// Converts a TinyLlama-1.1B checkpoint.
pub fn convert_tinyllama(buf: &[u8]) -> (r: Result<Model, ConvertError>)
    ensures
        conversion(r) == converted(buf@, tinyllama_config()),
{
    convert_as(buf, Config::tinyllama_11b())
}

} // verus!
