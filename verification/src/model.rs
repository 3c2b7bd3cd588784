//! Model file format and host-side weight storage.
//!
//! A model file is a string of little-endian 32-bit words: magic "MXGP",
//! version, arch, n_layer, n_head, n_kv_head, head_dim, n_embd, n_inter, n_ctx,
//! n_vocab, rope_theta, norm_eps, followed by single-precision tensors in a
//! fixed per-arch order. Tensors are held as the bit patterns of their elements.
//! Linear weights are stored as `[n_in, n_out]` row-major (y = x @ W + b).

use crate::bytes::{
    bytes_words, lemma_read_on, lemma_split_injective, lemma_words_bytes_add,
    lemma_words_bytes_injective, lemma_words_round_trip, push_words, word_at, words_bytes, Reader,
};
use vstd::prelude::*;

verus! {

broadcast use crate::bytes::lemma_words_bytes_len;

/// "MXGP", read as a little-endian word.
pub const MAGIC: u32 = 0x5047584D;

pub const VERSION: u32 = 2;

/// Number of words before the first tensor.
pub const HEADER_WORDS: usize = 13;

#[derive(Debug, Clone, Copy, PartialEq, Eq, Structural)]
pub enum Arch {
    Gpt2,
    Qwen2,
    /// Qwen2's layout without the qkv bias, with a head of its own.
    Llama,
}

/// Shape of a model. The two real-valued settings are single-precision bit patterns.
#[derive(Debug, Clone, Copy, PartialEq, Eq, Structural)]
pub struct Config {
    pub arch: Arch,
    pub n_layer: usize,
    pub n_head: usize,
    /// Fewer than `n_head` means grouped-query attention.
    pub n_kv_head: usize,
    pub head_dim: usize,
    pub n_embd: usize,
    /// Width of the hidden MLP layer.
    pub n_inter: usize,
    pub n_ctx: usize,
    pub n_vocab: usize,
    /// Zero where positions are learned (GPT-2).
    pub rope_theta: u32,
    pub norm_eps: u32,
}

/// Configuration of GPT-2 small.
pub open spec fn gpt2_config() -> Config {
    Config {
        arch: Arch::Gpt2,
        n_layer: 12,
        n_head: 12,
        n_kv_head: 12,
        head_dim: 64,
        n_embd: 768,
        n_inter: 3072,
        n_ctx: 1024,
        n_vocab: 50257,
        rope_theta: 0,
        norm_eps: 0x3727C5AC,
    }
}

/// Configuration of Qwen2.5-0.5B.
pub open spec fn qwen_config() -> Config {
    Config {
        arch: Arch::Qwen2,
        n_layer: 24,
        n_head: 14,
        n_kv_head: 2,
        head_dim: 64,
        n_embd: 896,
        n_inter: 4864,
        n_ctx: 1024,
        n_vocab: 151936,
        rope_theta: 0x49742400,
        norm_eps: 0x358637BD,
    }
}

/// Configuration of TinyLlama-1.1B.
pub open spec fn tinyllama_config() -> Config {
    Config {
        arch: Arch::Llama,
        n_layer: 22,
        n_head: 32,
        n_kv_head: 4,
        head_dim: 64,
        n_embd: 2048,
        n_inter: 5632,
        n_ctx: 1024,
        n_vocab: 32000,
        rope_theta: 0x461C4000,
        norm_eps: 0x3727C5AC,
    }
}

impl Config {
    /// Width of the query vector.
    pub open spec fn q_width(self) -> int {
        self.n_head * self.head_dim
    }

    /// Width of the key vector, and of the value vector.
    pub open spec fn kv_width(self) -> int {
        self.n_kv_head * self.head_dim
    }

    /// Width of query, key and value side by side.
    pub open spec fn qkv_width(self) -> int {
        self.q_width() + 2 * self.kv_width()
    }

    /// Every size fits the 32-bit field that the file format gives it.
    pub open spec fn storable(self) -> bool {
        &&& self.n_layer <= u32::MAX
        &&& self.n_head <= u32::MAX
        &&& self.n_kv_head <= u32::MAX
        &&& self.head_dim <= u32::MAX
        &&& self.n_embd <= u32::MAX
        &&& self.n_inter <= u32::MAX
        &&& self.n_ctx <= u32::MAX
        &&& self.n_vocab <= u32::MAX
    }

    /// GPT-2 small, 124M parameters.
    pub fn gpt2_small() -> (c: Self)
        ensures
            c == gpt2_config(),
    {
        Config {
            arch: Arch::Gpt2,
            n_layer: 12,
            n_head: 12,
            n_kv_head: 12,
            head_dim: 64,
            n_embd: 768,
            n_inter: 3072,
            n_ctx: 1024,
            n_vocab: 50257,
            rope_theta: 0,
            norm_eps: 0x3727C5AC,
        }
    }

    /// Qwen2.5-0.5B, with the context capped at the KV-cache window.
    pub fn qwen25_05b() -> (c: Self)
        ensures
            c == qwen_config(),
    {
        Config {
            arch: Arch::Qwen2,
            n_layer: 24,
            n_head: 14,
            n_kv_head: 2,
            head_dim: 64,
            n_embd: 896,
            n_inter: 4864,
            n_ctx: 1024,
            n_vocab: 151936,
            rope_theta: 0x49742400,
            norm_eps: 0x358637BD,
        }
    }

    /// TinyLlama-1.1B, with the context capped like Qwen's.
    pub fn tinyllama_11b() -> (c: Self)
        ensures
            c == tinyllama_config(),
    {
        Config {
            arch: Arch::Llama,
            n_layer: 22,
            n_head: 32,
            n_kv_head: 4,
            head_dim: 64,
            n_embd: 2048,
            n_inter: 5632,
            n_ctx: 1024,
            n_vocab: 32000,
            rope_theta: 0x461C4000,
            norm_eps: 0x3727C5AC,
        }
    }

    /// Width of the query vector.
    pub fn q_dim(&self) -> (d: usize)
        requires
            self.q_width() <= usize::MAX,
        ensures
            d == self.q_width(),
    {
        self.n_head * self.head_dim
    }

    /// Width of the key vector, and of the value vector.
    pub fn kv_dim(&self) -> (d: usize)
        requires
            self.kv_width() <= usize::MAX,
        ensures
            d == self.kv_width(),
    {
        self.n_kv_head * self.head_dim
    }

    /// Width of query, key and value side by side.
    pub fn qkv_dim(&self) -> (d: usize)
        requires
            self.qkv_width() <= usize::MAX,
        ensures
            d == self.qkv_width(),
    {
        assert(self.q_width() >= 0 && self.kv_width() >= 0) by (nonlinear_arith)
            requires
                self.q_width() == self.n_head * self.head_dim,
                self.kv_width() == self.n_kv_head * self.head_dim,
        ;
        self.q_dim() + 2 * self.kv_dim()
    }
}

/// Per-layer weights. GPT-2 uses every field but `up_w`; the rotary archs leave
/// the norm and MLP biases empty and use `fc_w`/`fc2_w` as gate and down.
pub struct Layer {
    pub ln1_g: Vec<u32>,
    pub ln1_b: Vec<u32>,
    /// `[embd, q_dim + 2 * kv_dim]`
    pub qkv_w: Vec<u32>,
    pub qkv_b: Vec<u32>,
    /// `[q_dim, embd]`
    pub proj_w: Vec<u32>,
    pub proj_b: Vec<u32>,
    pub ln2_g: Vec<u32>,
    pub ln2_b: Vec<u32>,
    /// `[embd, inter]`
    pub fc_w: Vec<u32>,
    pub fc_b: Vec<u32>,
    /// `[embd, inter]`, rotary archs only
    pub up_w: Vec<u32>,
    /// `[inter, embd]`
    pub fc2_w: Vec<u32>,
    pub fc2_b: Vec<u32>,
}

pub struct Model {
    pub config: Config,
    /// `[vocab, embd]`; also the head when tied.
    pub wte: Vec<u32>,
    /// `[ctx, embd]` for GPT-2, empty for the rotary archs.
    pub wpe: Vec<u32>,
    pub layers: Vec<Layer>,
    pub lnf_g: Vec<u32>,
    pub lnf_b: Vec<u32>,
    /// `[vocab, embd]` when untied (Llama), empty when tied.
    pub lm_head: Vec<u32>,
}

/// What a `Layer` holds.
#[verifier::ext_equal]
pub struct LayerView {
    pub ln1_g: Seq<u32>,
    pub ln1_b: Seq<u32>,
    pub qkv_w: Seq<u32>,
    pub qkv_b: Seq<u32>,
    pub proj_w: Seq<u32>,
    pub proj_b: Seq<u32>,
    pub ln2_g: Seq<u32>,
    pub ln2_b: Seq<u32>,
    pub fc_w: Seq<u32>,
    pub fc_b: Seq<u32>,
    pub up_w: Seq<u32>,
    pub fc2_w: Seq<u32>,
    pub fc2_b: Seq<u32>,
}

/// What a `Model` holds.
#[verifier::ext_equal]
pub struct ModelView {
    pub config: Config,
    pub wte: Seq<u32>,
    pub wpe: Seq<u32>,
    pub layers: Seq<LayerView>,
    pub lnf_g: Seq<u32>,
    pub lnf_b: Seq<u32>,
    pub lm_head: Seq<u32>,
}

impl View for Layer {
    type V = LayerView;

    open spec fn view(&self) -> LayerView {
        LayerView {
            ln1_g: self.ln1_g@,
            ln1_b: self.ln1_b@,
            qkv_w: self.qkv_w@,
            qkv_b: self.qkv_b@,
            proj_w: self.proj_w@,
            proj_b: self.proj_b@,
            ln2_g: self.ln2_g@,
            ln2_b: self.ln2_b@,
            fc_w: self.fc_w@,
            fc_b: self.fc_b@,
            up_w: self.up_w@,
            fc2_w: self.fc2_w@,
            fc2_b: self.fc2_b@,
        }
    }
}

/// The views of a list of layers.
pub open spec fn layer_views(ls: Seq<Layer>) -> Seq<LayerView> {
    ls.map_values(|l: Layer| l@)
}

impl View for Model {
    type V = ModelView;

    open spec fn view(&self) -> ModelView {
        ModelView {
            config: self.config,
            wte: self.wte@,
            wpe: self.wpe@,
            layers: layer_views(self.layers@),
            lnf_g: self.lnf_g@,
            lnf_b: self.lnf_b@,
            lm_head: self.lm_head@,
        }
    }
}

/// `n` elements of value zero.
pub open spec fn zeros(n: int) -> Seq<u32> {
    Seq::new(n as nat, |i: int| 0u32)
}

/// The tensors of a layer have the sizes that the configuration gives them.
pub open spec fn layer_fits(c: Config, l: LayerView) -> bool {
    &&& l.ln1_g.len() == c.n_embd
    &&& l.qkv_w.len() == c.n_embd * c.qkv_width()
    &&& l.qkv_b.len() == c.qkv_width()
    &&& l.proj_w.len() == c.q_width() * c.n_embd
    &&& l.proj_b.len() == c.n_embd
    &&& l.ln2_g.len() == c.n_embd
    &&& l.fc_w.len() == c.n_embd * c.n_inter
    &&& l.fc2_w.len() == c.n_inter * c.n_embd
    &&& match c.arch {
        Arch::Gpt2 => {
            &&& l.ln1_b.len() == c.n_embd
            &&& l.ln2_b.len() == c.n_embd
            &&& l.fc_b.len() == c.n_inter
            &&& l.fc2_b.len() == c.n_embd
            &&& l.up_w.len() == 0
        },
        _ => {
            &&& l.ln1_b.len() == 0
            &&& l.ln2_b.len() == 0
            &&& l.fc_b.len() == 0
            &&& l.fc2_b.len() == 0
            &&& l.up_w.len() == c.n_embd * c.n_inter
            &&& l.proj_b == zeros(c.n_embd as int)
            &&& c.arch == Arch::Llama ==> l.qkv_b == zeros(c.qkv_width())
        },
    }
}

/// A model whose every tensor has the size that its configuration gives it, and
/// whose arch has no tensor that its file does not hold.
pub open spec fn model_fits(m: ModelView) -> bool {
    let c = m.config;
    &&& c.storable()
    &&& c.qkv_width() <= usize::MAX
    &&& m.wte.len() == c.n_vocab * c.n_embd
    &&& m.wpe.len() == (if c.arch == Arch::Gpt2 { c.n_ctx * c.n_embd } else { 0 })
    &&& m.layers.len() == c.n_layer
    &&& forall|i: int| 0 <= i < m.layers.len() ==> layer_fits(c, #[trigger] m.layers[i])
    &&& m.lnf_g.len() == c.n_embd
    &&& m.lnf_b.len() == (if c.arch == Arch::Gpt2 { c.n_embd as int } else { 0 })
    &&& m.lm_head.len() == (if c.arch == Arch::Llama { c.n_vocab * c.n_embd } else { 0 })
}

/// The tensor has the size, or is left out.
pub open spec fn sized_or_absent(t: Seq<u32>, n: int) -> bool {
    t.len() == 0 || t.len() == n
}

/// Every tensor that the layer has is of the size that the configuration gives it.
pub open spec fn layer_sized(c: Config, l: LayerView) -> bool {
    &&& l.ln1_g.len() == c.n_embd
    &&& sized_or_absent(l.ln1_b, c.n_embd as int)
    &&& l.qkv_w.len() == c.n_embd * c.qkv_width()
    &&& l.qkv_b.len() == c.qkv_width()
    &&& l.proj_w.len() == c.q_width() * c.n_embd
    &&& l.proj_b.len() == c.n_embd
    &&& l.ln2_g.len() == c.n_embd
    &&& sized_or_absent(l.ln2_b, c.n_embd as int)
    &&& l.fc_w.len() == c.n_embd * c.n_inter
    &&& sized_or_absent(l.fc_b, c.n_inter as int)
    &&& sized_or_absent(l.up_w, c.n_embd * c.n_inter)
    &&& l.fc2_w.len() == c.n_inter * c.n_embd
    &&& sized_or_absent(l.fc2_b, c.n_embd as int)
}

/// Every tensor that the model has is of the size that its configuration gives it. Which
/// of the optional ones are there is left open.
pub open spec fn model_sized(m: ModelView) -> bool {
    let c = m.config;
    &&& c.qkv_width() <= usize::MAX
    &&& m.wte.len() == c.n_vocab * c.n_embd
    &&& sized_or_absent(m.wpe, c.n_ctx * c.n_embd)
    &&& m.layers.len() == c.n_layer
    &&& forall|i: int| 0 <= i < m.layers.len() ==> layer_sized(c, #[trigger] m.layers[i])
    &&& m.lnf_g.len() == c.n_embd
    &&& sized_or_absent(m.lnf_b, c.n_embd as int)
    &&& sized_or_absent(m.lm_head, c.n_vocab * c.n_embd)
}

/// A model that fits has all its sizes.
pub proof fn fitting_models_are_sized(m: ModelView)
    requires
        model_fits(m),
    ensures
        model_sized(m),
{
}

pub open spec fn arch_tag(a: Arch) -> u32 {
    match a {
        Arch::Gpt2 => 0,
        Arch::Qwen2 => 1,
        Arch::Llama => 2,
    }
}

/// The words before the first tensor.
pub open spec fn header_words(c: Config) -> Seq<u32> {
    seq![
        MAGIC,
        VERSION,
        arch_tag(c.arch),
        c.n_layer as u32,
        c.n_head as u32,
        c.n_kv_head as u32,
        c.head_dim as u32,
        c.n_embd as u32,
        c.n_inter as u32,
        c.n_ctx as u32,
        c.n_vocab as u32,
        c.rope_theta,
        c.norm_eps,
    ]
}

/// The tensors of a layer that the file holds, in file order.
pub open spec fn layer_words(a: Arch, l: LayerView) -> Seq<u32> {
    match a {
        Arch::Gpt2 => l.ln1_g + l.ln1_b + l.qkv_w + l.qkv_b + l.proj_w + l.proj_b + l.ln2_g
            + l.ln2_b + l.fc_w + l.fc_b + l.fc2_w + l.fc2_b,
        Arch::Qwen2 => l.ln1_g + l.qkv_w + l.qkv_b + l.proj_w + l.ln2_g + l.fc_w + l.up_w + l.fc2_w,
        Arch::Llama => l.ln1_g + l.qkv_w + l.proj_w + l.ln2_g + l.fc_w + l.up_w + l.fc2_w,
    }
}

/// The layers one after the other.
pub open spec fn layers_words(a: Arch, ls: Seq<LayerView>) -> Seq<u32>
    decreases ls.len(),
{
    if ls.len() == 0 {
        Seq::empty()
    } else {
        layers_words(a, ls.drop_last()) + layer_words(a, ls.last())
    }
}

/// The words of the whole file.
pub open spec fn model_words(m: ModelView) -> Seq<u32> {
    let a = m.config.arch;
    header_words(m.config) + m.wte + (if a == Arch::Gpt2 {
        m.wpe
    } else {
        Seq::empty()
    }) + layers_words(a, m.layers) + m.lnf_g + (if a == Arch::Gpt2 {
        m.lnf_b
    } else {
        Seq::empty()
    }) + (if a == Arch::Llama {
        m.lm_head
    } else {
        Seq::empty()
    })
}

/// The tensor stands in the words from `at` on.
pub open spec fn stands_from(w: Seq<u32>, at: int, t: Seq<u32>) -> bool {
    &&& 0 <= at && at + t.len() <= w.len()
    &&& forall|i: int| 0 <= i < t.len() ==> w[at + i] == #[trigger] t[i]
}

/// The words of a layer hold its tensors, each behind the one before: norm, attention, output
/// projection, second norm, MLP, each matrix before its bias. The rotary archs have no offsets
/// of the norms and no biases but that of the attention of Qwen2.5, and their gating projection
/// stands before the other.
pub proof fn layers_hold_their_tensors_in_order(c: Config, y: LayerView)
    requires
        layer_fits(c, y),
    ensures
        ({
            let w = layer_words(c.arch, y);
            let e = c.n_embd as int;
            let (qw, qb) = (e * c.qkv_width(), c.qkv_width());
            let (pw, fw, dw) = (c.q_width() * e, e * c.n_inter, c.n_inter * e);
            match c.arch {
                Arch::Gpt2 => {
                    let fb = c.n_inter as int;
                    &&& stands_from(w, 0, y.ln1_g)
                    &&& stands_from(w, e, y.ln1_b)
                    &&& stands_from(w, 2 * e, y.qkv_w)
                    &&& stands_from(w, 2 * e + qw, y.qkv_b)
                    &&& stands_from(w, 2 * e + qw + qb, y.proj_w)
                    &&& stands_from(w, 2 * e + qw + qb + pw, y.proj_b)
                    &&& stands_from(w, 3 * e + qw + qb + pw, y.ln2_g)
                    &&& stands_from(w, 4 * e + qw + qb + pw, y.ln2_b)
                    &&& stands_from(w, 5 * e + qw + qb + pw, y.fc_w)
                    &&& stands_from(w, 5 * e + qw + qb + pw + fw, y.fc_b)
                    &&& stands_from(w, 5 * e + qw + qb + pw + fw + fb, y.fc2_w)
                    &&& stands_from(w, 5 * e + qw + qb + pw + fw + fb + dw, y.fc2_b)
                    &&& w.len() == 6 * e + qw + qb + pw + fw + fb + dw
                },
                Arch::Qwen2 => {
                    &&& stands_from(w, 0, y.ln1_g)
                    &&& stands_from(w, e, y.qkv_w)
                    &&& stands_from(w, e + qw, y.qkv_b)
                    &&& stands_from(w, e + qw + qb, y.proj_w)
                    &&& stands_from(w, e + qw + qb + pw, y.ln2_g)
                    &&& stands_from(w, 2 * e + qw + qb + pw, y.fc_w)
                    &&& stands_from(w, 2 * e + qw + qb + pw + fw, y.up_w)
                    &&& stands_from(w, 2 * e + qw + qb + pw + 2 * fw, y.fc2_w)
                    &&& w.len() == 2 * e + qw + qb + pw + 2 * fw + dw
                },
                Arch::Llama => {
                    &&& stands_from(w, 0, y.ln1_g)
                    &&& stands_from(w, e, y.qkv_w)
                    &&& stands_from(w, e + qw, y.proj_w)
                    &&& stands_from(w, e + qw + pw, y.ln2_g)
                    &&& stands_from(w, 2 * e + qw + pw, y.fc_w)
                    &&& stands_from(w, 2 * e + qw + pw + fw, y.up_w)
                    &&& stands_from(w, 2 * e + qw + pw + 2 * fw, y.fc2_w)
                    &&& w.len() == 2 * e + qw + pw + 2 * fw + dw
                },
            }
        }),
{
}

proof fn lemma_layers_front(a: Arch, ls: Seq<LayerView>, k: int)
    requires
        0 <= k < ls.len(),
    ensures
        stands_from(layers_words(a, ls), layers_words(a, ls.take(k)).len() as int, layer_words(a, ls[k])),
    decreases ls.len(),
{
    let front = ls.drop_last();
    if k == ls.len() - 1 {
        assert(ls.take(k) =~= front);
    } else {
        lemma_layers_front(a, front, k);
        assert(front.take(k) =~= ls.take(k));
    }
}

/// A model file is a header of thirteen words, the token embeddings, the position embeddings of
/// GPT-2, the layers in turn, the last norm, and the head of TinyLlama.
pub proof fn model_files_are_laid_out(m: ModelView, k: int)
    requires
        model_fits(m),
        0 <= k < m.layers.len(),
    ensures
        ({
            let w = model_words(m);
            let c = m.config;
            let a = c.arch;
            let first: int = 13 + m.wte.len() as int + m.wpe.len() as int;
            let behind: int = first + layers_words(a, m.layers).len();
            &&& w[0] == 0x5047584D && w[1] == 2
            &&& w[2] == (match a {
                Arch::Gpt2 => 0u32,
                Arch::Qwen2 => 1,
                Arch::Llama => 2,
            })
            &&& w[3] == c.n_layer && w[4] == c.n_head && w[5] == c.n_kv_head && w[6] == c.head_dim
            &&& w[7] == c.n_embd && w[8] == c.n_inter && w[9] == c.n_ctx && w[10] == c.n_vocab
            &&& w[11] == c.rope_theta && w[12] == c.norm_eps
            &&& stands_from(w, 13, m.wte)
            &&& a == Arch::Gpt2 ==> stands_from(w, 13 + m.wte.len() as int, m.wpe)
            &&& stands_from(
                w,
                first + layers_words(a, m.layers.take(k)).len(),
                layer_words(a, m.layers[k]),
            )
            &&& stands_from(w, behind, m.lnf_g)
            &&& a == Arch::Gpt2 ==> stands_from(w, behind + m.lnf_g.len(), m.lnf_b)
            &&& a == Arch::Llama ==> stands_from(w, behind + m.lnf_g.len(), m.lm_head)
        }),
{
    let w = model_words(m);
    let c = m.config;
    let a = c.arch;
    let h = header_words(c);
    assert(h.len() == 13);
    lemma_layers_front(a, m.layers, k);
    let all = layers_words(a, m.layers);
    let first: int = 13 + m.wte.len() as int + m.wpe.len() as int;
    assert(stands_from(w, 0, h));
    assert forall|i: int| 0 <= i < 13 implies w[i] == h[i] by {
        assert(w[0 + i] == h[i]);
    }
    assert(stands_from(w, 13, m.wte));
    assert(stands_from(w, first, all));
    assert(stands_from(w, first + all.len(), m.lnf_g));
    let at = layers_words(a, m.layers.take(k)).len() as int;
    let t = layer_words(a, m.layers[k]);
    assert(stands_from(all, at, t));
    assert forall|i: int| 0 <= i < t.len() implies w[first + at + i] == #[trigger] t[i] by {
        assert(all[at + i] == t[i]);
        assert(w[first + (at + i)] == all[at + i]);
    }
}

/// The bytes of a model file.
pub open spec fn model_bytes(m: ModelView) -> Seq<u8> {
    words_bytes(model_words(m))
}

/// Number of words that a layer takes in the file.
pub open spec fn layer_len(c: Config) -> int {
    let e = c.n_embd as int;
    let mats = e * c.qkv_width() + c.q_width() * e + e * c.n_inter + c.n_inter * e;
    match c.arch {
        Arch::Gpt2 => mats + 6 * e + c.qkv_width() + c.n_inter,
        Arch::Qwen2 => mats + e * c.n_inter + 2 * e + c.qkv_width(),
        Arch::Llama => mats + e * c.n_inter + 2 * e,
    }
}

/// Number of words in the whole file.
pub open spec fn file_len(c: Config) -> int {
    let e = c.n_embd as int;
    HEADER_WORDS + c.n_vocab * e + c.n_layer * layer_len(c) + e + match c.arch {
        Arch::Gpt2 => c.n_ctx * e + e,
        Arch::Qwen2 => 0,
        Arch::Llama => c.n_vocab * e,
    }
}

/// Why a byte string is not a model file.
#[derive(Debug, Clone, Copy, PartialEq, Eq, Structural)]
pub enum LoadError {
    /// The file ends before its last tensor does.
    Truncated,
    /// The magic word is another one.
    NotModel,
    UnsupportedVersion(u32),
    UnknownArch(u32),
    /// The attention width of the header does not fit the machine.
    TooLarge,
    /// The file goes on after its last tensor.
    TrailingBytes,
}

/// The configuration in the header of a file.
pub open spec fn header_config(b: Seq<u8>) -> Config {
    Config {
        arch: if word_at(b, 8) == 0 {
            Arch::Gpt2
        } else if word_at(b, 8) == 1 {
            Arch::Qwen2
        } else {
            Arch::Llama
        },
        n_layer: word_at(b, 12) as usize,
        n_head: word_at(b, 16) as usize,
        n_kv_head: word_at(b, 20) as usize,
        head_dim: word_at(b, 24) as usize,
        n_embd: word_at(b, 28) as usize,
        n_inter: word_at(b, 32) as usize,
        n_ctx: word_at(b, 36) as usize,
        n_vocab: word_at(b, 40) as usize,
        rope_theta: word_at(b, 44),
        norm_eps: word_at(b, 48),
    }
}

/// What is wrong with a byte string as a header: the first of these that holds.
pub open spec fn header_error(b: Seq<u8>) -> Option<LoadError> {
    if b.len() < 4 {
        Some(LoadError::Truncated)
    } else if word_at(b, 0) != MAGIC {
        Some(LoadError::NotModel)
    } else if b.len() < 8 {
        Some(LoadError::Truncated)
    } else if word_at(b, 4) != VERSION {
        Some(LoadError::UnsupportedVersion(word_at(b, 4)))
    } else if b.len() < 12 {
        Some(LoadError::Truncated)
    } else if word_at(b, 8) > 2 {
        Some(LoadError::UnknownArch(word_at(b, 8)))
    } else if b.len() < 4 * HEADER_WORDS {
        Some(LoadError::Truncated)
    } else {
        None
    }
}

/// What is wrong with a byte string as a model file, `None` if nothing is.
pub open spec fn load_error(b: Seq<u8>) -> Option<LoadError> {
    let c = header_config(b);
    if header_error(b) is Some {
        header_error(b)
    } else if c.qkv_width() > usize::MAX {
        Some(LoadError::TooLarge)
    } else if b.len() < 4 * file_len(c) {
        Some(LoadError::Truncated)
    } else if b.len() > 4 * file_len(c) {
        Some(LoadError::TrailingBytes)
    } else {
        None
    }
}

/// The sizes of a layer that fits add up to `layer_len`.
proof fn lemma_layer_len(c: Config, l: LayerView)
    requires
        layer_fits(c, l),
    ensures
        layer_words(c.arch, l).len() == layer_len(c),
{
}

proof fn lemma_layers_len(c: Config, ls: Seq<LayerView>)
    requires
        forall|i: int| 0 <= i < ls.len() ==> layer_fits(c, #[trigger] ls[i]),
    ensures
        layers_words(c.arch, ls).len() == ls.len() * layer_len(c),
    decreases ls.len(),
{
    if ls.len() > 0 {
        let n = ls.len() - 1;
        let k = layer_len(c);
        lemma_layers_len(c, ls.drop_last());
        lemma_layer_len(c, ls.last());
        assert((n + 1) * k == n * k + k) by (nonlinear_arith);
    } else {
        assert(0 * layer_len(c) == 0) by (nonlinear_arith);
    }
}

/// A model that fits fills exactly `file_len` words.
proof fn lemma_model_len(m: ModelView)
    requires
        model_fits(m),
    ensures
        model_words(m).len() == file_len(m.config),
{
    lemma_layers_len(m.config, m.layers);
}

/// The tensors of a layer can be told from its words.
proof fn lemma_layer_injective(c: Config, l: LayerView, k: LayerView)
    requires
        layer_fits(c, l),
        layer_fits(c, k),
        layer_words(c.arch, l) == layer_words(c.arch, k),
    ensures
        l == k,
{
    match c.arch {
        Arch::Gpt2 => {
            let l1 = l.ln1_g + l.ln1_b;
            let k1 = k.ln1_g + k.ln1_b;
            let l2 = l1 + l.qkv_w;
            let k2 = k1 + k.qkv_w;
            let l3 = l2 + l.qkv_b;
            let k3 = k2 + k.qkv_b;
            let l4 = l3 + l.proj_w;
            let k4 = k3 + k.proj_w;
            let l5 = l4 + l.proj_b;
            let k5 = k4 + k.proj_b;
            let l6 = l5 + l.ln2_g;
            let k6 = k5 + k.ln2_g;
            let l7 = l6 + l.ln2_b;
            let k7 = k6 + k.ln2_b;
            let l8 = l7 + l.fc_w;
            let k8 = k7 + k.fc_w;
            let l9 = l8 + l.fc_b;
            let k9 = k8 + k.fc_b;
            let l10 = l9 + l.fc2_w;
            let k10 = k9 + k.fc2_w;
            lemma_split_injective(l10, l.fc2_b, k10, k.fc2_b);
            lemma_split_injective(l9, l.fc2_w, k9, k.fc2_w);
            lemma_split_injective(l8, l.fc_b, k8, k.fc_b);
            lemma_split_injective(l7, l.fc_w, k7, k.fc_w);
            lemma_split_injective(l6, l.ln2_b, k6, k.ln2_b);
            lemma_split_injective(l5, l.ln2_g, k5, k.ln2_g);
            lemma_split_injective(l4, l.proj_b, k4, k.proj_b);
            lemma_split_injective(l3, l.proj_w, k3, k.proj_w);
            lemma_split_injective(l2, l.qkv_b, k2, k.qkv_b);
            lemma_split_injective(l1, l.qkv_w, k1, k.qkv_w);
            lemma_split_injective(l.ln1_g, l.ln1_b, k.ln1_g, k.ln1_b);
        },
        Arch::Qwen2 => {
            let l1 = l.ln1_g + l.qkv_w;
            let k1 = k.ln1_g + k.qkv_w;
            let l2 = l1 + l.qkv_b;
            let k2 = k1 + k.qkv_b;
            let l3 = l2 + l.proj_w;
            let k3 = k2 + k.proj_w;
            let l4 = l3 + l.ln2_g;
            let k4 = k3 + k.ln2_g;
            let l5 = l4 + l.fc_w;
            let k5 = k4 + k.fc_w;
            let l6 = l5 + l.up_w;
            let k6 = k5 + k.up_w;
            lemma_split_injective(l6, l.fc2_w, k6, k.fc2_w);
            lemma_split_injective(l5, l.up_w, k5, k.up_w);
            lemma_split_injective(l4, l.fc_w, k4, k.fc_w);
            lemma_split_injective(l3, l.ln2_g, k3, k.ln2_g);
            lemma_split_injective(l2, l.proj_w, k2, k.proj_w);
            lemma_split_injective(l1, l.qkv_b, k1, k.qkv_b);
            lemma_split_injective(l.ln1_g, l.qkv_w, k.ln1_g, k.qkv_w);
        },
        Arch::Llama => {
            let l1 = l.ln1_g + l.qkv_w;
            let k1 = k.ln1_g + k.qkv_w;
            let l2 = l1 + l.proj_w;
            let k2 = k1 + k.proj_w;
            let l3 = l2 + l.ln2_g;
            let k3 = k2 + k.ln2_g;
            let l4 = l3 + l.fc_w;
            let k4 = k3 + k.fc_w;
            let l5 = l4 + l.up_w;
            let k5 = k4 + k.up_w;
            lemma_split_injective(l5, l.fc2_w, k5, k.fc2_w);
            lemma_split_injective(l4, l.up_w, k4, k.up_w);
            lemma_split_injective(l3, l.fc_w, k3, k.fc_w);
            lemma_split_injective(l2, l.ln2_g, k2, k.ln2_g);
            lemma_split_injective(l1, l.proj_w, k1, k.proj_w);
            lemma_split_injective(l.ln1_g, l.qkv_w, k.ln1_g, k.qkv_w);
        },
    }
    assert(l =~= k);
}

proof fn lemma_layers_injective(c: Config, ls: Seq<LayerView>, ks: Seq<LayerView>)
    requires
        ls.len() == ks.len(),
        forall|i: int| 0 <= i < ls.len() ==> layer_fits(c, #[trigger] ls[i]),
        forall|i: int| 0 <= i < ks.len() ==> layer_fits(c, #[trigger] ks[i]),
        layers_words(c.arch, ls) == layers_words(c.arch, ks),
    ensures
        ls == ks,
    decreases ls.len(),
{
    if ls.len() > 0 {
        lemma_layers_len(c, ls.drop_last());
        lemma_layers_len(c, ks.drop_last());
        lemma_split_injective(
            layers_words(c.arch, ls.drop_last()),
            layer_words(c.arch, ls.last()),
            layers_words(c.arch, ks.drop_last()),
            layer_words(c.arch, ks.last()),
        );
        lemma_layers_injective(c, ls.drop_last(), ks.drop_last());
        lemma_layer_injective(c, ls.last(), ks.last());
        assert(ls =~= ls.drop_last().push(ls.last()));
        assert(ks =~= ks.drop_last().push(ks.last()));
    } else {
        assert(ls =~= ks);
    }
}

/// Two models with the same header words have the same configuration.
proof fn lemma_header_injective(c: Config, d: Config)
    requires
        c.storable(),
        d.storable(),
        header_words(c) == header_words(d),
    ensures
        c == d,
{
    let h = header_words(c);
    let k = header_words(d);
    assert(h[2] == k[2] && h[3] == k[3] && h[4] == k[4] && h[5] == k[5] && h[6] == k[6] && h[7]
        == k[7] && h[8] == k[8] && h[9] == k[9] && h[10] == k[10] && h[11] == k[11] && h[12]
        == k[12]);
}

/// The file of a model begins with its header.
proof fn lemma_header_first(m: ModelView)
    ensures
        model_words(m).len() >= 13,
        model_words(m).take(13) == header_words(m.config),
{
    let a = m.config.arch;
    let none = Seq::<u32>::empty();
    let h = header_words(m.config);
    let w1 = h + m.wte;
    let w2 = w1 + (if a == Arch::Gpt2 { m.wpe } else { none });
    let w3 = w2 + layers_words(a, m.layers);
    let w4 = w3 + m.lnf_g;
    let w5 = w4 + (if a == Arch::Gpt2 { m.lnf_b } else { none });
    let w6 = w5 + (if a == Arch::Llama { m.lm_head } else { none });
    assert(w1.take(13) =~= h);
    assert(w2.take(13) =~= w1.take(13));
    assert(w3.take(13) =~= w2.take(13));
    assert(w4.take(13) =~= w3.take(13));
    assert(w5.take(13) =~= w4.take(13));
    assert(w6.take(13) =~= w5.take(13));
    assert(w6 == model_words(m));
}

/// A file determines the model that was saved in it: two models that fit and
/// have the same bytes are the same model.
pub proof fn saved_models_differ(m: ModelView, n: ModelView)
    requires
        model_fits(m),
        model_fits(n),
        model_bytes(m) == model_bytes(n),
    ensures
        m == n,
{
    lemma_words_bytes_injective(model_words(m), model_words(n));
    let hm = header_words(m.config);
    let hn = header_words(n.config);
    lemma_header_first(m);
    lemma_header_first(n);
    lemma_header_injective(m.config, n.config);
    let c = m.config;
    let a = c.arch;
    lemma_layers_len(c, m.layers);
    lemma_layers_len(c, n.layers);
    let none = Seq::<u32>::empty();
    let m1 = hm + m.wte;
    let n1 = hn + n.wte;
    let m2 = m1 + (if a == Arch::Gpt2 { m.wpe } else { none });
    let n2 = n1 + (if a == Arch::Gpt2 { n.wpe } else { none });
    let m3 = m2 + layers_words(a, m.layers);
    let n3 = n2 + layers_words(a, n.layers);
    let m4 = m3 + m.lnf_g;
    let n4 = n3 + n.lnf_g;
    let m5 = m4 + (if a == Arch::Gpt2 { m.lnf_b } else { none });
    let n5 = n4 + (if a == Arch::Gpt2 { n.lnf_b } else { none });
    let mh = (if a == Arch::Llama { m.lm_head } else { none });
    let nh = (if a == Arch::Llama { n.lm_head } else { none });
    lemma_split_injective(m5, mh, n5, nh);
    lemma_split_injective(
        m4,
        (if a == Arch::Gpt2 { m.lnf_b } else { none }),
        n4,
        (if a == Arch::Gpt2 { n.lnf_b } else { none }),
    );
    lemma_split_injective(m3, m.lnf_g, n3, n.lnf_g);
    lemma_split_injective(m2, layers_words(a, m.layers), n2, layers_words(a, n.layers));
    lemma_split_injective(
        m1,
        (if a == Arch::Gpt2 { m.wpe } else { none }),
        n1,
        (if a == Arch::Gpt2 { n.wpe } else { none }),
    );
    lemma_split_injective(hm, m.wte, hn, n.wte);
    lemma_layers_injective(c, m.layers, n.layers);
    assert(m =~= n);
}

/// Bytes that begin with the words of a header read back as its configuration.
proof fn lemma_header_back(b: Seq<u8>, c: Config)
    requires
        c.storable(),
        b.len() >= 52,
        forall|p: int|
            0 <= p < 52 && p % 4 == 0 ==> #[trigger] word_at(b, p) == header_words(c)[p / 4],
    ensures
        header_error(b) is None,
        header_config(b) == c,
{
    let h = header_words(c);
    assert(word_at(b, 0) == h[0] && word_at(b, 4) == h[1] && word_at(b, 8) == h[2]);
    assert(word_at(b, 12) == h[3] && word_at(b, 16) == h[4] && word_at(b, 20) == h[5]);
    assert(word_at(b, 24) == h[6] && word_at(b, 28) == h[7] && word_at(b, 32) == h[8]);
    assert(word_at(b, 36) == h[9] && word_at(b, 40) == h[10] && word_at(b, 44) == h[11]);
    assert(word_at(b, 48) == h[12]);
}

/// The header of a saved model reads back as its configuration.
proof fn lemma_saved_header(m: ModelView)
    requires
        model_fits(m),
    ensures
        header_error(model_bytes(m)) is None,
        header_config(model_bytes(m)) == m.config,
{
    lemma_saved_words(m);
    lemma_header_back(model_bytes(m), m.config);
}

/// The first words of a list are the first words of its bytes.
proof fn lemma_front_words(ws: Seq<u32>, h: Seq<u32>)
    requires
        h.len() <= ws.len(),
        ws.take(h.len() as int) == h,
    ensures
        words_bytes(ws).len() >= 4 * h.len(),
        forall|p: int|
            0 <= p < 4 * h.len() && p % 4 == 0 ==> #[trigger] word_at(words_bytes(ws), p) == h[p
                / 4],
{
    lemma_words_round_trip(ws);
    let back = bytes_words(words_bytes(ws));
    assert forall|p: int| 0 <= p < 4 * h.len() && p % 4 == 0 implies #[trigger] word_at(
        words_bytes(ws),
        p,
    ) == h[p / 4] by {
        assert(back[p / 4] == ws[p / 4]);
        assert(ws.take(h.len() as int)[p / 4] == ws[p / 4]);
    }
}

/// The words at the front of a saved file are the header's.
proof fn lemma_saved_words(m: ModelView)
    ensures
        model_bytes(m).len() >= 52,
        forall|p: int|
            0 <= p < 52 && p % 4 == 0 ==> #[trigger] word_at(model_bytes(m), p) == header_words(
                m.config,
            )[p / 4],
{
    lemma_header_first(m);
    lemma_front_words(model_words(m), header_words(m.config));
}

/// Loading gives back what was saved: a saved model is accepted, and the only
/// model that loading may return for its bytes is the model itself.
pub proof fn load_gives_back_what_was_saved(m: ModelView, loaded: ModelView)
    requires
        model_fits(m),
        model_fits(loaded),
        model_bytes(loaded) == model_bytes(m),
    ensures
        load_error(model_bytes(m)) is None,
        loaded == m,
{
    lemma_saved_header(m);
    lemma_model_len(m);
    saved_models_differ(loaded, m);
}

/// `n` zeros.
fn zero_tensor(n: usize) -> (v: Vec<u32>)
    ensures
        v@ == zeros(n as int),
{
    let v: Vec<u32> = vec![0u32; n];
    assert(v@ =~= zeros(n as int));
    v
}

/// Reads the layer at the cursor, or nothing where the file ends inside it.
fn read_layer(r: &mut Reader, c: &Config) -> (res: Option<Layer>)
    requires
        old(r).wf(),
        c.storable(),
        c.qkv_width() <= usize::MAX,
    ensures
        final(r).wf(),
        final(r).buf@ == old(r).buf@,
        match res {
            Some(l) => {
                &&& layer_fits(*c, l@)
                &&& final(r).pos == old(r).pos + 4 * layer_len(*c)
                &&& final(r).pos <= old(r).buf@.len()
                &&& words_bytes(layer_words(c.arch, l@)) == old(r).buf@.subrange(
                    old(r).pos as int,
                    final(r).pos as int,
                )
            },
            None => old(r).pos + 4 * layer_len(*c) > old(r).buf@.len(),
        },
{
    let ghost b = r.buf@;
    let ghost p0 = r.pos as int;
    proof {
        lemma_widths(*c);
    }
    let qkv: usize = c.qkv_dim();
    let e: u128 = c.n_embd as u128;
    let inter: u128 = c.n_inter as u128;
    let n_qkv: u128 = e * (qkv as u128);
    let n_proj: u128 = (c.q_dim() as u128) * e;
    let n_fc: u128 = e * inter;
    let n_fc2: u128 = inter * e;
    let none: Vec<u32> = Vec::new();
    match c.arch {
        Arch::Gpt2 => {
            let ln1_g = r.words(e)?;
            let ghost p1 = r.pos as int;
            let ln1_b = r.words(e)?;
            let ghost p2 = r.pos as int;
            let qkv_w = r.words(n_qkv)?;
            let ghost p3 = r.pos as int;
            let qkv_b = r.words(qkv as u128)?;
            let ghost p4 = r.pos as int;
            let proj_w = r.words(n_proj)?;
            let ghost p5 = r.pos as int;
            let proj_b = r.words(e)?;
            let ghost p6 = r.pos as int;
            let ln2_g = r.words(e)?;
            let ghost p7 = r.pos as int;
            let ln2_b = r.words(e)?;
            let ghost p8 = r.pos as int;
            let fc_w = r.words(n_fc)?;
            let ghost p9 = r.pos as int;
            let fc_b = r.words(inter)?;
            let ghost p10 = r.pos as int;
            let fc2_w = r.words(n_fc2)?;
            let ghost p11 = r.pos as int;
            let fc2_b = r.words(e)?;
            proof {
                let a1 = ln1_g@ + ln1_b@;
                lemma_read_on(b, p0, p1, p2, ln1_g@, ln1_b@);
                let a2 = a1 + qkv_w@;
                lemma_read_on(b, p0, p2, p3, a1, qkv_w@);
                let a3 = a2 + qkv_b@;
                lemma_read_on(b, p0, p3, p4, a2, qkv_b@);
                let a4 = a3 + proj_w@;
                lemma_read_on(b, p0, p4, p5, a3, proj_w@);
                let a5 = a4 + proj_b@;
                lemma_read_on(b, p0, p5, p6, a4, proj_b@);
                let a6 = a5 + ln2_g@;
                lemma_read_on(b, p0, p6, p7, a5, ln2_g@);
                let a7 = a6 + ln2_b@;
                lemma_read_on(b, p0, p7, p8, a6, ln2_b@);
                let a8 = a7 + fc_w@;
                lemma_read_on(b, p0, p8, p9, a7, fc_w@);
                let a9 = a8 + fc_b@;
                lemma_read_on(b, p0, p9, p10, a8, fc_b@);
                let a10 = a9 + fc2_w@;
                lemma_read_on(b, p0, p10, p11, a9, fc2_w@);
                lemma_read_on(b, p0, p11, r.pos as int, a10, fc2_b@);
            }
            Some(
                Layer {
                    ln1_g,
                    ln1_b,
                    qkv_w,
                    qkv_b,
                    proj_w,
                    proj_b,
                    ln2_g,
                    ln2_b,
                    fc_w,
                    fc_b,
                    up_w: none,
                    fc2_w,
                    fc2_b,
                },
            )
        },
        Arch::Qwen2 => {
            let ln1_g = r.words(e)?;
            let ghost p1 = r.pos as int;
            let qkv_w = r.words(n_qkv)?;
            let ghost p2 = r.pos as int;
            let qkv_b = r.words(qkv as u128)?;
            let ghost p3 = r.pos as int;
            let proj_w = r.words(n_proj)?;
            let ghost p4 = r.pos as int;
            let ln2_g = r.words(e)?;
            let ghost p5 = r.pos as int;
            let fc_w = r.words(n_fc)?;
            let ghost p6 = r.pos as int;
            let up_w = r.words(n_fc)?;
            let ghost p7 = r.pos as int;
            let fc2_w = r.words(n_fc2)?;
            proof {
                let a1 = ln1_g@ + qkv_w@;
                lemma_read_on(b, p0, p1, p2, ln1_g@, qkv_w@);
                let a2 = a1 + qkv_b@;
                lemma_read_on(b, p0, p2, p3, a1, qkv_b@);
                let a3 = a2 + proj_w@;
                lemma_read_on(b, p0, p3, p4, a2, proj_w@);
                let a4 = a3 + ln2_g@;
                lemma_read_on(b, p0, p4, p5, a3, ln2_g@);
                let a5 = a4 + fc_w@;
                lemma_read_on(b, p0, p5, p6, a4, fc_w@);
                let a6 = a5 + up_w@;
                lemma_read_on(b, p0, p6, p7, a5, up_w@);
                lemma_read_on(b, p0, p7, r.pos as int, a6, fc2_w@);
            }
            Some(
                Layer {
                    ln1_g,
                    ln1_b: none,
                    qkv_w,
                    qkv_b,
                    proj_w,
                    proj_b: zero_tensor(c.n_embd),
                    ln2_g,
                    ln2_b: Vec::new(),
                    fc_w,
                    fc_b: Vec::new(),
                    up_w,
                    fc2_w,
                    fc2_b: Vec::new(),
                },
            )
        },
        Arch::Llama => {
            let ln1_g = r.words(e)?;
            let ghost p1 = r.pos as int;
            let qkv_w = r.words(n_qkv)?;
            let ghost p2 = r.pos as int;
            let proj_w = r.words(n_proj)?;
            let ghost p3 = r.pos as int;
            let ln2_g = r.words(e)?;
            let ghost p4 = r.pos as int;
            let fc_w = r.words(n_fc)?;
            let ghost p5 = r.pos as int;
            let up_w = r.words(n_fc)?;
            let ghost p6 = r.pos as int;
            let fc2_w = r.words(n_fc2)?;
            proof {
                let a1 = ln1_g@ + qkv_w@;
                lemma_read_on(b, p0, p1, p2, ln1_g@, qkv_w@);
                let a2 = a1 + proj_w@;
                lemma_read_on(b, p0, p2, p3, a1, proj_w@);
                let a3 = a2 + ln2_g@;
                lemma_read_on(b, p0, p3, p4, a2, ln2_g@);
                let a4 = a3 + fc_w@;
                lemma_read_on(b, p0, p4, p5, a3, fc_w@);
                let a5 = a4 + up_w@;
                lemma_read_on(b, p0, p5, p6, a4, up_w@);
                lemma_read_on(b, p0, p6, r.pos as int, a5, fc2_w@);
            }
            Some(
                Layer {
                    ln1_g,
                    ln1_b: none,
                    qkv_w,
                    qkv_b: zero_tensor(qkv),
                    proj_w,
                    proj_b: zero_tensor(c.n_embd),
                    ln2_g,
                    ln2_b: Vec::new(),
                    fc_w,
                    fc_b: Vec::new(),
                    up_w,
                    fc2_w,
                    fc2_b: Vec::new(),
                },
            )
        },
    }
}

proof fn lemma_shape_words(b: Seq<u8>, ws: Seq<u32>)
    requires
        b.len() >= 52,
        ws.len() == 10,
        words_bytes(ws) == b.subrange(12, 52),
    ensures
        forall|i: int| 0 <= i < 10 ==> #[trigger] ws[i] == word_at(b, 12 + 4 * i),
{
    let t = b.subrange(12, 52);
    crate::bytes::lemma_words_round_trip(ws);
    let back = crate::bytes::bytes_words(t);
    assert forall|i: int| 0 <= i < 10 implies #[trigger] ws[i] == word_at(b, 12 + 4 * i) by {
        assert(back[i] == ws[i]);
    }
}

/// Reads the header, or says what is wrong with it.
fn read_header(r: &mut Reader) -> (res: Result<Config, LoadError>)
    requires
        old(r).wf(),
        old(r).pos == 0,
    ensures
        final(r).wf(),
        final(r).buf@ == old(r).buf@,
        match res {
            Ok(c) => {
                &&& header_error(old(r).buf@) is None
                &&& c == header_config(old(r).buf@)
                &&& final(r).pos == 4 * HEADER_WORDS
            },
            Err(e) => header_error(old(r).buf@) == Some(e),
        },
{
    let ghost b = r.buf@;
    match r.u32() {
        None => {
            return Err(LoadError::Truncated);
        },
        Some(w) => {
            if w != MAGIC {
                return Err(LoadError::NotModel);
            }
        },
    }
    match r.u32() {
        None => {
            return Err(LoadError::Truncated);
        },
        Some(w) => {
            if w != VERSION {
                return Err(LoadError::UnsupportedVersion(w));
            }
        },
    }
    let arch = match r.u32() {
        None => {
            return Err(LoadError::Truncated);
        },
        Some(w) => {
            if w == 0 {
                Arch::Gpt2
            } else if w == 1 {
                Arch::Qwen2
            } else if w == 2 {
                Arch::Llama
            } else {
                return Err(LoadError::UnknownArch(w));
            }
        },
    };
    match r.words(10) {
        None => Err(LoadError::Truncated),
        Some(ws) => {
            proof {
                lemma_shape_words(b, ws@);
            }
            Ok(
                Config {
                    arch,
                    n_layer: ws[0] as usize,
                    n_head: ws[1] as usize,
                    n_kv_head: ws[2] as usize,
                    head_dim: ws[3] as usize,
                    n_embd: ws[4] as usize,
                    n_inter: ws[5] as usize,
                    n_ctx: ws[6] as usize,
                    n_vocab: ws[7] as usize,
                    rope_theta: ws[8],
                    norm_eps: ws[9],
                },
            )
        },
    }
}

/// The first 13 words of a file whose header is accepted are the header of its
/// configuration.
proof fn lemma_header_bytes(b: Seq<u8>)
    requires
        header_error(b) is None,
    ensures
        header_config(b).storable(),
        words_bytes(header_words(header_config(b))) == b.take(52),
{
    let h = header_words(header_config(b));
    let back = crate::bytes::bytes_words(b.take(52));
    assert(back =~= h) by {
        assert(back.len() == 13);
        assert(back[0] == h[0] && back[1] == h[1] && back[2] == h[2] && back[3] == h[3] && back[4]
            == h[4] && back[5] == h[5] && back[6] == h[6] && back[7] == h[7] && back[8] == h[8]
            && back[9] == h[9] && back[10] == h[10] && back[11] == h[11] && back[12] == h[12]);
    }
    crate::bytes::lemma_file_round_trip(b.take(52));
}

impl Model {
    /// The bytes of the model's file.
    pub fn save(&self) -> (out: Vec<u8>)
        ensures
            out@ == model_bytes(self@),
    {
        let c = &self.config;
        let mut out: Vec<u8> = Vec::new();
        let tag: u32 = match c.arch {
            Arch::Gpt2 => 0,
            Arch::Qwen2 => 1,
            Arch::Llama => 2,
        };
        let head: Vec<u32> = vec![
            MAGIC,
            VERSION,
            tag,
            c.n_layer as u32,
            c.n_head as u32,
            c.n_kv_head as u32,
            c.head_dim as u32,
            c.n_embd as u32,
            c.n_inter as u32,
            c.n_ctx as u32,
            c.n_vocab as u32,
            c.rope_theta,
            c.norm_eps,
        ];
        assert(head@ =~= header_words(*c));
        let ghost mut acc = head@;
        push_words(&mut out, &head);
        assert(out@ =~= words_bytes(acc));
        push_words(&mut out, &self.wte);
        proof {
            lemma_words_bytes_add(acc, self.wte@);
            acc = acc + self.wte@;
        }
        let ghost wpe = if c.arch == Arch::Gpt2 { self.wpe@ } else { Seq::empty() };
        if c.arch == Arch::Gpt2 {
            push_words(&mut out, &self.wpe);
        }
        proof {
            lemma_words_bytes_add(acc, wpe);
            assert(words_bytes(Seq::empty()) =~= Seq::<u8>::empty());
            acc = acc + wpe;
            assert(out@ =~= words_bytes(acc));
        }
        let mut i: usize = 0;
        let ghost pre = acc;
        proof {
            assert(layer_views(self.layers@).take(0) =~= Seq::empty());
            assert(pre + layers_words(c.arch, layer_views(self.layers@).take(0)) =~= pre);
        }
        while i < self.layers.len()
            invariant
                i <= self.layers.len(),
                *c == self.config,
                acc == pre + layers_words(c.arch, layer_views(self.layers@).take(i as int)),
                out@ == words_bytes(acc),
            decreases self.layers.len() - i,
        {
            let l = &self.layers[i];
            self::push_layer(&mut out, c.arch, l);
            proof {
                let ls = layer_views(self.layers@);
                let w = layer_words(c.arch, l@);
                lemma_words_bytes_add(acc, w);
                let next = ls.take(i + 1);
                assert(next.drop_last() =~= ls.take(i as int));
                assert(next.last() == l@);
                assert(acc + w =~= pre + layers_words(c.arch, next));
                acc = acc + w;
            }
            i = i + 1;
        }
        assert(layer_views(self.layers@).take(i as int) =~= layer_views(self.layers@));
        push_words(&mut out, &self.lnf_g);
        proof {
            lemma_words_bytes_add(acc, self.lnf_g@);
            acc = acc + self.lnf_g@;
        }
        let ghost lnf_b = if c.arch == Arch::Gpt2 { self.lnf_b@ } else { Seq::empty() };
        if c.arch == Arch::Gpt2 {
            push_words(&mut out, &self.lnf_b);
        }
        proof {
            lemma_words_bytes_add(acc, lnf_b);
            assert(words_bytes(Seq::empty()) =~= Seq::<u8>::empty());
            acc = acc + lnf_b;
            assert(out@ =~= words_bytes(acc));
        }
        let ghost head_w = if c.arch == Arch::Llama { self.lm_head@ } else { Seq::empty() };
        if c.arch == Arch::Llama {
            push_words(&mut out, &self.lm_head);
        }
        proof {
            lemma_words_bytes_add(acc, head_w);
            assert(out@ =~= words_bytes(acc + head_w));
            assert(acc + head_w == model_words(self@));
        }
        out
    }

    /// Reads a model file: the model that the bytes are the file of, or the first
    /// thing that is wrong with them.
    pub fn load(buf: &[u8]) -> (res: Result<Model, LoadError>)
        ensures
            match res {
                Ok(m) => load_error(buf@) is None && model_fits(m@) && model_bytes(m@) == buf@,
                Err(e) => load_error(buf@) == Some(e),
            },
    {
        let mut r = Reader::new(buf);
        let c = match read_header(&mut r) {
            Err(e) => {
                return Err(e);
            },
            Ok(c) => c,
        };
        proof {
            lemma_header_bytes(buf@);
            lemma_widths(c);
        }
        let width: u128 = (c.n_head as u128) * (c.head_dim as u128) + 2 * ((c.n_kv_head as u128) * (
        c.head_dim as u128));
        if width > usize::MAX as u128 {
            return Err(LoadError::TooLarge);
        }
        match self::read_tensors(&mut r, c) {
            None => Err(LoadError::Truncated),
            Some(m) => {
                if r.pos != buf.len() {
                    Err(LoadError::TrailingBytes)
                } else {
                    assert(buf@.subrange(0, r.pos as int) =~= buf@);
                    Ok(m)
                }
            },
        }
    }
}

proof fn lemma_append_on(a: Seq<u8>, b: Seq<u8>, c: Seq<u8>)
    ensures
        (a + b) + c == a + (b + c),
{
    assert((a + b) + c =~= a + (b + c));
}

/// Appends the tensors of a layer that the file holds.
fn push_layer(out: &mut Vec<u8>, a: Arch, l: &Layer)
    ensures
        final(out)@ == old(out)@ + words_bytes(layer_words(a, l@)),
{
    let ghost base = out@;
    match a {
        Arch::Gpt2 => {
            push_words(out, &l.ln1_g);
            push_words(out, &l.ln1_b);
            push_words(out, &l.qkv_w);
            push_words(out, &l.qkv_b);
            push_words(out, &l.proj_w);
            push_words(out, &l.proj_b);
            push_words(out, &l.ln2_g);
            push_words(out, &l.ln2_b);
            push_words(out, &l.fc_w);
            push_words(out, &l.fc_b);
            push_words(out, &l.fc2_w);
            push_words(out, &l.fc2_b);
            proof {
                let a0 = l.ln1_g@;
                let a1 = a0 + l.ln1_b@;
                lemma_words_bytes_add(a0, l.ln1_b@);
                lemma_append_on(base, words_bytes(a0), words_bytes(l.ln1_b@));
                let a2 = a1 + l.qkv_w@;
                lemma_words_bytes_add(a1, l.qkv_w@);
                lemma_append_on(base, words_bytes(a1), words_bytes(l.qkv_w@));
                let a3 = a2 + l.qkv_b@;
                lemma_words_bytes_add(a2, l.qkv_b@);
                lemma_append_on(base, words_bytes(a2), words_bytes(l.qkv_b@));
                let a4 = a3 + l.proj_w@;
                lemma_words_bytes_add(a3, l.proj_w@);
                lemma_append_on(base, words_bytes(a3), words_bytes(l.proj_w@));
                let a5 = a4 + l.proj_b@;
                lemma_words_bytes_add(a4, l.proj_b@);
                lemma_append_on(base, words_bytes(a4), words_bytes(l.proj_b@));
                let a6 = a5 + l.ln2_g@;
                lemma_words_bytes_add(a5, l.ln2_g@);
                lemma_append_on(base, words_bytes(a5), words_bytes(l.ln2_g@));
                let a7 = a6 + l.ln2_b@;
                lemma_words_bytes_add(a6, l.ln2_b@);
                lemma_append_on(base, words_bytes(a6), words_bytes(l.ln2_b@));
                let a8 = a7 + l.fc_w@;
                lemma_words_bytes_add(a7, l.fc_w@);
                lemma_append_on(base, words_bytes(a7), words_bytes(l.fc_w@));
                let a9 = a8 + l.fc_b@;
                lemma_words_bytes_add(a8, l.fc_b@);
                lemma_append_on(base, words_bytes(a8), words_bytes(l.fc_b@));
                let a10 = a9 + l.fc2_w@;
                lemma_words_bytes_add(a9, l.fc2_w@);
                lemma_append_on(base, words_bytes(a9), words_bytes(l.fc2_w@));
                let a11 = a10 + l.fc2_b@;
                lemma_words_bytes_add(a10, l.fc2_b@);
                lemma_append_on(base, words_bytes(a10), words_bytes(l.fc2_b@));
            }
        },
        Arch::Qwen2 => {
            push_words(out, &l.ln1_g);
            push_words(out, &l.qkv_w);
            push_words(out, &l.qkv_b);
            push_words(out, &l.proj_w);
            push_words(out, &l.ln2_g);
            push_words(out, &l.fc_w);
            push_words(out, &l.up_w);
            push_words(out, &l.fc2_w);
            proof {
                let a0 = l.ln1_g@;
                let a1 = a0 + l.qkv_w@;
                lemma_words_bytes_add(a0, l.qkv_w@);
                lemma_append_on(base, words_bytes(a0), words_bytes(l.qkv_w@));
                let a2 = a1 + l.qkv_b@;
                lemma_words_bytes_add(a1, l.qkv_b@);
                lemma_append_on(base, words_bytes(a1), words_bytes(l.qkv_b@));
                let a3 = a2 + l.proj_w@;
                lemma_words_bytes_add(a2, l.proj_w@);
                lemma_append_on(base, words_bytes(a2), words_bytes(l.proj_w@));
                let a4 = a3 + l.ln2_g@;
                lemma_words_bytes_add(a3, l.ln2_g@);
                lemma_append_on(base, words_bytes(a3), words_bytes(l.ln2_g@));
                let a5 = a4 + l.fc_w@;
                lemma_words_bytes_add(a4, l.fc_w@);
                lemma_append_on(base, words_bytes(a4), words_bytes(l.fc_w@));
                let a6 = a5 + l.up_w@;
                lemma_words_bytes_add(a5, l.up_w@);
                lemma_append_on(base, words_bytes(a5), words_bytes(l.up_w@));
                let a7 = a6 + l.fc2_w@;
                lemma_words_bytes_add(a6, l.fc2_w@);
                lemma_append_on(base, words_bytes(a6), words_bytes(l.fc2_w@));
            }
        },
        Arch::Llama => {
            push_words(out, &l.ln1_g);
            push_words(out, &l.qkv_w);
            push_words(out, &l.proj_w);
            push_words(out, &l.ln2_g);
            push_words(out, &l.fc_w);
            push_words(out, &l.up_w);
            push_words(out, &l.fc2_w);
            proof {
                let a0 = l.ln1_g@;
                let a1 = a0 + l.qkv_w@;
                lemma_words_bytes_add(a0, l.qkv_w@);
                lemma_append_on(base, words_bytes(a0), words_bytes(l.qkv_w@));
                let a2 = a1 + l.proj_w@;
                lemma_words_bytes_add(a1, l.proj_w@);
                lemma_append_on(base, words_bytes(a1), words_bytes(l.proj_w@));
                let a3 = a2 + l.ln2_g@;
                lemma_words_bytes_add(a2, l.ln2_g@);
                lemma_append_on(base, words_bytes(a2), words_bytes(l.ln2_g@));
                let a4 = a3 + l.fc_w@;
                lemma_words_bytes_add(a3, l.fc_w@);
                lemma_append_on(base, words_bytes(a3), words_bytes(l.fc_w@));
                let a5 = a4 + l.up_w@;
                lemma_words_bytes_add(a4, l.up_w@);
                lemma_append_on(base, words_bytes(a4), words_bytes(l.up_w@));
                let a6 = a5 + l.fc2_w@;
                lemma_words_bytes_add(a5, l.fc2_w@);
                lemma_append_on(base, words_bytes(a5), words_bytes(l.fc2_w@));
            }
        },
    }
}

/// Reads everything behind the header, or nothing where the file ends too early.
fn read_tensors(r: &mut Reader, c: Config) -> (res: Option<Model>)
    requires
        old(r).wf(),
        old(r).pos == 52,
        c.storable(),
        c.qkv_width() <= usize::MAX,
        words_bytes(header_words(c)) == old(r).buf@.take(52),
    ensures
        final(r).wf(),
        final(r).buf@ == old(r).buf@,
        match res {
            Some(m) => {
                &&& model_fits(m@)
                &&& m@.config == c
                &&& final(r).pos == 4 * file_len(c)
                &&& model_bytes(m@) == old(r).buf@.subrange(0, final(r).pos as int)
            },
            None => 4 * file_len(c) > old(r).buf@.len(),
        },
{
    let ghost b = r.buf@;
    let ghost k = layer_len(c);
    let ghost h = header_words(c);
    proof {
        lemma_widths(c);
        assert(b.take(52) =~= b.subrange(0, 52));
        assert(c.n_layer * k >= 0) by (nonlinear_arith)
            requires
                k >= 0,
        ;
    }
    let e: u128 = c.n_embd as u128;
    let n_wte: u128 = (c.n_vocab as u128) * e;
    let n_wpe: u128 = if c.arch == Arch::Gpt2 {
        (c.n_ctx as u128) * e
    } else {
        0
    };
    let wte = r.words(n_wte)?;
    proof {
        lemma_read_on(b, 0, 52, r.pos as int, h, wte@);
    }
    let ghost w1 = h + wte@;
    let ghost p1 = r.pos as int;
    let wpe = r.words(n_wpe)?;
    let ghost wpe_w = if c.arch == Arch::Gpt2 { wpe@ } else { Seq::empty() };
    proof {
        assert(wpe_w =~= wpe@);
        lemma_read_on(b, 0, p1, r.pos as int, w1, wpe@);
    }
    let ghost w2 = w1 + wpe_w;
    let ghost p2 = r.pos as int;
    let mut layers: Vec<Layer> = Vec::new();
    let mut i: usize = 0;
    proof {
        assert(layer_views(layers@) =~= Seq::empty());
        assert(w2 + layers_words(c.arch, layer_views(layers@)) =~= w2);
        assert(0 * k == 0) by (nonlinear_arith);
    }
    while i < c.n_layer
        invariant
            i <= c.n_layer,
            r.wf(),
            r.buf@ == b,
            b == old(r).buf@,
            c.storable(),
            c.qkv_width() <= usize::MAX,
            k == layer_len(c),
            k >= 0,
            layers@.len() == i,
            r.pos == p2 + 4 * (i * k),
            0 <= p2,
            p2 + 4 * (c.n_layer * k) <= 4 * file_len(c),
            forall|j: int| 0 <= j < i ==> layer_fits(c, #[trigger] layer_views(layers@)[j]),
            words_bytes(w2 + layers_words(c.arch, layer_views(layers@))) == b.subrange(
                0,
                r.pos as int,
            ),
        decreases c.n_layer - i,
    {
        let ghost before = layer_views(layers@);
        let ghost p = r.pos as int;
        proof {
            assert((i + 1) * k == i * k + k) by (nonlinear_arith);
            assert((i + 1) * k <= c.n_layer * k) by (nonlinear_arith)
                requires
                    i + 1 <= c.n_layer,
                    k >= 0,
            ;
        }
        let l = read_layer(r, &c)?;
        layers.push(l);
        proof {
            let after = layer_views(layers@);
            let w = layers_words(c.arch, before);
            let lw = layer_words(c.arch, l@);
            assert(after.drop_last() =~= before);
            assert(after.last() == l@);
            lemma_read_on(b, 0, p, r.pos as int, w2 + w, lw);
            assert((w2 + w) + lw =~= w2 + layers_words(c.arch, after));
            assert forall|j: int| 0 <= j < i + 1 implies layer_fits(c, #[trigger] after[j]) by {
                if j < i {
                    assert(after[j] == before[j]);
                }
            }
        }
        i = i + 1;
    }
    let ghost w3 = w2 + layers_words(c.arch, layer_views(layers@));
    let ghost p3 = r.pos as int;
    let lnf_g = r.words(e)?;
    proof {
        lemma_read_on(b, 0, p3, r.pos as int, w3, lnf_g@);
    }
    let ghost w4 = w3 + lnf_g@;
    let ghost p4 = r.pos as int;
    let n_lnf_b: u128 = if c.arch == Arch::Gpt2 {
        e
    } else {
        0
    };
    let lnf_b = r.words(n_lnf_b)?;
    let ghost lnf_b_w = if c.arch == Arch::Gpt2 { lnf_b@ } else { Seq::empty() };
    proof {
        assert(lnf_b_w =~= lnf_b@);
        lemma_read_on(b, 0, p4, r.pos as int, w4, lnf_b@);
    }
    let ghost w5 = w4 + lnf_b_w;
    let ghost p5 = r.pos as int;
    let n_head_w: u128 = if c.arch == Arch::Llama {
        n_wte
    } else {
        0
    };
    let lm_head = r.words(n_head_w)?;
    let ghost head_w = if c.arch == Arch::Llama { lm_head@ } else { Seq::empty() };
    proof {
        assert(head_w =~= lm_head@);
        lemma_read_on(b, 0, p5, r.pos as int, w5, lm_head@);
    }
    let m = Model { config: c, wte, wpe, layers, lnf_g, lnf_b, lm_head };
    assert(w5 + head_w == model_words(m@));
    Some(m)
}

/// The attention widths and tensor sizes of a storable configuration fit 128 bits.
proof fn lemma_widths(c: Config)
    requires
        c.storable(),
    ensures
        0 <= c.q_width() <= c.qkv_width() <= 0x3_0000_0000_0000_0000,
        0 <= c.kv_width() <= c.qkv_width(),
        0 <= c.n_embd * c.qkv_width() <= u128::MAX,
        0 <= c.q_width() * c.n_embd <= u128::MAX,
        0 <= c.n_embd * c.n_inter <= 0xffff_ffff_ffff_ffff,
        0 <= c.n_inter * c.n_embd <= 0xffff_ffff_ffff_ffff,
        0 <= c.n_vocab * c.n_embd <= 0xffff_ffff_ffff_ffff,
        0 <= c.n_ctx * c.n_embd <= 0xffff_ffff_ffff_ffff,
        0 <= layer_len(c),
{
    let m = u32::MAX as int;
    vstd::arithmetic::mul::lemma_mul_upper_bound(c.n_head as int, m, c.head_dim as int, m);
    vstd::arithmetic::mul::lemma_mul_upper_bound(c.n_kv_head as int, m, c.head_dim as int, m);
    vstd::arithmetic::mul::lemma_mul_upper_bound(c.n_embd as int, m, c.n_inter as int, m);
    vstd::arithmetic::mul::lemma_mul_upper_bound(c.n_inter as int, m, c.n_embd as int, m);
    vstd::arithmetic::mul::lemma_mul_upper_bound(c.n_vocab as int, m, c.n_embd as int, m);
    vstd::arithmetic::mul::lemma_mul_upper_bound(c.n_ctx as int, m, c.n_embd as int, m);
    assert(m * m == 0xffff_fffe_0000_0001);
    assert(c.n_head * c.head_dim >= 0) by (nonlinear_arith);
    assert(c.n_kv_head * c.head_dim >= 0) by (nonlinear_arith);
    assert(c.n_embd * c.n_inter >= 0) by (nonlinear_arith);
    assert(c.n_inter * c.n_embd >= 0) by (nonlinear_arith);
    assert(c.n_vocab * c.n_embd >= 0) by (nonlinear_arith);
    assert(c.n_ctx * c.n_embd >= 0) by (nonlinear_arith);
    let w = c.qkv_width();
    let q = c.q_width();
    let e = c.n_embd as int;
    let big = 0x3_0000_0000_0000_0000int;
    vstd::arithmetic::mul::lemma_mul_upper_bound(e, m, w, big);
    vstd::arithmetic::mul::lemma_mul_upper_bound(q, big, e, m);
    assert(e * w >= 0) by (nonlinear_arith)
        requires
            e >= 0,
            w >= 0,
    ;
    assert(q * e >= 0) by (nonlinear_arith)
        requires
            e >= 0,
            q >= 0,
    ;
}

} // verus!
