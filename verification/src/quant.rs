//! Weight storage modes: which tier a tensor is kept at, and what it costs.

use crate::model::{layer_fits, model_fits, Arch, Config, ModelView};
use crate::text::str_eq;
use vstd::prelude::*;

verus! {

/// Input channels per scale in the four-bit layout.
pub const Q4_GROUP: usize = 32;

/// Input channels per sub-block of the two-level layouts.
pub const Q_SUB: usize = 16;

/// Input channels per super-block of the two-level layouts.
pub const Q_SUPER: usize = 128;

/// How the weights of the body are stored on the device.
#[derive(Debug, Clone, Copy, PartialEq, Eq, Structural)]
pub enum WeightMode {
    Fp32,
    Fp16,
    Int8,
    Int4,
    /// Four bits with two-level scales: better quality than `Int4`, slower to decode.
    Int4K,
    Int3,
    Int2,
}

/// The text occurs among the arguments.
pub open spec fn given(args: Seq<String>, flag: Seq<char>) -> bool {
    exists|i: int| 0 <= i < args.len() && (#[trigger] args[i])@ == flag
}

/// True where the text occurs among the arguments.
pub fn flag(args: &[String], name: &str) -> (r: bool)
    ensures
        r == given(args@, name@),
{
    let mut i: usize = 0;
    while i < args.len()
        invariant
            i <= args.len(),
            forall|j: int| 0 <= j < i ==> (#[trigger] args@[j])@ != name@,
        decreases args.len() - i,
    {
        if str_eq(args[i].as_str(), name) {
            return true;
        }
        i = i + 1;
    }
    false
}

/// The command-line flag that picks a mode; `Fp32` has none.
pub open spec fn mode_flag(m: WeightMode) -> Option<Seq<char>> {
    match m {
        WeightMode::Fp32 => None,
        WeightMode::Fp16 => Some("--fp16"@),
        WeightMode::Int8 => Some("--int8"@),
        WeightMode::Int4 => Some("--int4"@),
        WeightMode::Int4K => Some("--int4k"@),
        WeightMode::Int3 => Some("--int3"@),
        WeightMode::Int2 => Some("--int2"@),
    }
}

/// The arguments hold the flag of the mode.
pub open spec fn picks(args: Seq<String>, m: WeightMode) -> bool {
    mode_flag(m) is Some && given(args, mode_flag(m).unwrap())
}

/// No two different modes are picked.
pub open spec fn picks_at_most_one(args: Seq<String>) -> bool {
    forall|m: WeightMode, n: WeightMode| #[trigger]
        picks(args, m) && #[trigger] picks(args, n) ==> m == n
}

/// The mode is the one picked, or `Fp32` where none is.
pub open spec fn picked(args: Seq<String>, m: WeightMode) -> bool {
    if m == WeightMode::Fp32 {
        forall|n: WeightMode| !#[trigger] picks(args, n)
    } else {
        picks(args, m)
    }
}

/// Where at most one mode is picked, the arguments determine the mode.
pub proof fn arguments_determine_the_mode(args: Seq<String>, m: WeightMode, n: WeightMode)
    requires
        picks_at_most_one(args),
        picked(args, m),
        picked(args, n),
    ensures
        m == n,
{
}

/// Bytes per weight in units of 1/32 byte, scales and minima counted.
pub open spec fn rate(m: WeightMode) -> int {
    match m {
        WeightMode::Fp32 => 128,
        WeightMode::Fp16 => 64,
        WeightMode::Int8 => 32,
        WeightMode::Int4 => 16 + 64int / Q4_GROUP as int,
        WeightMode::Int4K => 16 + 32int / Q_SUB as int + 128int / Q_SUPER as int,
        WeightMode::Int3 => 12 + 32int / Q_SUB as int + 128int / Q_SUPER as int,
        WeightMode::Int2 => 8 + 32int / Q_SUB as int + 128int / Q_SUPER as int,
    }
}

/// Storage tier for embeddings and head: one tier up on the low rungs, where these
/// tensors cost quality out of proportion to their bytes.
pub open spec fn embed_tier(m: WeightMode) -> WeightMode {
    match m {
        WeightMode::Int3 => WeightMode::Int4,
        WeightMode::Int2 => WeightMode::Int4,
        _ => m,
    }
}

/// Storage tier for the MLP's output projection: one tier up on the bottom rung.
pub open spec fn ffn_down_tier(m: WeightMode) -> WeightMode {
    match m {
        WeightMode::Int2 => WeightMode::Int4,
        _ => m,
    }
}

/// Stored below eight bits.
pub open spec fn below_int8(m: WeightMode) -> bool {
    m == WeightMode::Int4 || m == WeightMode::Int4K || m == WeightMode::Int3 || m
        == WeightMode::Int2
}

/// Tiers of embeddings and of the MLP's output projection under the two
/// mixed-precision flags, which bump to int8 only from below.
pub open spec fn tiers(m: WeightMode, embed_int8: bool, ffn_down_int8: bool) -> (
    WeightMode,
    WeightMode,
) {
    (
        if embed_int8 && below_int8(m) {
            WeightMode::Int8
        } else {
            embed_tier(m)
        },
        if ffn_down_int8 && below_int8(m) {
            WeightMode::Int8
        } else {
            ffn_down_tier(m)
        },
    )
}

/// No flag and no policy stores a tensor in fewer bytes than the body.
pub proof fn tiers_never_downgrade(m: WeightMode, embed_int8: bool, ffn_down_int8: bool)
    ensures
        rate(tiers(m, embed_int8, ffn_down_int8).0) >= rate(m),
        rate(tiers(m, embed_int8, ffn_down_int8).1) >= rate(m),
{
}

impl WeightMode {
    /// The mode that the arguments pick; `None` where they pick more than one.
    pub fn try_parse(args: &[String]) -> (r: Option<WeightMode>)
        ensures
            match r {
                Some(m) => picks_at_most_one(args@) && picked(args@, m),
                None => !picks_at_most_one(args@),
            },
    {
        let fp16: bool = flag(args, "--fp16");
        let int8: bool = flag(args, "--int8");
        let int4: bool = flag(args, "--int4");
        let int4k: bool = flag(args, "--int4k");
        let int3: bool = flag(args, "--int3");
        let int2: bool = flag(args, "--int2");
        proof {
            assert(picks(args@, WeightMode::Fp16) == fp16);
            assert(picks(args@, WeightMode::Int8) == int8);
            assert(picks(args@, WeightMode::Int4) == int4);
            assert(picks(args@, WeightMode::Int4K) == int4k);
            assert(picks(args@, WeightMode::Int3) == int3);
            assert(picks(args@, WeightMode::Int2) == int2);
            assert(!picks(args@, WeightMode::Fp32));
        }
        if fp16 {
            if int8 || int4 || int4k || int3 || int2 {
                return None;
            }
            Some(WeightMode::Fp16)
        } else if int8 {
            if int4 || int4k || int3 || int2 {
                return None;
            }
            Some(WeightMode::Int8)
        } else if int4 {
            if int4k || int3 || int2 {
                return None;
            }
            Some(WeightMode::Int4)
        } else if int4k {
            if int3 || int2 {
                return None;
            }
            Some(WeightMode::Int4K)
        } else if int3 {
            if int2 {
                return None;
            }
            Some(WeightMode::Int3)
        } else if int2 {
            Some(WeightMode::Int2)
        } else {
            Some(WeightMode::Fp32)
        }
    }

    /// The mode that the arguments pick; they may pick one at most.
    pub fn parse(args: &[String]) -> (m: WeightMode)
        requires
            picks_at_most_one(args@),
        ensures
            picked(args@, m),
    {
        match WeightMode::try_parse(args) {
            Some(m) => m,
            None => WeightMode::Fp32,
        }
    }

    /// The mode's name in listings.
    pub fn label(self) -> (s: &'static str)
        ensures
            s@ == mode_label(self),
    {
        match self {
            WeightMode::Fp32 => "fp32",
            WeightMode::Fp16 => "fp16",
            WeightMode::Int8 => "int8",
            WeightMode::Int4 => "int4",
            WeightMode::Int4K => "int4k",
            WeightMode::Int3 => "int3",
            WeightMode::Int2 => "int2",
        }
    }

    /// Bytes per weight in units of 1/32 byte.
    pub fn bytes_per_param(self) -> (r: u128)
        ensures
            r == rate(self),
    {
        match self {
            WeightMode::Fp32 => 128,
            WeightMode::Fp16 => 64,
            WeightMode::Int8 => 32,
            WeightMode::Int4 => 18,
            WeightMode::Int4K => 19,
            WeightMode::Int3 => 15,
            WeightMode::Int2 => 11,
        }
    }

    /// Storage tier for embeddings and head.
    pub fn embed_mode(self) -> (m: WeightMode)
        ensures
            m == embed_tier(self),
    {
        match self {
            WeightMode::Int3 => WeightMode::Int4,
            WeightMode::Int2 => WeightMode::Int4,
            m => m,
        }
    }

    /// Storage tier for the MLP's output projection.
    pub fn ffn_down_mode(self) -> (m: WeightMode)
        ensures
            m == ffn_down_tier(self),
    {
        match self {
            WeightMode::Int2 => WeightMode::Int4,
            m => m,
        }
    }
}

/// The mode's name in listings.
pub open spec fn mode_label(m: WeightMode) -> Seq<char> {
    match m {
        WeightMode::Fp32 => "fp32"@,
        WeightMode::Fp16 => "fp16"@,
        WeightMode::Int8 => "int8"@,
        WeightMode::Int4 => "int4"@,
        WeightMode::Int4K => "int4k"@,
        WeightMode::Int3 => "int3"@,
        WeightMode::Int2 => "int2"@,
    }
}

/// Width of an activation-quantization group: narrow for GPT-2, whose outliers
/// wreck wider groups.
pub open spec fn group_width(a: Arch) -> int {
    match a {
        Arch::Gpt2 => 4,
        _ => 8,
    }
}

/// Width of an activation-quantization group of the kernel module for the arch.
pub fn act_group(arch: Arch) -> (ag: usize)
    ensures
        ag == group_width(arch),
{
    match arch {
        Arch::Gpt2 => 4,
        Arch::Qwen2 => 8,
        Arch::Llama => 8,
    }
}

/// Tiers of embeddings and head, and of the MLP's output projection.
pub fn mixed_tiers(mode: WeightMode, embed_int8: bool, ffn_down_int8: bool) -> (r: (
    WeightMode,
    WeightMode,
))
    ensures
        r == tiers(mode, embed_int8, ffn_down_int8),
{
    let sub_int8: bool = match mode {
        WeightMode::Int4 => true,
        WeightMode::Int4K => true,
        WeightMode::Int3 => true,
        WeightMode::Int2 => true,
        _ => false,
    };
    let embed = if embed_int8 && sub_int8 {
        WeightMode::Int8
    } else {
        mode.embed_mode()
    };
    let ffn = if ffn_down_int8 && sub_int8 {
        WeightMode::Int8
    } else {
        mode.ffn_down_mode()
    };
    (embed, ffn)
}

/// Weights in embeddings and head.
pub open spec fn embed_params(c: Config) -> int {
    (if c.arch == Arch::Llama {
        2int
    } else {
        1int
    }) * (c.n_vocab * c.n_embd)
}

/// Weights in the MLP's output projections.
pub open spec fn ffn_down_params(c: Config) -> int {
    c.n_layer * (c.n_inter * c.n_embd)
}

/// Weights of one layer outside the MLP's output projection.
pub open spec fn layer_params(c: Config) -> int {
    c.n_embd * c.qkv_width() + c.q_width() * c.n_embd + (if c.arch == Arch::Gpt2 {
        c.n_embd * c.n_inter
    } else {
        2 * (c.n_embd * c.n_inter)
    })
}

/// Weights of the body: the layers outside the MLP's output projections, and the
/// position table.
pub open spec fn body_params(c: Config) -> int {
    (if c.arch == Arch::Gpt2 {
        c.n_ctx * c.n_embd
    } else {
        0
    }) + c.n_layer * layer_params(c)
}

/// The weight counts of the model fit a machine word.
pub open spec fn countable(c: Config) -> bool {
    &&& c.qkv_width() <= usize::MAX
    &&& embed_params(c) <= usize::MAX
    &&& ffn_down_params(c) <= usize::MAX
    &&& body_params(c) <= usize::MAX
    &&& layer_params(c) <= usize::MAX
    &&& c.n_inter * c.n_embd <= usize::MAX
    &&& c.n_vocab * c.n_embd <= usize::MAX
}

/// Approximate weight footprint on the device in units of 1/32 byte.
pub open spec fn footprint(c: Config, m: WeightMode, embed_int8: bool, ffn_down_int8: bool) -> int {
    let (embed, ffn) = tiers(m, embed_int8, ffn_down_int8);
    embed_params(c) * rate(embed) + ffn_down_params(c) * rate(ffn) + body_params(c) * rate(m)
}

/// Approximate weight footprint on the device in units of 1/32 byte.
pub fn weight_footprint(
    c: &Config,
    mode: WeightMode,
    embed_int8: bool,
    ffn_down_int8: bool,
) -> (units: u128)
    requires
        countable(*c),
    ensures
        units == footprint(*c, mode, embed_int8, ffn_down_int8),
{
    proof {
        lemma_counts(*c);
    }
    let e: usize = c.n_embd;
    let inter: usize = c.n_inter;
    let (embed_tier, ffn_tier) = mixed_tiers(mode, embed_int8, ffn_down_int8);
    let mlp_up: usize = match c.arch {
        Arch::Gpt2 => e * inter,
        Arch::Qwen2 => 2 * (e * inter),
        Arch::Llama => 2 * (e * inter),
    };
    let per_layer: usize = e * c.qkv_dim() + c.q_dim() * e + mlp_up;
    let wpe: usize = match c.arch {
        Arch::Gpt2 => c.n_ctx * e,
        _ => 0,
    };
    let heads: usize = match c.arch {
        Arch::Llama => 2,
        _ => 1,
    };
    let embed: usize = heads * (c.n_vocab * e);
    let ffn_down: usize = c.n_layer * (inter * e);
    let body: usize = wpe + c.n_layer * per_layer;
    proof {
        lemma_rate_product(embed as int, embed_tier);
        lemma_rate_product(ffn_down as int, ffn_tier);
        lemma_rate_product(body as int, mode);
    }
    (embed as u128) * embed_tier.bytes_per_param() + (ffn_down as u128) * ffn_tier.bytes_per_param()
        + (body as u128) * mode.bytes_per_param()
}

proof fn lemma_rate_product(n: int, m: WeightMode)
    requires
        0 <= n <= usize::MAX,
    ensures
        0 <= n * rate(m) <= 128 * usize::MAX,
{
    let r = rate(m);
    assert(0 < r <= 128);
    assert(0 <= n * r <= 128 * n) by (nonlinear_arith)
        requires
            0 <= n,
            0 < r <= 128,
    ;
}

proof fn lemma_counts(c: Config)
    requires
        countable(c),
    ensures
        0 <= c.q_width() <= c.qkv_width(),
        0 <= c.kv_width(),
        0 <= c.n_embd * c.qkv_width(),
        0 <= c.q_width() * c.n_embd,
        0 <= c.n_embd * c.n_inter,
        0 <= c.n_ctx * c.n_embd,
        0 <= c.n_layer * layer_params(c),
        c.n_embd * c.n_inter == c.n_inter * c.n_embd,
{
    assert(0 <= c.n_head * c.head_dim) by (nonlinear_arith);
    assert(0 <= c.n_kv_head * c.head_dim) by (nonlinear_arith);
    assert(0 <= c.n_embd * c.n_inter) by (nonlinear_arith);
    assert(0 <= c.n_ctx * c.n_embd) by (nonlinear_arith);
    assert(c.n_embd * c.n_inter == c.n_inter * c.n_embd) by (nonlinear_arith);
    let (e, w, q) = (c.n_embd as int, c.qkv_width(), c.q_width());
    assert(0 <= e * w && 0 <= q * e) by (nonlinear_arith)
        requires
            0 <= e,
            0 <= w,
            0 <= q,
    ;
    let (l, p) = (c.n_layer as int, layer_params(c));
    assert(0 <= l * p) by (nonlinear_arith)
        requires
            0 <= l,
            0 <= p,
    ;
}

/// One matmul of the model: name, input width, output width, and whether prefill
/// runs it over the whole prompt.
pub open spec fn shapes(c: Config) -> Seq<(Seq<char>, int, int, bool)> {
    seq![
        ("qkv"@, c.n_embd as int, c.qkv_width(), true),
        ("attn_proj"@, c.q_width(), c.n_embd as int, true),
        (
            if c.arch == Arch::Gpt2 {
                "ffn_up"@
            } else {
                "ffn_gate/up"@
            },
            c.n_embd as int,
            c.n_inter as int,
            true,
        ),
        ("ffn_down"@, c.n_inter as int, c.n_embd as int, true),
        ("lm_head"@, c.n_embd as int, c.n_vocab as int, false),
    ]
}

/// The shape as a specification value.
pub open spec fn shape_view(s: (&'static str, usize, usize, bool)) -> (Seq<char>, int, int, bool) {
    (s.0@, s.1 as int, s.2 as int, s.3)
}

/// The distinct matmul shapes of a model.
pub fn matmul_shapes(cfg: &Config) -> (v: Vec<(&'static str, usize, usize, bool)>)
    requires
        cfg.qkv_width() <= usize::MAX,
    ensures
        v@.map_values(|s| shape_view(s)) == shapes(*cfg),
{
    proof {
        assert(0 <= cfg.n_head * cfg.head_dim) by (nonlinear_arith);
        assert(0 <= cfg.n_kv_head * cfg.head_dim) by (nonlinear_arith);
    }
    let ffn_label: &'static str = match cfg.arch {
        Arch::Gpt2 => "ffn_up",
        _ => "ffn_gate/up",
    };
    let v: Vec<(&'static str, usize, usize, bool)> = vec![
        ("qkv", cfg.n_embd, cfg.qkv_dim(), true),
        ("attn_proj", cfg.q_dim(), cfg.n_embd, true),
        (ffn_label, cfg.n_embd, cfg.n_inter, true),
        ("ffn_down", cfg.n_inter, cfg.n_embd, true),
        ("lm_head", cfg.n_embd, cfg.n_vocab, false),
    ];
    assert(v@.map_values(|s| shape_view(s)) =~= shapes(*cfg));
    v
}

/// The shapes that a kernel benchmark runs.
pub fn kbench_shapes(cfg: &Config) -> (v: Vec<(&'static str, usize, usize, bool)>)
    requires
        cfg.qkv_width() <= usize::MAX,
    ensures
        v@.map_values(|s| shape_view(s)) == shapes(*cfg),
{
    matmul_shapes(cfg)
}

/// Bytes of weight storage that one decode step streams over a matrix: eight-bit
/// weights with one single-precision scale per column, or packed nibbles with one
/// half-precision scale per group.
pub open spec fn streamed_bytes(m: WeightMode, n_in: int, n_out: int) -> int {
    if m == WeightMode::Int8 {
        n_in * n_out + n_out * 4
    } else {
        n_in * n_out / 2 + (n_in / Q4_GROUP as int) * n_out * 2
    }
}

/// Bytes of weight storage that one decode step streams over a matrix.
pub fn decode_weight_bytes(mode: WeightMode, n_in: usize, n_out: usize) -> (bytes: usize)
    requires
        mode == WeightMode::Int8 || mode == WeightMode::Int4,
        n_in * n_out + (if mode == WeightMode::Int8 {
            n_out * 4
        } else {
            0
        }) <= usize::MAX,
    ensures
        bytes == streamed_bytes(mode, n_in as int, n_out as int),
{
    proof {
        let g = n_in as int / 32;
        assert(0 <= n_in * n_out) by (nonlinear_arith);
        assert(0 <= g * n_out && 32 * (g * n_out) <= n_in * n_out) by (nonlinear_arith)
            requires
                0 <= g,
                32 * g <= n_in,
                0 <= n_out,
        ;
    }
    match mode {
        WeightMode::Int8 => n_in * n_out + n_out * 4,
        _ => n_in * n_out / 2 + (n_in / Q4_GROUP) * n_out * 2,
    }
}

/// The byte that holds the four-bit scale and minimum of a sub-block.
pub fn sub_byte(sd: u8, sm: u8) -> (b: u8)
    requires
        sd < 16,
        sm < 16,
    ensures
        b % 16 == sd,
        b / 16 == sm,
{
    sd + 16 * sm
}

/// Number of chunks of at most `size` that `n` things make.
pub open spec fn div_up(n: int, size: int) -> int {
    (n + size - 1) / size
}

/// The columns from which chunk `k` of at most `size` columns runs, and to which.
pub open spec fn chunk(n: int, size: int, k: int) -> (int, int) {
    (k * size, if (k + 1) * size < n {
        (k + 1) * size
    } else {
        n
    })
}

/// Splits `n_out` columns over workers: runs of equal width, the last one shorter.
pub fn column_chunks(n_out: usize, workers: usize) -> (r: Vec<(usize, usize)>)
    requires
        n_out > 0,
        workers > 0,
        n_out + workers <= usize::MAX,
    ensures
        r@.len() == div_up(n_out as int, div_up(n_out as int, workers as int)),
        r@.len() <= workers,
        forall|k: int|
            0 <= k < r@.len() ==> {
                &&& ((#[trigger] r@[k]).0 as int, r@[k].1 as int) == chunk(
                    n_out as int,
                    div_up(n_out as int, workers as int),
                    k,
                )
                &&& r@[k].0 < r@[k].1 <= n_out
                &&& r@[k].0 == if k == 0 {
                    0
                } else {
                    r@[k - 1].1 as int
                }
            },
        r@.last().1 == n_out,
{
    let size: usize = (n_out + workers - 1) / workers;
    let ghost (n, s, w) = (n_out as int, size as int, workers as int);
    let ghost count = div_up(n, s);
    proof {
        vstd::arithmetic::div_mod::lemma_fundamental_div_mod(n + w - 1, w);
        assert(w * s >= n && s >= 1) by (nonlinear_arith)
            requires
                n + w - 1 == w * s + (n + w - 1) % w,
                0 <= (n + w - 1) % w < w,
                n >= 1,
                w >= 1,
        ;
        vstd::arithmetic::div_mod::lemma_fundamental_div_mod(n + s - 1, s);
        assert(s * count >= n && s * (count - 1) < n && count >= 1) by (nonlinear_arith)
            requires
                n + s - 1 == s * count + (n + s - 1) % s,
                0 <= (n + s - 1) % s < s,
                n >= 1,
                s >= 1,
        ;
        assert(count <= w) by (nonlinear_arith)
            requires
                s * (count - 1) < n,
                w * s >= n,
                s >= 1,
        ;
    }
    let mut r: Vec<(usize, usize)> = Vec::new();
    let mut at: usize = 0;
    proof {
        assert(0 * s == 0) by (nonlinear_arith);
    }
    while at < n_out
        invariant
            n == n_out,
            s == size,
            s >= 1,
            s * count >= n,
            s * (count - 1) < n,
            at <= n_out,
            r@.len() <= count,
            at < n_out ==> at == r@.len() * s,
            at == n_out ==> r@.len() == count,
            r@.len() > 0 ==> r@.last().1 == at,
            r@.len() == 0 ==> at == 0,
            forall|k: int|
                0 <= k < r@.len() ==> {
                    &&& ((#[trigger] r@[k]).0 as int, r@[k].1 as int) == chunk(n, s, k)
                    &&& r@[k].0 < r@[k].1 <= n_out
                    &&& r@[k].0 == if k == 0 {
                        0
                    } else {
                        r@[k - 1].1 as int
                    }
                },
        decreases n_out - at,
    {
        let ghost k = r@.len() as int;
        proof {
            assert((k + 1) * s == k * s + s) by (nonlinear_arith);
            assert(k < count) by (nonlinear_arith)
                requires
                    k * s < n,
                    s * count >= n,
                    s >= 1,
            ;
        }
        let end: usize = if n_out - at > size {
            at + size
        } else {
            n_out
        };
        r.push((at, end));
        proof {
            if end == n_out {
                assert(k + 1 == count) by (nonlinear_arith)
                    requires
                        k < count,
                        (k + 1) * s >= n,
                        s * (count - 1) < n,
                        s >= 1,
                ;
            } else {
                assert(k + 1 <= count);
            }
        }
        at = end;
    }
    r
}

/// Bits that a mode spends on the code of a weight.
pub open spec fn code_bits(m: WeightMode) -> int {
    match m {
        WeightMode::Fp32 => 32,
        WeightMode::Fp16 => 16,
        WeightMode::Int8 => 8,
        WeightMode::Int4 | WeightMode::Int4K => 4,
        WeightMode::Int3 => 3,
        WeightMode::Int2 => 2,
    }
}

/// Embeddings and head are stored in four bits at least, or in eight with the flag. The output
/// projection of the MLP is stored in three bits at least, two bits becoming four, or in eight
/// with the flag. A tier that is high enough stays.
pub proof fn tensors_are_lifted_to_their_least_tier(
    m: WeightMode,
    embed_int8: bool,
    ffn_down_int8: bool,
)
    ensures
        ({
            let (embed, ffn) = tiers(m, embed_int8, ffn_down_int8);
            let least = if embed_int8 {
                8int
            } else {
                4
            };
            &&& code_bits(m) >= least ==> embed == m
            &&& code_bits(m) < least ==> code_bits(embed) == least && embed != WeightMode::Int4K
            &&& ffn_down_int8 && code_bits(m) < 8 ==> ffn == WeightMode::Int8
            &&& !ffn_down_int8 && code_bits(m) < 3 ==> ffn == WeightMode::Int4
            &&& (ffn_down_int8 && code_bits(m) >= 8 || !ffn_down_int8 && code_bits(m) >= 3) ==> ffn
                == m
        }),
{
}

/// A weight costs its code and its share of what the codes are scaled by. In four bits, 32
/// weights share a scale of two bytes. In the super-block modes 16 weights share a scale and a
/// minimum of four bits each, and 128 weights share four bytes that scale these.
pub proof fn rates_count_codes_and_scales(m: WeightMode)
    ensures
        code_bits(m) >= 8 ==> 128 * rate(m) == 32 * (16 * code_bits(m)),
        m == WeightMode::Int4 ==> 128 * rate(m) == 32 * (16 * code_bits(m) + 4 * 2),
        m == WeightMode::Int4K || m == WeightMode::Int3 || m == WeightMode::Int2 ==> 128 * rate(m)
            == 32 * (16 * code_bits(m) + 8 * 1 + 4),
{
}

/// The flag of a mode is its label behind two dashes.
pub proof fn flags_are_the_labels(m: WeightMode)
    requires
        m != WeightMode::Fp32,
    ensures
        mode_flag(m) == Some("--"@ + mode_label(m)),
{
    reveal_strlit("--");
    reveal_strlit("--fp16");
    reveal_strlit("--int8");
    reveal_strlit("--int4");
    reveal_strlit("--int4k");
    reveal_strlit("--int3");
    reveal_strlit("--int2");
    reveal_strlit("fp16");
    reveal_strlit("int8");
    reveal_strlit("int4");
    reveal_strlit("int4k");
    reveal_strlit("int3");
    reveal_strlit("int2");
    let both = "--"@ + mode_label(m);
    let flag = mode_flag(m).unwrap();
    assert(both =~= flag);
}

/// Every matrix of a model is counted once, in the part of the footprint whose tier it is
/// stored in: the tables and the head, the output projections of the MLP, and the rest.
pub proof fn footprint_counts_every_matrix(m: ModelView, k: int)
    requires
        model_fits(m),
        0 <= k < m.layers.len(),
    ensures
        ({
            let (c, y) = (m.config, m.layers[k]);
            &&& embed_params(c) == m.wte.len() + m.lm_head.len()
            &&& ffn_down_params(c) == m.layers.len() * y.fc2_w.len()
            &&& body_params(c) == m.wpe.len() + m.layers.len() * (y.qkv_w.len() + y.proj_w.len()
                + y.fc_w.len() + y.up_w.len())
        }),
{
    assert(layer_fits(m.config, m.layers[k]));
}

/// A step of decoding streams what the weights are stored in: their rate in four bits, and
/// in eight bits a scale of four bytes per column besides.
pub proof fn streamed_bytes_follow_the_rate(n_in: int, n_out: int)
    requires
        0 <= n_in,
        0 <= n_out,
        n_in % 32 == 0,
    ensures
        32 * streamed_bytes(WeightMode::Int4, n_in, n_out) == n_in * n_out * rate(WeightMode::Int4),
        32 * streamed_bytes(WeightMode::Int8, n_in, n_out) == n_in * n_out * rate(WeightMode::Int8)
            + 32 * (4 * n_out),
{
    let g = n_in / 32;
    let p = g * n_out;
    assert(n_in * n_out == 32 * p) by (nonlinear_arith)
        requires
            n_in == 32 * g,
            p == g * n_out,
    ;
    assert((32 * p) / 2 == 16 * p);
    assert((n_in / Q4_GROUP as int) * n_out == p);
    let (four, eight) = (rate(WeightMode::Int4), rate(WeightMode::Int8));
    assert(four == 18 && eight == 32);
    assert(n_in * n_out * four == 576 * p && n_in * n_out * eight == 1024 * p) by (nonlinear_arith)
        requires
            n_in * n_out == 32 * p,
            four == 18,
            eight == 32,
    ;
}

/// The shapes that are timed are those of the matrices of the model: what goes in and what
/// comes out of the attention projection, the output projection, the input projection of the
/// MLP, its output projection and the head. All but the head occur once per layer.
pub proof fn shapes_are_those_of_the_matrices(m: ModelView, k: int, s: int)
    requires
        model_fits(m),
        0 <= k < m.layers.len(),
        0 <= s < 5,
    ensures
        ({
            let (c, y) = (m.config, m.layers[k]);
            let (name, n_in, n_out, per_layer) = shapes(c)[s];
            let heads = c.n_head * c.head_dim;
            &&& shapes(c).len() == 5
            &&& name == "qkv"@ ==> n_in == c.n_embd && n_in * n_out == y.qkv_w.len()
            &&& name == "attn_proj"@ ==> n_in == heads && n_out == c.n_embd
            &&& name == "ffn_down"@ ==> n_in == c.n_inter && n_out == c.n_embd
            &&& name == "lm_head"@ ==> n_in == c.n_embd && n_out == c.n_vocab
            &&& name == "ffn_up"@ || name == "ffn_gate/up"@ ==> n_in == c.n_embd && n_out
                == c.n_inter
            &&& name == "ffn_gate/up"@ ==> c.arch != Arch::Gpt2
            &&& name == "ffn_up"@ ==> c.arch == Arch::Gpt2
            &&& per_layer <==> name != "lm_head"@
            &&& s == 0 ==> name == "qkv"@
            &&& s == 1 ==> name == "attn_proj"@
            &&& s == 3 ==> name == "ffn_down"@
            &&& s == 4 ==> name == "lm_head"@
            &&& s == 2 ==> name == "ffn_up"@ || name == "ffn_gate/up"@
        }),
{
    reveal_strlit("qkv");
    reveal_strlit("attn_proj");
    reveal_strlit("ffn_up");
    reveal_strlit("ffn_gate/up");
    reveal_strlit("ffn_down");
    reveal_strlit("lm_head");
    assert("qkv"@.len() == 3 && "attn_proj"@.len() == 9 && "ffn_up"@.len() == 6);
    assert("ffn_gate/up"@.len() == 11 && "ffn_down"@.len() == 8 && "lm_head"@.len() == 7);
    assert(layer_fits(m.config, m.layers[k]));
}

} // verus!
