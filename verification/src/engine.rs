//! The engine's device plans: what is allocated and uploaded when a model is
//! opened, and which launches one decode step, one batch, one verification or one
//! graph replay consists of.
//!
//! Decode runs one token at a time through one-row kernels with a per-layer
//! key-value cache; prefill and draft verification run batches of tokens.

use crate::kernel::Kernel;
use crate::launch::{
    cfg1d, embed, embed_step, gemv, gemv_step, grid1d, launch, norm, norm_step, plan, push_launch,
    push_step, Arg, Buf, EmbedForm, KvPart, Step, StepView, Weights,
};
use crate::model::{Arch, Config};
use crate::quant::group_width;
use vstd::prelude::*;

verus! {

/// Most tokens that one speculative verification takes.
pub const MAX_SPEC_TOKENS: usize = 32;

/// Longest context that the decode-attention kernels have score rows for.
pub const MAX_CTX: usize = 2048;

/// A layer as it is stored on the device.
#[derive(Debug, Clone, Copy, PartialEq, Eq, Structural)]
pub struct LayerG {
    pub ln1_g: Buf,
    /// Absent for root-mean-square norms.
    pub ln1_b: Option<Buf>,
    pub qkv_w: Weights,
    pub qkv_b: Buf,
    pub proj_w: Weights,
    pub proj_b: Buf,
    pub ln2_g: Buf,
    pub ln2_b: Option<Buf>,
    /// GPT-2's first projection, or the gating projection of a gated MLP.
    pub fc_w: Weights,
    pub fc_b: Option<Buf>,
    /// Second input projection of a gated MLP.
    pub up_w: Option<Weights>,
    pub fc2_w: Weights,
    pub fc2_b: Option<Buf>,
}

/// An opened model: where everything is stored, and in what form.
pub struct Engine {
    pub config: Config,
    /// Activation-group width of the loaded kernel module.
    pub ag: usize,
    /// Token embeddings, also the head when tied.
    pub wte_t: Weights,
    pub lm_head_t: Option<Weights>,
    pub layers: Vec<LayerG>,
    pub lnf_g: Buf,
    pub lnf_b: Option<Buf>,
    /// The key-value cache holds eight-bit values.
    pub kv8: bool,
    /// Some linear is stored in an order of its own, which only the one-row kernel
    /// follows: prefill then runs token by token.
    pub gptq_act_order: bool,
    /// The decode graph has been captured.
    pub captured: bool,
}

/// The buffer sizes of the engine fit a machine word.
pub open spec fn fits_device(c: Config) -> bool {
    &&& c.n_ctx * c.n_embd <= usize::MAX
    &&& c.n_ctx * c.qkv_width() <= usize::MAX
    &&& c.n_ctx * c.n_inter <= usize::MAX
    &&& c.n_ctx * c.n_kv_head <= usize::MAX
    &&& c.qkv_width() <= usize::MAX
    &&& MAX_SPEC_TOKENS * c.n_vocab <= usize::MAX
    &&& 4 * c.n_embd <= usize::MAX
    &&& 4 * c.q_width() <= usize::MAX
    &&& 4 * c.n_inter <= usize::MAX
}

proof fn lemma_word_product(a: usize, b: usize)
    ensures
        0 <= a * b <= u128::MAX - u64::MAX,
{
    assert(0 <= a * b <= usize::MAX * usize::MAX) by (nonlinear_arith)
        requires
            0 <= a <= usize::MAX,
            0 <= b <= usize::MAX,
    ;
    assert(usize::MAX * usize::MAX <= u64::MAX * u64::MAX) by (nonlinear_arith)
        requires
            usize::MAX <= u64::MAX,
    ;
}

/// True where the product fits a machine word.
fn product_fits(a: usize, b: usize) -> (r: bool)
    ensures
        r == (a * b <= usize::MAX),
{
    proof {
        lemma_word_product(a, b);
    }
    a as u128 * b as u128 <= usize::MAX as u128
}

/// True where the buffer sizes of the engine fit a machine word.
pub fn sizes_fit(c: &Config) -> (r: bool)
    ensures
        r == fits_device(*c),
{
    proof {
        lemma_word_product(c.n_head, c.head_dim);
        lemma_word_product(c.n_kv_head, c.head_dim);
    }
    if !product_fits(c.n_head, c.head_dim) || !product_fits(c.n_kv_head, c.head_dim) {
        return false;
    }
    let q: u128 = c.n_head as u128 * c.head_dim as u128;
    let kv: u128 = c.n_kv_head as u128 * c.head_dim as u128;
    let qkv: u128 = q + 2 * kv;
    if qkv > usize::MAX as u128 {
        return false;
    }
    product_fits(c.n_ctx, c.n_embd) && product_fits(c.n_ctx, qkv as usize) && product_fits(
        c.n_ctx,
        c.n_inter,
    ) && product_fits(c.n_ctx, c.n_kv_head) && product_fits(MAX_SPEC_TOKENS, c.n_vocab)
        && product_fits(4, c.n_embd) && product_fits(4, q as usize) && product_fits(4, c.n_inter)
}

/// The single-precision bias, or zeros where there is none.
pub open spec fn or_zero(b: Option<Buf>) -> Buf {
    match b {
        Some(b) => b,
        None => Buf::ZeroBias,
    }
}

fn bias_or_zero(b: Option<Buf>) -> (r: Buf)
    ensures
        r == or_zero(b),
{
    match b {
        Some(b) => b,
        None => Buf::ZeroBias,
    }
}

/// The position of a decode step: from the host, or from device memory when the
/// step is part of a graph.
pub open spec fn position_arg(at: Option<usize>) -> Arg {
    match at {
        Some(pos) => Arg::I32(pos as i32),
        None => Arg::Buf(Buf::GraphPos),
    }
}

fn position(at: Option<usize>) -> (a: Arg)
    ensures
        a == position_arg(at),
{
    match at {
        Some(pos) => Arg::I32(pos as i32),
        None => Arg::Buf(Buf::GraphPos),
    }
}

impl Engine {
    /// The engine is as `new_quant` makes it.
    pub open spec fn wf(self) -> bool {
        &&& fits_device(self.config)
        &&& self.config.n_ctx <= MAX_CTX
        &&& self.layers@.len() == self.config.n_layer
        &&& self.ag == group_width(self.config.arch)
    }

    /// The matrix that logits are read off: the head, or the embeddings when tied.
    pub open spec fn head(self) -> Weights {
        match self.lm_head_t {
            Some(w) => w,
            None => self.wte_t,
        }
    }

    /// Normalization and the query-key-value projection of a layer.
    pub open spec fn front_steps(self, l: int) -> Seq<StepView> {
        let c = self.config;
        let y = self.layers@[l];
        seq![
            norm_step(Buf::Xb, Buf::X, y.ln1_g, y.ln1_b, c.n_embd as int, c.norm_eps),
            gemv_step(
                self.ag as int,
                Buf::Qkv,
                Buf::Xb,
                y.qkv_w,
                y.qkv_b,
                c.n_embd as int,
                c.qkv_width(),
                false,
            ),
        ]
    }

    /// Rotary positions, for the archs that have them.
    pub open spec fn rope_steps(self, at: Option<usize>) -> Seq<StepView> {
        let c = self.config;
        if c.arch == Arch::Gpt2 {
            Seq::empty()
        } else {
            seq![
                launch(
                    if at is Some {
                        Kernel::Rope
                    } else {
                        Kernel::RopeDyn
                    },
                    grid1d((c.q_width() + c.kv_width()) / 2),
                    (256, 1, 1),
                    0,
                    seq![
                        Arg::Buf(Buf::Qkv),
                        position_arg(at),
                        Arg::I32(c.n_head as i32),
                        Arg::I32(c.n_kv_head as i32),
                        Arg::I32(c.head_dim as i32),
                        Arg::F32(c.rope_theta),
                    ],
                ),
            ]
        }
    }

    /// Storing the step's key and value in a single-precision cache: two copies when
    /// the position is known, a kernel when it is on the device.
    pub open spec fn store_steps(self, l: usize, at: Option<usize>) -> Seq<StepView> {
        let c = self.config;
        match at {
            Some(pos) => seq![
                StepView::Copy {
                    src: Buf::Qkv,
                    src_at: c.q_width(),
                    dst: Buf::Kv(l, KvPart::K),
                    dst_at: pos * c.kv_width(),
                    len: c.kv_width(),
                },
                StepView::Copy {
                    src: Buf::Qkv,
                    src_at: c.q_width() + c.kv_width(),
                    dst: Buf::Kv(l, KvPart::V),
                    dst_at: pos * c.kv_width(),
                    len: c.kv_width(),
                },
            ],
            None => seq![
                launch(
                    Kernel::CopyKvDyn,
                    grid1d(c.kv_width()),
                    (256, 1, 1),
                    0,
                    seq![
                        Arg::Buf(Buf::Kv(l, KvPart::K)),
                        Arg::Buf(Buf::Kv(l, KvPart::V)),
                        Arg::Buf(Buf::Qkv),
                        Arg::Buf(Buf::GraphPos),
                        Arg::I32(c.q_width() as i32),
                        Arg::I32(c.kv_width() as i32),
                    ],
                ),
            ],
        }
    }

    /// Storing key and value and attending over the cache.
    pub open spec fn attn_steps(self, l: usize, at: Option<usize>) -> Seq<StepView> {
        let c = self.config;
        let nh = Arg::I32(c.n_head as i32);
        let nkv = Arg::I32(c.n_kv_head as i32);
        let hd = Arg::I32(c.head_dim as i32);
        let pos = position_arg(at);
        if self.kv8 {
            seq![
                launch(
                    if at is Some {
                        Kernel::QuantizeKv
                    } else {
                        Kernel::QuantizeKvDyn
                    },
                    (c.n_kv_head as u32, 1, 1),
                    (c.head_dim as u32, 1, 1),
                    0,
                    kv_parts(l) + seq![
                        Arg::Buf(Buf::Qkv),
                        pos,
                        Arg::I32(c.q_width() as i32),
                        nkv,
                        hd,
                    ],
                ),
                launch(
                    if at is Some {
                        Kernel::AttnDecodeQ8
                    } else {
                        Kernel::AttnDecodeQ8Dyn
                    },
                    (c.n_head as u32, 1, 1),
                    (128, 1, 1),
                    0,
                    seq![Arg::Buf(Buf::Attn), Arg::Buf(Buf::Qkv)] + kv_parts(l) + seq![
                        pos,
                        nh,
                        nkv,
                        hd,
                    ],
                ),
            ]
        } else {
            self.store_steps(l, at) + seq![
                launch(
                    if at is Some {
                        Kernel::AttnDecode
                    } else {
                        Kernel::AttnDecodeDyn
                    },
                    (c.n_head as u32, 1, 1),
                    (128, 1, 1),
                    0,
                    seq![
                        Arg::Buf(Buf::Attn),
                        Arg::Buf(Buf::Qkv),
                        Arg::Buf(Buf::Kv(l, KvPart::K)),
                        Arg::Buf(Buf::Kv(l, KvPart::V)),
                        pos,
                        nh,
                        nkv,
                        hd,
                    ],
                ),
            ]
        }
    }

    /// Output projection and MLP of a layer, both added to the residual stream.
    pub open spec fn back_steps(self, l: int) -> Seq<StepView> {
        let c = self.config;
        let y = self.layers@[l];
        let (e, inter, ag) = (c.n_embd as int, c.n_inter as int, self.ag as int);
        seq![
            gemv_step(ag, Buf::X, Buf::Attn, y.proj_w, y.proj_b, c.q_width(), e, true),
            norm_step(Buf::Xb, Buf::X, y.ln2_g, y.ln2_b, e, c.norm_eps),
            gemv_step(ag, Buf::H, Buf::Xb, y.fc_w, or_zero(y.fc_b), e, inter, false),
        ] + (match y.up_w {
            None => seq![
                launch(
                    Kernel::GeluInplace,
                    grid1d(inter),
                    (256, 1, 1),
                    0,
                    seq![Arg::Buf(Buf::H), Arg::I32(inter as i32)],
                ),
            ],
            Some(up) => seq![
                gemv_step(ag, Buf::H2, Buf::Xb, up, Buf::ZeroBias, e, inter, false),
                launch(
                    Kernel::SiluMul,
                    grid1d(inter),
                    (256, 1, 1),
                    0,
                    seq![Arg::Buf(Buf::H), Arg::Buf(Buf::H2), Arg::I32(inter as i32)],
                ),
            ],
        }) + seq![gemv_step(ag, Buf::X, Buf::H, y.fc2_w, or_zero(y.fc2_b), inter, e, true)]
    }

    /// One layer of a decode step.
    pub open spec fn layer_steps(self, l: int, at: Option<usize>) -> Seq<StepView> {
        self.front_steps(l) + self.rope_steps(at) + self.attn_steps(l as usize, at)
            + self.back_steps(l)
    }

    /// The first `n` layers of a decode step.
    pub open spec fn layers_steps(self, n: nat, at: Option<usize>) -> Seq<StepView>
        decreases n,
    {
        if n == 0 {
            Seq::empty()
        } else {
            self.layers_steps((n - 1) as nat, at) + self.layer_steps(n - 1, at)
        }
    }

    /// Multiplication of the one row in `Xb` by the head.
    pub open spec fn head_step(self) -> StepView {
        let c = self.config;
        gemv_step(
            self.ag as int,
            Buf::Logits,
            Buf::Xb,
            self.head(),
            Buf::ZeroBias,
            c.n_embd as int,
            c.n_vocab as int,
            false,
        )
    }

    /// All layers of a decode step, the final norm and the head.
    pub open spec fn body_steps(self, at: Option<usize>) -> Seq<StepView> {
        let c = self.config;
        self.layers_steps(c.n_layer as nat, at) + seq![
            norm_step(Buf::Xb, Buf::X, self.lnf_g, self.lnf_b, c.n_embd as int, c.norm_eps),
            self.head_step(),
        ]
    }

    /// The embedding lookup of a decode step.
    pub open spec fn lookup_step(self, tok: u32, at: Option<usize>) -> StepView {
        let c = self.config;
        match at {
            Some(pos) => embed_step(
                self.wte_t,
                EmbedForm::Host,
                Buf::X,
                c.n_embd as int,
                seq![Arg::I32(tok as i32), Arg::I32(pos as i32)],
                c.n_embd,
                c.n_vocab,
            ),
            None => embed_step(
                self.wte_t,
                EmbedForm::Dyn,
                Buf::X,
                c.n_embd as int,
                seq![Arg::Buf(Buf::GraphTok), Arg::Buf(Buf::GraphPos)],
                c.n_embd,
                c.n_vocab,
            ),
        }
    }

    /// One decode step: the logits of the token after `tok` at position `pos`.
    pub open spec fn forward_steps(self, tok: u32, pos: usize) -> Seq<StepView> {
        seq![self.lookup_step(tok, Some(pos))] + self.body_steps(Some(pos))
    }
}

/// The six parts of an eight-bit cache, in argument order.
pub open spec fn kv_parts(l: usize) -> Seq<Arg> {
    seq![
        Arg::Buf(Buf::Kv(l, KvPart::K)),
        Arg::Buf(Buf::Kv(l, KvPart::V)),
        Arg::Buf(Buf::Kv(l, KvPart::Ks)),
        Arg::Buf(Buf::Kv(l, KvPart::Vs)),
        Arg::Buf(Buf::Kv(l, KvPart::Kb)),
        Arg::Buf(Buf::Kv(l, KvPart::Vb)),
    ]
}

/// Appends the six parts of an eight-bit cache.
fn push_kv_parts(args: &mut Vec<Arg>, l: usize)
    ensures
        final(args)@ == old(args)@ + kv_parts(l),
{
    args.push(Arg::Buf(Buf::Kv(l, KvPart::K)));
    args.push(Arg::Buf(Buf::Kv(l, KvPart::V)));
    args.push(Arg::Buf(Buf::Kv(l, KvPart::Ks)));
    args.push(Arg::Buf(Buf::Kv(l, KvPart::Vs)));
    args.push(Arg::Buf(Buf::Kv(l, KvPart::Kb)));
    args.push(Arg::Buf(Buf::Kv(l, KvPart::Vb)));
    assert(args@ =~= old(args)@ + kv_parts(l));
}

/// The widths of a configuration are not negative, and add up.
pub proof fn lemma_config_widths(c: Config)
    ensures
        0 <= c.q_width() <= c.qkv_width(),
        0 <= c.kv_width() <= c.qkv_width(),
        c.q_width() + c.kv_width() <= c.qkv_width(),
        (c.n_head + c.n_kv_head) * c.head_dim == c.q_width() + c.kv_width(),
{
    assert(0 <= c.n_head * c.head_dim) by (nonlinear_arith);
    assert(0 <= c.n_kv_head * c.head_dim) by (nonlinear_arith);
    assert((c.n_head + c.n_kv_head) * c.head_dim == c.n_head * c.head_dim + c.n_kv_head
        * c.head_dim) by (nonlinear_arith);
}

proof fn lemma_part_product(n: int, m: int, a: int, b: int)
    requires
        0 <= n <= m,
        0 <= a <= b,
    ensures
        0 <= n * a <= m * b,
{
    assert(0 <= n * a <= m * b) by (nonlinear_arith)
        requires
            0 <= n <= m,
            0 <= a <= b,
    ;
}

/// Concatenation of plans, re-associated.
proof fn lemma_plan_assoc(a: Seq<StepView>, b: Seq<StepView>, c: Seq<StepView>)
    ensures
        (a + b) + c == a + (b + c),
{
    assert((a + b) + c =~= a + (b + c));
}

impl Engine {
    /// The matrix that logits are read off.
    pub fn head_weights(&self) -> (w: Weights)
        ensures
            w == self.head(),
    {
        match self.lm_head_t {
            Some(w) => w,
            None => self.wte_t,
        }
    }

    /// Plans the start of a layer.
    fn front(&self, out: &mut Vec<Step>, l: usize)
        requires
            self.wf(),
            l < self.config.n_layer,
        ensures
            plan(final(out)@) == plan(old(out)@) + self.front_steps(l as int),
    {
        let c = &self.config;
        let y = &self.layers[l];
        let ghost before = plan(out@);
        norm(out, Buf::Xb, Buf::X, y.ln1_g, y.ln1_b, c.n_embd, c.norm_eps);
        gemv(
            out,
            self.ag,
            Buf::Qkv,
            Buf::Xb,
            &y.qkv_w,
            y.qkv_b,
            c.n_embd,
            c.qkv_dim(),
            false,
        );
        assert(plan(out@) =~= before + self.front_steps(l as int));
    }

    /// Plans the rotary positions.
    fn rope(&self, out: &mut Vec<Step>, at: Option<usize>)
        requires
            self.wf(),
        ensures
            plan(final(out)@) == plan(old(out)@) + self.rope_steps(at),
    {
        let c = &self.config;
        let ghost before = plan(out@);
        match c.arch {
            Arch::Gpt2 => {},
            _ => {
                proof {
                    lemma_config_widths(*c);
                }
                let kernel: Kernel = match at {
                    Some(pos) => Kernel::Rope,
                    None => Kernel::RopeDyn,
                };
                let args: Vec<Arg> = vec![
                    Arg::Buf(Buf::Qkv),
                    position(at),
                    Arg::I32(c.n_head as i32),
                    Arg::I32(c.n_kv_head as i32),
                    Arg::I32(c.head_dim as i32),
                    Arg::F32(c.rope_theta),
                ];
                let n: usize = (c.q_dim() + c.kv_dim()) / 2;
                push_launch(out, kernel, cfg1d(n), (256, 1, 1), 0, args);
                assert(plan(out@).last() =~= self.rope_steps(at)[0]);
            },
        }
        assert(plan(out@) =~= before + self.rope_steps(at));
    }

    /// Plans the storing of a single-precision key and value.
    fn store(&self, out: &mut Vec<Step>, l: usize, at: Option<usize>)
        requires
            self.wf(),
            at matches Some(pos) ==> pos < self.config.n_ctx,
        ensures
            plan(final(out)@) == plan(old(out)@) + self.store_steps(l, at),
    {
        let c = &self.config;
        let ghost before = plan(out@);
        proof {
            lemma_config_widths(*c);
        }
        let (qd, kvd): (usize, usize) = (c.q_dim(), c.kv_dim());
        match at {
            Some(pos) => {
                proof {
                    lemma_part_product(
                        pos as int,
                        c.n_ctx as int,
                        c.kv_width(),
                        c.qkv_width(),
                    );
                }
                push_step(
                    out,
                    Step::Copy {
                        src: Buf::Qkv,
                        src_at: qd,
                        dst: Buf::Kv(l, KvPart::K),
                        dst_at: pos * kvd,
                        len: kvd,
                    },
                );
                push_step(
                    out,
                    Step::Copy {
                        src: Buf::Qkv,
                        src_at: qd + kvd,
                        dst: Buf::Kv(l, KvPart::V),
                        dst_at: pos * kvd,
                        len: kvd,
                    },
                );
                assert(plan(out@) =~= before + self.store_steps(l, at));
            },
            None => {
                let args: Vec<Arg> = vec![
                    Arg::Buf(Buf::Kv(l, KvPart::K)),
                    Arg::Buf(Buf::Kv(l, KvPart::V)),
                    Arg::Buf(Buf::Qkv),
                    Arg::Buf(Buf::GraphPos),
                    Arg::I32(qd as i32),
                    Arg::I32(kvd as i32),
                ];
                push_launch(out, Kernel::CopyKvDyn, cfg1d(kvd), (256, 1, 1), 0, args);
                assert(plan(out@).last() =~= self.store_steps(l, at)[0]);
                assert(plan(out@) =~= before + self.store_steps(l, at));
            },
        }
    }

    /// Plans the attention of a decode step.
    fn attend(&self, out: &mut Vec<Step>, l: usize, at: Option<usize>)
        requires
            self.wf(),
            at matches Some(pos) ==> pos < self.config.n_ctx,
        ensures
            plan(final(out)@) == plan(old(out)@) + self.attn_steps(l, at),
    {
        let c = &self.config;
        let ghost before = plan(out@);
        let ghost want = self.attn_steps(l, at);
        proof {
            lemma_config_widths(*c);
        }
        let nh: Arg = Arg::I32(c.n_head as i32);
        let nkv: Arg = Arg::I32(c.n_kv_head as i32);
        let hd: Arg = Arg::I32(c.head_dim as i32);
        let attn_grid: (u32, u32, u32) = (c.n_head as u32, 1, 1);
        if self.kv8 {
            let mut qargs: Vec<Arg> = Vec::new();
            push_kv_parts(&mut qargs, l);
            qargs.push(Arg::Buf(Buf::Qkv));
            qargs.push(position(at));
            qargs.push(Arg::I32(c.q_dim() as i32));
            qargs.push(nkv);
            qargs.push(hd);
            let qk: Kernel = match at {
                Some(pos) => Kernel::QuantizeKv,
                None => Kernel::QuantizeKvDyn,
            };
            push_launch(
                out,
                qk,
                (c.n_kv_head as u32, 1, 1),
                (c.head_dim as u32, 1, 1),
                0,
                qargs,
            );
            assert(plan(out@).last() =~= want[0]);
            let mut args: Vec<Arg> = vec![Arg::Buf(Buf::Attn), Arg::Buf(Buf::Qkv)];
            push_kv_parts(&mut args, l);
            args.push(position(at));
            args.push(nh);
            args.push(nkv);
            args.push(hd);
            let ak: Kernel = match at {
                Some(pos) => Kernel::AttnDecodeQ8,
                None => Kernel::AttnDecodeQ8Dyn,
            };
            push_launch(out, ak, attn_grid, (128, 1, 1), 0, args);
            assert(plan(out@).last() =~= want[1]);
            assert(plan(out@) =~= before + want);
        } else {
            self.store(out, l, at);
            let args: Vec<Arg> = vec![
                Arg::Buf(Buf::Attn),
                Arg::Buf(Buf::Qkv),
                Arg::Buf(Buf::Kv(l, KvPart::K)),
                Arg::Buf(Buf::Kv(l, KvPart::V)),
                position(at),
                nh,
                nkv,
                hd,
            ];
            let ak: Kernel = match at {
                Some(pos) => Kernel::AttnDecode,
                None => Kernel::AttnDecodeDyn,
            };
            push_launch(out, ak, attn_grid, (128, 1, 1), 0, args);
            assert(plan(out@).last() =~= want.last());
            assert(plan(out@) =~= before + want);
        }
    }

    /// Plans the end of a layer.
    fn back(&self, out: &mut Vec<Step>, l: usize)
        requires
            self.wf(),
            l < self.config.n_layer,
        ensures
            plan(final(out)@) == plan(old(out)@) + self.back_steps(l as int),
    {
        let c = &self.config;
        let y = &self.layers[l];
        let ghost before = plan(out@);
        let ghost want = self.back_steps(l as int);
        proof {
            lemma_config_widths(*c);
        }
        let (e, inter, ag): (usize, usize, usize) = (c.n_embd, c.n_inter, self.ag);
        gemv(out, ag, Buf::X, Buf::Attn, &y.proj_w, y.proj_b, c.q_dim(), e, true);
        norm(out, Buf::Xb, Buf::X, y.ln2_g, y.ln2_b, e, c.norm_eps);
        gemv(out, ag, Buf::H, Buf::Xb, &y.fc_w, bias_or_zero(y.fc_b), e, inter, false);
        match y.up_w {
            None => {
                let args: Vec<Arg> = vec![Arg::Buf(Buf::H), Arg::I32(inter as i32)];
                push_launch(out, Kernel::GeluInplace, cfg1d(inter), (256, 1, 1), 0, args);
                assert(plan(out@).last() =~= want[3]);
            },
            Some(up) => {
                gemv(out, ag, Buf::H2, Buf::Xb, &up, Buf::ZeroBias, e, inter, false);
                let args: Vec<Arg> = vec![
                    Arg::Buf(Buf::H),
                    Arg::Buf(Buf::H2),
                    Arg::I32(inter as i32),
                ];
                push_launch(out, Kernel::SiluMul, cfg1d(inter), (256, 1, 1), 0, args);
                assert(plan(out@).last() =~= want[4]);
            },
        }
        gemv(out, ag, Buf::X, Buf::H, &y.fc2_w, bias_or_zero(y.fc2_b), inter, e, true);
        assert(plan(out@) =~= before + want);
    }

    /// Plans all layers of a decode step, the final norm and the head.
    fn decode_body(&self, out: &mut Vec<Step>, at: Option<usize>)
        requires
            self.wf(),
            at matches Some(pos) ==> pos < self.config.n_ctx,
        ensures
            plan(final(out)@) == plan(old(out)@) + self.body_steps(at),
    {
        let c = &self.config;
        let ghost before = plan(out@);
        let mut l: usize = 0;
        assert(before + self.layers_steps(0, at) =~= before);
        while l < c.n_layer
            invariant
                self.wf(),
                at matches Some(pos) ==> pos < self.config.n_ctx,
                *c == self.config,
                l <= c.n_layer,
                plan(out@) == before + self.layers_steps(l as nat, at),
            decreases c.n_layer - l,
        {
            let ghost done = self.layers_steps(l as nat, at);
            self.front(out, l);
            self.rope(out, at);
            self.attend(out, l, at);
            self.back(out, l);
            proof {
                let (f, r, a, k) = (
                    self.front_steps(l as int),
                    self.rope_steps(at),
                    self.attn_steps(l, at),
                    self.back_steps(l as int),
                );
                lemma_plan_assoc(before, done, f);
                lemma_plan_assoc(before, done + f, r);
                lemma_plan_assoc(before, (done + f) + r, a);
                lemma_plan_assoc(before, ((done + f) + r) + a, k);
                lemma_plan_assoc(done, f, r);
                lemma_plan_assoc(done, f + r, a);
                lemma_plan_assoc(done, (f + r) + a, k);
            }
            l = l + 1;
        }
        let ghost all = self.layers_steps(c.n_layer as nat, at);
        norm(out, Buf::Xb, Buf::X, self.lnf_g, self.lnf_b, c.n_embd, c.norm_eps);
        gemv(
            out,
            self.ag,
            Buf::Logits,
            Buf::Xb,
            &self.head_weights(),
            Buf::ZeroBias,
            c.n_embd,
            c.n_vocab,
            false,
        );
        assert(plan(out@) =~= before + self.body_steps(at));
    }

    /// Plans the embedding lookup of one token at a position.
    pub fn launch_embed(&self, out: &mut Vec<Step>, tok: u32, pos: usize)
        ensures
            plan(final(out)@) == plan(old(out)@).push(self.lookup_step(tok, Some(pos))),
    {
        let c = &self.config;
        let which: Vec<Arg> = vec![Arg::I32(tok as i32), Arg::I32(pos as i32)];
        embed(out, &self.wte_t, EmbedForm::Host, Buf::X, c.n_embd, &which, c.n_embd, c.n_vocab);
        assert(which@ =~= seq![Arg::I32(tok as i32), Arg::I32(pos as i32)]);
    }

    /// Plans the embedding lookup of the token and position in device memory.
    pub fn launch_embed_dyn(&self, out: &mut Vec<Step>)
        ensures
            plan(final(out)@) == plan(old(out)@).push(self.lookup_step(0, None)),
    {
        let c = &self.config;
        let which: Vec<Arg> = vec![Arg::Buf(Buf::GraphTok), Arg::Buf(Buf::GraphPos)];
        embed(out, &self.wte_t, EmbedForm::Dyn, Buf::X, c.n_embd, &which, c.n_embd, c.n_vocab);
        assert(which@ =~= seq![Arg::Buf(Buf::GraphTok), Arg::Buf(Buf::GraphPos)]);
    }

    /// Plans the decode step at a position known to the host.
    pub fn forward_body(&self, out: &mut Vec<Step>, pos: usize)
        requires
            self.wf(),
            pos < self.config.n_ctx,
        ensures
            plan(final(out)@) == plan(old(out)@) + self.body_steps(Some(pos)),
    {
        self.decode_body(out, Some(pos));
    }

    /// Plans the decode step at the position in device memory.
    pub fn forward_body_dyn(&self, out: &mut Vec<Step>)
        requires
            self.wf(),
        ensures
            plan(final(out)@) == plan(old(out)@) + self.body_steps(None),
    {
        self.decode_body(out, None);
    }

    /// Plans one token through the model; the logits end in `Logits`.
    pub fn forward(&self, tok: u32, pos: usize) -> (steps: Vec<Step>)
        requires
            self.wf(),
            pos < self.config.n_ctx,
        ensures
            plan(steps@) == self.forward_steps(tok, pos),
    {
        let mut out: Vec<Step> = Vec::new();
        assert(plan(out@) =~= Seq::empty());
        self.launch_embed(&mut out, tok, pos);
        self.forward_body(&mut out, pos);
        assert(plan(out@) =~= self.forward_steps(tok, pos));
        out
    }
}

} // verus!
