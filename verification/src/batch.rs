//! Plans over several tokens at once: prompt prefill, draft verification, and the
//! replay of a captured decode graph.

use crate::engine::{kv_parts, lemma_config_widths, or_zero, Engine, MAX_SPEC_TOKENS};
use crate::kernel::Kernel;
use crate::launch::{
    add_inplace, add_step, blocks, cfg1d, embed, embed_step, gemm, gemm_steps, gemm_width_ok, gemv,
    grid1d, launch, norm_batch, norm_batch_step, plan, push_launch, push_step, Arg, Buf, EmbedForm,
    KvPart, Step, StepView, Weights,
};
use crate::model::Arch;
use crate::quant::div_up;
use vstd::prelude::*;

verus! {

/// Tokens as the kernels take them.
pub open spec fn token_words(tokens: Seq<u32>) -> Seq<i32> {
    tokens.map_values(|t: u32| t as i32)
}

fn tokens_i32(tokens: &[u32]) -> (v: Vec<i32>)
    ensures
        v@ == token_words(tokens@),
{
    let mut v: Vec<i32> = Vec::with_capacity(tokens.len());
    let mut i: usize = 0;
    while i < tokens.len()
        invariant
            i <= tokens.len(),
            v@ == token_words(tokens@).take(i as int),
        decreases tokens.len() - i,
    {
        v.push(tokens[i] as i32);
        i = i + 1;
        assert(v@ =~= token_words(tokens@).take(i as int));
    }
    assert(v@ =~= token_words(tokens@));
    v
}

impl Engine {
    /// The batch kernels accept the model's widths in the form it is stored in.
    pub open spec fn batchable(self) -> bool {
        let c = self.config;
        &&& c.head_dim == 64
        &&& gemm_width_ok(self.head(), c.n_embd as int)
        &&& forall|l: int|
            0 <= l < self.layers@.len() ==> {
                let y = #[trigger] self.layers@[l];
                &&& gemm_width_ok(y.qkv_w, c.n_embd as int)
                &&& gemm_width_ok(y.proj_w, c.q_width())
                &&& gemm_width_ok(y.fc_w, c.n_embd as int)
                &&& (y.up_w matches Some(up) ==> gemm_width_ok(up, c.n_embd as int))
                &&& gemm_width_ok(y.fc2_w, c.n_inter as int)
            }
    }

    /// A run of tokens from a position on that a batch can take.
    pub open spec fn batch_ok(self, n: int, pos0: int) -> bool {
        &&& self.wf()
        &&& self.batchable()
        &&& 0 < n
        &&& pos0 + n <= self.config.n_ctx
    }

    /// Upload of the tokens and their embedding lookup.
    pub open spec fn embed_batch_steps(self, tokens: Seq<u32>, pos0: usize) -> Seq<StepView> {
        let c = self.config;
        let n = tokens.len() as int;
        seq![
            StepView::Upload { dst: Buf::BatchTok, values: token_words(tokens) },
            embed_step(
                self.wte_t,
                EmbedForm::Batch,
                Buf::BatchX,
                n * c.n_embd,
                seq![Arg::Buf(Buf::BatchTok), Arg::I32(pos0 as i32), Arg::I32(n as i32)],
                c.n_embd,
                c.n_vocab,
            ),
        ]
    }

    /// Rotary positions of a batch.
    pub open spec fn rope_batch_steps(self, n: int, pos0: usize) -> Seq<StepView> {
        let c = self.config;
        if c.arch == Arch::Gpt2 {
            Seq::empty()
        } else {
            seq![
                launch(
                    Kernel::RopeBatch,
                    grid1d(n * (c.q_width() + c.kv_width()) / 2),
                    (256, 1, 1),
                    0,
                    seq![
                        Arg::Buf(Buf::BatchQkv),
                        Arg::I32(pos0 as i32),
                        Arg::I32(n as i32),
                        Arg::I32(c.n_head as i32),
                        Arg::I32(c.n_kv_head as i32),
                        Arg::I32(c.head_dim as i32),
                        Arg::I32(c.qkv_width() as i32),
                        Arg::F32(c.rope_theta),
                    ],
                ),
            ]
        }
    }

    /// Storing the keys and values of a batch and attending over the cache.
    pub open spec fn attn_batch_steps(self, l: usize, n: int, pos0: usize) -> Seq<StepView> {
        let c = self.config;
        let pos = Arg::I32(pos0 as i32);
        let rows = Arg::I32(n as i32);
        let nh = Arg::I32(c.n_head as i32);
        let nkv = Arg::I32(c.n_kv_head as i32);
        let qd = Arg::I32(c.q_width() as i32);
        let kvd = Arg::I32(c.kv_width() as i32);
        let qkvd = Arg::I32(c.qkv_width() as i32);
        let grid = (c.n_head as u32, div_up(n, 64) as u32, 1u32);
        if self.kv8 {
            seq![
                launch(
                    Kernel::QuantizeKvBatch,
                    (c.n_kv_head as u32, n as u32, 1),
                    (c.head_dim as u32, 1, 1),
                    0,
                    kv_parts(l) + seq![
                        Arg::Buf(Buf::BatchQkv),
                        pos,
                        qd,
                        nkv,
                        Arg::I32(c.head_dim as i32),
                        qkvd,
                    ],
                ),
                launch(
                    Kernel::AttnPrefillQ8,
                    grid,
                    (64, 1, 1),
                    0,
                    seq![Arg::Buf(Buf::BatchAttn), Arg::Buf(Buf::BatchQkv)] + kv_parts(l) + seq![
                        pos,
                        rows,
                        nh,
                        nkv,
                        qkvd,
                        qd,
                    ],
                ),
            ]
        } else {
            seq![
                launch(
                    Kernel::CopyKvBatch,
                    (div_up(c.kv_width(), 256) as u32, n as u32, 1),
                    (256, 1, 1),
                    0,
                    seq![
                        Arg::Buf(Buf::Kv(l, KvPart::K)),
                        Arg::Buf(Buf::Kv(l, KvPart::V)),
                        Arg::Buf(Buf::BatchQkv),
                        pos,
                        qd,
                        kvd,
                        qkvd,
                    ],
                ),
                launch(
                    Kernel::AttnPrefill,
                    grid,
                    (64, 1, 1),
                    0,
                    seq![
                        Arg::Buf(Buf::BatchAttn),
                        Arg::Buf(Buf::BatchQkv),
                        Arg::Buf(Buf::Kv(l, KvPart::K)),
                        Arg::Buf(Buf::Kv(l, KvPart::V)),
                        pos,
                        rows,
                        nh,
                        nkv,
                        qkvd,
                        qd,
                    ],
                ),
            ]
        }
    }

    /// The start of a layer over a batch.
    pub open spec fn front_batch_steps(self, l: int, n: int) -> Seq<StepView> {
        let c = self.config;
        let y = self.layers@[l];
        let e = c.n_embd as int;
        seq![
            norm_batch_step(Buf::BatchXb, Buf::BatchX, y.ln1_g, y.ln1_b, n, e, c.norm_eps),
        ] + gemm_steps(
            self.ag as int,
            Buf::BatchQkv,
            Buf::BatchXb,
            y.qkv_w,
            y.qkv_b,
            n,
            c.qkv_width(),
            e,
        )
    }

    /// Output projection of a layer over a batch, added to the residual stream, and
    /// the second norm.
    pub open spec fn proj_batch_steps(self, l: int, n: int) -> Seq<StepView> {
        let c = self.config;
        let y = self.layers@[l];
        let e = c.n_embd as int;
        gemm_steps(
            self.ag as int,
            Buf::BatchXb,
            Buf::BatchAttn,
            y.proj_w,
            y.proj_b,
            n,
            e,
            c.q_width(),
        ) + seq![
            add_step(Buf::BatchX, Buf::BatchXb, n * e),
            norm_batch_step(Buf::BatchXb, Buf::BatchX, y.ln2_g, y.ln2_b, n, e, c.norm_eps),
        ]
    }

    /// The activation of the MLP over a batch.
    pub open spec fn act_batch_steps(self, l: int, n: int) -> Seq<StepView> {
        let c = self.config;
        let y = self.layers@[l];
        let (e, inter) = (c.n_embd as int, c.n_inter as int);
        match y.up_w {
            None => seq![
                launch(
                    Kernel::GeluInplace,
                    grid1d(n * inter),
                    (256, 1, 1),
                    0,
                    seq![Arg::Buf(Buf::BatchH), Arg::I32((n * inter) as i32)],
                ),
            ],
            Some(up) => gemm_steps(
                self.ag as int,
                Buf::BatchH2,
                Buf::BatchXb,
                up,
                Buf::ZeroBias,
                n,
                inter,
                e,
            ) + seq![
                launch(
                    Kernel::SiluMul,
                    grid1d(n * inter),
                    (256, 1, 1),
                    0,
                    seq![
                        Arg::Buf(Buf::BatchH),
                        Arg::Buf(Buf::BatchH2),
                        Arg::I32((n * inter) as i32),
                    ],
                ),
            ],
        }
    }

    /// The MLP of a layer over a batch, added to the residual stream.
    pub open spec fn mlp_batch_steps(self, l: int, n: int) -> Seq<StepView> {
        let c = self.config;
        let y = self.layers@[l];
        let (e, inter, ag) = (c.n_embd as int, c.n_inter as int, self.ag as int);
        gemm_steps(ag, Buf::BatchH, Buf::BatchXb, y.fc_w, or_zero(y.fc_b), n, inter, e)
            + self.act_batch_steps(l, n) + gemm_steps(
            ag,
            Buf::BatchXb,
            Buf::BatchH,
            y.fc2_w,
            or_zero(y.fc2_b),
            n,
            e,
            inter,
        ) + seq![add_step(Buf::BatchX, Buf::BatchXb, n * e)]
    }

    /// One layer over a batch.
    pub open spec fn layer_batch_steps(self, l: int, n: int, pos0: usize) -> Seq<StepView> {
        self.front_batch_steps(l, n) + self.rope_batch_steps(n, pos0) + self.attn_batch_steps(
            l as usize,
            n,
            pos0,
        ) + self.proj_batch_steps(l, n) + self.mlp_batch_steps(l, n)
    }

    /// The first `k` layers over a batch.
    pub open spec fn layers_batch_steps(self, k: nat, n: int, pos0: usize) -> Seq<StepView>
        decreases k,
    {
        if k == 0 {
            Seq::empty()
        } else {
            self.layers_batch_steps((k - 1) as nat, n, pos0) + self.layer_batch_steps(
                k - 1,
                n,
                pos0,
            )
        }
    }

    /// The batched trunk shared by prefill and verification: it leaves the normalized
    /// hidden states of all rows in `BatchXb`.
    pub open spec fn batch_steps(self, tokens: Seq<u32>, pos0: usize) -> Seq<StepView> {
        let c = self.config;
        let n = tokens.len() as int;
        self.embed_batch_steps(tokens, pos0) + self.layers_batch_steps(c.n_layer as nat, n, pos0)
            + seq![
            norm_batch_step(
                Buf::BatchXb,
                Buf::BatchX,
                self.lnf_g,
                self.lnf_b,
                n,
                c.n_embd as int,
                c.norm_eps,
            ),
        ]
    }

    /// Decode steps of a run of tokens, one after the other.
    pub open spec fn forward_all_steps(self, tokens: Seq<u32>, pos0: usize) -> Seq<StepView>
        decreases tokens.len(),
    {
        if tokens.len() == 0 {
            Seq::empty()
        } else {
            self.forward_all_steps(tokens.drop_last(), pos0) + self.forward_steps(
                tokens.last(),
                (pos0 + tokens.len() - 1) as usize,
            )
        }
    }

    /// Prefill of a run of tokens: a single token, and every token where a linear has
    /// a channel order of its own, goes through the decode step; otherwise one batch,
    /// whose last row is multiplied by the head.
    pub open spec fn prefill_steps(self, tokens: Seq<u32>, pos0: usize) -> Seq<StepView> {
        let c = self.config;
        if tokens.len() == 1 || self.gptq_act_order {
            self.forward_all_steps(tokens, pos0)
        } else {
            self.batch_steps(tokens, pos0) + seq![
                launch(
                    Kernel::CopyRow,
                    grid1d(c.n_embd as int),
                    (256, 1, 1),
                    0,
                    seq![
                        Arg::Buf(Buf::Xb),
                        Arg::Buf(Buf::BatchXb),
                        Arg::I32((tokens.len() - 1) as i32),
                        Arg::I32(c.n_embd as i32),
                    ],
                ),
                self.head_step(),
            ]
        }
    }

    /// The logits after each token of a draft, in the rows of `BatchLogits`, by one decode
    /// step per token.
    pub open spec fn verify_each_steps(self, tokens: Seq<u32>, pos0: usize) -> Seq<StepView>
        decreases tokens.len(),
    {
        let c = self.config;
        if tokens.len() == 0 {
            Seq::empty()
        } else {
            let i = tokens.len() - 1;
            self.verify_each_steps(tokens.drop_last(), pos0) + self.forward_steps(
                tokens.last(),
                (pos0 + i) as usize,
            ) + seq![
                StepView::Copy {
                    src: Buf::Logits,
                    src_at: 0,
                    dst: Buf::BatchLogits,
                    dst_at: i * c.n_vocab,
                    len: c.n_vocab as int,
                },
            ]
        }
    }

    /// The logits after each token of a draft, in the rows of `BatchLogits`: by one batch,
    /// or token by token where some linear takes its inputs in an order of its own, which
    /// the kernels for batches do not know.
    pub open spec fn verify_rows_steps(self, tokens: Seq<u32>, pos0: usize) -> Seq<StepView> {
        let c = self.config;
        if self.gptq_act_order {
            self.verify_each_steps(tokens, pos0)
        } else {
            self.batch_steps(tokens, pos0) + gemm_steps(
                self.ag as int,
                Buf::BatchLogits,
                Buf::BatchXb,
                self.head(),
                Buf::ZeroBias,
                tokens.len() as int,
                c.n_vocab as int,
                c.n_embd as int,
            )
        }
    }

    /// Verification of a draft: the greedy choice after each of its tokens, in
    /// `BatchArgmax`.
    pub open spec fn verify_steps(self, tokens: Seq<u32>, pos0: usize) -> Seq<StepView> {
        self.verify_rows_steps(tokens, pos0) + seq![
            launch(
                Kernel::ArgmaxRows,
                (tokens.len() as u32, 1, 1),
                (256, 1, 1),
                0,
                seq![
                    Arg::Buf(Buf::BatchArgmax),
                    Arg::Buf(Buf::BatchLogits),
                    Arg::I32(self.config.n_vocab as i32),
                ],
            ),
        ]
    }

    /// The launches of a decode graph: lookup and decode step at the token and
    /// position in device memory, then the greedy choice, which advances both.
    pub open spec fn graph_steps(self) -> Seq<StepView> {
        seq![self.lookup_step(0, None)] + self.body_steps(None) + seq![
            launch(
                Kernel::ArgmaxAdvance,
                (1, 1, 1),
                (256, 1, 1),
                0,
                seq![
                    Arg::Buf(Buf::GraphTok),
                    Arg::Buf(Buf::GraphPos),
                    Arg::Buf(Buf::Logits),
                    Arg::I32(self.config.n_vocab as i32),
                ],
            ),
        ]
    }

    /// Putting the first token and its position in device memory.
    pub open spec fn graph_start(self, first_tok: u32, pos: usize) -> Seq<StepView> {
        seq![
            StepView::Upload { dst: Buf::GraphTok, values: seq![first_tok as i32] },
            StepView::Upload { dst: Buf::GraphPos, values: seq![pos as i32] },
        ]
    }

    /// Decoding `n` tokens by the graph: token and position are put in device memory, then
    /// the launches of the graph follow `n` times.
    pub open spec fn graph_run(self, first_tok: u32, pos: usize, n: nat) -> Seq<StepView> {
        self.graph_start(first_tok, pos) + repeated(self.graph_steps(), n)
    }
}

/// A plan carried out `n` times in a row.
pub open spec fn repeated(steps: Seq<StepView>, n: nat) -> Seq<StepView>
    decreases n,
{
    if n == 0 {
        Seq::empty()
    } else {
        repeated(steps, (n - 1) as nat) + steps
    }
}

/// One thing to do when decoding by the graph.
pub enum GraphOp {
    /// Carry out the step.
    Run(Step),
    /// Capture the graph, unless that has been done.
    Prepare,
    /// Launch the captured graph once.
    Replay,
    /// Wait for the device: the first word of the buffer is the answer.
    Answer(Buf),
}

/// What a `GraphOp` says.
#[verifier::ext_equal]
pub enum GraphOpView {
    Run(StepView),
    Prepare,
    Replay,
    Answer(Buf),
}

impl View for GraphOp {
    type V = GraphOpView;

    open spec fn view(&self) -> GraphOpView {
        match self {
            GraphOp::Run(s) => GraphOpView::Run(s@),
            GraphOp::Prepare => GraphOpView::Prepare,
            GraphOp::Replay => GraphOpView::Replay,
            GraphOp::Answer(b) => GraphOpView::Answer(*b),
        }
    }
}

/// What a list of things to do says.
pub open spec fn op_views(ops: Seq<GraphOp>) -> Seq<GraphOpView> {
    ops.map_values(|o: GraphOp| o@)
}

fn push_op(out: &mut Vec<GraphOp>, o: GraphOp)
    ensures
        op_views(final(out)@) == op_views(old(out)@).push(o@),
{
    out.push(o);
    assert(op_views(out@) =~= op_views(old(out)@).push(o@));
}

/// What the device carries out, in order, when the captured graph has the given launches.
pub open spec fn carried_out(ops: Seq<GraphOpView>, graph: Seq<StepView>) -> Seq<StepView>
    decreases ops.len(),
{
    if ops.len() == 0 {
        Seq::empty()
    } else {
        carried_out(ops.drop_last(), graph) + match ops.last() {
            GraphOpView::Run(s) => seq![s],
            GraphOpView::Prepare => Seq::empty(),
            GraphOpView::Replay => graph,
            GraphOpView::Answer(b) => Seq::empty(),
        }
    }
}

/// The things to do before the first replay.
pub open spec fn graph_opening(start: Seq<StepView>) -> Seq<GraphOpView> {
    start.map_values(|s: StepView| GraphOpView::Run(s)).push(GraphOpView::Prepare)
}

/// `n` launches of the captured graph.
pub open spec fn replays(n: nat) -> Seq<GraphOpView> {
    Seq::new(n, |i: int| GraphOpView::Replay)
}

/// Decoding `n` tokens by the graph: the start, the capture, `n` replays, the answer.
pub open spec fn graph_ops(start: Seq<StepView>, n: nat) -> Seq<GraphOpView> {
    (graph_opening(start) + replays(n)).push(
        GraphOpView::Answer(Buf::GraphTok),
    )
}

proof fn lemma_runs(start: Seq<StepView>, graph: Seq<StepView>)
    ensures
        carried_out(start.map_values(|s: StepView| GraphOpView::Run(s)), graph) == start,
    decreases start.len(),
{
    let ops = start.map_values(|s: StepView| GraphOpView::Run(s));
    if start.len() > 0 {
        let front = start.drop_last();
        lemma_runs(front, graph);
        assert(ops.drop_last() =~= front.map_values(|s: StepView| GraphOpView::Run(s)));
        assert(front + seq![start.last()] =~= start);
    }
}

proof fn lemma_replays(start: Seq<StepView>, graph: Seq<StepView>, n: nat)
    ensures
        carried_out(graph_opening(start) + replays(n), graph)
            == start + repeated(graph, n),
    decreases n,
{
    let opening = graph_opening(start);
    let ops = opening + replays(n);
    if n == 0 {
        lemma_runs(start, graph);
        assert(ops =~= opening);
        assert(opening.drop_last() =~= start.map_values(|s: StepView| GraphOpView::Run(s)));
        assert(start + Seq::empty() =~= start);
    } else {
        let m = (n - 1) as nat;
        lemma_replays(start, graph, m);
        assert(ops.drop_last() =~= opening + replays(m));
        assert(start + repeated(graph, m) + graph =~= start + (repeated(graph, m) + graph));
    }
}

/// What is done when decoding `n` tokens by the graph makes the device carry out the start
/// and then the graph `n` times, nothing more and nothing less.
pub proof fn graph_decoding_replays_exactly(start: Seq<StepView>, graph: Seq<StepView>, n: nat)
    ensures
        carried_out(graph_ops(start, n), graph) == start + repeated(graph, n),
{
    lemma_replays(start, graph, n);
    let ops = graph_ops(start, n);
    assert(ops.drop_last() =~= graph_opening(start) + replays(n));
    assert(carried_out(ops, graph) =~= start + repeated(graph, n));
}

/// Sizes over a batch stay below the sizes over the whole context.
proof fn lemma_batch_sizes(e: Engine, n: int, pos0: int)
    requires
        e.wf(),
        0 <= n,
        0 <= pos0,
        pos0 + n <= e.config.n_ctx,
    ensures
        0 <= n * e.config.n_embd <= usize::MAX,
        0 <= n * e.config.n_inter <= usize::MAX,
        0 <= n * e.config.qkv_width() <= usize::MAX,
        0 <= n * e.config.q_width() <= usize::MAX,
        0 <= n * (e.config.q_width() + e.config.kv_width()) <= usize::MAX,
{
    let c = e.config;
    lemma_config_widths(c);
    lemma_scaled(n, c.n_ctx as int, c.n_embd as int, c.n_embd as int);
    lemma_scaled(n, c.n_ctx as int, c.n_inter as int, c.n_inter as int);
    lemma_scaled(n, c.n_ctx as int, c.qkv_width(), c.qkv_width());
    lemma_scaled(n, c.n_ctx as int, c.q_width(), c.qkv_width());
    lemma_scaled(n, c.n_ctx as int, c.q_width() + c.kv_width(), c.qkv_width());
}

proof fn lemma_scaled(n: int, m: int, a: int, b: int)
    requires
        0 <= n <= m,
        0 <= a <= b,
    ensures
        0 <= n * a <= m * b,
{
    assert(0 <= n * a <= m * b) by (nonlinear_arith)
        requires
            0 <= n <= m,
            0 <= a <= b,
    ;
}

proof fn lemma_plan_assoc(a: Seq<StepView>, b: Seq<StepView>, c: Seq<StepView>)
    ensures
        (a + b) + c == a + (b + c),
{
    assert((a + b) + c =~= a + (b + c));
}

impl Engine {
    /// True where the batch kernels accept the model.
    pub fn batch_ready(&self) -> (r: bool)
        requires
            self.wf(),
        ensures
            r == self.batchable(),
    {
        let c = &self.config;
        proof {
            lemma_config_widths(*c);
        }
        if c.head_dim != 64 || !width_ok(&self.head_weights(), c.n_embd) {
            return false;
        }
        let mut l: usize = 0;
        while l < self.layers.len()
            invariant
                self.wf(),
                *c == self.config,
                c.q_width() <= usize::MAX,
                c.head_dim == 64,
                gemm_width_ok(self.head(), c.n_embd as int),
                l <= self.layers.len(),
                forall|j: int|
                    0 <= j < l ==> {
                        let y = #[trigger] self.layers@[j];
                        &&& gemm_width_ok(y.qkv_w, c.n_embd as int)
                        &&& gemm_width_ok(y.proj_w, c.q_width())
                        &&& gemm_width_ok(y.fc_w, c.n_embd as int)
                        &&& (y.up_w matches Some(up) ==> gemm_width_ok(up, c.n_embd as int))
                        &&& gemm_width_ok(y.fc2_w, c.n_inter as int)
                    },
            decreases self.layers.len() - l,
        {
            let y = &self.layers[l];
            let up_ok: bool = match y.up_w {
                None => true,
                Some(up) => width_ok(&up, c.n_embd),
            };
            if !width_ok(&y.qkv_w, c.n_embd) || !width_ok(&y.proj_w, c.q_dim()) || !width_ok(
                &y.fc_w,
                c.n_embd,
            ) || !up_ok || !width_ok(&y.fc2_w, c.n_inter) {
                return false;
            }
            l = l + 1;
        }
        true
    }

    /// Plans the upload and embedding lookup of a run of tokens.
    pub fn launch_embed_batch(&self, out: &mut Vec<Step>, tokens: &[u32], pos0: usize)
        requires
            self.wf(),
            pos0 + tokens.len() <= self.config.n_ctx,
        ensures
            plan(final(out)@) == plan(old(out)@) + self.embed_batch_steps(tokens@, pos0),
    {
        let c = &self.config;
        let n: usize = tokens.len();
        let ghost before = plan(out@);
        proof {
            lemma_batch_sizes(*self, n as int, pos0 as int);
        }
        push_step(out, Step::Upload { dst: Buf::BatchTok, values: tokens_i32(tokens) });
        let which: Vec<Arg> = vec![
            Arg::Buf(Buf::BatchTok),
            Arg::I32(pos0 as i32),
            Arg::I32(n as i32),
        ];
        embed(
            out,
            &self.wte_t,
            EmbedForm::Batch,
            Buf::BatchX,
            n * c.n_embd,
            &which,
            c.n_embd,
            c.n_vocab,
        );
        assert(which@ =~= seq![Arg::Buf(Buf::BatchTok), Arg::I32(pos0 as i32), Arg::I32(n as i32)]);
        assert(plan(out@) =~= before + self.embed_batch_steps(tokens@, pos0));
    }

    /// Plans the start of a layer over a batch.
    fn front_batch(&self, out: &mut Vec<Step>, l: usize, n: usize, pos0: usize)
        requires
            self.batch_ok(n as int, pos0 as int),
            l < self.config.n_layer,
        ensures
            plan(final(out)@) == plan(old(out)@) + self.front_batch_steps(l as int, n as int),
    {
        let c = &self.config;
        let y = &self.layers[l];
        let ghost before = plan(out@);
        proof {
            lemma_batch_sizes(*self, n as int, pos0 as int);
        }
        norm_batch(out, Buf::BatchXb, Buf::BatchX, y.ln1_g, y.ln1_b, n, c.n_embd, c.norm_eps);
        gemm(
            out,
            self.ag,
            Buf::BatchQkv,
            Buf::BatchXb,
            &y.qkv_w,
            y.qkv_b,
            n,
            c.qkv_dim(),
            c.n_embd,
        );
        assert(plan(out@) =~= before + self.front_batch_steps(l as int, n as int));
    }

    /// Plans the rotary positions of a batch.
    fn rope_batch(&self, out: &mut Vec<Step>, n: usize, pos0: usize)
        requires
            self.wf(),
            pos0 + n <= self.config.n_ctx,
        ensures
            plan(final(out)@) == plan(old(out)@) + self.rope_batch_steps(n as int, pos0),
    {
        let c = &self.config;
        let ghost before = plan(out@);
        match c.arch {
            Arch::Gpt2 => {},
            _ => {
                proof {
                    lemma_config_widths(*c);
                    lemma_batch_sizes(*self, n as int, pos0 as int);
                }
                let args: Vec<Arg> = vec![
                    Arg::Buf(Buf::BatchQkv),
                    Arg::I32(pos0 as i32),
                    Arg::I32(n as i32),
                    Arg::I32(c.n_head as i32),
                    Arg::I32(c.n_kv_head as i32),
                    Arg::I32(c.head_dim as i32),
                    Arg::I32(c.qkv_dim() as i32),
                    Arg::F32(c.rope_theta),
                ];
                let total: usize = n * (c.q_dim() + c.kv_dim()) / 2;
                push_launch(out, Kernel::RopeBatch, cfg1d(total), (256, 1, 1), 0, args);
                assert(plan(out@).last() =~= self.rope_batch_steps(n as int, pos0)[0]);
            },
        }
        assert(plan(out@) =~= before + self.rope_batch_steps(n as int, pos0));
    }

    /// Plans the attention of a batch.
    fn attend_batch(&self, out: &mut Vec<Step>, l: usize, n: usize, pos0: usize)
        requires
            self.wf(),
        ensures
            plan(final(out)@) == plan(old(out)@) + self.attn_batch_steps(l, n as int, pos0),
    {
        let c = &self.config;
        let ghost before = plan(out@);
        let ghost want = self.attn_batch_steps(l, n as int, pos0);
        proof {
            lemma_config_widths(*c);
        }
        let pos: Arg = Arg::I32(pos0 as i32);
        let rows: Arg = Arg::I32(n as i32);
        let nh: Arg = Arg::I32(c.n_head as i32);
        let nkv: Arg = Arg::I32(c.n_kv_head as i32);
        let qd: Arg = Arg::I32(c.q_dim() as i32);
        let kvd: Arg = Arg::I32(c.kv_dim() as i32);
        let qkvd: Arg = Arg::I32(c.qkv_dim() as i32);
        let grid: (u32, u32, u32) = (c.n_head as u32, blocks(n, 64) as u32, 1);
        let kb: Buf = Buf::Kv(l, KvPart::K);
        let vb: Buf = Buf::Kv(l, KvPart::V);
        if self.kv8 {
            let ks: Buf = Buf::Kv(l, KvPart::Ks);
            let vs: Buf = Buf::Kv(l, KvPart::Vs);
            let ko: Buf = Buf::Kv(l, KvPart::Kb);
            let vo: Buf = Buf::Kv(l, KvPart::Vb);
            let qargs: Vec<Arg> = vec![
                Arg::Buf(kb),
                Arg::Buf(vb),
                Arg::Buf(ks),
                Arg::Buf(vs),
                Arg::Buf(ko),
                Arg::Buf(vo),
                Arg::Buf(Buf::BatchQkv),
                pos,
                qd,
                nkv,
                Arg::I32(c.head_dim as i32),
                qkvd,
            ];
            push_launch(
                out,
                Kernel::QuantizeKvBatch,
                (c.n_kv_head as u32, n as u32, 1),
                (c.head_dim as u32, 1, 1),
                0,
                qargs,
            );
            assert(plan(out@).last() =~= want[0]);
            let args: Vec<Arg> = vec![
                Arg::Buf(Buf::BatchAttn),
                Arg::Buf(Buf::BatchQkv),
                Arg::Buf(kb),
                Arg::Buf(vb),
                Arg::Buf(ks),
                Arg::Buf(vs),
                Arg::Buf(ko),
                Arg::Buf(vo),
                pos,
                rows,
                nh,
                nkv,
                qkvd,
                qd,
            ];
            push_launch(out, Kernel::AttnPrefillQ8, grid, (64, 1, 1), 0, args);
            assert(plan(out@).last() =~= want[1]);
        } else {
            let cargs: Vec<Arg> = vec![
                Arg::Buf(kb),
                Arg::Buf(vb),
                Arg::Buf(Buf::BatchQkv),
                pos,
                qd,
                kvd,
                qkvd,
            ];
            push_launch(
                out,
                Kernel::CopyKvBatch,
                (blocks(c.kv_dim(), 256) as u32, n as u32, 1),
                (256, 1, 1),
                0,
                cargs,
            );
            assert(plan(out@).last() =~= want[0]);
            let args: Vec<Arg> = vec![
                Arg::Buf(Buf::BatchAttn),
                Arg::Buf(Buf::BatchQkv),
                Arg::Buf(kb),
                Arg::Buf(vb),
                pos,
                rows,
                nh,
                nkv,
                qkvd,
                qd,
            ];
            push_launch(out, Kernel::AttnPrefill, grid, (64, 1, 1), 0, args);
            assert(plan(out@).last() =~= want[1]);
        }
        assert(plan(out@) =~= before + want);
    }

    /// Plans the output projection of a layer over a batch.
    fn proj_batch(&self, out: &mut Vec<Step>, l: usize, n: usize, pos0: usize)
        requires
            self.batch_ok(n as int, pos0 as int),
            l < self.config.n_layer,
        ensures
            plan(final(out)@) == plan(old(out)@) + self.proj_batch_steps(l as int, n as int),
    {
        let c = &self.config;
        let y = &self.layers[l];
        let ghost before = plan(out@);
        proof {
            lemma_config_widths(*c);
            lemma_batch_sizes(*self, n as int, pos0 as int);
        }
        let e: usize = c.n_embd;
        gemm(out, self.ag, Buf::BatchXb, Buf::BatchAttn, &y.proj_w, y.proj_b, n, e, c.q_dim());
        add_inplace(out, Buf::BatchX, Buf::BatchXb, n * e);
        norm_batch(out, Buf::BatchXb, Buf::BatchX, y.ln2_g, y.ln2_b, n, e, c.norm_eps);
        assert(plan(out@) =~= before + self.proj_batch_steps(l as int, n as int));
    }

    /// Plans the activation of the MLP over a batch.
    fn act_batch(&self, out: &mut Vec<Step>, l: usize, n: usize, pos0: usize)
        requires
            self.batch_ok(n as int, pos0 as int),
            l < self.config.n_layer,
        ensures
            plan(final(out)@) == plan(old(out)@) + self.act_batch_steps(l as int, n as int),
    {
        let c = &self.config;
        let y = &self.layers[l];
        let ghost before = plan(out@);
        let ghost want = self.act_batch_steps(l as int, n as int);
        proof {
            lemma_batch_sizes(*self, n as int, pos0 as int);
        }
        let total: usize = n * c.n_inter;
        match y.up_w {
            None => {
                let args: Vec<Arg> = vec![Arg::Buf(Buf::BatchH), Arg::I32(total as i32)];
                push_launch(out, Kernel::GeluInplace, cfg1d(total), (256, 1, 1), 0, args);
            },
            Some(up) => {
                gemm(
                    out,
                    self.ag,
                    Buf::BatchH2,
                    Buf::BatchXb,
                    &up,
                    Buf::ZeroBias,
                    n,
                    c.n_inter,
                    c.n_embd,
                );
                let args: Vec<Arg> = vec![
                    Arg::Buf(Buf::BatchH),
                    Arg::Buf(Buf::BatchH2),
                    Arg::I32(total as i32),
                ];
                push_launch(out, Kernel::SiluMul, cfg1d(total), (256, 1, 1), 0, args);
            },
        }
        assert(plan(out@).last() =~= want.last());
        assert(plan(out@) =~= before + want);
    }

    /// Plans the MLP of a layer over a batch.
    fn mlp_batch(&self, out: &mut Vec<Step>, l: usize, n: usize, pos0: usize)
        requires
            self.batch_ok(n as int, pos0 as int),
            l < self.config.n_layer,
        ensures
            plan(final(out)@) == plan(old(out)@) + self.mlp_batch_steps(l as int, n as int),
    {
        let c = &self.config;
        let y = &self.layers[l];
        let ghost before = plan(out@);
        proof {
            lemma_batch_sizes(*self, n as int, pos0 as int);
        }
        let (e, inter): (usize, usize) = (c.n_embd, c.n_inter);
        let fc_b: Buf = match y.fc_b {
            Some(b) => b,
            None => Buf::ZeroBias,
        };
        let fc2_b: Buf = match y.fc2_b {
            Some(b) => b,
            None => Buf::ZeroBias,
        };
        gemm(out, self.ag, Buf::BatchH, Buf::BatchXb, &y.fc_w, fc_b, n, inter, e);
        self.act_batch(out, l, n, pos0);
        gemm(out, self.ag, Buf::BatchXb, Buf::BatchH, &y.fc2_w, fc2_b, n, e, inter);
        add_inplace(out, Buf::BatchX, Buf::BatchXb, n * e);
        assert(plan(out@) =~= before + self.mlp_batch_steps(l as int, n as int));
    }

    /// Plans the batched trunk.
    pub fn batch_body(&self, out: &mut Vec<Step>, tokens: &[u32], pos0: usize)
        requires
            self.batch_ok(tokens.len() as int, pos0 as int),
        ensures
            plan(final(out)@) == plan(old(out)@) + self.batch_steps(tokens@, pos0),
    {
        let c = &self.config;
        let n: usize = tokens.len();
        let ghost before = plan(out@);
        self.launch_embed_batch(out, tokens, pos0);
        let ghost base = plan(out@);
        let mut l: usize = 0;
        assert(base + self.layers_batch_steps(0, n as int, pos0) =~= base);
        while l < c.n_layer
            invariant
                self.batch_ok(n as int, pos0 as int),
                *c == self.config,
                l <= c.n_layer,
                plan(out@) == base + self.layers_batch_steps(l as nat, n as int, pos0),
            decreases c.n_layer - l,
        {
            let ghost done = self.layers_batch_steps(l as nat, n as int, pos0);
            self.front_batch(out, l, n, pos0);
            self.rope_batch(out, n, pos0);
            self.attend_batch(out, l, n, pos0);
            self.proj_batch(out, l, n, pos0);
            self.mlp_batch(out, l, n, pos0);
            proof {
                let (f, r, a, p, m) = (
                    self.front_batch_steps(l as int, n as int),
                    self.rope_batch_steps(n as int, pos0),
                    self.attn_batch_steps(l, n as int, pos0),
                    self.proj_batch_steps(l as int, n as int),
                    self.mlp_batch_steps(l as int, n as int),
                );
                lemma_plan_assoc(base, done, f);
                lemma_plan_assoc(base, done + f, r);
                lemma_plan_assoc(base, (done + f) + r, a);
                lemma_plan_assoc(base, ((done + f) + r) + a, p);
                lemma_plan_assoc(base, (((done + f) + r) + a) + p, m);
                lemma_plan_assoc(done, f, r);
                lemma_plan_assoc(done, f + r, a);
                lemma_plan_assoc(done, (f + r) + a, p);
                lemma_plan_assoc(done, ((f + r) + a) + p, m);
            }
            l = l + 1;
        }
        norm_batch(
            out,
            Buf::BatchXb,
            Buf::BatchX,
            self.lnf_g,
            self.lnf_b,
            n,
            c.n_embd,
            c.norm_eps,
        );
        assert(plan(out@) =~= before + self.batch_steps(tokens@, pos0));
    }

    /// Plans the prefill of a prompt; the last token's logits end in `Logits`. Where
    /// it runs token by token, no tokens make an empty plan.
    pub fn prefill(&self, tokens: &[u32], pos0: usize) -> (steps: Vec<Step>)
        requires
            self.wf(),
            pos0 + tokens.len() <= self.config.n_ctx,
            tokens.len() == 1 || self.gptq_act_order || self.batch_ok(
                tokens.len() as int,
                pos0 as int,
            ),
        ensures
            plan(steps@) == self.prefill_steps(tokens@, pos0),
    {
        let c = &self.config;
        let mut out: Vec<Step> = Vec::new();
        assert(plan(out@) =~= Seq::empty());
        let ghost want = self.prefill_steps(tokens@, pos0);
        if tokens.len() == 1 || self.gptq_act_order {
            let mut i: usize = 0;
            assert(tokens@.take(0) =~= Seq::empty());
            while i < tokens.len()
                invariant
                    self.wf(),
                    pos0 + tokens.len() <= self.config.n_ctx,
                    i <= tokens.len(),
                    plan(out@) == self.forward_all_steps(tokens@.take(i as int), pos0),
                decreases tokens.len() - i,
            {
                let ghost before = plan(out@);
                self.launch_embed(&mut out, tokens[i], pos0 + i);
                self.forward_body(&mut out, pos0 + i);
                proof {
                    let t = tokens@.take(i + 1);
                    assert(t.drop_last() =~= tokens@.take(i as int));
                    assert(t.last() == tokens@[i as int]);
                    assert(plan(out@) =~= before + self.forward_steps(
                        tokens@[i as int],
                        (pos0 + i) as usize,
                    ));
                }
                i = i + 1;
            }
            assert(tokens@.take(i as int) =~= tokens@);
            return out;
        }
        self.batch_body(&mut out, tokens, pos0);
        let args: Vec<Arg> = vec![
            Arg::Buf(Buf::Xb),
            Arg::Buf(Buf::BatchXb),
            Arg::I32((tokens.len() - 1) as i32),
            Arg::I32(c.n_embd as i32),
        ];
        push_launch(&mut out, Kernel::CopyRow, cfg1d(c.n_embd), (256, 1, 1), 0, args);
        assert(plan(out@).last() =~= want[want.len() - 2]);
        gemv(
            &mut out,
            self.ag,
            Buf::Logits,
            Buf::Xb,
            &self.head_weights(),
            Buf::ZeroBias,
            c.n_embd,
            c.n_vocab,
            false,
        );
        assert(plan(out@) =~= want);
        out
    }

    /// Plans the logits after each token of a draft, token by token.
    fn verify_each(&self, tokens: &[u32], pos0: usize) -> (out: Vec<Step>)
        requires
            self.wf(),
            pos0 + tokens.len() <= self.config.n_ctx,
            tokens.len() <= MAX_SPEC_TOKENS,
        ensures
            plan(out@) == self.verify_each_steps(tokens@, pos0),
    {
        let mut out: Vec<Step> = Vec::new();
        assert(plan(out@) =~= Seq::empty());
        let n_vocab: usize = self.config.n_vocab;
        let mut i: usize = 0;
        assert(tokens@.take(0) =~= Seq::empty());
        while i < tokens.len()
            invariant
                self.wf(),
                pos0 + tokens.len() <= self.config.n_ctx,
                tokens.len() <= MAX_SPEC_TOKENS,
                n_vocab == self.config.n_vocab,
                i <= tokens.len(),
                plan(out@) == self.verify_each_steps(tokens@.take(i as int), pos0),
            decreases tokens.len() - i,
        {
            let ghost before = plan(out@);
            self.launch_embed(&mut out, tokens[i], pos0 + i);
            self.forward_body(&mut out, pos0 + i);
            assert(plan(out@) =~= before + self.forward_steps(
                tokens@[i as int],
                (pos0 + i) as usize,
            ));
            proof {
                lemma_scaled(i as int, MAX_SPEC_TOKENS as int, n_vocab as int, n_vocab as int);
            }
            let ghost forwarded = plan(out@);
            push_step(
                &mut out,
                Step::Copy {
                    src: Buf::Logits,
                    src_at: 0,
                    dst: Buf::BatchLogits,
                    dst_at: i * n_vocab,
                    len: n_vocab,
                },
            );
            proof {
                let t = tokens@.take(i + 1);
                assert(t.drop_last() =~= tokens@.take(i as int));
                assert(t.last() == tokens@[i as int]);
                assert(plan(out@) =~= forwarded + seq![plan(out@).last()]);
            }
            i = i + 1;
        }
        assert(tokens@.take(i as int) =~= tokens@);
        out
    }

    /// Plans the verification of a draft.
    pub fn verify_argmax(&self, tokens: &[u32], pos0: usize) -> (steps: Vec<Step>)
        requires
            self.wf(),
            0 < tokens.len() <= MAX_SPEC_TOKENS,
            pos0 + tokens.len() <= self.config.n_ctx,
            self.gptq_act_order || self.batch_ok(tokens.len() as int, pos0 as int),
        ensures
            plan(steps@) == self.verify_steps(tokens@, pos0),
    {
        let c = &self.config;
        let n: usize = tokens.len();
        let ghost want = self.verify_steps(tokens@, pos0);
        let mut out: Vec<Step> = Vec::new();
        if self.gptq_act_order {
            out = self.verify_each(tokens, pos0);
        } else {
            assert(plan(out@) =~= Seq::empty());
            proof {
                lemma_batch_sizes(*self, n as int, pos0 as int);
            }
            self.batch_body(&mut out, tokens, pos0);
            gemm(
                &mut out,
                self.ag,
                Buf::BatchLogits,
                Buf::BatchXb,
                &self.head_weights(),
                Buf::ZeroBias,
                n,
                c.n_vocab,
                c.n_embd,
            );
        }
        assert(plan(out@) =~= self.verify_rows_steps(tokens@, pos0));
        let args: Vec<Arg> = vec![
            Arg::Buf(Buf::BatchArgmax),
            Arg::Buf(Buf::BatchLogits),
            Arg::I32(c.n_vocab as i32),
        ];
        push_launch(&mut out, Kernel::ArgmaxRows, (n as u32, 1, 1), (256, 1, 1), 0, args);
        assert(plan(out@).last() =~= want.last());
        assert(plan(out@) =~= want);
        out
    }

    /// The launches to capture as the decode graph, once: nothing where it has been
    /// captured already.
    pub fn capture_decode_graph(&mut self) -> (steps: Option<Vec<Step>>)
        requires
            old(self).wf(),
        ensures
            final(self).wf(),
            final(self).captured,
            final(self).config == old(self).config,
            final(self).ag == old(self).ag,
            final(self).wte_t == old(self).wte_t,
            final(self).lm_head_t == old(self).lm_head_t,
            final(self).layers == old(self).layers,
            final(self).lnf_g == old(self).lnf_g,
            final(self).lnf_b == old(self).lnf_b,
            final(self).kv8 == old(self).kv8,
            final(self).gptq_act_order == old(self).gptq_act_order,
            match steps {
                Some(steps) => !old(self).captured && plan(steps@) == old(self).graph_steps(),
                None => old(self).captured,
            },
    {
        if self.captured {
            return None;
        }
        let mut out: Vec<Step> = Vec::new();
        assert(plan(out@) =~= Seq::empty());
        let ghost want = self.graph_steps();
        self.launch_embed_dyn(&mut out);
        self.forward_body_dyn(&mut out);
        let args: Vec<Arg> = vec![
            Arg::Buf(Buf::GraphTok),
            Arg::Buf(Buf::GraphPos),
            Arg::Buf(Buf::Logits),
            Arg::I32(self.config.n_vocab as i32),
        ];
        push_launch(&mut out, Kernel::ArgmaxAdvance, (1, 1, 1), (256, 1, 1), 0, args);
        proof {
            assert(plan(out@).last() =~= want.last());
            assert(plan(out@) =~= want);
        }
        self.captured = true;
        Some(out)
    }

    /// Plans decoding `n_steps` tokens by the graph: token and position are put in device
    /// memory, the graph is captured where it has not been, and is then launched once per
    /// step. It keeps token and position on the device, so nothing is read in between.
    pub fn graph_decode(&self, first_tok: u32, pos: usize, n_steps: usize) -> (ops: Vec<GraphOp>)
        requires
            pos + n_steps <= self.config.n_ctx,
        ensures
            op_views(ops@) == graph_ops(self.graph_start(first_tok, pos), n_steps as nat),
            carried_out(op_views(ops@), self.graph_steps()) == self.graph_run(
                first_tok,
                pos,
                n_steps as nat,
            ),
    {
        let tok: Vec<i32> = vec![first_tok as i32];
        let at: Vec<i32> = vec![pos as i32];
        assert(tok@ =~= seq![first_tok as i32]);
        assert(at@ =~= seq![pos as i32]);
        let ghost start = self.graph_start(first_tok, pos);
        let mut out: Vec<GraphOp> = Vec::new();
        push_op(&mut out, GraphOp::Run(Step::Upload { dst: Buf::GraphTok, values: tok }));
        push_op(&mut out, GraphOp::Run(Step::Upload { dst: Buf::GraphPos, values: at }));
        push_op(&mut out, GraphOp::Prepare);
        let ghost opening = graph_opening(start);
        assert(op_views(out@) =~= opening + replays(0));
        let mut i: usize = 0;
        while i < n_steps
            invariant
                i <= n_steps,
                op_views(out@) == opening + replays(i as nat),
            decreases n_steps - i,
        {
            push_op(&mut out, GraphOp::Replay);
            i = i + 1;
            assert(op_views(out@) =~= opening + replays(i as nat));
        }
        push_op(&mut out, GraphOp::Answer(Buf::GraphTok));
        proof {
            assert(op_views(out@) =~= graph_ops(start, n_steps as nat));
            graph_decoding_replays_exactly(start, self.graph_steps(), n_steps as nat);
        }
        out
    }
}

/// True where the multiplication kernels accept the row width.
pub fn width_ok(w: &Weights, k: usize) -> (r: bool)
    ensures
        r == gemm_width_ok(*w, k as int),
{
    let ints: bool = match *w {
        Weights::F32(v) => false,
        Weights::F16(v) => false,
        _ => true,
    };
    k % 16 == 0 && (!ints || k % 32 == 0)
}

} // verus!
