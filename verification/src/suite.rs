//! Launches of the stand-alone kernel suites: the matrix-multiplication ladder, attention
//! forward and backward, and the fused multiplication with bias and activation.

use crate::launch::blocks;
use crate::layout::{is_transpose, transpose, transpose_undoes_itself};
use crate::quant::div_up;
use crate::sample::ONE;
use vstd::prelude::*;

verus! {

/// A buffer of a suite.
#[derive(Debug, Clone, Copy, PartialEq, Eq, Hash, Structural)]
pub enum Operand {
    A,
    B,
    C,
    Bias,
    Q,
    K,
    V,
    /// Attention scores, one row per query.
    S,
    O,
    /// Logarithm of the sum of exponentials, per row.
    Lse,
    /// Gradient of the output.
    GradO,
    /// Row sums of output times gradient.
    Delta,
    GradQ,
    GradK,
    GradV,
}

/// An argument of a suite kernel.
#[derive(Debug, Clone, Copy, PartialEq, Eq, Structural)]
pub enum CallArg {
    Buf(Operand),
    I32(i32),
    /// A single-precision number, by its bit pattern.
    F32(u32),
}

/// One launch of a suite kernel.
#[derive(Debug)]
pub struct Call {
    pub name: &'static str,
    pub grid: (u32, u32, u32),
    pub block: (u32, u32, u32),
    pub args: Vec<CallArg>,
}

/// The contents of a [`Call`].
#[verifier::ext_equal]
pub struct CallView {
    pub name: Seq<char>,
    pub grid: (u32, u32, u32),
    pub block: (u32, u32, u32),
    pub args: Seq<CallArg>,
}

impl View for Call {
    type V = CallView;

    open spec fn view(&self) -> CallView {
        CallView { name: self.name@, grid: self.grid, block: self.block, args: self.args@ }
    }
}

/// The contents of a list of calls.
pub open spec fn call_views(v: Seq<Call>) -> Seq<CallView> {
    Seq::new(v.len(), |i: int| v[i]@)
}

/// A truth value as a kernel takes it.
pub open spec fn as_flag(b: bool) -> CallArg {
    CallArg::I32(
        if b {
            1
        } else {
            0
        },
    )
}

fn flag_arg(b: bool) -> (a: CallArg)
    ensures
        a == as_flag(b),
{
    if b {
        CallArg::I32(1)
    } else {
        CallArg::I32(0)
    }
}

/// A rung of the ladder: a way to multiply square matrices.
#[derive(Debug, Clone, Copy, PartialEq, Eq, Structural)]
pub enum Rung {
    Naive,
    Coalesced,
    Tiled,
    Blocktiled,
    Vectorized,
}

/// Rows and columns that one block of a rung computes.
pub open spec fn rung_tile(r: Rung) -> int {
    match r {
        Rung::Naive => 16,
        Rung::Coalesced => 16,
        Rung::Tiled => 32,
        Rung::Blocktiled => 128,
        Rung::Vectorized => 128,
    }
}

/// The threads of a block.
pub open spec fn rung_block(r: Rung) -> (u32, u32, u32) {
    match r {
        Rung::Naive => (16, 16, 1),
        Rung::Coalesced => (16, 16, 1),
        Rung::Tiled => (32, 32, 1),
        Rung::Blocktiled => (256, 1, 1),
        Rung::Vectorized => (256, 1, 1),
    }
}

/// The kernel of a rung.
pub open spec fn rung_kernel(r: Rung) -> Seq<char> {
    match r {
        Rung::Naive => "gemm_naive"@,
        Rung::Coalesced => "gemm_coalesced"@,
        Rung::Tiled => "gemm_tiled"@,
        Rung::Blocktiled => "gemm_blocktiled"@,
        Rung::Vectorized => "gemm_vectorized"@,
    }
}

/// The launch of a rung on `[n, n]` matrices.
pub open spec fn rung_call(r: Rung, n: u32) -> CallView {
    let blocks = (n as int / rung_tile(r)) as u32;
    CallView {
        name: rung_kernel(r),
        grid: (blocks, blocks, 1),
        block: rung_block(r),
        args: seq![
            CallArg::Buf(Operand::A),
            CallArg::Buf(Operand::B),
            CallArg::Buf(Operand::C),
            CallArg::I32(n as i32),
            CallArg::I32(n as i32),
            CallArg::I32(n as i32),
        ],
    }
}

impl Rung {
    /// The rungs from the bottom up.
    pub fn ladder() -> (v: Vec<Rung>)
        ensures
            v@ == seq![
                Rung::Naive,
                Rung::Coalesced,
                Rung::Tiled,
                Rung::Blocktiled,
                Rung::Vectorized,
            ],
    {
        vec![Rung::Naive, Rung::Coalesced, Rung::Tiled, Rung::Blocktiled, Rung::Vectorized]
    }

    /// The rung's name in listings.
    pub fn label(self) -> (s: &'static str)
        ensures
            s@ == match self {
                Rung::Naive => "v1 naive"@,
                Rung::Coalesced => "v2 coalesced"@,
                Rung::Tiled => "v3 smem tiled"@,
                Rung::Blocktiled => "v4 blocktiled"@,
                Rung::Vectorized => "v5 vectorized"@,
            },
    {
        match self {
            Rung::Naive => "v1 naive",
            Rung::Coalesced => "v2 coalesced",
            Rung::Tiled => "v3 smem tiled",
            Rung::Blocktiled => "v4 blocktiled",
            Rung::Vectorized => "v5 vectorized",
        }
    }

    /// The compiled file that holds the rung's kernel.
    pub fn file(self) -> (s: &'static str)
        ensures
            s@ == match self {
                Rung::Naive => "gemm_01_naive.ptx"@,
                Rung::Coalesced => "gemm_02_coalesced.ptx"@,
                Rung::Tiled => "gemm_03_tiled.ptx"@,
                Rung::Blocktiled => "gemm_04_blocktiled.ptx"@,
                Rung::Vectorized => "gemm_05_vectorized.ptx"@,
            },
    {
        match self {
            Rung::Naive => "gemm_01_naive.ptx",
            Rung::Coalesced => "gemm_02_coalesced.ptx",
            Rung::Tiled => "gemm_03_tiled.ptx",
            Rung::Blocktiled => "gemm_04_blocktiled.ptx",
            Rung::Vectorized => "gemm_05_vectorized.ptx",
        }
    }

    /// The launch on `[n, n]` matrices, nothing where `n` does not divide into tiles.
    pub fn call(self, n: u32) -> (r: Option<Call>)
        ensures
            match r {
                Some(c) => n as int % rung_tile(self) == 0 && c@ == rung_call(self, n),
                None => n as int % rung_tile(self) != 0,
            },
    {
        let (name, tile, block): (&'static str, u32, (u32, u32, u32)) = match self {
            Rung::Naive => ("gemm_naive", 16, (16, 16, 1)),
            Rung::Coalesced => ("gemm_coalesced", 16, (16, 16, 1)),
            Rung::Tiled => ("gemm_tiled", 32, (32, 32, 1)),
            Rung::Blocktiled => ("gemm_blocktiled", 128, (256, 1, 1)),
            Rung::Vectorized => ("gemm_vectorized", 128, (256, 1, 1)),
        };
        if n % tile != 0 {
            return None;
        }
        let args: Vec<CallArg> = vec![
            CallArg::Buf(Operand::A),
            CallArg::Buf(Operand::B),
            CallArg::Buf(Operand::C),
            CallArg::I32(n as i32),
            CallArg::I32(n as i32),
            CallArg::I32(n as i32),
        ];
        let c = Call { name, grid: (n / tile, n / tile, 1), block, args };
        assert(c@ =~= rung_call(self, n));
        Some(c)
    }
}

/// The blocks of a rung cover the product exactly.
pub proof fn rungs_cover_the_product(r: Rung, n: u32)
    requires
        n as int % rung_tile(r) == 0,
    ensures
        rung_call(r, n).grid.0 * rung_tile(r) == n,
        rung_call(r, n).grid.1 * rung_tile(r) == n,
{
}

/// Width of an attention head.
pub const HEAD: usize = 64;

/// Attention with a score matrix in memory: scores, softmax over the rows, weighted sum.
pub open spec fn naive_calls(n: usize, causal: bool) -> Seq<CallView> {
    let g = div_up(n as int, 16) as u32;
    seq![
        CallView {
            name: "attn_scores"@,
            grid: (g, g, 1),
            block: (16, 16, 1),
            args: seq![
                CallArg::Buf(Operand::Q),
                CallArg::Buf(Operand::K),
                CallArg::Buf(Operand::S),
                CallArg::I32(n as i32),
                as_flag(causal),
            ],
        },
        CallView {
            name: "attn_softmax"@,
            grid: (n as u32, 1, 1),
            block: (256, 1, 1),
            args: seq![CallArg::Buf(Operand::S), CallArg::I32(n as i32)],
        },
        CallView {
            name: "attn_av"@,
            grid: (1, div_up(n as int, 4) as u32, 1),
            block: (64, 4, 1),
            args: seq![
                CallArg::Buf(Operand::S),
                CallArg::Buf(Operand::V),
                CallArg::Buf(Operand::O),
                CallArg::I32(n as i32),
            ],
        },
    ]
}

/// Attention with a score matrix in memory.
pub fn naive(n: usize, causal: bool) -> (v: Vec<Call>)
    ensures
        call_views(v@) == naive_calls(n, causal),
{
    let g: u32 = blocks(n, 16) as u32;
    let mut v: Vec<Call> = Vec::new();
    v.push(
        Call {
            name: "attn_scores",
            grid: (g, g, 1),
            block: (16, 16, 1),
            args: vec![
                CallArg::Buf(Operand::Q),
                CallArg::Buf(Operand::K),
                CallArg::Buf(Operand::S),
                CallArg::I32(n as i32),
                flag_arg(causal),
            ],
        },
    );
    v.push(
        Call {
            name: "attn_softmax",
            grid: (n as u32, 1, 1),
            block: (256, 1, 1),
            args: vec![CallArg::Buf(Operand::S), CallArg::I32(n as i32)],
        },
    );
    v.push(
        Call {
            name: "attn_av",
            grid: (1, blocks(n, 4) as u32, 1),
            block: (64, 4, 1),
            args: vec![
                CallArg::Buf(Operand::S),
                CallArg::Buf(Operand::V),
                CallArg::Buf(Operand::O),
                CallArg::I32(n as i32),
            ],
        },
    );
    proof {
        let want = naive_calls(n, causal);
        assert(v@[0]@ =~= want[0]);
        assert(v@[1]@ =~= want[1]);
        assert(v@[2]@ =~= want[2]);
        assert(call_views(v@) =~= want);
    }
    v
}

/// Attention in one pass, with or without the logarithm that the backward pass reads.
pub open spec fn flash_call(n: usize, causal: bool, lse: bool) -> CallView {
    let outputs = if lse {
        seq![CallArg::Buf(Operand::O), CallArg::Buf(Operand::Lse)]
    } else {
        seq![CallArg::Buf(Operand::O)]
    };
    CallView {
        name: if lse {
            "attn_flash_lse"@
        } else {
            "attn_flash"@
        },
        grid: (div_up(n as int, 64) as u32, 1, 1),
        block: (64, 1, 1),
        args: seq![
            CallArg::Buf(Operand::Q),
            CallArg::Buf(Operand::K),
            CallArg::Buf(Operand::V),
        ] + outputs + seq![CallArg::I32(n as i32), as_flag(causal)],
    }
}

/// Attention in one pass.
pub fn flash(n: usize, causal: bool, lse: bool) -> (c: Call)
    ensures
        c@ == flash_call(n, causal, lse),
{
    let mut args: Vec<CallArg> = vec![
        CallArg::Buf(Operand::Q),
        CallArg::Buf(Operand::K),
        CallArg::Buf(Operand::V),
        CallArg::Buf(Operand::O),
    ];
    if lse {
        args.push(CallArg::Buf(Operand::Lse));
    }
    args.push(CallArg::I32(n as i32));
    args.push(flag_arg(causal));
    let name: &'static str = if lse {
        "attn_flash_lse"
    } else {
        "attn_flash"
    };
    let c = Call { name, grid: (blocks(n, 64) as u32, 1, 1), block: (64, 1, 1), args };
    assert(c@ =~= flash_call(n, causal, lse));
    c
}

/// The backward pass: the row sums, then the three gradients.
pub open spec fn backward_calls(n: usize, causal: bool) -> Seq<CallView> {
    let grid = (div_up(n as int, 256) as u32, 1u32, 1u32);
    seq![
        CallView {
            name: "attn_bwd_preprocess"@,
            grid,
            block: (256, 1, 1),
            args: seq![
                CallArg::Buf(Operand::GradO),
                CallArg::Buf(Operand::O),
                CallArg::Buf(Operand::Delta),
                CallArg::I32(n as i32),
            ],
        },
        CallView {
            name: "attn_bwd"@,
            grid,
            block: (256, 1, 1),
            args: seq![
                CallArg::Buf(Operand::Q),
                CallArg::Buf(Operand::K),
                CallArg::Buf(Operand::V),
                CallArg::Buf(Operand::GradO),
                CallArg::Buf(Operand::Lse),
                CallArg::Buf(Operand::Delta),
                CallArg::Buf(Operand::GradQ),
                CallArg::Buf(Operand::GradK),
                CallArg::Buf(Operand::GradV),
                CallArg::I32(n as i32),
                as_flag(causal),
            ],
        },
    ]
}

/// The backward pass. The gradients of keys and values are added to, so they start at
/// zero.
pub fn backward(n: usize, causal: bool) -> (v: Vec<Call>)
    ensures
        call_views(v@) == backward_calls(n, causal),
{
    let grid: (u32, u32, u32) = (blocks(n, 256) as u32, 1, 1);
    let mut v: Vec<Call> = Vec::new();
    v.push(
        Call {
            name: "attn_bwd_preprocess",
            grid,
            block: (256, 1, 1),
            args: vec![
                CallArg::Buf(Operand::GradO),
                CallArg::Buf(Operand::O),
                CallArg::Buf(Operand::Delta),
                CallArg::I32(n as i32),
            ],
        },
    );
    v.push(
        Call {
            name: "attn_bwd",
            grid,
            block: (256, 1, 1),
            args: vec![
                CallArg::Buf(Operand::Q),
                CallArg::Buf(Operand::K),
                CallArg::Buf(Operand::V),
                CallArg::Buf(Operand::GradO),
                CallArg::Buf(Operand::Lse),
                CallArg::Buf(Operand::Delta),
                CallArg::Buf(Operand::GradQ),
                CallArg::Buf(Operand::GradK),
                CallArg::Buf(Operand::GradV),
                CallArg::I32(n as i32),
                flag_arg(causal),
            ],
        },
    );
    proof {
        let want = backward_calls(n, causal);
        assert(v@[0]@ =~= want[0]);
        assert(v@[1]@ =~= want[1]);
        assert(call_views(v@) =~= want);
    }
    v
}

/// A step of the fused suite.
#[derive(Debug, Clone, Copy, PartialEq, Eq, Structural)]
pub enum Fused {
    /// Column-major multiplication.
    Gemm,
    /// Column-major multiplication with bias and activation in one kernel.
    GemmBiasGelu,
    /// Bias and activation on their own.
    BiasGelu,
    /// Row-major multiplication with double buffering.
    RowMajor,
}

/// The launch of a step on `[m, k]` by `[k, n]` matrices.
pub open spec fn fused_call(f: Fused, m: usize, n: usize, k: usize) -> CallView {
    let sizes = seq![CallArg::I32(m as i32), CallArg::I32(n as i32), CallArg::I32(k as i32)];
    let tiles = ((m / 128) as u32, (n / 128) as u32, 1u32);
    let (a, b, c) = (CallArg::Buf(Operand::A), CallArg::Buf(Operand::B), CallArg::Buf(Operand::C));
    let bias = CallArg::Buf(Operand::Bias);
    match f {
        Fused::Gemm => CallView {
            name: "cute_gemm"@,
            grid: tiles,
            block: (256, 1, 1),
            args: seq![a, b, c] + sizes + seq![CallArg::F32(ONE)],
        },
        Fused::GemmBiasGelu => CallView {
            name: "cute_gemm_bias_gelu"@,
            grid: tiles,
            block: (256, 1, 1),
            args: seq![a, b, bias, c] + sizes + seq![CallArg::F32(ONE)],
        },
        Fused::BiasGelu => CallView {
            name: "bias_gelu"@,
            grid: (div_up(m * n, 256) as u32, 1, 1),
            block: (256, 1, 1),
            args: seq![c, bias, CallArg::I32(m as i32), CallArg::I32(n as i32)],
        },
        Fused::RowMajor => CallView {
            name: "gemm_dbuf"@,
            grid: (tiles.1, tiles.0, 1),
            block: (256, 1, 1),
            args: seq![a, b, c] + sizes,
        },
    }
}

/// The launch of a step of the fused suite.
pub fn fused(f: Fused, m: usize, n: usize, k: usize) -> (r: Call)
    requires
        m * n <= usize::MAX,
    ensures
        r@ == fused_call(f, m, n, k),
{
    let (a, b, c) = (CallArg::Buf(Operand::A), CallArg::Buf(Operand::B), CallArg::Buf(Operand::C));
    let bias = CallArg::Buf(Operand::Bias);
    let (mi, ni, ki) = (CallArg::I32(m as i32), CallArg::I32(n as i32), CallArg::I32(k as i32));
    let rows: u32 = (m / 128) as u32;
    let cols: u32 = (n / 128) as u32;
    let block: (u32, u32, u32) = (256, 1, 1);
    let r = match f {
        Fused::Gemm => Call {
            name: "cute_gemm",
            grid: (rows, cols, 1),
            block,
            args: vec![a, b, c, mi, ni, ki, CallArg::F32(ONE)],
        },
        Fused::GemmBiasGelu => Call {
            name: "cute_gemm_bias_gelu",
            grid: (rows, cols, 1),
            block,
            args: vec![a, b, bias, c, mi, ni, ki, CallArg::F32(ONE)],
        },
        Fused::BiasGelu => Call {
            name: "bias_gelu",
            grid: (blocks(m * n, 256) as u32, 1, 1),
            block,
            args: vec![c, bias, mi, ni],
        },
        Fused::RowMajor => Call {
            name: "gemm_dbuf",
            grid: (cols, rows, 1),
            block,
            args: vec![a, b, c, mi, ni, ki],
        },
    };
    assert(r@ =~= fused_call(f, m, n, k));
    r
}

/// How a row-major product is asked for from a library that stores by columns: the factors
/// change places, and every matrix is read as its own transpose.
#[derive(Debug, Clone, Copy, PartialEq, Eq, Structural)]
pub struct BlasShape {
    pub m: i32,
    pub n: i32,
    pub k: i32,
    pub lda: i32,
    pub ldb: i32,
    pub ldc: i32,
}

/// The shape of `[m, k]` by `[k, n]`, with the second factor handed in first.
pub fn row_major_gemm(m: usize, k: usize, n: usize) -> (s: BlasShape)
    ensures
        s == (BlasShape {
            m: n as i32,
            n: m as i32,
            k: k as i32,
            lda: n as i32,
            ldb: k as i32,
            ldc: n as i32,
        }),
{
    BlasShape {
        m: n as i32,
        n: m as i32,
        k: k as i32,
        lda: n as i32,
        ldb: k as i32,
        ldc: n as i32,
    }
}

/// A row-major `[m, k]` matrix stored by columns.
pub fn to_colmajor<T: Copy>(a_rm: &[T], m: usize, k: usize) -> (a_cm: Vec<T>)
    requires
        a_rm.len() == m * k,
    ensures
        is_transpose(a_cm@, a_rm@, m as int, k as int),
{
    transpose(a_rm, m, k)
}

/// A column-major `[m, n]` matrix stored by rows.
pub fn to_rowmajor<T: Copy>(c_cm: &[T], m: usize, n: usize) -> (c_rm: Vec<T>)
    requires
        c_cm.len() == m * n,
    ensures
        is_transpose(c_rm@, c_cm@, n as int, m as int),
{
    assert(m * n == n * m) by (nonlinear_arith);
    transpose(c_cm, n, m)
}

/// Storing by columns and back by rows changes nothing.
pub proof fn storage_orders_are_inverse<T>(a: Seq<T>, by_columns: Seq<T>, back: Seq<T>, m: int, k: int)
    requires
        0 <= m,
        0 <= k,
        a.len() == m * k,
        is_transpose(by_columns, a, m, k),
        is_transpose(back, by_columns, k, m),
    ensures
        back == a,
{
    transpose_undoes_itself(a, by_columns, back, m, k);
}

/// No buffer is handed to a launch twice.
pub open spec fn buffers_differ(c: CallView) -> bool {
    forall|i: int, j: int|
        0 <= i < j < c.args.len() && c.args[i] is Buf ==> #[trigger] c.args[i] != #[trigger] c.args[j]
}

/// Every launch of the suites gets each buffer once.
pub proof fn suite_launches_do_not_alias(
    r: Rung,
    f: Fused,
    m: usize,
    n: usize,
    k: usize,
    causal: bool,
    lse: bool,
)
    ensures
        buffers_differ(rung_call(r, n as u32)),
        buffers_differ(fused_call(f, m, n, k)),
        buffers_differ(flash_call(n, causal, lse)),
        forall|i: int| 0 <= i < 3 ==> buffers_differ(#[trigger] naive_calls(n, causal)[i]),
        forall|i: int| 0 <= i < 2 ==> buffers_differ(#[trigger] backward_calls(n, causal)[i]),
{
    assert forall|i: int| 0 <= i < 3 implies buffers_differ(#[trigger] naive_calls(n, causal)[i]) by {
        assert(i == 0 || i == 1 || i == 2);
    }
    assert forall|i: int| 0 <= i < 2 implies buffers_differ(
        #[trigger] backward_calls(n, causal)[i],
    ) by {
        assert(i == 0 || i == 1);
    }
}

/// The blocks reach all of `n` places, and one block fewer would not.
pub open spec fn just_covers(grid: u32, block: u32, n: int) -> bool {
    n <= grid * block && (grid - 1) * block < n
}

proof fn lemma_just_covers(n: int, block: u32)
    requires
        0 < n <= 0x7fff_ffff,
        0 < block <= 256,
    ensures
        just_covers(div_up(n, block as int) as u32, block, n),
{
    let b = block as int;
    let g = div_up(n, b);
    vstd::arithmetic::div_mod::lemma_fundamental_div_mod(n + b - 1, b);
    assert(b * g == g * b) by (nonlinear_arith);
    assert((g - 1) * b == g * b - b) by (nonlinear_arith);
    assert(0 <= g <= 0x8000_00ff) by (nonlinear_arith)
        requires
            g * b <= n + b - 1,
            n < g * b + 1,
            0 < n <= 0x7fff_ffff,
            0 < b <= 256,
    ;
}

/// Attention is launched over every position: a thread for each score, a block for each row of
/// the softmax, a thread for each channel of each output in the long form; a thread for each
/// query in the short one and in the backward pass.
pub proof fn attention_launches_cover_every_position(n: usize, causal: bool, lse: bool)
    requires
        0 < n <= 0x7fff_ffff,
    ensures
        ({
            let (a, f, b) = (
                naive_calls(n, causal),
                flash_call(n, causal, lse),
                backward_calls(n, causal),
            );
            &&& just_covers(a[0].grid.0, a[0].block.0, n as int)
            &&& just_covers(a[0].grid.1, a[0].block.1, n as int)
            &&& a[1].grid.0 == n
            &&& just_covers(a[2].grid.0, a[2].block.0, HEAD as int)
            &&& just_covers(a[2].grid.1, a[2].block.1, n as int)
            &&& just_covers(f.grid.0, f.block.0, n as int)
            &&& just_covers(b[0].grid.0, b[0].block.0, n as int)
            &&& just_covers(b[1].grid.0, b[1].block.0, n as int)
        }),
{
    lemma_just_covers(n as int, 16);
    lemma_just_covers(n as int, 4);
    lemma_just_covers(n as int, 64);
    lemma_just_covers(n as int, 256);
}

/// The first arguments are these buffers in turn, and numbers follow.
pub open spec fn works_on(c: CallView, bufs: Seq<Operand>) -> bool {
    &&& bufs.len() < c.args.len()
    &&& forall|i: int| 0 <= i < bufs.len() ==> c.args[i] == CallArg::Buf(#[trigger] bufs[i])
    &&& forall|i: int| bufs.len() <= i < c.args.len() ==> !(#[trigger] c.args[i] is Buf)
}

/// The long form of attention turns queries and keys into scores, the scores into weights in
/// place, and weights and values into the output. The short form goes from queries, keys and
/// values to the output at once, and keeps the sums for the backward pass where asked to. The
/// backward pass takes the products of the output with its gradient first, and from these and
/// the sums the three gradients. All are told the length, and those that score are told
/// whether later positions are masked.
pub proof fn attention_flows_from_inputs_to_outputs(n: usize, causal: bool)
    requires
        n <= 0x7fff_ffff,
    ensures
        ({
            let (a, b) = (naive_calls(n, causal), backward_calls(n, causal));
            let (f, g) = (flash_call(n, causal, false), flash_call(n, causal, true));
            let length = CallArg::I32(n as i32);
            let masked = CallArg::I32(if causal {
                1
            } else {
                0
            });
            &&& a.len() == 3 && b.len() == 2
            &&& works_on(a[0], seq![Operand::Q, Operand::K, Operand::S])
            &&& works_on(a[1], seq![Operand::S])
            &&& works_on(a[2], seq![Operand::S, Operand::V, Operand::O])
            &&& works_on(f, seq![Operand::Q, Operand::K, Operand::V, Operand::O])
            &&& works_on(g, seq![Operand::Q, Operand::K, Operand::V, Operand::O, Operand::Lse])
            &&& works_on(b[0], seq![Operand::GradO, Operand::O, Operand::Delta])
            &&& works_on(
                b[1],
                seq![
                    Operand::Q,
                    Operand::K,
                    Operand::V,
                    Operand::GradO,
                    Operand::Lse,
                    Operand::Delta,
                    Operand::GradQ,
                    Operand::GradK,
                    Operand::GradV,
                ],
            )
            &&& a[0].args[3] == length && a[0].args[4] == masked
            &&& a[1].args[1] == length && a[2].args[3] == length
            &&& f.args[4] == length && f.args[5] == masked
            &&& g.args[5] == length && g.args[6] == masked
            &&& b[0].args[3] == length
            &&& b[1].args[9] == length && b[1].args[10] == masked
        }),
{
}

/// The tile of a rung is shared out evenly: a thread computes one element up to shared-memory
/// tiles, and 64 from register tiles on.
pub proof fn rungs_share_out_their_tiles(r: Rung, n: u32)
    ensures
        ({
            let c = rung_call(r, n);
            let each = if r == Rung::Blocktiled || r == Rung::Vectorized {
                64int
            } else {
                1
            };
            &&& c.block.0 * c.block.1 * c.block.2 * each == rung_tile(r) * rung_tile(r)
            &&& works_on(c, seq![Operand::A, Operand::B, Operand::C])
            &&& forall|i: int| 3 <= i < 6 ==> #[trigger] c.args[i] == CallArg::I32(n as i32)
        }),
{
    let c = rung_call(r, n);
    let (x, y, z, t) = (c.block.0, c.block.1, c.block.2, rung_tile(r));
    if r == Rung::Tiled {
        assert(x * y * z * 1 == t * t) by (nonlinear_arith)
            requires
                x == 32 && y == 32 && z == 1 && t == 32,
        ;
    } else if r == Rung::Naive || r == Rung::Coalesced {
        assert(x * y * z * 1 == t * t) by (nonlinear_arith)
            requires
                x == 16 && y == 16 && z == 1 && t == 16,
        ;
    } else {
        assert(x * y * z * 64 == t * t) by (nonlinear_arith)
            requires
                x == 256 && y == 1 && z == 1 && t == 128,
        ;
    }
    assert forall|i: int| 3 <= i < 6 implies #[trigger] c.args[i] == CallArg::I32(n as i32) by {
        assert(i == 3 || i == 4 || i == 5);
    }
}

} // verus!
