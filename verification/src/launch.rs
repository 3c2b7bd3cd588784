//! Launch plans: which kernel runs over which buffers, with what geometry.
//!
//! The engine works out every device step as plain data and hands the list to the
//! driver side, which only performs it. Buffers are named, never held.

use crate::gptq::Role;
use crate::kernel::Kernel;
use crate::quant::div_up;
use vstd::prelude::*;

verus! {

/// Part of a stored matrix.
#[derive(Debug, Clone, Copy, PartialEq, Eq, Hash, Structural)]
pub enum Plane {
    /// The weights themselves, packed or not.
    Values,
    /// One scale per column, or per group and column.
    Scales,
    /// Input channel stored at each position.
    Perm,
    /// Four-bit scale and minimum per sub-block and column.
    Sub,
    /// Half-precision scale and minimum per super-block and column.
    Dm,
}

/// A weight matrix of the model.
#[derive(Debug, Clone, Copy, PartialEq, Eq, Hash, Structural)]
pub enum Tensor {
    /// Token embeddings, transposed to `[embd, vocab]`.
    Wte,
    /// Untied head, transposed to `[embd, vocab]`.
    LmHead,
    /// A linear of a layer.
    Linear(usize, Role),
    /// The matrix of a kernel benchmark.
    Bench,
}

/// A vector of a layer.
#[derive(Debug, Clone, Copy, PartialEq, Eq, Hash, Structural)]
pub enum VecName {
    Ln1G,
    Ln1B,
    QkvB,
    ProjB,
    Ln2G,
    Ln2B,
    FcB,
    Fc2B,
}

/// Part of a layer's key-value cache.
#[derive(Debug, Clone, Copy, PartialEq, Eq, Hash, Structural)]
pub enum KvPart {
    K,
    V,
    /// Scales of the eight-bit keys.
    Ks,
    /// Scales of the eight-bit values.
    Vs,
    /// Offsets of the eight-bit keys.
    Kb,
    /// Offsets of the eight-bit values.
    Vb,
}

/// A buffer on the device.
#[derive(Debug, Clone, Copy, PartialEq, Eq, Hash, Structural)]
pub enum Buf {
    X,
    Xb,
    Qkv,
    Attn,
    H,
    H2,
    ZeroBias,
    Logits,
    BatchTok,
    BatchX,
    BatchXb,
    BatchQkv,
    BatchAttn,
    BatchH,
    BatchH2,
    BatchLogits,
    BatchArgmax,
    ActQ,
    ActScale,
    ActSum,
    GraphTok,
    GraphPos,
    Wpe,
    LnfG,
    LnfB,
    Matrix(Tensor, Plane),
    Vector(usize, VecName),
    Kv(usize, KvPart),
    BenchBias,
    BenchX,
    BenchY,
    BenchA,
    BenchC,
}

/// A weight matrix as it is stored on the device.
#[derive(Debug, Clone, Copy, PartialEq, Eq, Structural)]
pub enum Weights {
    F32(Buf),
    F16(Buf),
    Int8 { q: Buf, scales: Buf },
    /// `perm` is there only where the stored channel order is not the plain one.
    Int4 { q: Buf, scales: Buf, perm: Option<Buf> },
    Int4K { q: Buf, sub: Buf, dm: Buf },
    Int3 { q: Buf, sub: Buf, dm: Buf },
    Int2 { q: Buf, sub: Buf, dm: Buf },
}

/// A kernel argument.
#[derive(Debug, Clone, Copy, PartialEq, Eq, Structural)]
pub enum Arg {
    Buf(Buf),
    I32(i32),
    /// A single-precision number, by its bit pattern.
    F32(u32),
    /// A null pointer.
    Null,
}

/// One kernel launch.
#[derive(Debug)]
pub struct Launch {
    pub kernel: Kernel,
    pub grid: (u32, u32, u32),
    pub block: (u32, u32, u32),
    pub shared: u32,
    pub args: Vec<Arg>,
}

/// One step of a plan.
#[derive(Debug)]
pub enum Step {
    Launch(Launch),
    /// Copies `len` elements between two device buffers.
    Copy { src: Buf, src_at: usize, dst: Buf, dst_at: usize, len: usize },
    /// Writes host values to the front of a device buffer.
    Upload { dst: Buf, values: Vec<i32> },
}

/// What a `Launch` says.
#[verifier::ext_equal]
pub struct LaunchView {
    pub kernel: Kernel,
    pub grid: (u32, u32, u32),
    pub block: (u32, u32, u32),
    pub shared: u32,
    pub args: Seq<Arg>,
}

/// What a `Step` says.
#[verifier::ext_equal]
pub enum StepView {
    Launch(LaunchView),
    Copy { src: Buf, src_at: int, dst: Buf, dst_at: int, len: int },
    Upload { dst: Buf, values: Seq<i32> },
}

impl View for Launch {
    type V = LaunchView;

    open spec fn view(&self) -> LaunchView {
        LaunchView {
            kernel: self.kernel,
            grid: self.grid,
            block: self.block,
            shared: self.shared,
            args: self.args@,
        }
    }
}

impl View for Step {
    type V = StepView;

    open spec fn view(&self) -> StepView {
        match self {
            Step::Launch(l) => StepView::Launch(l@),
            Step::Copy { src, src_at, dst, dst_at, len } => StepView::Copy {
                src: *src,
                src_at: *src_at as int,
                dst: *dst,
                dst_at: *dst_at as int,
                len: *len as int,
            },
            Step::Upload { dst, values } => StepView::Upload { dst: *dst, values: values@ },
        }
    }
}

/// What a plan says, step by step.
pub open spec fn plan(steps: Seq<Step>) -> Seq<StepView> {
    steps.map_values(|s: Step| s@)
}

/// Appends a step.
pub(crate) fn push_step(out: &mut Vec<Step>, s: Step)
    ensures
        plan(final(out)@) == plan(old(out)@).push(s@),
{
    out.push(s);
    assert(plan(out@) =~= plan(old(out)@).push(s@));
}

/// Appends a launch.
pub(crate) fn push_launch(
    out: &mut Vec<Step>,
    kernel: Kernel,
    grid: (u32, u32, u32),
    block: (u32, u32, u32),
    shared: u32,
    args: Vec<Arg>,
)
    ensures
        plan(final(out)@) == plan(old(out)@).push(launch(kernel, grid, block, shared, args@)),
{
    push_step(out, Step::Launch(Launch { kernel, grid, block, shared, args }));
}

/// A launch step.
pub open spec fn launch(
    kernel: Kernel,
    grid: (u32, u32, u32),
    block: (u32, u32, u32),
    shared: u32,
    args: Seq<Arg>,
) -> StepView {
    StepView::Launch(LaunchView { kernel, grid, block, shared, args })
}

/// Blocks of `size` that cover `n` elements.
pub fn blocks(n: usize, size: usize) -> (b: usize)
    requires
        size > 0,
    ensures
        b == div_up(n as int, size as int),
{
    let ghost (m, s) = (n as int, size as int);
    proof {
        vstd::arithmetic::div_mod::lemma_fundamental_div_mod(m, s);
        let (q, r) = (m / s, m % s);
        if r == 0 {
            assert(m + s - 1 == s * q + (s - 1)) by (nonlinear_arith)
                requires
                    m == s * q + r,
                    r == 0,
            ;
            vstd::arithmetic::div_mod::lemma_fundamental_div_mod_converse(m + s - 1, s, q, s - 1);
        } else {
            assert(m + s - 1 == s * (q + 1) + (r - 1)) by (nonlinear_arith)
                requires
                    m == s * q + r,
            ;
            vstd::arithmetic::div_mod::lemma_fundamental_div_mod_converse(
                m + s - 1,
                s,
                q + 1,
                r - 1,
            );
            assert(q < m) by (nonlinear_arith)
                requires
                    m == s * q + r,
                    0 < r,
                    s >= 1,
                    q >= 0,
            ;
        }
    }
    if n % size == 0 {
        n / size
    } else {
        n / size + 1
    }
}

/// Enough blocks for every element, and none without work.
pub proof fn blocks_cover_exactly(n: int, size: int)
    requires
        n >= 0,
        size > 0,
    ensures
        div_up(n, size) * size >= n,
        n > 0 ==> (div_up(n, size) - 1) * size < n,
        n == 0 ==> div_up(n, size) == 0,
{
    let b = div_up(n, size);
    vstd::arithmetic::div_mod::lemma_fundamental_div_mod(n + size - 1, size);
    assert(b * size >= n && (b - 1) * size < n) by (nonlinear_arith)
        requires
            n + size - 1 == size * b + (n + size - 1) % size,
            0 <= (n + size - 1) % size < size,
    ;
    if n == 0 {
        vstd::arithmetic::div_mod::lemma_small_mod((size - 1) as nat, size as nat);
        vstd::arithmetic::div_mod::lemma_fundamental_div_mod_converse(
            size - 1,
            size,
            0,
            size - 1,
        );
    }
}

/// Grid of 256-thread blocks over `n` elements.
pub open spec fn grid1d(n: int) -> (u32, u32, u32) {
    (div_up(n, 256) as u32, 1, 1)
}

/// Grid of 256-thread blocks over `n` elements.
pub fn cfg1d(n: usize) -> (g: (u32, u32, u32))
    ensures
        g == grid1d(n as int),
{
    (blocks(n, 256) as u32, 1, 1)
}

/// The stored parts of a matrix that every kernel takes, in argument order.
pub open spec fn planes(w: Weights) -> Seq<Arg> {
    match w {
        Weights::F32(v) => seq![Arg::Buf(v)],
        Weights::F16(v) => seq![Arg::Buf(v)],
        Weights::Int8 { q, scales } => seq![Arg::Buf(q), Arg::Buf(scales)],
        Weights::Int4 { q, scales, perm } => seq![Arg::Buf(q), Arg::Buf(scales)],
        Weights::Int4K { q, sub, dm } => seq![Arg::Buf(q), Arg::Buf(sub), Arg::Buf(dm)],
        Weights::Int3 { q, sub, dm } => seq![Arg::Buf(q), Arg::Buf(sub), Arg::Buf(dm)],
        Weights::Int2 { q, sub, dm } => seq![Arg::Buf(q), Arg::Buf(sub), Arg::Buf(dm)],
    }
}

/// Appends the stored parts of a matrix.
fn push_planes(args: &mut Vec<Arg>, w: &Weights)
    ensures
        final(args)@ == old(args)@ + planes(*w),
{
    match *w {
        Weights::F32(v) => {
            args.push(Arg::Buf(v));
        },
        Weights::F16(v) => {
            args.push(Arg::Buf(v));
        },
        Weights::Int8 { q, scales } => {
            args.push(Arg::Buf(q));
            args.push(Arg::Buf(scales));
        },
        Weights::Int4 { q, scales, perm } => {
            args.push(Arg::Buf(q));
            args.push(Arg::Buf(scales));
        },
        Weights::Int4K { q, sub, dm } => {
            args.push(Arg::Buf(q));
            args.push(Arg::Buf(sub));
            args.push(Arg::Buf(dm));
        },
        Weights::Int3 { q, sub, dm } => {
            args.push(Arg::Buf(q));
            args.push(Arg::Buf(sub));
            args.push(Arg::Buf(dm));
        },
        Weights::Int2 { q, sub, dm } => {
            args.push(Arg::Buf(q));
            args.push(Arg::Buf(sub));
            args.push(Arg::Buf(dm));
        },
    }
    assert(args@ =~= old(args)@ + planes(*w));
}

/// One-block normalization over `n` elements: with a bias it is a layer norm,
/// without one a root-mean-square norm.
pub open spec fn norm_step(out: Buf, x: Buf, g: Buf, b: Option<Buf>, n: int, eps: u32) -> StepView {
    match b {
        Some(b) => launch(
            Kernel::Layernorm,
            (1, 1, 1),
            (256, 1, 1),
            0,
            seq![
                Arg::Buf(out),
                Arg::Buf(x),
                Arg::Buf(g),
                Arg::Buf(b),
                Arg::I32(n as i32),
                Arg::F32(eps),
            ],
        ),
        None => launch(
            Kernel::Rmsnorm,
            (1, 1, 1),
            (256, 1, 1),
            0,
            seq![Arg::Buf(out), Arg::Buf(x), Arg::Buf(g), Arg::I32(n as i32), Arg::F32(eps)],
        ),
    }
}

/// Plans a one-block normalization.
pub fn norm(plan_out: &mut Vec<Step>, out: Buf, x: Buf, g: Buf, b: Option<Buf>, n: usize, eps: u32)
    ensures
        plan(final(plan_out)@) == plan(old(plan_out)@).push(norm_step(out, x, g, b, n as int, eps)),
{
    let n_i: i32 = n as i32;
    match b {
        Some(b) => {
            let args: Vec<Arg> = vec![
                Arg::Buf(out),
                Arg::Buf(x),
                Arg::Buf(g),
                Arg::Buf(b),
                Arg::I32(n_i),
                Arg::F32(eps),
            ];
            push_launch(plan_out, Kernel::Layernorm, (1, 1, 1), (256, 1, 1), 0, args);
            assert(plan(plan_out@).last() =~= norm_step(out, x, g, Some(b), n as int, eps));
        },
        None => {
            let args: Vec<Arg> = vec![
                Arg::Buf(out),
                Arg::Buf(x),
                Arg::Buf(g),
                Arg::I32(n_i),
                Arg::F32(eps),
            ];
            push_launch(plan_out, Kernel::Rmsnorm, (1, 1, 1), (256, 1, 1), 0, args);
            assert(plan(plan_out@).last() =~= norm_step(out, x, g, None, n as int, eps));
        },
    }
}

/// Normalization of `rows` rows of `n` elements, one block per row.
pub open spec fn norm_batch_step(
    out: Buf,
    x: Buf,
    g: Buf,
    b: Option<Buf>,
    rows: int,
    n: int,
    eps: u32,
) -> StepView {
    match b {
        Some(b) => launch(
            Kernel::LayernormBatch,
            (rows as u32, 1, 1),
            (256, 1, 1),
            0,
            seq![
                Arg::Buf(out),
                Arg::Buf(x),
                Arg::Buf(g),
                Arg::Buf(b),
                Arg::I32(rows as i32),
                Arg::I32(n as i32),
                Arg::F32(eps),
            ],
        ),
        None => launch(
            Kernel::RmsnormBatch,
            (rows as u32, 1, 1),
            (256, 1, 1),
            0,
            seq![
                Arg::Buf(out),
                Arg::Buf(x),
                Arg::Buf(g),
                Arg::I32(rows as i32),
                Arg::I32(n as i32),
                Arg::F32(eps),
            ],
        ),
    }
}

/// Plans a normalization of several rows.
pub fn norm_batch(
    plan_out: &mut Vec<Step>,
    out: Buf,
    x: Buf,
    g: Buf,
    b: Option<Buf>,
    rows: usize,
    n: usize,
    eps: u32,
)
    ensures
        plan(final(plan_out)@) == plan(old(plan_out)@).push(
            norm_batch_step(out, x, g, b, rows as int, n as int, eps),
        ),
{
    let rows_i: i32 = rows as i32;
    let n_i: i32 = n as i32;
    let grid: (u32, u32, u32) = (rows as u32, 1, 1);
    match b {
        Some(b) => {
            let args: Vec<Arg> = vec![
                Arg::Buf(out),
                Arg::Buf(x),
                Arg::Buf(g),
                Arg::Buf(b),
                Arg::I32(rows_i),
                Arg::I32(n_i),
                Arg::F32(eps),
            ];
            push_launch(plan_out, Kernel::LayernormBatch, grid, (256, 1, 1), 0, args);
            assert(plan(plan_out@).last() =~= norm_batch_step(
                out,
                x,
                g,
                Some(b),
                rows as int,
                n as int,
                eps,
            ));
        },
        None => {
            let args: Vec<Arg> = vec![
                Arg::Buf(out),
                Arg::Buf(x),
                Arg::Buf(g),
                Arg::I32(rows_i),
                Arg::I32(n_i),
                Arg::F32(eps),
            ];
            push_launch(plan_out, Kernel::RmsnormBatch, grid, (256, 1, 1), 0, args);
            assert(plan(plan_out@).last() =~= norm_batch_step(
                out,
                x,
                g,
                None,
                rows as int,
                n as int,
                eps,
            ));
        },
    }
}

/// Adds `y` to `x`, element by element.
pub open spec fn add_step(x: Buf, y: Buf, n: int) -> StepView {
    launch(
        Kernel::AddInplace,
        grid1d(n),
        (256, 1, 1),
        0,
        seq![Arg::Buf(x), Arg::Buf(y), Arg::I32(n as i32)],
    )
}

/// Plans an element-wise addition.
pub fn add_inplace(out: &mut Vec<Step>, x: Buf, y: Buf, n: usize)
    ensures
        plan(final(out)@) == plan(old(out)@).push(add_step(x, y, n as int)),
{
    let args: Vec<Arg> = vec![Arg::Buf(x), Arg::Buf(y), Arg::I32(n as i32)];
    push_launch(out, Kernel::AddInplace, cfg1d(n), (256, 1, 1), 0, args);
    assert(plan(out@).last() =~= add_step(x, y, n as int));
}

/// The kernel that multiplies one row by a matrix.
pub open spec fn gemv_kernel(w: Weights) -> Kernel {
    match w {
        Weights::F32(..) => Kernel::Gemv,
        Weights::F16(..) => Kernel::GemvHalf,
        Weights::Int8 { .. } => Kernel::GemvInt8,
        Weights::Int4 { .. } => Kernel::GemvInt4,
        Weights::Int4K { .. } => Kernel::GemvInt4k,
        Weights::Int3 { .. } => Kernel::GemvInt3,
        Weights::Int2 { .. } => Kernel::GemvInt2,
    }
}

/// Bytes of shared memory that the kernel stages the row in: the row itself, or its
/// packed words with per-group scales, group sums and correction sums.
pub open spec fn gemv_shared(w: Weights, n_in: int, ag: int) -> int {
    match w {
        Weights::F32(..) => n_in * 4,
        Weights::F16(..) => n_in * 4,
        Weights::Int8 { .. } => n_in + n_in / ag * 4,
        Weights::Int4 { .. } => 3 * n_in + n_in / 8,
        _ => 3 * n_in + n_in / 4,
    }
}

/// Multiplication of one row by a matrix: `y = x @ w + b`, or `y += x @ w + b`.
/// The four-bit kernel takes the channel order as one more argument.
pub open spec fn gemv_step(
    ag: int,
    y: Buf,
    x: Buf,
    w: Weights,
    b: Buf,
    n_in: int,
    n_out: int,
    accum: bool,
) -> StepView {
    let perm = match w {
        Weights::Int4 { q, scales, perm } => match perm {
            Some(p) => seq![Arg::Buf(p)],
            None => seq![Arg::Null],
        },
        _ => Seq::empty(),
    };
    launch(
        gemv_kernel(w),
        grid1d(n_out),
        (256, 1, 1),
        gemv_shared(w, n_in, ag) as u32,
        seq![Arg::Buf(y), Arg::Buf(x)] + planes(w) + seq![
            Arg::Buf(b),
            Arg::I32(n_in as i32),
            Arg::I32(n_out as i32),
            Arg::I32(if accum {
                1
            } else {
                0
            }),
        ] + perm,
    )
}

/// Plans a multiplication of one row by a matrix.
pub fn gemv(
    out: &mut Vec<Step>,
    ag: usize,
    y: Buf,
    x: Buf,
    w: &Weights,
    b: Buf,
    n_in: usize,
    n_out: usize,
    accum: bool,
)
    requires
        ag >= 4,
        4 * n_in <= usize::MAX,
    ensures
        plan(final(out)@) == plan(old(out)@).push(
            gemv_step(ag as int, y, x, *w, b, n_in as int, n_out as int, accum),
        ),
{
    proof {
        let (n, a) = (n_in as int, ag as int);
        vstd::arithmetic::div_mod::lemma_fundamental_div_mod(n, a);
        let d = n / a;
        assert(4 * d <= n) by (nonlinear_arith)
            requires
                n == a * d + n % a,
                n % a >= 0,
                a >= 4,
                d >= 0,
        ;
    }
    let shared: usize = match *w {
        Weights::F32(v) => n_in * 4,
        Weights::F16(v) => n_in * 4,
        Weights::Int8 { q, scales } => n_in + n_in / ag * 4,
        Weights::Int4 { q, scales, perm } => 3 * n_in + n_in / 8,
        _ => 3 * n_in + n_in / 4,
    };
    let kernel: Kernel = match *w {
        Weights::F32(v) => Kernel::Gemv,
        Weights::F16(v) => Kernel::GemvHalf,
        Weights::Int8 { q, scales } => Kernel::GemvInt8,
        Weights::Int4 { q, scales, perm } => Kernel::GemvInt4,
        Weights::Int4K { q, sub, dm } => Kernel::GemvInt4k,
        Weights::Int3 { q, sub, dm } => Kernel::GemvInt3,
        Weights::Int2 { q, sub, dm } => Kernel::GemvInt2,
    };
    let acc: i32 = if accum {
        1
    } else {
        0
    };
    let mut args: Vec<Arg> = vec![Arg::Buf(y), Arg::Buf(x)];
    push_planes(&mut args, w);
    args.push(Arg::Buf(b));
    args.push(Arg::I32(n_in as i32));
    args.push(Arg::I32(n_out as i32));
    args.push(Arg::I32(acc));
    match *w {
        Weights::Int4 { q, scales, perm } => {
            match perm {
                Some(p) => {
                    args.push(Arg::Buf(p));
                },
                None => {
                    args.push(Arg::Null);
                },
            }
        },
        _ => {},
    }
    push_launch(out, kernel, cfg1d(n_out), (256, 1, 1), shared as u32, args);
    assert(plan(out@).last() =~= gemv_step(
        ag as int,
        y,
        x,
        *w,
        b,
        n_in as int,
        n_out as int,
        accum,
    ));
}

/// How many rows a multiplication has, in the classes that have kernels of their
/// own.
#[derive(Debug, Clone, Copy, PartialEq, Eq, Structural)]
pub enum Tier {
    /// Up to 8 rows: one pass over the columns.
    Rows,
    /// Up to 16 rows: 16-row tiles.
    Skinny,
    /// Up to 64 rows: 64-row tiles.
    Tile,
    /// More: 128-row tiles.
    Wide,
}

/// The class of a multiplication of `m` rows.
pub open spec fn tier_of(m: int) -> Tier {
    if m <= 8 {
        Tier::Rows
    } else if m <= 16 {
        Tier::Skinny
    } else if m <= 64 {
        Tier::Tile
    } else {
        Tier::Wide
    }
}

/// The kernel that multiplies several rows by a matrix. The low-bit layouts have no
/// wide tiles.
pub open spec fn gemm_kernel(w: Weights, t: Tier) -> Kernel {
    match w {
        Weights::F32(..) => match t {
            Tier::Rows => Kernel::GemmRowsF32,
            Tier::Skinny => Kernel::GemmF32Skinny,
            Tier::Tile => Kernel::GemmF32,
            Tier::Wide => Kernel::GemmF32Wide,
        },
        Weights::F16(..) => match t {
            Tier::Rows => Kernel::GemmRowsHalf,
            Tier::Skinny => Kernel::GemmHalfSkinny,
            Tier::Tile => Kernel::GemmHalf,
            Tier::Wide => Kernel::GemmHalfWide,
        },
        Weights::Int8 { .. } => match t {
            Tier::Rows => Kernel::GemmRowsInt8,
            Tier::Skinny => Kernel::GemmInt8Skinny,
            Tier::Tile => Kernel::GemmInt8,
            Tier::Wide => Kernel::GemmInt8Wide,
        },
        Weights::Int4 { .. } => match t {
            Tier::Rows => Kernel::GemmRowsInt4,
            Tier::Skinny => Kernel::GemmInt4Skinny,
            Tier::Tile => Kernel::GemmInt4,
            Tier::Wide => Kernel::GemmInt4Wide,
        },
        Weights::Int4K { .. } => match t {
            Tier::Rows => Kernel::GemmRowsInt4k,
            Tier::Skinny => Kernel::GemmInt4kSkinny,
            Tier::Tile => Kernel::GemmInt4k,
            Tier::Wide => Kernel::GemmInt4kWide,
        },
        Weights::Int3 { .. } => match t {
            Tier::Rows => Kernel::GemmRowsInt3,
            Tier::Skinny => Kernel::GemmInt3Skinny,
            _ => Kernel::GemmInt3,
        },
        Weights::Int2 { .. } => match t {
            Tier::Rows => Kernel::GemmRowsInt2,
            Tier::Skinny => Kernel::GemmInt2Skinny,
            _ => Kernel::GemmInt2,
        },
    }
}

/// Rows and columns of a tile; `None` for the one-pass kernels.
pub open spec fn gemm_tile(w: Weights, t: Tier) -> Option<(int, int)> {
    match t {
        Tier::Rows => None,
        Tier::Skinny => Some((16, 64)),
        Tier::Tile => Some((64, 64)),
        Tier::Wide => match w {
            Weights::F32(..) => Some((128, 128)),
            Weights::F16(..) => Some((128, 128)),
            Weights::Int8 { .. } => Some((128, 128)),
            Weights::Int4 { .. } => Some((128, 64)),
            Weights::Int4K { .. } => Some((128, 64)),
            _ => Some((64, 64)),
        },
    }
}

/// Columns that a one-pass kernel walks: four at a time where there are many.
pub open spec fn rows_columns(n: int) -> int {
    if n % 4 == 0 && n >= 4096 {
        n / 4
    } else {
        n
    }
}

/// Grid of a multiplication of `m` rows by a matrix of `n` columns.
pub open spec fn gemm_grid(w: Weights, m: int, n: int) -> (u32, u32, u32) {
    match gemm_tile(w, tier_of(m)) {
        None => grid1d(rows_columns(n)),
        Some((rows, cols)) => (div_up(n, cols) as u32, div_up(m, rows) as u32, 1),
    }
}

/// Threads per block: the wide tiles of full height use flat blocks.
pub open spec fn gemm_block(w: Weights, t: Tier) -> (u32, u32, u32) {
    match gemm_tile(w, t) {
        None => (256, 1, 1),
        Some((rows, cols)) => if rows == 128 {
            (256, 1, 1)
        } else {
            (16, 16, 1)
        },
    }
}

/// Stored as integers, so that the rows are quantized on the way in.
pub open spec fn quantized(w: Weights) -> bool {
    !(w is F32) && !(w is F16)
}

/// Row widths that the kernels accept.
pub open spec fn gemm_width_ok(w: Weights, k: int) -> bool {
    k % 16 == 0 && (quantized(w) ==> k % 32 == 0)
}

/// Quantization of `m` rows of `k` elements into the activation scratch.
pub open spec fn quantize_act_step(ag: int, a: Buf, m: int, k: int) -> StepView {
    let groups = (m * k / ag) as i32;
    launch(
        Kernel::QuantizeAct,
        grid1d((groups as usize) as int),
        (256, 1, 1),
        0,
        seq![
            Arg::Buf(Buf::ActQ),
            Arg::Buf(Buf::ActScale),
            Arg::Buf(Buf::ActSum),
            Arg::Buf(a),
            Arg::I32(groups),
        ],
    )
}

/// Multiplication of `m` rows of `k` elements by a matrix of `n` columns:
/// `c = a @ b + bias`.
pub open spec fn gemm_steps(
    ag: int,
    c: Buf,
    a: Buf,
    b: Weights,
    bias: Buf,
    m: int,
    n: int,
    k: int,
) -> Seq<StepView> {
    let t = tier_of(m);
    let rows = if quantized(b) {
        seq![Arg::Buf(Buf::ActQ), Arg::Buf(Buf::ActScale)]
    } else {
        seq![Arg::Buf(a)]
    };
    let main = launch(
        gemm_kernel(b, t),
        gemm_grid(b, m, n),
        gemm_block(b, t),
        0,
        seq![Arg::Buf(c)] + rows + planes(b) + seq![
            Arg::Buf(bias),
            Arg::I32(m as i32),
            Arg::I32(n as i32),
            Arg::I32(k as i32),
        ],
    );
    if quantized(b) {
        seq![quantize_act_step(ag, a, m, k), main]
    } else {
        seq![main]
    }
}

/// The class of a multiplication of `m` rows.
fn tier(m: usize) -> (t: Tier)
    ensures
        t == tier_of(m as int),
{
    if m <= 8 {
        Tier::Rows
    } else if m <= 16 {
        Tier::Skinny
    } else if m <= 64 {
        Tier::Tile
    } else {
        Tier::Wide
    }
}

/// The kernel that multiplies several rows by a matrix.
fn pick_gemm(w: &Weights, t: Tier) -> (k: Kernel)
    ensures
        k == gemm_kernel(*w, t),
{
    match *w {
        Weights::F32(v) => match t {
            Tier::Rows => Kernel::GemmRowsF32,
            Tier::Skinny => Kernel::GemmF32Skinny,
            Tier::Tile => Kernel::GemmF32,
            Tier::Wide => Kernel::GemmF32Wide,
        },
        Weights::F16(v) => match t {
            Tier::Rows => Kernel::GemmRowsHalf,
            Tier::Skinny => Kernel::GemmHalfSkinny,
            Tier::Tile => Kernel::GemmHalf,
            Tier::Wide => Kernel::GemmHalfWide,
        },
        Weights::Int8 { q, scales } => match t {
            Tier::Rows => Kernel::GemmRowsInt8,
            Tier::Skinny => Kernel::GemmInt8Skinny,
            Tier::Tile => Kernel::GemmInt8,
            Tier::Wide => Kernel::GemmInt8Wide,
        },
        Weights::Int4 { q, scales, perm } => match t {
            Tier::Rows => Kernel::GemmRowsInt4,
            Tier::Skinny => Kernel::GemmInt4Skinny,
            Tier::Tile => Kernel::GemmInt4,
            Tier::Wide => Kernel::GemmInt4Wide,
        },
        Weights::Int4K { q, sub, dm } => match t {
            Tier::Rows => Kernel::GemmRowsInt4k,
            Tier::Skinny => Kernel::GemmInt4kSkinny,
            Tier::Tile => Kernel::GemmInt4k,
            Tier::Wide => Kernel::GemmInt4kWide,
        },
        Weights::Int3 { q, sub, dm } => match t {
            Tier::Rows => Kernel::GemmRowsInt3,
            Tier::Skinny => Kernel::GemmInt3Skinny,
            _ => Kernel::GemmInt3,
        },
        Weights::Int2 { q, sub, dm } => match t {
            Tier::Rows => Kernel::GemmRowsInt2,
            Tier::Skinny => Kernel::GemmInt2Skinny,
            _ => Kernel::GemmInt2,
        },
    }
}

/// Grid and block of a multiplication.
fn gemm_geometry(w: &Weights, m: usize, n: usize) -> (g: ((u32, u32, u32), (u32, u32, u32)))
    ensures
        g.0 == gemm_grid(*w, m as int, n as int),
        g.1 == gemm_block(*w, tier_of(m as int)),
{
    match tier(m) {
        Tier::Rows => {
            let cols: usize = if n % 4 == 0 && n >= 4096 {
                n / 4
            } else {
                n
            };
            (cfg1d(cols), (256, 1, 1))
        },
        Tier::Skinny => ((blocks(n, 64) as u32, blocks(m, 16) as u32, 1), (16, 16, 1)),
        Tier::Tile => ((blocks(n, 64) as u32, blocks(m, 64) as u32, 1), (16, 16, 1)),
        Tier::Wide => match *w {
            Weights::F32(v) => (
                (blocks(n, 128) as u32, blocks(m, 128) as u32, 1),
                (256, 1, 1),
            ),
            Weights::F16(v) => (
                (blocks(n, 128) as u32, blocks(m, 128) as u32, 1),
                (256, 1, 1),
            ),
            Weights::Int8 { q, scales } => (
                (blocks(n, 128) as u32, blocks(m, 128) as u32, 1),
                (256, 1, 1),
            ),
            Weights::Int4 { q, scales, perm } => (
                (blocks(n, 64) as u32, blocks(m, 128) as u32, 1),
                (256, 1, 1),
            ),
            Weights::Int4K { q, sub, dm } => (
                (blocks(n, 64) as u32, blocks(m, 128) as u32, 1),
                (256, 1, 1),
            ),
            _ => ((blocks(n, 64) as u32, blocks(m, 64) as u32, 1), (16, 16, 1)),
        },
    }
}

/// Plans a multiplication of several rows by a matrix.
pub fn gemm(
    out: &mut Vec<Step>,
    ag: usize,
    c: Buf,
    a: Buf,
    b: &Weights,
    bias: Buf,
    m: usize,
    n: usize,
    k: usize,
)
    requires
        ag >= 4,
        gemm_width_ok(*b, k as int),
        m * k <= usize::MAX,
    ensures
        plan(final(out)@) == plan(old(out)@) + gemm_steps(
            ag as int,
            c,
            a,
            *b,
            bias,
            m as int,
            n as int,
            k as int,
        ),
{
    let ghost before = plan(out@);
    let ghost want = gemm_steps(ag as int, c, a, *b, bias, m as int, n as int, k as int);
    let ints: bool = match *b {
        Weights::F32(v) => false,
        Weights::F16(v) => false,
        _ => true,
    };
    assert(0 <= m * k) by (nonlinear_arith);
    let mut args: Vec<Arg> = vec![Arg::Buf(c)];
    if ints {
        let groups: i32 = (m * k / ag) as i32;
        let qargs: Vec<Arg> = vec![
            Arg::Buf(Buf::ActQ),
            Arg::Buf(Buf::ActScale),
            Arg::Buf(Buf::ActSum),
            Arg::Buf(a),
            Arg::I32(groups),
        ];
        push_launch(out, Kernel::QuantizeAct, cfg1d(groups as usize), (256, 1, 1), 0, qargs);
        assert(plan(out@).last() =~= quantize_act_step(ag as int, a, m as int, k as int));
        args.push(Arg::Buf(Buf::ActQ));
        args.push(Arg::Buf(Buf::ActScale));
    } else {
        args.push(Arg::Buf(a));
    }
    push_planes(&mut args, b);
    args.push(Arg::Buf(bias));
    args.push(Arg::I32(m as i32));
    args.push(Arg::I32(n as i32));
    args.push(Arg::I32(k as i32));
    let (grid, block) = gemm_geometry(b, m, n);
    push_launch(out, pick_gemm(b, tier(m)), grid, block, 0, args);
    proof {
        assert(plan(out@).last() =~= want.last());
        assert(plan(out@) =~= before + want);
    }
}

/// The tiles of a multiplication cover every row and every column, and none lies
/// wholly outside.
pub proof fn tiles_cover_the_product(w: Weights, m: int, n: int)
    requires
        m > 8,
        n > 0,
    ensures
        gemm_tile(w, tier_of(m)) matches Some((rows, cols)) && {
            &&& div_up(m, rows) * rows >= m
            &&& (div_up(m, rows) - 1) * rows < m
            &&& div_up(n, cols) * cols >= n
            &&& (div_up(n, cols) - 1) * cols < n
        },
{
    match gemm_tile(w, tier_of(m)) {
        Some((rows, cols)) => {
            blocks_cover_exactly(m, rows);
            blocks_cover_exactly(n, cols);
        },
        None => {},
    }
}

/// Where the token and its position come from.
#[derive(Debug, Clone, Copy, PartialEq, Eq, Structural)]
pub enum EmbedForm {
    /// From the host, as arguments.
    Host,
    /// From device memory, so that a captured graph can be replayed.
    Dyn,
    /// A run of tokens from device memory.
    Batch,
}

/// The kernel that looks up embeddings.
pub open spec fn embed_kernel(w: Weights, f: EmbedForm) -> Kernel {
    match w {
        Weights::F32(..) => match f {
            EmbedForm::Host => Kernel::Embed,
            EmbedForm::Dyn => Kernel::EmbedDyn,
            EmbedForm::Batch => Kernel::EmbedBatch,
        },
        Weights::F16(..) => match f {
            EmbedForm::Host => Kernel::EmbedHalf,
            EmbedForm::Dyn => Kernel::EmbedHalfDyn,
            EmbedForm::Batch => Kernel::EmbedHalfBatch,
        },
        Weights::Int8 { .. } => match f {
            EmbedForm::Host => Kernel::EmbedInt8,
            EmbedForm::Dyn => Kernel::EmbedInt8Dyn,
            EmbedForm::Batch => Kernel::EmbedInt8Batch,
        },
        Weights::Int4 { .. } => match f {
            EmbedForm::Host => Kernel::EmbedInt4,
            EmbedForm::Dyn => Kernel::EmbedInt4Dyn,
            EmbedForm::Batch => Kernel::EmbedInt4Batch,
        },
        Weights::Int4K { .. } => match f {
            EmbedForm::Host => Kernel::EmbedInt4k,
            EmbedForm::Dyn => Kernel::EmbedInt4kDyn,
            EmbedForm::Batch => Kernel::EmbedInt4kBatch,
        },
        Weights::Int3 { .. } => match f {
            EmbedForm::Host => Kernel::EmbedInt3,
            EmbedForm::Dyn => Kernel::EmbedInt3Dyn,
            EmbedForm::Batch => Kernel::EmbedInt3Batch,
        },
        Weights::Int2 { .. } => match f {
            EmbedForm::Host => Kernel::EmbedInt2,
            EmbedForm::Dyn => Kernel::EmbedInt2Dyn,
            EmbedForm::Batch => Kernel::EmbedInt2Batch,
        },
    }
}

/// The kernel that looks up embeddings.
fn pick_embed(w: &Weights, f: EmbedForm) -> (k: Kernel)
    ensures
        k == embed_kernel(*w, f),
{
    match *w {
        Weights::F32(v) => match f {
            EmbedForm::Host => Kernel::Embed,
            EmbedForm::Dyn => Kernel::EmbedDyn,
            EmbedForm::Batch => Kernel::EmbedBatch,
        },
        Weights::F16(v) => match f {
            EmbedForm::Host => Kernel::EmbedHalf,
            EmbedForm::Dyn => Kernel::EmbedHalfDyn,
            EmbedForm::Batch => Kernel::EmbedHalfBatch,
        },
        Weights::Int8 { q, scales } => match f {
            EmbedForm::Host => Kernel::EmbedInt8,
            EmbedForm::Dyn => Kernel::EmbedInt8Dyn,
            EmbedForm::Batch => Kernel::EmbedInt8Batch,
        },
        Weights::Int4 { q, scales, perm } => match f {
            EmbedForm::Host => Kernel::EmbedInt4,
            EmbedForm::Dyn => Kernel::EmbedInt4Dyn,
            EmbedForm::Batch => Kernel::EmbedInt4Batch,
        },
        Weights::Int4K { q, sub, dm } => match f {
            EmbedForm::Host => Kernel::EmbedInt4k,
            EmbedForm::Dyn => Kernel::EmbedInt4kDyn,
            EmbedForm::Batch => Kernel::EmbedInt4kBatch,
        },
        Weights::Int3 { q, sub, dm } => match f {
            EmbedForm::Host => Kernel::EmbedInt3,
            EmbedForm::Dyn => Kernel::EmbedInt3Dyn,
            EmbedForm::Batch => Kernel::EmbedInt3Batch,
        },
        Weights::Int2 { q, sub, dm } => match f {
            EmbedForm::Host => Kernel::EmbedInt2,
            EmbedForm::Dyn => Kernel::EmbedInt2Dyn,
            EmbedForm::Batch => Kernel::EmbedInt2Batch,
        },
    }
}

/// Embedding lookup into `dst` over `n` elements, with the arguments that say which
/// tokens and positions.
pub open spec fn embed_step(
    w: Weights,
    f: EmbedForm,
    dst: Buf,
    n: int,
    which: Seq<Arg>,
    n_embd: usize,
    n_vocab: usize,
) -> StepView {
    launch(
        embed_kernel(w, f),
        grid1d(n),
        (256, 1, 1),
        0,
        seq![Arg::Buf(dst)] + planes(w) + seq![Arg::Buf(Buf::Wpe)] + which + seq![
            Arg::I32(n_embd as i32),
            Arg::I32(n_vocab as i32),
        ],
    )
}

/// Plans an embedding lookup.
pub fn embed(
    out: &mut Vec<Step>,
    w: &Weights,
    f: EmbedForm,
    dst: Buf,
    n: usize,
    which: &[Arg],
    n_embd: usize,
    n_vocab: usize,
)
    ensures
        plan(final(out)@) == plan(old(out)@).push(
            embed_step(*w, f, dst, n as int, which@, n_embd, n_vocab),
        ),
{
    let mut args: Vec<Arg> = vec![Arg::Buf(dst)];
    push_planes(&mut args, w);
    args.push(Arg::Buf(Buf::Wpe));
    let ghost front = args@;
    let mut i: usize = 0;
    while i < which.len()
        invariant
            i <= which.len(),
            args@ == front + which@.take(i as int),
        decreases which.len() - i,
    {
        args.push(which[i]);
        i = i + 1;
        assert(args@ =~= front + which@.take(i as int));
    }
    assert(which@.take(i as int) =~= which@);
    args.push(Arg::I32(n_embd as i32));
    args.push(Arg::I32(n_vocab as i32));
    push_launch(out, pick_embed(w, f), cfg1d(n), (256, 1, 1), 0, args);
    assert(plan(out@).last() =~= embed_step(*w, f, dst, n as int, which@, n_embd, n_vocab));
}

} // verus!
