//! Kernel benchmarks: every matmul of a model in isolation, and the median of the times
//! that were measured.

use crate::floatbits::{total_rank, total_rank_of};
use crate::launch::{gemm, gemm_steps, gemv, gemv_step, plan, Buf, Step, StepView, Tensor};
use crate::meaning::{gpu, Math};
use crate::model::Config;
use crate::order::{before, covers, descending, is_descending};
use crate::quant::{
    act_group, decode_weight_bytes, group_width, matmul_shapes, shape_view, shapes, streamed_bytes,
    WeightMode,
};
use crate::reference::{form, lemma_gemv_does, lemma_run_one, matrix, product};
use crate::replay::{run, Memory};
use crate::sample::logit_keys;
use crate::setup::{store_as, stored};
use vstd::prelude::*;

verus! {

/// Seed of the row that a decode step multiplies.
pub const ROW_SEED: u64 = 7;

/// Seed of the rows that a prefill step multiplies.
pub const ROWS_SEED: u64 = 9;

/// One matmul to time.
pub struct KbenchCase {
    pub label: &'static str,
    /// Input width.
    pub k: usize,
    /// Output width.
    pub n: usize,
    /// Seed of the weights.
    pub seed: u64,
    /// Weight bytes that one decode step streams.
    pub bytes: usize,
    /// One row.
    pub decode: Vec<Step>,
    /// The rows of a prompt; empty for the head, which prefill runs for one row only.
    pub prefill: Vec<Step>,
}

/// The contents of a [`KbenchCase`].
#[verifier::ext_equal]
pub struct KbenchView {
    pub label: Seq<char>,
    pub k: int,
    pub n: int,
    pub seed: u64,
    pub bytes: int,
    pub decode: Seq<StepView>,
    pub prefill: Seq<StepView>,
}

impl View for KbenchCase {
    type V = KbenchView;

    open spec fn view(&self) -> KbenchView {
        KbenchView {
            label: self.label@,
            k: self.k as int,
            n: self.n as int,
            seed: self.seed,
            bytes: self.bytes as int,
            decode: plan(self.decode@),
            prefill: plan(self.prefill@),
        }
    }
}

/// The benchmark of one shape.
pub open spec fn case_of(
    shape: (Seq<char>, int, int, bool),
    mode: WeightMode,
    ag: int,
    m: int,
) -> KbenchView {
    let (label, k, n, prefilled) = shape;
    let w = stored(Tensor::Bench, mode);
    KbenchView {
        label,
        k,
        n,
        seed: 0x9E37_79B9u64 ^ (n as u64),
        bytes: streamed_bytes(mode, k, n),
        decode: seq![gemv_step(ag, Buf::BenchY, Buf::BenchX, w, Buf::BenchBias, k, n, false)],
        prefill: if prefilled {
            gemm_steps(ag, Buf::BenchC, Buf::BenchA, w, Buf::BenchBias, m, n, k)
        } else {
            seq![]
        },
    }
}

/// The shape can be benchmarked: its width divides into groups and its sizes fit a
/// machine word.
pub open spec fn shape_fits(k: int, n: int, m: int) -> bool {
    &&& k % 32 == 0
    &&& 4 * k <= usize::MAX
    &&& m * k <= usize::MAX
    &&& k * n + 4 * n <= usize::MAX
}

/// Every shape of the model can be benchmarked.
pub open spec fn shapes_fit(c: Config, m: int) -> bool {
    &&& c.qkv_width() <= usize::MAX
    &&& c.q_width() <= usize::MAX
    &&& c.kv_width() <= usize::MAX
    &&& forall|i: int|
        0 <= i < 5 ==> shape_fits((#[trigger] shapes(c)[i]).1, shapes(c)[i].2, m)
}

/// The widest input that prefill runs.
pub open spec fn widest(c: Config) -> int {
    let a = if c.q_width() > c.n_embd {
        c.q_width()
    } else {
        c.n_embd as int
    };
    if c.n_inter > a {
        c.n_inter as int
    } else {
        a
    }
}

/// A benchmark of all matmuls of a model.
pub struct Kbench {
    /// Words of the activation scratch: four values each.
    pub act_words: usize,
    /// Groups of the activation scratch.
    pub act_groups: usize,
    pub cases: Vec<KbenchCase>,
}

/// The contents of a list of cases.
pub open spec fn case_views(v: Seq<KbenchCase>) -> Seq<KbenchView> {
    Seq::new(v.len(), |i: int| v[i]@)
}

fn case(shape: (&'static str, usize, usize, bool), mode: WeightMode, ag: usize, m: usize) -> (c:
    KbenchCase)
    requires
        mode == WeightMode::Int8 || mode == WeightMode::Int4,
        ag >= 4,
        shape_fits(shape.1 as int, shape.2 as int, m as int),
    ensures
        c@ == case_of(shape_view(shape), mode, ag as int, m as int),
{
    let (label, k, n, prefilled) = shape;
    let w = store_as(Tensor::Bench, mode);
    let mut decode: Vec<Step> = Vec::new();
    gemv(&mut decode, ag, Buf::BenchY, Buf::BenchX, &w, Buf::BenchBias, k, n, false);
    let mut prefill: Vec<Step> = Vec::new();
    let ghost none = plan(prefill@);
    if prefilled {
        gemm(&mut prefill, ag, Buf::BenchC, Buf::BenchA, &w, Buf::BenchBias, m, n, k);
    }
    let bytes: usize = decode_weight_bytes(mode, k, n);
    let c = KbenchCase { label, k, n, seed: 0x9E37_79B9u64 ^ (n as u64), bytes, decode, prefill };
    proof {
        assert(none =~= seq![]);
        assert(c@ =~= case_of(shape_view(shape), mode, ag as int, m as int));
    }
    c
}

/// The benchmark of a model in a mode: nothing in modes other than int8 and int4.
pub fn kbench(cfg: &Config, mode: WeightMode, m_prefill: usize) -> (r: Option<Kbench>)
    requires
        shapes_fit(*cfg, m_prefill as int),
    ensures
        r is Some <==> mode == WeightMode::Int8 || mode == WeightMode::Int4,
        match r {
            None => true,
            Some(b) => {
                let ag = group_width(cfg.arch);
                &&& b.act_words == m_prefill * widest(*cfg) / 4
                &&& b.act_groups == m_prefill * widest(*cfg) / ag
                &&& case_views(b.cases@) == Seq::new(
                    5,
                    |i: int| case_of(shapes(*cfg)[i], mode, ag, m_prefill as int),
                )
            },
        },
{
    match mode {
        WeightMode::Int8 => {},
        WeightMode::Int4 => {},
        _ => {
            return None;
        },
    }
    let ag: usize = act_group(cfg.arch);
    let v: Vec<(&'static str, usize, usize, bool)> = matmul_shapes(cfg);
    let ghost views = v@.map_values(|s: (&'static str, usize, usize, bool)| shape_view(s));
    assert(views == shapes(*cfg));
    let mut cases: Vec<KbenchCase> = Vec::new();
    let mut max_k: usize = 0;
    let mut i: usize = 0;
    let ghost m = m_prefill as int;
    while i < v.len()
        invariant
            i <= v.len(),
            v@.len() == 5,
            m == m_prefill,
            views == v@.map_values(|s: (&'static str, usize, usize, bool)| shape_view(s)),
            views == shapes(*cfg),
            shapes_fit(*cfg, m),
            mode == WeightMode::Int8 || mode == WeightMode::Int4,
            ag >= 4,
            cases@.len() == i,
            case_views(cases@) == Seq::new(
                i as nat,
                |j: int| case_of(shapes(*cfg)[j], mode, ag as int, m),
            ),
            i == 0 ==> max_k == 0,
            i == 1 ==> max_k == cfg.n_embd,
            i == 2 || i == 3 ==> max_k == if cfg.q_width() > cfg.n_embd {
                cfg.q_width()
            } else {
                cfg.n_embd as int
            },
            i >= 4 ==> max_k == widest(*cfg),
        decreases v.len() - i,
    {
        let shape = v[i];
        proof {
            assert(views[i as int] == shape_view(v@[i as int]));
            assert(shape_fits(shapes(*cfg)[i as int].1, shapes(*cfg)[i as int].2, m));
        }
        let ghost before = cases@;
        cases.push(case(shape, mode, ag, m_prefill));
        if shape.3 && shape.1 > max_k {
            max_k = shape.1;
        }
        i = i + 1;
        proof {
            assert forall|j: int| 0 <= j < i implies case_views(cases@)[j] == case_of(
                shapes(*cfg)[j],
                mode,
                ag as int,
                m,
            ) by {
                if j < i - 1 {
                    assert(cases@[j] == before[j]);
                    assert(case_views(before)[j] == case_of(shapes(*cfg)[j], mode, ag as int, m));
                }
            }
            assert(case_views(cases@) =~= Seq::new(
                i as nat,
                |j: int| case_of(shapes(*cfg)[j], mode, ag as int, m),
            ));
        }
    }
    proof {
        assert(m * max_k <= usize::MAX) by {
            assert(shape_fits(shapes(*cfg)[0].1, shapes(*cfg)[0].2, m));
            assert(shape_fits(shapes(*cfg)[1].1, shapes(*cfg)[1].2, m));
            assert(shape_fits(shapes(*cfg)[3].1, shapes(*cfg)[3].2, m));
        }
        assert(0 <= m * max_k) by (nonlinear_arith)
            requires
                m >= 0,
        ;
    }
    let total: usize = m_prefill * max_k;
    Some(Kbench { act_words: total / 4, act_groups: total / ag, cases })
}

/// The middle of the times in ascending order, the upper one where their number is even.
pub open spec fn is_median(times: Seq<u32>, t: u32) -> bool {
    exists|p: Seq<usize>|
        #[trigger] is_descending(logit_keys(times), p) && t == times[p[times.len() - 1
            - times.len() as int / 2] as int]
}

/// The median of the times that were measured.
pub fn median(times: &[u32]) -> (t: u32)
    requires
        times.len() > 0,
    ensures
        is_median(times@, t),
{
    let mut keys: Vec<i64> = Vec::new();
    let mut i: usize = 0;
    while i < times.len()
        invariant
            i <= times.len(),
            keys@ == logit_keys(times@.take(i as int)),
        decreases times.len() - i,
    {
        keys.push(total_rank_of(times[i]));
        i = i + 1;
        assert(keys@ =~= logit_keys(times@.take(i as int)));
    }
    assert(times@.take(i as int) =~= times@);
    let p: Vec<usize> = descending(keys.as_slice());
    times[p[times.len() - 1 - times.len() / 2]]
}

/// The median has as many times in front of it in the descending order as behind it, one
/// fewer where their number is even: none in front is smaller, and none behind is larger.
pub proof fn median_stands_in_the_middle(times: Seq<u32>, t: u32)
    requires
        times.len() > 0,
        is_median(times, t),
    ensures
        exists|p: Seq<usize>, k: int|
            {
                &&& #[trigger] covers(p, 0, times.len() as int)
                &&& 0 <= k < p.len()
                &&& t == #[trigger] times[p[k] as int]
                &&& k == times.len() - 1 - k || k + 1 == times.len() - 1 - k
                &&& forall|i: int|
                    0 <= i < k ==> total_rank(times[#[trigger] p[i] as int]) >= total_rank(t)
                &&& forall|i: int|
                    k < i < p.len() ==> total_rank(times[#[trigger] p[i] as int]) <= total_rank(t)
            },
{
    let keys = logit_keys(times);
    let n = times.len() as int;
    let p = choose|p: Seq<usize>|
        #[trigger] is_descending(keys, p) && t == times[p[times.len() - 1 - times.len() as int
            / 2] as int];
    let k = n - 1 - n / 2;
    assert(covers(p, 0, n));
    assert(t == times[p[k] as int]);
    assert forall|i: int| 0 <= i < k implies total_rank(times[#[trigger] p[i] as int])
        >= total_rank(t) by {
        assert(before(keys, p[i] as int, p[k] as int));
    }
    assert forall|i: int| k < i < p.len() implies total_rank(times[#[trigger] p[i] as int])
        <= total_rank(t) by {
        assert(before(keys, p[k] as int, p[i] as int));
    }
}

/// What is timed is a product: a decode step leaves the product of its row with the weights
/// and nothing else.
pub proof fn timed_steps_multiply(
    x: Math,
    m: Memory,
    shape: (Seq<char>, int, int, bool),
    mode: WeightMode,
    ag: int,
    rows: int,
)
    requires
        ag > 0,
        0 <= shape.1 <= 0x1000_0000,
        0 <= shape.2 <= 0x1000_0000,
        m(Buf::BenchY).len() == shape.2,
        m(Buf::BenchX).len() == shape.1,
    ensures
        ({
            let w = stored(Tensor::Bench, mode);
            let r = run(gpu(x, ag), m, case_of(shape, mode, ag, rows).decode);
            &&& r(Buf::BenchY) == product(
                x,
                form(w),
                matrix(m, w, Tensor::Bench),
                m(Buf::BenchX),
                m(Buf::BenchBias),
                shape.2,
            )
            &&& forall|b: Buf| b != Buf::BenchY ==> #[trigger] r(b) == m(b)
        }),
{
    let w = stored(Tensor::Bench, mode);
    let step = gemv_step(
        ag,
        Buf::BenchY,
        Buf::BenchX,
        w,
        Buf::BenchBias,
        shape.1,
        shape.2,
        false,
    );
    lemma_gemv_does(
        x,
        ag,
        m,
        Buf::BenchY,
        Buf::BenchX,
        w,
        Tensor::Bench,
        Buf::BenchBias,
        shape.1,
        shape.2,
        false,
    );
    lemma_run_one(gpu(x, ag), m, step);
}

/// A case is timed on the shape that it is labelled with, streams the bytes of its weights, and
/// is run on the rows of a prompt for every matmul but the head.
pub proof fn cases_follow_their_shapes(
    shape: (Seq<char>, int, int, bool),
    mode: WeightMode,
    ag: int,
    rows: int,
)
    ensures
        ({
            let c = case_of(shape, mode, ag, rows);
            &&& c.label == shape.0 && c.k == shape.1 && c.n == shape.2
            &&& c.bytes == streamed_bytes(mode, c.k, c.n)
            &&& c.prefill.len() > 0 <==> shape.3
        }),
{
}

} // verus!
