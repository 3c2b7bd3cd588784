//! SmoothQuant: which weights set the factor of a channel, and which tensors it is folded
//! into.
//!
//! Dividing a norm's output channel and multiplying the weight row that it feeds by the
//! same factor leaves the product as it is. Only linears that a norm feeds are touched. The
//! three operations on floating-point numbers, the quotient of powers that a factor comes
//! from, the division and the multiplication, are handed in by the caller.

use crate::calib::ActStats;
use crate::floatbits::{
    abs_bits, abs_gt, absmax_bounds_every_element, greater, gt, is_nan, magnitude, signed_absmax,
    INFINITY,
};
use crate::matrix::{at, lemma_inside};
use crate::model::{layer_fits, layer_views, Arch, Config, Layer, LayerView, Model, ModelView};
use crate::sample::ONE;
use vstd::prelude::*;

verus! {

/// Row `i` of a matrix with `n_out` columns.
pub open spec fn row_of(w: Seq<u32>, n_out: int, i: int) -> Seq<u32> {
    w.subrange(i * n_out, i * n_out + n_out)
}

/// The largest magnitude of a row; entries that are not numbers count for nothing.
pub open spec fn row_peak(w: Seq<u32>, n_out: int, i: int) -> u32 {
    magnitude(signed_absmax(row_of(w, n_out, i))) as u32
}

/// The largest magnitude of every row.
pub open spec fn row_peaks(w: Seq<u32>, n_in: int, n_out: int) -> Seq<u32> {
    Seq::new(n_in as nat, |i: int| row_peak(w, n_out, i))
}

/// The larger of two peaks, row by row.
pub open spec fn larger(a: Seq<u32>, b: Seq<u32>) -> Seq<u32> {
    Seq::new(
        a.len(),
        |i: int|
            if b[i] > a[i] {
                b[i]
            } else {
                a[i]
            },
    )
}

/// The largest magnitude of every row of an `[n_in, n_out]` matrix: input channels are
/// rows.
pub fn row_absmax(w: &[u32], n_in: usize, n_out: usize) -> (m: Vec<u32>)
    requires
        w.len() == n_in * n_out,
    ensures
        m@ == row_peaks(w@, n_in as int, n_out as int),
{
    let ghost n = n_out as int;
    let mut m: Vec<u32> = Vec::new();
    let mut i: usize = 0;
    let mut start: usize = 0;
    assert(0 * n == 0) by (nonlinear_arith);
    while i < n_in
        invariant
            i <= n_in,
            n == n_out,
            w.len() == n_in * n_out,
            start == i * n,
            m@ == row_peaks(w@, i as int, n),
        decreases n_in - i,
    {
        proof {
            assert((i + 1) * n == i * n + n) by (nonlinear_arith);
            assert((i + 1) * n <= n_in * n) by (nonlinear_arith)
                requires
                    i + 1 <= n_in,
                    0 <= n,
            ;
        }
        let ghost row = row_of(w@, n, i as int);
        let mut best: u32 = 0;
        let mut o: usize = 0;
        while o < n_out
            invariant
                o <= n_out,
                n == n_out,
                start == i * n,
                start + n_out <= w.len(),
                row == row_of(w@, n, i as int),
                row.len() == n_out,
                best == signed_absmax(row.take(o as int)),
            decreases n_out - o,
        {
            let ghost t = row.take(o + 1);
            proof {
                assert(t.drop_last() =~= row.take(o as int));
                assert(t.last() == w@[start + o]);
            }
            if abs_gt(w[start + o], best) {
                best = w[start + o];
            }
            o = o + 1;
        }
        assert(row.take(o as int) =~= row);
        m.push(abs_bits(best));
        start = start + n_out;
        i = i + 1;
        assert(m@ =~= row_peaks(w@, i as int, n));
    }
    m
}

/// The peaks that the scale of the attention input respects.
pub fn attn_peaks(layer: &Layer, c: &Config) -> (m: Vec<u32>)
    requires
        c.q_width() <= usize::MAX,
        c.kv_width() <= usize::MAX,
        c.qkv_width() <= usize::MAX,
        layer@.qkv_w.len() == c.n_embd * c.qkv_width(),
    ensures
        m@ == row_peaks(layer@.qkv_w, c.n_embd as int, c.qkv_width()),
{
    row_absmax(layer.qkv_w.as_slice(), c.n_embd, c.qkv_dim())
}

/// The peaks that the scale of the MLP input respects: where two projections share the
/// input, the larger of the two.
pub open spec fn mlp_scale_peaks(l: LayerView, c: Config) -> Seq<u32> {
    let fc = row_peaks(l.fc_w, c.n_embd as int, c.n_inter as int);
    if c.arch == Arch::Gpt2 {
        fc
    } else {
        larger(fc, row_peaks(l.up_w, c.n_embd as int, c.n_inter as int))
    }
}

/// The peaks that the scale of the MLP input respects.
pub fn mlp_peaks(layer: &Layer, c: &Config) -> (m: Vec<u32>)
    requires
        layer@.fc_w.len() == c.n_embd * c.n_inter,
        c.arch != Arch::Gpt2 ==> layer@.up_w.len() == c.n_embd * c.n_inter,
    ensures
        m@ == mlp_scale_peaks(layer@, *c),
{
    let fc: Vec<u32> = row_absmax(layer.fc_w.as_slice(), c.n_embd, c.n_inter);
    match c.arch {
        Arch::Gpt2 => fc,
        _ => {
            let up: Vec<u32> = row_absmax(layer.up_w.as_slice(), c.n_embd, c.n_inter);
            let mut m: Vec<u32> = Vec::new();
            let mut i: usize = 0;
            while i < fc.len()
                invariant
                    i <= fc.len(),
                    fc@.len() == up@.len(),
                    m@ == larger(fc@, up@).take(i as int),
                decreases fc.len() - i,
            {
                m.push(if up[i] > fc[i] { up[i] } else { fc[i] });
                i = i + 1;
                assert(m@ =~= larger(fc@, up@).take(i as int));
            }
            assert(m@ =~= larger(fc@, up@));
            m
        },
    }
}

/// Pattern of 1e-5: a factor is larger.
pub const TINY: u32 = 0x3727_C5AC;

/// The number can be a factor: finite, and not too close to zero.
pub open spec fn usable(s: u32) -> bool {
    magnitude(s) < INFINITY && greater(s, TINY)
}

/// The factor that comes of a quotient: one for dead channels and dead weights.
pub open spec fn guarded(s: u32) -> u32 {
    if usable(s) {
        s
    } else {
        ONE
    }
}

fn guard(s: u32) -> (r: u32)
    ensures
        r == guarded(s),
{
    if abs_bits(s) < INFINITY && gt(s, TINY) {
        s
    } else {
        ONE
    }
}

/// No factor is zero, negative, infinite or not a number, so that none can spoil what it
/// divides.
pub proof fn factors_are_usable(s: u32)
    ensures
        usable(guarded(s)),
        greater(guarded(s), 0),
        !is_nan(guarded(s)),
{
}

/// The factor comes of the quotient that `raw` gives for the activation and the weights of a
/// channel.
pub open spec fn is_factor<F: Fn(u32, u32) -> u32>(raw: F, act: u32, peak: u32, s: u32) -> bool {
    exists|q: u32| #[trigger] raw.ensures((act, peak), q) && s == guarded(q)
}

/// One factor per channel that has both magnitudes.
pub open spec fn are_factors<F: Fn(u32, u32) -> u32>(
    raw: F,
    act: Seq<u32>,
    peaks: Seq<u32>,
    s: Seq<u32>,
) -> bool {
    &&& s.len() == (if act.len() < peaks.len() {
        act.len()
    } else {
        peaks.len()
    })
    &&& forall|j: int| 0 <= j < s.len() ==> is_factor(raw, act[j], peaks[j], #[trigger] s[j])
}

fn scales<F: Fn(u32, u32) -> u32>(act: &[u32], peaks: &[u32], raw: &F) -> (s: Vec<u32>)
    requires
        forall|a: u32, b: u32| #[trigger] raw.requires((a, b)),
    ensures
        are_factors(*raw, act@, peaks@, s@),
{
    let n: usize = if act.len() < peaks.len() {
        act.len()
    } else {
        peaks.len()
    };
    let mut s: Vec<u32> = Vec::new();
    let mut j: usize = 0;
    while j < n
        invariant
            j <= n <= act.len(),
            n <= peaks.len(),
            s@.len() == j,
            forall|a: u32, b: u32| #[trigger] raw.requires((a, b)),
            forall|k: int| 0 <= k < j ==> is_factor(*raw, act@[k], peaks@[k], #[trigger] s@[k]),
        decreases n - j,
    {
        let q: u32 = raw(act[j], peaks[j]);
        assert(raw.ensures((act@[j as int], peaks@[j as int]), q));
        s.push(guard(q));
        j = j + 1;
    }
    s
}

/// Every channel of a norm's scale or bias divided by its factor; a bias that is left out
/// stays so.
pub open spec fn is_divided<F: Fn(u32, u32) -> u32>(
    over: F,
    v: Seq<u32>,
    s: Seq<u32>,
    r: Seq<u32>,
) -> bool {
    &&& r.len() == v.len()
    &&& forall|j: int|
        0 <= j < v.len() ==> if j < s.len() {
            over.ensures((v[j], s[j]), #[trigger] r[j])
        } else {
            r[j] == v[j]
        }
}

fn fold_norm<F: Fn(u32, u32) -> u32>(v: &[u32], s: &[u32], over: &F) -> (r: Vec<u32>)
    requires
        forall|a: u32, b: u32| #[trigger] over.requires((a, b)),
    ensures
        is_divided(*over, v@, s@, r@),
{
    let mut r: Vec<u32> = Vec::new();
    let mut j: usize = 0;
    while j < v.len()
        invariant
            j <= v.len(),
            r@.len() == j,
            forall|a: u32, b: u32| #[trigger] over.requires((a, b)),
            forall|k: int|
                0 <= k < j ==> if k < s.len() {
                    over.ensures((v@[k], s@[k]), #[trigger] r@[k])
                } else {
                    r@[k] == v@[k]
                },
        decreases v.len() - j,
    {
        let x: u32 = if j < s.len() {
            over(v[j], s[j])
        } else {
            v[j]
        };
        r.push(x);
        j = j + 1;
    }
    r
}

/// Every row of an `[n_in, n_out]` matrix multiplied by the factor of its channel; a factor
/// of one leaves the row as it is.
pub open spec fn is_scaled<F: Fn(u32, u32) -> u32>(
    times: F,
    w: Seq<u32>,
    n_in: int,
    n_out: int,
    s: Seq<u32>,
    r: Seq<u32>,
) -> bool {
    &&& r.len() == w.len()
    &&& forall|i: int, o: int|
        0 <= i < n_in && 0 <= o < n_out ==> if s[i] == ONE {
            #[trigger] at(r, n_out, i, o) == at(w, n_out, i, o)
        } else {
            times.ensures((at(w, n_out, i, o), s[i]), at(r, n_out, i, o))
        }
}

fn scale_rows<F: Fn(u32, u32) -> u32>(
    w: &[u32],
    n_in: usize,
    n_out: usize,
    s: &[u32],
    times: &F,
) -> (r: Vec<u32>)
    requires
        w.len() == n_in * n_out,
        s.len() >= n_in,
        forall|a: u32, b: u32| #[trigger] times.requires((a, b)),
    ensures
        is_scaled(*times, w@, n_in as int, n_out as int, s@, r@),
{
    let ghost c = n_out as int;
    let mut r: Vec<u32> = Vec::with_capacity(w.len());
    let mut i: usize = 0;
    assert(0 * c == 0) by (nonlinear_arith);
    while i < n_in
        invariant
            i <= n_in,
            c == n_out,
            w.len() == n_in * n_out,
            s.len() >= n_in,
            forall|a: u32, b: u32| #[trigger] times.requires((a, b)),
            r@.len() == i * c,
            forall|a: int, b: int|
                0 <= a < i && 0 <= b < c ==> if s@[a] == ONE {
                    #[trigger] at(r@, c, a, b) == at(w@, c, a, b)
                } else {
                    times.ensures((at(w@, c, a, b), s@[a]), at(r@, c, a, b))
                },
        decreases n_in - i,
    {
        let ghost above = r@;
        proof {
            assert((i + 1) * c == i * c + c) by (nonlinear_arith);
            assert((i + 1) * c <= n_in * c) by (nonlinear_arith)
                requires
                    i + 1 <= n_in,
                    0 <= c,
            ;
        }
        let mut o: usize = 0;
        while o < n_out
            invariant
                i < n_in,
                o <= n_out,
                c == n_out,
                s.len() >= n_in,
                above.len() == i * c,
                i * c + c <= w.len(),
                forall|a: u32, b: u32| #[trigger] times.requires((a, b)),
                r@.len() == above.len() + o,
                r@.take(above.len() as int) == above,
                forall|b: int|
                    0 <= b < o ==> if s@[i as int] == ONE {
                        #[trigger] r@[above.len() + b] == w@[above.len() + b]
                    } else {
                        times.ensures((w@[above.len() + b], s@[i as int]), r@[above.len() + b])
                    },
            decreases n_out - o,
        {
            let ghost before = r@;
            let k: usize = r.len();
            let x: u32 = if s[i] == ONE {
                w[k]
            } else {
                times(w[k], s[i])
            };
            r.push(x);
            o = o + 1;
            assert(r@.take(above.len() as int) =~= before.take(above.len() as int));
        }
        proof {
            assert forall|a: int, b: int| 0 <= a < i + 1 && 0 <= b < c implies if s@[a] == ONE {
                #[trigger] at(r@, c, a, b) == at(w@, c, a, b)
            } else {
                times.ensures((at(w@, c, a, b), s@[a]), at(r@, c, a, b))
            } by {
                if a < i {
                    lemma_inside(i as int, c, a, b);
                    assert(r@.take(above.len() as int)[a * c + b] == above[a * c + b]);
                    assert(at(above, c, a, b) == at(r@, c, a, b));
                } else {
                    assert(at(r@, c, a, b) == r@[above.len() + b]);
                }
            }
        }
        i = i + 1;
    }
    r
}

/// The factors of a layer: `s` for the attention input, `t` for the MLP input.
pub open spec fn layer_factors<F: Fn(u32, u32) -> u32>(
    raw: F,
    y: LayerView,
    c: Config,
    attn: Seq<u32>,
    mlp: Seq<u32>,
    s: Seq<u32>,
    t: Seq<u32>,
) -> bool {
    &&& are_factors(raw, attn, row_peaks(y.qkv_w, c.n_embd as int, c.qkv_width()), s)
    &&& are_factors(raw, mlp, mlp_scale_peaks(y, c), t)
}

/// The layer with its factors folded in: the first norm and the attention projections by
/// `s`, the second norm and the projections that it feeds by `t`. Everything else is as it
/// was.
pub open spec fn folded<G: Fn(u32, u32) -> u32, H: Fn(u32, u32) -> u32>(
    over: G,
    times: H,
    y: LayerView,
    c: Config,
    s: Seq<u32>,
    t: Seq<u32>,
    r: LayerView,
) -> bool {
    let (e, qkv, inter) = (c.n_embd as int, c.qkv_width(), c.n_inter as int);
    &&& is_divided(over, y.ln1_g, s, r.ln1_g)
    &&& is_divided(over, y.ln1_b, s, r.ln1_b)
    &&& is_scaled(times, y.qkv_w, e, qkv, s, r.qkv_w)
    &&& is_divided(over, y.ln2_g, t, r.ln2_g)
    &&& is_divided(over, y.ln2_b, t, r.ln2_b)
    &&& is_scaled(times, y.fc_w, e, inter, t, r.fc_w)
    &&& if c.arch == Arch::Gpt2 {
        r.up_w == y.up_w
    } else {
        is_scaled(times, y.up_w, e, inter, t, r.up_w)
    }
    &&& r.qkv_b == y.qkv_b
    &&& r.proj_w == y.proj_w
    &&& r.proj_b == y.proj_b
    &&& r.fc_b == y.fc_b
    &&& r.fc2_w == y.fc2_w
    &&& r.fc2_b == y.fc2_b
}

/// The layer is smoothed: the factors come of its weights and of the activations, and are
/// folded in.
pub open spec fn is_smoothed<
    F: Fn(u32, u32) -> u32,
    G: Fn(u32, u32) -> u32,
    H: Fn(u32, u32) -> u32,
>(
    raw: F,
    over: G,
    times: H,
    y: LayerView,
    c: Config,
    attn: Seq<u32>,
    mlp: Seq<u32>,
    r: LayerView,
) -> bool {
    exists|s: Seq<u32>, t: Seq<u32>| #[trigger]
        layer_factors(raw, y, c, attn, mlp, s, t) && #[trigger] folded(over, times, y, c, s, t, r)
}

/// The matrices that smoothing touches have their sizes.
pub open spec fn smoothable(y: LayerView, c: Config) -> bool {
    &&& y.qkv_w.len() == c.n_embd * c.qkv_width()
    &&& y.fc_w.len() == c.n_embd * c.n_inter
    &&& c.arch != Arch::Gpt2 ==> y.up_w.len() == c.n_embd * c.n_inter
}

fn copied(v: &Vec<u32>) -> (r: Vec<u32>)
    ensures
        r@ == v@,
{
    let r: Vec<u32> = v.clone();
    assert(r@ =~= v@);
    r
}

fn copied_layer(y: &Layer) -> (r: Layer)
    ensures
        r@ == y@,
{
    Layer {
        ln1_g: copied(&y.ln1_g),
        ln1_b: copied(&y.ln1_b),
        qkv_w: copied(&y.qkv_w),
        qkv_b: copied(&y.qkv_b),
        proj_w: copied(&y.proj_w),
        proj_b: copied(&y.proj_b),
        ln2_g: copied(&y.ln2_g),
        ln2_b: copied(&y.ln2_b),
        fc_w: copied(&y.fc_w),
        fc_b: copied(&y.fc_b),
        up_w: copied(&y.up_w),
        fc2_w: copied(&y.fc2_w),
        fc2_b: copied(&y.fc2_b),
    }
}

/// Smooths one layer.
fn smooth_layer<F: Fn(u32, u32) -> u32, G: Fn(u32, u32) -> u32, H: Fn(u32, u32) -> u32>(
    y: &Layer,
    c: &Config,
    attn: &[u32],
    mlp: &[u32],
    raw: &F,
    over: &G,
    times: &H,
) -> (r: Layer)
    requires
        c.q_width() <= usize::MAX,
        c.kv_width() <= usize::MAX,
        c.qkv_width() <= usize::MAX,
        smoothable(y@, *c),
        attn.len() >= c.n_embd,
        mlp.len() >= c.n_embd,
        forall|a: u32, b: u32| #[trigger] raw.requires((a, b)),
        forall|a: u32, b: u32| #[trigger] over.requires((a, b)),
        forall|a: u32, b: u32| #[trigger] times.requires((a, b)),
    ensures
        is_smoothed(*raw, *over, *times, y@, *c, attn@, mlp@, r@),
{
    let s: Vec<u32> = scales(attn, &attn_peaks(y, c), raw);
    let t: Vec<u32> = scales(mlp, &mlp_peaks(y, c), raw);
    let up_w: Vec<u32> = match c.arch {
        Arch::Gpt2 => copied(&y.up_w),
        _ => scale_rows(&y.up_w, c.n_embd, c.n_inter, &t, times),
    };
    let r = Layer {
        ln1_g: fold_norm(&y.ln1_g, &s, over),
        ln1_b: fold_norm(&y.ln1_b, &s, over),
        qkv_w: scale_rows(&y.qkv_w, c.n_embd, c.qkv_dim(), &s, times),
        qkv_b: copied(&y.qkv_b),
        proj_w: copied(&y.proj_w),
        proj_b: copied(&y.proj_b),
        ln2_g: fold_norm(&y.ln2_g, &t, over),
        ln2_b: fold_norm(&y.ln2_b, &t, over),
        fc_w: scale_rows(&y.fc_w, c.n_embd, c.n_inter, &t, times),
        fc_b: copied(&y.fc_b),
        up_w,
        fc2_w: copied(&y.fc2_w),
        fc2_b: copied(&y.fc2_b),
    };
    proof {
        assert(layer_factors(*raw, y@, *c, attn@, mlp@, s@, t@));
        assert(folded(*over, *times, y@, *c, s@, t@, r@));
    }
    r
}

/// A smoothed copy of a model: magnitude moves from what enters the norm-fed linears into
/// their weights. `raw` gives the quotient that a factor comes of, from the largest
/// magnitude of the activation and of the weights of a channel; `over` divides and `times`
/// multiplies. All three work on bit patterns.
pub fn smooth<F: Fn(u32, u32) -> u32, G: Fn(u32, u32) -> u32, H: Fn(u32, u32) -> u32>(
    model: &Model,
    act: &ActStats,
    raw: &F,
    over: &G,
    times: &H,
) -> (r: Model)
    requires
        model@.config.qkv_width() <= usize::MAX,
        model@.layers.len() >= model@.config.n_layer,
        forall|l: int|
            0 <= l < model@.config.n_layer ==> smoothable(
                #[trigger] model@.layers[l],
                model@.config,
            ),
        act@.attn.len() >= model@.config.n_layer,
        act@.mlp.len() >= model@.config.n_layer,
        forall|l: int|
            0 <= l < model@.config.n_layer ==> (#[trigger] act@.attn[l]).len()
                >= model@.config.n_embd,
        forall|l: int|
            0 <= l < model@.config.n_layer ==> (#[trigger] act@.mlp[l]).len()
                >= model@.config.n_embd,
        forall|a: u32, b: u32| #[trigger] raw.requires((a, b)),
        forall|a: u32, b: u32| #[trigger] over.requires((a, b)),
        forall|a: u32, b: u32| #[trigger] times.requires((a, b)),
    ensures
        r@ == (ModelView { layers: r@.layers, ..model@ }),
        r@.layers.len() == model@.layers.len(),
        forall|l: int|
            0 <= l < model@.layers.len() ==> if l < model@.config.n_layer {
                is_smoothed(
                    *raw,
                    *over,
                    *times,
                    model@.layers[l],
                    model@.config,
                    act@.attn[l],
                    act@.mlp[l],
                    #[trigger] r@.layers[l],
                )
            } else {
                r@.layers[l] == model@.layers[l]
            },
{
    let c: &Config = &model.config;
    let ghost ys = model@.layers;
    proof {
        lemma_widths(*c);
    }
    let mut layers: Vec<Layer> = Vec::new();
    let mut l: usize = 0;
    while l < model.layers.len()
        invariant
            *c == model@.config,
            ys == model@.layers,
            ys == layer_views(model.layers@),
            0 <= c.q_width() <= c.qkv_width() <= usize::MAX,
            0 <= c.kv_width() <= c.qkv_width(),
            l <= model.layers.len(),
            ys.len() >= c.n_layer,
            forall|k: int| 0 <= k < c.n_layer ==> smoothable(#[trigger] ys[k], *c),
            act@.attn.len() >= c.n_layer,
            act@.mlp.len() >= c.n_layer,
            forall|k: int| 0 <= k < c.n_layer ==> (#[trigger] act@.attn[k]).len() >= c.n_embd,
            forall|k: int| 0 <= k < c.n_layer ==> (#[trigger] act@.mlp[k]).len() >= c.n_embd,
            forall|a: u32, b: u32| #[trigger] raw.requires((a, b)),
            forall|a: u32, b: u32| #[trigger] over.requires((a, b)),
            forall|a: u32, b: u32| #[trigger] times.requires((a, b)),
            layers@.len() == l,
            forall|k: int|
                0 <= k < l ==> if k < c.n_layer {
                    is_smoothed(
                        *raw,
                        *over,
                        *times,
                        ys[k],
                        *c,
                        act@.attn[k],
                        act@.mlp[k],
                        (#[trigger] layers@[k])@,
                    )
                } else {
                    layers@[k]@ == ys[k]
                },
        decreases model.layers.len() - l,
    {
        let y: &Layer = &model.layers[l];
        assert(y@ == ys[l as int]);
        let next: Layer = if l < c.n_layer {
            assert(act@.attn[l as int] == act.attn@[l as int]@);
            assert(act@.mlp[l as int] == act.mlp@[l as int]@);
            smooth_layer(y, c, &act.attn[l], &act.mlp[l], raw, over, times)
        } else {
            copied_layer(y)
        };
        layers.push(next);
        l = l + 1;
    }
    let r = Model {
        config: model.config,
        wte: copied(&model.wte),
        wpe: copied(&model.wpe),
        layers,
        lnf_g: copied(&model.lnf_g),
        lnf_b: copied(&model.lnf_b),
        lm_head: copied(&model.lm_head),
    };
    assert forall|k: int| 0 <= k < ys.len() implies (#[trigger] r@.layers[k]) == r.layers@[k]@ by {}
    r
}

proof fn lemma_widths(c: Config)
    ensures
        0 <= c.q_width() <= c.qkv_width(),
        0 <= c.kv_width() <= c.qkv_width(),
{
    assert(0 <= c.n_head * c.head_dim) by (nonlinear_arith);
    assert(0 <= c.n_kv_head * c.head_dim) by (nonlinear_arith);
}

/// Folding changes no size: a layer that fits still does.
pub proof fn folding_keeps_the_sizes<G: Fn(u32, u32) -> u32, H: Fn(u32, u32) -> u32>(
    over: G,
    times: H,
    y: LayerView,
    c: Config,
    s: Seq<u32>,
    t: Seq<u32>,
    r: LayerView,
)
    requires
        layer_fits(c, y),
        folded(over, times, y, c, s, t, r),
    ensures
        layer_fits(c, r),
{
}

/// The products of a norm's scale with the weights of the row that it feeds, all of them, are
/// those of before.
pub open spec fn products_kept(
    product: spec_fn(u32, u32) -> int,
    g: Seq<u32>,
    w: Seq<u32>,
    g2: Seq<u32>,
    w2: Seq<u32>,
    n_in: int,
    n_out: int,
) -> bool {
    forall|j: int, o: int|
        0 <= j < n_in && 0 <= o < n_out ==> product(g2[j], #[trigger] w2[j * n_out + o]) == product(
            g[j],
            w[j * n_out + o],
        )
}

proof fn lemma_product_kept<G: Fn(u32, u32) -> u32, H: Fn(u32, u32) -> u32>(
    over: G,
    times: H,
    product: spec_fn(u32, u32) -> int,
    g: Seq<u32>,
    w: Seq<u32>,
    s: Seq<u32>,
    g2: Seq<u32>,
    w2: Seq<u32>,
    n_in: int,
    n_out: int,
)
    requires
        cancels(over, times, product),
        g.len() == n_in,
        s.len() == n_in,
        forall|j: int| 0 <= j < s.len() ==> usable(#[trigger] s[j]),
        is_divided(over, g, s, g2),
        is_scaled(times, w, n_in, n_out, s, w2),
    ensures
        products_kept(product, g, w, g2, w2, n_in, n_out),
{
    assert forall|j: int, o: int| 0 <= j < n_in && 0 <= o < n_out implies product(
        g2[j],
        #[trigger] w2[j * n_out + o],
    ) == product(g[j], w[j * n_out + o]) by {
        assert(over.ensures((g[j], s[j]), g2[j]));
        assert(usable(s[j]));
        if s[j] == ONE {
            assert(at(w2, n_out, j, o) == at(w, n_out, j, o));
        } else {
            assert(at(w2, n_out, j, o) == w2[j * n_out + o]);
            assert(times.ensures((at(w, n_out, j, o), s[j]), at(w2, n_out, j, o)));
        }
    }
}

/// Division and multiplication are exact as far as products go: what is divided on one side and
/// multiplied on the other cancels, and dividing by one does nothing.
pub open spec fn cancels<G: Fn(u32, u32) -> u32, H: Fn(u32, u32) -> u32>(
    over: G,
    times: H,
    product: spec_fn(u32, u32) -> int,
) -> bool {
    &&& forall|v: u32, f: u32, w: u32, q: u32, x: u32|
        usable(f) && #[trigger] over.ensures((v, f), q) && #[trigger] times.ensures((w, f), x)
            ==> product(q, x) == product(v, w)
    &&& forall|v: u32, q: u32| #[trigger] over.ensures((v, ONE), q) ==> q == v
}

/// Smoothing moves magnitude from the activations into the weights and changes no product of
/// the two: under exact arithmetic, what a norm's scale and bias contribute to every column of
/// every linear that the norm feeds stays the same. Nothing else of the layer changes.
pub proof fn smoothing_keeps_what_the_layer_computes<
    F: Fn(u32, u32) -> u32,
    G: Fn(u32, u32) -> u32,
    H: Fn(u32, u32) -> u32,
>(
    raw: F,
    over: G,
    times: H,
    product: spec_fn(u32, u32) -> int,
    y: LayerView,
    c: Config,
    attn: Seq<u32>,
    mlp: Seq<u32>,
    r: LayerView,
)
    requires
        cancels(over, times, product),
        layer_fits(c, y),
        attn.len() == c.n_embd,
        mlp.len() == c.n_embd,
        is_smoothed(raw, over, times, y, c, attn, mlp, r),
    ensures
        ({
            let (e, q, n) = (c.n_embd as int, c.qkv_width(), c.n_inter as int);
            &&& products_kept(product, y.ln1_g, y.qkv_w, r.ln1_g, r.qkv_w, e, q)
            &&& products_kept(product, y.ln2_g, y.fc_w, r.ln2_g, r.fc_w, e, n)
            &&& c.arch == Arch::Gpt2 ==> {
                &&& products_kept(product, y.ln1_b, y.qkv_w, r.ln1_b, r.qkv_w, e, q)
                &&& products_kept(product, y.ln2_b, y.fc_w, r.ln2_b, r.fc_w, e, n)
                &&& r.up_w == y.up_w
            }
            &&& c.arch != Arch::Gpt2 ==> products_kept(
                product,
                y.ln2_g,
                y.up_w,
                r.ln2_g,
                r.up_w,
                e,
                n,
            )
            &&& r.qkv_b == y.qkv_b && r.proj_w == y.proj_w && r.proj_b == y.proj_b
            &&& r.fc_b == y.fc_b && r.fc2_w == y.fc2_w && r.fc2_b == y.fc2_b
        }),
{
    let (e, q, n) = (c.n_embd as int, c.qkv_width(), c.n_inter as int);
    let (s, t) = choose|s: Seq<u32>, t: Seq<u32>| #[trigger]
        layer_factors(raw, y, c, attn, mlp, s, t) && folded(over, times, y, c, s, t, r);
    assert forall|j: int| 0 <= j < s.len() implies usable(#[trigger] s[j]) by {
        assert(is_factor(raw, attn[j], row_peaks(y.qkv_w, e, q)[j], s[j]));
    }
    assert forall|j: int| 0 <= j < t.len() implies usable(#[trigger] t[j]) by {
        assert(is_factor(raw, mlp[j], mlp_scale_peaks(y, c)[j], t[j]));
    }
    lemma_product_kept(over, times, product, y.ln1_g, y.qkv_w, s, r.ln1_g, r.qkv_w, e, q);
    lemma_product_kept(over, times, product, y.ln2_g, y.fc_w, t, r.ln2_g, r.fc_w, e, n);
    if c.arch == Arch::Gpt2 {
        lemma_product_kept(over, times, product, y.ln1_b, y.qkv_w, s, r.ln1_b, r.qkv_w, e, q);
        lemma_product_kept(over, times, product, y.ln2_b, y.fc_w, t, r.ln2_b, r.fc_w, e, n);
    } else {
        lemma_product_kept(over, times, product, y.ln2_g, y.up_w, t, r.ln2_g, r.up_w, e, n);
    }
}

/// The number is no smaller than any magnitude in row `i`.
pub open spec fn tops_row(w: Seq<u32>, n_out: int, i: int, p: u32) -> bool {
    forall|o: int|
        0 <= o < n_out && !is_nan(#[trigger] w[i * n_out + o]) ==> magnitude(w[i * n_out + o]) <= p
}

/// The number is zero or the magnitude of an entry of row `i`.
pub open spec fn in_row(w: Seq<u32>, n_out: int, i: int, p: u32) -> bool {
    p == 0 || exists|o: int| 0 <= o < n_out && magnitude(#[trigger] w[i * n_out + o]) == p
}

proof fn lemma_peak_in_row(w: Seq<u32>, n_in: int, n_out: int, i: int)
    requires
        0 <= i < n_in,
        0 <= n_out,
        w.len() == n_in * n_out,
    ensures
        tops_row(w, n_out, i, row_peak(w, n_out, i)),
        in_row(w, n_out, i, row_peak(w, n_out, i)),
{
    let row = row_of(w, n_out, i);
    assert(i * n_out + n_out <= n_in * n_out) by (nonlinear_arith)
        requires
            0 <= i < n_in,
            0 <= n_out,
    ;
    assert(0 <= i * n_out) by (nonlinear_arith)
        requires
            0 <= i,
            0 <= n_out,
    ;
    absmax_bounds_every_element(row);
    assert forall|o: int| 0 <= o < n_out && !is_nan(#[trigger] w[i * n_out + o]) implies magnitude(
        w[i * n_out + o],
    ) <= row_peak(w, n_out, i) by {
        assert(row[o] == w[i * n_out + o]);
    }
    if row.contains(signed_absmax(row)) {
        let o = choose|o: int| 0 <= o < row.len() && row[o] == signed_absmax(row);
        assert(row[o] == w[i * n_out + o]);
    }
}

/// A channel's factor comes of its activation and of the largest magnitude among the weights
/// that it scales: for the attention those of its row of the attention projection, for the MLP
/// those of its row of the input projection, and of its row of the second one where there is
/// one. It is one where the quotient is no usable number.
pub proof fn factors_respect_the_weights_they_scale<F: Fn(u32, u32) -> u32>(
    raw: F,
    y: LayerView,
    c: Config,
    attn: Seq<u32>,
    mlp: Seq<u32>,
    s: Seq<u32>,
    t: Seq<u32>,
    j: int,
)
    requires
        layer_fits(c, y),
        attn.len() == c.n_embd,
        mlp.len() == c.n_embd,
        layer_factors(raw, y, c, attn, mlp, s, t),
        0 <= j < c.n_embd,
    ensures
        exists|p: u32, q: u32|
            {
                &&& #[trigger] raw.ensures((attn[j], p), q)
                &&& s[j] == (if usable(q) {
                    q
                } else {
                    0x3f80_0000
                })
                &&& tops_row(y.qkv_w, c.qkv_width(), j, p)
                &&& in_row(y.qkv_w, c.qkv_width(), j, p)
            },
        exists|p: u32, q: u32|
            {
                &&& #[trigger] raw.ensures((mlp[j], p), q)
                &&& t[j] == (if usable(q) {
                    q
                } else {
                    0x3f80_0000
                })
                &&& tops_row(y.fc_w, c.n_inter as int, j, p)
                &&& c.arch == Arch::Gpt2 ==> in_row(y.fc_w, c.n_inter as int, j, p)
                &&& c.arch != Arch::Gpt2 ==> {
                    &&& tops_row(y.up_w, c.n_inter as int, j, p)
                    &&& in_row(y.fc_w, c.n_inter as int, j, p) || in_row(
                        y.up_w,
                        c.n_inter as int,
                        j,
                        p,
                    )
                }
            },
{
    let (e, w, n) = (c.n_embd as int, c.qkv_width(), c.n_inter as int);
    lemma_widths(c);
    assert(0 <= w);
    lemma_peak_in_row(y.qkv_w, e, w, j);
    lemma_peak_in_row(y.fc_w, e, n, j);
    if c.arch != Arch::Gpt2 {
        lemma_peak_in_row(y.up_w, e, n, j);
    }
    assert(is_factor(raw, attn[j], row_peaks(y.qkv_w, e, w)[j], s[j]));
    let q = choose|q: u32|
        #[trigger] raw.ensures((attn[j], row_peaks(y.qkv_w, e, w)[j]), q) && s[j] == guarded(q);
    assert(raw.ensures((attn[j], row_peak(y.qkv_w, w, j)), q));
    let p = mlp_scale_peaks(y, c)[j];
    assert(is_factor(raw, mlp[j], p, t[j]));
    let u = choose|u: u32| #[trigger] raw.ensures((mlp[j], p), u) && t[j] == guarded(u);
    assert(raw.ensures((mlp[j], p), u));
}

/// A peak is a number, and no number of its row is larger in magnitude.
pub proof fn peaks_top_their_rows(w: Seq<u32>, n_in: int, n_out: int, i: int, o: int)
    requires
        0 <= i < n_in,
        0 <= o < n_out,
        w.len() == n_in * n_out,
    ensures
        !is_nan(row_peak(w, n_out, i)),
        !is_nan(w[i * n_out + o]) ==> magnitude(w[i * n_out + o]) <= row_peak(w, n_out, i),
{
    lemma_inside(n_in, n_out, i, o);
    let row = row_of(w, n_out, i);
    absmax_bounds_every_element(row);
    assert(row[o] == w[i * n_out + o]);
}

} // verus!
