//! Calibration: which stretches of a corpus are run, and what is kept of the activations
//! that enter the linears.
//!
//! SmoothQuant keeps the largest magnitude per channel in front of the norm-fed linears;
//! GPTQ keeps a second-moment matrix per linear. The forward pass and the product that is
//! added to a sum are floating-point arithmetic, which the caller hands in.

use crate::floatbits::{abs_bits, greater, gt, is_nan, is_zero, magnitude, signed_absmax};
use crate::matrix::{at, fill, is_matrix, lemma_inside};
use crate::model::{zeros, Config};
use vstd::prelude::*;

verus! {

/// A linear of a layer, by what enters it.
#[derive(Debug, Clone, Copy, PartialEq, Eq, Structural)]
pub enum Site {
    /// Output of the first norm.
    Qkv,
    /// Output of attention.
    Proj,
    /// Output of the second norm.
    Fc,
    /// Hidden activations of the MLP.
    Fc2,
}

/// The site's place in the lists per layer.
pub open spec fn site_place(s: Site) -> int {
    match s {
        Site::Qkv => 0,
        Site::Proj => 1,
        Site::Fc => 2,
        Site::Fc2 => 3,
    }
}

/// The site's place in the lists per layer.
pub fn site_idx(s: Site) -> (k: usize)
    ensures
        k == site_place(s),
{
    match s {
        Site::Qkv => 0,
        Site::Proj => 1,
        Site::Fc => 2,
        Site::Fc2 => 3,
    }
}

/// How many windows of `chunk` tokens are run of `limit`: a window of fewer than two
/// tokens ends the pass.
pub open spec fn window_count(chunk: int, limit: int) -> int {
    if chunk < 2 || limit < 2 {
        0
    } else {
        (limit - 2) / chunk + 1
    }
}

/// The window of number `i`.
pub open spec fn window(chunk: int, limit: int, i: int) -> (usize, usize) {
    (
        (i * chunk) as usize,
        if (i + 1) * chunk < limit {
            ((i + 1) * chunk) as usize
        } else {
            limit as usize
        },
    )
}

/// The tokens that a pass may run: all of them up to the maximum.
pub open spec fn pass_limit(tokens: int, max_tokens: int) -> int {
    if max_tokens < tokens {
        max_tokens
    } else {
        tokens
    }
}

proof fn lemma_window_starts(chunk: int, limit: int, i: int)
    requires
        chunk >= 2,
        limit >= 2,
        0 <= i,
    ensures
        i < window_count(chunk, limit) <==> i * chunk + 1 < limit,
        0 <= i * chunk,
        (i + 1) * chunk == i * chunk + chunk,
{
    let q = (limit - 2) / chunk;
    vstd::arithmetic::div_mod::lemma_fundamental_div_mod(limit - 2, chunk);
    assert(i <= q <==> i * chunk <= limit - 2) by (nonlinear_arith)
        requires
            limit - 2 == chunk * q + (limit - 2) % chunk,
            0 <= (limit - 2) % chunk < chunk,
            chunk >= 2,
    ;
    assert(0 <= i * chunk) by (nonlinear_arith)
        requires
            0 <= i,
            chunk >= 2,
    ;
    assert((i + 1) * chunk == i * chunk + chunk) by (nonlinear_arith);
}

/// The windows of a pass over `tokens` tokens.
pub fn windows(tokens: usize, chunk_len: usize, max_tokens: usize) -> (w: Vec<(usize, usize)>)
    ensures
        w@ == ({
            let limit = pass_limit(tokens as int, max_tokens as int);
            Seq::new(
                window_count(chunk_len as int, limit) as nat,
                |i: int| window(chunk_len as int, limit, i),
            )
        }),
{
    let limit: usize = if max_tokens < tokens {
        max_tokens
    } else {
        tokens
    };
    let ghost (c, m) = (chunk_len as int, limit as int);
    let mut w: Vec<(usize, usize)> = Vec::new();
    if chunk_len < 2 || limit < 2 {
        assert(w@ =~= Seq::new(0, |i: int| window(c, m, i)));
        return w;
    }
    let mut start: usize = 0;
    proof {
        lemma_window_starts(c, m, 0);
        assert(0 * c == 0) by (nonlinear_arith);
    }
    while limit - start >= 2
        invariant
            c == chunk_len,
            m == limit,
            chunk_len >= 2,
            limit >= 2,
            start <= limit,
            w@.len() <= window_count(c, m),
            w@ == Seq::new(w@.len(), |i: int| window(c, m, i)),
            w@.len() < window_count(c, m) ==> start == w@.len() * c,
            limit - start >= 2 <==> w@.len() < window_count(c, m),
        decreases limit - start,
    {
        let ghost k = w@.len() as int;
        proof {
            lemma_window_starts(c, m, k);
            lemma_window_starts(c, m, k + 1);
        }
        let end: usize = if chunk_len < limit - start {
            start + chunk_len
        } else {
            limit
        };
        w.push((start, end));
        assert(w@[k] == window(c, m, k));
        start = end;
        assert(w@ =~= Seq::new(w@.len(), |i: int| window(c, m, i)));
    }
    w
}

/// The windows follow each other from the first token on, hold two tokens or more and no
/// more than were asked for, and leave at most one token of the pass out.
pub proof fn windows_tile_the_pass(chunk: int, limit: int, i: int)
    requires
        chunk >= 2,
        limit <= usize::MAX,
        0 <= i < window_count(chunk, limit),
    ensures
        window(chunk, limit, 0).0 == 0,
        window(chunk, limit, i).0 + 2 <= window(chunk, limit, i).1 <= limit,
        window(chunk, limit, i).1 - window(chunk, limit, i).0 <= chunk,
        i + 1 < window_count(chunk, limit) ==> window(chunk, limit, i + 1).0 == window(chunk, limit, i).1,
        i + 1 == window_count(chunk, limit) ==> window(chunk, limit, i).1 + 1 >= limit,
{
    lemma_window_starts(chunk, limit, i);
    lemma_window_starts(chunk, limit, i + 1);
    assert(0 * chunk == 0) by (nonlinear_arith);
}

/// The contents of a list of lists.
pub open spec fn rows_of(v: Seq<Vec<u32>>) -> Seq<Seq<u32>> {
    Seq::new(v.len(), |i: int| v[i]@)
}

/// Largest magnitude per channel in front of the two norm-fed linears, per layer.
#[derive(Debug)]
pub struct ActStats {
    /// In front of the attention projections.
    pub attn: Vec<Vec<u32>>,
    /// In front of the MLP.
    pub mlp: Vec<Vec<u32>>,
}

/// The contents of an [`ActStats`].
#[verifier::ext_equal]
pub struct ActStatsView {
    pub attn: Seq<Seq<u32>>,
    pub mlp: Seq<Seq<u32>>,
}

impl View for ActStats {
    type V = ActStatsView;

    open spec fn view(&self) -> ActStatsView {
        ActStatsView { attn: rows_of(self.attn@), mlp: rows_of(self.mlp@) }
    }
}

/// Every channel of every layer at zero.
pub open spec fn all_zero(n_layer: int, n_embd: int) -> Seq<Seq<u32>> {
    Seq::new(n_layer as nat, |l: int| zeros(n_embd))
}

/// The channels raised to the magnitudes of an activation, where those are larger.
pub open spec fn raised(row: Seq<u32>, x: Seq<u32>) -> Seq<u32> {
    Seq::new(
        row.len(),
        |d: int|
            if d < x.len() && greater(magnitude(x[d]) as u32, row[d]) {
                magnitude(x[d]) as u32
            } else {
                row[d]
            },
    )
}

/// The statistics after an activation has been seen at a site of a layer.
pub open spec fn stats_after(s: ActStatsView, l: int, site: Site, x: Seq<u32>) -> ActStatsView {
    match site {
        Site::Qkv => ActStatsView { attn: s.attn.update(l, raised(s.attn[l], x)), ..s },
        Site::Fc => ActStatsView { mlp: s.mlp.update(l, raised(s.mlp[l], x)), ..s },
        _ => s,
    }
}

fn zero_rows(n_layer: usize, n_embd: usize) -> (v: Vec<Vec<u32>>)
    ensures
        rows_of(v@) == all_zero(n_layer as int, n_embd as int),
{
    let mut v: Vec<Vec<u32>> = Vec::new();
    let mut l: usize = 0;
    while l < n_layer
        invariant
            l <= n_layer,
            v@.len() == l,
            rows_of(v@) == all_zero(l as int, n_embd as int),
        decreases n_layer - l,
    {
        let row: Vec<u32> = vec![0u32; n_embd];
        assert(row@ =~= zeros(n_embd as int));
        let ghost before = v@;
        v.push(row);
        l = l + 1;
        proof {
            assert forall|i: int| 0 <= i < l implies rows_of(v@)[i] == all_zero(
                l as int,
                n_embd as int,
            )[i] by {
                if i < l - 1 {
                    assert(rows_of(before)[i] == all_zero(l - 1, n_embd as int)[i]);
                    assert(v@[i] == before[i]);
                }
            }
            assert(rows_of(v@) =~= all_zero(l as int, n_embd as int));
        }
    }
    v
}

fn raise(row: &Vec<u32>, x: &[u32]) -> (r: Vec<u32>)
    ensures
        r@ == raised(row@, x@),
{
    let mut r: Vec<u32> = Vec::new();
    let mut d: usize = 0;
    while d < row.len()
        invariant
            d <= row.len(),
            r@ == raised(row@, x@).take(d as int),
        decreases row.len() - d,
    {
        let v: u32 = if d < x.len() {
            let a: u32 = abs_bits(x[d]);
            if gt(a, row[d]) {
                a
            } else {
                row[d]
            }
        } else {
            row[d]
        };
        r.push(v);
        d = d + 1;
        assert(r@ =~= raised(row@, x@).take(d as int));
    }
    assert(r@ =~= raised(row@, x@));
    r
}

impl ActStats {
    /// Statistics of which nothing has been seen.
    pub fn new(c: &Config) -> (s: ActStats)
        ensures
            s@ == (ActStatsView {
                attn: all_zero(c.n_layer as int, c.n_embd as int),
                mlp: all_zero(c.n_layer as int, c.n_embd as int),
            }),
    {
        ActStats { attn: zero_rows(c.n_layer, c.n_embd), mlp: zero_rows(c.n_layer, c.n_embd) }
    }

    /// Takes an activation that enters a linear. What enters linears that no norm feeds is
    /// not kept.
    pub fn observe(&mut self, layer: usize, site: Site, x: &[u32])
        requires
            layer < old(self)@.attn.len(),
            layer < old(self)@.mlp.len(),
        ensures
            final(self)@ == stats_after(old(self)@, layer as int, site, x@),
    {
        let ghost before = *self;
        match site {
            Site::Qkv => {
                let r: Vec<u32> = raise(&self.attn[layer], x);
                self.attn.set(layer, r);
                assert(rows_of(self.attn@) =~= rows_of(before.attn@).update(layer as int, r@));
            },
            Site::Fc => {
                let r: Vec<u32> = raise(&self.mlp[layer], x);
                self.mlp.set(layer, r);
                assert(rows_of(self.mlp@) =~= rows_of(before.mlp@).update(layer as int, r@));
            },
            _ => {},
        }
    }
}

/// A row of channels after a series of activations.
pub open spec fn observed(row: Seq<u32>, xs: Seq<Seq<u32>>) -> Seq<u32>
    decreases xs.len(),
{
    if xs.len() == 0 {
        row
    } else {
        raised(observed(row, xs.drop_last()), xs.last())
    }
}

/// One channel of a series of activations.
pub open spec fn channel(xs: Seq<Seq<u32>>, d: int) -> Seq<u32> {
    Seq::new(xs.len(), |t: int| xs[t][d])
}

/// After any series of activations a channel holds the largest magnitude that it had.
pub proof fn statistics_are_the_absmax(n: int, xs: Seq<Seq<u32>>, d: int)
    requires
        0 <= d < n,
        forall|t: int| 0 <= t < xs.len() ==> (#[trigger] xs[t]).len() == n,
    ensures
        observed(zeros(n), xs).len() == n,
        observed(zeros(n), xs)[d] == magnitude(signed_absmax(channel(xs, d))),
        !is_nan(signed_absmax(channel(xs, d))),
    decreases xs.len(),
{
    if xs.len() > 0 {
        let s = channel(xs, d);
        let m = signed_absmax(s.drop_last());
        assert forall|t: int| 0 <= t < xs.drop_last().len() implies (#[trigger] xs.drop_last()[t]).len()
            == n by {
            assert(xs.drop_last()[t] == xs[t]);
        }
        statistics_are_the_absmax(n, xs.drop_last(), d);
        assert(s.drop_last() =~= channel(xs.drop_last(), d));
        assert(s.last() == xs.last()[d]);
        assert(xs.last().len() == n);
        let cur = observed(zeros(n), xs.drop_last())[d];
        assert(cur == magnitude(m));
    }
}

/// The input widths of the sites of a model.
pub open spec fn input_widths(c: Config) -> Seq<int> {
    seq![c.n_embd as int, c.q_width(), c.n_embd as int, c.n_inter as int]
}

/// The input widths of the sites of a model.
pub fn site_widths(c: &Config) -> (w: [usize; 4])
    requires
        c.q_width() <= usize::MAX,
    ensures
        forall|s: int| 0 <= s < 4 ==> #[trigger] w@[s] == input_widths(*c)[s],
{
    let w = [c.n_embd, c.q_dim(), c.n_embd, c.n_inter];
    w
}

/// The matrix with its upper triangle mirrored into the lower one.
pub open spec fn mirrored(m: Seq<u32>, n: int) -> spec_fn(int, int) -> u32 {
    |i: int, j: int| if i <= j { at(m, n, i, j) } else { at(m, n, j, i) }
}

/// Mirrors the upper triangle of an `[n, n]` matrix into the lower one.
pub fn mirror(m: &[u32], n: usize) -> (r: Vec<u32>)
    requires
        m.len() == n * n,
    ensures
        is_matrix(r@, n as int, n as int, mirrored(m@, n as int)),
{
    let entry = |i: usize, j: usize| -> (v: u32)
        requires
            i < n,
            j < n,
            m.len() == n * n,
        ensures
            v == mirrored(m@, n as int)(i as int, j as int),
        {
            proof {
                lemma_inside(n as int, n as int, i as int, j as int);
                lemma_inside(n as int, n as int, j as int, i as int);
            }
            if i <= j {
                m[i * n + j]
            } else {
                m[j * n + i]
            }
        };
    fill(n, n, entry, Ghost(mirrored(m@, n as int)))
}

/// A mirrored matrix is symmetric and keeps the triangle that was accumulated.
pub proof fn mirrored_is_symmetric(m: Seq<u32>, r: Seq<u32>, n: int, i: int, j: int)
    requires
        is_matrix(r, n, n, mirrored(m, n)),
        0 <= i < n,
        0 <= j < n,
    ensures
        at(r, n, i, j) == at(r, n, j, i),
        i <= j ==> at(r, n, i, j) == at(m, n, i, j),
{
}

/// Per layer and site, an `[n, n]` matrix of the site's input width.
pub open spec fn square_per_site(m: Seq<Vec<Vec<u32>>>, c: Config) -> bool {
    &&& m.len() == c.n_layer
    &&& forall|l: int|
        0 <= l < m.len() ==> {
            &&& (#[trigger] m[l])@.len() == 4
            &&& forall|s: int|
                0 <= s < 4 ==> (#[trigger] m[l]@[s])@.len() == input_widths(c)[s] * input_widths(c)[s]
        }
}

/// Second-moment matrices of the activations that enter the linears.
#[derive(Debug)]
pub struct Hessians {
    /// Positions that have been seen.
    pub count: usize,
    /// Per layer and site, the `[n_in, n_in]` matrix.
    pub h: Vec<Vec<Vec<u32>>>,
    /// Input widths of the sites.
    pub n_in: [usize; 4],
}

impl Hessians {
    /// The matrices are those of a model, and each is symmetric.
    pub open spec fn wf(self, c: Config) -> bool {
        &&& square_per_site(self.h@, c)
        &&& forall|s: int| 0 <= s < 4 ==> #[trigger] self.n_in@[s] == input_widths(c)[s]
        &&& forall|l: int, s: int, i: int, j: int|
            0 <= l < c.n_layer && 0 <= s < 4 && 0 <= i < input_widths(c)[s] && 0 <= j
                < input_widths(c)[s] ==> #[trigger] at(self.h@[l]@[s]@, input_widths(c)[s], i, j)
                == at(self.h@[l]@[s]@, input_widths(c)[s], j, i)
    }

    /// The matrices whose upper triangles have been accumulated over `count` positions.
    pub fn new(c: &Config, moments: &Vec<Vec<Vec<u32>>>, count: usize) -> (r: Hessians)
        requires
            c.q_width() <= usize::MAX,
            square_per_site(moments@, *c),
        ensures
            r.wf(*c),
            r.count == count,
            forall|l: int, s: int|
                0 <= l < c.n_layer && 0 <= s < 4 ==> is_matrix(
                    #[trigger] r.h@[l]@[s]@,
                    input_widths(*c)[s],
                    input_widths(*c)[s],
                    mirrored(moments@[l]@[s]@, input_widths(*c)[s]),
                ),
    {
        let n_in = site_widths(c);
        let mut h: Vec<Vec<Vec<u32>>> = Vec::new();
        let mut l: usize = 0;
        while l < moments.len()
            invariant
                square_per_site(moments@, *c),
                forall|s: int| 0 <= s < 4 ==> #[trigger] n_in@[s] == input_widths(*c)[s],
                l <= moments.len(),
                h@.len() == l,
                forall|k: int| 0 <= k < l ==> (#[trigger] h@[k])@.len() == 4,
                forall|k: int, s: int|
                    0 <= k < l && 0 <= s < 4 ==> is_matrix(
                        #[trigger] h@[k]@[s]@,
                        input_widths(*c)[s],
                        input_widths(*c)[s],
                        mirrored(moments@[k]@[s]@, input_widths(*c)[s]),
                    ),
            decreases moments.len() - l,
        {
            let mut row: Vec<Vec<u32>> = Vec::new();
            assert(moments@[l as int]@.len() == 4);
            let mut s: usize = 0;
            while s < 4
                invariant
                    square_per_site(moments@, *c),
                    forall|s: int| 0 <= s < 4 ==> #[trigger] n_in@[s] == input_widths(*c)[s],
                    l < moments.len(),
                    moments@[l as int]@.len() == 4,
                    s <= 4,
                    row@.len() == s,
                    forall|t: int|
                        0 <= t < s ==> is_matrix(
                            #[trigger] row@[t]@,
                            input_widths(*c)[t],
                            input_widths(*c)[t],
                            mirrored(moments@[l as int]@[t]@, input_widths(*c)[t]),
                        ),
                decreases 4 - s,
            {
                assert(n_in@[s as int] == input_widths(*c)[s as int]);
                assert(moments@[l as int]@[s as int]@.len() == n_in@[s as int] * n_in@[s as int]);
                let m: Vec<u32> = mirror(&moments[l][s], n_in[s]);
                row.push(m);
                s = s + 1;
            }
            h.push(row);
            l = l + 1;
        }
        let r = Hessians { count, h, n_in };
        proof {
            assert forall|l: int, s: int, i: int, j: int|
                0 <= l < c.n_layer && 0 <= s < 4 && 0 <= i < input_widths(*c)[s] && 0 <= j
                    < input_widths(*c)[s] implies #[trigger] at(
                r.h@[l]@[s]@,
                input_widths(*c)[s],
                i,
                j,
            ) == at(r.h@[l]@[s]@, input_widths(*c)[s], j, i) by {
                mirrored_is_symmetric(moments@[l]@[s]@, r.h@[l]@[s]@, input_widths(*c)[s], i, j);
            }
        }
        r
    }
}

/// What becomes of a place of an `[n, n]` matrix of sums, of which the upper triangle is
/// kept, when an activation is seen: the product of the channels of its row and column is
/// added, unless the first of them is zero.
pub open spec fn place_after<F: Fn(u32, u32, u32) -> u32>(
    times_plus: F,
    m: Seq<u32>,
    n: int,
    x: Seq<u32>,
    r: Seq<u32>,
    a: int,
) -> bool {
    let (i, j) = (a / n, a % n);
    if i <= j && magnitude(x[i]) != 0 {
        times_plus.ensures((m[a], x[i], x[j]), r[a])
    } else {
        r[a] == m[a]
    }
}

spec fn in_row(n: int, i: int, a: int) -> bool {
    a / n == i && a % n == a - i * n
}

proof fn lemma_row(n: int, i: int)
    requires
        0 <= i < n,
    ensures
        0 <= i * n,
        i * n + n == (i + 1) * n,
        (i + 1) * n <= n * n,
        forall|a: int| i * n <= a < i * n + n ==> #[trigger] in_row(n, i, a),
{
    assert(0 <= i * n && i * n + n == (i + 1) * n && (i + 1) * n <= n * n) by (nonlinear_arith)
        requires
            0 <= i < n,
    ;
    assert forall|a: int| i * n <= a < i * n + n implies #[trigger] in_row(n, i, a) by {
        assert(a == n * i + (a - i * n)) by (nonlinear_arith);
        vstd::arithmetic::div_mod::lemma_fundamental_div_mod_converse(a, n, i, a - i * n);
    }
}

/// Adds the products of an activation to an `[n, n]` matrix of sums. `times_plus` is a sum
/// and two factors to the sum with their product added.
fn accumulate<F: Fn(u32, u32, u32) -> u32>(m: &mut Vec<u32>, n: usize, x: &[u32], times_plus: &F)
    requires
        old(m).len() == n * n,
        n <= x.len(),
        forall|a: u32, b: u32, c: u32| #[trigger] times_plus.requires((a, b, c)),
    ensures
        final(m).len() == n * n,
        forall|a: int|
            0 <= a < n * n ==> #[trigger] place_after(
                *times_plus,
                old(m)@,
                n as int,
                x@,
                final(m)@,
                a,
            ),
{
    let ghost was = m@;
    let mut i: usize = 0;
    assert(0 * n == 0) by (nonlinear_arith);
    while i < n
        invariant
            i <= n,
            n <= x.len(),
            was.len() == n * n,
            m.len() == n * n,
            forall|a: u32, b: u32, c: u32| #[trigger] times_plus.requires((a, b, c)),
            forall|a: int|
                0 <= a < i * n ==> #[trigger] place_after(*times_plus, was, n as int, x@, m@, a),
            forall|a: int| i * n <= a < n * n ==> m@[a] == was[a],
        decreases n - i,
    {
        proof {
            lemma_row(n as int, i as int);
        }
        let xi: u32 = x[i];
        if !is_zero(xi) {
            proof {
                assert forall|a: int| 0 <= a < i * n + i implies #[trigger] place_after(
                    *times_plus,
                    was,
                    n as int,
                    x@,
                    m@,
                    a,
                ) by {
                    if a >= i * n {
                        assert(in_row(n as int, i as int, a));
                    }
                }
            }
            let mut j: usize = i;
            while j < n
                invariant
                    i <= j <= n,
                    i < n,
                    n <= x.len(),
                    xi == x@[i as int],
                    magnitude(xi) != 0,
                    was.len() == n * n,
                    m.len() == n * n,
                    0 <= i * n,
                    i * n + n == (i + 1) * n,
                    (i + 1) * n <= n * n,
                    forall|a: int|
                        i * n <= a < i * n + n ==> #[trigger] in_row(n as int, i as int, a),
                    forall|a: u32, b: u32, c: u32| #[trigger] times_plus.requires((a, b, c)),
                    forall|a: int|
                        0 <= a < i * n + j ==> #[trigger] place_after(
                            *times_plus,
                            was,
                            n as int,
                            x@,
                            m@,
                            a,
                        ),
                    forall|a: int| i * n + j <= a < n * n ==> m@[a] == was[a],
                decreases n - j,
            {
                let k: usize = i * n + j;
                assert(in_row(n as int, i as int, k as int));
                let v: u32 = times_plus(m[k], xi, x[j]);
                let ghost before = m@;
                m.set(k, v);
                proof {
                    assert forall|a: int| 0 <= a < i * n + j + 1 implies #[trigger] place_after(
                        *times_plus,
                        was,
                        n as int,
                        x@,
                        m@,
                        a,
                    ) by {
                        if a < k {
                            assert(place_after(*times_plus, was, n as int, x@, before, a));
                        }
                    }
                }
                j = j + 1;
            }
        } else {
            proof {
                assert forall|a: int| 0 <= a < (i + 1) * n implies #[trigger] place_after(
                    *times_plus,
                    was,
                    n as int,
                    x@,
                    m@,
                    a,
                ) by {
                    if a >= i * n {
                        assert(in_row(n as int, i as int, a));
                    }
                }
            }
        }
        i = i + 1;
    }
}

/// Sums of products while a calibration pass runs.
#[derive(Debug)]
pub struct Moments {
    /// Positions that have been seen.
    pub count: usize,
    /// Per layer and site, the sums of the `[n_in, n_in]` matrix: the upper triangle.
    pub sums: Vec<Vec<Vec<u32>>>,
    /// Input widths of the sites.
    pub n_in: [usize; 4],
}

/// An activation at the first linear of the first layer begins a position.
pub open spec fn positions(layer: int, site: Site) -> int {
    if layer == 0 && site == Site::Qkv {
        1
    } else {
        0
    }
}

impl Moments {
    /// The sums are those of a model.
    pub open spec fn wf(self, c: Config) -> bool {
        &&& square_per_site(self.sums@, c)
        &&& forall|s: int| 0 <= s < 4 ==> #[trigger] self.n_in@[s] == input_widths(c)[s]
    }

    /// Sums of which nothing has been seen.
    pub fn new(c: &Config) -> (r: Moments)
        requires
            c.q_width() <= usize::MAX,
            forall|s: int|
                0 <= s < 4 ==> #[trigger] input_widths(*c)[s] * input_widths(*c)[s] <= usize::MAX,
        ensures
            r.wf(*c),
            r.count == 0,
            forall|l: int, s: int|
                0 <= l < c.n_layer && 0 <= s < 4 ==> (#[trigger] r.sums@[l]@[s])@ == zeros(
                    input_widths(*c)[s] * input_widths(*c)[s],
                ),
    {
        let n_in = site_widths(c);
        let mut sums: Vec<Vec<Vec<u32>>> = Vec::new();
        let mut l: usize = 0;
        while l < c.n_layer
            invariant
                forall|s: int|
                    0 <= s < 4 ==> #[trigger] input_widths(*c)[s] * input_widths(*c)[s]
                        <= usize::MAX,
                forall|s: int| 0 <= s < 4 ==> #[trigger] n_in@[s] == input_widths(*c)[s],
                l <= c.n_layer,
                sums@.len() == l,
                forall|k: int| 0 <= k < l ==> (#[trigger] sums@[k])@.len() == 4,
                forall|k: int, s: int|
                    0 <= k < l && 0 <= s < 4 ==> (#[trigger] sums@[k]@[s])@ == zeros(
                        input_widths(*c)[s] * input_widths(*c)[s],
                    ),
            decreases c.n_layer - l,
        {
            let mut row: Vec<Vec<u32>> = Vec::new();
            let mut s: usize = 0;
            while s < 4
                invariant
                    forall|s: int|
                        0 <= s < 4 ==> #[trigger] input_widths(*c)[s] * input_widths(*c)[s]
                            <= usize::MAX,
                    forall|s: int| 0 <= s < 4 ==> #[trigger] n_in@[s] == input_widths(*c)[s],
                    s <= 4,
                    row@.len() == s,
                    forall|t: int|
                        0 <= t < s ==> (#[trigger] row@[t])@ == zeros(
                            input_widths(*c)[t] * input_widths(*c)[t],
                        ),
                decreases 4 - s,
            {
                assert(n_in@[s as int] == input_widths(*c)[s as int]);
                let m: Vec<u32> = vec![0u32; n_in[s] * n_in[s]];
                assert(m@ =~= zeros(input_widths(*c)[s as int] * input_widths(*c)[s as int]));
                row.push(m);
                s = s + 1;
            }
            sums.push(row);
            l = l + 1;
        }
        Moments { count: 0, sums, n_in }
    }

    /// Takes an activation that enters a linear. `times_plus` is a sum and two factors to
    /// the sum with their product added.
    pub fn observe<F: Fn(u32, u32, u32) -> u32>(
        &mut self,
        c: &Config,
        layer: usize,
        site: Site,
        x: &[u32],
        times_plus: &F,
    )
        requires
            old(self).wf(*c),
            layer < c.n_layer,
            input_widths(*c)[site_place(site)] <= x.len(),
            old(self).count < usize::MAX,
            forall|a: u32, b: u32, d: u32| #[trigger] times_plus.requires((a, b, d)),
        ensures
            final(self).wf(*c),
            final(self).count == old(self).count + positions(layer as int, site),
            forall|l: int, s: int|
                0 <= l < c.n_layer && 0 <= s < 4 && (l != layer || s != site_place(site)) ==> (
                #[trigger] final(self).sums@[l]@[s]) == old(self).sums@[l]@[s],
            ({
                let n = input_widths(*c)[site_place(site)];
                let was = old(self).sums@[layer as int]@[site_place(site)]@;
                let now = final(self).sums@[layer as int]@[site_place(site)]@;
                forall|a: int|
                    0 <= a < n * n ==> #[trigger] place_after(*times_plus, was, n, x@, now, a)
            }),
    {
        let s: usize = site_idx(site);
        assert(self.n_in@[s as int] == input_widths(*c)[s as int]);
        let n: usize = self.n_in[s];
        assert(self.sums@[layer as int]@.len() == 4);
        assert(self.sums@[layer as int]@[s as int]@.len() == n * n);
        let row: &mut Vec<Vec<u32>> = &mut self.sums[layer];
        accumulate(&mut row[s], n, x, times_plus);
        if layer == 0 && site == Site::Qkv {
            self.count = self.count + 1;
        }
    }

    /// The matrices of all that has been seen.
    pub fn finish(&self, c: &Config) -> (r: Hessians)
        requires
            self.wf(*c),
            c.q_width() <= usize::MAX,
        ensures
            r.wf(*c),
            r.count == self.count,
            forall|l: int, s: int|
                0 <= l < c.n_layer && 0 <= s < 4 ==> is_matrix(
                    #[trigger] r.h@[l]@[s]@,
                    input_widths(*c)[s],
                    input_widths(*c)[s],
                    mirrored(self.sums@[l]@[s]@, input_widths(*c)[s]),
                ),
    {
        Hessians::new(c, &self.sums, self.count)
    }
}

/// How many positions the first windows of a pass hold.
pub open spec fn positions_run(chunk: int, limit: int, k: nat) -> int
    decreases k,
{
    if k == 0 {
        0
    } else {
        positions_run(chunk, limit, (k - 1) as nat) + window(chunk, limit, k - 1).1 - window(
            chunk,
            limit,
            k - 1,
        ).0
    }
}

proof fn lemma_positions_run(chunk: int, limit: int, k: nat)
    requires
        chunk >= 2,
        limit <= usize::MAX,
        0 < k <= window_count(chunk, limit),
    ensures
        positions_run(chunk, limit, k) == window(chunk, limit, k - 1).1,
    decreases k,
{
    windows_tile_the_pass(chunk, limit, k - 1);
    if k > 1 {
        windows_tile_the_pass(chunk, limit, k - 2);
        lemma_positions_run(chunk, limit, (k - 1) as nat);
    } else {
        assert(positions_run(chunk, limit, 0) == 0);
    }
}

/// A pass runs every token that it may, but for a last one that would stand alone in its
/// window.
pub proof fn a_pass_counts_its_tokens(chunk: int, limit: int)
    requires
        chunk >= 2,
        0 <= limit <= usize::MAX,
    ensures
        positions_run(chunk, limit, window_count(chunk, limit) as nat) == if limit % chunk == 1 {
            limit - 1
        } else {
            limit
        },
{
    let k = window_count(chunk, limit);
    if limit < 2 {
        assert(limit % chunk == limit) by (nonlinear_arith)
            requires
                0 <= limit < 2,
                chunk >= 2,
        ;
    } else {
        lemma_window_starts(chunk, limit, 0);
        assert(0 * chunk == 0) by (nonlinear_arith);
        lemma_window_starts(chunk, limit, k - 1);
        lemma_window_starts(chunk, limit, k);
        lemma_positions_run(chunk, limit, k as nat);
        windows_tile_the_pass(chunk, limit, k - 1);
        let last = limit - (k - 1) * chunk;
        assert(2 <= last <= chunk + 1);
        if last <= chunk {
            assert(limit % chunk == if last == chunk {
                0
            } else {
                last
            }) by {
                if last == chunk {
                    assert(limit == chunk * k + 0) by (nonlinear_arith)
                        requires
                            limit == (k - 1) * chunk + last,
                            last == chunk,
                    ;
                    vstd::arithmetic::div_mod::lemma_fundamental_div_mod_converse(limit, chunk, k, 0);
                } else {
                    assert(limit == chunk * (k - 1) + last) by (nonlinear_arith)
                        requires
                            limit == (k - 1) * chunk + last,
                    ;
                    vstd::arithmetic::div_mod::lemma_fundamental_div_mod_converse(
                        limit,
                        chunk,
                        k - 1,
                        last,
                    );
                }
            }
        } else {
            assert(limit == chunk * k + 1) by (nonlinear_arith)
                requires
                    limit == (k - 1) * chunk + last,
                    last == chunk + 1,
            ;
            vstd::arithmetic::div_mod::lemma_fundamental_div_mod_converse(limit, chunk, k, 1);
        }
    }
}

/// Every window but the last holds as many tokens as were asked for, and there is a window as
/// soon as there are two tokens.
pub proof fn windows_are_full(chunk: int, limit: int, i: int)
    requires
        chunk >= 2,
        0 <= limit <= usize::MAX,
        0 <= i,
    ensures
        window_count(chunk, limit) == 0 <==> limit < 2,
        i + 1 < window_count(chunk, limit) ==> window(chunk, limit, i).1 - window(chunk, limit, i).0
            == chunk,
        i + 1 == window_count(chunk, limit) && limit - window(chunk, limit, i).0 <= chunk
            ==> window(chunk, limit, i).1 == limit,
{
    if limit >= 2 {
        lemma_window_starts(chunk, limit, 0);
        assert(0 * chunk == 0) by (nonlinear_arith);
        lemma_window_starts(chunk, limit, i);
        lemma_window_starts(chunk, limit, i + 1);
    }
}

/// What enters the attention raises the statistics of the attention and what enters the MLP
/// those of the MLP, each of its own layer, channel by channel to the largest magnitude seen.
/// What enters the other linears raises none.
pub proof fn each_site_raises_its_own_statistics(
    s: ActStatsView,
    l: int,
    site: Site,
    x: Seq<u32>,
    k: int,
    d: int,
)
    requires
        0 <= l < s.attn.len(),
        0 <= l < s.mlp.len(),
        0 <= k < s.attn.len(),
        0 <= k < s.mlp.len(),
        0 <= d < s.attn[k].len(),
        0 <= d < s.mlp[k].len(),
        d < x.len(),
        !is_nan(x[d]),
        s.attn[k][d] <= 0x7f80_0000,
        s.mlp[k][d] <= 0x7f80_0000,
    ensures
        ({
            let r = stats_after(s, l, site, x);
            let size = x[d] & 0x7fff_ffff;
            &&& r.attn[k][d] == (if k == l && site == Site::Qkv && s.attn[k][d] < size {
                size
            } else {
                s.attn[k][d]
            })
            &&& r.mlp[k][d] == (if k == l && site == Site::Fc && s.mlp[k][d] < size {
                size
            } else {
                s.mlp[k][d]
            })
        }),
{
    let v = x[d];
    assert(v & 0x7fff_ffff == if v >= 0x8000_0000u32 {
        (v - 0x8000_0000u32) as u32
    } else {
        v
    }) by (bit_vector);
    assert(magnitude(v) == v & 0x7fff_ffff);
}

/// The width of what enters each linear: the embedding for the attention and for the MLP, all
/// heads together for the output projection, the inner width for the second MLP linear.
pub proof fn sites_have_the_width_of_what_enters_them(c: Config)
    ensures
        input_widths(c)[site_place(Site::Qkv)] == c.n_embd,
        input_widths(c)[site_place(Site::Proj)] == c.n_head * c.head_dim,
        input_widths(c)[site_place(Site::Fc)] == c.n_embd,
        input_widths(c)[site_place(Site::Fc2)] == c.n_inter,
        forall|a: Site, b: Site|
            #![trigger site_place(a), site_place(b)]
            site_place(a) == site_place(b) ==> a == b,
{
}

/// Under exact arithmetic, an activation adds to every sum of the upper triangle the product of
/// its two channels. The sums of the lower triangle stay.
pub proof fn sums_gather_the_products_of_channels<F: Fn(u32, u32, u32) -> u32>(
    times_plus: F,
    value: spec_fn(u32) -> int,
    was: Seq<u32>,
    n: int,
    x: Seq<u32>,
    now: Seq<u32>,
    i: int,
    j: int,
)
    requires
        forall|a: u32, b: u32, d: u32, r: u32| #[trigger]
            times_plus.ensures((a, b, d), r) ==> value(r) == value(a) + value(b) * value(d),
        value(0) == 0 && value(0x8000_0000) == 0,
        forall|a: int| 0 <= a < n * n ==> #[trigger] place_after(times_plus, was, n, x, now, a),
        0 <= i < n,
        0 <= j < n,
    ensures
        i <= j ==> value(now[i * n + j]) == value(was[i * n + j]) + value(x[i]) * value(x[j]),
        i > j ==> now[i * n + j] == was[i * n + j],
{
    let a = i * n + j;
    lemma_inside(n, n, i, j);
    assert(a == n * i + j) by (nonlinear_arith)
        requires
            a == i * n + j,
    ;
    vstd::arithmetic::div_mod::lemma_fundamental_div_mod_converse(a, n, i, j);
    assert(place_after(times_plus, was, n, x, now, a));
    if magnitude(x[i]) == 0 {
        assert(value(x[i]) == 0);
        assert(0 * value(x[j]) == 0) by (nonlinear_arith);
    }
}

} // verus!
