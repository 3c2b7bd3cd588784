//! The linears that error-feedback quantization covers, and the order in which it takes
//! their input channels.
//!
//! With act-order the channels come in descending order of the diagonal of the
//! second-moment matrix, and the weights are stored in that order; the activation is
//! gathered by the same permutation when the product is formed. Inverting the matrix and
//! feeding errors forward is floating-point arithmetic of the caller.

use crate::calib::{input_widths, site_place, Site};
use crate::floatbits::{greater, is_nan, is_zero, magnitude, nan, rank, rank_of, signed_absmax};
use crate::gptq::{identity_perm, Entry, EntryView, Role, Sidecar};
use crate::layout::{column_group, group_absmax, pack_q4, q4_at};
use crate::matrix::{at, entries_determine_the_matrix, fill, is_matrix, lemma_inside};
use crate::model::{layer_fits, Arch, Config, LayerView};
use crate::order::{before, covers, descending, in_order, is_descending};
use crate::quant::Q4_GROUP;
use vstd::prelude::*;

verus! {

/// One linear to quantize: which it is, the site whose matrix belongs to it, its widths.
#[derive(Debug, Clone, Copy, PartialEq, Eq, Structural)]
pub struct Job {
    pub role: Role,
    pub site: usize,
    pub n_in: usize,
    pub n_out: usize,
}

/// The linears of a layer. The second input projection of a gated MLP shares the matrix of
/// the first.
pub open spec fn jobs(c: Config, has_up: bool) -> Seq<Job> {
    let (e, q, qkv, inter) = (
        c.n_embd,
        c.q_width() as usize,
        c.qkv_width() as usize,
        c.n_inter,
    );
    let four = seq![
        Job { role: Role::Qkv, site: 0, n_in: e, n_out: qkv },
        Job { role: Role::Proj, site: 1, n_in: q, n_out: e },
        Job { role: Role::Fc, site: 2, n_in: e, n_out: inter },
        Job { role: Role::Fc2, site: 3, n_in: inter, n_out: e },
    ];
    if has_up {
        four.push(Job { role: Role::Up, site: 2, n_in: e, n_out: inter })
    } else {
        four
    }
}

/// The linears of a layer.
pub fn layer_jobs(c: &Config, has_up: bool) -> (v: Vec<Job>)
    requires
        c.qkv_width() <= usize::MAX,
        c.q_width() <= usize::MAX,
        c.kv_width() <= usize::MAX,
    ensures
        v@ == jobs(*c, has_up),
{
    let e: usize = c.n_embd;
    let q: usize = c.q_dim();
    let qkv: usize = c.qkv_dim();
    let inter: usize = c.n_inter;
    let mut v: Vec<Job> = Vec::new();
    v.push(Job { role: Role::Qkv, site: 0, n_in: e, n_out: qkv });
    v.push(Job { role: Role::Proj, site: 1, n_in: q, n_out: e });
    v.push(Job { role: Role::Fc, site: 2, n_in: e, n_out: inter });
    v.push(Job { role: Role::Fc2, site: 3, n_in: inter, n_out: e });
    if has_up {
        v.push(Job { role: Role::Up, site: 2, n_in: e, n_out: inter });
    }
    assert(v@ =~= jobs(*c, has_up));
    v
}

/// The matrix that a job names has the width of the job's input.
pub proof fn jobs_meet_their_matrices(c: Config, has_up: bool, i: int)
    requires
        c.q_width() <= usize::MAX,
        0 <= i < jobs(c, has_up).len(),
    ensures
        jobs(c, has_up)[i].site < 4,
        jobs(c, has_up)[i].n_in == input_widths(c)[jobs(c, has_up)[i].site as int],
{
}

/// True where the matrices have the input widths of the model's linears.
pub fn widths_match(n_in: &[usize; 4], c: &Config) -> (r: bool)
    requires
        c.q_width() <= usize::MAX,
    ensures
        r == (forall|s: int| 0 <= s < 4 ==> #[trigger] n_in@[s] == input_widths(*c)[s]),
{
    let r: bool = n_in[0] == c.n_embd && n_in[1] == c.q_dim() && n_in[2] == c.n_embd && n_in[3]
        == c.n_inter;
    proof {
        let w = input_widths(*c);
        assert(w[0] == c.n_embd && w[1] == c.q_width() && w[2] == c.n_embd && w[3] == c.n_inter);
        if r {
            assert forall|s: int| 0 <= s < 4 implies #[trigger] n_in@[s] == w[s] by {
                assert(s == 0 || s == 1 || s == 2 || s == 3);
            }
        } else {
            assert(n_in@[0] != w[0] || n_in@[1] != w[1] || n_in@[2] != w[2] || n_in@[3] != w[3]);
        }
    }
    r
}

/// How many layers are worked on at once: the wide linears need two large matrices each,
/// so few of them fit.
pub open spec fn workers(parallelism: int, c: Config) -> int {
    let cap = if c.n_inter > 4096 || c.qkv_width() > 4096 {
        2int
    } else {
        4
    };
    let layers = if c.n_layer == 0 {
        1
    } else {
        c.n_layer as int
    };
    let few = if parallelism < cap {
        parallelism
    } else {
        cap
    };
    if few < layers {
        few
    } else {
        layers
    }
}

/// How many layers are worked on at once.
pub fn worker_count(parallelism: usize, c: &Config) -> (n: usize)
    requires
        c.qkv_width() <= usize::MAX,
        c.q_width() <= usize::MAX,
        c.kv_width() <= usize::MAX,
    ensures
        n == workers(parallelism as int, *c),
{
    let cap: usize = if c.n_inter > 4096 || c.qkv_dim() > 4096 {
        2
    } else {
        4
    };
    let layers: usize = if c.n_layer == 0 {
        1
    } else {
        c.n_layer
    };
    let few: usize = if parallelism < cap {
        parallelism
    } else {
        cap
    };
    if few < layers {
        few
    } else {
        layers
    }
}

/// The diagonal of an `[n, n]` matrix, by its places in the order of numbers.
pub open spec fn diagonal_keys(h: Seq<u32>, n: int) -> Seq<i64> {
    Seq::new(n as nat, |i: int| rank(at(h, n, i, i)) as i64)
}

/// Every channel of the order is one of the `n`, and each of them occurs once.
pub open spec fn is_channel_order(perm: Seq<i32>, n: int) -> bool {
    &&& perm.len() == n
    &&& forall|k: int| 0 <= k < n ==> 0 <= #[trigger] perm[k] < n
    &&& forall|j: int, k: int| 0 <= j < k < n ==> #[trigger] perm[j] != #[trigger] perm[k]
    &&& forall|c: i32| 0 <= c < n ==> #[trigger] perm.contains(c)
}

/// The channels in descending order of the diagonal, equal ones as they stand.
pub open spec fn is_act_order(perm: Seq<i32>, h: Seq<u32>, n: int) -> bool {
    &&& perm.len() == n
    &&& is_descending(diagonal_keys(h, n), Seq::new(n as nat, |k: int| perm[k] as usize))
    &&& forall|k: int| 0 <= k < n ==> 0 <= #[trigger] perm[k] < n
}

/// The order in which the input channels are taken: descending by the diagonal with
/// act-order, as they stand without.
pub fn channel_order(h: &[u32], n: usize, act_order: bool) -> (perm: Vec<i32>)
    requires
        h.len() == n * n,
        n <= i32::MAX,
        act_order ==> forall|i: int| 0 <= i < n ==> !is_nan(#[trigger] at(h@, n as int, i, i)),
    ensures
        perm@.len() == n,
        act_order ==> is_act_order(perm@, h@, n as int),
        !act_order ==> identity_perm(perm@),
{
    let mut perm: Vec<i32> = Vec::new();
    if !act_order {
        let mut k: usize = 0;
        while k < n
            invariant
                k <= n <= i32::MAX,
                perm@.len() == k,
                identity_perm(perm@),
            decreases n - k,
        {
            perm.push(k as i32);
            k = k + 1;
        }
        return perm;
    }
    let mut keys: Vec<i64> = Vec::new();
    let mut i: usize = 0;
    while i < n
        invariant
            i <= n,
            h.len() == n * n,
            keys@ == diagonal_keys(h@, n as int).take(i as int),
        decreases n - i,
    {
        proof {
            lemma_inside(n as int, n as int, i as int, i as int);
        }
        keys.push(rank_of(h[i * n + i]));
        i = i + 1;
        assert(keys@ =~= diagonal_keys(h@, n as int).take(i as int));
    }
    assert(keys@ =~= diagonal_keys(h@, n as int));
    let p: Vec<usize> = descending(keys.as_slice());
    let mut k: usize = 0;
    while k < n
        invariant
            k <= n <= i32::MAX,
            p@.len() == n,
            covers(p@, 0, n as int),
            perm@.len() == k,
            forall|j: int| 0 <= j < k ==> #[trigger] perm@[j] == p@[j],
        decreases n - k,
    {
        assert(p@[k as int] < n);
        perm.push(p[k] as i32);
        k = k + 1;
    }
    proof {
        assert forall|j: int| 0 <= j < n implies 0 <= #[trigger] perm@[j] < n by {
            assert(p@[j] < n);
        }
        assert(Seq::new(n as nat, |j: int| perm@[j] as usize) =~= p@);
    }
    perm
}

/// Both orders take every channel once.
pub proof fn channel_orders_are_permutations(perm: Seq<i32>, h: Seq<u32>, n: int)
    requires
        perm.len() == n,
        is_act_order(perm, h, n) || identity_perm(perm),
    ensures
        is_channel_order(perm, n),
{
    if !is_act_order(perm, h, n) {
        assert forall|c: i32| 0 <= c < n implies #[trigger] perm.contains(c) by {
            assert(perm[c as int] == c);
        }
    }
    if is_act_order(perm, h, n) {
        let p = Seq::new(n as nat, |k: int| perm[k] as usize);
        let keys = diagonal_keys(h, n);
        assert(in_order(keys, p));
        assert forall|j: int, k: int| 0 <= j < k < n implies #[trigger] perm[j] != #[trigger] perm[k] by {
            assert(before(keys, p[j] as int, p[k] as int));
        }
        assert forall|c: i32| 0 <= c < n implies #[trigger] perm.contains(c) by {
            assert(p.contains(c as usize));
            let k = choose|k: int| 0 <= k < p.len() && p[k] == c as usize;
            assert(perm[k] == c);
        }
    }
}

/// The matrix with rows and columns taken in the order of the channels.
pub open spec fn permuted_sym(h: Seq<u32>, n: int, perm: Seq<i32>) -> spec_fn(int, int) -> u32 {
    |a: int, b: int| at(h, n, perm[a] as int, perm[b] as int)
}

/// The matrix with its rows taken in the order of the channels.
pub open spec fn permuted_rows(w: Seq<u32>, n_out: int, perm: Seq<i32>) -> spec_fn(int, int) -> u32 {
    |k: int, o: int| at(w, n_out, perm[k] as int, o)
}

/// Takes the rows and columns of an `[n, n]` matrix in the order of the channels.
pub fn permute_sym(h: &[u32], n: usize, perm: &[i32]) -> (hp: Vec<u32>)
    requires
        h.len() == n * n,
        perm.len() == n,
        forall|k: int| 0 <= k < n ==> 0 <= #[trigger] perm@[k] < n,
    ensures
        is_matrix(hp@, n as int, n as int, permuted_sym(h@, n as int, perm@)),
{
    let entry = |a: usize, b: usize| -> (v: u32)
        requires
            a < n,
            b < n,
            h.len() == n * n,
            perm.len() == n,
            forall|k: int| 0 <= k < n ==> 0 <= #[trigger] perm@[k] < n,
        ensures
            v == permuted_sym(h@, n as int, perm@)(a as int, b as int),
        {
            let (pa, pb): (i32, i32) = (perm[a], perm[b]);
            assert(0 <= perm@[a as int] < n && 0 <= perm@[b as int] < n);
            proof {
                lemma_inside(n as int, n as int, pa as int, pb as int);
            }
            h[pa as usize * n + pb as usize]
        };
    fill(n, n, entry, Ghost(permuted_sym(h@, n as int, perm@)))
}

/// Takes the rows of an `[n_in, n_out]` matrix in the order of the channels.
pub fn permute_rows(w: &[u32], n_in: usize, n_out: usize, perm: &[i32]) -> (wp: Vec<u32>)
    requires
        w.len() == n_in * n_out,
        perm.len() == n_in,
        forall|k: int| 0 <= k < n_in ==> 0 <= #[trigger] perm@[k] < n_in,
    ensures
        is_matrix(wp@, n_in as int, n_out as int, permuted_rows(w@, n_out as int, perm@)),
{
    let entry = |k: usize, o: usize| -> (v: u32)
        requires
            k < n_in,
            o < n_out,
            w.len() == n_in * n_out,
            perm.len() == n_in,
            forall|k: int| 0 <= k < n_in ==> 0 <= #[trigger] perm@[k] < n_in,
        ensures
            v == permuted_rows(w@, n_out as int, perm@)(k as int, o as int),
        {
            let p: i32 = perm[k];
            assert(0 <= perm@[k as int] < n_in);
            proof {
                lemma_inside(n_in as int, n_out as int, p as int, o as int);
            }
            w[p as usize * n_out + o]
        };
    fill(n_in, n_out, entry, Ghost(permuted_rows(w@, n_out as int, perm@)))
}

/// The weights that errors are fed into: column by column, channels that never carried
/// anything cleared.
pub open spec fn working(w: Seq<u32>, h: Seq<u32>, n_in: int, n_out: int) -> spec_fn(int, int) -> u32 {
    |o: int, i: int|
        if magnitude(at(h, n_in, i, i)) == 0 {
            0
        } else {
            at(w, n_out, i, o)
        }
}

/// The weights that errors are fed into, as an `[n_out, n_in]` matrix.
pub fn working_weights(w: &[u32], h: &[u32], n_in: usize, n_out: usize) -> (wc: Vec<u32>)
    requires
        w.len() == n_in * n_out,
        h.len() == n_in * n_in,
    ensures
        is_matrix(wc@, n_out as int, n_in as int, working(w@, h@, n_in as int, n_out as int)),
{
    let entry = |o: usize, i: usize| -> (v: u32)
        requires
            o < n_out,
            i < n_in,
            w.len() == n_in * n_out,
            h.len() == n_in * n_in,
        ensures
            v == working(w@, h@, n_in as int, n_out as int)(o as int, i as int),
        {
            proof {
                lemma_inside(n_in as int, n_in as int, i as int, i as int);
                lemma_inside(n_in as int, n_out as int, i as int, o as int);
            }
            if is_zero(h[i * n_in + i]) {
                0
            } else {
                w[i * n_out + o]
            }
        };
    fill(n_out, n_in, entry, Ghost(working(w@, h@, n_in as int, n_out as int)))
}

/// A linear made ready for error feedback.
#[derive(Debug)]
pub struct Prepared {
    /// The order of the channels.
    pub perm: Vec<i32>,
    /// The second-moment matrix in that order.
    pub h: Vec<u32>,
    /// The weights to feed errors into, column by column.
    pub working: Vec<u32>,
    /// Per group of channels and column, the weight of largest magnitude: the scales are
    /// taken from the weights as they were.
    pub absmax: Vec<u32>,
}

/// Puts a linear into the order of its channels and finds its groups' extremes. Nothing
/// where the input does not divide into groups.
pub fn prepare(w: &[u32], h: &[u32], n_in: usize, n_out: usize, act_order: bool) -> (r: Option<
    Prepared,
>)
    requires
        w.len() == n_in * n_out,
        h.len() == n_in * n_in,
        n_in <= i32::MAX,
        act_order ==> forall|i: int|
            0 <= i < n_in ==> !is_nan(#[trigger] at(h@, n_in as int, i, i)),
    ensures
        r is None <==> n_in % Q4_GROUP != 0,
        match r {
            None => true,
            Some(p) => is_prepared(p, w@, h@, n_in as int, n_out as int, act_order),
        },
{
    if n_in % Q4_GROUP != 0 {
        return None;
    }
    let perm: Vec<i32> = channel_order(h, n_in, act_order);
    proof {
        channel_orders_are_permutations(perm@, h@, n_in as int);
    }
    let hp: Vec<u32> = permute_sym(h, n_in, perm.as_slice());
    let wp: Vec<u32> = permute_rows(w, n_in, n_out, perm.as_slice());
    let working: Vec<u32> = working_weights(wp.as_slice(), hp.as_slice(), n_in, n_out);
    let absmax: Vec<u32> = group_absmax(wp.as_slice(), n_in, n_out, Q4_GROUP);
    let p = Prepared { perm, h: hp, working, absmax };
    assert(ready(p, wp@, n_in as int, n_out as int));
    Some(p)
}

/// The working weights and the extremes are those of the ordered weights.
pub open spec fn ready(p: Prepared, wp: Seq<u32>, n_in: int, n_out: int) -> bool {
    &&& is_matrix(p.working@, n_out, n_in, working(wp, p.h@, n_in, n_out))
    &&& p.absmax@.len() == (n_in / Q4_GROUP as int) * n_out
    &&& forall|g: int, o: int|
        0 <= g < n_in / Q4_GROUP as int && 0 <= o < n_out ==> #[trigger] p.absmax@[g * n_out + o]
            == signed_absmax(column_group(wp, n_out, g * Q4_GROUP, Q4_GROUP as int, o))
}

/// What a prepared linear holds.
pub open spec fn is_prepared(
    p: Prepared,
    w: Seq<u32>,
    h: Seq<u32>,
    n_in: int,
    n_out: int,
    act_order: bool,
) -> bool {
    &&& p.perm@.len() == n_in
    &&& if act_order {
        is_act_order(p.perm@, h, n_in)
    } else {
        identity_perm(p.perm@)
    }
    &&& is_matrix(p.h@, n_in, n_in, permuted_sym(h, n_in, p.perm@))
    &&& exists|wp: Seq<u32>|
        is_matrix(wp, n_in, n_out, permuted_rows(w, n_out, p.perm@)) && #[trigger] ready(
            p,
            wp,
            n_in,
            n_out,
        )
}

/// True where some entry of the diagonal is not a number, so that it has no order.
pub fn unordered_diagonal(h: &[u32], n: usize) -> (r: bool)
    requires
        h.len() == n * n,
    ensures
        r == !(forall|i: int| 0 <= i < n ==> !is_nan(#[trigger] at(h@, n as int, i, i))),
{
    let mut i: usize = 0;
    while i < n
        invariant
            i <= n,
            h.len() == n * n,
            forall|k: int| 0 <= k < i ==> !is_nan(#[trigger] at(h@, n as int, k, k)),
        decreases n - i,
    {
        proof {
            lemma_inside(n as int, n as int, i as int, i as int);
        }
        if nan(h[i * n + i]) {
            assert(is_nan(at(h@, n as int, i as int, i as int)));
            return true;
        }
        i = i + 1;
    }
    false
}

/// The stored form of a linear whose weights have been rounded: `nibbles` column by
/// column, `scales` group by group.
pub fn assemble(perm: Vec<i32>, nibbles: &[u8], scales: Vec<u16>, n_in: usize, n_out: usize) -> (e:
    Entry)
    requires
        n_in % 8 == 0,
        nibbles.len() == n_in * n_out,
        forall|k: int| 0 <= k < nibbles@.len() ==> #[trigger] nibbles@[k] < 16,
    ensures
        e@.perm == perm@,
        e@.scales == scales@,
        e@.q.len() == 4 * ((n_in / 8) * n_out),
        forall|i: int, o: int|
            0 <= i < n_in && 0 <= o < n_out ==> #[trigger] q4_at(e@.q, n_out as int, i, o)
                == nibbles@[o * n_in + i],
{
    let q: Vec<u8> = pack_q4(nibbles, n_in, n_out);
    Entry { q, scales, perm }
}

/// A quantized linear with its place in the model.
pub struct Done {
    pub layer: usize,
    pub role: Role,
    pub entry: Entry,
}

/// The linears by their places; where a place occurs twice the later one counts.
pub open spec fn collected(done: Seq<Done>) -> Map<(usize, Role), EntryView>
    decreases done.len(),
{
    if done.len() == 0 {
        Map::empty()
    } else {
        let d = done.last();
        collected(done.drop_last()).insert((d.layer, d.role), d.entry@)
    }
}

/// Gathers the quantized linears of all layers.
pub fn build(done: Vec<Done>) -> (s: Sidecar)
    ensures
        s.wf(),
        s@ == collected(done@),
{
    let ghost all = done@;
    let mut rest: Vec<Done> = done;
    let mut s: Sidecar = Sidecar::new();
    let ghost mut i: int = 0;
    assert(collected(all.take(0)) == Map::<(usize, Role), EntryView>::empty());
    assert(s@ =~= collected(all.take(0)));
    assert(all.skip(0) =~= all);
    while rest.len() > 0
        invariant
            0 <= i <= all.len(),
            rest@ == all.skip(i),
            s.wf(),
            s@ == collected(all.take(i)),
        decreases rest.len(),
    {
        let d: Done = rest.remove(0);
        let ghost v = d.entry@;
        proof {
            assert(all.skip(i)[0] == all[i]);
            assert(all.take(i + 1).drop_last() =~= all.take(i));
            assert(all.take(i + 1).last() == d);
            assert(rest@ =~= all.skip(i + 1));
            i = i + 1;
        }
        s.insert(d.layer, d.role, d.entry);
    }
    assert(all.take(i) =~= all);
    s
}

/// The place of a quantized linear in the model.
pub open spec fn place(d: Done) -> (usize, Role) {
    (d.layer, d.role)
}

/// The place holds a linear to quantize: a job of one of the layers, where `ups` says which
/// layers have a second input projection.
pub open spec fn wanted(c: Config, ups: Seq<bool>, p: (usize, Role)) -> bool {
    p.0 < c.n_layer && exists|k: int|
        0 <= k < jobs(c, ups[p.0 as int]).len() && (#[trigger] jobs(c, ups[p.0 as int])[k]).role
            == p.1
}

/// One quantized linear for each job of each layer, in whatever order.
pub open spec fn one_per_job(done: Seq<Done>, c: Config, ups: Seq<bool>) -> bool {
    &&& forall|i: int| 0 <= i < done.len() ==> wanted(c, ups, place(#[trigger] done[i]))
    &&& forall|i: int, j: int|
        0 <= i < j < done.len() ==> place(#[trigger] done[i]) != place(#[trigger] done[j])
    &&& forall|p: (usize, Role)| #[trigger]
        wanted(c, ups, p) ==> exists|i: int| 0 <= i < done.len() && place(#[trigger] done[i]) == p
}

/// A layer has the four linears that every layer has, and the second input projection where
/// it has one.
proof fn lemma_wanted(c: Config, ups: Seq<bool>, p: (usize, Role))
    ensures
        wanted(c, ups, p) <==> p.0 < c.n_layer && (p.1 == Role::Up ==> ups[p.0 as int]),
{
    let js = jobs(c, ups[p.0 as int]);
    assert(js[0].role == Role::Qkv);
    assert(js[1].role == Role::Proj);
    assert(js[2].role == Role::Fc);
    assert(js[3].role == Role::Fc2);
    if ups[p.0 as int] {
        assert(js[4].role == Role::Up);
    }
}

/// The keys of what is collected are the places of the list, and each holds what the only
/// item of that place brings.
proof fn lemma_collected(done: Seq<Done>)
    requires
        forall|i: int, j: int|
            0 <= i < j < done.len() ==> place(#[trigger] done[i]) != place(#[trigger] done[j]),
    ensures
        forall|i: int|
            0 <= i < done.len() ==> collected(done).contains_key(place(#[trigger] done[i]))
                && collected(done)[place(done[i])] == done[i].entry@,
        forall|p: (usize, Role)| #[trigger]
            collected(done).contains_key(p) ==> exists|i: int|
                0 <= i < done.len() && place(#[trigger] done[i]) == p,
    decreases done.len(),
{
    if done.len() > 0 {
        let front = done.drop_last();
        let last = done.len() - 1;
        assert forall|i: int, j: int| 0 <= i < j < front.len() implies place(#[trigger] front[i])
            != place(#[trigger] front[j]) by {
            assert(place(done[i]) != place(done[j]));
        }
        lemma_collected(front);
        assert forall|i: int| 0 <= i < done.len() implies collected(done).contains_key(
            place(#[trigger] done[i]),
        ) && collected(done)[place(done[i])] == done[i].entry@ by {
            if i < last {
                assert(front[i] == done[i]);
                assert(place(done[i]) != place(done[last]));
            }
        }
        assert forall|p: (usize, Role)| #[trigger] collected(done).contains_key(p) implies exists|
            i: int,
        |
            0 <= i < done.len() && place(#[trigger] done[i]) == p by {
            if p == place(done[last]) {
                assert(place(done[last]) == p);
            } else {
                assert(collected(front).contains_key(p));
                let i = choose|i: int| 0 <= i < front.len() && place(#[trigger] front[i]) == p;
                assert(place(done[i]) == p);
            }
        }
    }
}

/// A sidecar built from one quantized linear for each job of each layer holds exactly those:
/// under every layer below `n_layer` and each role of that layer's jobs what was quantized
/// for it, and nothing else.
pub proof fn sidecars_hold_every_job(done: Seq<Done>, c: Config, ups: Seq<bool>)
    requires
        one_per_job(done, c, ups),
    ensures
        forall|p: (usize, Role)| #[trigger]
            collected(done).contains_key(p) <==> wanted(c, ups, p),
        forall|l: usize, role: Role| #[trigger]
            collected(done).contains_key((l, role)) <==> l < c.n_layer && (role == Role::Up
                ==> ups[l as int]),
        forall|i: int|
            0 <= i < done.len() ==> collected(done)[place(#[trigger] done[i])] == done[i].entry@,
{
    lemma_collected(done);
    assert forall|p: (usize, Role)| #[trigger]
        collected(done).contains_key(p) <==> wanted(c, ups, p) by {
        if wanted(c, ups, p) {
            let i = choose|i: int| 0 <= i < done.len() && place(#[trigger] done[i]) == p;
            assert(collected(done).contains_key(place(done[i])));
        }
    }
    assert forall|l: usize, role: Role| #[trigger]
        collected(done).contains_key((l, role)) <==> l < c.n_layer && (role == Role::Up
            ==> ups[l as int]) by {
        lemma_wanted(c, ups, (l, role));
    }
}

/// Two lists of quantized linears that hold the same under the same places, none of them
/// twice, build the same sidecar: in which order they were finished does not matter.
pub proof fn sidecars_forget_the_order(a: Seq<Done>, b: Seq<Done>)
    requires
        forall|i: int, j: int|
            0 <= i < j < a.len() ==> place(#[trigger] a[i]) != place(#[trigger] a[j]),
        forall|i: int, j: int|
            0 <= i < j < b.len() ==> place(#[trigger] b[i]) != place(#[trigger] b[j]),
        forall|i: int|
            0 <= i < a.len() ==> exists|j: int|
                0 <= j < b.len() && place(#[trigger] b[j]) == place(#[trigger] a[i])
                    && b[j].entry@ == a[i].entry@,
        forall|j: int|
            0 <= j < b.len() ==> exists|i: int|
                0 <= i < a.len() && place(#[trigger] a[i]) == place(#[trigger] b[j]),
    ensures
        collected(a) == collected(b),
{
    lemma_collected(a);
    lemma_collected(b);
    assert forall|p: (usize, Role)| #[trigger] collected(a).contains_key(p) implies collected(
        b,
    ).contains_key(p) && collected(b)[p] == collected(a)[p] by {
        let i = choose|i: int| 0 <= i < a.len() && place(#[trigger] a[i]) == p;
        let j = choose|j: int|
            0 <= j < b.len() && place(#[trigger] b[j]) == place(a[i]) && b[j].entry@ == a[i].entry@;
        assert(collected(b).contains_key(place(b[j])));
    }
    assert forall|p: (usize, Role)| #[trigger] collected(b).contains_key(p) implies collected(
        a,
    ).contains_key(p) by {
        let j = choose|j: int| 0 <= j < b.len() && place(#[trigger] b[j]) == p;
        let i = choose|i: int| 0 <= i < a.len() && place(#[trigger] a[i]) == place(b[j]);
        assert(collected(a).contains_key(place(a[i])));
    }
    assert(collected(a) =~= collected(b));
}

/// Channels that stand in their own order leave the matrices as they are.
pub proof fn plain_order_changes_nothing(
    h: Seq<u32>,
    hp: Seq<u32>,
    w: Seq<u32>,
    wp: Seq<u32>,
    perm: Seq<i32>,
    n_in: int,
    n_out: int,
)
    requires
        0 <= n_in,
        0 <= n_out,
        perm.len() == n_in,
        identity_perm(perm),
        h.len() == n_in * n_in,
        w.len() == n_in * n_out,
        is_matrix(hp, n_in, n_in, permuted_sym(h, n_in, perm)),
        is_matrix(wp, n_in, n_out, permuted_rows(w, n_out, perm)),
    ensures
        hp == h,
        wp == w,
{
    assert(is_matrix(h, n_in, n_in, permuted_sym(h, n_in, perm)));
    entries_determine_the_matrix(hp, h, n_in, n_in, permuted_sym(h, n_in, perm));
    assert(is_matrix(w, n_in, n_out, permuted_rows(w, n_out, perm)));
    entries_determine_the_matrix(wp, w, n_in, n_out, permuted_rows(w, n_out, perm));
}

/// A sequence of numbers added up.
pub open spec fn total(s: Seq<int>) -> int {
    s.fold_right(|x: int, acc: int| acc + x, 0)
}

/// The products of two sequences, place by place.
pub open spec fn products(x: Seq<int>, w: Seq<int>) -> Seq<int> {
    Seq::new(x.len(), |i: int| x[i] * w[i])
}

/// A sequence taken in the order of the channels.
pub open spec fn gathered(x: Seq<int>, perm: Seq<i32>) -> Seq<int> {
    Seq::new(perm.len(), |k: int| x[perm[k] as int])
}

proof fn lemma_gathered_multiset(p: Seq<int>, perm: Seq<i32>)
    requires
        is_channel_order(perm, p.len() as int),
        p.len() <= i32::MAX,
    ensures
        gathered(p, perm).to_multiset() == p.to_multiset(),
    decreases p.len(),
{
    broadcast use vstd::seq_lib::group_to_multiset_ensures;

    let g = gathered(p, perm);
    if p.len() == 0 {
        assert(g =~= p);
    } else {
        let n = p.len() as int;
        let c = (n - 1) as i32;
        assert(perm.contains(c));
        let k = choose|k: int| 0 <= k < perm.len() && perm[k] == c;
        let rest = perm.remove(k);
        assert forall|d: i32| 0 <= d < n - 1 implies #[trigger] rest.contains(d) by {
            assert(perm.contains(d));
            let j = choose|j: int| 0 <= j < perm.len() && perm[j] == d;
            if j < k {
                assert(rest[j] == d);
            } else {
                assert(rest[j - 1] == d);
            }
        }
        assert forall|j: int| 0 <= j < n - 1 implies 0 <= #[trigger] rest[j] < n - 1 by {
            let i = if j < k {
                j
            } else {
                j + 1
            };
            assert(rest[j] == perm[i]);
            assert(perm[i] != perm[k]);
        }
        assert forall|i: int, j: int| 0 <= i < j < n - 1 implies #[trigger] rest[i]
            != #[trigger] rest[j] by {
            let a = if i < k {
                i
            } else {
                i + 1
            };
            let b = if j < k {
                j
            } else {
                j + 1
            };
            assert(rest[i] == perm[a] && rest[j] == perm[b]);
        }
        lemma_gathered_multiset(p.drop_last(), rest);
        assert(gathered(p.drop_last(), rest) =~= g.remove(k));
        assert(g[k] == p.last());
        assert(p =~= p.drop_last().push(p.last()));
        assert(g.remove(k).to_multiset() =~= g.to_multiset().remove(g[k]));
        assert(g.to_multiset().count(g[k]) > 0) by {
            assert(g.contains(g[k]));
        }
        assert(p.to_multiset() =~= p.drop_last().to_multiset().insert(p.last()));
        assert(g.to_multiset() =~= g.to_multiset().remove(g[k]).insert(g[k]));
    }
}

/// Taking weights and activation in the same order of channels leaves their product as it
/// is.
pub proof fn gathering_keeps_the_dot_product(x: Seq<int>, w: Seq<int>, perm: Seq<i32>)
    requires
        x.len() == w.len(),
        x.len() <= i32::MAX,
        is_channel_order(perm, x.len() as int),
    ensures
        total(products(gathered(x, perm), gathered(w, perm))) == total(products(x, w)),
{
    let p = products(x, w);
    let q = gathered(p, perm);
    assert(products(gathered(x, perm), gathered(w, perm)) =~= q);
    lemma_gathered_multiset(p, perm);
    let f = |x: int, acc: int| acc + x;
    vstd::seq_lib::lemma_fold_right_permutation(q, p, f, 0);
}

/// Every linear is quantized with the matrix of what enters it: the two input projections of a
/// gated MLP with the same. It has the widths of its tensor.
pub proof fn jobs_go_by_what_enters_them(c: Config, y: LayerView, has_up: bool, i: int)
    requires
        layer_fits(c, y),
        c.qkv_width() <= usize::MAX,
        c.q_width() <= usize::MAX,
        0 <= i < jobs(c, has_up).len(),
        has_up ==> c.arch != Arch::Gpt2,
    ensures
        ({
            let j = jobs(c, has_up)[i];
            match j.role {
                Role::Qkv => j.site == site_place(Site::Qkv) && j.n_in == c.n_embd && j.n_in
                    * j.n_out == y.qkv_w.len(),
                Role::Proj => j.site == site_place(Site::Proj) && j.n_out == c.n_embd && j.n_in
                    * j.n_out == y.proj_w.len(),
                Role::Fc => j.site == site_place(Site::Fc) && j.n_in == c.n_embd && j.n_in * j.n_out
                    == y.fc_w.len(),
                Role::Up => has_up && j.site == site_place(Site::Fc) && j.n_in == c.n_embd && j.n_in
                    * j.n_out == y.up_w.len(),
                Role::Fc2 => j.site == site_place(Site::Fc2) && j.n_out == c.n_embd && j.n_in
                    * j.n_out == y.fc2_w.len(),
            }
        }),
        forall|k: int|
            0 <= k < jobs(c, has_up).len() && k != i ==> jobs(c, has_up)[i].role != (
            #[trigger] jobs(c, has_up)[k]).role,
{
    assert(0 <= c.n_head * c.head_dim) by (nonlinear_arith);
    assert(0 <= c.n_kv_head * c.head_dim) by (nonlinear_arith);
}

/// With act-order, the diagonal of the prepared matrix descends.
pub proof fn prepared_diagonals_descend(
    p: Prepared,
    w: Seq<u32>,
    h: Seq<u32>,
    n_in: int,
    n_out: int,
    a: int,
    b: int,
)
    requires
        is_prepared(p, w, h, n_in, n_out, true),
        0 <= a < b < n_in,
    ensures
        !greater(at(p.h@, n_in, b, b), at(p.h@, n_in, a, a)),
{
    let q = Seq::new(n_in as nat, |k: int| p.perm@[k] as usize);
    let keys = diagonal_keys(h, n_in);
    assert(in_order(keys, q));
    assert(before(keys, q[a] as int, q[b] as int));
    assert(at(p.h@, n_in, a, a) == permuted_sym(h, n_in, p.perm@)(a, a));
    assert(at(p.h@, n_in, b, b) == permuted_sym(h, n_in, p.perm@)(b, b));
}

/// A prepared linear holds the weights column by column and their matrix in one and the same
/// order of the channels. A channel that was never active, the diagonal being zero there, has
/// zero weights.
pub proof fn weights_and_matrix_are_ordered_alike(
    p: Prepared,
    w: Seq<u32>,
    h: Seq<u32>,
    n_in: int,
    n_out: int,
    act_order: bool,
    a: int,
    b: int,
    o: int,
)
    requires
        is_prepared(p, w, h, n_in, n_out, act_order),
        0 <= a < n_in,
        0 <= b < n_in,
        0 <= o < n_out,
    ensures
        ({
            let (ca, cb) = (p.perm@[a] as int, p.perm@[b] as int);
            let dead = h[ca * n_in + ca] == 0 || h[ca * n_in + ca] == 0x8000_0000;
            &&& p.h@[a * n_in + b] == h[ca * n_in + cb]
            &&& p.working@[o * n_in + a] == (if dead {
                0
            } else {
                w[ca * n_out + o]
            })
            &&& !act_order ==> ca == a
        }),
{
    let wp = choose|wp: Seq<u32>|
        is_matrix(wp, n_in, n_out, permuted_rows(w, n_out, p.perm@)) && #[trigger] ready(
            p,
            wp,
            n_in,
            n_out,
        );
    assert(at(p.h@, n_in, a, b) == permuted_sym(h, n_in, p.perm@)(a, b));
    assert(at(p.h@, n_in, a, a) == permuted_sym(h, n_in, p.perm@)(a, a));
    assert(at(p.working@, n_in, o, a) == working(wp, p.h@, n_in, n_out)(o, a));
    assert(at(wp, n_out, a, o) == permuted_rows(w, n_out, p.perm@)(a, o));
}

} // verus!
