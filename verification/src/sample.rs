//! Token sampling on the host: greedy, or among the likeliest candidates with
//! temperature, top-k and top-p.
//!
//! The probabilities themselves are floating-point arithmetic and are computed by the
//! caller; ordering the candidates, cutting them down and picking one by a drawn
//! fraction happens here.

use crate::floatbits::{
    argmax, argmax_index, greater, gt, is_nan, nan, rank, total_rank, total_rank_of, SIGN,
};
use crate::order::{before, covers, descending, in_order, is_descending};
use crate::random::{next_fraction, scrambled, stepped, upper24};
use vstd::prelude::*;

verus! {

/// Pattern of one.
pub const ONE: u32 = 0x3f80_0000;

/// How the next token is chosen.
#[derive(Debug, Clone, Copy, PartialEq, Eq, Structural)]
pub struct Sampler {
    /// Temperature; zero or less means greedy.
    pub temp: u32,
    /// Candidates kept; zero keeps all.
    pub top_k: usize,
    /// Cumulative probability kept; one or more keeps all.
    pub top_p: u32,
    /// State of the generator.
    pub rng: u64,
}

/// A token that may be picked.
#[derive(Debug, Clone, Copy, PartialEq, Eq, Structural)]
pub struct Candidate {
    pub id: u32,
    pub logit: u32,
}

/// What a sampler makes of a row of logits.
#[derive(Debug)]
pub enum Choice {
    /// Greedy decoding: this token.
    Token(u32),
    /// One of these, the likeliest first.
    Among(Vec<Candidate>),
}

/// The places of the logits in descending order, all patterns told apart.
pub open spec fn logit_keys(logits: Seq<u32>) -> Seq<i64> {
    Seq::new(logits.len(), |i: int| total_rank(logits[i]) as i64)
}

/// How many candidates top-k keeps of `n`.
pub open spec fn kept(top_k: int, n: int) -> int {
    if 0 < top_k < n {
        top_k
    } else {
        n
    }
}

/// The candidates are the first places of the descending order.
pub open spec fn are_candidates(logits: Seq<u32>, top_k: int, c: Seq<Candidate>) -> bool {
    exists|p: Seq<usize>|
        #[trigger] is_descending(logit_keys(logits), p) && c == Seq::new(
            kept(top_k, logits.len() as int) as nat,
            |i: int| (Candidate { id: p[i] as u32, logit: logits[p[i] as int] }),
        )
}

/// The cumulative probability reaches `top_p`.
pub open spec fn reached(cum: u32, top_p: u32) -> bool {
    !is_nan(cum) && !is_nan(top_p) && rank(cum) >= rank(top_p)
}

/// The nucleus has `n` candidates: the shortest beginning whose cumulative probability
/// reaches `top_p`, and all of them where none does or where `top_p` is not below one.
pub open spec fn is_nucleus(cum: Seq<u32>, top_p: u32, n: int) -> bool {
    let cuts = greater(ONE, top_p);
    &&& 0 <= n <= cum.len()
    &&& forall|i: int| 0 <= i < n - 1 ==> !(cuts && reached(#[trigger] cum[i], top_p))
    &&& n < cum.len() ==> n > 0 && cuts && reached(cum[n - 1], top_p)
    &&& n == 0 ==> cum.len() == 0
}

/// The drawn point falls to candidate `k` of the first `n`: the first one whose
/// cumulative probability is above the point, the last where none is.
pub open spec fn falls_to(cum: Seq<u32>, n: int, point: u32, k: int) -> bool {
    &&& 0 <= k < n
    &&& forall|i: int| 0 <= i < k ==> !greater(#[trigger] cum[i], point)
    &&& k < n - 1 ==> greater(cum[k], point)
}

impl Sampler {
    /// The sampler stays with the argmax: its temperature is a number that is not
    /// above zero.
    pub open spec fn always_greedy(self) -> bool {
        !is_nan(self.temp) && rank(self.temp) <= 0
    }

    /// Greedy decoding.
    pub fn greedy() -> (s: Sampler)
        ensures
            s == (Sampler { temp: 0, top_k: 0, top_p: ONE, rng: 0 }),
            s.always_greedy(),
    {
        Sampler { temp: 0, top_k: 0, top_p: ONE, rng: 0 }
    }

    /// Sampling with a temperature, a top-k and a top-p. A generator is never started at
    /// zero, where it would stay.
    pub fn new(temp: u32, top_k: usize, top_p: u32, seed: u64) -> (s: Sampler)
        ensures
            s == (Sampler { temp, top_k, top_p, rng: if seed == 0 { 1 } else { seed } }),
    {
        Sampler { temp, top_k, top_p, rng: if seed == 0 { 1 } else { seed } }
    }

    /// The sampler that options ask for: greedy unless the temperature is above zero.
    pub fn from_options(temp: u32, top_k: usize, top_p: u32, seed: u64) -> (s: Sampler)
        ensures
            s == (if greater(temp, 0) {
                Sampler { temp, top_k, top_p, rng: if seed == 0 { 1 } else { seed } }
            } else {
                Sampler { temp: 0, top_k: 0, top_p: ONE, rng: 0 }
            }),
            s.always_greedy() == !greater(temp, 0),
    {
        if gt(temp, 0) {
            Sampler::new(temp, top_k, top_p, seed)
        } else {
            Sampler::greedy()
        }
    }

    /// True where the sampler stays with the argmax.
    pub fn is_greedy(&self) -> (r: bool)
        ensures
            r == self.always_greedy(),
    {
        !nan(self.temp) && (self.temp >= SIGN || self.temp == 0)
    }

    /// Draws the next fraction, as a numerator over `2^24`.
    pub fn draw(&mut self) -> (r: u32)
        ensures
            *final(self) == (Sampler { rng: stepped(old(self).rng), ..*old(self) }),
            r == upper24(scrambled(stepped(old(self).rng))),
            r < 0x100_0000,
    {
        let mut state: u64 = self.rng;
        let r: u32 = next_fraction(&mut state);
        self.rng = state;
        r
    }

    /// The argmax for a greedy sampler, and the candidates for another.
    pub fn pick(&self, logits: &[u32]) -> (c: Choice)
        ensures
            match c {
                Choice::Token(t) => self.always_greedy() && t == argmax_index(logits@) as u32,
                Choice::Among(c) => !self.always_greedy() && are_candidates(
                    logits@,
                    self.top_k as int,
                    c@,
                ),
            },
    {
        if self.is_greedy() {
            return Choice::Token(argmax(logits));
        }
        let mut keys: Vec<i64> = Vec::new();
        let mut i: usize = 0;
        while i < logits.len()
            invariant
                i <= logits.len(),
                keys@ == logit_keys(logits@.take(i as int)),
            decreases logits.len() - i,
        {
            keys.push(total_rank_of(logits[i]));
            i = i + 1;
            assert(keys@ =~= logit_keys(logits@.take(i as int)));
        }
        assert(logits@.take(i as int) =~= logits@);
        let p: Vec<usize> = descending(keys.as_slice());
        let n: usize = if 0 < self.top_k && self.top_k < logits.len() {
            self.top_k
        } else {
            logits.len()
        };
        let mut c: Vec<Candidate> = Vec::new();
        let mut i: usize = 0;
        while i < n
            invariant
                i <= n <= logits.len(),
                p@.len() == logits@.len(),
                is_descending(logit_keys(logits@), p@),
                c@ == Seq::new(
                    i as nat,
                    |j: int| (Candidate { id: p@[j] as u32, logit: logits@[p@[j] as int] }),
                ),
            decreases n - i,
        {
            let x: usize = p[i];
            c.push(Candidate { id: x as u32, logit: logits[x] });
            i = i + 1;
            assert(c@ =~= Seq::new(
                i as nat,
                |j: int| (Candidate { id: p@[j] as u32, logit: logits@[p@[j] as int] }),
            ));
        }
        Choice::Among(c)
    }

    /// How many of the candidates make up the nucleus, given the cumulative
    /// probabilities.
    pub fn nucleus(&self, cum: &[u32]) -> (n: usize)
        ensures
            is_nucleus(cum@, self.top_p, n as int),
    {
        if !gt(ONE, self.top_p) {
            return cum.len();
        }
        let mut i: usize = 0;
        while i < cum.len()
            invariant
                i <= cum.len(),
                greater(ONE, self.top_p),
                forall|j: int| 0 <= j < i ==> !reached(#[trigger] cum@[j], self.top_p),
            decreases cum.len() - i,
        {
            if !nan(cum[i]) && !gt(self.top_p, cum[i]) {
                return i + 1;
            }
            i = i + 1;
        }
        cum.len()
    }
}

/// The token that a point of the cumulative scale falls to, among the first `n`
/// candidates.
pub fn select(candidates: &[Candidate], cum: &[u32], n: usize, point: u32) -> (id: u32)
    requires
        0 < n <= candidates@.len(),
        candidates@.len() == cum@.len(),
    ensures
        exists|k: int| #[trigger] falls_to(cum@, n as int, point, k) && id == candidates@[k].id,
{
    let mut i: usize = 0;
    while i < n - 1
        invariant
            i <= n - 1,
            0 < n <= candidates@.len(),
            candidates@.len() == cum@.len(),
            n <= candidates.len(),
            candidates.len() == cum.len(),
            forall|j: int| 0 <= j < i ==> !greater(#[trigger] cum@[j], point),
        decreases n - i,
    {
        if gt(cum[i], point) {
            assert(falls_to(cum@, n as int, point, i as int));
            return candidates[i].id;
        }
        i = i + 1;
    }
    assert(falls_to(cum@, n as int, point, i as int));
    candidates[i].id
}

/// The nucleus is determined by the cumulative probabilities.
pub proof fn nucleus_is_unique(cum: Seq<u32>, top_p: u32, m: int, n: int)
    requires
        is_nucleus(cum, top_p, m),
        is_nucleus(cum, top_p, n),
    ensures
        m == n,
{
    if m < n {
        assert(!(greater(ONE, top_p) && reached(cum[m - 1], top_p)));
    }
    if n < m {
        assert(!(greater(ONE, top_p) && reached(cum[n - 1], top_p)));
    }
}

/// A point falls to one candidate.
pub proof fn selection_is_unique(cum: Seq<u32>, n: int, point: u32, j: int, k: int)
    requires
        falls_to(cum, n, point, j),
        falls_to(cum, n, point, k),
    ensures
        j == k,
{
    if j < k {
        assert(!greater(cum[j], point));
    }
    if k < j {
        assert(!greater(cum[k], point));
    }
}

/// The nucleus is cut off at the first candidate at which the cumulative probability is no
/// longer below `top_p`, that candidate included. Nothing is cut off where `top_p` is one or
/// more, or where the probabilities stay below it.
pub proof fn nucleus_ends_where_the_probability_is_reached(
    cum: Seq<u32>,
    top_p: u32,
    n: int,
    i: int,
)
    requires
        is_nucleus(cum, top_p, n),
        !is_nan(top_p),
        forall|k: int| 0 <= k < cum.len() ==> !is_nan(#[trigger] cum[k]),
        0 <= i < cum.len(),
    ensures
        !greater(0x3f80_0000, top_p) ==> n == cum.len(),
        greater(0x3f80_0000, top_p) ==> (i < n <==> forall|j: int|
            0 <= j < i ==> greater(top_p, #[trigger] cum[j])),
{
    if greater(ONE, top_p) {
        if i < n {
            assert forall|j: int| 0 <= j < i implies greater(top_p, #[trigger] cum[j]) by {
                assert(!reached(cum[j], top_p));
            }
        } else {
            assert(reached(cum[n - 1], top_p));
            assert(!greater(top_p, cum[n - 1]));
        }
    } else if n < cum.len() {
        assert(reached(cum[n - 1], top_p));
    }
}

/// As many candidates are kept as top-k says, all of them where it is zero or more than there
/// are, and none twice.
pub proof fn as_many_candidates_are_kept_as_asked_for(
    logits: Seq<u32>,
    top_k: int,
    c: Seq<Candidate>,
    i: int,
    j: int,
)
    requires
        0 <= top_k,
        are_candidates(logits, top_k, c),
        logits.len() <= u32::MAX,
        0 <= i < j < c.len(),
    ensures
        c.len() == (if top_k == 0 || logits.len() < top_k {
            logits.len() as int
        } else {
            top_k
        }),
        c[i].id != c[j].id,
{
    let keys = logit_keys(logits);
    let p = choose|p: Seq<usize>|
        #[trigger] is_descending(keys, p) && c == Seq::new(
            kept(top_k, logits.len() as int) as nat,
            |i: int| (Candidate { id: p[i] as u32, logit: logits[p[i] as int] }),
        );
    assert(covers(p, 0, logits.len() as int));
    assert(in_order(keys, p));
    assert(p[i] != p[j]);
}

/// Candidates carry their own logits and come in descending order, and no logit that
/// top-k drops is above one that it keeps.
pub proof fn kept_candidates_are_the_largest(
    logits: Seq<u32>,
    top_k: int,
    c: Seq<Candidate>,
    i: int,
    x: int,
)
    requires
        are_candidates(logits, top_k, c),
        logits.len() <= u32::MAX,
        0 <= i < c.len(),
        0 <= x < logits.len(),
        forall|k: int| 0 <= k <= i ==> (#[trigger] c[k]).id != x,
    ensures
        c[i].id < logits.len(),
        c[i].logit == logits[c[i].id as int],
        total_rank(logits[x]) <= total_rank(c[i].logit),
{
    let keys = logit_keys(logits);
    let p = choose|p: Seq<usize>|
        #[trigger] is_descending(keys, p) && c == Seq::new(
            kept(top_k, logits.len() as int) as nat,
            |i: int| (Candidate { id: p[i] as u32, logit: logits[p[i] as int] }),
        );
    assert(covers(p, 0, logits.len() as int));
    assert(in_order(keys, p));
    assert(p.contains(x as usize));
    let j = choose|j: int| 0 <= j < p.len() && p[j] == x as usize;
    if j <= i {
        assert(c[j].id == x);
    }
    assert(before(keys, p[i] as int, p[j] as int));
}

} // verus!
