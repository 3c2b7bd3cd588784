//! Decoding as a dialogue with the device: the host decides which tokens to run and
//! what to make of the answers, the device computes them.
//!
//! Speculative decoding copies a draft from an earlier occurrence of the last few
//! tokens and lets the full model verify it at once. Only tokens that the model's own
//! greedy choice agrees with are kept, so the output is the greedy output.

use crate::engine::{Engine, MAX_SPEC_TOKENS};
use vstd::prelude::*;

verus! {

/// How candidate tokens are drafted.
#[derive(Debug, Clone, Copy, PartialEq, Eq, Structural)]
pub enum DraftStrategy {
    /// Copy what followed an earlier occurrence of the last tokens, `k` tokens at
    /// most.
    PromptLookup { k: usize },
    /// Run the first `k` layers to draft `gamma` tokens, the known one counted.
    SelfSpec { k: usize, gamma: usize },
}

/// Longest run of last tokens that is looked up.
pub const MAX_NGRAM: usize = 8;

/// The last `n` tokens occur at `i`, before their own place.
pub open spec fn recurs(h: Seq<u32>, n: int, i: int) -> bool {
    0 <= i < h.len() - n && h.subrange(i, i + n) == h.subrange(h.len() - n, h.len() as int)
}

/// Longest run that is looked up in a history of that length.
pub open spec fn longest_ngram(len: int) -> int {
    if len / 2 < MAX_NGRAM {
        len / 2
    } else {
        MAX_NGRAM as int
    }
}

/// The occurrence that is copied from: of the longest run that recurs, the latest.
pub open spec fn best_recurrence(h: Seq<u32>, n: int, i: int) -> bool {
    &&& 2 <= n <= longest_ngram(h.len() as int)
    &&& recurs(h, n, i)
    &&& forall|j: int| i < j ==> !#[trigger] recurs(h, n, j)
    &&& forall|m: int, j: int|
        n < m <= longest_ngram(h.len() as int) ==> !#[trigger] recurs(h, m, j)
}

/// Nothing recurs.
pub open spec fn nothing_recurs(h: Seq<u32>) -> bool {
    forall|m: int, j: int|
        2 <= m <= longest_ngram(h.len() as int) ==> !#[trigger] recurs(h, m, j)
}

/// The draft that is copied from the history: at most `max` tokens after the best
/// recurrence, nothing where nothing recurs.
pub open spec fn is_draft(h: Seq<u32>, max: int, r: Seq<u32>) -> bool {
    if max == 0 || h.len() < 3 || nothing_recurs(h) {
        r.len() == 0
    } else {
        exists|n: int, i: int| #[trigger]
            best_recurrence(h, n, i) && r == h.subrange(
                i + n,
                if i + n + max < h.len() {
                    i + n + max
                } else {
                    h.len() as int
                },
            )
    }
}

/// The history determines the draft.
pub proof fn draft_is_determined(h: Seq<u32>, max: int, r: Seq<u32>, s: Seq<u32>)
    requires
        is_draft(h, max, r),
        is_draft(h, max, s),
    ensures
        r == s,
{
    if !(max == 0 || h.len() < 3 || nothing_recurs(h)) {
        let (n, i) = choose|n: int, i: int| #[trigger]
            best_recurrence(h, n, i) && r == h.subrange(
                i + n,
                if i + n + max < h.len() {
                    i + n + max
                } else {
                    h.len() as int
                },
            );
        let (m, j) = choose|n: int, i: int| #[trigger]
            best_recurrence(h, n, i) && s == h.subrange(
                i + n,
                if i + n + max < h.len() {
                    i + n + max
                } else {
                    h.len() as int
                },
            );
        assert(recurs(h, n, i) && recurs(h, m, j));
        assert(n == m);
        assert(i == j);
    } else {
        assert(r =~= s);
    }
}

/// A draft is a stretch of the history, no longer than asked for.
pub proof fn draft_is_a_stretch_of_history(h: Seq<u32>, max: int, r: Seq<u32>)
    requires
        0 <= max,
        is_draft(h, max, r),
    ensures
        r.len() <= max,
        r.len() > 0 ==> exists|k: int|
            0 < k && k + r.len() <= h.len() && r == #[trigger] h.subrange(k, k + r.len()),
{
    if !(max == 0 || h.len() < 3 || nothing_recurs(h)) {
        let (n, i) = choose|n: int, i: int| #[trigger]
            best_recurrence(h, n, i) && r == h.subrange(
                i + n,
                if i + n + max < h.len() {
                    i + n + max
                } else {
                    h.len() as int
                },
            );
        assert(r == h.subrange(i + n, i + n + r.len()));
    }
}

/// The `n` tokens from `i` on are the last `n` tokens, and something follows them.
pub open spec fn echoes(h: Seq<u32>, n: int, i: int) -> bool {
    &&& 0 <= i && i + n < h.len()
    &&& forall|k: int| 0 <= k < n ==> h[i + k] == #[trigger] h[h.len() - n + k]
}

/// A run of two to eight tokens, at most half of the history, ends the history and stands
/// at `i` before.
pub open spec fn found_at(h: Seq<u32>, n: int, i: int) -> bool {
    2 <= n <= 8 && 2 * n <= h.len() && echoes(h, n, i)
}

proof fn lemma_echo(h: Seq<u32>, n: int, i: int)
    requires
        0 <= n <= h.len(),
    ensures
        recurs(h, n, i) <==> echoes(h, n, i),
{
    if 0 <= i < h.len() - n {
        let a = h.subrange(i, i + n);
        let b = h.subrange(h.len() - n, h.len() as int);
        if echoes(h, n, i) {
            assert forall|k: int| 0 <= k < n implies a[k] == b[k] by {
                assert(h[i + k] == h[h.len() - n + k]);
            }
            assert(a =~= b);
        }
        if a == b {
            assert forall|k: int| 0 <= k < n implies h[i + k] == #[trigger] h[h.len() - n + k] by {
                assert(a[k] == b[k]);
            }
        }
    }
}

/// A draft is what followed the latest occurrence of the longest run that ends the history
/// and stands earlier in it too: as many tokens as were asked for, or all up to the end of the
/// history. There is none where no such run does.
pub proof fn drafts_follow_the_latest_of_the_longest_runs(h: Seq<u32>, max: int, r: Seq<u32>)
    requires
        0 < max,
        is_draft(h, max, r),
    ensures
        r.len() == 0 <==> forall|n: int, i: int| !#[trigger] found_at(h, n, i),
        r.len() > 0 ==> exists|n: int, i: int|
            {
                &&& #[trigger] found_at(h, n, i)
                &&& forall|m: int, j: int| #[trigger] found_at(h, m, j) ==> m < n || m == n && j <= i
                &&& r.len() == (if max < h.len() - (i + n) {
                    max
                } else {
                    h.len() - (i + n)
                })
                &&& forall|k: int| 0 <= k < r.len() ==> #[trigger] r[k] == h[i + n + k]
            },
{
    assert forall|n: int, i: int|
        #[trigger] found_at(h, n, i) <==> 2 <= n <= longest_ngram(h.len() as int) && recurs(
            h,
            n,
            i,
        ) by {
        if 0 <= n <= h.len() {
            lemma_echo(h, n, i);
        }
    }
    if h.len() < 3 || nothing_recurs(h) {
        assert forall|n: int, i: int| !#[trigger] found_at(h, n, i) by {
            if found_at(h, n, i) {
                assert(recurs(h, n, i));
            }
        }
    } else {
        let (n, i) = choose|n: int, i: int| #[trigger]
            best_recurrence(h, n, i) && r == h.subrange(
                i + n,
                if i + n + max < h.len() {
                    i + n + max
                } else {
                    h.len() as int
                },
            );
        assert(found_at(h, n, i));
        assert forall|m: int, j: int| #[trigger] found_at(h, m, j) implies m < n || m == n && j
            <= i by {
            assert(recurs(h, m, j));
        }
    }
}

/// True where the last `n` tokens occur at `i`.
fn recurs_at(h: &[u32], n: usize, i: usize) -> (r: bool)
    requires
        n <= h.len(),
        i < h.len() - n,
    ensures
        r == recurs(h@, n as int, i as int),
{
    let cur: usize = h.len() - n;
    let ghost a = h@.subrange(i as int, i + n);
    let ghost b = h@.subrange(h@.len() - n, h@.len() as int);
    let mut k: usize = 0;
    while k < n
        invariant
            k <= n,
            n <= h.len(),
            i < h.len() - n,
            cur == h.len() - n,
            a == h@.subrange(i as int, i + n),
            b == h@.subrange(h@.len() - n, h@.len() as int),
            forall|j: int| 0 <= j < k ==> a[j] == b[j],
        decreases n - k,
    {
        if h[i + k] != h[cur + k] {
            assert(a[k as int] != b[k as int]);
            return false;
        }
        assert(a[k as int] == b[k as int]);
        k = k + 1;
    }
    assert(a =~= b);
    true
}

/// Copies part of a slice.
fn copy_range(h: &[u32], from: usize, to: usize) -> (v: Vec<u32>)
    requires
        from <= to <= h.len(),
    ensures
        v@ == h@.subrange(from as int, to as int),
{
    let mut v: Vec<u32> = Vec::new();
    let mut i: usize = from;
    while i < to
        invariant
            from <= i <= to <= h.len(),
            v@ == h@.subrange(from as int, i as int),
        decreases to - i,
    {
        v.push(h[i]);
        i = i + 1;
        assert(v@ =~= h@.subrange(from as int, i as int));
    }
    v
}

/// Drafts tokens by looking up the longest recent run that occurred before.
pub fn prompt_lookup(history: &[u32], max_tokens: usize) -> (r: Vec<u32>)
    ensures
        is_draft(history@, max_tokens as int, r@),
{
    let len: usize = history.len();
    if max_tokens == 0 || len < 3 {
        return Vec::new();
    }
    let max_ngram: usize = if len / 2 < MAX_NGRAM {
        len / 2
    } else {
        MAX_NGRAM
    };
    let ghost h = history@;
    let mut ngram: usize = max_ngram;
    while ngram >= 2
        invariant
            h == history@,
            len == history.len(),
            len >= 3,
            max_tokens > 0,
            max_ngram == longest_ngram(len as int),
            ngram <= max_ngram,
            forall|m: int, j: int| ngram < m <= max_ngram ==> !#[trigger] recurs(h, m, j),
        decreases ngram,
    {
        let mut i: usize = len - ngram;
        while i > 0
            invariant
                h == history@,
                len == history.len(),
                len >= 3,
                max_tokens > 0,
                max_ngram == longest_ngram(len as int),
                2 <= ngram <= max_ngram,
                i <= len - ngram,
                forall|m: int, j: int| ngram < m <= max_ngram ==> !#[trigger] recurs(h, m, j),
                forall|j: int| i <= j ==> !#[trigger] recurs(h, ngram as int, j),
            decreases i,
        {
            i = i - 1;
            if recurs_at(history, ngram, i) {
                let start: usize = i + ngram;
                let end: usize = if max_tokens < len - start {
                    start + max_tokens
                } else {
                    len
                };
                let r = copy_range(history, start, end);
                proof {
                    assert(best_recurrence(h, ngram as int, i as int));
                    assert(recurs(h, ngram as int, i as int));
                }
                return r;
            }
        }
        ngram = ngram - 1;
    }
    Vec::new()
}

/// Where speculative decoding stands.
pub struct Speculation {
    /// Prompt and output so far.
    history: Vec<u32>,
    /// Length of the prompt.
    prompt_len: usize,
    /// The model's greedy choice after the history.
    greedy: u32,
    n_new: usize,
    spec_k: usize,
}

/// What a `Speculation` holds.
#[verifier::ext_equal]
pub struct SpecView {
    pub history: Seq<u32>,
    pub prompt_len: int,
    pub greedy: u32,
    pub n_new: int,
    pub spec_k: int,
}

impl View for Speculation {
    type V = SpecView;

    closed spec fn view(&self) -> SpecView {
        SpecView {
            history: self.history@,
            prompt_len: self.prompt_len as int,
            greedy: self.greedy,
            n_new: self.n_new as int,
            spec_k: self.spec_k as int,
        }
    }
}

impl SpecView {
    /// The tokens decoded so far.
    pub open spec fn out(self) -> Seq<u32> {
        self.history.skip(self.prompt_len)
    }

    /// Number of tokens decoded so far.
    pub open spec fn done(self) -> int {
        self.history.len() - self.prompt_len
    }

    /// The prompt.
    pub open spec fn prompt(self) -> Seq<u32> {
        self.history.take(self.prompt_len)
    }

    /// Sizes are in order.
    pub open spec fn wf(self) -> bool {
        &&& 0 <= self.prompt_len <= self.history.len()
        &&& self.done() <= self.n_new
        &&& self.spec_k > 0
    }

    /// Most tokens that may be drafted now.
    pub open spec fn room(self) -> int {
        let left = if self.n_new - self.done() < MAX_SPEC_TOKENS {
            self.n_new - self.done()
        } else {
            MAX_SPEC_TOKENS as int
        };
        if self.spec_k < left {
            self.spec_k
        } else {
            left
        }
    }

    /// After a token is decoded and run on its own, with the greedy choice after it.
    pub open spec fn after_forward(self, greedy: u32) -> SpecView {
        SpecView { history: self.history.push(self.greedy), greedy, ..self }
    }

    /// After a draft is verified: what was accepted of it is decoded, and the row of
    /// the last accepted token gives the greedy choice.
    pub open spec fn after_verify(self, draft: Seq<u32>, rows: Seq<u32>) -> SpecView {
        let a = accepted(draft, rows);
        SpecView { history: self.history + draft.take(a), greedy: rows[a - 1], ..self }
    }
}

/// Every drafted token up to there is the greedy choice after the one before it.
pub open spec fn agrees(draft: Seq<u32>, rows: Seq<u32>, a: int) -> bool {
    forall|j: int| 1 <= j < a ==> rows[j - 1] == #[trigger] draft[j]
}

/// Number of drafted tokens that are accepted: the first, which is known to be right,
/// and those after it as long as the rows agree.
pub open spec fn accepted(draft: Seq<u32>, rows: Seq<u32>) -> int {
    choose|a: int| stops_at(draft, rows, a)
}

/// The rows agree up to there and no further.
pub open spec fn stops_at(draft: Seq<u32>, rows: Seq<u32>, a: int) -> bool {
    &&& 1 <= a <= draft.len()
    &&& agrees(draft, rows, a)
    &&& (a == draft.len() || rows[a - 1] != draft[a])
}

/// The number of accepted tokens is determined.
proof fn lemma_accepted(draft: Seq<u32>, rows: Seq<u32>, a: int)
    requires
        stops_at(draft, rows, a),
    ensures
        accepted(draft, rows) == a,
{
    let b = accepted(draft, rows);
    assert(stops_at(draft, rows, b));
    if a < b {
        assert(rows[a - 1] == draft[a]);
    } else if b < a {
        assert(rows[b - 1] == draft[b]);
    }
}

/// What to ask the device next.
pub enum SpecAction {
    /// Everything is decoded.
    Done,
    /// The token is decoded; run it at the position and answer with the greedy choice
    /// after it.
    Forward { tok: u32, pos: usize },
    /// Verify the draft from the position on and answer with the greedy choice after
    /// each of its tokens.
    Verify { draft: Vec<u32>, pos: usize },
}

impl Speculation {
    /// Starts after the prompt has been run: `first` is the greedy choice after it.
    pub fn start(prompt: &[u32], first: u32, n_new: usize, spec_k: usize) -> (s: Speculation)
        requires
            spec_k > 0,
            prompt.len() + n_new <= usize::MAX,
        ensures
            s@.wf(),
            s@ == (SpecView {
                history: prompt@,
                prompt_len: prompt@.len() as int,
                greedy: first,
                n_new: n_new as int,
                spec_k: spec_k as int,
            }),
    {
        let history = copy_range(prompt, 0, prompt.len());
        assert(history@ =~= prompt@);
        Speculation { history, prompt_len: prompt.len(), greedy: first, n_new, spec_k }
    }

    /// What to ask the device next. The state does not change until the answer comes.
    pub fn next(&self) -> (a: SpecAction)
        requires
            self@.wf(),
        ensures
            match a {
                SpecAction::Done => self@.done() == self@.n_new,
                SpecAction::Forward { tok, pos } => {
                    &&& self@.done() < self@.n_new
                    &&& tok == self@.greedy
                    &&& pos == self@.history.len()
                    &&& exists|d: Seq<u32>| #[trigger]
                        is_draft(self@.history, self@.room(), d) && (d.len() == 0 || d[0]
                            != self@.greedy)
                },
                SpecAction::Verify { draft, pos } => {
                    &&& self@.done() < self@.n_new
                    &&& is_draft(self@.history, self@.room(), draft@)
                    &&& draft@.len() > 0
                    &&& draft@[0] == self@.greedy
                    &&& pos == self@.history.len()
                },
            },
    {
        let out_len: usize = self.history.len() - self.prompt_len;
        if out_len == self.n_new {
            return SpecAction::Done;
        }
        let left: usize = if self.n_new - out_len < MAX_SPEC_TOKENS {
            self.n_new - out_len
        } else {
            MAX_SPEC_TOKENS
        };
        let room: usize = if self.spec_k < left {
            self.spec_k
        } else {
            left
        };
        let draft = prompt_lookup(&self.history, room);
        assert(is_draft(self@.history, self@.room(), draft@));
        if draft.len() == 0 || draft[0] != self.greedy {
            SpecAction::Forward { tok: self.greedy, pos: self.history.len() }
        } else {
            SpecAction::Verify { draft, pos: self.history.len() }
        }
    }

    /// Takes the answer to `Forward`.
    pub fn forwarded(&mut self, greedy: u32)
        requires
            old(self)@.wf(),
            old(self)@.done() < old(self)@.n_new,
        ensures
            final(self)@.wf(),
            final(self)@ == old(self)@.after_forward(greedy),
    {
        let tok: u32 = self.greedy;
        self.history.push(tok);
        self.greedy = greedy;
    }

    /// Takes the answer to `Verify` and returns how many drafted tokens were accepted.
    pub fn verified(&mut self, draft: &[u32], rows: &[u32]) -> (a: usize)
        requires
            old(self)@.wf(),
            0 < draft.len() <= old(self)@.n_new - old(self)@.done(),
            rows.len() == draft.len(),
        ensures
            final(self)@.wf(),
            a == accepted(draft@, rows@),
            1 <= a <= draft.len(),
            agrees(draft@, rows@, a as int),
            final(self)@ == old(self)@.after_verify(draft@, rows@),
    {
        let ghost start = self.history@;
        let mut a: usize = 1;
        while a < draft.len() && rows[a - 1] == draft[a]
            invariant
                1 <= a <= draft.len(),
                rows.len() == draft.len(),
                agrees(draft@, rows@, a as int),
            decreases draft.len() - a,
        {
            a = a + 1;
        }
        proof {
            lemma_accepted(draft@, rows@, a as int);
        }
        let mut i: usize = 0;
        assert(start + draft@.take(0) =~= start);
        while i < a
            invariant
                i <= a <= draft.len(),
                self.history@ == start + draft@.take(i as int),
                self.prompt_len == old(self).prompt_len,
                self.n_new == old(self).n_new,
                self.spec_k == old(self).spec_k,
            decreases a - i,
        {
            self.history.push(draft[i]);
            i = i + 1;
            assert(self.history@ =~= start + draft@.take(i as int));
        }
        self.greedy = rows[a - 1];
        a
    }

    /// The tokens decoded so far.
    pub fn output(&self) -> (v: Vec<u32>)
        requires
            self@.wf(),
        ensures
            v@ == self@.out(),
    {
        let v = copy_range(&self.history, self.prompt_len, self.history.len());
        assert(v@ =~= self@.out());
        v
    }
}

/// Greedy decoding of `n` tokens after a prompt: each is the model's choice after
/// everything before it.
pub open spec fn greedy_run(next: spec_fn(Seq<u32>) -> u32, prompt: Seq<u32>, n: nat) -> Seq<u32>
    decreases n,
{
    if n == 0 {
        Seq::empty()
    } else {
        let before = greedy_run(next, prompt, (n - 1) as nat);
        before.push(next(prompt + before))
    }
}

/// Every token of a greedy run is the model's choice after the prompt and the tokens of the
/// run before it.
pub proof fn greedy_runs_take_each_choice(
    next: spec_fn(Seq<u32>) -> u32,
    prompt: Seq<u32>,
    n: nat,
    k: int,
)
    requires
        0 <= k < n,
    ensures
        greedy_run(next, prompt, n).len() == n,
        greedy_run(next, prompt, n)[k] == next(prompt + greedy_run(next, prompt, n).take(k)),
    decreases n,
{
    let before = greedy_run(next, prompt, (n - 1) as nat);
    let run = greedy_run(next, prompt, n);
    if n > 1 {
        greedy_runs_take_each_choice(next, prompt, (n - 1) as nat, if k < n - 1 {
            k
        } else {
            0
        });
    }
    assert(before.len() == n - 1);
    assert(run.take(k) =~= before.take(k));
    if k == n - 1 {
        assert(before.take(k) =~= before);
    }
}

/// A verified draft is kept up to the first token that is not the choice after the token
/// before it, and no further. Its first token is kept in any case.
pub proof fn drafts_are_kept_while_they_agree(draft: Seq<u32>, rows: Seq<u32>, k: int)
    requires
        0 < draft.len() == rows.len(),
        0 <= k < draft.len(),
    ensures
        1 <= accepted(draft, rows) <= draft.len(),
        k < accepted(draft, rows) <==> forall|j: int|
            1 <= j <= k ==> #[trigger] draft[j] == rows[j - 1],
{
    lemma_stop_exists(draft, rows, draft.len() as int);
    let a = accepted(draft, rows);
    assert(stops_at(draft, rows, a));
    if k < a {
        assert forall|j: int| 1 <= j <= k implies #[trigger] draft[j] == rows[j - 1] by {
            assert(rows[j - 1] == draft[j]);
        }
    } else {
        assert(draft[a] != rows[a - 1]);
    }
}

proof fn lemma_stop_exists(draft: Seq<u32>, rows: Seq<u32>, n: int)
    requires
        1 <= n <= draft.len(),
    ensures
        agrees(draft, rows, n) || exists|a: int| #[trigger] stops_at(draft, rows, a),
        n == draft.len() ==> exists|a: int| #[trigger] stops_at(draft, rows, a),
    decreases n,
{
    if n > 1 {
        lemma_stop_exists(draft, rows, n - 1);
        if agrees(draft, rows, n - 1) {
            if rows[n - 2] != draft[n - 1] {
                assert(stops_at(draft, rows, n - 1));
            } else {
                assert(agrees(draft, rows, n));
            }
        }
    }
    if n == draft.len() && agrees(draft, rows, n) {
        assert(stops_at(draft, rows, n));
    }
}

/// What has been decoded is the greedy output so far, and the pending token is the
/// model's choice after it.
pub open spec fn on_greedy_path(s: SpecView, next: spec_fn(Seq<u32>) -> u32) -> bool {
    &&& s.wf()
    &&& s.out() == greedy_run(next, s.prompt(), s.done() as nat)
    &&& s.greedy == next(s.history)
}

/// The device's rows for a draft are the model's choices after each of its tokens.
pub open spec fn truthful_rows(
    h: Seq<u32>,
    draft: Seq<u32>,
    rows: Seq<u32>,
    next: spec_fn(Seq<u32>) -> u32,
) -> bool {
    &&& rows.len() == draft.len()
    &&& forall|j: int| 0 <= j < rows.len() ==> #[trigger] rows[j] == next(h + draft.take(j + 1))
}

proof fn lemma_extend_greedy(s: SpecView, next: spec_fn(Seq<u32>) -> u32, greedy: u32)
    requires
        on_greedy_path(s, next),
        s.done() < s.n_new,
        greedy == next(s.history.push(s.greedy)),
    ensures
        on_greedy_path(s.after_forward(greedy), next),
        s.after_forward(greedy).prompt() == s.prompt(),
{
    let t = s.after_forward(greedy);
    assert(t.prompt() =~= s.prompt());
    assert(s.prompt() + s.out() =~= s.history);
    assert(t.out() =~= s.out().push(s.greedy));
    assert(t.done() == s.done() + 1);
}

/// Decoding starts on the greedy path.
pub proof fn speculation_starts_greedy(s: SpecView, next: spec_fn(Seq<u32>) -> u32)
    requires
        s.wf(),
        s.done() == 0,
        s.greedy == next(s.history),
    ensures
        on_greedy_path(s, next),
{
    assert(s.out() =~= Seq::empty());
}

/// Running the pending token on its own keeps to the greedy path.
pub proof fn forward_keeps_greedy(s: SpecView, next: spec_fn(Seq<u32>) -> u32, answer: u32)
    requires
        on_greedy_path(s, next),
        s.done() < s.n_new,
        answer == next(s.history.push(s.greedy)),
    ensures
        on_greedy_path(s.after_forward(answer), next),
        s.after_forward(answer).prompt() == s.prompt(),
        s.after_forward(answer).done() == s.done() + 1,
{
    lemma_extend_greedy(s, next, answer);
}

/// Accepting what the model agrees with keeps to the greedy path, whatever was
/// drafted: a draft can save work but never change the output.
pub proof fn verification_keeps_greedy(
    s: SpecView,
    next: spec_fn(Seq<u32>) -> u32,
    draft: Seq<u32>,
    rows: Seq<u32>,
)
    requires
        on_greedy_path(s, next),
        0 < draft.len() <= s.n_new - s.done(),
        draft[0] == s.greedy,
        truthful_rows(s.history, draft, rows, next),
    ensures
        on_greedy_path(s.after_verify(draft, rows), next),
        s.after_verify(draft, rows).prompt() == s.prompt(),
        s.after_verify(draft, rows).done() == s.done() + accepted(draft, rows),
        1 <= accepted(draft, rows) <= draft.len(),
{
    lemma_accepted_exists(draft, rows);
    let a = accepted(draft, rows);
    lemma_accept_prefix(s, next, draft, rows, a);
}

/// Some number of drafted tokens is accepted.
proof fn lemma_accepted_exists(draft: Seq<u32>, rows: Seq<u32>)
    requires
        0 < draft.len(),
    ensures
        1 <= accepted(draft, rows) <= draft.len(),
        agrees(draft, rows, accepted(draft, rows)),
{
    let a = first_stop(draft, rows, 1);
    lemma_first_stop(draft, rows, 1);
    lemma_accepted(draft, rows, a);
}

/// The first place from `a` on where the rows stop agreeing with the draft.
spec fn first_stop(draft: Seq<u32>, rows: Seq<u32>, a: int) -> int
    decreases draft.len() - a,
{
    if a >= draft.len() || rows[a - 1] != draft[a] {
        a
    } else {
        first_stop(draft, rows, a + 1)
    }
}

proof fn lemma_first_stop(draft: Seq<u32>, rows: Seq<u32>, a: int)
    requires
        1 <= a <= draft.len(),
        agrees(draft, rows, a),
    ensures
        a <= first_stop(draft, rows, a) <= draft.len(),
        agrees(draft, rows, first_stop(draft, rows, a)),
        first_stop(draft, rows, a) == draft.len() || rows[first_stop(draft, rows, a) - 1]
            != draft[first_stop(draft, rows, a)],
    decreases draft.len() - a,
{
    if !(a >= draft.len() || rows[a - 1] != draft[a]) {
        assert(agrees(draft, rows, a + 1));
        lemma_first_stop(draft, rows, a + 1);
    }
}

/// The state after `a` drafted tokens are taken.
spec fn taken(s: SpecView, draft: Seq<u32>, rows: Seq<u32>, a: int) -> SpecView {
    SpecView { history: s.history + draft.take(a), greedy: rows[a - 1], ..s }
}

proof fn lemma_accept_prefix(
    s: SpecView,
    next: spec_fn(Seq<u32>) -> u32,
    draft: Seq<u32>,
    rows: Seq<u32>,
    a: int,
)
    requires
        on_greedy_path(s, next),
        0 < draft.len() <= s.n_new - s.done(),
        draft[0] == s.greedy,
        truthful_rows(s.history, draft, rows, next),
        1 <= a <= draft.len(),
        agrees(draft, rows, a),
    ensures
        on_greedy_path(taken(s, draft, rows, a), next),
        taken(s, draft, rows, a).prompt() == s.prompt(),
    decreases a,
{
    let h = s.history;
    assert(rows[a - 1] == next(h + draft.take(a)));
    if a == 1 {
        assert(h + draft.take(1) =~= h.push(s.greedy));
        lemma_extend_greedy(s, next, rows[0]);
        assert(taken(s, draft, rows, 1) == s.after_forward(rows[0]));
    } else {
        assert(agrees(draft, rows, a - 1));
        lemma_accept_prefix(s, next, draft, rows, a - 1);
        let t = taken(s, draft, rows, a - 1);
        assert(rows[a - 2] == draft[a - 1]);
        assert(t.greedy == draft[a - 1]);
        assert(t.history.push(t.greedy) =~= h + draft.take(a));
        lemma_extend_greedy(t, next, rows[a - 1]);
        assert(taken(s, draft, rows, a) =~= t.after_forward(rows[a - 1]));
    }
}

/// Speculative decoding is lossless: when everything is decoded, the output is the
/// model's greedy output for the prompt, token for token.
pub proof fn speculative_decoding_is_lossless(s: SpecView, next: spec_fn(Seq<u32>) -> u32)
    requires
        on_greedy_path(s, next),
        s.done() == s.n_new,
    ensures
        s.out() == greedy_run(next, s.prompt(), s.n_new as nat),
{
}

/// Every request to the device stays inside the space for prompt and output, and a
/// draft is never longer than one verification takes.
pub proof fn requests_stay_in_context(s: SpecView, draft: Seq<u32>)
    requires
        s.wf(),
        s.done() < s.n_new,
        is_draft(s.history, s.room(), draft),
    ensures
        s.history.len() < s.prompt_len + s.n_new,
        s.history.len() + draft.len() <= s.prompt_len + s.n_new,
        draft.len() <= MAX_SPEC_TOKENS,
        draft.len() <= s.spec_k,
        draft.len() <= s.n_new - s.done(),
{
    draft_is_a_stretch_of_history(s.history, s.room(), draft);
}

impl Engine {
    /// Starts the decode part of speculation, after the prompt has been run: `first` is the
    /// greedy choice after it. Prompt and output together fit the context.
    pub fn speculative_loop(
        &self,
        prompt: &[u32],
        first: u32,
        n_new: usize,
        spec_k: usize,
    ) -> (s: Speculation)
        requires
            prompt.len() + n_new <= self.config.n_ctx,
            spec_k > 0,
        ensures
            s@.wf(),
            s@ == (SpecView {
                history: prompt@,
                prompt_len: prompt@.len() as int,
                greedy: first,
                n_new: n_new as int,
                spec_k: spec_k as int,
            }),
    {
        Speculation::start(prompt, first, n_new, spec_k)
    }
}

/// An engine can plan every request of a run that fits its context: one decode step, or the
/// verification of the draft.
pub proof fn engines_can_plan_requests(e: Engine, s: SpecView, draft: Seq<u32>)
    requires
        e.wf(),
        e.gptq_act_order || e.batchable(),
        s.wf(),
        s.prompt_len + s.n_new <= e.config.n_ctx,
        s.done() < s.n_new,
        is_draft(s.history, s.room(), draft),
    ensures
        s.history.len() < e.config.n_ctx,
        draft.len() <= MAX_SPEC_TOKENS,
        s.history.len() + draft.len() <= e.config.n_ctx,
        draft.len() > 0 ==> e.gptq_act_order || e.batch_ok(
            draft.len() as int,
            s.history.len() as int,
        ),
{
    requests_stay_in_context(s, draft);
}

/// Where plain decoding stands: one token is picked from the logits, decoded and run.
pub struct Generation {
    out: Vec<u32>,
    pos: usize,
    n_new: usize,
}

impl Generation {
    /// The tokens decoded so far.
    pub closed spec fn out(self) -> Seq<u32> {
        self.out@
    }

    /// The position of the next token.
    pub closed spec fn pos(self) -> int {
        self.pos as int
    }

    /// The number of tokens to decode.
    pub closed spec fn n_new(self) -> int {
        self.n_new as int
    }

    /// Sizes are in order.
    pub closed spec fn wf(self) -> bool {
        self.out@.len() <= self.n_new && self.pos + (self.n_new - self.out@.len()) <= usize::MAX
    }

    /// Starts after the prompt has been run.
    pub fn start(prompt_len: usize, n_new: usize) -> (g: Generation)
        requires
            prompt_len > 0,
            prompt_len + n_new <= usize::MAX,
        ensures
            g.wf(),
            g.out() == Seq::<u32>::empty(),
            g.pos() == prompt_len,
            g.n_new() == n_new,
    {
        Generation { out: Vec::new(), pos: prompt_len, n_new }
    }

    /// True while tokens are missing.
    pub fn wants_more(&self) -> (r: bool)
        requires
            self.wf(),
        ensures
            r == (self.out().len() < self.n_new()),
    {
        self.out.len() < self.n_new
    }

    /// Takes the token picked from the logits and returns the position to run it at.
    pub fn decoded(&mut self, tok: u32) -> (pos: usize)
        requires
            old(self).wf(),
            old(self).out().len() < old(self).n_new(),
        ensures
            final(self).wf(),
            final(self).out() == old(self).out().push(tok),
            final(self).pos() == old(self).pos() + 1,
            final(self).n_new() == old(self).n_new(),
            pos == old(self).pos(),
    {
        let pos: usize = self.pos;
        self.out.push(tok);
        self.pos = pos + 1;
        pos
    }

    /// The tokens decoded.
    pub fn output(self) -> (v: Vec<u32>)
        ensures
            v@ == self.out(),
    {
        self.out
    }
}

/// One more greedy token: decoding the model's choice after everything so far keeps
/// the output the greedy output.
pub proof fn generation_extends_greedy(
    next: spec_fn(Seq<u32>) -> u32,
    prompt: Seq<u32>,
    out: Seq<u32>,
    tok: u32,
)
    requires
        out == greedy_run(next, prompt, out.len()),
        tok == next(prompt + out),
    ensures
        out.push(tok) == greedy_run(next, prompt, out.len() + 1),
{
}

/// One window of tokens that is run together: from, to.
pub open spec fn is_window(n: int, ctx: int, from: int, to: int) -> bool {
    0 <= from && from + 1 < n && to == (if from + ctx < n {
        from + ctx
    } else {
        n
    })
}

/// Window `k` begins with the last token of the one before, the first with the first
/// token.
pub open spec fn window_at(r: Seq<(usize, usize)>, n: int, ctx: int, k: int) -> bool {
    &&& is_window(n, ctx, r[k].0 as int, r[k].1 as int)
    &&& r[k].0 == (if k == 0 {
        0
    } else {
        r[k - 1].1 - 1
    })
}

/// The windows follow one another from the first token to the last.
pub open spec fn covers_text(r: Seq<(usize, usize)>, n: int, ctx: int) -> bool {
    &&& r.len() > 0 ==> r.last().1 == n
    &&& forall|k: int| 0 <= k < r.len() ==> #[trigger] window_at(r, n, ctx, k)
}

/// The windows that a text is scored in: each runs up to `ctx` tokens, and the next
/// one begins with the last token of the one before, so that every token but the
/// first is scored once.
pub fn score_windows(n: usize, ctx: usize) -> (r: Vec<(usize, usize)>)
    requires
        ctx >= 2,
    ensures
        n <= 1 ==> r@.len() == 0,
        n >= 2 ==> r@.len() > 0,
        covers_text(r@, n as int, ctx as int),
{
    let mut r: Vec<(usize, usize)> = Vec::new();
    let mut start: usize = 0;
    while n >= 1 && start < n - 1
        invariant
            ctx >= 2,
            n >= 1 ==> start <= n - 1,
            n == 0 ==> start == 0,
            n <= 1 ==> r@.len() == 0,
            r@.len() == 0 ==> start == 0,
            r@.len() > 0 ==> start == r@.last().1 - 1,
            forall|k: int|
                0 <= k < r@.len() ==> #[trigger] window_at(r@, n as int, ctx as int, k),
        decreases n - start,
    {
        let end: usize = if ctx < n - start {
            start + ctx
        } else {
            n
        };
        let ghost before = r@;
        r.push((start, end));
        proof {
            assert forall|k: int| 0 <= k < r@.len() implies #[trigger] window_at(
                r@,
                n as int,
                ctx as int,
                k,
            ) by {
                if k < before.len() {
                    assert(window_at(before, n as int, ctx as int, k));
                }
            }
        }
        start = end - 1;
    }
    r
}

/// Token `t` is scored in a window: it is run after another token of the window.
pub open spec fn scored_in(w: (usize, usize), t: int) -> bool {
    w.0 < t < w.1
}

/// Every token but the first is scored in exactly one window, and the first in none.
pub proof fn every_token_is_scored_once(r: Seq<(usize, usize)>, n: int, ctx: int, t: int)
    requires
        ctx >= 2,
        n >= 2,
        0 <= t < n,
        r.len() > 0,
        covers_text(r, n, ctx),
    ensures
        t == 0 ==> forall|k: int| 0 <= k < r.len() ==> !scored_in(#[trigger] r[k], t),
        t > 0 ==> exists|k: int|
            0 <= k < r.len() && scored_in(#[trigger] r[k], t) && forall|j: int|
                0 <= j < r.len() && scored_in(#[trigger] r[j], t) ==> j == k,
{
    assert forall|k: int| 0 <= k < r.len() && t == 0 implies !scored_in(#[trigger] r[k], t) by {
        assert(window_at(r, n, ctx, k));
    }
    if t > 0 {
        let k = lemma_window_of(r, n, ctx, t, r.len() - 1);
        assert forall|j: int| 0 <= j < r.len() && scored_in(#[trigger] r[j], t) implies j == k by {
            if j < k {
                lemma_windows_ordered(r, n, ctx, j, k);
            } else if k < j {
                lemma_windows_ordered(r, n, ctx, k, j);
            }
        }
    }
}

proof fn lemma_window_of(r: Seq<(usize, usize)>, n: int, ctx: int, t: int, last: int) -> (k: int)
    requires
        ctx >= 2,
        0 <= last < r.len(),
        0 < t < r[last].1,
        forall|k: int| 0 <= k < r.len() ==> #[trigger] window_at(r, n, ctx, k),
    ensures
        0 <= k < r.len(),
        scored_in(r[k], t),
    decreases last,
{
    assert(window_at(r, n, ctx, last));
    if r[last].0 < t {
        last
    } else {
        lemma_window_of(r, n, ctx, t, last - 1)
    }
}

proof fn lemma_windows_ordered(r: Seq<(usize, usize)>, n: int, ctx: int, j: int, k: int)
    requires
        ctx >= 2,
        0 <= j < k < r.len(),
        forall|k: int| 0 <= k < r.len() ==> #[trigger] window_at(r, n, ctx, k),
    ensures
        r[j].1 <= r[k].0 + 1,
    decreases k,
{
    assert(window_at(r, n, ctx, k));
    if j < k - 1 {
        lemma_windows_ordered(r, n, ctx, j, k - 1);
        assert(window_at(r, n, ctx, k - 1));
    }
}

/// Every window but the last holds as many tokens as the context does, and the last ends with
/// the text.
pub proof fn score_windows_are_full(r: Seq<(usize, usize)>, n: int, ctx: int, k: int)
    requires
        ctx >= 2,
        covers_text(r, n, ctx),
        0 <= k < r.len(),
    ensures
        r[k].1 - r[k].0 <= ctx,
        k + 1 < r.len() ==> r[k].1 - r[k].0 == ctx,
        k + 1 == r.len() ==> r[k].1 == n,
{
    assert(window_at(r, n, ctx, k));
    if k + 1 < r.len() {
        assert(window_at(r, n, ctx, k + 1));
    }
}

/// A draft may have as many tokens as are still wanted, as were asked for, and as can be
/// verified at once: the fewest of the three.
pub proof fn drafts_have_room(s: SpecView)
    requires
        s.wf(),
    ensures
        s.room() <= s.n_new - s.out().len(),
        s.room() <= s.spec_k,
        s.room() <= MAX_SPEC_TOKENS,
        s.room() == s.n_new - s.out().len() || s.room() == s.spec_k || s.room() == MAX_SPEC_TOKENS,
{
}

} // verus!
