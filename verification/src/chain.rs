//! A three-state hidden Markov model over the per-row frequencies of a
//! candidate delimiter, decoded with the Viterbi algorithm.
//!
//! The states say whether the frequency is steady and strict (every row has
//! the same count), steady but flexible (rows vary, as in ragged CSV), or
//! unsteady (the byte is no delimiter).  Likelihoods are kept as integer
//! costs: a cost is the negative base-2 logarithm of a probability in
//! thousandths of a bit, and `None` is a step of probability zero.  A lower
//! cost is a likelier path.
//!
//! Costs are rounded to whole thousandths of a bit, so they can rank two
//! nearly equally likely paths otherwise than exact probabilities (or
//! floating-point ones) would: two hundred zero rows of a flexible chain cost
//! 200 * 3322 = 664400, where the exact cost is 200 * 3321.93, about 664386, and a
//! tie between rounded costs goes to the earlier chain.  On the other hand a
//! cost never underflows, however long the sample, where a product of
//! floating-point probabilities eventually reaches zero and can no longer
//! tell paths apart.
use vstd::prelude::*;

verus! {

/// Number of hidden states.
pub const N_STATES: usize = 3;
/// Every row holds the delimiter the same number of times.
pub const STATE_STEADYSTRICT: usize = 0;
/// Rows hold the delimiter a varying number of times.
pub const STATE_STEADYFLEX: usize = 1;
/// The frequency follows no pattern.
pub const STATE_UNSTEADY: usize = 2;

/// An observation equal to the largest one of the chain.
pub const OBS_MAXVALUE: usize = 0;
/// A nonzero observation below the largest one.
pub const OBS_OTHER: usize = 1;
/// An observation of zero.
pub const OBS_ZERO: usize = 2;

/// An upper bound on the cost of one step (a transition and an emission),
/// and on the cost of the start.
pub const STEP_BOUND: u128 = 10000;

// ---------------------------------------------------------------------------
// The model
// ---------------------------------------------------------------------------

/// Cost of starting in `s`: the three states are equally likely.
pub open spec fn start_cost_spec(s: int) -> int {
    1585
}

/// Cost of moving from `p` to `s`: staying has probability 0.98, each move 0.01.
pub open spec fn trans_cost_spec(p: int, s: int) -> int {
    if p == s {
        29
    } else {
        6644
    }
}

/// Cost of state `s` emitting an observation of class `c`.
pub open spec fn emit_cost_spec(s: int, c: int) -> Option<int> {
    if s == STATE_STEADYSTRICT {
        if c == OBS_MAXVALUE {
            Some(0)
        } else {
            None
        }
    } else if s == STATE_STEADYFLEX {
        if c == OBS_MAXVALUE {
            Some(737)
        } else if c == OBS_OTHER {
            Some(1737)
        } else {
            Some(3322)
        }
    } else {
        Some(1585)
    }
}

/// The class of an observation, relative to the largest one of its chain.
pub open spec fn obs_class_spec(o: usize, max: usize) -> int {
    if o == max {
        OBS_MAXVALUE as int
    } else if o == 0 {
        OBS_ZERO as int
    } else {
        OBS_OTHER as int
    }
}

/// Sum of two costs; impossible if either is.
pub open spec fn add_cost_spec(a: Option<int>, b: Option<int>) -> Option<int> {
    match (a, b) {
        (Some(x), Some(y)) => Some(x + y),
        _ => None,
    }
}

/// `a` is strictly likelier than `b`.
pub open spec fn less_cost_spec(a: Option<int>, b: Option<int>) -> bool {
    match (a, b) {
        (Some(x), Some(y)) => x < y,
        (Some(_), None) => true,
        _ => false,
    }
}

/// The first of three states with the least cost.
pub open spec fn pick_best_spec(c0: Option<int>, c1: Option<int>, c2: Option<int>) -> int {
    let b: int = if less_cost_spec(c1, c0) {
        1
    } else {
        0
    };
    let cb = if b == 1 {
        c1
    } else {
        c0
    };
    if less_cost_spec(c2, cb) {
        2
    } else {
        b
    }
}

/// The cost of `costs[i]` for a state index `i` below three.
pub open spec fn cost_of3(c0: Option<int>, c1: Option<int>, c2: Option<int>, i: int) -> Option<int> {
    if i == 0 {
        c0
    } else if i == 1 {
        c1
    } else {
        c2
    }
}

/// The least cost of a state sequence that covers the first `t` observations
/// and ends in `s` (the sequence has `t + 1` states: a start state and one
/// state per observation).
pub open spec fn cost_at(obs: Seq<usize>, max: usize, t: nat, s: int) -> Option<int>
    decreases t,
{
    if t == 0 {
        Some(start_cost_spec(s))
    } else {
        let tp = (t - 1) as nat;
        let c0 = add_cost_spec(cost_at(obs, max, tp, 0), Some(trans_cost_spec(0, s)));
        let c1 = add_cost_spec(cost_at(obs, max, tp, 1), Some(trans_cost_spec(1, s)));
        let c2 = add_cost_spec(cost_at(obs, max, tp, 2), Some(trans_cost_spec(2, s)));
        add_cost_spec(
            cost_of3(c0, c1, c2, pick_best_spec(c0, c1, c2)),
            emit_cost_spec(s, obs_class_spec(obs[tp as int], max)),
        )
    }
}

/// The cost of reaching `s` at step `t + 1` through `p` at step `t`.
pub open spec fn via_cost(obs: Seq<usize>, max: usize, t: nat, p: int, s: int) -> Option<int> {
    add_cost_spec(cost_at(obs, max, t, p), Some(trans_cost_spec(p, s)))
}

/// The predecessor that the decoder keeps for `s` at step `t` (`t >= 1`).
pub open spec fn prev_at(obs: Seq<usize>, max: usize, t: nat, s: int) -> int {
    let tp = (t - 1) as nat;
    pick_best_spec(via_cost(obs, max, tp, 0, s), via_cost(obs, max, tp, 1, s), via_cost(obs, max, tp, 2, s))
}

/// The largest observation (zero for none).
pub open spec fn seq_max(obs: Seq<usize>) -> usize
    decreases obs.len(),
{
    if obs.len() == 0 {
        0
    } else {
        let m = seq_max(obs.drop_last());
        if obs.last() > m {
            obs.last()
        } else {
            m
        }
    }
}

/// The state in which the likeliest path over all observations ends.
pub open spec fn final_state(obs: Seq<usize>) -> int {
    let n = obs.len();
    let max = seq_max(obs);
    pick_best_spec(cost_at(obs, max, n, 0), cost_at(obs, max, n, 1), cost_at(obs, max, n, 2))
}

/// The state at step `k` of the decoded path (`k <= obs.len()`).
pub open spec fn path_state(obs: Seq<usize>, k: nat) -> int
    decreases obs.len() - k,
{
    if k >= obs.len() {
        final_state(obs)
    } else {
        prev_at(obs, seq_max(obs), k + 1, path_state(obs, k + 1))
    }
}

/// The cost of a given state sequence `q` over the first `q.len() - 1`
/// observations.
pub open spec fn seq_cost(obs: Seq<usize>, max: usize, q: Seq<int>) -> Option<int>
    decreases q.len(),
{
    if q.len() <= 1 {
        Some(start_cost_spec(q[0]))
    } else {
        let t = q.len() - 1;
        add_cost_spec(
            add_cost_spec(seq_cost(obs, max, q.drop_last()), Some(trans_cost_spec(q[t - 1], q[t]))),
            emit_cost_spec(q[t], obs_class_spec(obs[t - 1], max)),
        )
    }
}

/// All entries of `q` name a state.
pub open spec fn valid_states(q: Seq<int>) -> bool {
    forall|i: int| 0 <= i < q.len() ==> 0 <= #[trigger] q[i] < N_STATES
}

// ---------------------------------------------------------------------------
// Executable model
// ---------------------------------------------------------------------------

/// One cell of the Viterbi table: the least cost of reaching a state, and the
/// state it was reached from.
#[derive(Clone, Copy, Debug, PartialEq, Eq, Structural)]
pub struct VIteration {
    /// Least cost of reaching the state; `None` when it cannot be reached.
    pub cost: Option<u128>,
    /// The predecessor on a least-cost path; `None` at the start.
    pub prev: Option<usize>,
}

/// The view of an executable cost.
pub open spec fn cost_view(c: Option<u128>) -> Option<int> {
    match c {
        Some(x) => Some(x as int),
        None => None,
    }
}

/// The view of a predecessor.
pub open spec fn prev_view(p: Option<usize>) -> Option<int> {
    match p {
        Some(x) => Some(x as int),
        None => None,
    }
}

/// The decoded path of a chain, and its largest observation.
#[derive(Debug)]
pub struct ViterbiResults {
    /// The largest observation of the chain.
    pub max_delim_freq: usize,
    /// One entry per step, the start first: the state and its table cell.
    pub path: Vec<(usize, VIteration)>,
}

/// The per-row frequencies of one candidate delimiter.
#[derive(Debug)]
pub struct Chain {
    observations: Vec<usize>,
}

impl View for Chain {
    type V = Seq<usize>;

    closed spec fn view(&self) -> Seq<usize> {
        self.observations@
    }
}

fn start_cost(s: usize) -> (c: u128)
    ensures
        c == start_cost_spec(s as int),
{
    1585
}

fn trans_cost(p: usize, s: usize) -> (c: u128)
    ensures
        c == trans_cost_spec(p as int, s as int),
{
    if p == s {
        29
    } else {
        6644
    }
}

fn emit_cost(s: usize, c: usize) -> (e: Option<u128>)
    ensures
        cost_view(e) == emit_cost_spec(s as int, c as int),
{
    if s == STATE_STEADYSTRICT {
        if c == OBS_MAXVALUE {
            Some(0)
        } else {
            None
        }
    } else if s == STATE_STEADYFLEX {
        if c == OBS_MAXVALUE {
            Some(737)
        } else if c == OBS_OTHER {
            Some(1737)
        } else {
            Some(3322)
        }
    } else {
        Some(1585)
    }
}

fn obs_class(o: usize, max: usize) -> (c: usize)
    ensures
        c == obs_class_spec(o, max),
        c < 3,
{
    if o == max {
        OBS_MAXVALUE
    } else if o == 0 {
        OBS_ZERO
    } else {
        OBS_OTHER
    }
}

fn add_cost(a: Option<u128>, b: Option<u128>) -> (c: Option<u128>)
    requires
        a matches Some(x) ==> x <= u128::MAX / 2,
        b matches Some(y) ==> y <= u128::MAX / 2,
    ensures
        cost_view(c) == add_cost_spec(cost_view(a), cost_view(b)),
{
    match (a, b) {
        (Some(x), Some(y)) => Some(x + y),
        _ => None,
    }
}

pub fn less_cost(a: Option<u128>, b: Option<u128>) -> (r: bool)
    ensures
        r == less_cost_spec(cost_view(a), cost_view(b)),
{
    match (a, b) {
        (Some(x), Some(y)) => x < y,
        (Some(_), None) => true,
        _ => false,
    }
}

fn pick_best(c0: Option<u128>, c1: Option<u128>, c2: Option<u128>) -> (b: usize)
    ensures
        b == pick_best_spec(cost_view(c0), cost_view(c1), cost_view(c2)),
        b < 3,
{
    let b: usize = if less_cost(c1, c0) {
        1
    } else {
        0
    };
    let cb = if b == 1 {
        c1
    } else {
        c0
    };
    if less_cost(c2, cb) {
        2
    } else {
        b
    }
}

/// Every reachable cost after `t` observations is at most `(t + 1)` step bounds.
pub proof fn lemma_cost_bound(obs: Seq<usize>, max: usize, t: nat, s: int)
    ensures
        cost_at(obs, max, t, s) matches Some(c) ==> 0 <= c <= (t + 1) * STEP_BOUND,
    decreases t,
{
    if t > 0 {
        let tp = (t - 1) as nat;
        lemma_cost_bound(obs, max, tp, 0);
        lemma_cost_bound(obs, max, tp, 1);
        lemma_cost_bound(obs, max, tp, 2);
    }
}

/// The largest value of a nonempty prefix, computed by a loop.
fn max_observation(obs: &Vec<usize>) -> (m: usize)
    ensures
        m == seq_max(obs@),
{
    let mut m: usize = 0;
    let mut i: usize = 0;
    while i < obs.len()
        invariant
            i <= obs.len(),
            m == seq_max(obs@.take(i as int)),
        decreases obs.len() - i,
    {
        assert(obs@.take(i + 1).drop_last() =~= obs@.take(i as int));
        if obs[i] > m {
            m = obs[i];
        }
        i = i + 1;
    }
    assert(obs@.take(obs.len() as int) =~= obs@);
    m
}

impl Chain {
    /// A chain without observations.
    pub fn new() -> (c: Chain)
        ensures
            c@ == Seq::<usize>::empty(),
    {
        Chain { observations: Vec::new() }
    }

    /// Appends the frequency observed in the next row.
    pub fn add_observation(&mut self, obs: usize)
        ensures
            final(self)@ == old(self)@.push(obs),
    {
        self.observations.push(obs);
    }

    /// Decodes the likeliest state sequence of the chain.
    ///
    /// With no observations the path is empty.  When every observation is
    /// zero, the path is the single unsteady state, reached with probability
    /// zero.  Otherwise the path has one entry per observation plus the start,
    /// follows the predecessors that the table keeps, and ends in the
    /// likeliest final state.
    pub fn viterbi(&self) -> (res: ViterbiResults)
        ensures
            res.max_delim_freq == seq_max(self@),
            self@.len() == 0 ==> res.path@.len() == 0,
            self@.len() > 0 && seq_max(self@) == 0 ==> res.path@ == seq![
                (STATE_UNSTEADY, VIteration { cost: None, prev: None }),
            ],
            self@.len() > 0 && seq_max(self@) > 0 ==> {
                &&& res.path@.len() == self@.len() + 1
                &&& forall|k: int|
                    0 <= k <= self@.len() ==> {
                        let (st, it) = #[trigger] res.path@[k];
                        &&& st == path_state(self@, k as nat)
                        &&& cost_view(it.cost) == cost_at(self@, seq_max(self@), k as nat, st as int)
                        &&& k > 0 ==> prev_view(it.prev) == Some(
                            prev_at(self@, seq_max(self@), k as nat, st as int),
                        )
                        &&& k == 0 ==> it.prev is None
                    }
            },
    {
        let obs = &self.observations;
        let n = obs.len();
        if n == 0 {
            return ViterbiResults { max_delim_freq: 0, path: Vec::new() };
        }
        let max_value = max_observation(obs);
        if max_value == 0 {
            let mut path = Vec::new();
            path.push((STATE_UNSTEADY, VIteration { cost: None, prev: None }));
            return ViterbiResults { max_delim_freq: max_value, path };
        }
        let ghost o = obs@;
        let mut iterations: Vec<Vec<VIteration>> = Vec::new();
        let mut first: Vec<VIteration> = Vec::new();
        let mut s: usize = 0;
        while s < N_STATES
            invariant
                s <= N_STATES,
                first@.len() == s,
                forall|j: int|
                    0 <= j < s ==> cost_view((#[trigger] first@[j]).cost) == cost_at(o, max_value, 0, j)
                        && first@[j].prev is None,
            decreases N_STATES - s,
        {
            first.push(VIteration { cost: Some(start_cost(s)), prev: None });
            s = s + 1;
        }
        let ghost first_v = first@;
        iterations.push(first);
        assert(iterations@[0]@ == first_v);
        assert forall|j: int| 0 <= j < N_STATES implies (#[trigger] iterations@[0]@[j]).prev is None by {
            assert(first_v[j].prev is None);
        }
        let mut t: usize = 0;
        while t < n
            invariant
                n == obs.len(),
                o == obs@,
                max_value == seq_max(o),
                t <= n,
                iterations@.len() == t + 1,
                forall|k: int|
                    0 <= k <= t ==> (#[trigger] iterations@[k])@.len() == N_STATES,
                forall|k: int, j: int|
                    0 <= k <= t && 0 <= j < N_STATES ==> cost_view(
                        (#[trigger] iterations@[k]@[j]).cost,
                    ) == cost_at(o, max_value, k as nat, j),
                forall|k: int, j: int|
                    0 < k <= t && 0 <= j < N_STATES ==> prev_view((#[trigger] iterations@[k]@[j]).prev)
                        == Some(prev_at(o, max_value, k as nat, j)),
                forall|j: int| 0 <= j < N_STATES ==> (#[trigger] iterations@[0]@[j]).prev is None,
            decreases n - t,
        {
            let class = obs_class(obs[t], max_value);
            let mut row: Vec<VIteration> = Vec::new();
            let mut s: usize = 0;
            proof {
                lemma_cost_bound(o, max_value, t as nat, 0);
                lemma_cost_bound(o, max_value, t as nat, 1);
                lemma_cost_bound(o, max_value, t as nat, 2);
                assert(iterations@[t as int]@.len() == N_STATES);
            }
            while s < N_STATES
                invariant
                    s <= N_STATES,
                    t < n,
                    n == obs.len(),
                    o == obs@,
                    max_value == seq_max(o),
                    class == obs_class_spec(o[t as int], max_value),
                    iterations@.len() == t + 1,
                    iterations@[t as int]@.len() == N_STATES,
                    forall|j: int|
                        0 <= j < N_STATES ==> cost_view(iterations@[t as int]@[j].cost) == cost_at(
                            o,
                            max_value,
                            t as nat,
                            j,
                        ),
                    forall|j: int|
                        0 <= j < N_STATES ==> (#[trigger] cost_at(o, max_value, t as nat, j) matches Some(c)
                            ==> 0 <= c <= (t + 1) * STEP_BOUND),
                    row@.len() == s,
                    forall|j: int|
                        0 <= j < s ==> cost_view((#[trigger] row@[j]).cost) == cost_at(
                            o,
                            max_value,
                            (t + 1) as nat,
                            j,
                        ) && prev_view(row@[j].prev) == Some(
                            prev_at(o, max_value, (t + 1) as nat, j),
                        ),
                decreases N_STATES - s,
            {
                let prev_row = &iterations[t];
                proof {
                    assert(cost_view(prev_row@[0].cost) == cost_at(o, max_value, t as nat, 0));
                    assert(cost_view(prev_row@[1].cost) == cost_at(o, max_value, t as nat, 1));
                    assert(cost_view(prev_row@[2].cost) == cost_at(o, max_value, t as nat, 2));
                    assert((t + 1) * STEP_BOUND <= u128::MAX / 4) by (nonlinear_arith)
                        requires
                            t < n,
                            n <= usize::MAX,
                    ;
                }
                let c0 = add_cost(prev_row[0].cost, Some(trans_cost(0, s)));
                let c1 = add_cost(prev_row[1].cost, Some(trans_cost(1, s)));
                let c2 = add_cost(prev_row[2].cost, Some(trans_cost(2, s)));
                let b = pick_best(c0, c1, c2);
                let cb = if b == 0 {
                    c0
                } else if b == 1 {
                    c1
                } else {
                    c2
                };
                let e = emit_cost(s, class);
                let cell = VIteration { cost: add_cost(cb, e), prev: Some(b) };
                row.push(cell);
                s = s + 1;
            }
            iterations.push(row);
            t = t + 1;
        }
        // The likeliest final state.
        let last_row = &iterations[n];
        let final_st = pick_best(last_row[0].cost, last_row[1].cost, last_row[2].cost);
        // Walk the predecessors back from the final state.
        let mut rev: Vec<(usize, VIteration)> = Vec::new();
        let mut st = final_st;
        let mut k = n;
        loop
            invariant_except_break
                k <= n,
                st < N_STATES,
                st == path_state(o, k as nat),
                rev@.len() == n - k,
            invariant
                n == obs.len(),
                o == obs@,
                max_value == seq_max(o),
                iterations@.len() == n + 1,
                forall|kk: int|
                    0 <= kk <= n ==> (#[trigger] iterations@[kk])@.len() == N_STATES,
                forall|kk: int, j: int|
                    0 <= kk <= n && 0 <= j < N_STATES ==> cost_view(
                        (#[trigger] iterations@[kk]@[j]).cost,
                    ) == cost_at(o, max_value, kk as nat, j),
                forall|kk: int, j: int|
                    0 < kk <= n && 0 <= j < N_STATES ==> prev_view((#[trigger] iterations@[kk]@[j]).prev)
                        == Some(prev_at(o, max_value, kk as nat, j)),
                forall|j: int| 0 <= j < N_STATES ==> (#[trigger] iterations@[0]@[j]).prev is None,
                forall|i: int|
                    0 <= i < rev@.len() ==> {
                        let (s2, it) = #[trigger] rev@[i];
                        let kk = n - i;
                        &&& s2 == path_state(o, kk as nat)
                        &&& it == iterations@[kk]@[s2 as int]
                    },
            ensures
                rev@.len() == n + 1,
            decreases k,
        {
            let cell = iterations[k][st];
            rev.push((st, cell));
            if k == 0 {
                break;
            }
            proof {
                assert(prev_view(cell.prev) == Some(prev_at(o, max_value, k as nat, st as int)));
            }
            let p = match cell.prev {
                Some(p) => p,
                None => 0,
            };
            st = if p < N_STATES {
                p
            } else {
                0
            };
            k = k - 1;
        }
        let mut path: Vec<(usize, VIteration)> = Vec::new();
        let mut i: usize = rev.len();
        while i > 0
            invariant
                rev@.len() == n + 1,
                i <= rev@.len(),
                path@.len() == rev@.len() - i,
                forall|j: int| 0 <= j < path@.len() ==> #[trigger] path@[j] == rev@[n - j],
            decreases i,
        {
            i = i - 1;
            path.push(rev[i]);
        }
        proof {
            assert forall|kk: int| 0 <= kk <= n implies {
                let (st2, it) = #[trigger] path@[kk];
                &&& st2 == path_state(o, kk as nat)
                &&& cost_view(it.cost) == cost_at(o, max_value, kk as nat, st2 as int)
                &&& kk > 0 ==> prev_view(it.prev) == Some(prev_at(o, max_value, kk as nat, st2 as int))
                &&& kk == 0 ==> it.prev is None
            } by {
                let r = rev@[n - kk];
                assert(path@[kk] == r);
                let (s2, _) = r;
                assert(0 <= s2 < N_STATES) by {
                    lemma_path_state_valid(o, kk as nat);
                }
            }
        }
        ViterbiResults { max_delim_freq: max_value, path }
    }
}

/// Every state of the decoded path names a state.
pub proof fn lemma_path_state_valid(obs: Seq<usize>, k: nat)
    ensures
        0 <= path_state(obs, k) < N_STATES,
    decreases obs.len() - k,
{
    if k < obs.len() {
        lemma_path_state_valid(obs, k + 1);
    }
}

/// `a` is at least as likely as `b`.
pub open spec fn cost_le(a: Option<int>, b: Option<int>) -> bool {
    !less_cost_spec(b, a)
}

/// The decoded state sequence: one state per step, the start first.
pub open spec fn decoded_path(obs: Seq<usize>) -> Seq<int> {
    Seq::new(obs.len() + 1, |k: int| path_state(obs, k as nat))
}

proof fn lemma_pick_best_min(c0: Option<int>, c1: Option<int>, c2: Option<int>, i: int)
    requires
        0 <= i < 3,
    ensures
        0 <= pick_best_spec(c0, c1, c2) < 3,
        cost_le(cost_of3(c0, c1, c2, pick_best_spec(c0, c1, c2)), cost_of3(c0, c1, c2, i)),
{
}

proof fn lemma_add_monotone(a: Option<int>, b: Option<int>, c: Option<int>)
    requires
        cost_le(a, b),
    ensures
        cost_le(add_cost_spec(a, c), add_cost_spec(b, c)),
{
}

proof fn lemma_cost_at_is_least(obs: Seq<usize>, max: usize, q: Seq<int>)
    requires
        q.len() >= 1,
        valid_states(q),
    ensures
        cost_le(cost_at(obs, max, (q.len() - 1) as nat, q.last()), seq_cost(obs, max, q)),
    decreases q.len(),
{
    if q.len() > 1 {
        let t = q.len() - 1;
        let tp = (t - 1) as nat;
        let p = q[t - 1];
        let s = q[t];
        let q2 = q.drop_last();
        assert(valid_states(q2));
        lemma_cost_at_is_least(obs, max, q2);
        assert(q2.last() == p);
        let c0 = via_cost(obs, max, tp, 0, s);
        let c1 = via_cost(obs, max, tp, 1, s);
        let c2 = via_cost(obs, max, tp, 2, s);
        lemma_pick_best_min(c0, c1, c2, p);
        lemma_add_monotone(cost_at(obs, max, tp, p), seq_cost(obs, max, q2), Some(trans_cost_spec(p, s)));
        let e = emit_cost_spec(s, obs_class_spec(obs[tp as int], max));
        assert(cost_of3(c0, c1, c2, p) == via_cost(obs, max, tp, p, s));
        lemma_add_monotone(
            cost_of3(c0, c1, c2, pick_best_spec(c0, c1, c2)),
            add_cost_spec(seq_cost(obs, max, q2), Some(trans_cost_spec(p, s))),
            e,
        );
    }
}

proof fn lemma_decoded_prefix_cost(obs: Seq<usize>, k: nat)
    requires
        k <= obs.len(),
    ensures
        seq_cost(obs, seq_max(obs), decoded_path(obs).take(k + 1int)) == cost_at(
            obs,
            seq_max(obs),
            k,
            path_state(obs, k),
        ),
    decreases k,
{
    let max = seq_max(obs);
    let d = decoded_path(obs);
    if k > 0 {
        lemma_decoded_prefix_cost(obs, (k - 1) as nat);
        let q = d.take(k + 1int);
        assert(q.drop_last() =~= d.take(k as int));
        assert(q[k - 1] == path_state(obs, (k - 1) as nat));
        assert(q[k as int] == path_state(obs, k));
        assert(path_state(obs, (k - 1) as nat) == prev_at(obs, max, k, path_state(obs, k)));
    } else {
        assert(d.take(1)[0] == path_state(obs, 0));
    }
}

/// The Viterbi decoding is optimal: the decoded state sequence costs exactly
/// the least cost that the table reports for its final state, and no state
/// sequence over the same observations costs less, that is, none is likelier.
pub proof fn lemma_viterbi_optimal(obs: Seq<usize>, q: Seq<int>)
    requires
        q.len() == obs.len() + 1,
        valid_states(q),
    ensures
        valid_states(decoded_path(obs)),
        seq_cost(obs, seq_max(obs), decoded_path(obs)) == cost_at(
            obs,
            seq_max(obs),
            obs.len(),
            final_state(obs),
        ),
        cost_le(seq_cost(obs, seq_max(obs), decoded_path(obs)), seq_cost(obs, seq_max(obs), q)),
{
    let max = seq_max(obs);
    let n = obs.len();
    let d = decoded_path(obs);
    assert forall|i: int| 0 <= i < d.len() implies 0 <= #[trigger] d[i] < N_STATES by {
        lemma_path_state_valid(obs, i as nat);
    }
    lemma_decoded_prefix_cost(obs, n);
    assert(d.take(n + 1int) =~= d);
    assert(path_state(obs, n) == final_state(obs));
    lemma_cost_at_is_least(obs, max, q);
    let s = q.last();
    lemma_pick_best_min(cost_at(obs, max, n, 0), cost_at(obs, max, n, 1), cost_at(obs, max, n, 2), s);
    assert(cost_of3(cost_at(obs, max, n, 0), cost_at(obs, max, n, 1), cost_at(obs, max, n, 2), s)
        == cost_at(obs, max, n, s));
}

/// What choosing a delimiter reads from a decoded chain: the final state of
/// the path, its cost, and the largest observation; `None` when the chain has
/// no observations.
pub open spec fn chain_outcome(obs: Seq<usize>) -> Option<(int, Option<int>, usize)> {
    if obs.len() == 0 {
        None
    } else if seq_max(obs) == 0 {
        Some((STATE_UNSTEADY as int, None, 0))
    } else {
        Some((final_state(obs), cost_at(obs, seq_max(obs), obs.len(), final_state(obs)), seq_max(obs)))
    }
}

impl Chain {
    /// Decodes the chain and reads the last entry of its path: the final
    /// state, its cost, and the largest observation; `None` for a chain
    /// without observations.
    pub fn final_outcome(&self) -> (r: Option<(usize, Option<u128>, usize)>)
        ensures
            match (r, chain_outcome(self@)) {
                (None, None) => true,
                (Some((s, c, f)), Some((s2, c2, f2))) => s == s2 && cost_view(c) == c2 && f == f2,
                _ => false,
            },
    {
        let ViterbiResults { max_delim_freq, path } = self.viterbi();
        let n = path.len();
        if n == 0 {
            return None;
        }
        let (final_state, final_viter) = path[n - 1];
        proof {
            if seq_max(self@) > 0 {
                assert(path@[self@.len() as int] == path@[n - 1]);
            }
        }
        Some((final_state, final_viter.cost, max_delim_freq))
    }
}

} // verus!
