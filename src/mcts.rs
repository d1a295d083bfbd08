use vstd::prelude::*;

use arrayvec::ArrayVec;

use crate::bindings::{
    now, nth_smallest, option_at, options_len, options_new, options_of, options_push,
    options_slice, random_below, set_option, table_get, table_insert, table_len, table_new,
    table_of, table_remove, table_retain_recent, table_visit_plies, elapsed_since, shorter,
};
use crate::bindings::Table;
use crate::game_state::{lemma_legal_moves, reaches, GameState, Player, HOLES_PER_SIDE};

verus! {

/// Scores are kept in thousandths of a stone.
pub const SCORE_SCALE: i64 = 1000;

/// The weight of the exploration term in the selection score.
pub const EXPLORATION_RATE: i64 = 100;

/// `r` is the integer square root of `n`.
pub open spec fn is_floor_sqrt(r: int, n: int) -> bool {
    0 <= r && r * r <= n < (r + 1) * (r + 1)
}

/// The integer square root of `n`.
pub open spec fn floor_sqrt(n: int) -> int {
    choose|r: int| is_floor_sqrt(r, n)
}

proof fn lemma_floor_sqrt_unique(a: int, b: int, n: int)
    requires
        is_floor_sqrt(a, n),
        is_floor_sqrt(b, n),
    ensures
        a == b,
{
    if a < b {
        assert((a + 1) * (a + 1) <= b * b) by (nonlinear_arith)
            requires
                0 <= a,
                a + 1 <= b,
        ;
    } else if b < a {
        assert((b + 1) * (b + 1) <= a * a) by (nonlinear_arith)
            requires
                0 <= b,
                b + 1 <= a,
        ;
    }
}

/// Returns the integer square root of `n`, by bisection.
pub fn isqrt(n: u64) -> (r: u64)
    ensures
        r == floor_sqrt(n as int),
        is_floor_sqrt(r as int, n as int),
{
    // invariant: lo * lo <= n < hi * hi
    let mut lo: u64 = 0;
    let mut hi: u64 = 0x1_0000_0000;
    assert(0x1_0000_0000 * 0x1_0000_0000 > u64::MAX) by (nonlinear_arith);
    while hi - lo > 1
        invariant
            lo < hi <= 0x1_0000_0000,
            lo * lo <= n,
            n < hi * hi,
        decreases hi - lo,
    {
        let mid = lo + (hi - lo) / 2;
        assert(mid * mid <= 0xffff_ffff * 0xffff_ffff) by (nonlinear_arith)
            requires
                mid < 0x1_0000_0000,
        ;
        if mid * mid <= n {
            lo = mid;
        } else {
            hi = mid;
        }
    }
    proof {
        assert(hi == lo + 1);
        assert(is_floor_sqrt(lo as int, n as int));
        lemma_floor_sqrt_unique(lo as int, floor_sqrt(n as int), n as int);
    }
    lo
}

/// `a / b` rounded toward zero.
pub open spec fn div_toward_zero(a: int, b: int) -> int {
    if a >= 0 {
        a / b
    } else {
        -((-a) / b)
    }
}

/// Per-option statistics at a searched position.
#[derive(Clone, Copy, Debug, Default)]
pub struct OptionStats {
    /// The number of rollouts made through this option.
    pub num_rollouts: u32,
    /// The sum of the rollout scores through this option, each counted for
    /// the player to move at the position (Player 1's score when Player 1
    /// moves, its negation when Player 2 moves).
    pub total_score: i64,
}

/// The largest magnitude of a score.
pub const MAX_SCORE: i64 = 127;

impl OptionStats {
    /// The statistics of an option not yet tried.
    pub fn new() -> (r: OptionStats)
        ensures
            r.num_rollouts == 0,
            r.total_score == 0,
    {
        OptionStats { num_rollouts: 0, total_score: 0 }
    }

    /// Every recorded score lies in `-MAX_SCORE..=MAX_SCORE`.
    pub open spec fn wf(self) -> bool {
        -MAX_SCORE * self.num_rollouts <= self.total_score <= MAX_SCORE * self.num_rollouts
    }

    /// The mean score in thousandths, rounded toward zero; 0 when untried.
    pub open spec fn expected_milli(self) -> int {
        if self.num_rollouts == 0 {
            0
        } else {
            div_toward_zero(self.total_score * SCORE_SCALE, self.num_rollouts as int)
        }
    }

    /// The selection score in thousandths: the mean score plus an
    /// exploration bonus `EXPLORATION_RATE * sqrt(parent_rollouts) / (1 + r)`.
    pub open spec fn puct_milli(self, parent_rollouts: int) -> int {
        self.expected_milli() + EXPLORATION_RATE * floor_sqrt(
            parent_rollouts * SCORE_SCALE * SCORE_SCALE,
        ) / (1 + self.num_rollouts)
    }

    /// Whether every recorded score can lie in `-MAX_SCORE..=MAX_SCORE`.
    pub fn is_consistent(&self) -> (r: bool)
        ensures
            r == self.wf(),
    {
        let bound = MAX_SCORE * self.num_rollouts as i64;
        -bound <= self.total_score && self.total_score <= bound
    }

    /// Returns the estimated expected score for this option, in thousandths.
    pub fn expected_score(&self) -> (r: i64)
        requires
            self.wf(),
        ensures
            r == self.expected_milli(),
    {
        if self.num_rollouts == 0 {
            0
        } else {
            assert(-MAX_SCORE * self.num_rollouts * SCORE_SCALE <= self.total_score * SCORE_SCALE
                <= MAX_SCORE * self.num_rollouts * SCORE_SCALE) by (nonlinear_arith)
                requires
                    self.wf(),
            ;
            let scaled = self.total_score * SCORE_SCALE;
            let n = self.num_rollouts as u64;
            if scaled >= 0 {
                (scaled as u64 / n) as i64
            } else {
                -(((-scaled) as u64 / n) as i64)
            }
        }
    }

    /// A variant of the PUCT score, similar to that used in AlphaZero, in
    /// thousandths.
    pub fn puct_score(&self, parent_rollouts: u32) -> (r: i64)
        requires
            self.wf(),
        ensures
            r == self.puct_milli(parent_rollouts as int),
    {
        let root = isqrt(parent_rollouts as u64 * 1_000_000);
        assert(root <= 0x1_0000_0000) by (nonlinear_arith)
            requires
                root * root <= parent_rollouts * 1_000_000,
                parent_rollouts <= u32::MAX,
        ;
        let exploration = EXPLORATION_RATE * (root as i64) / (1 + self.num_rollouts as i64);
        assert(exploration >= 0);
        assert(exploration <= EXPLORATION_RATE * 0x1_0000_0000);
        self.expected_score() + exploration
    }
}

/// The largest rollout count among `options`.
pub open spec fn max_rollouts(options: Seq<OptionStats>) -> int
    decreases options.len(),
{
    if options.len() == 0 {
        0
    } else {
        let rest = max_rollouts(options.drop_last());
        if options.last().num_rollouts > rest {
            options.last().num_rollouts as int
        } else {
            rest
        }
    }
}

/// The indices among the first `n` options whose rollout count is `count`,
/// ascending.
pub open spec fn indices_with_count(options: Seq<OptionStats>, count: int, n: int) -> Seq<usize>
    decreases n,
{
    if n <= 0 {
        seq![]
    } else if options[n - 1].num_rollouts == count {
        indices_with_count(options, count, n - 1).push((n - 1) as usize)
    } else {
        indices_with_count(options, count, n - 1)
    }
}

/// The indices of the options with the most rollouts, ascending.
pub open spec fn best_options(options: Seq<OptionStats>) -> Seq<usize> {
    indices_with_count(options, max_rollouts(options), options.len() as int)
}

proof fn lemma_max_rollouts(options: Seq<OptionStats>)
    ensures
        forall|i: int| 0 <= i < options.len() ==> options[i].num_rollouts <= max_rollouts(options),
        options.len() > 0 ==> exists|i: int|
            0 <= i < options.len() && options[i].num_rollouts == max_rollouts(options),
    decreases options.len(),
{
    if options.len() > 0 {
        lemma_max_rollouts(options.drop_last());
        assert forall|i: int| 0 <= i < options.len() - 1 implies options[i]
            == options.drop_last()[i] by {}
        let last = options.len() - 1;
        assert(options[last] == options.last());
        if options.last().num_rollouts > max_rollouts(options.drop_last()) || options.len() == 1 {
            assert(options[last].num_rollouts == max_rollouts(options));
        } else {
            let j = choose|i: int|
                0 <= i < options.drop_last().len() && options.drop_last()[i].num_rollouts
                    == max_rollouts(options.drop_last());
            assert(options[j] == options.drop_last()[j]);
            assert(options[j].num_rollouts == max_rollouts(options));
        }
    }
}

proof fn lemma_indices_with_count(options: Seq<OptionStats>, count: int, n: int)
    requires
        0 <= n <= options.len(),
        options.len() <= usize::MAX,
    ensures
        forall|j: int|
            0 <= j < indices_with_count(options, count, n).len() ==> {
                let i = #[trigger] indices_with_count(options, count, n)[j];
                i < n && options[i as int].num_rollouts == count
            },
        forall|j: int, l: int|
            0 <= j < l < indices_with_count(options, count, n).len() ==> indices_with_count(
                options,
                count,
                n,
            )[j] < indices_with_count(options, count, n)[l],
        (exists|i: int| 0 <= i < n && options[i].num_rollouts == count) ==> indices_with_count(
            options,
            count,
            n,
        ).len() > 0,
    decreases n,
{
    if n > 0 {
        lemma_indices_with_count(options, count, n - 1);
        let prev = indices_with_count(options, count, n - 1);
        let cur = indices_with_count(options, count, n);
        if options[n - 1].num_rollouts == count {
            assert(cur == prev.push((n - 1) as usize));
            assert forall|j: int| 0 <= j < prev.len() implies cur[j] == prev[j] by {}
            assert(cur[prev.len() as int] == n - 1);
            assert forall|j: int| 0 <= j < cur.len() implies {
                let i = #[trigger] cur[j];
                i < n && options[i as int].num_rollouts == count
            } by {
                if j < prev.len() {
                    assert(cur[j] == prev[j]);
                }
            }
            assert forall|j: int, l: int| 0 <= j < l < cur.len() implies cur[j] < cur[l] by {
                assert(cur[j] == prev[j]);
                if l < prev.len() {
                    assert(cur[l] == prev[l]);
                }
            }
        } else {
            if exists|i: int| 0 <= i < n && options[i].num_rollouts == count {
                let i = choose|i: int| 0 <= i < n && options[i].num_rollouts == count;
                assert(i < n - 1);
            }
        }
    }
}

/// Returns the indices of the options with the maximum visit count, in
/// ascending order.
pub fn get_best_options(option_stats_arr: &[OptionStats]) -> (r: Vec<usize>)
    requires
        option_stats_arr@.len() > 0,
    ensures
        r@ == best_options(option_stats_arr@),
        r@.len() > 0,
        forall|j: int|
            0 <= j < r@.len() ==> r@[j] < option_stats_arr@.len()
                && option_stats_arr@[r@[j] as int].num_rollouts == max_rollouts(
                option_stats_arr@,
            ),
{
    let ghost options = option_stats_arr@;
    let len = option_stats_arr.len();
    let mut max_visit_count: u32 = 0;
    let mut i: usize = 0;
    while i < option_stats_arr.len()
        invariant
            i <= options.len(),
            options == option_stats_arr@,
            max_visit_count == max_rollouts(options.take(i as int)),
        decreases options.len() - i,
    {
        assert(options.take(i as int + 1).drop_last() =~= options.take(i as int));
        if option_stats_arr[i].num_rollouts > max_visit_count {
            max_visit_count = option_stats_arr[i].num_rollouts;
        }
        i += 1;
    }
    assert(options.take(i as int) =~= options);

    let mut r: Vec<usize> = Vec::new();
    let mut i: usize = 0;
    while i < option_stats_arr.len()
        invariant
            i <= options.len(),
            options == option_stats_arr@,
            max_visit_count == max_rollouts(options),
            r@ == indices_with_count(options, max_visit_count as int, i as int),
        decreases options.len() - i,
    {
        if option_stats_arr[i].num_rollouts == max_visit_count {
            r.push(i);
        }
        i += 1;
    }
    proof {
        lemma_max_rollouts(options);
        lemma_indices_with_count(options, max_visit_count as int, options.len() as int);
    }
    r
}

/// Returns one of the options with the maximum visit count, picked uniformly
/// at random among them.
pub fn choose_option(option_stats_arr: &[OptionStats]) -> (r: usize)
    requires
        option_stats_arr@.len() > 0,
    ensures
        best_options(option_stats_arr@).contains(r),
        r < option_stats_arr@.len(),
        option_stats_arr@[r as int].num_rollouts == max_rollouts(option_stats_arr@),
{
    let best = get_best_options(option_stats_arr);
    let pick = random_below(best.len());
    best[pick]
}

/// The sum of the rollout counts of `options`.
pub open spec fn sum_rollouts(options: Seq<OptionStats>) -> int
    decreases options.len(),
{
    if options.len() == 0 {
        0
    } else {
        sum_rollouts(options.drop_last()) + options.last().num_rollouts
    }
}

proof fn lemma_sum_rollouts_update(options: Seq<OptionStats>, i: int, o: OptionStats)
    requires
        0 <= i < options.len(),
    ensures
        sum_rollouts(options.update(i, o)) == sum_rollouts(options) - options[i].num_rollouts
            + o.num_rollouts,
    decreases options.len(),
{
    if i < options.len() - 1 {
        assert(options.update(i, o).drop_last() =~= options.drop_last().update(i, o));
        lemma_sum_rollouts_update(options.drop_last(), i, o);
    } else {
        assert(options.update(i, o).drop_last() =~= options.drop_last());
    }
}

proof fn lemma_sum_rollouts_bound(options: Seq<OptionStats>, i: int)
    requires
        0 <= i < options.len(),
    ensures
        options[i].num_rollouts <= sum_rollouts(options),
    decreases options.len(),
{
    lemma_sum_rollouts_nonneg(options.drop_last());
    if i < options.len() - 1 {
        lemma_sum_rollouts_bound(options.drop_last(), i);
        assert(options[i] == options.drop_last()[i]);
    }
}

proof fn lemma_sum_rollouts_nonneg(options: Seq<OptionStats>)
    ensures
        sum_rollouts(options) >= 0,
    decreases options.len(),
{
    if options.len() > 0 {
        lemma_sum_rollouts_nonneg(options.drop_last());
    }
}

proof fn lemma_sum_rollouts_zero(options: Seq<OptionStats>)
    requires
        forall|i: int| 0 <= i < options.len() ==> options[i].num_rollouts == 0,
    ensures
        sum_rollouts(options) == 0,
    decreases options.len(),
{
    if options.len() > 0 {
        lemma_sum_rollouts_zero(options.drop_last());
    }
}

/// A score as counted for `chooser`: Player 1's score when Player 1 moves,
/// its negation when Player 2 moves.
pub open spec fn signed_score(score: int, chooser: Player) -> int {
    match chooser {
        Player::Player1 => score,
        Player::Player2 => -score,
    }
}

/// `o` with one more rollout of Player 1's `score`, counted for `chooser`.
pub open spec fn recorded(o: OptionStats, score: int, chooser: Player) -> OptionStats {
    OptionStats {
        num_rollouts: (o.num_rollouts + 1) as u32,
        total_score: (o.total_score + signed_score(score, chooser)) as i64,
    }
}

/// Option `i` is the first of `options` with the highest selection score
/// under a parent with `parent_rollouts` rollouts.
pub open spec fn is_selected(options: Seq<OptionStats>, parent_rollouts: int, i: int) -> bool {
    &&& 0 <= i < options.len()
    &&& forall|j: int|
        0 <= j < options.len() ==> (#[trigger] options[j]).puct_milli(parent_rollouts)
            <= options[i].puct_milli(parent_rollouts)
    &&& forall|j: int|
        0 <= j < i ==> (#[trigger] options[j]).puct_milli(parent_rollouts) < options[i].puct_milli(
            parent_rollouts,
        )
}

/// `n` untried options.
pub open spec fn fresh_options(n: int) -> Seq<OptionStats> {
    Seq::new(n as nat, |i: int| OptionStats { num_rollouts: 0, total_score: 0 })
}

/// The statistics of one searched position: one entry per legal move.
#[derive(Clone, Debug)]
pub struct StateStats {
    /// Per-option statistics, in the order of the legal moves.
    pub options: ArrayVec<OptionStats, HOLES_PER_SIDE>,
    /// The number of rollouts recorded at this position.
    pub num_rollouts: u32,
    /// The search ply at which this position was last visited.
    pub last_visit_ply: u32,
}

impl StateStats {
    /// The per-option statistics.
    pub open spec fn option_seq(self) -> Seq<OptionStats> {
        options_of(self.options)
    }

    /// At least two options, each consistent, whose rollouts add up to the
    /// position's count.
    pub open spec fn wf(self) -> bool {
        &&& 2 <= self.option_seq().len() <= HOLES_PER_SIDE
        &&& forall|i: int| 0 <= i < self.option_seq().len() ==> (#[trigger] self.option_seq()[i]).wf()
        &&& sum_rollouts(self.option_seq()) == self.num_rollouts
    }

    fn new(num_options: usize, current_ply: u32) -> (r: StateStats)
        requires
            2 <= num_options <= HOLES_PER_SIDE,
        ensures
            r.wf(),
            r.option_seq().len() == num_options,
            r.num_rollouts == 0,
            r.last_visit_ply == current_ply,
            r.option_seq() == fresh_options(num_options as int),
    {
        let mut options = options_new();
        let mut i: usize = 0;
        while i < num_options
            invariant
                i <= num_options <= HOLES_PER_SIDE,
                options_of(options).len() == i,
                forall|j: int|
                    0 <= j < i ==> (#[trigger] options_of(options)[j]).num_rollouts == 0
                        && options_of(options)[j].total_score == 0,
            decreases num_options - i,
        {
            options_push(&mut options, OptionStats::new());
            i += 1;
        }
        proof {
            lemma_sum_rollouts_zero(options_of(options));
            assert(options_of(options) =~= fresh_options(num_options as int));
        }
        StateStats { options, num_rollouts: 0, last_visit_ply: current_ply }
    }

    /// Whether this position was visited at or after ply `cutoff`.
    pub fn is_recent(&self, cutoff: u32) -> (r: bool)
        ensures
            r == (self.last_visit_ply >= cutoff),
    {
        self.last_visit_ply >= cutoff
    }

    /// Records one rollout through option `i` with Player 1's `score`, counted
    /// for `chooser`; nothing is recorded once the count is at its maximum.
    fn record(&mut self, i: usize, score: i8, chooser: Player)
        requires
            old(self).wf(),
            i < old(self).option_seq().len(),
            -MAX_SCORE <= score <= MAX_SCORE,
        ensures
            final(self).wf(),
            final(self).last_visit_ply == old(self).last_visit_ply,
            final(self).option_seq().len() == old(self).option_seq().len(),
            final(self).num_rollouts == old(self).num_rollouts + if old(self).num_rollouts
                < u32::MAX {
                1int
            } else {
                0int
            },
            final(self).option_seq() == if old(self).num_rollouts < u32::MAX {
                old(self).option_seq().update(
                    i as int,
                    recorded(old(self).option_seq()[i as int], score as int, chooser),
                )
            } else {
                old(self).option_seq()
            },
    {
        if self.num_rollouts < u32::MAX {
            let ghost before = self.option_seq();
            let mut o = option_at(&self.options, i);
            proof {
                lemma_sum_rollouts_bound(before, i as int);
                assert(before[i as int].wf());
                assert(MAX_SCORE == 127);
                assert(-127 * o.num_rollouts <= o.total_score <= 127 * o.num_rollouts);
            }
            o.num_rollouts = o.num_rollouts + 1;
            let signed: i64 = match chooser {
                Player::Player1 => score as i64,
                Player::Player2 => -(score as i64),
            };
            o.total_score = o.total_score + signed;
            set_option(&mut self.options, i, o);
            self.num_rollouts = self.num_rollouts + 1;
            proof {
                lemma_sum_rollouts_update(before, i as int, o);
                assert forall|j: int| 0 <= j < self.option_seq().len() implies (
                #[trigger] self.option_seq()[j]).wf() by {
                    if j != i {
                        assert(self.option_seq()[j] == before[j]);
                        assert(before[j].wf());
                    } else {
                        assert(self.option_seq()[j] == o);
                        assert(-127 * o.num_rollouts <= o.total_score <= 127 * o.num_rollouts);
                    }
                }
            }
        }
    }

    /// The option with the highest selection score; the first one on ties.
    fn select_option(&self) -> (r: usize)
        requires
            self.wf(),
        ensures
            is_selected(self.option_seq(), self.num_rollouts as int, r as int),
    {
        let n = options_len(&self.options);
        let mut best: usize = 0;
        let mut best_score = option_at(&self.options, 0).puct_score(self.num_rollouts);
        let mut i: usize = 1;
        while i < n
            invariant
                n == self.option_seq().len(),
                self.wf(),
                best < i <= n,
                best_score == self.option_seq()[best as int].puct_milli(self.num_rollouts as int),
                forall|j: int|
                    0 <= j < i ==> (#[trigger] self.option_seq()[j]).puct_milli(
                        self.num_rollouts as int,
                    ) <= best_score,
                forall|j: int|
                    0 <= j < best ==> (#[trigger] self.option_seq()[j]).puct_milli(
                        self.num_rollouts as int,
                    ) < best_score,
            decreases n - i,
        {
            let score = option_at(&self.options, i).puct_score(self.num_rollouts);
            if score > best_score {
                best = i;
                best_score = score;
            }
            i += 1;
        }
        best
    }
}

/// Performs a randomized rollout from the given state, playing uniformly
/// random legal moves until the game is over, and returns the final score
/// for Player 1.
pub fn compute_rollout_score(game_state: GameState) -> (r: i8)
    requires
        game_state.wf(),
    ensures
        game_state.is_over() ==> r == game_state.final_score(),
        -game_state.total() <= r <= game_state.total(),
        exists|end: GameState, n: nat|
            #[trigger] reaches(game_state, end, n) && end.is_over() && r == end.final_score(),
{
    let mut state = game_state;
    let ghost mut steps: nat = 0;
    loop
        invariant
            state.wf(),
            state.total() == game_state.total(),
            state == game_state || !game_state.is_over(),
            reaches(game_state, state, steps),
        decreases state.progress(),
    {
        proof {
            lemma_legal_moves(state);
        }
        if let Some(score) = state.result() {
            assert(state.is_over() && score == state.final_score());
            return score;
        }
        let valid_moves = state.valid_moves();
        let random_move = valid_moves[random_below(valid_moves.len())];
        let ghost before = state;
        state.make_move(random_move);
        proof {
            assert(before.is_move(random_move as int, state));
            steps = steps + 1;
            assert(reaches(game_state, state, steps));
        }
    }
}

/// Whether `t` holds the same entry (or the same absence) for `k` as `u`.
pub open spec fn same_entry(t: Map<GameState, StateStats>, u: Map<GameState, StateStats>, k: GameState) -> bool {
    &&& t.contains_key(k) == u.contains_key(k)
    &&& t.contains_key(k) ==> t[k] == u[k]
}

/// A rollout count that stops growing at `u32::MAX`.
pub open spec fn capped_count(n: int) -> int {
    if n > u32::MAX {
        u32::MAX as int
    } else {
        n
    }
}

/// The rollouts recorded for `k` in `t`; 0 when `k` has no entry.
pub open spec fn rollouts_at(t: Map<GameState, StateStats>, k: GameState) -> int {
    if t.contains_key(k) {
        t[k].num_rollouts as int
    } else {
        0
    }
}

/// Whether a table entry is consistent with its position, stamped at or
/// before `ply`: the position is well formed, not over, has at least two
/// legal moves, and one option per legal move.
pub open spec fn entry_wf(k: GameState, s: StateStats, ply: u32) -> bool {
    &&& k.wf()
    &&& !k.is_over()
    &&& k.legal_moves().len() >= 2
    &&& s.wf()
    &&& s.option_seq().len() == k.legal_moves().len()
    &&& s.last_visit_ply <= ply
}

/// How many values of `s` lie below `c`.
pub open spec fn count_below(s: Seq<u32>, c: u32) -> nat {
    s.filter(|x: u32| x < c).len()
}

/// How many values of `s` lie at or below `c`.
pub open spec fn count_at_most(s: Seq<u32>, c: u32) -> nat {
    s.filter(|x: u32| x <= c).len()
}

/// The positions of `t` last visited before ply `c`.
pub open spec fn plies_below(t: Map<GameState, StateStats>, c: u32) -> Set<GameState> {
    t.dom().filter(|k: GameState| t[k].last_visit_ply < c)
}

/// The positions of `t` last visited at or before ply `c`.
pub open spec fn plies_at_most(t: Map<GameState, StateStats>, c: u32) -> Set<GameState> {
    t.dom().filter(|k: GameState| t[k].last_visit_ply <= c)
}

/// `u` keeps every position of `t`, with at least as many rollouts, and
/// holds no other position than `added`.
pub open spec fn grows_by(t: Map<GameState, StateStats>, u: Map<GameState, StateStats>, added: GameState) -> bool {
    &&& forall|k: GameState| #[trigger]
        t.contains_key(k) ==> u.contains_key(k) && u[k].num_rollouts >= t[k].num_rollouts
    &&& forall|k: GameState| #[trigger] u.contains_key(k) ==> t.contains_key(k) || k == added
}

/// `u` keeps exactly the entries of `t` visited at or after `cutoff`, which
/// is the visit ply of rank `len / 7` among the entries of `t`: at most that
/// many entries were visited before it, and more at or before it.
pub open spec fn kept_from(t: Map<GameState, StateStats>, u: Map<GameState, StateStats>, cutoff: u32) -> bool {
    &&& exists|k0: GameState| #[trigger] t.contains_key(k0) && t[k0].last_visit_ply == cutoff
    &&& plies_below(t, cutoff).len() <= t.len() / 7 < plies_at_most(t, cutoff).len()
    &&& forall|k: GameState| #[trigger]
        u.contains_key(k) <==> t.contains_key(k) && t[k].last_visit_ply >= cutoff
}

/// The search context: a size-bounded table of searched positions, and the
/// ply counter used to tell recently visited entries from stale ones.
pub struct MCTSContext {
    explored_states: Table,
    current_ply: u32,
    /// The (approximate) limit on the number of nodes to retain in the cache.
    pub cache_size_limit: usize,
}

impl MCTSContext {
    /// The table of searched positions and their statistics.
    pub closed spec fn table(self) -> Map<GameState, StateStats> {
        table_of(self.explored_states)
    }

    /// The current search ply.
    pub closed spec fn ply(self) -> u32 {
        self.current_ply
    }

    /// The limit on the number of entries kept after a prune.
    pub closed spec fn limit(self) -> usize {
        self.cache_size_limit
    }

    /// The table is finite and every entry is consistent with its position.
    pub open spec fn wf(self) -> bool {
        &&& self.table().dom().finite()
        &&& forall|k: GameState| #[trigger]
            self.table().contains_key(k) ==> entry_wf(k, self.table()[k], self.ply())
    }

    /// A context with an empty table.
    pub fn new(cache_size_limit: usize) -> (r: Self)
        ensures
            r.wf(),
            r.table().dom() == Set::<GameState>::empty(),
            r.ply() == 0,
            r.limit() == cache_size_limit,
    {
        MCTSContext { explored_states: table_new(), current_ply: 0, cache_size_limit }
    }

    /// Returns the number of explored nodes currently in the cache.
    pub fn cache_size(&self) -> (r: usize)
        ensures
            r == self.table().len(),
    {
        table_len(&self.explored_states)
    }

    /// Returns the current search ply.
    pub fn current_ply(&self) -> (r: u32)
        ensures
            r == self.ply(),
    {
        self.current_ply
    }

    /// Sets the (approximate) limit on the number of nodes to retain.
    pub fn set_cache_size_limit(&mut self, cache_size_limit: usize)
        ensures
            final(self).limit() == cache_size_limit,
            final(self).table() == old(self).table(),
            final(self).ply() == old(self).ply(),
    {
        self.cache_size_limit = cache_size_limit;
    }

    /// Clears the explored node cache and resets the ply counter.
    pub fn clear_cache(&mut self)
        ensures
            final(self).wf(),
            final(self).table().dom() == Set::<GameState>::empty(),
            final(self).ply() == 0,
            final(self).limit() == old(self).limit(),
    {
        self.explored_states = table_new();
        self.current_ply = 0;
    }

    /// Samples a move that a player might make from a state, updating the
    /// search tree, and returns the rollout score for Player 1.
    ///
    /// A position that is over returns its score. A position with a single
    /// legal move plays it without touching the table. Otherwise a position
    /// not yet in the table gets an entry, one uniformly random option is
    /// played and rolled out; a position already in the table is stamped with
    /// the current ply, its option with the highest selection score is played
    /// and sampled in turn. Either way the score is recorded for the option
    /// played, counted for the player to move.
    pub fn sample_move(&mut self, game_state: GameState) -> (score: i8)
        requires
            old(self).wf(),
            game_state.wf(),
        ensures
            final(self).wf(),
            final(self).ply() == old(self).ply(),
            final(self).limit() == old(self).limit(),
            -MAX_SCORE <= score <= MAX_SCORE,
            game_state.is_over() ==> score == game_state.final_score() && final(self).table()
                == old(self).table(),
            // no position is dropped, no count falls, at most one position is added
            exists|added: GameState| #[trigger] grows_by(old(self).table(), final(self).table(), added),
            forall|k: GameState|
                k.progress() >= game_state.progress() && k != game_state ==> #[trigger] same_entry(
                    final(self).table(),
                    old(self).table(),
                    k,
                ),
            game_state.is_over() || game_state.legal_moves().len() == 1 ==> same_entry(
                final(self).table(),
                old(self).table(),
                game_state,
            ),
            !game_state.is_over() && game_state.legal_moves().len() >= 2 ==> {
                &&& final(self).table().contains_key(game_state)
                &&& final(self).table()[game_state].last_visit_ply == old(self).ply()
                &&& rollouts_at(final(self).table(), game_state) == rollouts_at(
                    old(self).table(),
                    game_state,
                ) + if rollouts_at(old(self).table(), game_state) < u32::MAX {
                    1int
                } else {
                    0int
                }
            },
            !game_state.is_over() && game_state.legal_moves().len() >= 2
                && !old(self).table().contains_key(game_state) ==> final(self).table().dom()
                == old(self).table().dom().insert(game_state) && exists|e: StateStats|
                final(self).table() == #[trigger] old(self).table().insert(game_state, e),
            // a new entry records the score for one option, picked at random
            !game_state.is_over() && game_state.legal_moves().len() >= 2
                && !old(self).table().contains_key(game_state) ==> exists|i: int|
                0 <= i < game_state.legal_moves().len() && #[trigger] final(self).table()[game_state].option_seq()
                    == fresh_options(game_state.legal_moves().len() as int).update(
                    i,
                    recorded(fresh_options(game_state.legal_moves().len() as int)[i], score as int, game_state.cur_player),
                ),
            // an existing entry records the score for its selected option
            !game_state.is_over() && game_state.legal_moves().len() >= 2
                && old(self).table().contains_key(game_state) && old(self).table()[game_state].num_rollouts < u32::MAX
                ==> exists|i: int|
                is_selected(old(self).table()[game_state].option_seq(), old(self).table()[game_state].num_rollouts as int, i)
                    && #[trigger] final(self).table()[game_state].option_seq()
                    == old(self).table()[game_state].option_seq().update(
                    i,
                    recorded(old(self).table()[game_state].option_seq()[i], score as int, game_state.cur_player),
                ),
        decreases game_state.progress(),
    {
        proof {
            lemma_legal_moves(game_state);
        }
        // return the game result if this is a terminal state
        if let Some(score) = game_state.result() {
            assert(grows_by(self.table(), self.table(), game_state));
            return score;
        }
        let valid_moves = game_state.valid_moves();
        let num_options = valid_moves.len();

        // with a single option, continue to the next move without consulting
        // or updating the table
        if num_options == 1 {
            let mut next = game_state;
            next.make_move(valid_moves[0]);
            let ghost before = self.table();
            let score = self.sample_move(next);
            proof {
                let a = choose|a: GameState| grows_by(before, self.table(), a);
                assert(grows_by(before, self.table(), a));
            }
            return score;
        }
        let chooser = game_state.cur_player;
        let ghost t0 = self.table();

        match table_remove(&mut self.explored_states, &game_state) {
            None => {
                // first visit: a new entry, one random option, then a rollout
                let mut stats = StateStats::new(num_options, self.current_ply);
                let option_index = random_below(num_options);
                let mut next = game_state;
                next.make_move(valid_moves[option_index]);
                let score = compute_rollout_score(next);
                stats.record(option_index, score, chooser);
                table_insert(&mut self.explored_states, game_state, stats);
                proof {
                    assert(self.table() == t0.insert(game_state, stats));
                    assert(self.table().dom() =~= t0.dom().insert(game_state));
                    assert(grows_by(t0, self.table(), game_state));
                    assert forall|k: GameState| #[trigger]
                        self.table().contains_key(k) implies entry_wf(
                        k,
                        self.table()[k],
                        self.ply(),
                    ) by {
                        if k != game_state {
                            assert(t0.contains_key(k));
                        }
                    }
                }
                score
            },
            Some(stats) => {
                // seen before: follow the option with the best selection score
                let mut stats = stats;
                let ghost t1 = self.table();
                assert(entry_wf(game_state, stats, self.ply()));
                stats.last_visit_ply = self.current_ply;
                let option_index = stats.select_option();
                let mut next = game_state;
                next.make_move(valid_moves[option_index]);
                assert(self.wf()) by {
                    assert forall|k: GameState| #[trigger]
                        self.table().contains_key(k) implies entry_wf(
                        k,
                        self.table()[k],
                        self.ply(),
                    ) by {
                        assert(t0.contains_key(k));
                    }
                }
                let score = self.sample_move(next);
                let ghost t2 = self.table();
                stats.record(option_index, score, chooser);
                table_insert(&mut self.explored_states, game_state, stats);
                proof {
                    assert(same_entry(t2, t1, game_state));
                    assert(!t2.contains_key(game_state));
                    let a = choose|a: GameState| grows_by(t1, t2, a);
                    assert(grows_by(t1, t2, a));
                    assert forall|k: GameState| #[trigger] t0.contains_key(k) implies self.table().contains_key(k)
                        && self.table()[k].num_rollouts >= t0[k].num_rollouts by {
                        if k != game_state {
                            assert(t1.contains_key(k));
                        }
                    }
                    assert forall|k: GameState| #[trigger] self.table().contains_key(k) implies t0.contains_key(k)
                        || k == a by {
                        if k != game_state && !t0.contains_key(k) {
                            assert(t2.contains_key(k));
                            assert(!t1.contains_key(k));
                        }
                    }
                    assert(grows_by(t0, self.table(), a));
                    assert forall|k: GameState| #[trigger]
                        self.table().contains_key(k) implies entry_wf(
                        k,
                        self.table()[k],
                        self.ply(),
                    ) by {
                        if k != game_state {
                            assert(t2.contains_key(k));
                        }
                    }
                    assert forall|k: GameState|
                        k.progress() >= game_state.progress() && k != game_state implies #[trigger] same_entry(
                        self.table(),
                        t0,
                        k,
                    ) by {
                        assert(same_entry(t2, t1, k));
                    }
                }
                score
            },
        }
    }

    /// When the table holds more entries than the limit, drops the stalest
    /// ones: the cutoff is the visit ply of rank `len / 7` among all entries
    /// (found by partial selection, not a full sort), and only entries
    /// visited at or after it are kept, about six sevenths of the table.
    pub fn prune_explored_states(&mut self)
        requires
            old(self).wf(),
        ensures
            final(self).wf(),
            final(self).ply() == old(self).ply(),
            final(self).limit() == old(self).limit(),
            old(self).table().len() <= old(self).limit() ==> final(self).table() == old(self).table(),
            old(self).table().len() > old(self).limit() ==> exists|cutoff: u32|
                #[trigger] kept_from(old(self).table(), final(self).table(), cutoff),
            forall|k: GameState| #[trigger]
                final(self).table().contains_key(k) ==> old(self).table().contains_key(k)
                    && final(self).table()[k] == old(self).table()[k],
            forall|k: GameState|
                #![trigger old(self).table().contains_key(k)]
                old(self).table().contains_key(k) && (forall|k2: GameState| #[trigger]
                    old(self).table().contains_key(k2) ==> old(self).table()[k2].last_visit_ply
                        <= old(self).table()[k].last_visit_ply) ==> final(self).table().contains_key(k),
    {
        let ghost t0 = self.table();
        if table_len(&self.explored_states) > self.cache_size_limit {
            let last_visit_plies = table_visit_plies(&self.explored_states);
            let ghost plies = last_visit_plies@;
            // drop the stalest ~14.3%
            let index = last_visit_plies.len() / 7;
            let cutoff_ply = nth_smallest(last_visit_plies, index);
            table_retain_recent(&mut self.explored_states, cutoff_ply);
            proof {
                let i = choose|i: int| 0 <= i < plies.len() && plies[i] == cutoff_ply;
                assert(plies[i] == cutoff_ply);
                let k0 = choose|k: GameState|
                    t0.contains_key(k) && plies[i] == t0[k].last_visit_ply;
                assert(t0.contains_key(k0) && t0[k0].last_visit_ply == cutoff_ply);
                assert(count_below(plies, cutoff_ply) == plies_below(t0, cutoff_ply).len());
                assert(count_at_most(plies, cutoff_ply) == plies_at_most(t0, cutoff_ply).len());
                assert(kept_from(t0, self.table(), cutoff_ply));
                assert(self.table().dom().subset_of(t0.dom()));
                vstd::set_lib::lemma_set_subset_finite(t0.dom(), self.table().dom());
                assert forall|k: GameState| #[trigger] self.table().contains_key(k) implies entry_wf(
                    k,
                    self.table()[k],
                    self.ply(),
                ) by {
                    assert(t0.contains_key(k));
                }
            }
        }
    }

    /// Performs MCTS iterations on the given game state until the time budget
    /// is spent, and returns the number of samples performed: at least one,
    /// unless the game is over there. The ply counter advances by one
    /// (saturating), and the table is pruned first if it is over its limit.
    pub fn ponder(&mut self, game_state: &GameState, duration: std::time::Duration) -> (num_samples: usize)
        requires
            old(self).wf(),
            game_state.wf(),
        ensures
            final(self).wf(),
            final(self).limit() == old(self).limit(),
            final(self).ply() == if old(self).ply() < u32::MAX {
                old(self).ply() + 1
            } else {
                old(self).ply() as int
            },
            game_state.is_over() ==> num_samples == 0,
            !game_state.is_over() ==> num_samples >= 1,
            // the root ends up in the table, stamped with the new ply
            !game_state.is_over() && game_state.legal_moves().len() >= 2 ==> final(self).table().contains_key(*game_state)
                && final(self).table()[*game_state].last_visit_ply == final(self).ply(),
            // within the limit nothing is pruned, and each sample adds one rollout at the root
            old(self).table().len() <= old(self).limit() ==> forall|k: GameState| #[trigger]
                old(self).table().contains_key(k) ==> final(self).table().contains_key(k),
            !game_state.is_over() && game_state.legal_moves().len() >= 2 && old(self).table().len()
                <= old(self).limit() ==> rollouts_at(final(self).table(), *game_state) == capped_count(
                rollouts_at(old(self).table(), *game_state) + num_samples,
            ),
    {
        let start_time = now();
        if self.current_ply < u32::MAX {
            self.current_ply = self.current_ply + 1;
        }
        assert(self.wf()) by {
            assert forall|k: GameState| #[trigger] self.table().contains_key(k) implies entry_wf(
                k,
                self.table()[k],
                self.ply(),
            ) by {
                assert(entry_wf(k, old(self).table()[k], old(self).ply()));
            }
        }
        self.prune_explored_states();
        if game_state.result().is_some() {
            return 0;
        }
        let ghost ply = self.ply();
        let ghost pruned = self.table();
        let ghost choice = game_state.legal_moves().len() >= 2;
        let mut num_samples: usize = 0;
        loop
            invariant_except_break
                num_samples < usize::MAX,
            invariant
                self.wf(),
                game_state.wf(),
                !game_state.is_over(),
                choice == (game_state.legal_moves().len() >= 2),
                self.ply() == ply,
                self.limit() == old(self).limit(),
                forall|k: GameState| #[trigger] pruned.contains_key(k) ==> self.table().contains_key(k),
                choice ==> rollouts_at(self.table(), *game_state) == capped_count(
                    rollouts_at(pruned, *game_state) + num_samples,
                ),
                choice && num_samples > 0 ==> self.table().contains_key(*game_state)
                    && self.table()[*game_state].last_visit_ply == ply,
            ensures
                self.wf(),
                self.ply() == ply,
                self.limit() == old(self).limit(),
                num_samples >= 1,
                forall|k: GameState| #[trigger] pruned.contains_key(k) ==> self.table().contains_key(k),
                choice ==> rollouts_at(self.table(), *game_state) == capped_count(
                    rollouts_at(pruned, *game_state) + num_samples,
                ),
                choice ==> self.table().contains_key(*game_state)
                    && self.table()[*game_state].last_visit_ply == ply,
            decreases usize::MAX - num_samples,
        {
            // sample a sequence of moves and update the tree
            let ghost before = self.table();
            self.sample_move(*game_state);
            proof {
                let a = choose|a: GameState| grows_by(before, self.table(), a);
                assert(grows_by(before, self.table(), a));
                assert forall|k: GameState| #[trigger] pruned.contains_key(k) implies self.table().contains_key(k) by {
                    assert(before.contains_key(k));
                }
                if choice {
                    assert(rollouts_at(before, *game_state) <= u32::MAX);
                    assert(rollouts_at(self.table(), *game_state) == rollouts_at(before, *game_state)
                        + if rollouts_at(before, *game_state) < u32::MAX { 1int } else { 0int });
                    assert(rollouts_at(self.table(), *game_state) == capped_count(
                        rollouts_at(pruned, *game_state) + num_samples + 1));
                }
            }
            num_samples = num_samples + 1;
            if num_samples == usize::MAX || !shorter(elapsed_since(&start_time), duration) {
                break;
            }
        }
        num_samples
    }

    /// Picks the move to play from `game_state`: the only legal move if there
    /// is just one, else the move of an option with the maximum visit count,
    /// chosen uniformly at random among the tied ones.
    pub fn best_move(&self, game_state: &GameState) -> (r: usize)
        requires
            self.wf(),
            game_state.wf(),
            !game_state.is_over(),
            game_state.legal_moves().len() == 1 || self.table().contains_key(*game_state),
        ensures
            game_state.legal_moves().len() == 1 ==> r == game_state.legal_moves()[0],
            game_state.legal_moves().len() != 1 ==> exists|i: int|
                0 <= i < game_state.legal_moves().len() && r == game_state.legal_moves()[i]
                    && #[trigger] best_options(self.table()[*game_state].option_seq()).contains(
                    i as usize,
                ),
    {
        proof {
            lemma_legal_moves(*game_state);
        }
        let valid_moves = game_state.valid_moves();
        if valid_moves.len() == 1 {
            return valid_moves[0];
        }
        match table_get(&self.explored_states, game_state) {
            Some(stats) => {
                assert(entry_wf(*game_state, *stats, self.ply()));
                let index = choose_option(options_slice(&stats.options));
                assert(stats.option_seq().len() == valid_moves@.len());
                let r = valid_moves[index];
                assert(0 <= index < game_state.legal_moves().len() && r == game_state.legal_moves()[index as int]
                    && best_options(self.table()[*game_state].option_seq()).contains((index as int) as usize));
                r
            },
            None => {
                assert(false);
                valid_moves[0]
            },
        }
    }

    /// Returns the cached `StateStats` for a given game state.
    pub fn stats_for(&self, game_state: &GameState) -> (r: Option<&StateStats>)
        ensures
            r is Some <==> self.table().contains_key(*game_state),
            r is Some ==> *r.unwrap() == self.table()[*game_state],
    {
        table_get(&self.explored_states, game_state)
    }
}

/// No position with a single legal move is ever a key of the table.
pub proof fn lemma_no_forced_entries(ctx: MCTSContext, k: GameState)
    requires
        ctx.wf(),
        ctx.table().contains_key(k),
    ensures
        k.legal_moves().len() >= 2,
        ctx.table()[k].option_seq().len() == k.legal_moves().len(),
{
}

/// The rollouts of an entry's options add up to the entry's rollout count.
pub proof fn lemma_rollouts_add_up(ctx: MCTSContext, k: GameState)
    requires
        ctx.wf(),
        ctx.table().contains_key(k),
    ensures
        sum_rollouts(ctx.table()[k].option_seq()) == ctx.table()[k].num_rollouts,
{
}

/// Clearing the cache starts afresh: when the first sample after a clear is
/// taken from a position that is not over and has a choice of moves, the
/// table then holds exactly that position.
pub proof fn lemma_first_sample_after_clear(
    cleared: MCTSContext,
    sampled: MCTSContext,
    root: GameState,
)
    requires
        cleared.table().dom() == Set::<GameState>::empty(),
        sampled.table().dom() == cleared.table().dom().insert(root),
    ensures
        sampled.table().len() == 1,
        sampled.table().contains_key(root),
{
    assert(sampled.table().dom() =~= Set::<GameState>::empty().insert(root));
}

} // verus!
