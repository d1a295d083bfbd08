use vstd::prelude::*;

verus! {

/// The number of holes on each player's side, not including their store.
pub const HOLES_PER_SIDE: usize = 6;

/// The number of initial stones in each hole.
pub const INITIAL_STONES_PER_HOLE: u8 = 4;

/// The most stones a position may hold, so that every score fits in an `i8`.
pub const MAX_STONES: u8 = 127;

/// The number of slots a sowing move cycles through: the mover's holes, the
/// mover's store and the opponent's holes (the opponent's store is skipped).
pub const RING_SLOTS: usize = 13;

#[derive(Clone, Copy, Debug, Hash, PartialEq, Eq, Structural)]
pub enum Player {
    Player1,
    Player2,
}

impl Player {
    pub open spec fn opponent(self) -> Player {
        match self {
            Player::Player1 => Player::Player2,
            Player::Player2 => Player::Player1,
        }
    }

    /// Returns the other player.
    pub fn other(&self) -> (r: Player)
        ensures
            r == self.opponent(),
            r != *self,
    {
        match self {
            Player::Player1 => Player::Player2,
            Player::Player2 => Player::Player1,
        }
    }

    /// The player's display name.
    pub fn name(&self) -> (r: &'static str)
        ensures
            *self == Player::Player1 ==> r@ == "Player 1"@,
            *self == Player::Player2 ==> r@ == "Player 2"@,
    {
        proof {
            reveal_strlit("Player 1");
            reveal_strlit("Player 2");
        }
        match self {
            Player::Player1 => "Player 1",
            Player::Player2 => "Player 2",
        }
    }
}

/// Represents the state for a single player (their holes and store).
#[derive(Clone, Copy, Debug, Hash, PartialEq, Eq)]
pub struct PlayerState {
    /// The player's holes. Index 0 is closest to this player's store.
    pub holes: [u8; HOLES_PER_SIDE],
    /// The player's store.
    pub store: u8,
}

impl PlayerState {
    /// The number of stones in this player's holes.
    pub open spec fn stones(self) -> int {
        self.holes[0] + self.holes[1] + self.holes[2] + self.holes[3] + self.holes[4]
            + self.holes[5]
    }

    /// The stones in this player's holes, each weighted by its distance from
    /// the store.
    pub open spec fn distance_weight(self) -> int {
        self.holes[0] + 2 * self.holes[1] + 3 * self.holes[2] + 4 * self.holes[3] + 5
            * self.holes[4] + 6 * self.holes[5]
    }

    /// The indices of the non-empty holes among the first `n`, ascending.
    pub open spec fn non_empty_below(self, n: int) -> Seq<usize>
        decreases n,
    {
        if n <= 0 {
            seq![]
        } else if self.holes[n - 1] > 0 {
            self.non_empty_below(n - 1).push((n - 1) as usize)
        } else {
            self.non_empty_below(n - 1)
        }
    }

    /// The indices of the non-empty holes, ascending.
    pub open spec fn non_empty(self) -> Seq<usize> {
        self.non_empty_below(6)
    }

    /// The starting state of a side: every hole holds the initial stones.
    pub fn new() -> (r: PlayerState)
        ensures
            forall|i: int| 0 <= i < 6 ==> r.holes[i] == INITIAL_STONES_PER_HOLE,
            r.store == 0,
    {
        PlayerState { holes: [INITIAL_STONES_PER_HOLE; 6], store: 0 }
    }

    /// Returns the total number of stones in the holes on this player's side.
    pub fn stones_in_holes(&self) -> (r: u8)
        requires
            self.stones() <= u8::MAX,
        ensures
            r == self.stones(),
    {
        self.holes[0] + self.holes[1] + self.holes[2] + self.holes[3] + self.holes[4]
            + self.holes[5]
    }

    /// Returns this player's score (assuming this state is at the end of a game).
    pub fn score(&self) -> (r: u8)
        requires
            self.store + self.stones() <= u8::MAX,
        ensures
            r == self.store + self.stones(),
    {
        self.store + self.stones_in_holes()
    }

    /// Returns the indices of the non-empty holes on this player's side, in
    /// ascending order.
    pub fn non_empty_holes(&self) -> (r: Vec<usize>)
        ensures
            r@ == self.non_empty(),
    {
        let mut r: Vec<usize> = Vec::new();
        let mut i: usize = 0;
        while i < HOLES_PER_SIDE
            invariant
                i <= 6,
                r@ == self.non_empty_below(i as int),
            decreases 6 - i,
        {
            if self.holes[i] > 0 {
                r.push(i);
            }
            i += 1;
        }
        r
    }
}

impl Default for PlayerState {
    fn default() -> (r: PlayerState)
        ensures
            forall|i: int| 0 <= i < 6 ==> r.holes[i] == INITIAL_STONES_PER_HOLE,
            r.store == 0,
    {
        PlayerState::new()
    }
}

/// Represents a game state.
#[derive(Clone, Copy, Debug, Hash, PartialEq, Eq)]
pub struct GameState {
    /// Which player's turn it currently is.
    pub cur_player: Player,
    /// Player 1's state.
    pub p1_state: PlayerState,
    /// Player 2's state.
    pub p2_state: PlayerState,
}

/// How many stones sowing `n` stones from ring slot `start` drops into ring
/// slot `k`: one per full lap, plus one if `k` is among the first `n % 13`
/// slots after `start`.
#[verifier::opaque]
pub open spec fn sown_count(n: int, start: int, k: int) -> int {
    n / 13 + if 1 <= (k - start + 13) % 13 <= n % 13 {
        1int
    } else {
        0int
    }
}

/// `end` is reached from `start` by `n` legal moves.
pub open spec fn reaches(start: GameState, end: GameState, n: nat) -> bool
    decreases n,
{
    if n == 0 {
        start == end
    } else {
        exists|mid: GameState, hole: int|
            reaches(start, mid, (n - 1) as nat) && #[trigger] mid.is_move(hole, end)
    }
}

/// Sowing one more stone adds it to the slot after the previous last one.
proof fn lemma_sown_step(i: int, start: int, k: int)
    requires
        0 <= i,
        0 <= start < 13,
        0 <= k < 13,
    ensures
        sown_count(i + 1, start, k) == sown_count(i, start, k) + if k == (start + i + 1) % 13 {
            1int
        } else {
            0int
        },
{
    reveal(sown_count);
}

/// A move with more stones than the holes before the store reaches the store.
proof fn lemma_reaches_store(n: int, hole: int)
    requires
        0 <= hole < n,
        hole < 6,
    ensures
        sown_count(n, 5 - hole, 6) >= 1,
{
    reveal(sown_count);
}

/// A move with at most as many stones as the holes before the store drops one
/// stone into each of the next `n` holes and nothing elsewhere.
proof fn lemma_short_sowing(n: int, hole: int, k: int)
    requires
        0 <= n <= hole < 6,
        0 <= k < 13,
    ensures
        sown_count(n, 5 - hole, k) == if 5 - hole < k <= 5 - hole + n {
            1int
        } else {
            0int
        },
{
    reveal(sown_count);
}

/// Sowing never removes stones from a slot.
proof fn lemma_sown_nonneg(n: int, start: int, k: int)
    requires
        0 <= n,
    ensures
        sown_count(n, start, k) >= 0,
{
    reveal(sown_count);
}

/// Moving `n` stones from `hole` one hole each toward the store lowers the
/// side's distance weight.
proof fn lemma_short_move_weight(a: PlayerState, b: PlayerState, hole: int, n: int)
    requires
        1 <= n <= hole < 6,
        a.holes[hole] == n,
        forall|j: int|
            0 <= j < 6 ==> #[trigger] b.holes[j] == (if j == hole {
                0
            } else {
                a.holes[j] as int
            }) + if hole - n <= j < hole {
                1int
            } else {
                0int
            },
    ensures
        b.distance_weight() < a.distance_weight(),
{
    assert(b.holes[0] == (if 0 == hole { 0 } else { a.holes[0] as int }) + if hole - n <= 0 < hole { 1int } else { 0int });
    assert(b.holes[1] == (if 1 == hole { 0 } else { a.holes[1] as int }) + if hole - n <= 1 < hole { 1int } else { 0int });
    assert(b.holes[2] == (if 2 == hole { 0 } else { a.holes[2] as int }) + if hole - n <= 2 < hole { 1int } else { 0int });
    assert(b.holes[3] == (if 3 == hole { 0 } else { a.holes[3] as int }) + if hole - n <= 3 < hole { 1int } else { 0int });
    assert(b.holes[4] == (if 4 == hole { 0 } else { a.holes[4] as int }) + if hole - n <= 4 < hole { 1int } else { 0int });
    assert(b.holes[5] == (if 5 == hole { 0 } else { a.holes[5] as int }) + if hole - n <= 5 < hole { 1int } else { 0int });
}

/// Every move strictly lowers `progress`: either a stone reaches a store, or
/// all sown stones stay on the mover's side, closer to the mover's store.
proof fn lemma_move_progress(g0: GameState, g1: GameState, hole: int)
    requires
        g0.wf(),
        0 <= hole < 6,
        g0.sown(hole) > 0,
        forall|k: int|
            0 <= k < 13 ==> #[trigger] g1.ring(g0.cur_player, k) == g0.after_move(hole, k),
        g1.side(g0.cur_player.opponent()).store == g0.side(g0.cur_player.opponent()).store,
        g1.total() == g0.total(),
    ensures
        g1.progress() < g0.progress(),
        0 <= g1.progress(),
{
    let m = g0.cur_player;
    let n = g0.sown(hole);
    assert(g1.p1_state.distance_weight() <= 6 * g1.p1_state.stones());
    assert(g1.p2_state.distance_weight() <= 6 * g1.p2_state.stones());
    assert(g1.ring(m, 6) == g0.after_move(hole, 6));
    lemma_sown_nonneg(n, 5 - hole, 6);
    lemma_sown_nonneg(n, 5 - hole, 12 - g0.last_slot(hole));
    if n > hole {
        lemma_reaches_store(n, hole);
        assert(g1.side(m).store >= g0.side(m).store + 1);
    } else if g0.captures(hole) {
        assert(g1.side(m).store >= g0.side(m).store + 1);
    } else {
        assert forall|k: int| 0 <= k < 13 implies #[trigger] g1.ring(m, k) == (if k == 5 - hole {
            0
        } else {
            g0.ring(m, k)
        }) + if 5 - hole < k <= 5 - hole + n {
            1int
        } else {
            0int
        } by {
            lemma_short_sowing(n, hole, k);
        }
        assert(g1.side(m).store == g0.side(m).store) by {
            assert(g1.ring(m, 6) == g0.ring(m, 6));
        }
        assert(g1.side(m.opponent()).distance_weight() == g0.side(m.opponent()).distance_weight())
            by {
            assert(g1.ring(m, 7) == g0.ring(m, 7));
            assert(g1.ring(m, 8) == g0.ring(m, 8));
            assert(g1.ring(m, 9) == g0.ring(m, 9));
            assert(g1.ring(m, 10) == g0.ring(m, 10));
            assert(g1.ring(m, 11) == g0.ring(m, 11));
            assert(g1.ring(m, 12) == g0.ring(m, 12));
        }
        assert forall|j: int| 0 <= j < 6 implies #[trigger] g1.side(m).holes[j] == (if j
            == hole {
            0
        } else {
            g0.side(m).holes[j] as int
        }) + if hole - n <= j < hole {
            1int
        } else {
            0int
        } by {
            assert(g1.ring(m, 5 - j) == g1.side(m).holes[j]);
        }
        lemma_short_move_weight(g0.side(m), g1.side(m), hole, n);
    }
}

impl GameState {
    /// The state of the given player's side.
    pub open spec fn side(self, p: Player) -> PlayerState {
        match p {
            Player::Player1 => self.p1_state,
            Player::Player2 => self.p2_state,
        }
    }

    /// This state with the given player's side replaced.
    pub open spec fn with_side(self, p: Player, s: PlayerState) -> GameState {
        match p {
            Player::Player1 => GameState { p1_state: s, ..self },
            Player::Player2 => GameState { p2_state: s, ..self },
        }
    }

    /// All stones on the board, stores included.
    pub open spec fn total(self) -> int {
        self.p1_state.stones() + self.p1_state.store + self.p2_state.stones()
            + self.p2_state.store
    }

    /// A well-formed state holds few enough stones that every score fits in an `i8`.
    pub open spec fn wf(self) -> bool {
        self.total() <= MAX_STONES
    }

    /// The game is over once either side's holes are all empty.
    pub open spec fn is_over(self) -> bool {
        self.p1_state.stones() == 0 || self.p2_state.stones() == 0
    }

    /// Player 1's final score minus Player 2's: each side scores its store
    /// plus the stones left in its holes.
    pub open spec fn final_score(self) -> int {
        (self.p1_state.store + self.p1_state.stones()) - (self.p2_state.store
            + self.p2_state.stones())
    }

    /// The game result: the final score once the game is over.
    pub open spec fn outcome(self) -> Option<int> {
        if self.is_over() {
            Some(self.final_score())
        } else {
            None
        }
    }

    /// The legal moves: the current player's non-empty holes, ascending.
    pub open spec fn legal_moves(self) -> Seq<usize> {
        self.side(self.cur_player).non_empty()
    }

    /// Ring slot `k` from mover `m`'s point of view: slots 0 to 5 are `m`'s
    /// holes 5 down to 0, slot 6 is `m`'s store, slots 7 to 12 are the
    /// opponent's holes 5 down to 0.
    pub open spec fn ring(self, m: Player, k: int) -> int {
        if k < 6 {
            self.side(m).holes[5 - k] as int
        } else if k == 6 {
            self.side(m).store as int
        } else {
            self.side(m.opponent()).holes[12 - k] as int
        }
    }

    /// The ring slot of hole `hole` of the player to move.
    pub open spec fn start_slot(hole: int) -> int {
        5 - hole
    }

    /// The number of stones sown by playing `hole`.
    pub open spec fn sown(self, hole: int) -> int {
        self.side(self.cur_player).holes[hole] as int
    }

    /// The ring slot where the last stone sown from `hole` lands.
    pub open spec fn last_slot(self, hole: int) -> int {
        (Self::start_slot(hole) + self.sown(hole)) % 13
    }

    /// Ring slot `k` after the stones of `hole` are sown, before any capture.
    pub open spec fn after_sowing(self, hole: int, k: int) -> int {
        let start = Self::start_slot(hole);
        (if k == start {
            0
        } else {
            self.ring(self.cur_player, k)
        }) + sown_count(self.sown(hole), start, k)
    }

    /// Whether playing `hole` captures: the last stone lands in one of the
    /// mover's holes that was empty, and the hole opposite it holds stones.
    /// When the opposite hole is empty nothing is captured and the stone
    /// stays where it landed.
    pub open spec fn captures(self, hole: int) -> bool {
        let last = self.last_slot(hole);
        last < 6 && self.after_sowing(hole, last) == 1 && self.after_sowing(hole, 12 - last) > 0
    }

    /// Ring slot `k` (from the mover's point of view) once `hole` is played:
    /// on a capture, the landing stone and the opposite hole's stones go to
    /// the mover's store.
    pub open spec fn after_move(self, hole: int, k: int) -> int {
        let last = self.last_slot(hole);
        if self.captures(hole) && (k == last || k == 12 - last) {
            0
        } else if self.captures(hole) && k == 6 {
            self.after_sowing(hole, 6) + self.after_sowing(hole, 12 - last) + 1
        } else {
            self.after_sowing(hole, k)
        }
    }

    /// Who moves after `hole` is played: the same player again when the last
    /// stone lands in their store, else the opponent.
    pub open spec fn next_player(self, hole: int) -> Player {
        if self.last_slot(hole) == 6 {
            self.cur_player
        } else {
            self.cur_player.opponent()
        }
    }

    /// `next` is this state once the player to move plays `hole`, a
    /// non-empty hole of theirs, in a game not yet over.
    pub open spec fn is_move(self, hole: int, next: GameState) -> bool {
        &&& self.wf()
        &&& !self.is_over()
        &&& 0 <= hole < 6
        &&& self.side(self.cur_player).holes[hole] > 0
        &&& forall|k: int|
            0 <= k < 13 ==> #[trigger] next.ring(self.cur_player, k) == self.after_move(hole, k)
        &&& next.side(self.cur_player.opponent()).store == self.side(
            self.cur_player.opponent(),
        ).store
        &&& next.cur_player == self.next_player(hole)
    }

    /// A measure that every move strictly lowers: stones reaching a store
    /// lower the first term by more than the second can grow.
    pub open spec fn progress(self) -> int {
        763 * (MAX_STONES - self.p1_state.store - self.p2_state.store)
            + self.p1_state.distance_weight() + self.p2_state.distance_weight()
    }

    /// The starting position: four stones in each hole, empty stores,
    /// Player 1 to move.
    pub fn new() -> (r: GameState)
        ensures
            r.cur_player == Player::Player1,
            r.p1_state.store == 0,
            r.p2_state.store == 0,
            forall|i: int|
                0 <= i < 6 ==> r.p1_state.holes[i] == INITIAL_STONES_PER_HOLE
                    && r.p2_state.holes[i] == INITIAL_STONES_PER_HOLE,
            r.wf(),
    {
        GameState {
            cur_player: Player::Player1,
            p1_state: PlayerState::new(),
            p2_state: PlayerState::new(),
        }
    }

    /// Whether this state holds few enough stones for every score to fit in
    /// an `i8`.
    pub fn is_well_formed(&self) -> (r: bool)
        ensures
            r == self.wf(),
    {
        let a = &self.p1_state;
        let b = &self.p2_state;
        let total: u32 = a.store as u32 + a.holes[0] as u32 + a.holes[1] as u32 + a.holes[2] as u32
            + a.holes[3] as u32 + a.holes[4] as u32 + a.holes[5] as u32 + b.store as u32
            + b.holes[0] as u32 + b.holes[1] as u32 + b.holes[2] as u32 + b.holes[3] as u32
            + b.holes[4] as u32 + b.holes[5] as u32;
        total <= MAX_STONES as u32
    }

    /// Returns a reference to the state for the given player.
    pub fn player(&self, player: Player) -> (r: &PlayerState)
        ensures
            *r == self.side(player),
    {
        match player {
            Player::Player1 => &self.p1_state,
            Player::Player2 => &self.p2_state,
        }
    }

    /// Returns a mutable reference to the state for the given player.
    pub fn player_mut(&mut self, player: Player) -> (r: &mut PlayerState)
        ensures
            *r == old(self).side(player),
            *final(self) == old(self).with_side(player, *final(r)),
    {
        match player {
            Player::Player1 => &mut self.p1_state,
            Player::Player2 => &mut self.p2_state,
        }
    }

    /// Adds one stone to ring slot `k` of mover `m`.
    fn add_to_ring(&mut self, m: Player, k: usize)
        requires
            k < RING_SLOTS,
            old(self).ring(m, k as int) < u8::MAX,
        ensures
            forall|j: int|
                0 <= j < 13 ==> final(self).ring(m, j) == old(self).ring(m, j) + if j == k {
                    1int
                } else {
                    0int
                },
            final(self).side(m.opponent()).store == old(self).side(m.opponent()).store,
            final(self).cur_player == old(self).cur_player,
            final(self).total() == old(self).total() + 1,
    {
        if k < 6 {
            let side = self.player_mut(m);
            side.holes[5 - k] = side.holes[5 - k] + 1;
        } else if k == 6 {
            let side = self.player_mut(m);
            side.store = side.store + 1;
        } else {
            let side = self.player_mut(m.other());
            side.holes[12 - k] = side.holes[12 - k] + 1;
        }
    }

    /// Sows `num_stones` stones one by one into the ring slots of mover `m`
    /// after `start`, and returns the slot of the last one.
    #[verifier::rlimit(40)]
    fn sow(&mut self, m: Player, start: usize, num_stones: u8) -> (slot: usize)
        requires
            start < RING_SLOTS,
            old(self).total() + num_stones <= MAX_STONES,
        ensures
            slot < RING_SLOTS,
            slot == (start + num_stones) % 13,
            forall|k: int|
                0 <= k < 13 ==> #[trigger] final(self).ring(m, k) == old(self).ring(m, k)
                    + sown_count(num_stones as int, start as int, k),
            final(self).side(m.opponent()).store == old(self).side(m.opponent()).store,
            final(self).cur_player == old(self).cur_player,
            final(self).total() == old(self).total() + num_stones,
    {
        let ghost g = *self;
        let mut slot: usize = start;
        let mut left: u8 = num_stones;
        proof {
            assert forall|k: int| 0 <= k < 13 implies #[trigger] sown_count(0, start as int, k)
                == 0 by {
                reveal(sown_count);
            }
        }
        while left > 0
            invariant
                slot < 13,
                left <= num_stones,
                slot as int == (start + (num_stones - left)) % 13,
                forall|k: int|
                    0 <= k < 13 ==> #[trigger] self.ring(m, k) == g.ring(m, k) + sown_count(
                        num_stones - left,
                        start as int,
                        k,
                    ),
                self.side(m.opponent()).store == g.side(m.opponent()).store,
                self.cur_player == g.cur_player,
                self.total() + left == g.total() + num_stones,
                g.total() + num_stones <= MAX_STONES,
                start < 13,
            decreases left,
        {
            slot = if slot == 12 {
                0
            } else {
                slot + 1
            };
            let ghost before = *self;
            let ghost i: int = num_stones - left;
            proof {
                assert(slot as int == (start + (num_stones - left) + 1) % 13);
                assert forall|k: int| 0 <= k < 13 implies #[trigger] sown_count(
                    num_stones - left + 1,
                    start as int,
                    k,
                ) == sown_count(num_stones - left, start as int, k) + if k == slot {
                    1int
                } else {
                    0int
                } by {
                    lemma_sown_step(num_stones - left, start as int, k);
                }
                assert(self.ring(m, slot as int) <= self.total());
            }
            self.add_to_ring(m, slot);
            left = left - 1;
            assert forall|k: int| 0 <= k < 13 implies #[trigger] self.ring(m, k) == g.ring(m, k)
                + sown_count(num_stones - left, start as int, k) by {
                assert(self.ring(m, k) == before.ring(m, k) + if k == slot {
                    1int
                } else {
                    0int
                });
                assert(before.ring(m, k) == g.ring(m, k) + sown_count(i, start as int, k));
                assert(sown_count(i + 1, start as int, k) == sown_count(i, start as int, k) + if k
                    == slot {
                    1int
                } else {
                    0int
                });
                assert(num_stones - left == i + 1);
            }
        }
        slot
    }

    /// Completes a move of `m` whose last stone landed in ring slot `slot`:
    /// captures if the slot is an empty-before hole of `m` facing stones, and
    /// passes the turn unless the slot is `m`'s store.
    fn finish_move(&mut self, m: Player, slot: usize)
        requires
            slot < RING_SLOTS,
            old(self).wf(),
            old(self).cur_player == m,
        ensures
            ({
                let cap = slot < 6 && old(self).ring(m, slot as int) == 1 && old(self).ring(
                    m,
                    12 - slot,
                ) > 0;
                forall|k: int|
                    0 <= k < 13 ==> #[trigger] final(self).ring(m, k) == if cap && (k == slot || k
                        == 12 - slot) {
                        0
                    } else if cap && k == 6 {
                        old(self).ring(m, 6) + old(self).ring(m, 12 - slot) + 1
                    } else {
                        old(self).ring(m, k)
                    }
            }),
            final(self).side(m.opponent()).store == old(self).side(m.opponent()).store,
            final(self).cur_player == if slot == 6 {
                m
            } else {
                m.opponent()
            },
            final(self).total() == old(self).total(),
    {
        if slot < 6 {
            let own_hole = 5 - slot;
            let opposite = slot;
            if self.player(m).holes[own_hole] == 1 {
                let captured_stones = self.player(m.other()).holes[opposite];
                if captured_stones > 0 {
                    let other_side = self.player_mut(m.other());
                    other_side.holes[opposite] = 0;
                    let own_side = self.player_mut(m);
                    own_side.holes[own_hole] = 0;
                    own_side.store = own_side.store + captured_stones + 1;
                }
            }
            self.cur_player = m.other();
        } else if slot > 6 {
            self.cur_player = m.other();
        }
    }

    /// Given the current player's hole selection, updates the game state:
    /// the hole's stones are sown one by one into the following slots,
    /// skipping the opponent's store; a last stone landing in an empty hole of
    /// the mover captures the opposite hole when that hole holds stones; a last
    /// stone landing in the mover's store gives the mover another turn.
    pub fn make_move(&mut self, hole: usize)
        requires
            old(self).wf(),
            !old(self).is_over(),
            hole < HOLES_PER_SIDE,
            old(self).side(old(self).cur_player).holes[hole as int] > 0,
        ensures
            forall|k: int|
                0 <= k < 13 ==> final(self).ring(old(self).cur_player, k) == old(self).after_move(
                    hole as int,
                    k,
                ),
            final(self).side(old(self).cur_player.opponent()).store == old(self).side(
                old(self).cur_player.opponent(),
            ).store,
            final(self).cur_player == old(self).next_player(hole as int),
            final(self).total() == old(self).total(),
            final(self).wf(),
            0 <= final(self).progress() < old(self).progress(),
            old(self).is_move(hole as int, *final(self)),
    {
        let cur_player = self.cur_player;
        let ghost g0 = *self;
        let start: usize = 5 - hole;

        // take the stones out of the selected hole
        let side = self.player_mut(cur_player);
        let num_stones = side.holes[hole];
        side.holes[hole] = 0;
        assert(forall|k: int|
            0 <= k < 13 ==> self.ring(cur_player, k) == if k == start {
                0
            } else {
                g0.ring(cur_player, k)
            });

        let slot = self.sow(cur_player, start, num_stones);
        let ghost g2 = *self;
        assert(slot as int == g0.last_slot(hole as int));
        assert(forall|k: int|
            0 <= k < 13 ==> #[trigger] g2.ring(cur_player, k) == g0.after_sowing(hole as int, k));

        self.finish_move(cur_player, slot);
        assert(forall|k: int|
            0 <= k < 13 ==> #[trigger] self.ring(cur_player, k) == g0.after_move(hole as int, k));
        proof {
            lemma_move_progress(g0, *self, hole as int);
        }
    }

    /// Returns the final game result, Player 1's score minus Player 2's, or None
    /// if the game is not yet over in this state.
    pub fn result(&self) -> (r: Option<i8>)
        requires
            self.wf(),
        ensures
            r is Some <==> self.is_over(),
            r is Some ==> r.unwrap() as int == self.final_score(),
    {
        let p1_stones = self.p1_state.stones_in_holes();
        let p2_stones = self.p2_state.stones_in_holes();
        if p1_stones == 0 || p2_stones == 0 {
            let p1_score = self.p1_state.store + p1_stones;
            let p2_score = self.p2_state.store + p2_stones;
            return Some((p1_score as i8) - (p2_score as i8));
        }
        None
    }

    /// Returns the valid moves that can be made from this state, in
    /// ascending order.
    pub fn valid_moves(&self) -> (r: Vec<usize>)
        ensures
            r@ == self.legal_moves(),
    {
        self.player(self.cur_player).non_empty_holes()
    }
}

impl Default for GameState {
    fn default() -> (r: GameState)
        ensures
            r.cur_player == Player::Player1,
            r.p1_state.store == 0,
            r.p2_state.store == 0,
            forall|i: int|
                0 <= i < 6 ==> r.p1_state.holes[i] == INITIAL_STONES_PER_HOLE
                    && r.p2_state.holes[i] == INITIAL_STONES_PER_HOLE,
            r.wf(),
    {
        GameState::new()
    }
}

proof fn lemma_non_empty_below(p: PlayerState, n: int)
    requires
        0 <= n <= 6,
    ensures
        p.non_empty_below(n).len() <= n,
        forall|j: int|
            0 <= j < p.non_empty_below(n).len() ==> {
                let h = #[trigger] p.non_empty_below(n)[j];
                h < n && p.holes[h as int] > 0
            },
        p.non_empty_below(n).len() == 0 <==> forall|i: int| 0 <= i < n ==> p.holes[i] == 0,
    decreases n,
{
    if n > 0 {
        lemma_non_empty_below(p, n - 1);
        let prev = p.non_empty_below(n - 1);
        let cur = p.non_empty_below(n);
        if p.holes[n - 1] > 0 {
            assert forall|j: int| 0 <= j < cur.len() implies {
                let h = #[trigger] cur[j];
                h < n && p.holes[h as int] > 0
            } by {
                if j < prev.len() {
                    assert(cur[j] == prev[j]);
                }
            }
        }
    }
}

/// The legal moves are holes of the player to move that hold stones; there
/// are none exactly when that player's holes are all empty.
pub proof fn lemma_legal_moves(g: GameState)
    ensures
        g.legal_moves().len() <= HOLES_PER_SIDE,
        forall|j: int|
            0 <= j < g.legal_moves().len() ==> #[trigger] g.legal_moves()[j] < HOLES_PER_SIDE
                && g.side(g.cur_player).holes[g.legal_moves()[j] as int] > 0,
        g.legal_moves().len() == 0 <==> g.side(g.cur_player).stones() == 0,
        g.legal_moves().len() == 0 ==> g.is_over(),
{
    lemma_non_empty_below(g.side(g.cur_player), 6);
}

/// A position has no legal moves exactly when it is over, for every
/// position except those where the player to move still has stones while the
/// other side's holes are empty (over, with moves left).
pub proof fn lemma_no_moves_iff_over(g: GameState)
    requires
        !(g.side(g.cur_player).stones() > 0 && g.side(g.cur_player.opponent()).stones() == 0),
    ensures
        g.legal_moves().len() == 0 <==> g.is_over(),
{
    lemma_legal_moves(g);
}

} // verus!
