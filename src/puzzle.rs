//! The puzzle state: the live grid, the goal grid, the move history and the
//! session's timestamps.
use crate::grid::{
    can_move, empty_index, goal_cells, is_arrangement, lemma_cell_index, lemma_empty_index, lemma_goal_is_solved_arrangement,
    lemma_move_keeps_arrangement, lemma_row_col, lemma_step_target, moved, moved_all, side_fits,
    slide,
};
use crate::clock::now_millis;
use crate::grid::is_direction;
use crate::random::draw_below;
use crate::text::{decimal_string, hms_text, upper_of, uppercase};
use vstd::prelude::*;
use vstd::string::StrSliceExecFns;
use vstd::string::StringExecFns;

verus! {

/// An N×N sliding-tile puzzle in play.
pub struct Puzzle {
    /// The direction tokens attempted since the history was last reset.
    pub cmds_str: String,
    mode: usize,
    puzzle: Vec<i32>,
    correct_puzzle: Vec<i32>,
    /// Milliseconds since the Unix epoch when the puzzle was made.
    pub start_time: u128,
    /// Milliseconds since the Unix epoch when the goal was last seen reached;
    /// `0` before that.
    pub end_time: u128,
}

/// Whether the move in `s` (one direction character) can be made on `g`.
pub open spec fn applies(g: Seq<i32>, n: nat, s: Seq<char>) -> bool {
    s.len() == 1 && can_move(g, n, s[0])
}

/// The grid after attempting the move written as the token `s`: a token that
/// is not exactly one direction character changes nothing.
pub open spec fn moved_by_token(g: Seq<i32>, n: nat, s: Seq<char>) -> Seq<i32> {
    if s.len() == 1 {
        moved(g, n, s[0])
    } else {
        g
    }
}

/// Whether the first `k` moves of `cmds`, with `k ≥ 1`, bring `g` to the goal.
pub open spec fn solves_at(g: Seq<i32>, n: nat, cmds: Seq<char>, k: int) -> bool {
    1 <= k <= cmds.len() && moved_all(g, n, cmds.take(k)) == goal_cells(n)
}

/// The number of random moves a shuffle attempts.
pub const SHUFFLE_MOVES: usize = 1000;

/// The milliseconds from `start` to `now`, or `0` when `now` is earlier.
pub open spec fn elapsed_ms(start: u128, now: u128) -> nat {
    if now >= start {
        (now - start) as nat
    } else {
        0
    }
}

/// Whether `added` is a run of direction characters.
pub open spec fn all_directions(added: Seq<char>) -> bool {
    forall|i: int| 0 <= i < added.len() ==> is_direction(#[trigger] added[i])
}

/// The move token for draw `i`: `U`, `D`, `L`, `R` for `0`, `1`, `2`, `3`.
fn direction_token(i: usize) -> (r: &'static str)
    requires
        i < 4,
    ensures
        r@.len() == 1,
        is_direction(r@[0]),
{
    proof {
        reveal_strlit("U");
        reveal_strlit("D");
        reveal_strlit("L");
        reveal_strlit("R");
    }
    if i == 0 {
        "U"
    } else if i == 1 {
        "D"
    } else if i == 2 {
        "L"
    } else {
        "R"
    }
}

impl Puzzle {
    /// The side N of the grid.
    pub closed spec fn side(&self) -> nat {
        self.mode as nat
    }

    /// The live grid, row-major.
    pub closed spec fn cells(&self) -> Seq<i32> {
        self.puzzle@
    }

    /// The move history.
    pub closed spec fn history(&self) -> Seq<char> {
        self.cmds_str@
    }

    /// The start timestamp.
    pub closed spec fn started(&self) -> u128 {
        self.start_time
    }

    /// The end timestamp.
    pub closed spec fn ended(&self) -> u128 {
        self.end_time
    }

    /// The goal grid, row-major.
    pub closed spec fn goal(&self) -> Seq<i32> {
        self.correct_puzzle@
    }

    /// A side of at least 2 whose labels fit in `i32`, a live grid that is a
    /// valid arrangement, and the goal grid in goal order.
    pub open spec fn wf(&self) -> bool {
        &&& 2 <= self.side()
        &&& side_fits(self.side())
        &&& is_arrangement(self.cells(), self.side())
        &&& self.goal() == goal_cells(self.side())
    }

    /// Whether the live grid matches the goal grid.
    pub open spec fn is_solved(&self) -> bool {
        self.cells() == goal_cells(self.side())
    }

    /// The row and column of the empty cell.
    fn find_0(&self) -> (r: Option<(usize, usize)>)
        requires
            self.wf(),
        ensures
            r matches Some((i, j)) && i < self.mode && j < self.mode && i * self.mode + j
                == empty_index(self.cells()),
    {
        let n = self.mode;
        let total = n * n;
        proof {
            lemma_empty_index(self.cells(), self.side());
        }
        let mut k: usize = 0;
        while k < total
            invariant
                n == self.mode,
                total == n * n,
                self.wf(),
                0 <= k <= total,
                forall|j: int| 0 <= j < k ==> self.puzzle@[j] != 0,
            decreases total - k,
        {
            if self.puzzle[k] == 0 {
                let i = k / n;
                let j = k % n;
                proof {
                    assert(self.puzzle@[k as int] == 0);
                    lemma_row_col(n as int, k as int);
                }
                return Some((i, j));
            }
            k = k + 1;
        }
        proof {
            assert(self.puzzle@[empty_index(self.cells())] == 0);
        }
        None
    }

    /// Attempts to move the empty cell one step in `direction` (`U`, `D`, `L`
    /// or `R`). The token is added to the history whether or not the move can
    /// be made. Returns `direction` when the grid changed and `""` when the
    /// move ran off the edge or the token names no direction.
    pub fn move_tile<'a>(&'a mut self, direction: &'a str) -> (r: &'a str)
        requires
            old(self).wf(),
        ensures
            final(self).wf(),
            final(self).side() == old(self).side(),
            final(self).history() == old(self).history() + direction@,
            final(self).cells() == moved_by_token(old(self).cells(), old(self).side(), direction@),
            r@ == (if applies(old(self).cells(), old(self).side(), direction@) {
                direction@
            } else {
                Seq::<char>::empty()
            }),
            final(self).started() == old(self).started(),
            final(self).ended() == old(self).ended(),
    {
        proof {
            reveal_strlit("");
            if direction@.len() == 1 {
                lemma_move_keeps_arrangement(self.cells(), self.side(), direction@[0]);
            }
        }
        self.cmds_str.append(direction);
        let found = self.find_0();
        let (r, c) = match found {
            Some(p) => p,
            None => return "",
        };
        if direction.unicode_len() != 1 {
            return "";
        }
        let ch = direction.get_char(0);
        let n = self.mode;
        proof {
            lemma_cell_index(n as int, r as int, c as int);
        }
        if (r == 0 && ch == 'U') || (r == n - 1 && ch == 'D') || (c == 0 && ch == 'L') || (c == n
            - 1 && ch == 'R') {
            return "";
        }
        let ghost g = self.cells();
        proof {
            if can_move(g, self.side(), ch) {
                lemma_step_target(g, self.side(), ch);
            }
        }
        let z = r * n + c;
        let t = if ch == 'U' {
            z - n
        } else if ch == 'D' {
            z + n
        } else if ch == 'L' {
            z - 1
        } else if ch == 'R' {
            z + 1
        } else {
            return "";
        };
        let tile = self.puzzle[t];
        self.puzzle.set(z, tile);
        self.puzzle.set(t, 0);
        proof {
            assert(self.cells() =~= slide(g, z as int, t as int));
        }
        direction
    }

    /// A puzzle of side `mode` laid out in goal order, not shuffled, with an
    /// empty history, `start_time` as its start and no end time.
    pub fn in_goal_order(mode: usize, start_time: u128) -> (r: Puzzle)
        requires
            2 <= mode,
            side_fits(mode as nat),
        ensures
            r.wf(),
            r.side() == mode,
            r.cells() == goal_cells(mode as nat),
            r.history() == Seq::<char>::empty(),
            r.started() == start_time,
            r.ended() == 0,
    {
        let total = mode * mode;
        let mut puzzle: Vec<i32> = Vec::new();
        let mut correct_puzzle: Vec<i32> = Vec::new();
        let mut k: usize = 0;
        while k < total
            invariant
                total == mode * mode,
                side_fits(mode as nat),
                0 <= k <= total,
                puzzle@.len() == k,
                correct_puzzle@ == puzzle@,
                forall|j: int| 0 <= j < k ==> #[trigger] puzzle@[j] == goal_cells(mode as nat)[j],
            decreases total - k,
        {
            let label: i32 = if k == total - 1 {
                0
            } else {
                (k + 1) as i32
            };
            puzzle.push(label);
            correct_puzzle.push(label);
            k = k + 1;
        }
        let r = Puzzle {
            cmds_str: String::new(),
            mode,
            puzzle,
            correct_puzzle,
            start_time,
            end_time: 0,
        };
        proof {
            assert(r.cells() =~= goal_cells(mode as nat));
            lemma_goal_is_solved_arrangement(mode as nat);
        }
        r
    }

    /// A puzzle of side `mode`, started now, shuffled by `SHUFFLE_MOVES`
    /// random move attempts from goal order; the history holds those attempts.
    pub fn new(mode: usize) -> (r: Puzzle)
        requires
            2 <= mode,
            side_fits(mode as nat),
        ensures
            r.wf(),
            r.side() == mode,
            r.history().len() == SHUFFLE_MOVES,
            all_directions(r.history()),
            r.cells() == moved_all(goal_cells(mode as nat), mode as nat, r.history()),
            r.ended() == 0,
    {
        let start_time = now_millis();
        let mut instance = Puzzle::in_goal_order(mode, start_time);
        instance.shuffle();
        proof {
            assert(instance.history().skip(0) =~= instance.history());
        }
        instance
    }

    /// Attempts `SHUFFLE_MOVES` moves, each in a direction drawn at random;
    /// moves off the edge change nothing. Each attempt is added to the history.
    pub fn shuffle(&mut self)
        requires
            old(self).wf(),
        ensures
            final(self).wf(),
            final(self).side() == old(self).side(),
            final(self).history().len() == old(self).history().len() + SHUFFLE_MOVES,
            final(self).history().take(old(self).history().len() as int) == old(self).history(),
            all_directions(final(self).history().skip(old(self).history().len() as int)),
            final(self).cells() == moved_all(
                old(self).cells(),
                old(self).side(),
                final(self).history().skip(old(self).history().len() as int),
            ),
            final(self).started() == old(self).started(),
            final(self).ended() == old(self).ended(),
    {
        let ghost g0 = self.cells();
        let ghost h0 = self.history();
        let ghost n = self.side();
        let mut rng = rand::thread_rng();
        let mut i: usize = 0;
        proof {
            assert(h0.skip(h0.len() as int) =~= Seq::<char>::empty());
            assert(h0.take(h0.len() as int) =~= h0);
        }
        while i < SHUFFLE_MOVES
            invariant
                self.wf(),
                self.side() == n,
                g0 == old(self).cells(),
                h0 == old(self).history(),
                n == old(self).side(),
                0 <= i <= SHUFFLE_MOVES,
                self.history().len() == h0.len() + i,
                self.history().take(h0.len() as int) == h0,
                all_directions(self.history().skip(h0.len() as int)),
                self.cells() == moved_all(g0, n, self.history().skip(h0.len() as int)),
                self.started() == old(self).started(),
                self.ended() == old(self).ended(),
            decreases SHUFFLE_MOVES - i,
        {
            let pick = draw_below(&mut rng, 4);
            let token = direction_token(pick);
            let ghost before = self.history();
            let _ = self.move_tile(token);
            proof {
                let added = self.history().skip(h0.len() as int);
                assert(added.drop_last() =~= before.skip(h0.len() as int));
                assert(added.last() == token@[0]);
                assert forall|k: int| 0 <= k < added.len() implies is_direction(
                    #[trigger] added[k],
                ) by {
                    if k < added.len() - 1 {
                        assert(added[k] == before.skip(h0.len() as int)[k]);
                    }
                }
                assert(self.history().take(h0.len() as int) =~= before.take(h0.len() as int));
            }
            i = i + 1;
        }
    }

    /// Whether the puzzle is solved; when it is, the end time becomes the
    /// clock's reading now.
    pub fn check(&mut self) -> (r: bool)
        requires
            old(self).wf(),
        ensures
            r == old(self).is_solved(),
            !r ==> final(self).ended() == old(self).ended(),
            final(self).wf(),
            final(self).side() == old(self).side(),
            final(self).cells() == old(self).cells(),
            final(self).history() == old(self).history(),
            final(self).started() == old(self).started(),
    {
        let now = now_millis();
        self.check_at(now)
    }

    /// Replays `sequence` as a move script: the history is cleared, the
    /// script is upper-cased, and each character is attempted as a move in
    /// turn. Returns `true`, with the end time set to the clock's reading,
    /// right after the first move that leaves the grid solved; returns `false`
    /// when the script runs out first.
    pub fn move_sequence(&mut self, sequence: &str) -> (r: bool)
        requires
            old(self).wf(),
        ensures
            final(self).wf(),
            final(self).side() == old(self).side(),
            r == exists|k: int|
                solves_at(old(self).cells(), old(self).side(), upper_of(sequence@), k),
            r ==> exists|k: int|
                {
                    &&& solves_at(old(self).cells(), old(self).side(), upper_of(sequence@), k)
                    &&& forall|j: int|
                        1 <= j < k ==> !solves_at(
                            old(self).cells(),
                            old(self).side(),
                            upper_of(sequence@),
                            j,
                        )
                    &&& final(self).history() == upper_of(sequence@).take(k)
                },
            !r ==> final(self).history() == upper_of(sequence@),
            !r ==> final(self).ended() == old(self).ended(),
            final(self).cells() == moved_all(old(self).cells(), old(self).side(), final(self).history()),
            final(self).started() == old(self).started(),
    {
        let upper = uppercase(sequence);
        let solved = self.replay_moves(upper.as_str());
        if solved {
            self.end_time = now_millis();
        }
        solved
    }

    /// The time since the start, read from the clock, as `hours:minutes:seconds`.
    pub fn duration(&self) -> (r: String)
        ensures
            exists|now: u128| r@ == hms_text(#[trigger] elapsed_ms(self.started(), now)),
    {
        let now = now_millis();
        self.duration_at(now)
    }

    /// The time from the start to `now` as `hours:minutes:seconds`; `0:0:0`
    /// when `now` is before the start.
    pub fn duration_at(&self, now: u128) -> (r: String)
        ensures
            r@ == hms_text(elapsed_ms(self.started(), now)),
    {
        let elapsed = if now >= self.start_time {
            now - self.start_time
        } else {
            0
        };
        self.format_duration(elapsed)
    }

    /// `duration` milliseconds as `hours:minutes:seconds`, each in decimal
    /// without padding: 3 661 000 gives `1:1:1`, 5 000 gives `0:0:5`.
    pub fn format_duration(&self, duration: u128) -> (r: String)
        ensures
            r@ == hms_text(duration as nat),
    {
        let hours = duration / 3_600_000;
        let minutes = (duration % 3_600_000) / 60_000;
        let seconds = (duration % 60_000) / 1_000;
        let mut out = decimal_string(hours);
        let m = decimal_string(minutes);
        let s = decimal_string(seconds);
        proof {
            reveal_strlit(":");
        }
        out.append(":");
        out.append(m.as_str());
        out.append(":");
        out.append(s.as_str());
        proof {
            assert(out@ =~= hms_text(duration as nat));
        }
        out
    }

    /// The side N of the grid.
    pub fn size(&self) -> (r: usize)
        ensures
            r == self.side(),
    {
        self.mode
    }

    /// The labels of row `row`, left to right.
    pub fn row(&self, row: usize) -> (r: Vec<i32>)
        requires
            self.wf(),
            row < self.side(),
        ensures
            r@ == self.cells().subrange(row * self.side(), row * self.side() + self.side()),
    {
        let n = self.mode;
        proof {
            lemma_cell_index(n as int, row as int, 0);
            lemma_cell_index(n as int, row as int, n - 1);
        }
        let first = row * n;
        let mut out: Vec<i32> = Vec::new();
        let mut j: usize = 0;
        while j < n
            invariant
                n == self.mode,
                self.wf(),
                row < n,
                first == row * n,
                first + n <= n * n,
                0 <= j <= n,
                out@ == self.cells().subrange(first as int, first + j),
            decreases n - j,
        {
            out.push(self.puzzle[first + j]);
            j = j + 1;
            proof {
                assert(out@ =~= self.cells().subrange(first as int, first + j));
            }
        }
        out
    }

    /// Whether the live grid matches the goal grid, cell by cell.
    fn at_goal(&self) -> (r: bool)
        requires
            self.wf(),
        ensures
            r == self.is_solved(),
    {
        let total = self.mode * self.mode;
        let mut k: usize = 0;
        while k < total
            invariant
                total == self.mode * self.mode,
                self.wf(),
                0 <= k <= total,
                forall|j: int| 0 <= j < k ==> self.puzzle@[j] == self.correct_puzzle@[j],
            decreases total - k,
        {
            if self.puzzle[k] != self.correct_puzzle[k] {
                return false;
            }
            k = k + 1;
        }
        proof {
            assert(self.cells() =~= self.goal());
        }
        true
    }

    /// Replays `moves` character by character, each as a move token, after
    /// clearing the history; characters are taken as given, so only upper
    /// case `U`, `D`, `L`, `R` move. Stops with `true` right after the first
    /// move that leaves the grid solved, and returns `false` when the moves
    /// run out first. The end time is left as it was.
    pub fn replay_moves(&mut self, moves: &str) -> (r: bool)
        requires
            old(self).wf(),
        ensures
            final(self).wf(),
            final(self).side() == old(self).side(),
            r == exists|k: int| solves_at(old(self).cells(), old(self).side(), moves@, k),
            r ==> exists|k: int|
                {
                    &&& solves_at(old(self).cells(), old(self).side(), moves@, k)
                    &&& forall|j: int|
                        1 <= j < k ==> !solves_at(old(self).cells(), old(self).side(), moves@, j)
                    &&& final(self).history() == moves@.take(k)
                },
            !r ==> final(self).history() == moves@,
            final(self).cells() == moved_all(old(self).cells(), old(self).side(), final(self).history()),
            final(self).started() == old(self).started(),
            final(self).ended() == old(self).ended(),
    {
        let ghost g0 = self.cells();
        let ghost n = self.side();
        self.cmds_str = String::new();
        let len = moves.unicode_len();
        let mut i: usize = 0;
        proof {
            assert(moves@.take(0) =~= Seq::<char>::empty());
        }
        while i < len
            invariant
                self.wf(),
                self.side() == n,
                g0 == old(self).cells(),
                n == old(self).side(),
                len == moves@.len(),
                0 <= i <= len,
                self.history() == moves@.take(i as int),
                self.cells() == moved_all(g0, n, moves@.take(i as int)),
                forall|j: int| 1 <= j <= i ==> !solves_at(g0, n, moves@, j),
                self.started() == old(self).started(),
                self.ended() == old(self).ended(),
            decreases len - i,
        {
            let step = moves.substring_char(i, i + 1);
            let _ = self.move_tile(step);
            proof {
                let next = moves@.take(i + 1);
                assert(step@ =~= seq![moves@[i as int]]);
                assert(next.drop_last() =~= moves@.take(i as int));
                assert(self.history() =~= next);
            }
            i = i + 1;
            if self.at_goal() {
                proof {
                    assert(solves_at(g0, n, moves@, i as int));
                }
                return true;
            }
        }
        proof {
            assert(moves@.take(len as int) =~= moves@);
        }
        false
    }

    /// Whether the puzzle is solved; when it is, `now` becomes the end time.
    pub fn check_at(&mut self, now: u128) -> (r: bool)
        requires
            old(self).wf(),
        ensures
            r == old(self).is_solved(),
            final(self).ended() == (if r {
                now
            } else {
                old(self).ended()
            }),
            final(self).wf(),
            final(self).side() == old(self).side(),
            final(self).cells() == old(self).cells(),
            final(self).history() == old(self).history(),
            final(self).started() == old(self).started(),
    {
        if self.at_goal() {
            self.end_time = now;
            true
        } else {
            false
        }
    }
}

} // verus!
