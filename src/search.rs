use rand::Rng;
use vstd::prelude::*;

use crate::marker::{other, PlayerMarker};
use crate::moves::{MetaMove, PossibleMoves};
use crate::state::{applied, lemma_legal_moves_ok, legal_run, path_of, plays, GameState, StateView};

verus! {

/// Visit counts stay below this bound, so that scores in half points never overflow.
pub const VISIT_CAP: u64 = 0x1000_0000_0000_0000;

/// Relies on rand's `Rng::gen_range` over `thread_rng()`: a number drawn from
/// `0..n`; `gen_range` panics on an empty range, hence `n > 0`.
#[verifier::external_body]
pub(crate) fn random_below(n: usize) -> (r: usize)
    requires
        n > 0,
    ensures
        r < n,
{
    rand::thread_rng().gen_range(0..n)
}

proof fn lemma_product_fits(a: u64, b: u64)
    ensures
        (a as int) * (b as int) <= u128::MAX,
{
    assert((a as int) * (b as int) <= (u64::MAX as int) * (u64::MAX as int)) by (nonlinear_arith)
        requires
            0 <= a <= u64::MAX,
            0 <= b <= u64::MAX,
    ;
}

proof fn lemma_rate_order(sa: int, va: int, sb: int, vb: int, sc: int, vc: int)
    requires
        va > 0,
        vb > 0,
        vc > 0,
        sa * vb <= sb * va,
        sb * vc < sc * vb,
    ensures
        sa * vc < sc * va,
{
    assert(sa * vb * vc <= sb * va * vc) by (nonlinear_arith)
        requires
            sa * vb <= sb * va,
            vc > 0,
    ;
    assert(sb * vc * va < sc * vb * va) by (nonlinear_arith)
        requires
            sb * vc < sc * vb,
            va > 0,
    ;
    assert(sa * vc * vb < sc * va * vb) by (nonlinear_arith)
        requires
            sa * vb * vc <= sb * va * vc,
            sb * vc * va < sc * vb * va,
    ;
    assert(sa * vc < sc * va) by (nonlinear_arith)
        requires
            sa * vc * vb < sc * va * vb,
            vb > 0,
    ;
}

/// The value of a finished game, in half points, for the player who did not move
/// last when `to_move` is the player to move: a draw is 1, a win by the player
/// who moved last 2, anything else 0.
pub open spec fn terminal_score(winner: PlayerMarker, to_move: PlayerMarker) -> u64 {
    if winner == PlayerMarker::Empty {
        1
    } else if winner == to_move {
        0
    } else {
        2
    }
}

/// The exploration term of the selection rule. For a visited child it ranks the
/// child from the parent's visit count and the child's score (in half points) and
/// visit count; a larger value is preferred.
pub trait Exploration {
    fn priority(&self, parent_visits: u64, child_score: u64, child_visits: u64) -> u64;
}

/// A node of the search tree: the move that leads to it (none at the root), its
/// children once expanded, and its statistics. `score` counts half points for the
/// player who made `move_`: a win adds 2, a draw 1, a loss 0.
pub struct GameTreeKnot {
    pub children: Vec<GameTreeKnot>,
    pub move_: Option<MetaMove>,
    pub score: u64,
    pub visit_count: u64,
}

/// Some child is still unvisited.
pub open spec fn has_unvisited(ch: Seq<GameTreeKnot>) -> bool {
    exists|j: int| 0 <= j < ch.len() && (#[trigger] ch[j]).visit_count == 0
}

/// The visit counts of `ch`, summed.
pub open spec fn visits_sum(ch: Seq<GameTreeKnot>) -> int
    decreases ch.len(),
{
    if ch.len() == 0 {
        0
    } else {
        visits_sum(ch.drop_last()) + ch.last().visit_count
    }
}

proof fn lemma_visits_sum_update(ch: Seq<GameTreeKnot>, i: int, c: GameTreeKnot)
    requires
        0 <= i < ch.len(),
    ensures
        visits_sum(ch.update(i, c)) == visits_sum(ch) - ch[i].visit_count + c.visit_count,
    decreases ch.len(),
{
    let u = ch.update(i, c);
    if i == ch.len() - 1 {
        assert(u.drop_last() =~= ch.drop_last());
    } else {
        lemma_visits_sum_update(ch.drop_last(), i, c);
        assert(u.drop_last() =~= ch.drop_last().update(i, c));
    }
}

proof fn lemma_visits_sum_push(ch: Seq<GameTreeKnot>, c: GameTreeKnot)
    ensures
        visits_sum(ch.push(c)) == visits_sum(ch) + c.visit_count,
{
    assert(ch.push(c).drop_last() =~= ch);
}

/// Some child has been visited.
pub open spec fn has_visited(ch: Seq<GameTreeKnot>) -> bool {
    exists|j: int| 0 <= j < ch.len() && (#[trigger] ch[j]).visit_count > 0
}

/// The child that selection descends into: the first unvisited child if there is
/// one, otherwise the first child of highest priority.
pub open spec fn selected(ch: Seq<GameTreeKnot>, prio: Seq<u64>, r: int) -> bool {
    &&& 0 <= r < ch.len()
    &&& has_unvisited(ch) ==> ch[r].visit_count == 0 && forall|j: int|
        0 <= j < r ==> (#[trigger] ch[j]).visit_count != 0
    &&& !has_unvisited(ch) ==> (forall|j: int| 0 <= j < ch.len() ==> #[trigger] prio[j] <= prio[r])
        && (forall|j: int| 0 <= j < r ==> #[trigger] prio[j] < prio[r])
}

/// Child `a` has a strictly higher win rate than child `b`.
pub open spec fn higher_rate(a: GameTreeKnot, b: GameTreeKnot) -> bool {
    a.score * b.visit_count > b.score * a.visit_count
}

/// Child `i` is the first visited child of highest win rate.
pub open spec fn best_child(ch: Seq<GameTreeKnot>, i: int) -> bool {
    &&& 0 <= i < ch.len()
    &&& ch[i].visit_count > 0
    &&& forall|j: int|
        0 <= j < ch.len() && (#[trigger] ch[j]).visit_count > 0 ==> !higher_rate(ch[j], ch[i])
    &&& forall|j: int|
        0 <= j < i && (#[trigger] ch[j]).visit_count > 0 ==> higher_rate(ch[i], ch[j])
}

/// Child `i` is the first unvisited child.
pub open spec fn first_unvisited(ch: Seq<GameTreeKnot>, i: int) -> bool {
    &&& 0 <= i < ch.len()
    &&& ch[i].visit_count == 0
    &&& forall|j: int| 0 <= j < i ==> (#[trigger] ch[j]).visit_count != 0
}

/// An expanded node `a` became `b` by one iteration through one child: the same
/// children, one of them (the first unvisited, if any is) one iteration further
/// with outcome `2 - r` for its mover, the others untouched.
pub open spec fn descended(a: GameTreeKnot, b: GameTreeKnot, r: u64) -> bool {
    &&& b.children@.len() == a.children@.len()
    &&& exists|i: int|
        #![trigger b.children@[i]]
        0 <= i < a.children@.len() && (has_unvisited(a.children@) ==> first_unvisited(
            a.children@,
            i,
        )) && b.children@[i].visit_count == a.children@[i].visit_count + 1
            && b.children@[i].score + r == a.children@[i].score + 2 && forall|j: int|
            0 <= j < a.children@.len() && j != i ==> (#[trigger] b.children@[j]) == a.children@[j]
}

/// `b` is a node just expanded at position `v` with outcome `r`: one child per
/// legal move, in order; one of them played out once, its score (`2 - r`) being
/// the outcome for its mover of a game played to the end from its move by legal
/// moves; the others without statistics; a finished game scored as it stands.
pub open spec fn expanded(b: GameTreeKnot, v: StateView, r: u64) -> bool {
    &&& b.children@.len() == v.legal_moves().len()
    &&& forall|j: int|
        0 <= j < b.children@.len() ==> path_of((#[trigger] b.children@[j]).move_) == Some(
            v.legal_moves()[j],
        ) && b.children@[j].children@.len() == 0
    &&& v.legal_moves().len() == 0 ==> r == terminal_score(v.board.winner(), v.current_player)
    &&& v.legal_moves().len() > 0 ==> exists|k: int|
        #![trigger b.children@[k]]
        0 <= k < b.children@.len() && b.children@[k].visit_count == 1 && b.children@[k].score + r
            == 2 && (exists|ms: Seq<Seq<usize>>|
            #![trigger plays(v, ms)]
            ms.len() >= 1 && ms[0] == v.legal_moves()[k] && legal_run(v, ms) && plays(
                v,
                ms,
            ).legal_moves().len() == 0 && b.children@[k].score == terminal_score(
                plays(v, ms).board.winner(),
                other(v.current_player),
            )) && forall|j: int|
            0 <= j < b.children@.len() && j != k ==> (#[trigger] b.children@[j]).visit_count == 0
                && b.children@[j].score == 0
}

/// `b` is `a` after one iteration of the search at position `v`, with outcome `r`
/// for the player who made `a`'s move.
pub open spec fn one_iteration(a: GameTreeKnot, b: GameTreeKnot, v: StateView, r: u64) -> bool {
    &&& r <= 2
    &&& b.visit_count == a.visit_count + 1
    &&& b.score == a.score + r
    &&& path_of(b.move_) == path_of(a.move_)
    &&& b.stats_ok()
    &&& b.fits(v)
    &&& a.children@.len() > 0 ==> descended(a, b, r)
    &&& a.children@.len() == 0 ==> expanded(b, v, r)
}

/// Some child of `a` is reached by move `m`.
pub open spec fn has_child_for(a: GameTreeKnot, m: Seq<usize>) -> bool {
    exists|j: int| 0 <= j < a.children@.len() && path_of((#[trigger] a.children@[j]).move_) == Some(m)
}

/// Child `j` is the first child of `a` reached by move `m`.
pub open spec fn first_child_for(a: GameTreeKnot, m: Seq<usize>, j: int) -> bool {
    &&& 0 <= j < a.children@.len()
    &&& path_of(a.children@[j].move_) == Some(m)
    &&& forall|t: int| 0 <= t < j ==> path_of((#[trigger] a.children@[t]).move_) != Some(m)
}

/// `b` is `a` re-rooted at move `m`: the first child reached by `m`, statistics
/// and subtree kept, or else a new node for `m` without statistics.
pub open spec fn rerooted(a: GameTreeKnot, b: GameTreeKnot, m: Seq<usize>) -> bool {
    if has_child_for(a, m) {
        exists|j: int| #![trigger a.children@[j]] first_child_for(a, m, j) && b == a.children@[j]
    } else {
        b.children@.len() == 0 && b.score == 0 && b.visit_count == 0 && path_of(b.move_) == Some(m)
    }
}

/// Re-rooting a tree that fits a position at one of its moves gives a tree that
/// fits the position after that move.
pub proof fn lemma_reroot_fits(a: GameTreeKnot, b: GameTreeKnot, v: StateView, m: Seq<usize>)
    requires
        a.fits(v),
        rerooted(a, b, m),
    ensures
        b.fits(applied(v, m)),
{
    if has_child_for(a, m) {
        let j = choose|j: int| #![trigger a.children@[j]] first_child_for(a, m, j) && b == a.children@[j];
        assert(path_of(a.children@[j].move_) == Some(v.legal_moves()[j]));
    }
}

impl GameTreeKnot {
    /// An expanded node's children carry exactly the legal moves of its position
    /// `v`, in order, and each child's subtree fits the position after its move.
    pub open spec fn fits(self, v: StateView) -> bool
        decreases self,
    {
        self.children.len() > 0 ==> {
            &&& self.children.len() == v.legal_moves().len()
            &&& forall|i: int|
                0 <= i < self.children.len() ==> path_of((#[trigger] self.children@[i]).move_)
                    == Some(v.legal_moves()[i]) && self.children@[i].fits(
                    applied(v, v.legal_moves()[i]),
                )
        }
    }

    /// Scores stay within two half points per visit, the children together have
    /// no more visits than their parent, every child carries its move, and an
    /// expanded node has a visited child.
    pub open spec fn stats_ok(self) -> bool
        decreases self,
    {
        &&& self.score <= 2 * self.visit_count
        &&& visits_sum(self.children@) <= self.visit_count
        &&& self.children.len() > 0 ==> has_visited(self.children@)
        &&& forall|i: int|
            0 <= i < self.children.len() ==> (#[trigger] self.children@[i]).visit_count
                <= self.visit_count && self.children@[i].move_ is Some && self.children@[i].stats_ok()
    }

    /// A node without children or statistics.
    pub fn new(move_: Option<MetaMove>) -> (n: GameTreeKnot)
        ensures
            n.children@.len() == 0,
            path_of(n.move_) == path_of(move_),
            n.score == 0,
            n.visit_count == 0,
            n.stats_ok(),
    {
        GameTreeKnot { children: Vec::new(), move_, score: 0, visit_count: 0 }
    }

    /// Picks the child to descend into, given each child's priority.
    pub fn pick_child(&self, priorities: &Vec<u64>) -> (r: usize)
        requires
            self.children@.len() > 0,
            priorities@.len() == self.children@.len(),
        ensures
            selected(self.children@, priorities@, r as int),
    {
        let n = self.children.len();
        let mut i: usize = 0;
        while i < n
            invariant
                i <= n,
                n == self.children@.len(),
                forall|j: int| 0 <= j < i ==> (#[trigger] self.children@[j]).visit_count != 0,
            decreases n - i,
        {
            if self.children[i].visit_count == 0 {
                return i;
            }
            i = i + 1;
        }
        let mut best: usize = 0;
        let mut k: usize = 1;
        while k < n
            invariant
                1 <= k <= n,
                best < k,
                n == self.children@.len(),
                n == priorities@.len(),
                forall|j: int| 0 <= j < k ==> #[trigger] priorities@[j] <= priorities@[best as int],
                forall|j: int| 0 <= j < best ==> #[trigger] priorities@[j] < priorities@[best as int],
            decreases n - k,
        {
            if priorities[k] > priorities[best] {
                best = k;
            }
            k = k + 1;
        }
        best
    }

    /// The priority of each visited child; unvisited children get 0, as they are
    /// chosen before any visited one regardless.
    fn priorities<E: Exploration>(&self, explore: &E) -> (p: Vec<u64>)
        ensures
            p@.len() == self.children@.len(),
    {
        let n = self.children.len();
        let mut p: Vec<u64> = Vec::new();
        let mut i: usize = 0;
        while i < n
            invariant
                i <= n,
                n == self.children@.len(),
                p@.len() == i,
            decreases n - i,
        {
            let c = &self.children[i];
            if c.visit_count == 0 {
                p.push(0);
            } else {
                p.push(explore.priority(self.visit_count, c.score, c.visit_count));
            }
            i = i + 1;
        }
        p
    }

    /// The visited child with the strictly highest win rate, the first of them on
    /// a tie; none when no child has been visited.
    pub fn get_best_child_score(&self) -> (r: Option<usize>)
        ensures
            r is None <==> forall|j: int|
                0 <= j < self.children@.len() ==> (#[trigger] self.children@[j]).visit_count == 0,
            r matches Some(i) ==> best_child(self.children@, i as int),
    {
        let n = self.children.len();
        let mut best: Option<usize> = None;
        let mut i: usize = 0;
        while i < n
            invariant
                i <= n,
                n == self.children@.len(),
                best is None <==> forall|j: int|
                    0 <= j < i ==> (#[trigger] self.children@[j]).visit_count == 0,
                best matches Some(b) ==> b < i && best_child(self.children@.take(i as int), b as int),
            decreases n - i,
        {
            let c = &self.children[i];
            let ghost old_best = best;
            if c.visit_count > 0 {
                match best {
                    None => {
                        best = Some(i);
                    },
                    Some(b) => {
                        let cb = &self.children[b];
                        proof {
                            lemma_product_fits(c.score, cb.visit_count);
                            lemma_product_fits(cb.score, c.visit_count);
                        }
                        let lhs: u128 = (c.score as u128) * (cb.visit_count as u128);
                        let rhs: u128 = (cb.score as u128) * (c.visit_count as u128);
                        if lhs > rhs {
                            best = Some(i);
                        }
                    },
                }
            }
            proof {
                let ch = self.children@;
                let t = ch.take(i as int + 1);
                assert(forall|j: int| 0 <= j <= i ==> t[j] == ch[j]);
                let ti = ch.take(i as int);
                assert(forall|j: int| 0 <= j < i ==> ti[j] == ch[j]);
                if best == Some(i) && old_best is Some {
                    let b = old_best->Some_0 as int;
                    assert forall|j: int|
                        0 <= j < i && (#[trigger] ch[j]).visit_count > 0 implies higher_rate(
                        ch[i as int],
                        ch[j],
                    ) by {
                        if j != b {
                            assert(ti[j] == ch[j]);
                            lemma_rate_order(
                                ch[j].score as int,
                                ch[j].visit_count as int,
                                ch[b].score as int,
                                ch[b].visit_count as int,
                                ch[i as int].score as int,
                                ch[i as int].visit_count as int,
                            );
                        }
                    }
                }
            }
            i = i + 1;
        }
        proof {
            assert(self.children@.take(n as int) =~= self.children@);
        }
        best
    }

    /// Plays this node's move, which must be legal, then uniformly random legal
    /// moves until none is left, and records the outcome for the player who made
    /// this node's move: 2 half points for a win, 1 for a draw, 0 for a loss.
    pub fn playout(&mut self, state: &mut GameState) -> (r: u64)
        requires
            old(state)@.wf(),
            old(self).stats_ok(),
            old(self).visit_count < VISIT_CAP,
            old(self).move_ is Some,
            old(state)@.legal_moves().contains(old(self).move_->Some_0@),
        ensures
            final(state)@.wf(),
            final(state)@.legal_moves().len() == 0,
            exists|ms: Seq<Seq<usize>>|
                ms.len() >= 1 && ms[0] == old(self).move_->Some_0@ && legal_run(old(state)@, ms)
                    && plays(old(state)@, ms) == final(state)@,
            r == terminal_score(final(state).board.winner(), other(old(state).current_player)),
            final(self).visit_count == old(self).visit_count + 1,
            final(self).score == old(self).score + r,
            final(self).children == old(self).children,
            path_of(final(self).move_) == path_of(old(self).move_),
            final(self).stats_ok(),
    {
        let mover = state.current_player;
        let ghost d = state.board.depth();
        let ghost start = state@;
        let first = match &self.move_ {
            Some(m) => m.clone(),
            None => MetaMove::new_empty(),
        };
        proof {
            lemma_legal_moves_ok(start);
            let j = choose|j: int| 0 <= j < start.legal_moves().len() && start.legal_moves()[j] == first@;
            assert(start.board.move_ok(start.legal_moves()[j], d));
            state.board.lemma_after_set(first@, state.current_player, d);
        }
        let ghost m0 = first@;
        let applied_first = state.set(first);
        assert(applied_first is Ok);
        let ghost mut ms: Seq<Seq<usize>> = seq![m0];
        proof {
            assert(ms.drop_last() =~= Seq::<Seq<usize>>::empty());
            assert(plays(start, ms.drop_last()) == start);
            assert(ms.last() == m0);
            assert(start.legal_moves().contains(m0));
            assert(legal_run(start, ms.drop_last()));
            assert(plays(start, ms) == state@);
        }
        let mut moves = PossibleMoves::new();
        let mut scratch = MetaMove::new_empty();
        loop
            invariant
                state@.wf(),
                state.board.depth() == d,
                ms.len() >= 1,
                ms[0] == m0,
                legal_run(start, ms),
                plays(start, ms) == state@,
            ensures
                state@.wf(),
                state@.legal_moves().len() == 0,
                ms.len() >= 1,
                ms[0] == m0,
                legal_run(start, ms),
                plays(start, ms) == state@,
            decreases state.board.empty_count(d),
        {
            state.get_possible_moves(&mut moves, &mut scratch);
            if moves.is_empty() {
                break;
            }
            let idx = random_below(moves.len());
            let mv = moves.get(idx).clone();
            let ghost before = state@;
            proof {
                lemma_legal_moves_ok(state@);
                assert(state.board.move_ok(state@.legal_moves()[idx as int], d));
                state.board.lemma_after_set(mv@, state.current_player, d);
                assert(before.legal_moves().contains(mv@));
            }
            let applied_move = state.set(mv);
            assert(applied_move is Ok);
            proof {
                let ms2 = ms.push(mv@);
                assert(ms2.drop_last() =~= ms);
                assert(ms2[0] == m0);
                ms = ms2;
            }
        }
        let w = state.get_winner();
        let score: u64 = if w == PlayerMarker::Empty {
            1
        } else if w == mover {
            2
        } else {
            0
        };
        self.visit_count = self.visit_count + 1;
        self.score = self.score + score;
        score
    }

    /// Creates one unvisited child per legal move of `state`, plays out one of
    /// them chosen uniformly at random, and returns the outcome for the player
    /// who made this node's move. A finished game is scored as it stands.
    pub fn expand_and_playout(&mut self, state: GameState) -> (r: u64)
        requires
            state@.wf(),
            old(self).children@.len() == 0,
            old(self).stats_ok(),
            1 <= old(self).visit_count < VISIT_CAP,
        ensures
            r <= 2,
            final(self).visit_count == old(self).visit_count,
            final(self).score == old(self).score,
            path_of(final(self).move_) == path_of(old(self).move_),
            final(self).stats_ok(),
            final(self).fits(state@),
            expanded(*final(self), state@, r),
    {
        let mut moves = PossibleMoves::new();
        let mut scratch = MetaMove::new_empty();
        state.get_possible_moves(&mut moves, &mut scratch);
        if moves.is_empty() {
            let w = state.get_winner();
            return if w == PlayerMarker::Empty {
                1
            } else if w == state.current_player {
                0
            } else {
                2
            };
        }
        let n = moves.len();
        let mut j: usize = 0;
        while j < n
            invariant
                j <= n,
                n == moves@.len(),
                moves@ == state@.legal_moves(),
                self.children@.len() == j,
                self.visit_count == old(self).visit_count,
                1 <= self.visit_count < VISIT_CAP,
                self.score == old(self).score,
                self.score <= 2 * self.visit_count,
                visits_sum(self.children@) == 0,
                path_of(self.move_) == path_of(old(self).move_),
                forall|t: int|
                    0 <= t < j ==> (#[trigger] self.children@[t]).visit_count == 0 && path_of(
                        self.children@[t].move_,
                    ) == Some(moves@[t]) && self.children@[t].stats_ok()
                        && self.children@[t].score == 0 && self.children@[t].children@.len() == 0,
            decreases n - j,
        {
            let child = GameTreeKnot::new(Some(moves.get(j).clone()));
            proof {
                lemma_visits_sum_push(self.children@, child);
            }
            self.children.push(child);
            j = j + 1;
        }
        let k = random_below(n);
        let ghost v = state@;
        let mut st = state;
        assert(self.children@[k as int].stats_ok());
        assert(v.legal_moves()[k as int] == self.children@[k as int].move_->Some_0@);
        assert(v.legal_moves().contains(self.children@[k as int].move_->Some_0@));
        let ghost before = self.children@;
        let s = self.children[k].playout(&mut st);
        proof {
            lemma_visits_sum_update(before, k as int, self.children@[k as int]);
            assert(self.children@ =~= before.update(k as int, self.children@[k as int]));
        }
        assert(self.children@[k as int].visit_count > 0);
        proof {
            assert(forall|t: int| 0 <= t < n && t != k ==> self.children@[t] == before[t]);
            assert(self.children@[k as int].children@.len() == 0);
            assert forall|t: int| 0 <= t < n implies (#[trigger] self.children@[t]).fits(
                applied(v, v.legal_moves()[t]),
            ) by {
                assert(self.children@[t].children@.len() == 0);
            }
            assert(self.fits(v));
        }
        2 - s
    }

    /// One iteration of the search from this node: descends by the selection rule
    /// (unvisited children first), expands and plays out at the frontier, and adds
    /// the outcome to every node on the way, seen from the player who made that
    /// node's move. Every move applied to `state` on the way down is taken back,
    /// so `state` ends exactly as it began.
    pub fn select_and_backtrack<E: Exploration>(&mut self, state: &mut GameState, explore: &E) -> (r:
        u64)
        requires
            old(state)@.wf(),
            old(self).stats_ok(),
            old(self).fits(old(state)@),
            old(self).visit_count < VISIT_CAP - 1,
        ensures
            final(state)@ == old(state)@,
            final(state).board.depth() == old(state).board.depth(),
            one_iteration(*old(self), *final(self), old(state)@, r),
        decreases old(state).board.empty_count(old(state).board.depth()),
    {
        let ghost d = state.board.depth();
        let ghost v = state@;
        self.visit_count = self.visit_count + 1;
        if self.children.len() == 0 {
            let s = self.expand_and_playout(state.snapshot());
            self.score = self.score + s;
            return s;
        }
        let priorities = self.priorities(explore);
        let i = self.pick_child(&priorities);
        let previous = match &state.last_move {
            Some(m) => Some(m.clone()),
            None => None,
        };
        let ghost m = v.legal_moves()[i as int];
        assert(path_of(self.children@[i as int].move_) == Some(m));
        let mv = match &self.children[i].move_ {
            Some(c) => c.clone(),
            None => MetaMove::new_empty(),
        };
        proof {
            lemma_legal_moves_ok(v);
            assert(v.board.move_ok(m, d));
            old(state).board.lemma_after_set(m, v.current_player, d);
            old(state).board.lemma_set_then_unset(m, v.current_player, d);
            assert(self.children@[i as int].stats_ok());
            assert(self.children@[i as int].fits(applied(v, m)));
        }
        let played = state.set(mv);
        assert(played is Ok);
        let ghost before = self.children@;
        let child_r = self.children[i].select_and_backtrack(state, explore);
        proof {
            lemma_visits_sum_update(before, i as int, self.children@[i as int]);
            assert(self.children@ =~= before.update(i as int, self.children@[i as int]));
        }
        assert(self.children@[i as int].visit_count > 0);
        let r = 2 - child_r;
        self.score = self.score + r;
        state.unset(previous);
        proof {
            assert(forall|t: int|
                0 <= t < before.len() && t != i ==> self.children@[t] == before[t]);
            assert(self.children@[i as int].visit_count == before[i as int].visit_count + 1);
            assert(descended(*old(self), *self, r));
            assert(self.fits(v));
        }
        r
    }

    /// Re-roots the tree at the child reached by `meta_move`, keeping that child's
    /// statistics and subtree and dropping its siblings; without such a child the
    /// tree restarts from a single node for the move.
    pub fn move_head(&mut self, meta_move: MetaMove)
        requires
            old(self).stats_ok(),
        ensures
            final(self).stats_ok(),
            rerooted(*old(self), *final(self), meta_move@),
    {
        let n = self.children.len();
        let mut i: usize = 0;
        while i < n
            invariant
                i <= n,
                n == self.children@.len(),
                *self == *old(self),
                old(self).stats_ok(),
                forall|t: int|
                    0 <= t < i ==> path_of((#[trigger] self.children@[t]).move_) != Some(meta_move@),
            decreases n - i,
        {
            let hit = match &self.children[i].move_ {
                Some(m) => *m == meta_move,
                None => false,
            };
            if hit {
                assert(self.stats_ok());
                assert(self.children@[i as int].stats_ok());
                let child = self.children.remove(i);
                *self = child;
                return;
            }
            i = i + 1;
        }
        *self = GameTreeKnot::new(Some(meta_move));
    }
}

} // verus!
