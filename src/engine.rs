use vstd::arithmetic::power::pow;
use vstd::prelude::*;

use crate::board::META_DEPTH;
use crate::marker::PlayerMarker;

use crate::marker::InvalidMoveError;
use crate::moves::{MetaMove, PossibleMoves};
use crate::search::{
    best_child, has_visited, lemma_reroot_fits, one_iteration, random_below, rerooted, Exploration,
    GameTreeKnot, VISIT_CAP,
};
use crate::state::{applied, path_of, GameState};

verus! {

/// `b` is `a` after exactly `n` iterations of the search at position `v`.
pub open spec fn iterations(a: GameTreeKnot, b: GameTreeKnot, v: crate::state::StateView, n: nat) -> bool
    decreases n,
{
    if n == 0 {
        a == b
    } else {
        exists|mid: GameTreeKnot, r: u64|
            iterations(a, mid, v, (n - 1) as nat) && #[trigger] one_iteration(mid, b, v, r)
    }
}

/// After at least one iteration the root is expanded, unless the position has no move.
pub proof fn lemma_iterated_expanded(a: GameTreeKnot, b: GameTreeKnot, v: crate::state::StateView, n: nat)
    requires
        n > 0,
        iterations(a, b, v, n),
    ensures
        b.stats_ok(),
        b.fits(v),
        b.children@.len() > 0 || v.legal_moves().len() == 0,
{
    let (mid, r) = choose|mid: GameTreeKnot, r: u64|
        iterations(a, mid, v, (n - 1) as nat) && #[trigger] one_iteration(mid, b, v, r);
}

/// A search engine that runs a fixed number of iterations per move. `position`
/// is the position its tree's root stands for.
pub struct MonteCarloSync<E> {
    pub tree_head: GameTreeKnot,
    pub iterations: u64,
    pub explore: E,
    pub position: GameState,
}

impl<E: Exploration> MonteCarloSync<E> {
    pub open spec fn wf(self) -> bool {
        &&& self.position@.wf()
        &&& self.tree_head.stats_ok()
        &&& self.tree_head.fits(self.position@)
    }

    pub fn new(iterations: u64, explore: E) -> (r: Self)
        ensures
            r.wf(),
            r.iterations == iterations,
            r.explore == explore,
            r.position.board.wf(META_DEPTH as nat),
            r.position.board.fresh(META_DEPTH as nat),
            r.position.board.playable(META_DEPTH as nat).len() == pow(9, META_DEPTH as nat),
            r.position.current_player == PlayerMarker::X,
            r.position.last_move is None,
            r.tree_head.move_ is None,
            r.tree_head.children@.len() == 0,
            r.tree_head.score == 0,
            r.tree_head.visit_count == 0,
    {
        MonteCarloSync {
            tree_head: GameTreeKnot::new(None),
            iterations,
            explore,
            position: GameState::new(),
        }
    }

    /// Re-roots the tree at the first child for the position's last move, when
    /// there is such a child; otherwise leaves the tree as it is.
    pub fn move_head(&mut self, state: &GameState) -> (found: bool)
        requires
            old(self).tree_head.stats_ok(),
        ensures
            final(self).tree_head.stats_ok(),
            final(self).iterations == old(self).iterations,
            final(self).explore == old(self).explore,
            final(self).position == old(self).position,
            found <==> state.last_move is Some && crate::search::has_child_for(
                old(self).tree_head,
                state.last_move->Some_0@,
            ),
            found ==> rerooted(old(self).tree_head, final(self).tree_head, state.last_move->Some_0@),
            !found ==> final(self).tree_head == old(self).tree_head,
    {
        if let Some(last_move) = &state.last_move {
            let n = self.tree_head.children.len();
            let mut i: usize = 0;
            while i < n
                invariant
                    i <= n,
                    n == self.tree_head.children@.len(),
                    *self == *old(self),
                    old(self).tree_head.stats_ok(),
                    state.last_move == Some(*last_move),
                    forall|t: int|
                        0 <= t < i ==> path_of((#[trigger] self.tree_head.children@[t]).move_)
                            != Some(last_move@),
                decreases n - i,
            {
                let hit = match &self.tree_head.children[i].move_ {
                    Some(m) => *m == *last_move,
                    None => false,
                };
                if hit {
                    assert(crate::search::first_child_for(old(self).tree_head, last_move@, i as int));
                    assert(old(self).tree_head.stats_ok());
                    assert(self.tree_head.children@[i as int].stats_ok());
                    let child = self.tree_head.children.remove(i);
                    self.tree_head = child;
                    return true;
                }
                i = i + 1;
            }
        }
        false
    }

    /// Runs the configured number of iterations from `state`, fewer only if the
    /// root's visit count would reach `VISIT_CAP`. `state` ends as it began.
    pub fn search(&mut self, state: &mut GameState)
        requires
            old(state)@.wf(),
            old(self).tree_head.stats_ok(),
            old(self).tree_head.fits(old(state)@),
        ensures
            final(state)@ == old(state)@,
            final(self).tree_head.stats_ok(),
            final(self).tree_head.fits(old(state)@),
            final(self).iterations == old(self).iterations,
            final(self).explore == old(self).explore,
            final(self).position == old(self).position,
            exists|k: nat|
                k <= old(self).iterations && #[trigger] iterations(
                    old(self).tree_head,
                    final(self).tree_head,
                    old(state)@,
                    k,
                ),
            old(self).tree_head.visit_count + old(self).iterations < VISIT_CAP - 1 ==> iterations(
                old(self).tree_head,
                final(self).tree_head,
                old(state)@,
                old(self).iterations as nat,
            ),
    {
        let ghost v = state@;
        let mut i: u64 = 0;
        while i < self.iterations && self.tree_head.visit_count < VISIT_CAP - 1
            invariant
                i <= self.iterations,
                state@ == v,
                v == old(state)@,
                state@.wf(),
                self.tree_head.stats_ok(),
                self.tree_head.fits(v),
                self.iterations == old(self).iterations,
                self.explore == old(self).explore,
                self.position == old(self).position,
                self.tree_head.visit_count == old(self).tree_head.visit_count + i,
                iterations(old(self).tree_head, self.tree_head, v, i as nat),
            decreases self.iterations - i,
        {
            let ghost before = self.tree_head;
            let r = self.tree_head.select_and_backtrack(state, &self.explore);
            proof {
                assert(one_iteration(before, self.tree_head, v, r));
                assert(iterations(old(self).tree_head, self.tree_head, v, (i + 1) as nat));
            }
            i = i + 1;
        }
    }

    /// Re-roots the tree at the best child (see `get_best_child_score`) and
    /// returns its move; none when no child has been visited.
    pub fn take_best(&mut self) -> (r: Option<MetaMove>)
        requires
            old(self).tree_head.stats_ok(),
        ensures
            final(self).tree_head.stats_ok(),
            final(self).iterations == old(self).iterations,
            final(self).explore == old(self).explore,
            final(self).position == old(self).position,
            !has_visited(old(self).tree_head.children@) ==> r is None && *final(self) == *old(self),
            has_visited(old(self).tree_head.children@) ==> r is Some,
            r is Some ==> exists|i: int|
                best_child(old(self).tree_head.children@, i) && final(self).tree_head == old(self).tree_head.children@[i] && path_of(r) == path_of(final(self).tree_head.move_),
    {
        match self.tree_head.get_best_child_score() {
            None => None,
            Some(b) => {
                assert(old(self).tree_head.stats_ok());
                assert(self.tree_head.children@[b as int].stats_ok());
                let child = self.tree_head.children.remove(b);
                self.tree_head = child;
                match &self.tree_head.move_ {
                    Some(m) => Some(m.clone()),
                    None => None,
                }
            },
        }
    }

    /// Chooses a move for `state`. The subtree for the opponent's last move is
    /// reused when `state` is the engine's own position after that move; else the
    /// search starts from a fresh node. After the search the engine plays the
    /// visited child of highest win rate, which becomes the new root, and its
    /// position becomes the engine's. None when no child was visited, which
    /// happens only without a legal move, iterations, or room below `VISIT_CAP`.
    pub fn get_move(&mut self, state: GameState) -> (r: Option<MetaMove>)
        requires
            state@.wf(),
            old(self).wf(),
        ensures
            final(self).wf(),
            final(self).iterations == old(self).iterations,
            r matches Some(m) ==> state@.legal_moves().contains(m@),
            r is Some ==> exists|start: GameTreeKnot, root: GameTreeKnot, k: nat, i: int|
                #![trigger iterations(start, root, state@, k), best_child(root.children@, i)]
                start.fits(state@) && (start.children@.len() == 0 || old(self).tree_head.children@.contains(start)) && start.visit_count
                    <= old(self).tree_head.visit_count && k <= old(self).iterations && iterations(
                    start,
                    root,
                    state@,
                    k,
                ) && (old(self).tree_head.visit_count + old(self).iterations < VISIT_CAP - 1 ==> k
                    == old(self).iterations) && best_child(root.children@, i)
                    && final(self).tree_head == root.children@[i] && path_of(r) == path_of(
                    root.children@[i].move_,
                ),
            old(self).iterations > 0 && old(self).tree_head.visit_count + old(self).iterations
                < VISIT_CAP - 1 && state@.legal_moves().len() > 0 ==> r is Some,
    {
        let ghost v = state@;
        let reuse = match &state.last_move {
            Some(m) => {
                let mut p = self.position.snapshot();
                match p.set(m.clone()) {
                    Ok(_) => p.same_as(&state),
                    Err(_) => false,
                }
            },
            None => false,
        };
        let found = if reuse {
            self.move_head(&state)
        } else {
            false
        };
        if found {
            proof {
                let m = state.last_move->Some_0@;
                lemma_reroot_fits(old(self).tree_head, self.tree_head, old(self).position@, m);
                let j = choose|j: int|
                    #![trigger old(self).tree_head.children@[j]]
                    crate::search::first_child_for(old(self).tree_head, m, j) && self.tree_head == old(self).tree_head.children@[j];
                assert(old(self).tree_head.children@[j].visit_count <= old(self).tree_head.visit_count);
                assert(old(self).tree_head.children@.contains(self.tree_head));
            }
        } else {
            let last = match &state.last_move {
                Some(m) => Some(m.clone()),
                None => None,
            };
            self.tree_head = GameTreeKnot::new(last);
        }
        let ghost start = self.tree_head;
        let mut st = state;
        self.search(&mut st);
        let ghost root = self.tree_head;
        let ghost k = choose|k: nat| k <= self.iterations && #[trigger] iterations(start, root, v, k);
        proof {
            if old(self).iterations > 0 && old(self).tree_head.visit_count + old(self).iterations
                < VISIT_CAP - 1 {
                lemma_iterated_expanded(start, root, v, self.iterations as nat);
            }
        }
        let r = self.take_best();
        match &r {
            Some(m) => {
                let ghost i = choose|i: int|
                    best_child(root.children@, i) && self.tree_head == root.children@[i] && path_of(
                        r,
                    ) == path_of(self.tree_head.move_);
                proof {
                    assert(path_of(root.children@[i].move_) == Some(v.legal_moves()[i]));
                    assert(m@ == v.legal_moves()[i]);
                    assert(v.legal_moves().contains(m@));
                    crate::state::lemma_legal_moves_ok(v);
                    assert(st.board.move_ok(v.legal_moves()[i], st.board.depth()));
                    assert(self.tree_head.fits(applied(v, m@)));
                }
                let mut pos = st;
                let played = pos.set(m.clone());
                assert(played is Ok);
                self.position = pos;
            },
            None => {
                self.position = st;
            },
        }
        r
    }
}

/// A control message for the background search.
pub enum Message {
    /// A move was played: apply it and re-root the tree.
    AdvanceMove(MetaMove),
    /// Run one more iteration, then stop until resumed.
    Pause,
    /// Continue iterating.
    Resume,
}

/// The state a background search worker owns: its position, the tree, and
/// whether it is paused. The worker feeds `step` with the message it received,
/// if any, over and over.
pub struct BackgroundSearch<E> {
    pub state: GameState,
    pub tree_head: GameTreeKnot,
    pub paused: bool,
    pub explore: E,
}

/// The tree `b` is `a` after one iteration at position `v` when `run` holds, and
/// `a` itself otherwise.
pub open spec fn searched_once(a: GameTreeKnot, b: GameTreeKnot, v: crate::state::StateView, run: bool) -> bool {
    if run {
        exists|r: u64| #[trigger] one_iteration(a, b, v, r)
    } else {
        b == a
    }
}

impl<E: Exploration> BackgroundSearch<E> {
    pub open spec fn wf(self) -> bool {
        &&& self.state@.wf()
        &&& self.tree_head.stats_ok()
        &&& self.tree_head.fits(self.state@)
    }

    /// The worker iterates on its next idle step: it runs and the root is below `VISIT_CAP`.
    pub open spec fn runs(self) -> bool {
        !self.paused && self.tree_head.visit_count < VISIT_CAP - 1
    }

    /// A worker for a new game, running.
    pub fn new(explore: E) -> (r: Self)
        ensures
            r.wf(),
            !r.paused,
            r.explore == explore,
            r.state.board.wf(META_DEPTH as nat),
            r.state.board.fresh(META_DEPTH as nat),
            r.state.board.playable(META_DEPTH as nat).len() == pow(9, META_DEPTH as nat),
            r.state.current_player == PlayerMarker::X,
            r.state.last_move is None,
            r.tree_head.move_ is None,
            r.tree_head.children@.len() == 0,
            r.tree_head.score == 0,
            r.tree_head.visit_count == 0,
    {
        BackgroundSearch {
            state: GameState::new(),
            tree_head: GameTreeKnot::new(None),
            paused: false,
            explore,
        }
    }

    fn iterate(&mut self)
        requires
            old(self).wf(),
            !old(self).paused,
        ensures
            final(self).wf(),
            final(self).paused == old(self).paused,
            final(self).explore == old(self).explore,
            final(self).state@ == old(self).state@,
            searched_once(old(self).tree_head, final(self).tree_head, old(self).state@, old(self).runs()),
    {
        if self.tree_head.visit_count < VISIT_CAP - 1 {
            let r = self.tree_head.select_and_backtrack(&mut self.state, &self.explore);
            assert(one_iteration(old(self).tree_head, self.tree_head, old(self).state@, r));
        }
    }

    /// Handles one message, or, when none came and the worker is running, runs
    /// one iteration. A move that cannot be applied is an error and changes nothing.
    pub fn step(&mut self, message: Option<Message>) -> (r: Result<(), InvalidMoveError>)
        requires
            old(self).wf(),
        ensures
            final(self).wf(),
            final(self).explore == old(self).explore,
            r is Err ==> *final(self) == *old(self),
            message is None ==> r is Ok && final(self).paused == old(self).paused
                && final(self).state@ == old(self).state@ && searched_once(
                old(self).tree_head,
                final(self).tree_head,
                old(self).state@,
                old(self).runs(),
            ),
            message matches Some(Message::Pause) ==> r is Ok && final(self).paused
                && final(self).state@ == old(self).state@ && searched_once(
                old(self).tree_head,
                final(self).tree_head,
                old(self).state@,
                old(self).runs(),
            ),
            message matches Some(Message::Resume) ==> r is Ok && !final(self).paused
                && final(self).state@ == old(self).state@ && final(self).tree_head == old(self).tree_head,
            message matches Some(Message::AdvanceMove(m)) ==> {
                &&& r is Ok <==> old(self).state.board.move_ok(m@, old(self).state.board.depth())
                &&& r is Ok ==> final(self).state@ == applied(old(self).state@, m@) && !final(self).paused && rerooted(old(self).tree_head, final(self).tree_head, m@)
            },
    {
        match message {
            None => {
                if !self.paused {
                    self.iterate();
                }
                Ok(())
            },
            Some(Message::Pause) => {
                if !self.paused {
                    self.iterate();
                }
                self.paused = true;
                Ok(())
            },
            Some(Message::Resume) => {
                self.paused = false;
                Ok(())
            },
            Some(Message::AdvanceMove(m)) => {
                let key = m.clone();
                let ghost v = self.state@;
                match self.state.set(m) {
                    Ok(_) => {
                        self.tree_head.move_head(key);
                        proof {
                            lemma_reroot_fits(old(self).tree_head, self.tree_head, v, key@);
                        }
                        self.paused = false;
                        Ok(())
                    },
                    Err(e) => Err(e),
                }
            },
        }
    }

    /// The move of the best child of the current root (see `get_best_child_score`).
    pub fn best_move(&self) -> (r: Option<MetaMove>)
        requires
            self.tree_head.stats_ok(),
        ensures
            r is Some <==> has_visited(self.tree_head.children@),
            r is Some ==> exists|i: int|
                best_child(self.tree_head.children@, i) && path_of(r) == path_of(
                    self.tree_head.children@[i].move_,
                ),
    {
        match self.tree_head.get_best_child_score() {
            None => None,
            Some(b) => {
                assert(self.tree_head.children@[b as int].move_ is Some);
                match &self.tree_head.children[b].move_ {
                    Some(m) => Some(m.clone()),
                    None => None,
                }
            },
        }
    }
}

/// A player that picks uniformly among the legal moves.
pub struct RandomPlayer {}

impl RandomPlayer {
    pub fn new() -> (r: Self) {
        RandomPlayer {  }
    }

    /// A legal move drawn at random; none when the position has no legal move.
    pub fn get_move(&mut self, state: &GameState) -> (r: Option<MetaMove>)
        requires
            state@.wf(),
        ensures
            r is None <==> state@.legal_moves().len() == 0,
            r matches Some(m) ==> state@.legal_moves().contains(m@),
    {
        let mut moves = PossibleMoves::new();
        let mut scratch = MetaMove::new_empty();
        state.get_possible_moves(&mut moves, &mut scratch);
        if moves.is_empty() {
            return None;
        }
        let i = random_below(moves.len());
        let m = moves.get(i).clone();
        assert(state@.legal_moves()[i as int] == m@);
        Some(m)
    }
}

/// A pause followed at once by a resume leaves the worker's position as it was,
/// its tree as it was or one iteration further, and the worker running.
pub proof fn lemma_pause_then_resume<E: Exploration>(
    a: BackgroundSearch<E>,
    b: BackgroundSearch<E>,
    c: BackgroundSearch<E>,
)
    requires
        b.paused,
        b.state@ == a.state@,
        searched_once(a.tree_head, b.tree_head, a.state@, a.runs()),
        !c.paused,
        c.state@ == b.state@,
        c.tree_head == b.tree_head,
    ensures
        !c.paused,
        c.state@ == a.state@,
        c.tree_head == a.tree_head || exists|r: u64| #[trigger] one_iteration(a.tree_head, c.tree_head, a.state@, r),
{
}

} // verus!
