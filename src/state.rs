use vstd::arithmetic::power::pow;
use vstd::prelude::*;

use crate::board::{in_grid, lemma_under_concat, live, under, Board};
use crate::marker::{other, InvalidMoveError, PlayerMarker};
use crate::moves::{shifted, MetaMove, PossibleMoves};

verus! {

/// The path held by an optional move.
pub open spec fn path_of(m: Option<MetaMove>) -> Option<Seq<usize>> {
    match m {
        Some(m) => Some(m@),
        None => None,
    }
}

/// The playable cells, as full paths, of the sub-board that `s` names, if it and
/// every board above it are undecided.
pub open spec fn scope_moves(b: Board, d: nat, s: Seq<usize>) -> Seq<Seq<usize>> {
    if live(b, s) {
        under(s, b.board_at(s).playable((d - s.len()) as nat))
    } else {
        seq![]
    }
}

/// The scope of the deepest board among those named by the first `k`, `k - 1`,
/// ..., `0` components of `p` that is undecided, and every board above it too;
/// none when the whole board is decided.
pub open spec fn nearest_live_scope(b: Board, d: nat, p: Seq<usize>, k: nat) -> Seq<Seq<usize>>
    decreases k,
{
    if live(b, p.take(k as int)) {
        scope_moves(b, d, p.take(k as int))
    } else if k == 0 {
        seq![]
    } else {
        nearest_live_scope(b, d, p, (k - 1) as nat)
    }
}

/// The moves after forwarding along `p`: the playable cells of the target board
/// that all but the last component of `p` name; when it takes no move, those of
/// the nearest undecided board above it; when that has none either, every
/// playable cell of the board.
pub open spec fn forwarded(b: Board, d: nat, p: Seq<usize>) -> Seq<Seq<usize>> {
    let target = scope_moves(b, d, p.take(d - 1));
    let near = if d >= 2 {
        nearest_live_scope(b, d, p, (d - 2) as nat)
    } else {
        seq![]
    };
    if target.len() > 0 {
        target
    } else if near.len() > 0 {
        near
    } else {
        b.playable(d)
    }
}

/// The legal moves after `last`: the next move is sent to the sub-board that the
/// cell just played names at each level, widening as `forwarded` says when that
/// board takes no move. Before any move, every playable cell is legal.
pub open spec fn legal_moves(b: Board, d: nat, last: Option<Seq<usize>>) -> Seq<Seq<usize>> {
    match last {
        None => b.playable(d),
        Some(m) => forwarded(b, d, shifted(m)),
    }
}

/// A position: the board, the player to move, and the move that led here.
pub struct GameState {
    pub board: Board,
    pub current_player: PlayerMarker,
    pub last_move: Option<MetaMove>,
}

/// What a position is, as plain values.
pub struct StateView {
    pub board: Board,
    pub current_player: PlayerMarker,
    pub last_move: Option<Seq<usize>>,
}

impl View for GameState {
    type V = StateView;

    open spec fn view(&self) -> StateView {
        StateView {
            board: self.board,
            current_player: self.current_player,
            last_move: path_of(self.last_move),
        }
    }
}

/// The position after the player to move plays `m`.
pub open spec fn applied(v: StateView, m: Seq<usize>) -> StateView {
    StateView {
        board: v.board.after_set(m, v.current_player),
        current_player: other(v.current_player),
        last_move: Some(m),
    }
}

/// The position after the last move is taken back, `previous` becoming the last move.
pub open spec fn undone(v: StateView, previous: Option<Seq<usize>>) -> StateView {
    match v.last_move {
        Some(m) => StateView {
            board: v.board.after_unset(m),
            current_player: other(v.current_player),
            last_move: previous,
        },
        None => v,
    }
}

/// The position after the moves `ms` are played in turn from `v`.
pub open spec fn plays(v: StateView, ms: Seq<Seq<usize>>) -> StateView
    decreases ms.len(),
{
    if ms.len() == 0 {
        v
    } else {
        applied(plays(v, ms.drop_last()), ms.last())
    }
}

/// Each move of `ms` is legal in the position the moves before it lead to.
pub open spec fn legal_run(v: StateView, ms: Seq<Seq<usize>>) -> bool
    decreases ms.len(),
{
    ms.len() == 0 || (legal_run(v, ms.drop_last()) && plays(v, ms.drop_last()).legal_moves().contains(
        ms.last(),
    ))
}

/// A path that names a deepest cell of a board of depth `d`, or no path.
pub open spec fn fits(m: Option<Seq<usize>>, d: nat) -> bool {
    match m {
        Some(p) => p.len() == d && in_grid(p),
        None => true,
    }
}

impl StateView {
    pub open spec fn wf(self) -> bool {
        &&& self.board.well_formed()
        &&& self.current_player != PlayerMarker::Empty
        &&& fits(self.last_move, self.board.depth())
    }

    pub open spec fn legal_moves(self) -> Seq<Seq<usize>> {
        legal_moves(self.board, self.board.depth(), self.last_move)
    }
}

impl GameState {
    /// An empty board of the default depth, `X` to move.
    pub fn new() -> (s: Self)
        ensures
            s@.wf(),
            s.board.wf(crate::board::META_DEPTH as nat),
            s.board.depth() == crate::board::META_DEPTH as nat,
            s.board.fresh(crate::board::META_DEPTH as nat),
            s.board.playable(crate::board::META_DEPTH as nat).len() == pow(9, crate::board::META_DEPTH as nat),
            s@.legal_moves() == s.board.playable(crate::board::META_DEPTH as nat),
            s.current_player == PlayerMarker::X,
            s.last_move is None,
    {
        let board = Board::new();
        proof {
            board.lemma_depth(crate::board::META_DEPTH as nat);
        }
        GameState { board, current_player: PlayerMarker::X, last_move: None }
    }

    /// An empty board of the given depth, `X` to move.
    pub fn with_depth(depth: usize) -> (s: Self)
        requires
            depth >= 1,
        ensures
            s@.wf(),
            s.board.wf(depth as nat),
            s.board.depth() == depth as nat,
            s.board.fresh(depth as nat),
            s.board.playable(depth as nat).len() == pow(9, depth as nat),
            s@.legal_moves() == s.board.playable(depth as nat),
            s.current_player == PlayerMarker::X,
            s.last_move is None,
    {
        let board = Board::create_board(depth);
        proof {
            board.lemma_depth(depth as nat);
        }
        GameState { board, current_player: PlayerMarker::X, last_move: None }
    }

    /// An exact copy of a well-formed position.
    pub fn snapshot(&self) -> (r: GameState)
        requires
            self@.wf(),
        ensures
            r@ == self@,
    {
        let last_move = match &self.last_move {
            Some(m) => Some(m.clone()),
            None => None,
        };
        GameState { board: self.board.snapshot(), current_player: self.current_player, last_move }
    }

    /// `other` is the same position.
    pub fn same_as(&self, other: &GameState) -> (r: bool)
        requires
            self@.wf(),
        ensures
            r == (self@ == other@),
    {
        if !self.board.same_as(&other.board) || self.current_player != other.current_player {
            return false;
        }
        match (&self.last_move, &other.last_move) {
            (Some(a), Some(b)) => *a == *b,
            (None, None) => true,
            _ => false,
        }
    }

    pub fn get_winner(&self) -> (w: PlayerMarker)
        ensures
            w == self.board.winner(),
    {
        self.board.get_winner()
    }

    /// Plays `meta_move` for the player to move, who then changes; refused, with
    /// nothing changed, as `Board::set` refuses it.
    pub fn set(&mut self, meta_move: MetaMove) -> (r: Result<PlayerMarker, InvalidMoveError>)
        requires
            old(self)@.wf(),
        ensures
            final(self)@.wf(),
            final(self).board.depth() == old(self).board.depth(),
            r is Ok <==> old(self).board.move_ok(meta_move@, old(self).board.depth()),
            r is Ok ==> final(self)@ == applied(old(self)@, meta_move@),
            r is Err ==> *final(self) == *old(self),
            r matches Ok(w) ==> w == final(self).board.winner(),
    {
        let ghost d = self.board.depth();
        match self.board.set(meta_move.absolute_index.as_slice(), self.current_player) {
            Ok(marker) => {
                proof {
                    old(self).board.lemma_after_set(meta_move@, old(self).current_player, d);
                    self.board.lemma_depth(d);
                }
                self.current_player = self.current_player.to_other();
                self.last_move = Some(meta_move);
                Ok(marker)
            },
            Err(e) => {
                proof {
                    self.board.lemma_depth(d);
                }
                Err(e)
            },
        }
    }

    /// Takes back the last move, if there is one; `previous_move` becomes the last move.
    pub fn unset(&mut self, previous_move: Option<MetaMove>)
        requires
            old(self)@.wf(),
            fits(path_of(previous_move), old(self).board.depth()),
        ensures
            final(self)@.wf(),
            final(self).board.depth() == old(self).board.depth(),
            final(self)@ == undone(old(self)@, path_of(previous_move)),
    {
        let ghost d = self.board.depth();
        if let Some(last_move) = &self.last_move {
            self.board.unset(last_move.absolute_index.as_slice());
            proof {
                old(self).board.lemma_after_unset(last_move@, d);
                self.board.lemma_depth(d);
            }
            self.current_player = self.current_player.to_other();
            self.last_move = previous_move;
        }
        proof {
            self.board.lemma_depth(d);
        }
    }

    /// The legal moves of this position (see `legal_moves`), in path-lexicographic order.
    /// `next_move` serves as scratch space and is left empty.
    pub fn get_possible_moves(&self, possible_moves: &mut PossibleMoves, next_move: &mut MetaMove)
        requires
            self@.wf(),
        ensures
            final(possible_moves)@ == self@.legal_moves(),
            final(next_move)@ == Seq::<usize>::empty(),
    {
        let ghost d = self.board.depth();
        let ghost b = self.board;
        proof {
            self.board.lemma_depth(d);
        }
        possible_moves.clear();
        next_move.clear();
        match &self.last_move {
            None => {
                self.board.get_empty_positions(possible_moves, next_move);
                proof {
                    lemma_under_concat(Seq::<usize>::empty(), Seq::<usize>::empty(), b.playable(d));
                    assert(possible_moves@ =~= under(Seq::<usize>::empty(), b.playable(d)));
                }
            },
            Some(m) => {
                let p = m.shift_left();
                let ghost sp = p@;
                assert(in_grid(sp)) by {
                    assert forall|j: int| 0 <= j < sp.len() implies #[trigger] sp[j] < 9 by {
                        if j < sp.len() - 1 {
                            assert(sp[j] == m@[j + 1]);
                        }
                    }
                }
                let n = p.len();
                proof {
                    assert(sp.subrange(0, n - 1) == sp.take(n - 1));
                    lemma_under_concat(
                        Seq::<usize>::empty(),
                        Seq::<usize>::empty(),
                        scope_moves(b, d, sp.take(n - 1)),
                    );
                }
                self.board.push_scope(&p, 0, n - 1, possible_moves, next_move, Ghost(d));
                assert(possible_moves@ =~= scope_moves(b, d, sp.take(n - 1)));
                if possible_moves.is_empty() && n >= 2 {
                    let mut k: usize = n - 2;
                    loop
                        invariant_except_break
                            possible_moves@ == Seq::<Seq<usize>>::empty(),
                            nearest_live_scope(b, d, sp, (d - 2) as nat) == nearest_live_scope(
                                b,
                                d,
                                sp,
                                k as nat,
                            ),
                        invariant
                            b == self.board,
                            b.wf(d),
                            n == d,
                            n >= 2,
                            sp == p@,
                            sp.len() == d,
                            in_grid(sp),
                            k <= n - 2,
                            next_move@ == Seq::<usize>::empty(),
                        ensures
                            possible_moves@ == nearest_live_scope(b, d, sp, (d - 2) as nat),
                        decreases k,
                    {
                        let alive = self.board.push_scope(&p, 0, k, possible_moves, next_move, Ghost(d));
                        proof {
                            assert(sp.subrange(0, k as int) == sp.take(k as int));
                            lemma_under_concat(
                                Seq::<usize>::empty(),
                                Seq::<usize>::empty(),
                                scope_moves(b, d, sp.take(k as int)),
                            );
                            assert(possible_moves@ =~= scope_moves(b, d, sp.take(k as int)));
                            if !alive {
                                assert(scope_moves(b, d, sp.take(k as int)).len() == 0);
                            }
                        }
                        if alive || k == 0 {
                            break;
                        }
                        k = k - 1;
                    }
                }
                if possible_moves.is_empty() {
                    self.board.get_empty_positions(possible_moves, next_move);
                    proof {
                        lemma_under_concat(Seq::<usize>::empty(), Seq::<usize>::empty(), b.playable(d));
                        assert(possible_moves@ =~= under(Seq::<usize>::empty(), b.playable(d)));
                    }
                }
            },
        }
    }
}

impl Board {
    /// Appends the moves of the scope named by `p[j..k]`, each behind `next_move`.
    fn push_scope(
        &self,
        p: &MetaMove,
        j: usize,
        k: usize,
        possible_moves: &mut PossibleMoves,
        next_move: &mut MetaMove,
        Ghost(d): Ghost<nat>,
    ) -> (alive: bool)
        requires
            self.wf(d),
            j <= k < p@.len(),
            k - j < d,
            in_grid(p@),
        ensures
            final(possible_moves)@ == old(possible_moves)@ + under(
                old(next_move)@,
                scope_moves(*self, d, p@.subrange(j as int, k as int)),
            ),
            final(next_move)@ == old(next_move)@,
            alive == live(*self, p@.subrange(j as int, k as int)),
        decreases k - j,
    {
        let ghost s = p@.subrange(j as int, k as int);
        let ghost pre = next_move@;
        if self.get_winner() != PlayerMarker::Empty {
            assert(under(pre, scope_moves(*self, d, s)) =~= Seq::<Seq<usize>>::empty());
            assert(possible_moves@ =~= old(possible_moves)@ + under(pre, scope_moves(*self, d, s)));
            return false;
        }
        if j == k {
            proof {
                self.lemma_depth(d);
                assert(s =~= Seq::<usize>::empty());
                assert(self.board_at(s) == *self);
                lemma_under_concat(pre, Seq::<usize>::empty(), self.playable(d));
                assert(pre + Seq::<usize>::empty() =~= pre);
            }
            self.get_empty_positions(possible_moves, next_move);
            return true;
        }
        let i = p.absolute_index[j];
        assert(p@[j as int] < 9);
        match self {
            Board::BitBoard(_) => {
                assert(false);
                false
            },
            Board::MetaBoard(m) => {
                let ghost c = self.child(i as int);
                let ghost rest = p@.subrange(j as int + 1, k as int);
                assert(c.wf((d - 1) as nat));
                next_move.push(i);
                let alive = m.sub_boards[i].push_scope(p, j + 1, k, possible_moves, next_move, Ghost((d - 1) as nat));
                next_move.pop();
                assert(next_move@ =~= pre);
                proof {
                    assert(s.drop_first() =~= rest);
                    assert(s[0] == i);
                    assert(self.board_at(s) == c.board_at(rest));
                    assert(live(*self, s) == live(c, rest));
                    let y = c.board_at(rest).playable((d - 1 - rest.len()) as nat);
                    lemma_under_concat(pre.push(i), rest, y);
                    lemma_under_concat(pre, s, y);
                    assert(pre.push(i) + rest =~= pre + s);
                    if !live(c, rest) {
                        assert(under(pre, scope_moves(*self, d, s)) =~= Seq::<Seq<usize>>::empty());
                        assert(under(pre.push(i), scope_moves(c, (d - 1) as nat, rest)) =~= Seq::<
                            Seq<usize>,
                        >::empty());
                    }
                }
                alive
            },
        }
    }
}

proof fn lemma_scope_ok(b: Board, d: nat, s: Seq<usize>)
    requires
        b.wf(d),
        in_grid(s),
        s.len() < d,
    ensures
        forall|j: int|
            0 <= j < scope_moves(b, d, s).len() ==> b.move_ok(#[trigger] scope_moves(b, d, s)[j], d),
{
    if live(b, s) {
        b.lemma_board_at(s, d);
        let t = b.board_at(s);
        let e = (d - s.len()) as nat;
        t.lemma_playable_ok(e);
        assert forall|j: int| 0 <= j < scope_moves(b, d, s).len() implies b.move_ok(
            #[trigger] scope_moves(b, d, s)[j],
            d,
        ) by {
            let q = t.playable(e)[j];
            assert(t.move_ok(q, e));
            b.lemma_move_under(s, q, d);
        }
    }
}

proof fn lemma_prefix_in_grid(p: Seq<usize>, k: int)
    requires
        in_grid(p),
        0 <= k <= p.len(),
    ensures
        in_grid(p.take(k)),
{
    assert forall|j: int| 0 <= j < p.take(k).len() implies #[trigger] p.take(k)[j] < 9 by {
        assert(p.take(k)[j] == p[j]);
    }
}

proof fn lemma_nearest_ok(b: Board, d: nat, p: Seq<usize>, k: nat)
    requires
        b.wf(d),
        in_grid(p),
        p.len() == d,
        k < d,
    ensures
        forall|j: int|
            0 <= j < nearest_live_scope(b, d, p, k).len() ==> b.move_ok(
                #[trigger] nearest_live_scope(b, d, p, k)[j],
                d,
            ),
    decreases k,
{
    lemma_prefix_in_grid(p, k as int);
    lemma_scope_ok(b, d, p.take(k as int));
    if live(b, p.take(k as int)) {
        assert(nearest_live_scope(b, d, p, k) == scope_moves(b, d, p.take(k as int)));
    } else if k > 0 {
        lemma_nearest_ok(b, d, p, (k - 1) as nat);
        assert(nearest_live_scope(b, d, p, k) == nearest_live_scope(b, d, p, (k - 1) as nat));
    } else {
        assert(nearest_live_scope(b, d, p, k).len() == 0);
    }
}

proof fn lemma_forwarded_ok(b: Board, d: nat, p: Seq<usize>)
    requires
        b.wf(d),
        in_grid(p),
        p.len() == d,
        d >= 1,
    ensures
        forall|j: int|
            0 <= j < forwarded(b, d, p).len() ==> b.move_ok(#[trigger] forwarded(b, d, p)[j], d),
{
    lemma_prefix_in_grid(p, d - 1);
    lemma_scope_ok(b, d, p.take(d - 1));
    if d >= 2 {
        lemma_nearest_ok(b, d, p, (d - 2) as nat);
    }
    b.lemma_playable_ok(d);
}

/// Every legal move names an empty deepest cell, so playing it succeeds.
pub proof fn lemma_legal_moves_ok(v: StateView)
    requires
        v.wf(),
    ensures
        forall|j: int|
            0 <= j < v.legal_moves().len() ==> v.board.move_ok(
                #[trigger] v.legal_moves()[j],
                v.board.depth(),
            ),
{
    let d = v.board.depth();
    let b = v.board;
    match v.last_move {
        None => {
            b.lemma_playable_ok(d);
        },
        Some(m) => {
            let sp = shifted(m);
            assert(in_grid(sp)) by {
                assert forall|j: int| 0 <= j < sp.len() implies #[trigger] sp[j] < 9 by {
                    if j < sp.len() - 1 {
                        assert(sp[j] == m[j + 1]);
                    }
                }
            }
            b.lemma_depth(d);
            lemma_forwarded_ok(b, d, sp);
        },
    }
}

/// As long as some cell of the board can still be played, some move is legal.
pub proof fn lemma_moves_while_open(v: StateView)
    requires
        v.wf(),
        v.board.playable(v.board.depth()).len() > 0,
    ensures
        v.legal_moves().len() > 0,
{

}

/// When the sub-board the last move forwards to takes no move (it, or a board
/// above it, is decided, or it is full), the legal moves are the playable cells of
/// the undecided sub-boards of the nearest undecided board above it; when there
/// are none, every playable cell of the board.
pub proof fn lemma_forward_blocked(v: StateView)
    requires
        v.wf(),
        v.last_move is Some,
        v.board.depth() >= 2,
        scope_moves(
            v.board,
            v.board.depth(),
            shifted(v.last_move->Some_0).take(v.board.depth() - 1),
        ).len() == 0,
    ensures
        nearest_live_scope(
            v.board,
            v.board.depth(),
            shifted(v.last_move->Some_0),
            (v.board.depth() - 2) as nat,
        ).len() > 0 ==> v.legal_moves() == nearest_live_scope(
            v.board,
            v.board.depth(),
            shifted(v.last_move->Some_0),
            (v.board.depth() - 2) as nat,
        ),
        nearest_live_scope(
            v.board,
            v.board.depth(),
            shifted(v.last_move->Some_0),
            (v.board.depth() - 2) as nat,
        ).len() == 0 ==> v.legal_moves() == v.board.playable(v.board.depth()),
{
}

/// Playing a legal move and taking it back restores the position exactly,
/// down to every bit of every board.
pub proof fn lemma_apply_then_undo(v: StateView, m: Seq<usize>)
    requires
        v.wf(),
        v.legal_moves().contains(m),
    ensures
        undone(applied(v, m), v.last_move) == v,
{
    lemma_legal_moves_ok(v);
    let j = choose|j: int| 0 <= j < v.legal_moves().len() && v.legal_moves()[j] == m;
    assert(v.board.move_ok(v.legal_moves()[j], v.board.depth()));
    v.board.lemma_set_then_unset(m, v.current_player, v.board.depth());
}

} // verus!
