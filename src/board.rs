use vstd::arithmetic::power::pow;
use vstd::prelude::*;

use crate::bitboard::{open_cells, winner_from, winner_of, BitBoard};
use crate::marker::{InvalidMoveError, PlayerMarker};
use crate::moves::{MetaMove, PossibleMoves};

verus! {

/// The nesting depth of the boards that `Board::new` and `GameState::new` create:
/// nine 3x3 boards inside one 3x3 board.
pub const META_DEPTH: usize = 2;

/// Every cell taken in `a` is taken by the same marker in `b`.
pub open spec fn extends(a: Seq<PlayerMarker>, b: Seq<PlayerMarker>) -> bool {
    forall|j: int| 0 <= j < 9 && a[j] != PlayerMarker::Empty ==> #[trigger] b[j] == a[j]
}

/// Each move of `moves` with `s` put in front of it.
pub open spec fn under(s: Seq<usize>, moves: Seq<Seq<usize>>) -> Seq<Seq<usize>> {
    moves.map_values(|q: Seq<usize>| s + q)
}

/// Every component of the path names one of the nine cells.
pub open spec fn in_grid(p: Seq<usize>) -> bool {
    forall|j: int| 0 <= j < p.len() ==> #[trigger] p[j] < 9
}

/// Every board along `s`, from `b` itself down to the one `s` reaches, is undecided.
pub open spec fn live(b: Board, s: Seq<usize>) -> bool
    decreases s.len(),
{
    b.winner() == PlayerMarker::Empty && (s.len() == 0 || live(b.child(s[0] as int), s.drop_first()))
}

/// A board of boards, nested to a fixed depth: a leaf is a 3x3 grid of cells, a
/// composed board holds nine boards one level shallower.
pub enum Board {
    BitBoard(BitBoard),
    MetaBoard(MetaBoard),
}

/// Nine sub-boards and a summary grid whose cell `i` holds the winner of sub-board `i`.
pub struct MetaBoard {
    pub board: BitBoard,
    pub sub_boards: Box<[Board; 9]>,
}

impl Board {
    /// The board's own grid: the cells of a leaf, the summary of a composed board.
    pub open spec fn own(self) -> BitBoard {
        match self {
            Board::BitBoard(b) => b,
            Board::MetaBoard(m) => m.board,
        }
    }

    /// Sub-board `i` of a composed board.
    pub open spec fn child(self, i: int) -> Board {
        match self {
            Board::BitBoard(_) => self,
            Board::MetaBoard(m) => m.sub_boards@[i],
        }
    }

    /// The winner of the board's own grid, or `Empty`.
    pub open spec fn winner(self) -> PlayerMarker {
        winner_of(self.own()@)
    }

    /// A board of depth `d`: leaves at depth 1, nine sub-boards of depth `d - 1`
    /// below, and a summary cell that holds its sub-board's winner.
    pub open spec fn wf(self, d: nat) -> bool
        decreases d,
    {
        if d == 0 {
            false
        } else if d == 1 {
            self is BitBoard && self.own().wf()
        } else {
            &&& self is MetaBoard
            &&& self.own().wf()
            &&& forall|i: int|
                0 <= i < 9 ==> (#[trigger] self.child(i)).wf((d - 1) as nat) && self.own()@[i]
                    == self.child(i).winner()
        }
    }

    pub open spec fn well_formed(self) -> bool {
        exists|d: nat| self.wf(d)
    }

    /// The depth of a well-formed board.
    pub open spec fn depth(self) -> nat {
        choose|d: nat| self.wf(d)
    }

    /// The sub-board reached along `s`.
    pub open spec fn board_at(self, s: Seq<usize>) -> Board
        decreases s.len(),
    {
        if s.len() == 0 {
            self
        } else {
            self.child(s[0] as int).board_at(s.drop_first())
        }
    }

    /// The marker at the end of path `p`: a cell when `p` reaches a leaf, the
    /// summary cell (the sub-board's winner) when it stops above.
    pub open spec fn cell_at(self, p: Seq<usize>) -> PlayerMarker
        decreases p.len(),
    {
        if p.len() <= 1 {
            self.own()@[p[0] as int]
        } else {
            self.child(p[0] as int).cell_at(p.drop_first())
        }
    }

    /// The summary cells along `p` above its last component are all empty: `p`
    /// enters no sub-board that is already decided.
    pub open spec fn open_along(self, p: Seq<usize>) -> bool
        decreases p.len(),
    {
        p.len() <= 1 || (self.own()@[p[0] as int] == PlayerMarker::Empty && self.child(
            p[0] as int,
        ).open_along(p.drop_first()))
    }

    /// `p` names a deepest cell that is empty and lies in no decided sub-board.
    pub open spec fn move_ok(self, p: Seq<usize>, d: nat) -> bool {
        p.len() == d && in_grid(p) && self.open_along(p) && self.cell_at(p) == PlayerMarker::Empty
    }

    /// The board after `m` is written at the end of `p`; a sub-board that becomes
    /// decided marks its summary cell in the board above.
    pub open spec fn after_set(self, p: Seq<usize>, m: PlayerMarker) -> Board
        decreases p.len(),
    {
        match self {
            Board::BitBoard(b) => Board::BitBoard(b.marked(p[0] as int, m)),
            Board::MetaBoard(mb) => if p.len() <= 1 {
                self
            } else {
                let i = p[0] as int;
                let c = mb.sub_boards@[i].after_set(p.drop_first(), m);
                let summary = if mb.board@[i] == PlayerMarker::Empty && c.winner()
                    != PlayerMarker::Empty {
                    mb.board.marked(i, c.winner())
                } else {
                    mb.board
                };
                Board::MetaBoard(
                    MetaBoard {
                        board: summary,
                        sub_boards: Box::new(vstd::array::spec_array_update(*mb.sub_boards, i, c)),
                    },
                )
            },
        }
    }

    /// The board after the cell at the end of `p` is cleared; each summary cell on
    /// the way is set to its sub-board's winner afterwards, which clears it once the
    /// sub-board is no longer decided.
    pub open spec fn after_unset(self, p: Seq<usize>) -> Board
        decreases p.len(),
    {
        match self {
            Board::BitBoard(b) => Board::BitBoard(b.cleared(p[0] as int)),
            Board::MetaBoard(mb) => if p.len() <= 1 {
                self
            } else {
                let i = p[0] as int;
                let c = mb.sub_boards@[i].after_unset(p.drop_first());
                let summary = mb.board.cleared(i).marked(i, c.winner());
                Board::MetaBoard(
                    MetaBoard {
                        board: summary,
                        sub_boards: Box::new(vstd::array::spec_array_update(*mb.sub_boards, i, c)),
                    },
                )
            },
        }
    }

    /// The cells where a move can go, as paths relative to this board, in
    /// path-lexicographic order: the empty cells of leaves reached through undecided boards.
    pub open spec fn playable(self, d: nat) -> Seq<Seq<usize>>
        decreases d, 10nat,
    {
        if d <= 1 {
            open_cells(self.own()@).map_values(|i: usize| seq![i])
        } else if self.winner() != PlayerMarker::Empty {
            seq![]
        } else {
            self.playable_children(d, 9)
        }
    }

    /// The playable cells of the first `n` sub-boards whose summary cell is empty.
    pub open spec fn playable_children(self, d: nat, n: nat) -> Seq<Seq<usize>>
        decreases d, n,
    {
        if d <= 1 || n == 0 {
            seq![]
        } else {
            self.playable_children(d, (n - 1) as nat) + if self.own()@[n - 1]
                == PlayerMarker::Empty {
                under(seq![(n - 1) as usize], self.child(n - 1).playable((d - 1) as nat))
            } else {
                seq![]
            }
        }
    }

    /// Every cell and every summary cell is empty.
    pub open spec fn fresh(self, d: nat) -> bool
        decreases d,
    {
        &&& forall|j: int| 0 <= j < 9 ==> #[trigger] self.own()@[j] == PlayerMarker::Empty
        &&& d > 1 ==> forall|i: int| 0 <= i < 9 ==> (#[trigger] self.child(i)).fresh((d - 1) as nat)
    }

    /// The number of empty deepest cells.
    pub open spec fn empty_count(self, d: nat) -> nat
        decreases d, 10nat,
    {
        if d <= 1 {
            count_empty(self.own()@, 9)
        } else {
            self.children_empty_count(d, 9)
        }
    }

    pub open spec fn children_empty_count(self, d: nat, n: nat) -> nat
        decreases d, n,
    {
        if d <= 1 || n == 0 {
            0
        } else {
            self.children_empty_count(d, (n - 1) as nat) + self.child(n - 1).empty_count(
                (d - 1) as nat,
            )
        }
    }
}

/// The number of empty cells among the first `n`.
pub open spec fn count_empty(c: Seq<PlayerMarker>, n: int) -> nat
    decreases n,
{
    if n <= 0 {
        0
    } else {
        count_empty(c, n - 1) + if c[n - 1] == PlayerMarker::Empty {
            1nat
        } else {
            0nat
        }
    }
}

proof fn lemma_count_update(c: Seq<PlayerMarker>, i: int, m: PlayerMarker, n: int)
    requires
        c.len() == 9,
        0 <= i < 9,
        0 <= n <= 9,
        c[i] == PlayerMarker::Empty,
        m != PlayerMarker::Empty,
    ensures
        count_empty(c.update(i, m), n) + (if i < n {
            1nat
        } else {
            0nat
        }) == count_empty(c, n),
    decreases n,
{
    if n > 0 {
        lemma_count_update(c, i, m, n - 1);
    }
}

impl Board {
    /// A board has one depth.
    pub proof fn lemma_depth_unique(self, d1: nat, d2: nat)
        requires
            self.wf(d1),
            self.wf(d2),
        ensures
            d1 == d2,
        decreases d1,
    {
        if d1 > 1 && d2 > 1 {
            assert(self.child(0).wf((d1 - 1) as nat));
            assert(self.child(0).wf((d2 - 1) as nat));
            self.child(0).lemma_depth_unique((d1 - 1) as nat, (d2 - 1) as nat);
        }
    }

    pub proof fn lemma_depth(self, d: nat)
        requires
            self.wf(d),
        ensures
            self.well_formed(),
            self.depth() == d,
    {
        let e = self.depth();
        assert(self.wf(e));
        self.lemma_depth_unique(d, e);
    }

    proof fn lemma_children_count_change(self, other: Board, d: nat, i: int, n: nat)
        requires
            d > 1,
            0 <= i < 9,
            n <= 9,
            forall|j: int| 0 <= j < 9 && j != i ==> other.child(j) == self.child(j),
            other.child(i).empty_count((d - 1) as nat) + 1 == self.child(i).empty_count(
                (d - 1) as nat,
            ),
        ensures
            other.children_empty_count(d, n) + (if i < n {
                1nat
            } else {
                0nat
            }) == self.children_empty_count(d, n),
        decreases n,
    {
        if n > 0 {
            self.lemma_children_count_change(other, d, i, (n - 1) as nat);
            if n - 1 != i {
                assert(other.child(n - 1) == self.child(n - 1));
            }
        }
    }

    /// Writing into an empty deepest cell keeps the board well formed, only adds
    /// marks to its own grid, and leaves one empty cell less.
    pub proof fn lemma_after_set(self, p: Seq<usize>, m: PlayerMarker, d: nat)
        requires
            self.wf(d),
            self.move_ok(p, d),
            m != PlayerMarker::Empty,
        ensures
            self.after_set(p, m).wf(d),
            extends(self.own()@, self.after_set(p, m).own()@),
            self.after_set(p, m).empty_count(d) + 1 == self.empty_count(d),
        decreases d,
    {
        let i = p[0] as int;
        assert(p[0] < 9);
        if d == 1 {
            self.own().lemma_marked(i, m);
            lemma_count_update(self.own()@, i, m, 9);
        } else {
            let rest = p.drop_first();
            let c0 = self.child(i);
            assert(c0.wf((d - 1) as nat));
            assert(in_grid(rest)) by {
                assert forall|j: int| 0 <= j < rest.len() implies #[trigger] rest[j] < 9 by {
                    assert(rest[j] == p[j + 1]);
                }
            }
            c0.lemma_after_set(rest, m, (d - 1) as nat);
            let c = c0.after_set(rest, m);
            let a = self.after_set(p, m);
            assert(forall|j: int| 0 <= j < 9 ==> #[trigger] a.child(j) == if j == i {
                c
            } else {
                self.child(j)
            });
            let sm = self.own();
            assert(sm@[i] == PlayerMarker::Empty);
            if c.winner() != PlayerMarker::Empty {
                sm.lemma_marked(i, c.winner());
            }
            assert forall|j: int| 0 <= j < 9 implies (#[trigger] a.child(j)).wf((d - 1) as nat) && (
            a.own()@[j] == PlayerMarker::Empty <==> a.child(j).winner() == PlayerMarker::Empty) by {
                if j != i {
                    assert(self.child(j).wf((d - 1) as nat));
                }
            }
            self.lemma_children_count_change(a, d, i, 9);
        }
    }

    /// Clearing a deepest cell keeps the board well formed and only removes marks
    /// from its own grid.
    pub proof fn lemma_after_unset(self, p: Seq<usize>, d: nat)
        requires
            self.wf(d),
            p.len() == d,
            in_grid(p),
        ensures
            self.after_unset(p).wf(d),
        decreases d,
    {
        let i = p[0] as int;
        assert(p[0] < 9);
        if d == 1 {
            self.own().lemma_cleared(i);
        } else {
            let rest = p.drop_first();
            let c0 = self.child(i);
            assert(c0.wf((d - 1) as nat));
            assert(in_grid(rest)) by {
                assert forall|j: int| 0 <= j < rest.len() implies #[trigger] rest[j] < 9 by {
                    assert(rest[j] == p[j + 1]);
                }
            }
            c0.lemma_after_unset(rest, (d - 1) as nat);
            let c = c0.after_unset(rest);
            let a = self.after_unset(p);
            assert(forall|j: int| 0 <= j < 9 ==> #[trigger] a.child(j) == if j == i {
                c
            } else {
                self.child(j)
            });
            let sm = self.own();
            sm.lemma_cleared(i);
            sm.cleared(i).lemma_marked(i, c.winner());
            assert forall|j: int| 0 <= j < 9 implies (#[trigger] a.child(j)).wf((d - 1) as nat) && (
            a.own()@[j] == PlayerMarker::Empty <==> a.child(j).winner() == PlayerMarker::Empty) by {
                if j != i {
                    assert(self.child(j).wf((d - 1) as nat));
                }
            }
        }
    }

    /// Writing a marker into an empty deepest cell and clearing it again gives
    /// back the very same board, summary bits included.
    pub proof fn lemma_set_then_unset(self, p: Seq<usize>, m: PlayerMarker, d: nat)
        requires
            self.wf(d),
            self.move_ok(p, d),
            m != PlayerMarker::Empty,
        ensures
            self.after_set(p, m).after_unset(p) == self,
        decreases d,
    {
        let i = p[0] as int;
        assert(p[0] < 9);
        if d == 1 {
            self.own().lemma_marked(i, m);
        } else {
            let rest = p.drop_first();
            let c0 = self.child(i);
            assert(c0.wf((d - 1) as nat));
            assert(in_grid(rest)) by {
                assert forall|j: int| 0 <= j < rest.len() implies #[trigger] rest[j] < 9 by {
                    assert(rest[j] == p[j + 1]);
                }
            }
            c0.lemma_set_then_unset(rest, m, (d - 1) as nat);
            c0.lemma_after_set(rest, m, (d - 1) as nat);
            let c = c0.after_set(rest, m);
            let sm = self.own();
            assert(sm@[i] == PlayerMarker::Empty);
            let s1 = if c.winner() != PlayerMarker::Empty {
                sm.lemma_marked(i, c.winner());
                sm.marked(i, c.winner())
            } else {
                sm
            };
            s1.lemma_cleared(i);
            s1.cleared(i).lemma_marked(i, PlayerMarker::Empty);
            assert(s1.cleared(i).marked(i, PlayerMarker::Empty)@ =~= s1.cleared(i)@);
            BitBoard::lemma_view_determines(s1.cleared(i).marked(i, PlayerMarker::Empty), s1.cleared(i));
            if c.winner() == PlayerMarker::Empty {
                assert(sm.cleared(i)@ =~= sm@);
                BitBoard::lemma_view_determines(sm.cleared(i), sm);
            }
            let mb = match self {
                Board::MetaBoard(mb) => mb,
                Board::BitBoard(_) => arbitrary(),
            };
            let arr = *mb.sub_boards;
            let arr1 = vstd::array::spec_array_update(arr, i, c);
            let arr2 = vstd::array::spec_array_update(arr1, i, c0);
            assert(arr2 =~= arr) by {
                assert forall|j: int| 0 <= j < 9 implies arr2[j] == arr[j] by {
                    assert(arr2@[j] == arr[j]);
                }
            }
        }
    }
}

proof fn lemma_no_winner_when_empty(c: Seq<PlayerMarker>, k: int)
    requires
        c.len() == 9,
        forall|j: int| 0 <= j < 9 ==> c[j] == PlayerMarker::Empty,
    ensures
        winner_from(c, k) == PlayerMarker::Empty,
    decreases 8 - k,
{
    if 0 <= k < 8 {
        let (x, y, z) = crate::bitboard::line(k);
        assert(c[x] == PlayerMarker::Empty);
        lemma_no_winner_when_empty(c, k + 1);
    }
}

proof fn lemma_under_add(s: Seq<usize>, a: Seq<Seq<usize>>, b: Seq<Seq<usize>>)
    ensures
        under(s, a + b) == under(s, a) + under(s, b),
{
    assert(under(s, a + b) =~= under(s, a) + under(s, b));
}

proof fn lemma_under_under(s: Seq<usize>, i: usize, x: Seq<Seq<usize>>)
    ensures
        under(s, under(seq![i], x)) == under(s.push(i), x),
{
    assert forall|j: int| 0 <= j < x.len() implies #[trigger] under(s, under(seq![i], x))[j]
        == under(s.push(i), x)[j] by {
        assert(s + (seq![i] + x[j]) =~= s.push(i) + x[j]);
    }
    assert(under(s, under(seq![i], x)) =~= under(s.push(i), x));
}

pub proof fn lemma_under_concat(a: Seq<usize>, b: Seq<usize>, x: Seq<Seq<usize>>)
    ensures
        under(a, under(b, x)) == under(a + b, x),
        under(Seq::<usize>::empty(), x) == x,
{
    assert forall|j: int| 0 <= j < x.len() implies #[trigger] under(a, under(b, x))[j] == under(
        a + b,
        x,
    )[j] by {
        assert(a + (b + x[j]) =~= (a + b) + x[j]);
    }
    assert(under(a, under(b, x)) =~= under(a + b, x));
    assert forall|j: int| 0 <= j < x.len() implies #[trigger] under(Seq::<usize>::empty(), x)[j]
        == x[j] by {
        assert(Seq::<usize>::empty() + x[j] =~= x[j]);
    }
    assert(under(Seq::<usize>::empty(), x) =~= x);
}

proof fn lemma_suffix(p: Seq<usize>, k: int)
    requires
        0 <= k < p.len(),
    ensures
        p.subrange(k, p.len() as int).drop_first() == p.subrange(k + 1, p.len() as int),
        p.subrange(k, p.len() as int)[0] == p[k],
        in_grid(p.subrange(k, p.len() as int)) <==> p[k] < 9 && in_grid(
            p.subrange(k + 1, p.len() as int),
        ),
{
    let a = p.subrange(k, p.len() as int);
    let b = p.subrange(k + 1, p.len() as int);
    assert(a.drop_first() =~= b);
    if p[k] < 9 && in_grid(b) {
        assert forall|j: int| 0 <= j < a.len() implies #[trigger] a[j] < 9 by {
            if j > 0 {
                assert(a[j] == b[j - 1]);
            }
        }
    }
    if in_grid(a) {
        assert(a[0] < 9);
        assert forall|j: int| 0 <= j < b.len() implies #[trigger] b[j] < 9 by {
            assert(b[j] == a[j + 1]);
        }
    }
}

proof fn lemma_empty_indices_all(c: Seq<PlayerMarker>, n: int)
    requires
        0 <= n <= 9,
        c.len() == 9,
        forall|j: int| 0 <= j < 9 ==> c[j] == PlayerMarker::Empty,
    ensures
        crate::bitboard::empty_indices(c, n).len() == n,
    decreases n,
{
    if n > 0 {
        lemma_empty_indices_all(c, n - 1);
    }
}

proof fn lemma_empty_indices_elems(c: Seq<PlayerMarker>, n: int)
    requires
        0 <= n <= 9,
        c.len() == 9,
    ensures
        forall|j: int|
            0 <= j < crate::bitboard::empty_indices(c, n).len() ==> {
                let e = #[trigger] crate::bitboard::empty_indices(c, n)[j];
                e < n && c[e as int] == PlayerMarker::Empty
            },
    decreases n,
{
    if n > 0 {
        lemma_empty_indices_elems(c, n - 1);
    }
}

impl Board {
    /// A fresh board of depth `d` offers `9^d` playable cells.
    pub proof fn lemma_fresh_count(self, d: nat)
        requires
            self.wf(d),
            self.fresh(d),
        ensures
            self.playable(d).len() == pow(9, d),
        decreases d, 10nat,
    {
        reveal(pow);
        lemma_no_winner_when_empty(self.own()@, 0);
        if d == 1 {
            lemma_empty_indices_all(self.own()@, 9);
            assert(pow(9, 0) == 1);
        } else {
            self.lemma_fresh_children_count(d, 9);
        }
    }

    proof fn lemma_fresh_children_count(self, d: nat, n: nat)
        requires
            d > 1,
            n <= 9,
            self.wf(d),
            self.fresh(d),
        ensures
            self.playable_children(d, n).len() == n * pow(9, (d - 1) as nat),
        decreases d, n,
    {
        if n > 0 {
            self.lemma_fresh_children_count(d, (n - 1) as nat);
            let c = self.child(n - 1);
            assert(c.wf((d - 1) as nat) && c.fresh((d - 1) as nat));
            c.lemma_fresh_count((d - 1) as nat);
            assert(self.own()@[n - 1] == PlayerMarker::Empty);
            assert(n * pow(9, (d - 1) as nat) == (n - 1) * pow(9, (d - 1) as nat) + pow(
                9,
                (d - 1) as nat,
            )) by (nonlinear_arith);
        } else {
            assert(0 * pow(9, (d - 1) as nat) == 0) by (nonlinear_arith);
        }
    }

    /// Every playable cell is a deepest cell that is still empty.
    pub proof fn lemma_playable_ok(self, d: nat)
        requires
            self.wf(d),
        ensures
            forall|j: int|
                0 <= j < self.playable(d).len() ==> self.move_ok(#[trigger] self.playable(d)[j], d),
        decreases d, 10nat,
    {
        if d == 1 && winner_of(self.own()@) != PlayerMarker::Empty {
            assert(self.playable(d).len() == 0);
        } else if d == 1 {
            lemma_empty_indices_elems(self.own()@, 9);
            assert forall|j: int| 0 <= j < self.playable(d).len() implies self.move_ok(
                #[trigger] self.playable(d)[j],
                d,
            ) by {
                let q = self.playable(d)[j];
                let e = crate::bitboard::empty_indices(self.own()@, 9)[j];
                assert(q == seq![e]);
                assert(in_grid(q));
            }
        } else if self.winner() == PlayerMarker::Empty {
            self.lemma_playable_children_ok(d, 9);
            assert(self.playable(d) == self.playable_children(d, 9));
        } else {
            assert(self.playable(d).len() == 0);
        }
    }

    proof fn lemma_playable_children_ok(self, d: nat, n: nat)
        requires
            d > 1,
            n <= 9,
            self.wf(d),
        ensures
            forall|j: int|
                0 <= j < self.playable_children(d, n).len() ==> self.move_ok(
                    #[trigger] self.playable_children(d, n)[j],
                    d,
                ),
        decreases d, n,
    {
        if n > 0 {
            let i = n - 1;
            self.lemma_playable_children_ok(d, i as nat);
            let c = self.child(i);
            assert(c.wf((d - 1) as nat));
            c.lemma_playable_ok((d - 1) as nat);
            let a = self.playable_children(d, i as nat);
            let cp = c.playable((d - 1) as nat);
            assert forall|j: int| 0 <= j < self.playable_children(d, n).len() implies self.move_ok(
                #[trigger] self.playable_children(d, n)[j],
                d,
            ) by {
                if j >= a.len() {
                    let q = cp[j - a.len()];
                    assert(c.move_ok(q, (d - 1) as nat));
                    let full = seq![i as usize] + q;
                    assert(self.playable_children(d, n)[j] == full);
                    assert(full.drop_first() =~= q);
                    assert(self.own()@[i] == PlayerMarker::Empty);
                    assert(self.open_along(full));
                    assert forall|t: int| 0 <= t < full.len() implies #[trigger] full[t] < 9 by {
                        if t > 0 {
                            assert(full[t] == q[t - 1]);
                        }
                    }
                }
            }
        }
    }

    /// The sub-board reached along a path of `k` cells is a board of depth `d - k`.
    pub proof fn lemma_board_at(self, s: Seq<usize>, d: nat)
        requires
            self.wf(d),
            in_grid(s),
            s.len() < d,
        ensures
            self.board_at(s).wf((d - s.len()) as nat),
        decreases s.len(),
    {
        if s.len() > 0 {
            assert(s[0] < 9);
            let rest = s.drop_first();
            assert(in_grid(rest)) by {
                assert forall|j: int| 0 <= j < rest.len() implies #[trigger] rest[j] < 9 by {
                    assert(rest[j] == s[j + 1]);
                }
            }
            assert(self.child(s[0] as int).wf((d - 1) as nat));
            self.child(s[0] as int).lemma_board_at(rest, (d - 1) as nat);
        }
    }

    /// A move inside the sub-board at `s` is a move of the whole board.
    pub proof fn lemma_move_under(self, s: Seq<usize>, q: Seq<usize>, d: nat)
        requires
            self.wf(d),
            in_grid(s),
            s.len() < d,
            live(self, s),
            self.board_at(s).move_ok(q, (d - s.len()) as nat),
        ensures
            self.move_ok(s + q, d),
        decreases s.len(),
    {
        if s.len() > 0 {
            assert(s[0] < 9);
            let rest = s.drop_first();
            assert(in_grid(rest)) by {
                assert forall|j: int| 0 <= j < rest.len() implies #[trigger] rest[j] < 9 by {
                    assert(rest[j] == s[j + 1]);
                }
            }
            assert(self.child(s[0] as int).wf((d - 1) as nat));
            self.child(s[0] as int).lemma_move_under(rest, q, (d - 1) as nat);
            let full = s + q;
            assert(full.drop_first() =~= rest + q);
            assert(full[0] == s[0]);
            assert(live(self.child(s[0] as int), rest));
            assert(self.own()@[s[0] as int] == self.child(s[0] as int).winner());
            assert(self.open_along(full));
            assert(self.cell_at(full) == self.child(s[0] as int).cell_at(rest + q));
            assert forall|t: int| 0 <= t < full.len() implies #[trigger] full[t] < 9 by {
                if t > 0 {
                    assert(full[t] == (rest + q)[t - 1]);
                }
            }
        } else {
            assert(s + q =~= q);
        }
    }
}

impl Board {
    /// A board of the default depth with every cell empty.
    pub fn new() -> (b: Board)
        ensures
            b.wf(META_DEPTH as nat),
            b.fresh(META_DEPTH as nat),
            b.playable(META_DEPTH as nat).len() == pow(9, META_DEPTH as nat),
    {
        Board::create_board(META_DEPTH)
    }

    /// A board of the given depth with every cell empty: `9^depth` playable cells.
    pub fn create_board(depth: usize) -> (b: Board)
        requires
            depth >= 1,
        ensures
            b.wf(depth as nat),
            b.fresh(depth as nat),
            b.playable(depth as nat).len() == pow(9, depth as nat),
    {
        let b = Board::fresh_board(depth);
        proof {
            b.lemma_fresh_count(depth as nat);
        }
        b
    }

    fn fresh_board(depth: usize) -> (b: Board)
        requires
            depth >= 1,
        ensures
            b.wf(depth as nat),
            b.fresh(depth as nat),
        decreases depth,
    {
        if depth == 1 {
            Board::BitBoard(BitBoard::new())
        } else {
            let d = depth - 1;
            let subs = [
                Board::fresh_board(d),
                Board::fresh_board(d),
                Board::fresh_board(d),
                Board::fresh_board(d),
                Board::fresh_board(d),
                Board::fresh_board(d),
                Board::fresh_board(d),
                Board::fresh_board(d),
                Board::fresh_board(d),
            ];
            let b = Board::MetaBoard(MetaBoard { board: BitBoard::new(), sub_boards: Box::new(subs) });
            assert forall|i: int| 0 <= i < 9 implies (#[trigger] b.child(i)).wf(d as nat) && b.child(
                i,
            ).fresh(d as nat) && b.child(i).winner() == PlayerMarker::Empty by {
                assert(b.child(i) == subs@[i]);
                lemma_no_winner_when_empty(b.child(i).own()@, 0);
            }
            b
        }
    }

    /// The board's own winner: the winner of a leaf, or of the summary grid.
    pub fn get_winner(&self) -> (w: PlayerMarker)
        ensures
            w == self.winner(),
    {
        match self {
            Board::BitBoard(b) => b.get_winner(),
            Board::MetaBoard(m) => m.board.get_winner(),
        }
    }

    /// The marker at the end of `path`: a cell for a full path, the winner of the
    /// sub-board it names for a shorter one.
    pub fn get(&self, path: &[usize]) -> (r: Result<PlayerMarker, InvalidMoveError>)
        requires
            self.well_formed(),
        ensures
            r is Ok <==> 1 <= path@.len() <= self.depth() && in_grid(path@),
            r matches Ok(v) ==> v == self.cell_at(path@),
    {
        let ghost d = self.depth();
        proof {
            self.lemma_depth(d);
            assert(path@.subrange(0, path@.len() as int) =~= path@);
        }
        self.get_from(path, 0, Ghost(d))
    }

    fn get_from(&self, path: &[usize], k: usize, Ghost(d): Ghost<nat>) -> (r: Result<
        PlayerMarker,
        InvalidMoveError,
    >)
        requires
            self.wf(d),
            k <= path@.len(),
        ensures
            ({
                let q = path@.subrange(k as int, path@.len() as int);
                &&& r is Ok <==> 1 <= q.len() <= d && in_grid(q)
                &&& r matches Ok(v) ==> v == self.cell_at(q)
            }),
        decreases path@.len() - k,
    {
        let n = path.len();
        if k >= n {
            return Err(InvalidMoveError::new("Index is empty"));
        }
        proof {
            lemma_suffix(path@, k as int);
        }
        let i = path[k];
        if i >= 9 {
            return Err(InvalidMoveError::new("Cell index out of range"));
        }
        match self {
            Board::BitBoard(b) => {
                if n - k == 1 {
                    Ok(b.get(i))
                } else {
                    Err(InvalidMoveError::new("Index is too long"))
                }
            },
            Board::MetaBoard(m) => {
                if n - k == 1 {
                    Ok(m.board.get(i))
                } else {
                    assert(self.child(i as int).wf((d - 1) as nat));
                    m.sub_boards[i].get_from(path, k + 1, Ghost((d - 1) as nat))
                }
            },
        }
    }

    /// Writes `player` into the deepest cell named by `path`. The move is refused
    /// when the cell is taken, the path has the wrong shape, or it enters a
    /// sub-board that is already decided. A sub-board that becomes decided marks
    /// its summary cell in the board above. Returns the board's own winner afterwards.
    pub fn set(&mut self, path: &[usize], player: PlayerMarker) -> (r: Result<
        PlayerMarker,
        InvalidMoveError,
    >)
        requires
            old(self).well_formed(),
        ensures
            final(self).wf(old(self).depth()),
            r is Ok <==> player != PlayerMarker::Empty && old(self).move_ok(
                path@,
                old(self).depth(),
            ),
            r is Ok ==> *final(self) == old(self).after_set(path@, player),
            r is Err ==> *final(self) == *old(self),
            r matches Ok(w) ==> w == final(self).winner(),
    {
        let ghost d = self.depth();
        proof {
            self.lemma_depth(d);
            assert(path@.subrange(0, path@.len() as int) =~= path@);
        }
        self.set_from(path, 0, player, Ghost(d))
    }

    fn set_from(&mut self, path: &[usize], k: usize, player: PlayerMarker, Ghost(d): Ghost<nat>) -> (r:
        Result<PlayerMarker, InvalidMoveError>)
        requires
            old(self).wf(d),
            k <= path@.len(),
        ensures
            final(self).wf(d),
            ({
                let q = path@.subrange(k as int, path@.len() as int);
                &&& r is Ok <==> player != PlayerMarker::Empty && old(self).move_ok(q, d)
                &&& r is Ok ==> *final(self) == old(self).after_set(q, player)
            }),
            r is Err ==> *final(self) == *old(self),
            r matches Ok(w) ==> w == final(self).winner(),
        decreases path@.len() - k,
    {
        let ghost q = path@.subrange(k as int, path@.len() as int);
        let n = path.len();
        if player == PlayerMarker::Empty {
            return Err(InvalidMoveError::new("No player to place"));
        }
        if k >= n {
            return Err(InvalidMoveError::new("Index is empty"));
        }
        proof {
            lemma_suffix(path@, k as int);
        }
        let i = path[k];
        if i >= 9 {
            return Err(InvalidMoveError::new("Cell index out of range"));
        }
        match self {
            Board::BitBoard(b) => {
                if n - k != 1 {
                    return Err(InvalidMoveError::new("Index is too long"));
                }
                proof {
                    if old(self).move_ok(q, d) {
                        assert(in_grid(q));
                    }
                }
                b.set(i, player)
            },
            Board::MetaBoard(m) => {
                if n - k == 1 {
                    return Err(InvalidMoveError::new("Index is too short"));
                }
                if m.board.get(i) != PlayerMarker::Empty {
                    return Err(InvalidMoveError::new("Board is already won"));
                }
                let ghost c0 = old(self).child(i as int);
                let ghost arr = *m.sub_boards;
                assert(c0.wf((d - 1) as nat));
                let r = m.sub_boards[i].set_from(path, k + 1, player, Ghost((d - 1) as nat));
                match r {
                    Err(e) => {
                        proof {
                            assert(*m.sub_boards =~= arr);
                        }
                        Err(e)
                    },
                    Ok(w) => {
                        proof {
                            old(self).lemma_after_set(q, player, d);
                            let c = c0.after_set(q.drop_first(), player);
                            assert(*m.sub_boards =~= vstd::array::spec_array_update(arr, i as int, c));
                            if m.board@[i as int] == PlayerMarker::Empty && w != PlayerMarker::Empty {
                                m.board.lemma_marked(i as int, w);
                            }
                        }
                        if w != PlayerMarker::Empty && m.board.get(i) == PlayerMarker::Empty {
                            let _ = m.board.set(i, w);
                        }
                        Ok(m.board.get_winner())
                    },
                }
            },
        }
    }

    /// Clears the deepest cell named by `path`, and each summary cell above whose
    /// sub-board is no longer decided. A path that does not name a deepest cell
    /// changes nothing.
    pub fn unset(&mut self, path: &[usize])
        requires
            old(self).well_formed(),
        ensures
            final(self).wf(old(self).depth()),
            path@.len() == old(self).depth() && in_grid(path@) ==> *final(self) == old(
                self,
            ).after_unset(path@),
            !(path@.len() == old(self).depth() && in_grid(path@)) ==> *final(self) == *old(self),
    {
        let ghost d = self.depth();
        proof {
            self.lemma_depth(d);
            assert(path@.subrange(0, path@.len() as int) =~= path@);
        }
        let _ = self.unset_from(path, 0, Ghost(d));
    }

    fn unset_from(&mut self, path: &[usize], k: usize, Ghost(d): Ghost<nat>) -> (done: bool)
        requires
            old(self).wf(d),
            k <= path@.len(),
        ensures
            final(self).wf(d),
            ({
                let q = path@.subrange(k as int, path@.len() as int);
                &&& done <==> q.len() == d && in_grid(q)
                &&& done ==> *final(self) == old(self).after_unset(q)
            }),
            !done ==> *final(self) == *old(self),
        decreases path@.len() - k,
    {
        let ghost q = path@.subrange(k as int, path@.len() as int);
        let n = path.len();
        if k >= n {
            return false;
        }
        proof {
            lemma_suffix(path@, k as int);
        }
        let i = path[k];
        if i >= 9 {
            return false;
        }
        match self {
            Board::BitBoard(b) => {
                if n - k != 1 {
                    return false;
                }
                b.unset(i);
                true
            },
            Board::MetaBoard(m) => {
                if n - k == 1 {
                    return false;
                }
                let ghost c0 = old(self).child(i as int);
                let ghost arr = *m.sub_boards;
                assert(c0.wf((d - 1) as nat));
                let done = m.sub_boards[i].unset_from(path, k + 1, Ghost((d - 1) as nat));
                if !done {
                    proof {
                        assert(*m.sub_boards =~= arr);
                    }
                    return false;
                }
                proof {
                    old(self).lemma_after_unset(q, d);
                    let c = c0.after_unset(q.drop_first());
                    assert(*m.sub_boards =~= vstd::array::spec_array_update(arr, i as int, c));
                }
                proof {
                    m.board.lemma_cleared(i as int);
                }
                m.board.unset(i);
                let w = m.sub_boards[i].get_winner();
                proof {
                    m.board.lemma_marked(i as int, w);
                }
                if w != PlayerMarker::Empty {
                    let _ = m.board.set(i, w);
                }
                proof {
                    if w == PlayerMarker::Empty {
                        assert(m.board.marked(i as int, w)@ =~= m.board@);
                        BitBoard::lemma_view_determines(m.board.marked(i as int, w), m.board);
                    }
                }
                true
            },
        }
    }

    /// Appends the playable cells, each behind the path in `next_move`; the board
    /// must be undecided for any to be found. `next_move` is left as it was.
    pub fn get_empty_positions(&self, possible_moves: &mut PossibleMoves, next_move: &mut MetaMove)
        requires
            self.well_formed(),
        ensures
            final(possible_moves)@ == old(possible_moves)@ + under(
                old(next_move)@,
                self.playable(self.depth()),
            ),
            final(next_move)@ == old(next_move)@,
    {
        let ghost d = self.depth();
        proof {
            self.lemma_depth(d);
        }
        self.push_playable(possible_moves, next_move, Ghost(d));
    }

    fn push_playable(
        &self,
        possible_moves: &mut PossibleMoves,
        next_move: &mut MetaMove,
        Ghost(d): Ghost<nat>,
    )
        requires
            self.wf(d),
        ensures
            final(possible_moves)@ == old(possible_moves)@ + under(old(next_move)@, self.playable(d)),
            final(next_move)@ == old(next_move)@,
        decreases d,
    {
        let ghost pre = next_move@;
        let ghost out0 = possible_moves@;
        match self {
            Board::BitBoard(b) => {
                if b.get_winner() != PlayerMarker::Empty {
                    assert(under(pre, self.playable(d)) =~= Seq::<Seq<usize>>::empty());
                    assert(possible_moves@ =~= out0 + under(pre, self.playable(d)));
                    return;
                }
                let ghost c = b@;
                let mut i: usize = 0;
                while i < 9
                    invariant
                        i <= 9,
                        c == b@,
                        next_move@ == pre,
                        possible_moves@ == out0 + under(
                            pre,
                            crate::bitboard::empty_indices(c, i as int).map_values(
                                |j: usize| seq![j],
                            ),
                        ),
                    decreases 9 - i,
                {
                    let ghost before = possible_moves@;
                    if b.get(i) == PlayerMarker::Empty {
                        next_move.push(i);
                        let m = next_move.clone();
                        possible_moves.push(m);
                        next_move.pop();
                        assert(next_move@ =~= pre);
                    }
                    proof {
                        let e0 = crate::bitboard::empty_indices(c, i as int);
                        let e1 = crate::bitboard::empty_indices(c, i as int + 1);
                        let tail: Seq<usize> = if c[i as int] == PlayerMarker::Empty {
                            seq![i]
                        } else {
                            seq![]
                        };
                        assert(e1 == e0 + tail);
                        assert(e1.map_values(|j: usize| seq![j]) =~= e0.map_values(|j: usize| seq![j])
                            + tail.map_values(|j: usize| seq![j]));
                        lemma_under_add(
                            pre,
                            e0.map_values(|j: usize| seq![j]),
                            tail.map_values(|j: usize| seq![j]),
                        );
                        if c[i as int] == PlayerMarker::Empty {
                            assert(pre.push(i) =~= pre + seq![i]);
                        }
                        assert(possible_moves@ =~= out0 + under(pre, e1.map_values(|j: usize| seq![j])));
                    }
                    i = i + 1;
                }
            },
            Board::MetaBoard(m) => {
                if m.board.get_winner() != PlayerMarker::Empty {
                    assert(under(pre, self.playable(d)) =~= Seq::<Seq<usize>>::empty());
                    assert(possible_moves@ =~= out0 + under(pre, self.playable(d)));
                    return;
                }
                assert(under(pre, self.playable_children(d, 0)) =~= Seq::<Seq<usize>>::empty());
                assert(possible_moves@ =~= out0 + under(pre, self.playable_children(d, 0)));
                let mut i: usize = 0;
                while i < 9
                    invariant
                        i <= 9,
                        d > 1,
                        self.wf(d),
                        *self == Board::MetaBoard(*m),
                        next_move@ == pre,
                        possible_moves@ == out0 + under(pre, self.playable_children(d, i as nat)),
                    decreases 9 - i,
                {
                    let ghost before = possible_moves@;
                    let ghost ch = self.child(i as int);
                    let ghost tail: Seq<Seq<usize>> = if self.own()@[i as int] == PlayerMarker::Empty {
                        under(seq![i], ch.playable((d - 1) as nat))
                    } else {
                        seq![]
                    };
                    if m.board.get(i) == PlayerMarker::Empty {
                        next_move.push(i);
                        assert(ch.wf((d - 1) as nat));
                        m.sub_boards[i].push_playable(possible_moves, next_move, Ghost((d - 1) as nat));
                        next_move.pop();
                        assert(next_move@ =~= pre);
                        proof {
                            lemma_under_under(pre, i, ch.playable((d - 1) as nat));
                        }
                    } else {
                        assert(under(pre, tail) =~= Seq::<Seq<usize>>::empty());
                    }
                    proof {
                        lemma_under_add(pre, self.playable_children(d, i as nat), tail);
                        assert(self.playable_children(d, (i + 1) as nat) == self.playable_children(
                            d,
                            i as nat,
                        ) + tail);
                        assert(possible_moves@ =~= out0 + under(
                            pre,
                            self.playable_children(d, (i + 1) as nat),
                        ));
                    }
                    i = i + 1;
                }
            },
        }
    }

    /// Some move can still be made on this board.
    pub fn can_set(&self) -> (r: bool)
        requires
            self.well_formed(),
        ensures
            r == (self.playable(self.depth()).len() > 0),
    {
        let mut found = PossibleMoves::new();
        let mut scratch = MetaMove::new_empty();
        self.get_empty_positions(&mut found, &mut scratch);
        !found.is_empty()
    }

    /// `other` is the very same board.
    pub fn same_as(&self, other: &Board) -> (r: bool)
        requires
            self.well_formed(),
        ensures
            r == (*self == *other),
    {
        proof {
            self.lemma_depth(self.depth());
        }
        self.same_at(other, Ghost(self.depth()))
    }

    fn same_at(&self, other: &Board, Ghost(d): Ghost<nat>) -> (r: bool)
        requires
            self.wf(d),
        ensures
            r == (*self == *other),
        decreases d,
    {
        match (self, other) {
            (Board::BitBoard(a), Board::BitBoard(b)) => a.same(b),
            (Board::MetaBoard(a), Board::MetaBoard(b)) => {
                if !a.board.same(&b.board) {
                    return false;
                }
                let mut i: usize = 0;
                while i < 9
                    invariant
                        i <= 9,
                        d > 1,
                        self.wf(d),
                        *self == Board::MetaBoard(*a),
                        *other == Board::MetaBoard(*b),
                        forall|t: int| 0 <= t < i ==> a.sub_boards@[t] == b.sub_boards@[t],
                    decreases 9 - i,
                {
                    assert(self.child(i as int).wf((d - 1) as nat));
                    if !a.sub_boards[i].same_at(&b.sub_boards[i], Ghost((d - 1) as nat)) {
                        return false;
                    }
                    i = i + 1;
                }
                assert(*a.sub_boards =~= *b.sub_boards);
                true
            },
            _ => false,
        }
    }

    /// An exact copy of a well-formed board.
    pub fn snapshot(&self) -> (r: Board)
        requires
            self.well_formed(),
        ensures
            r == *self,
    {
        proof {
            self.lemma_depth(self.depth());
        }
        self.copy_at(Ghost(self.depth()))
    }

    fn copy_at(&self, Ghost(d): Ghost<nat>) -> (r: Board)
        requires
            self.wf(d),
        ensures
            r == *self,
        decreases d,
    {
        match self {
            Board::BitBoard(b) => Board::BitBoard(*b),
            Board::MetaBoard(m) => {
                let ghost e = (d - 1) as nat;
                proof {
                    assert(self.child(0).wf(e) && self.child(1).wf(e) && self.child(2).wf(e));
                    assert(self.child(3).wf(e) && self.child(4).wf(e) && self.child(5).wf(e));
                    assert(self.child(6).wf(e) && self.child(7).wf(e) && self.child(8).wf(e));
                }
                let subs = [
                    m.sub_boards[0].copy_at(Ghost(e)),
                    m.sub_boards[1].copy_at(Ghost(e)),
                    m.sub_boards[2].copy_at(Ghost(e)),
                    m.sub_boards[3].copy_at(Ghost(e)),
                    m.sub_boards[4].copy_at(Ghost(e)),
                    m.sub_boards[5].copy_at(Ghost(e)),
                    m.sub_boards[6].copy_at(Ghost(e)),
                    m.sub_boards[7].copy_at(Ghost(e)),
                    m.sub_boards[8].copy_at(Ghost(e)),
                ];
                assert(subs =~= *m.sub_boards);
                Board::MetaBoard(MetaBoard { board: m.board, sub_boards: Box::new(subs) })
            },
        }
    }

    proof fn lemma_path_step(p: Seq<usize>, k: int)
        requires
            0 < k <= p.len(),
        ensures
            p.take(k).drop_first() == p.drop_first().take(k - 1),
            p.take(k)[0] == p[0],
            p.take(k).len() > 0,
    {
        assert(p.take(k).drop_first() =~= p.drop_first().take(k - 1));
    }

    /// Writing into a deepest cell changes the leaf that holds it in that cell alone.
    pub proof fn lemma_leaf_after_set(self, p: Seq<usize>, m: PlayerMarker, d: nat)
        requires
            self.wf(d),
            self.move_ok(p, d),
            m != PlayerMarker::Empty,
        ensures
            self.after_set(p, m).board_at(p.take(d - 1)).own()@ == self.board_at(
                p.take(d - 1),
            ).own()@.update(p[d - 1] as int, m),
        decreases d,
    {
        let i = p[0] as int;
        assert(p[0] < 9);
        if d == 1 {
            assert(p.take(0) =~= Seq::<usize>::empty());
            self.own().lemma_marked(i, m);
        } else {
            let rest = p.drop_first();
            let c0 = self.child(i);
            assert(c0.wf((d - 1) as nat));
            assert(in_grid(rest)) by {
                assert forall|j: int| 0 <= j < rest.len() implies #[trigger] rest[j] < 9 by {
                    assert(rest[j] == p[j + 1]);
                }
            }
            c0.lemma_leaf_after_set(rest, m, (d - 1) as nat);
            Self::lemma_path_step(p, d - 1);
            assert(rest[d - 2] == p[d - 1]);
        }
    }

    /// When a move decides a sub-board that was undecided, the summary cell for it
    /// in the board just above holds its winner at once.
    pub proof fn lemma_decided_marks_summary(self, p: Seq<usize>, m: PlayerMarker, d: nat, k: nat)
        requires
            self.wf(d),
            self.move_ok(p, d),
            m != PlayerMarker::Empty,
            k + 1 < d,
            self.board_at(p.take(k as int)).own()@[p[k as int] as int] == PlayerMarker::Empty,
        ensures
            self.after_set(p, m).board_at(p.take(k as int)).own()@[p[k as int] as int] == self.after_set(
                p,
                m,
            ).board_at(p.take(k + 1 as int)).winner(),
        decreases d,
    {
        let i = p[0] as int;
        assert(p[0] < 9);
        let rest = p.drop_first();
        let c0 = self.child(i);
        assert(c0.wf((d - 1) as nat));
        assert(in_grid(rest)) by {
            assert forall|j: int| 0 <= j < rest.len() implies #[trigger] rest[j] < 9 by {
                assert(rest[j] == p[j + 1]);
            }
        }
        c0.lemma_after_set(rest, m, (d - 1) as nat);
        let c = c0.after_set(rest, m);
        let a = self.after_set(p, m);
        assert(a.child(i) == c);
        Self::lemma_path_step(p, k + 1 as int);
        assert(a.board_at(p.take(k + 1 as int)) == c.board_at(rest.take(k as int)));
        if k == 0 {
            assert(p.take(0) =~= Seq::<usize>::empty());
            assert(rest.take(0) =~= Seq::<usize>::empty());
            assert(a.board_at(p.take(0)) == a);
            assert(self.board_at(p.take(0)) == self);
            assert(c.board_at(rest.take(0)) == c);
            if c.winner() != PlayerMarker::Empty {
                self.own().lemma_marked(i, c.winner());
            }
        } else {
            Self::lemma_path_step(p, k as int);
            assert(a.board_at(p.take(k as int)) == c.board_at(rest.take(k - 1)));
            assert(self.board_at(p.take(k as int)) == c0.board_at(rest.take(k - 1)));
            assert(rest[k - 1] == p[k as int]);
            c0.lemma_decided_marks_summary(rest, m, (d - 1) as nat, (k - 1) as nat);
            assert(rest.take(k - 1 + 1) == rest.take(k as int));
        }
    }

    proof fn lemma_board_at_push(self, s: Seq<usize>, x: usize)
        ensures
            self.board_at(s.push(x)) == self.board_at(s).child(x as int),
        decreases s.len(),
    {
        assert(s.push(x)[0] == if s.len() == 0 {
            x
        } else {
            s[0]
        });
        if s.len() == 0 {
            assert(s.push(x).drop_first() =~= Seq::<usize>::empty());
            assert(self.board_at(s) == self);
            assert(self.child(x as int).board_at(Seq::<usize>::empty()) == self.child(x as int));
        } else {
            assert(s.push(x).drop_first() =~= s.drop_first().push(x));
            self.child(s[0] as int).lemma_board_at_push(s.drop_first(), x);
        }
    }

    proof fn lemma_open_along_at(self, p: Seq<usize>, k: nat)
        requires
            self.open_along(p),
            k + 1 < p.len(),
        ensures
            self.board_at(p.take(k as int)).own()@[p[k as int] as int] == PlayerMarker::Empty,
        decreases k,
    {
        if k == 0 {
            assert(p.take(0) =~= Seq::<usize>::empty());
            assert(self.board_at(p.take(0)) == self);
        } else {
            let rest = p.drop_first();
            Self::lemma_path_step(p, k as int);
            self.child(p[0] as int).lemma_open_along_at(rest, (k - 1) as nat);
            assert(rest[k - 1] == p[k as int]);
        }
    }

    /// Completing a line on a leaf decides that leaf, and the summary cell for it in
    /// the board above holds the same winner at once.
    pub proof fn lemma_win_propagates(self, p: Seq<usize>, m: PlayerMarker, d: nat)
        requires
            self.wf(d),
            d >= 2,
            self.move_ok(p, d),
            m != PlayerMarker::Empty,
        ensures
            self.after_set(p, m).board_at(p.take(d - 1)).winner() == winner_of(
                self.board_at(p.take(d - 1)).own()@.update(p[d - 1] as int, m),
            ),
            self.after_set(p, m).board_at(p.take(d - 2)).own()@[p[d - 2] as int] == self.after_set(
                p,
                m,
            ).board_at(p.take(d - 1)).winner(),
            forall|k: int|
                0 <= k < 8 && #[trigger] crate::bitboard::line_held(
                    self.board_at(p.take(d - 1)).own()@.update(p[d - 1] as int, m),
                    k,
                    m,
                ) ==> self.after_set(p, m).board_at(p.take(d - 1)).winner() == m
                    && self.after_set(p, m).board_at(p.take(d - 2)).own()@[p[d - 2] as int] == m,
    {
        self.lemma_leaf_after_set(p, m, d);
        self.lemma_after_set(p, m, d);
        let a = self.after_set(p, m);
        let s = p.take(d - 2);
        assert(in_grid(s)) by {
            assert forall|j: int| 0 <= j < s.len() implies #[trigger] s[j] < 9 by {
                assert(s[j] == p[j]);
            }
        }
        a.lemma_board_at(s, d);
        assert(p.take(d - 1) =~= s.push(p[d - 2]));
        a.lemma_board_at_push(s, p[d - 2]);
        let parent = a.board_at(s);
        assert(parent.wf(2));
        assert(p[d - 2] < 9);
        assert(parent.child(p[d - 2] as int).wf(1));
        self.lemma_board_at(s, d);
        self.lemma_board_at_push(s, p[d - 2]);
        self.lemma_open_along_at(p, (d - 2) as nat);
        let before = self.board_at(s);
        assert(before.wf(2));
        assert(before.child(p[d - 2] as int).wf(1));
        let leaf = self.board_at(p.take(d - 1));
        assert(winner_of(leaf.own()@) == PlayerMarker::Empty);
        assert(p[d - 1] < 9);
        assert forall|k: int|
            0 <= k < 8 && #[trigger] crate::bitboard::line_held(
                leaf.own()@.update(p[d - 1] as int, m),
                k,
                m,
            ) implies winner_of(leaf.own()@.update(p[d - 1] as int, m)) == m by {
            crate::bitboard::lemma_completing_line_wins(leaf.own()@, p[d - 1] as int, m, k);
        }
    }
}

} // verus!
