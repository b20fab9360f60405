use vstd::prelude::*;

use crate::marker::{InvalidMoveError, PlayerMarker};

verus! {

/// Number of cells of a 3x3 grid.
pub const BOARD_SIZE_SQUARED: usize = 9;

/// Bit `i` of a mask.
pub open spec fn bit(m: u16, i: int) -> bool {
    (m >> (i as u16)) & 1u16 == 1u16
}

/// The three cells of winning line `k`, in the order the lines are checked:
/// rows from the top, columns from the left, then the two diagonals.
pub open spec fn line(k: int) -> (int, int, int) {
    if k == 0 {
        (6, 7, 8)
    } else if k == 1 {
        (3, 4, 5)
    } else if k == 2 {
        (0, 1, 2)
    } else if k == 3 {
        (2, 5, 8)
    } else if k == 4 {
        (1, 4, 7)
    } else if k == 5 {
        (0, 3, 6)
    } else if k == 6 {
        (0, 4, 8)
    } else {
        (2, 4, 6)
    }
}

/// Whether `p` holds all three cells of line `k`.
pub open spec fn line_held(c: Seq<PlayerMarker>, k: int, p: PlayerMarker) -> bool {
    let (a, b, d) = line(k);
    c[a] == p && c[b] == p && c[d] == p
}

/// The holder of the first line, from line `k` on, that one marker holds entirely;
/// `X` is looked at before `O` on each line.
pub open spec fn winner_from(c: Seq<PlayerMarker>, k: int) -> PlayerMarker
    decreases 8 - k,
{
    if k < 0 || k >= 8 {
        PlayerMarker::Empty
    } else if line_held(c, k, PlayerMarker::X) {
        PlayerMarker::X
    } else if line_held(c, k, PlayerMarker::O) {
        PlayerMarker::O
    } else {
        winner_from(c, k + 1)
    }
}

/// The winner of a 3x3 grid of cells, or `Empty`.
pub open spec fn winner_of(c: Seq<PlayerMarker>) -> PlayerMarker {
    winner_from(c, 0)
}

/// No cell of the grid is empty.
pub open spec fn full_of(c: Seq<PlayerMarker>) -> bool {
    forall|i: int| 0 <= i < 9 ==> c[i] != PlayerMarker::Empty
}

/// The grid still accepts moves: it is undecided and has an empty cell.
pub open spec fn accepts(c: Seq<PlayerMarker>) -> bool {
    winner_of(c) == PlayerMarker::Empty && !full_of(c)
}

/// The empty cells among the first `n`, in increasing order.
pub open spec fn empty_indices(c: Seq<PlayerMarker>, n: int) -> Seq<usize>
    decreases n,
{
    if n <= 0 {
        seq![]
    } else {
        empty_indices(c, n - 1) + if c[n - 1] == PlayerMarker::Empty {
            seq![(n - 1) as usize]
        } else {
            seq![]
        }
    }
}

/// The cells where a move can still go: the empty ones of an undecided grid.
pub open spec fn open_cells(c: Seq<PlayerMarker>) -> Seq<usize> {
    if winner_of(c) != PlayerMarker::Empty {
        seq![]
    } else {
        empty_indices(c, 9)
    }
}

/// Neither player holds line `j`.
pub open spec fn line_free(c: Seq<PlayerMarker>, j: int) -> bool {
    !line_held(c, j, PlayerMarker::X) && !line_held(c, j, PlayerMarker::O)
}

proof fn lemma_undecided_holds_no_line(c: Seq<PlayerMarker>, k: int)
    requires
        0 <= k,
        winner_from(c, k) == PlayerMarker::Empty,
    ensures
        forall|j: int| k <= j < 8 ==> #[trigger] line_free(c, j),
    decreases 8 - k,
{
    if k < 8 {
        assert(line_free(c, k));
        lemma_undecided_holds_no_line(c, k + 1);
        assert forall|j: int| k <= j < 8 implies #[trigger] line_free(c, j) by {
            if j > k {
                assert(line_free(c, j));
            }
        }
    }
}

proof fn lemma_first_line_is_the_movers(
    c: Seq<PlayerMarker>,
    i: int,
    p: PlayerMarker,
    j: int,
    k: int,
)
    requires
        c.len() == 9,
        0 <= i < 9,
        p != PlayerMarker::Empty,
        winner_of(c) == PlayerMarker::Empty,
        0 <= j <= k < 8,
        line_held(c.update(i, p), k, p),
    ensures
        winner_from(c.update(i, p), j) == p,
    decreases k - j,
{
    lemma_undecided_holds_no_line(c, 0);
    let u = c.update(i, p);
    let (a, b, d) = line(j);
    assert(0 <= a < 9 && 0 <= b < 9 && 0 <= d < 9);
    assert(line_free(c, j));
    if line_held(u, j, PlayerMarker::X) || line_held(u, j, PlayerMarker::O) {
        assert(a == i || b == i || d == i);
    } else if j < k {
        lemma_first_line_is_the_movers(c, i, p, j + 1, k);
    }
}

/// Completing a line on an undecided grid makes the player who completed it
/// the grid's winner.
pub proof fn lemma_completing_line_wins(c: Seq<PlayerMarker>, i: int, p: PlayerMarker, k: int)
    requires
        c.len() == 9,
        0 <= i < 9,
        p != PlayerMarker::Empty,
        winner_of(c) == PlayerMarker::Empty,
        0 <= k < 8,
        line_held(c.update(i, p), k, p),
    ensures
        winner_of(c.update(i, p)) == p,
{
    lemma_first_line_is_the_movers(c, i, p, 0, k);
}

proof fn lemma_or_bit(m: u16, i: u16, j: u16)
    requires
        i < 9,
        j < 9,
    ensures
        ((m | (1u16 << i)) >> j) & 1u16 == 1u16 <==> (i == j || (m >> j) & 1u16 == 1u16),
{
    assert(((m | (1u16 << i)) >> j) & 1u16 == 1u16 <==> (i == j || (m >> j) & 1u16 == 1u16))
        by (bit_vector)
        requires
            i < 9,
            j < 9,
    ;
}

proof fn lemma_clear_bit(m: u16, i: u16, j: u16)
    requires
        i < 9,
        j < 9,
    ensures
        ((m & !(1u16 << i)) >> j) & 1u16 == 1u16 <==> (i != j && (m >> j) & 1u16 == 1u16),
{
    assert(((m & !(1u16 << i)) >> j) & 1u16 == 1u16 <==> (i != j && (m >> j) & 1u16 == 1u16))
        by (bit_vector)
        requires
            i < 9,
            j < 9,
    ;
}

proof fn lemma_masks_after_set(x: u16, o: u16, i: u16)
    requires
        i < 9,
        x < 512,
        o < 512,
        x & o == 0,
        (x >> i) & 1u16 == 0,
        (o >> i) & 1u16 == 0,
    ensures
        (x | (1u16 << i)) < 512,
        (x | (1u16 << i)) & o == 0,
        x & (o | (1u16 << i)) == 0,
        (x | (1u16 << i)) & !(1u16 << i) == x,
        x & !(1u16 << i) == x,
{
    assert((x | (1u16 << i)) < 512 && (x | (1u16 << i)) & o == 0 && x & (o | (1u16 << i)) == 0
        && (x | (1u16 << i)) & !(1u16 << i) == x && x & !(1u16 << i) == x) by (bit_vector)
        requires
            i < 9,
            x < 512,
            o < 512,
            x & o == 0,
            (x >> i) & 1u16 == 0,
            (o >> i) & 1u16 == 0,
    ;
}

proof fn lemma_masks_after_clear(x: u16, o: u16, i: u16)
    requires
        i < 9,
        x < 512,
        o < 512,
        x & o == 0,
    ensures
        (x & !(1u16 << i)) < 512,
        (o & !(1u16 << i)) < 512,
        (x & !(1u16 << i)) & (o & !(1u16 << i)) == 0,
{
    assert((x & !(1u16 << i)) < 512 && (o & !(1u16 << i)) < 512 && (x & !(1u16 << i)) & (o & !(
    1u16 << i)) == 0) by (bit_vector)
        requires
            i < 9,
            x < 512,
            o < 512,
            x & o == 0,
    ;
}

proof fn lemma_mask_from_bits(x: u16, y: u16)
    requires
        x < 512,
        y < 512,
        (x >> 0u16) & 1u16 == (y >> 0u16) & 1u16,
        (x >> 1u16) & 1u16 == (y >> 1u16) & 1u16,
        (x >> 2u16) & 1u16 == (y >> 2u16) & 1u16,
        (x >> 3u16) & 1u16 == (y >> 3u16) & 1u16,
        (x >> 4u16) & 1u16 == (y >> 4u16) & 1u16,
        (x >> 5u16) & 1u16 == (y >> 5u16) & 1u16,
        (x >> 6u16) & 1u16 == (y >> 6u16) & 1u16,
        (x >> 7u16) & 1u16 == (y >> 7u16) & 1u16,
        (x >> 8u16) & 1u16 == (y >> 8u16) & 1u16,
    ensures
        x == y,
{
    assert(x == y) by (bit_vector)
        requires
            x < 512,
            y < 512,
            (x >> 0u16) & 1u16 == (y >> 0u16) & 1u16,
            (x >> 1u16) & 1u16 == (y >> 1u16) & 1u16,
            (x >> 2u16) & 1u16 == (y >> 2u16) & 1u16,
            (x >> 3u16) & 1u16 == (y >> 3u16) & 1u16,
            (x >> 4u16) & 1u16 == (y >> 4u16) & 1u16,
            (x >> 5u16) & 1u16 == (y >> 5u16) & 1u16,
            (x >> 6u16) & 1u16 == (y >> 6u16) & 1u16,
            (x >> 7u16) & 1u16 == (y >> 7u16) & 1u16,
            (x >> 8u16) & 1u16 == (y >> 8u16) & 1u16,
    ;
}

proof fn lemma_bit_is_0_or_1(m: u16, i: u16)
    ensures
        (m >> i) & 1u16 == 1u16 || (m >> i) & 1u16 == 0u16,
{
    assert((m >> i) & 1u16 == 1u16 || (m >> i) & 1u16 == 0u16) by (bit_vector);
}

/// A 3x3 grid stored as one 9-bit mask per player.
#[derive(Clone, Copy, Debug)]
pub struct BitBoard {
    x: u16,
    o: u16,
}

impl View for BitBoard {
    type V = Seq<PlayerMarker>;

    /// The nine cells, row by row from the least significant bit.
    open spec fn view(&self) -> Seq<PlayerMarker> {
        Seq::new(9, |i: int| self.cell(i))
    }
}

impl BitBoard {
    /// Both masks fit in nine bits and never share a bit.
    pub closed spec fn wf(&self) -> bool {
        self.x < 512 && self.o < 512 && self.x & self.o == 0
    }

    pub closed spec fn cell(&self, i: int) -> PlayerMarker {
        if bit(self.x, i) {
            PlayerMarker::X
        } else if bit(self.o, i) {
            PlayerMarker::O
        } else {
            PlayerMarker::Empty
        }
    }

    /// The grid with cell `i` cleared.
    pub closed spec fn cleared(self, i: int) -> BitBoard {
        BitBoard { x: self.x & !(1u16 << (i as u16)), o: self.o & !(1u16 << (i as u16)) }
    }

    /// The grid with `p` written into cell `i` (nothing changes for `Empty`).
    pub closed spec fn marked(self, i: int, p: PlayerMarker) -> BitBoard {
        match p {
            PlayerMarker::X => BitBoard { x: self.x | (1u16 << (i as u16)), o: self.o },
            PlayerMarker::O => BitBoard { x: self.x, o: self.o | (1u16 << (i as u16)) },
            PlayerMarker::Empty => self,
        }
    }

    proof fn lemma_bits_match(a: BitBoard, b: BitBoard, j: u16)
        requires
            a.wf(),
            b.wf(),
            a@ == b@,
            j < 9,
        ensures
            (a.x >> j) & 1u16 == (b.x >> j) & 1u16,
            (a.o >> j) & 1u16 == (b.o >> j) & 1u16,
    {
        assert(a.cell(j as int) == a@[j as int]);
        assert(b.cell(j as int) == b@[j as int]);
        lemma_bit_is_0_or_1(a.x, j);
        lemma_bit_is_0_or_1(b.x, j);
        lemma_bit_is_0_or_1(a.o, j);
        lemma_bit_is_0_or_1(b.o, j);
        let (ax, ao, bx, bo) = (a.x, a.o, b.x, b.o);
        assert((ax >> j) & 1u16 == 1u16 ==> (ao >> j) & 1u16 == 0u16) by (bit_vector)
            requires
                ax & ao == 0,
        ;
        assert((bx >> j) & 1u16 == 1u16 ==> (bo >> j) & 1u16 == 0u16) by (bit_vector)
            requires
                bx & bo == 0,
        ;
    }

    /// Two well-formed grids with the same cells are the same bits.
    pub proof fn lemma_view_determines(a: BitBoard, b: BitBoard)
        requires
            a.wf(),
            b.wf(),
            a@ == b@,
        ensures
            a == b,
    {
        Self::lemma_bits_match(a, b, 0);
        Self::lemma_bits_match(a, b, 1);
        Self::lemma_bits_match(a, b, 2);
        Self::lemma_bits_match(a, b, 3);
        Self::lemma_bits_match(a, b, 4);
        Self::lemma_bits_match(a, b, 5);
        Self::lemma_bits_match(a, b, 6);
        Self::lemma_bits_match(a, b, 7);
        Self::lemma_bits_match(a, b, 8);
        lemma_mask_from_bits(a.x, b.x);
        lemma_mask_from_bits(a.o, b.o);
    }

    /// Marking an empty cell of a well-formed grid changes that cell alone.
    pub proof fn lemma_marked(self, i: int, p: PlayerMarker)
        requires
            self.wf(),
            0 <= i < 9,
            self@[i] == PlayerMarker::Empty,
        ensures
            self.marked(i, p).wf(),
            self.marked(i, p)@ == self@.update(i, p),
            self.marked(i, p).cleared(i) == self,
    {
        let ii = i as u16;
        assert(self.cell(i) == PlayerMarker::Empty);
        lemma_bit_is_0_or_1(self.x, ii);
        lemma_bit_is_0_or_1(self.o, ii);
        let (x, o) = (self.x, self.o);
        assert(o & x == 0) by (bit_vector)
            requires
                x & o == 0,
        ;
        lemma_masks_after_set(self.x, self.o, ii);
        lemma_masks_after_set(self.o, self.x, ii);
        let m = self.marked(i, p);
        assert forall|j: int| 0 <= j < 9 implies #[trigger] m.cell(j) == self@.update(i, p)[j] by {
            lemma_or_bit(self.x, ii, j as u16);
            lemma_or_bit(self.o, ii, j as u16);
        }
        assert(m@ =~= self@.update(i, p));
    }

    /// Clearing a cell of a well-formed grid empties that cell alone.
    pub proof fn lemma_cleared(self, i: int)
        requires
            self.wf(),
            0 <= i < 9,
        ensures
            self.cleared(i).wf(),
            self.cleared(i)@ == self@.update(i, PlayerMarker::Empty),
    {
        let ii = i as u16;
        lemma_masks_after_clear(self.x, self.o, ii);
        let m = self.cleared(i);
        assert forall|j: int| 0 <= j < 9 implies #[trigger] m.cell(j) == self@.update(
            i,
            PlayerMarker::Empty,
        )[j] by {
            lemma_clear_bit(self.x, ii, j as u16);
            lemma_clear_bit(self.o, ii, j as u16);
        }
        assert(m@ =~= self@.update(i, PlayerMarker::Empty));
    }

    /// An empty grid.
    pub fn new() -> (b: Self)
        ensures
            b.wf(),
            b@ == Seq::new(9, |i: int| PlayerMarker::Empty),
    {
        let b = BitBoard { x: 0, o: 0 };
        assert(0u16 & 0u16 == 0u16) by (bit_vector);
        assert forall|j: int| 0 <= j < 9 implies #[trigger] b.cell(j) == PlayerMarker::Empty by {
            let jj = j as u16;
            assert((0u16 >> jj) & 1u16 == 0u16) by (bit_vector);
        }
        assert(b@ =~= Seq::new(9, |i: int| PlayerMarker::Empty));
        b
    }

    /// The two grids hold the same bits.
    pub fn same(&self, other: &BitBoard) -> (r: bool)
        ensures
            r == (*self == *other),
    {
        self.x == other.x && self.o == other.o
    }

    /// The marker in cell `index`.
    pub fn get(&self, index: usize) -> (r: PlayerMarker)
        requires
            index < 9,
        ensures
            r == self@[index as int],
    {
        let i = index as u16;
        if (self.x >> i) & 1 == 1 {
            PlayerMarker::X
        } else if (self.o >> i) & 1 == 1 {
            PlayerMarker::O
        } else {
            PlayerMarker::Empty
        }
    }

    /// Writes `player` into cell `index`; `Empty` leaves the grid as it is.
    /// Returns the grid's winner afterwards.
    pub fn set(&mut self, index: usize, player: PlayerMarker) -> (r: Result<PlayerMarker, InvalidMoveError>)
        requires
            old(self).wf(),
        ensures
            final(self).wf(),
            r is Err <==> index >= 9 || old(self)@[index as int] != PlayerMarker::Empty,
            r is Err ==> *final(self) == *old(self),
            r is Ok ==> *final(self) == old(self).marked(index as int, player),
            r is Ok ==> final(self)@ == old(self)@.update(index as int, player),
            r matches Ok(w) ==> w == winner_of(final(self)@),
    {
        if index >= 9 {
            return Err(InvalidMoveError::new("Cell index out of range"));
        }
        if self.get(index) != PlayerMarker::Empty {
            return Err(InvalidMoveError::new("Move was already played"));
        }
        proof {
            self.lemma_marked(index as int, player);
        }
        let mask: u16 = 1u16 << (index as u16);
        match player {
            PlayerMarker::X => self.x = self.x | mask,
            PlayerMarker::O => self.o = self.o | mask,
            PlayerMarker::Empty => {},
        }
        Ok(self.get_winner())
    }

    /// Clears cell `index`; an index outside the grid changes nothing.
    pub fn unset(&mut self, index: usize)
        requires
            old(self).wf(),
        ensures
            final(self).wf(),
            index < 9 ==> *final(self) == old(self).cleared(index as int),
            index < 9 ==> final(self)@ == old(self)@.update(index as int, PlayerMarker::Empty),
            index >= 9 ==> *final(self) == *old(self),
    {
        if index >= 9 {
            return;
        }
        proof {
            self.lemma_cleared(index as int);
        }
        let mask: u16 = !(1u16 << (index as u16));
        self.x = self.x & mask;
        self.o = self.o & mask;
    }

    /// The winner of the grid, or `Empty`.
    pub fn get_winner(&self) -> (w: PlayerMarker)
        ensures
            w == winner_of(self@),
    {
        let mut k: usize = 0;
        while k < 8
            invariant
                k <= 8,
                winner_of(self@) == winner_from(self@, k as int),
            decreases 8 - k,
        {
            let (a, b, d) = line_cells(k);
            let (ca, cb, cd) = (self.get(a), self.get(b), self.get(d));
            if ca == PlayerMarker::X && cb == PlayerMarker::X && cd == PlayerMarker::X {
                return PlayerMarker::X;
            }
            if ca == PlayerMarker::O && cb == PlayerMarker::O && cd == PlayerMarker::O {
                return PlayerMarker::O;
            }
            k = k + 1;
        }
        PlayerMarker::Empty
    }

    /// Every cell is taken.
    pub fn is_full(&self) -> (r: bool)
        ensures
            r == full_of(self@),
    {
        let mut i: usize = 0;
        while i < 9
            invariant
                i <= 9,
                forall|j: int| 0 <= j < i ==> self@[j] != PlayerMarker::Empty,
            decreases 9 - i,
        {
            if self.get(i) == PlayerMarker::Empty {
                return false;
            }
            i = i + 1;
        }
        true
    }

    /// The grid is undecided and has an empty cell.
    pub fn can_set(&self) -> (r: bool)
        ensures
            r == accepts(self@),
    {
        self.get_winner() == PlayerMarker::Empty && !self.is_full()
    }

    /// The empty cells in increasing order; none once the grid is decided.
    pub fn get_empty_positions(&self) -> (r: Vec<usize>)
        ensures
            r@ == open_cells(self@),
    {
        let mut r: Vec<usize> = Vec::new();
        if self.get_winner() != PlayerMarker::Empty {
            return r;
        }
        let mut i: usize = 0;
        while i < 9
            invariant
                i <= 9,
                r@ == empty_indices(self@, i as int),
            decreases 9 - i,
        {
            if self.get(i) == PlayerMarker::Empty {
                r.push(i);
            }
            i = i + 1;
        }
        r
    }
}

/// The cells of winning line `k`.
fn line_cells(k: usize) -> (r: (usize, usize, usize))
    requires
        k < 8,
    ensures
        r.0 < 9 && r.1 < 9 && r.2 < 9,
        (r.0 as int, r.1 as int, r.2 as int) == line(k as int),
{
    match k {
        0 => (6, 7, 8),
        1 => (3, 4, 5),
        2 => (0, 1, 2),
        3 => (2, 5, 8),
        4 => (1, 4, 7),
        5 => (0, 3, 6),
        6 => (0, 4, 8),
        _ => (2, 4, 6),
    }
}

} // verus!
