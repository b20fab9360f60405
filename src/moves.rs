use vstd::prelude::*;

verus! {

/// The path that results from forwarding after a move along `p`: the first
/// component is dropped and the leaf cell just played is appended, so that all
/// but the last component name the sub-board the next move is sent to.
pub open spec fn shifted(p: Seq<usize>) -> Seq<usize> {
    if p.len() == 0 {
        p
    } else {
        p.drop_first().push(p.last())
    }
}

/// A path of cell indices, one per level of nesting, from the outermost board down.
#[derive(Debug)]
pub struct MetaMove {
    pub absolute_index: Vec<usize>,
}

impl View for MetaMove {
    type V = Seq<usize>;

    open spec fn view(&self) -> Seq<usize> {
        self.absolute_index@
    }
}

impl Clone for MetaMove {
    fn clone(&self) -> (r: Self)
        ensures
            r@ == self@,
    {
        MetaMove { absolute_index: vstd::slice::slice_to_vec(self.absolute_index.as_slice()) }
    }
}

impl PartialEq for MetaMove {
    fn eq(&self, other: &MetaMove) -> (r: bool) {
        let n = self.absolute_index.len();
        if n != other.absolute_index.len() {
            return false;
        }
        let mut i: usize = 0;
        while i < n
            invariant
                i <= n,
                n == self@.len(),
                n == other@.len(),
                forall|j: int| 0 <= j < i ==> self@[j] == other@[j],
            decreases n - i,
        {
            if self.absolute_index[i] != other.absolute_index[i] {
                return false;
            }
            i = i + 1;
        }
        assert(self@ =~= other@);
        true
    }
}

impl vstd::std_specs::cmp::PartialEqSpecImpl for MetaMove {
    open spec fn obeys_eq_spec() -> bool {
        true
    }

    open spec fn eq_spec(&self, other: &MetaMove) -> bool {
        self@ == other@
    }
}

impl MetaMove {
    pub fn new(absolute_index: &[usize]) -> (m: Self)
        ensures
            m@ == absolute_index@,
    {
        MetaMove { absolute_index: vstd::slice::slice_to_vec(absolute_index) }
    }

    pub fn new_empty() -> (m: Self)
        ensures
            m@ == Seq::<usize>::empty(),
    {
        MetaMove { absolute_index: Vec::new() }
    }

    pub fn clear(&mut self)
        ensures
            final(self)@ == Seq::<usize>::empty(),
    {
        self.absolute_index.clear();
    }

    pub fn push(&mut self, index: usize)
        ensures
            final(self)@ == old(self)@.push(index),
    {
        self.absolute_index.push(index);
    }

    pub fn pop(&mut self) -> (r: usize)
        requires
            old(self)@.len() > 0,
        ensures
            r == old(self)@.last(),
            final(self)@ == old(self)@.drop_last(),
    {
        self.absolute_index.pop().unwrap()
    }

    pub fn len(&self) -> (r: usize)
        ensures
            r == self@.len(),
    {
        self.absolute_index.len()
    }

    /// The path the next move is forwarded along.
    pub fn shift_left(&self) -> (r: MetaMove)
        ensures
            r@ == shifted(self@),
    {
        let n = self.absolute_index.len();
        let mut v: Vec<usize> = Vec::new();
        if n == 0 {
            return MetaMove { absolute_index: v };
        }
        let mut i: usize = 1;
        while i < n
            invariant
                1 <= i <= n,
                n == self@.len(),
                v@ == self@.subrange(1, i as int),
            decreases n - i,
        {
            v.push(self.absolute_index[i]);
            i = i + 1;
        }
        v.push(self.absolute_index[n - 1]);
        assert(v@ =~= shifted(self@));
        MetaMove { absolute_index: v }
    }
}

/// An ordered list of moves.
pub struct PossibleMoves {
    moves: Vec<MetaMove>,
}

impl View for PossibleMoves {
    type V = Seq<Seq<usize>>;

    closed spec fn view(&self) -> Seq<Seq<usize>> {
        self.moves@.map_values(|m: MetaMove| m@)
    }
}

impl PossibleMoves {
    pub fn new() -> (r: PossibleMoves)
        ensures
            r@ == Seq::<Seq<usize>>::empty(),
    {
        let r = PossibleMoves { moves: Vec::new() };
        assert(r@ =~= Seq::<Seq<usize>>::empty());
        r
    }

    pub fn len(&self) -> (r: usize)
        ensures
            r == self@.len(),
    {
        self.moves.len()
    }

    pub fn push(&mut self, move_: MetaMove)
        ensures
            final(self)@ == old(self)@.push(move_@),
    {
        self.moves.push(move_);
        assert(final(self)@ =~= old(self)@.push(move_@));
    }

    pub fn clear(&mut self)
        ensures
            final(self)@ == Seq::<Seq<usize>>::empty(),
    {
        self.moves.clear();
        assert(final(self)@ =~= Seq::<Seq<usize>>::empty());
    }

    pub fn is_empty(&self) -> (r: bool)
        ensures
            r == (self@.len() == 0),
    {
        self.moves.len() == 0
    }

    /// The move at position `i`.
    pub fn get(&self, i: usize) -> (m: &MetaMove)
        requires
            i < self@.len(),
        ensures
            m@ == self@[i as int],
    {
        &self.moves[i]
    }

    /// A cursor over the moves, from the first.
    pub fn iter(&self) -> (it: PossibleMovesIterator<'_>)
        ensures
            it.position() == 0,
            it.moves() == self,
    {
        PossibleMovesIterator { possible_moves: self, current_index: 0 }
    }
}

/// A cursor that hands out the moves of a `PossibleMoves` one by one.
pub struct PossibleMovesIterator<'a> {
    possible_moves: &'a PossibleMoves,
    current_index: usize,
}

impl<'a> PossibleMovesIterator<'a> {
    pub closed spec fn position(&self) -> nat {
        self.current_index as nat
    }

    pub closed spec fn moves(&self) -> &'a PossibleMoves {
        self.possible_moves
    }

    /// The next move, or none once all have been handed out.
    pub fn next(&mut self) -> (r: Option<&'a MetaMove>)
        ensures
            final(self).moves() == old(self).moves(),
            old(self).position() < old(self).moves()@.len() ==> (r matches Some(m) && m@ == old(self).moves()@[old(self).position() as int]),
            old(self).position() < old(self).moves()@.len() ==> final(self).position() == old(self).position() + 1,
            old(self).position() >= old(self).moves()@.len() ==> r is None && final(self).position()
                == old(self).position(),
    {
        if self.current_index < self.possible_moves.moves.len() {
            let result = &self.possible_moves.moves[self.current_index];
            self.current_index = self.current_index + 1;
            Some(result)
        } else {
            None
        }
    }
}

} // verus!
