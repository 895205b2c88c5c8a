//! The board representation: one queen per row, stored as that row's column.

use vstd::prelude::*;

use crate::rng::draw_below;
use crate::rng::fresh_small_rng;
use vstd::pervasive::VecAdditionalExecFns;

verus! {

/// One candidate placement for the N-Queens problem. Index `i` is the row;
/// the value at index `i` is the column occupied by that row's queen.
/// Equality and hashing are structural, so a search engine may deduplicate
/// boards by value.
#[derive(Clone, PartialEq, Eq, Hash, Debug)]
pub struct QueensBoard {
    cols: Vec<u8>,
}

impl View for QueensBoard {
    type V = Seq<u8>;

    closed spec fn view(&self) -> Seq<u8> {
        self.cols@
    }
}

impl QueensBoard {
    /// Every column value fits on the board: each element lies in `[0, n)`
    /// where `n` is the board length.
    pub open spec fn wf(&self) -> bool {
        forall|i: int| 0 <= i < self@.len() ==> self@[i] < self@.len()
    }

    /// Builds a fresh random board of the given length, every element drawn
    /// independently and uniformly from `[0, size)`. Each call owns its own
    /// random source, so concurrent calls need no synchronization.
    pub fn generate(size: u8) -> (r: QueensBoard)
        ensures
            r@.len() == size as int,
            forall|i: int| 0 <= i < size as int ==> r@[i] < size,
            r.wf(),
    {
        let mut rgen = fresh_small_rng();
        let mut genes: Vec<u8> = Vec::new();
        let mut i: usize = 0;
        while i < size as usize
            invariant
                i <= size as usize,
                genes@.len() == i,
                forall|k: int| 0 <= k < i ==> genes@[k] < size,
            decreases size as usize - i,
        {
            let v = draw_below(&mut rgen, size as usize);
            genes.push(v as u8);
            i += 1;
        }
        QueensBoard { cols: genes }
    }

    /// Replaces the gene at `index` with a fresh uniform draw from `[0, n)`,
    /// where `n` is the current board length; no other element changes. The
    /// index must be in bounds — that is the caller's obligation.
    pub fn mutate(&mut self, rgen: &mut rand::rngs::SmallRng, index: usize)
        requires
            index < old(self)@.len(),
            old(self)@.len() <= 256,
        ensures
            final(self)@.len() == old(self)@.len(),
            final(self)@[index as int] < old(self)@.len(),
            forall|j: int|
                0 <= j < old(self)@.len() && j != index ==> final(self)@[j] == old(self)@[j],
            old(self).wf() ==> final(self).wf(),
    {
        let n = self.cols.len();
        let v = draw_below(rgen, n);
        self.cols.set(index, v as u8);
    }

    /// Builds a board directly from a gene sequence.
    pub fn from_genes(genes: Vec<u8>) -> (r: QueensBoard)
        ensures
            r@ == genes@,
    {
        QueensBoard { cols: genes }
    }

    /// The number of rows (equivalently, columns) of the board.
    pub fn len(&self) -> (r: usize)
        ensures
            r == self@.len(),
    {
        self.cols.len()
    }

    /// Read-only access to the gene sequence, for traversal.
    pub fn genes(&self) -> (r: &Vec<u8>)
        ensures
            r@ == self@,
    {
        &self.cols
    }

    /// Consumes the board, yielding ownership of its gene sequence.
    pub fn into_genes(self) -> (r: Vec<u8>)
        ensures
            r@ == self@,
    {
        self.cols
    }

    /// Replaces the whole gene sequence with an externally supplied one
    /// (used when an individual is reconstructed from crossover output).
    pub fn rebuild(&mut self, genes: Vec<u8>)
        ensures
            final(self)@ == genes@,
    {
        self.cols = genes;
    }

    /// True exactly when a fitness value equals the board length, i.e. the
    /// score of a collision-free placement. The fitness value may have been
    /// computed (or cached) elsewhere; no recomputation happens here.
    pub fn is_solution(&self, fitness: usize) -> (r: bool)
        ensures
            r <==> fitness == self@.len(),
    {
        fitness == self.cols.len()
    }
}

} // verus!
