use vstd::prelude::*;

verus! {

/// Index of the square at file `f` and rank `r`.
pub open spec fn square_at(f: int, r: int) -> int {
    r * 8 + f
}

/// File (column) of a square index.
pub open spec fn file_of(s: int) -> int {
    s % 8
}

/// Rank (row) of a square index.
pub open spec fn rank_of(s: int) -> int {
    s / 8
}

/// One of the 64 squares, numbered `rank * 8 + file` from a1 = 0 to h8 = 63.
#[derive(Clone, Copy, Debug, PartialEq, Eq, Structural)]
pub struct Square(u8);

impl View for Square {
    type V = int;

    closed spec fn view(&self) -> int {
        self.0 as int
    }
}

impl Square {
    #[verifier::type_invariant]
    spec fn in_range(self) -> bool {
        self.0 < 64
    }

    /// The square at `(file & 7, rank & 7)`: out-of-range coordinates wrap.
    pub fn from_coords(file: u8, rank: u8) -> (r: Square)
        ensures
            r@ == square_at((file % 8) as int, (rank % 8) as int),
    {
        assert((file & 7) == file % 8) by (bit_vector);
        assert((rank & 7) == rank % 8) by (bit_vector);
        Square((rank & 7) * 8 + (file & 7))
    }

    /// The square with index `index`.
    pub fn from_index(index: usize) -> (r: Square)
        requires
            index < 64,
        ensures
            r@ == index,
    {
        Square(index as u8)
    }

    pub fn file(self) -> (r: u8)
        ensures
            r == file_of(self@),
            r < 8,
    {
        proof {
            use_type_invariant(self);
        }
        let v = self.0;
        assert(v & 7 == v % 8) by (bit_vector);
        v & 7
    }

    pub fn rank(self) -> (r: u8)
        ensures
            r == rank_of(self@),
            r < 8,
    {
        proof {
            use_type_invariant(self);
        }
        let v = self.0;
        assert(v >> 3 == v / 8) by (bit_vector);
        v >> 3
    }

    pub fn index(self) -> (r: usize)
        ensures
            r == self@,
            r < 64,
    {
        proof {
            use_type_invariant(self);
        }
        self.0 as usize
    }
}

} // verus!
