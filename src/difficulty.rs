use vstd::prelude::*;

verus! {

/// The three standard games.
#[derive(Clone, Copy, PartialEq, Eq, Structural, Debug, Hash)]
pub enum Difficulty {
    Easy,
    Medium,
    Hard,
}

impl Difficulty {
    pub open spec fn bombs_spec(self) -> nat {
        match self {
            Difficulty::Easy => 10,
            Difficulty::Medium => 40,
            Difficulty::Hard => 99,
        }
    }

    pub open spec fn size_spec(self) -> (usize, usize) {
        match self {
            Difficulty::Easy => (10, 10),
            Difficulty::Medium => (16, 16),
            Difficulty::Hard => (30, 16),
        }
    }

    /// All difficulties, easiest first.
    pub fn iter() -> (r: Vec<Difficulty>)
        ensures
            r@ == seq![Difficulty::Easy, Difficulty::Medium, Difficulty::Hard],
    {
        let r = vec![Difficulty::Easy, Difficulty::Medium, Difficulty::Hard];
        assert(r@ =~= seq![Difficulty::Easy, Difficulty::Medium, Difficulty::Hard]);
        r
    }

    pub fn num_bombs(&self) -> (r: usize)
        ensures
            r == self.bombs_spec(),
    {
        match self {
            Difficulty::Easy => 10,
            Difficulty::Medium => 40,
            Difficulty::Hard => 99,
        }
    }

    /// Columns and rows.
    pub fn grid_size(&self) -> (r: (usize, usize))
        ensures
            r == self.size_spec(),
    {
        match self {
            Difficulty::Easy => (10, 10),
            Difficulty::Medium => (16, 16),
            Difficulty::Hard => (30, 16),
        }
    }
}

} // verus!
