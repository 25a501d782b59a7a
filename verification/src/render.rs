//! The board as text: six lines from the top row down, each cell a token of
//! three characters, each line closed by a line break.

use crate::board::{Color, Position, Slot};
use vstd::prelude::*;
use vstd::string::StringExecFns;

verus! {

/// The character that stands between the brackets of a cell's token.
pub open spec fn mark(slot: Slot) -> char {
    match slot {
        Slot::Empty => '-',
        Slot::Color(Color::Red) => 'R',
        Slot::Color(Color::Yellow) => 'Y',
    }
}

/// The token of a cell: its mark in round brackets.
pub open spec fn token(slot: Slot) -> Seq<char> {
    seq!['(', mark(slot), ')']
}

impl Position {
    /// The character at index `i` of the rendered board.
    pub open spec fn rendered_char(self, i: int) -> char {
        let row = i / 22;
        let k = i % 22;
        if k == 21 {
            '\n'
        } else if k % 3 == 0 {
            '('
        } else if k % 3 == 2 {
            ')'
        } else {
            mark(self.slot(row, k / 3))
        }
    }

    /// The rendered board: 6 rows of 22 characters.
    pub open spec fn rendered(self) -> Seq<char> {
        Seq::new(132, |i: int| self.rendered_char(i))
    }

    /// Renders the grid, top row first.
    pub fn stringify(&self) -> (text: String)
        ensures
            text@ == self.rendered(),
    {
        let mut res = String::new();
        for r in 0..6usize
            invariant
                res@ == self.rendered().take(22 * r),
        {
            for c in 0..7usize
                invariant
                    r < 6,
                    res@ == self.rendered().take(22 * r + 3 * c),
            {
                let slot = self.get(r, c);
                let cell = match slot {
                    Slot::Empty => "(-)",
                    Slot::Color(Color::Red) => "(R)",
                    Slot::Color(Color::Yellow) => "(Y)",
                };
                proof {
                    reveal_strlit("(-)");
                    reveal_strlit("(R)");
                    reveal_strlit("(Y)");
                    assert(cell@ =~= token(slot));
                    let start = 22 * r + 3 * c;
                    assert(self.rendered().take(start + 3) =~= self.rendered().take(start)
                        + token(slot));
                }
                res.append(cell);
            }
            proof {
                reveal_strlit("\n");
                let end = 22 * r + 21;
                assert(self.rendered().take(end + 1) =~= self.rendered().take(end) + "\n"@);
            }
            res.append("\n");
        }
        proof {
            assert(self.rendered().take(132) =~= self.rendered());
        }
        res
    }
}

} // verus!
