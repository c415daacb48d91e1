//! The letter board: square grid of six-sided letter dice, with the
//! die roll and position shuffle that generate a fresh round's board.

use vstd::prelude::*;
use vstd::seq_lib::to_multiset_update;

verus! {

/// A die has six letters, one on each face, and shows one of them
/// (`value`) once it has been rolled.
#[derive(Clone, Copy, Debug)]
pub struct Die {
    pub letters: [char; 6],
    pub value: char,
}

/// Draw an index below `n`.
///
/// Relies on `rand::random_range` over `0..n`: the sample is uniform in
/// the range, so it lies below `n`; the range must not be empty, or the
/// call panics.
#[verifier::external_body]
fn random_below(n: usize) -> (r: usize)
    requires
        1 <= n,
    ensures
        r < n,
{
    rand::random_range(0..n)
}

impl Die {
    /// Create a new die with the given letters; it shows the
    /// placeholder `'0'` until it is rolled.
    pub fn new(letters: [char; 6]) -> (d: Die)
        ensures
            d.letters@ == letters@,
            d.value == '0',
    {
        Die { letters, value: '0' }
    }

    /// Roll this die: it keeps its letters and shows one of them.
    pub fn roll(&mut self)
        ensures
            final(self).letters@ == old(self).letters@,
            final(self).letters@.contains(final(self).value),
    {
        let i = random_below(6);
        self.value = self.letters[i];
    }
}

/// A board holds some square number of letter dice, usually 16 or 25,
/// read row by row.
#[derive(Clone, Debug)]
pub struct Board {
    pub squares: Vec<Die>,
}

impl Board {
    /// The letters the board currently shows, cell by cell.
    pub open spec fn letters(self) -> Seq<char> {
        self.squares@.map_values(|d: Die| d.value)
    }

    /// The six faces of each die, cell by cell.
    pub open spec fn faces(self) -> Seq<Seq<char>> {
        self.squares@.map_values(|d: Die| d.letters@)
    }

    /// A board is well formed when its cell count is a perfect square.
    pub open spec fn wf(self) -> bool {
        exists|n: int| 0 <= n && #[trigger] (n * n) == self.squares@.len()
    }

    /// The side of a well-formed board: the root of its cell count.
    pub open spec fn side(self) -> int {
        choose|n: int| 0 <= n && #[trigger] (n * n) == self.squares@.len()
    }

    /// Every die shows one of its own letters.
    pub open spec fn rolled(self) -> bool {
        forall|k: int|
            0 <= k < self.squares@.len() ==> (#[trigger] self.squares@[k]).letters@.contains(
                self.squares@[k].value,
            )
    }

    /// Create a new, empty board.
    pub fn new() -> (b: Board)
        ensures
            b.squares@.len() == 0,
            b.wf(),
    {
        let b = Board { squares: Vec::new() };
        proof {
            assert(0int * 0int == b.squares@.len());
        }
        b
    }

    /// Create a new board with the given dice.
    pub fn with_dice(dice: Vec<Die>) -> (b: Board)
        ensures
            b.squares@ == dice@,
    {
        Board { squares: dice }
    }

    /// Get the letter shown at a particular position.
    pub fn at(&self, pos: usize) -> (c: char)
        requires
            pos < self.squares@.len(),
        ensures
            c == self.letters()[pos as int],
    {
        self.squares[pos].value
    }

    /// Get the number of squares in this board.
    pub fn len(&self) -> (n: usize)
        ensures
            n == self.squares@.len(),
    {
        self.squares.len()
    }

    /// Get the dimension of this board: the integer square root of the
    /// cell count, which is exact on a well-formed board.
    pub fn dim(&self) -> (d: usize)
        ensures
            d * d <= self.squares@.len() < (d + 1) * (d + 1),
            self.wf() ==> d * d == self.squares@.len() && d == self.side(),
    {
        let n = self.squares.len();
        let mut d: usize = 0;
        loop
            invariant
                d * d <= n,
                d <= n,
                n == self.squares@.len(),
            ensures
                d * d <= n < (d + 1) * (d + 1),
            decreases n - d,
        {
            if d >= n {
                // Only boards of at most one cell reach this: d == n and
                // d * d <= n force n <= 1.
                proof {
                    assert(d == n && n <= 1 && n < (d + 1) * (d + 1)) by (nonlinear_arith)
                        requires
                            d * d <= n,
                            n <= d,
                            0 <= d,
                    {}
                }
                break ;
            }
            let a = d + 1;
            if a <= n / a {
                proof {
                    vstd::arithmetic::div_mod::lemma_fundamental_div_mod(n as int, a as int);
                    assert(a * a <= n && a <= n) by (nonlinear_arith)
                        requires
                            0 < a,
                            a <= ((n as int) / (a as int)),
                            (n as int) == a * ((n as int) / (a as int)) + ((n as int) % (
                            a as int)),
                            0 <= ((n as int) % (a as int)),
                    {}
                }
                d = a;
            } else {
                proof {
                    vstd::arithmetic::div_mod::lemma_fundamental_div_mod(n as int, a as int);
                    assert(n < a * a) by (nonlinear_arith)
                        requires
                            0 < a,
                            ((n as int) / (a as int)) < a,
                            (n as int) == a * ((n as int) / (a as int)) + ((n as int) % (
                            a as int)),
                            ((n as int) % (a as int)) < a,
                    {}
                }
                break ;
            }
        }
        proof {
            if self.wf() {
                let m = self.side();
                assert(0 <= m && m * m == self.squares@.len());
                assert(m <= d) by (nonlinear_arith)
                    requires
                        0 <= m,
                        0 <= d,
                        m * m == n,
                        n < (d + 1) * (d + 1),
                {}
                assert(d <= m) by (nonlinear_arith)
                    requires
                        0 <= m,
                        0 <= d,
                        m * m == n,
                        d * d <= n,
                {}
            }
        }
        d
    }

    /// Shuffle the board: every die is rolled anew, and the dice then
    /// change places; the collection of dice (by their faces) is
    /// preserved, only their order and shown letters change.
    pub fn shuffle(&mut self)
        ensures
            final(self).squares@.len() == old(self).squares@.len(),
            final(self).faces().to_multiset() == old(self).faces().to_multiset(),
            final(self).rolled(),
    {
        let ghost orig = self.squares@;
        // Roll a die for each square
        let mut i: usize = 0;
        while i < self.squares.len()
            invariant
                self.squares@.len() == orig.len(),
                forall|k: int|
                    0 <= k < orig.len() ==> (#[trigger] self.squares@[k]).letters@
                        == orig[k].letters@,
                forall|k: int|
                    0 <= k < i ==> (#[trigger] self.squares@[k]).letters@.contains(
                        self.squares@[k].value,
                    ),
            decreases self.squares@.len() - i,
        {
            let mut d = self.squares[i];
            d.roll();
            self.squares.set(i, d);
            i = i + 1;
        }
        proof {
            assert(self.faces() =~= orig.map_values(|d: Die| d.letters@));
        }
        let ghost mid = self.squares@;
        // Then change the dice's places by random transpositions
        let n = self.squares.len();
        let mut i: usize = 0;
        while i < n
            invariant
                n == self.squares@.len(),
                self.faces().to_multiset() == mid.map_values(
                    |d: Die| d.letters@,
                ).to_multiset(),
                self.rolled() == true,
                forall|k: int|
                    0 <= k < n ==> (#[trigger] self.squares@[k]).letters@.contains(
                        self.squares@[k].value,
                    ),
            decreases n - i,
        {
            let j = random_below(n);
            let ghost before = self.squares@;
            let tmp = self.squares[i];
            let dj = self.squares[j];
            self.squares.set(i, dj);
            self.squares.set(j, tmp);
            proof {
                broadcast use to_multiset_update;
                broadcast use vstd::seq_lib::group_to_multiset_ensures;
                broadcast use vstd::multiset::group_multiset_axioms;

                let f = |d: Die| d.letters@;
                let after = self.squares@;
                let m0 = before.map_values(f);
                let m1 = m0.update(i as int, f(before[j as int]));
                let m2 = m1.update(j as int, f(before[i as int]));
                assert(m1 =~= before.update(i as int, before[j as int]).map_values(f));
                assert(m2 =~= after.map_values(f));
                let bi = m0[i as int];
                let bj = m0[j as int];
                assert(m1.to_multiset() == m0.to_multiset().insert(bj).remove(bi));
                assert(m1[j as int] == bj);
                assert(m2.to_multiset() == m1.to_multiset().insert(bi).remove(bj));
                assert(m0.contains(bi) && m0.contains(bj));
                assert(m0.to_multiset().count(bi) > 0 && m0.to_multiset().count(bj) > 0);
                assert(m2.to_multiset() =~= m0.to_multiset());
            }
            i = i + 1;
        }
    }
}

/// The faces of the sixteen standard dice of a 4x4 board.
pub open spec fn standard_dice_4x4() -> Seq<Seq<char>> {
    seq![
        seq!['A', 'A', 'C', 'I', 'O', 'T'],
        seq!['A', 'B', 'I', 'L', 'T', 'Y'],
        seq!['A', 'B', 'J', 'M', 'O', 'Q'],
        seq!['A', 'C', 'D', 'E', 'M', 'P'],
        seq!['A', 'C', 'E', 'L', 'R', 'S'],
        seq!['A', 'D', 'E', 'N', 'V', 'Z'],
        seq!['A', 'H', 'M', 'O', 'R', 'S'],
        seq!['B', 'I', 'F', 'O', 'R', 'X'],
        seq!['D', 'E', 'N', 'O', 'S', 'W'],
        seq!['D', 'K', 'N', 'O', 'T', 'U'],
        seq!['E', 'E', 'F', 'H', 'I', 'Y'],
        seq!['E', 'G', 'K', 'L', 'U', 'Y'],
        seq!['E', 'G', 'I', 'N', 'T', 'V'],
        seq!['E', 'H', 'I', 'N', 'P', 'S'],
        seq!['E', 'L', 'P', 'S', 'T', 'U'],
        seq!['G', 'I', 'L', 'R', 'U', 'W'],
    ]
}

/// The faces of the twenty-five standard dice of a 5x5 board.
pub open spec fn standard_dice_5x5() -> Seq<Seq<char>> {
    seq![
        seq!['A', 'A', 'A', 'F', 'R', 'S'],
        seq!['A', 'A', 'E', 'E', 'E', 'E'],
        seq!['A', 'A', 'F', 'I', 'R', 'S'],
        seq!['A', 'D', 'E', 'N', 'N', 'N'],
        seq!['A', 'E', 'E', 'E', 'E', 'M'],
        seq!['A', 'E', 'E', 'G', 'M', 'U'],
        seq!['A', 'E', 'G', 'M', 'N', 'N'],
        seq!['A', 'F', 'I', 'R', 'S', 'Y'],
        seq!['B', 'J', 'K', 'Q', 'X', 'Z'],
        seq!['C', 'C', 'E', 'N', 'S', 'T'],
        seq!['C', 'E', 'I', 'I', 'L', 'T'],
        seq!['C', 'E', 'I', 'L', 'P', 'T'],
        seq!['C', 'E', 'I', 'P', 'S', 'T'],
        seq!['D', 'D', 'H', 'N', 'O', 'T'],
        seq!['D', 'H', 'H', 'L', 'O', 'R'],
        seq!['D', 'H', 'L', 'N', 'O', 'R'],
        seq!['D', 'H', 'L', 'N', 'O', 'R'],
        seq!['E', 'I', 'I', 'I', 'T', 'T'],
        seq!['E', 'M', 'O', 'T', 'T', 'T'],
        seq!['E', 'N', 'S', 'S', 'S', 'U'],
        seq!['F', 'I', 'P', 'R', 'S', 'Y'],
        seq!['G', 'O', 'R', 'R', 'V', 'W'],
        seq!['I', 'P', 'R', 'R', 'R', 'Y'],
        seq!['N', 'O', 'O', 'T', 'U', 'W'],
        seq!['O', 'O', 'O', 'T', 'T', 'U'],
    ]
}

/// Generate a 4x4 board: the standard sixteen dice, rolled and
/// shuffled into place.
pub fn generate_board_4x4() -> (b: Board)
    ensures
        b.squares@.len() == 16,
        b.wf(),
        b.rolled(),
        b.faces().to_multiset() == standard_dice_4x4().to_multiset(),
{
    let dice: Vec<Die> = vec![
        Die::new(['A', 'A', 'C', 'I', 'O', 'T']),
        Die::new(['A', 'B', 'I', 'L', 'T', 'Y']),
        Die::new(['A', 'B', 'J', 'M', 'O', 'Q']),
        Die::new(['A', 'C', 'D', 'E', 'M', 'P']),
        Die::new(['A', 'C', 'E', 'L', 'R', 'S']),
        Die::new(['A', 'D', 'E', 'N', 'V', 'Z']),
        Die::new(['A', 'H', 'M', 'O', 'R', 'S']),
        Die::new(['B', 'I', 'F', 'O', 'R', 'X']),
        Die::new(['D', 'E', 'N', 'O', 'S', 'W']),
        Die::new(['D', 'K', 'N', 'O', 'T', 'U']),
        Die::new(['E', 'E', 'F', 'H', 'I', 'Y']),
        Die::new(['E', 'G', 'K', 'L', 'U', 'Y']),
        Die::new(['E', 'G', 'I', 'N', 'T', 'V']),
        Die::new(['E', 'H', 'I', 'N', 'P', 'S']),
        Die::new(['E', 'L', 'P', 'S', 'T', 'U']),
        Die::new(['G', 'I', 'L', 'R', 'U', 'W']),
    ];
    let mut board = Board::with_dice(dice);
    proof {
        assert(board.faces() =~~= standard_dice_4x4());
    }
    board.shuffle();
    proof {
        assert(4int * 4int == board.squares@.len());
    }
    board
}

/// Generate a 5x5 board: the standard twenty-five dice, rolled and
/// shuffled into place.
pub fn generate_board_5x5() -> (b: Board)
    ensures
        b.squares@.len() == 25,
        b.wf(),
        b.rolled(),
        b.faces().to_multiset() == standard_dice_5x5().to_multiset(),
{
    let dice: Vec<Die> = vec![
        Die::new(['A', 'A', 'A', 'F', 'R', 'S']),
        Die::new(['A', 'A', 'E', 'E', 'E', 'E']),
        Die::new(['A', 'A', 'F', 'I', 'R', 'S']),
        Die::new(['A', 'D', 'E', 'N', 'N', 'N']),
        Die::new(['A', 'E', 'E', 'E', 'E', 'M']),
        Die::new(['A', 'E', 'E', 'G', 'M', 'U']),
        Die::new(['A', 'E', 'G', 'M', 'N', 'N']),
        Die::new(['A', 'F', 'I', 'R', 'S', 'Y']),
        Die::new(['B', 'J', 'K', 'Q', 'X', 'Z']),
        Die::new(['C', 'C', 'E', 'N', 'S', 'T']),
        Die::new(['C', 'E', 'I', 'I', 'L', 'T']),
        Die::new(['C', 'E', 'I', 'L', 'P', 'T']),
        Die::new(['C', 'E', 'I', 'P', 'S', 'T']),
        Die::new(['D', 'D', 'H', 'N', 'O', 'T']),
        Die::new(['D', 'H', 'H', 'L', 'O', 'R']),
        Die::new(['D', 'H', 'L', 'N', 'O', 'R']),
        Die::new(['D', 'H', 'L', 'N', 'O', 'R']),
        Die::new(['E', 'I', 'I', 'I', 'T', 'T']),
        Die::new(['E', 'M', 'O', 'T', 'T', 'T']),
        Die::new(['E', 'N', 'S', 'S', 'S', 'U']),
        Die::new(['F', 'I', 'P', 'R', 'S', 'Y']),
        Die::new(['G', 'O', 'R', 'R', 'V', 'W']),
        Die::new(['I', 'P', 'R', 'R', 'R', 'Y']),
        Die::new(['N', 'O', 'O', 'T', 'U', 'W']),
        Die::new(['O', 'O', 'O', 'T', 'T', 'U']),
    ];
    let mut board = Board::with_dice(dice);
    proof {
        assert(board.faces() =~~= standard_dice_5x5());
    }
    board.shuffle();
    proof {
        assert(5int * 5int == board.squares@.len());
    }
    board
}

} // verus!
