use vstd::prelude::*;

verus! {

/// Number of cells on the board.
pub const BOARD_SIZE: usize = 9;

/// One of the two players.
#[derive(Debug, Clone, Copy, PartialEq, Eq, Structural, Hash)]
pub enum Player {
    X,
    O,
}

/// The player who is not `p`.
pub open spec fn opp(p: Player) -> Player {
    match p {
        Player::X => Player::O,
        Player::O => Player::X,
    }
}

impl Player {
    /// The other player.
    pub fn opponent(&self) -> (r: Player)
        ensures
            r == opp(*self),
            r != *self,
            opp(r) == *self,
    {
        match self {
            Player::X => Player::O,
            Player::O => Player::X,
        }
    }
}

/// How a finished game ended.
#[derive(Debug, Clone, Copy, PartialEq, Eq, Structural)]
pub enum Outcome {
    Win(Player),
    Draw,
}

/// A 3x3 grid of cells, each empty or owned by one player.
#[derive(Debug, Clone, Copy, PartialEq, Eq, Hash)]
pub struct Board {
    cells: [Option<Player>; 9],
}

/// The cells of an empty board.
pub open spec fn empty_cells() -> Seq<Option<Player>> {
    seq![None, None, None, None, None, None, None, None, None]
}

/// Whether cell `i` exists and is empty.
pub open spec fn is_free(b: Seq<Option<Player>>, i: int) -> bool {
    0 <= i < b.len() && b[i] is None
}

/// 1 for an empty cell at `i`, else 0.
pub open spec fn free_at(b: Seq<Option<Player>>, i: int) -> int {
    if is_free(b, i) { 1 } else { 0 }
}

/// Number of empty cells among the nine.
pub open spec fn empty_count(b: Seq<Option<Player>>) -> int {
    free_at(b, 0) + free_at(b, 1) + free_at(b, 2) + free_at(b, 3) + free_at(b, 4)
        + free_at(b, 5) + free_at(b, 6) + free_at(b, 7) + free_at(b, 8)
}

/// Whether all nine cells are occupied.
pub open spec fn is_full(b: Seq<Option<Player>>) -> bool {
    forall|i: int| 0 <= i < 9 ==> b[i] is Some
}

/// The three cells of winning line `k`: rows, then columns, then diagonals.
pub open spec fn line_at(k: int) -> (int, int, int) {
    if k == 0 { (0, 1, 2) }
    else if k == 1 { (3, 4, 5) }
    else if k == 2 { (6, 7, 8) }
    else if k == 3 { (0, 3, 6) }
    else if k == 4 { (1, 4, 7) }
    else if k == 5 { (2, 5, 8) }
    else if k == 6 { (0, 4, 8) }
    else { (2, 4, 6) }
}

/// Whether player `p` holds all three cells of line `k`.
pub open spec fn owns_line(b: Seq<Option<Player>>, k: int, p: Player) -> bool {
    let (a, c, d) = line_at(k);
    b[a] == Some(p) && b[c] == Some(p) && b[d] == Some(p)
}

/// Whether player `p` holds some complete line.
pub open spec fn has_line(b: Seq<Option<Player>>, p: Player) -> bool {
    exists|k: int| 0 <= k < 8 && #[trigger] owns_line(b, k, p)
}

/// The owner of the first completed line at index `k` or later.
pub open spec fn first_win(b: Seq<Option<Player>>, k: int) -> Option<Player>
    decreases 8 - k,
{
    if k >= 8 || k < 0 {
        None
    } else if owns_line(b, k, Player::X) {
        Some(Player::X)
    } else if owns_line(b, k, Player::O) {
        Some(Player::O)
    } else {
        first_win(b, k + 1)
    }
}

/// The outcome of a position: the owner of the first completed line, else a draw
/// on a full board, else none.
pub open spec fn outcome_of(b: Seq<Option<Player>>) -> Option<Outcome> {
    match first_win(b, 0) {
        Some(p) => Some(Outcome::Win(p)),
        None => if is_full(b) { Some(Outcome::Draw) } else { None },
    }
}

/// The base-3 digit of a cell: 0 empty, 1 for X, 2 for O.
pub open spec fn digit(c: Option<Player>) -> int {
    match c {
        None => 0,
        Some(Player::X) => 1,
        Some(Player::O) => 2,
    }
}

/// The board read as a base-3 number, cell 0 the least significant digit.
pub open spec fn code_of(b: Seq<Option<Player>>) -> int {
    digit(b[0]) + 3 * digit(b[1]) + 9 * digit(b[2]) + 27 * digit(b[3]) + 81 * digit(b[4])
        + 243 * digit(b[5]) + 729 * digit(b[6]) + 2187 * digit(b[7]) + 6561 * digit(b[8])
}

impl View for Board {
    type V = Seq<Option<Player>>;

    closed spec fn view(&self) -> Seq<Option<Player>> {
        self.cells@
    }
}

fn line_cells(k: usize) -> (r: (usize, usize, usize))
    requires
        k < 8,
    ensures
        (r.0 as int, r.1 as int, r.2 as int) == line_at(k as int),
{
    if k == 0 { (0, 1, 2) }
    else if k == 1 { (3, 4, 5) }
    else if k == 2 { (6, 7, 8) }
    else if k == 3 { (0, 3, 6) }
    else if k == 4 { (1, 4, 7) }
    else if k == 5 { (2, 5, 8) }
    else if k == 6 { (0, 4, 8) }
    else { (2, 4, 6) }
}

fn cell_digit(c: Option<Player>) -> (r: u32)
    ensures
        r as int == digit(c),
{
    match c {
        None => 0,
        Some(Player::X) => 1,
        Some(Player::O) => 2,
    }
}

fn same_owner(a: Option<Player>, b: Option<Player>) -> (r: bool)
    ensures
        r == (a == b),
{
    match (a, b) {
        (None, None) => true,
        (Some(x), Some(y)) => x == y,
        _ => false,
    }
}

impl Board {
    /// A board always has nine cells.
    pub proof fn lemma_len(&self)
        ensures
            self@.len() == 9,
    {
    }

    /// The empty board.
    pub fn new() -> (r: Board)
        ensures
            r@ == empty_cells(),
    {
        let r = Board { cells: [None; 9] };
        assert(r@ =~= empty_cells());
        r
    }

    /// A board with the given cells.
    pub fn from_cells(cells: [Option<Player>; 9]) -> (r: Board)
        ensures
            r@ == cells@,
    {
        Board { cells }
    }

    /// The content of cell `index`.
    pub fn cell(&self, index: usize) -> (r: Option<Player>)
        requires
            index < 9,
        ensures
            r == self@[index as int],
    {
        self.cells[index]
    }

    /// The board as a base-3 number below 3^9, one digit per cell.
    pub fn code(&self) -> (r: u32)
        ensures
            r as int == code_of(self@),
            r < 19683,
    {
        let c = &self.cells;
        cell_digit(c[0]) + 3 * cell_digit(c[1]) + 9 * cell_digit(c[2]) + 27 * cell_digit(c[3])
            + 81 * cell_digit(c[4]) + 243 * cell_digit(c[5]) + 729 * cell_digit(c[6])
            + 2187 * cell_digit(c[7]) + 6561 * cell_digit(c[8])
    }

    /// Whether two boards hold the same marks in every cell.
    pub fn same_cells(&self, other: &Board) -> (r: bool)
        ensures
            r == (self@ == other@),
    {
        let mut i: usize = 0;
        while i < BOARD_SIZE
            invariant
                i <= 9,
                self@.len() == 9,
                other@.len() == 9,
                forall|j: int| 0 <= j < i ==> self@[j] == other@[j],
            decreases 9 - i,
        {
            if !same_owner(self.cells[i], other.cells[i]) {
                return false;
            }
            i += 1;
        }
        assert(self@ =~= other@);
        true
    }

    /// The board with `player`'s mark on cell `index`, or `None` where the
    /// index is out of range or the cell is taken.
    pub fn make_move(&self, index: usize, player: Player) -> (r: Option<Board>)
        ensures
            r is Some <==> is_free(self@, index as int),
            r is Some ==> r->0@ == self@.update(index as int, Some(player)),
    {
        if index < BOARD_SIZE && self.cells[index].is_none() {
            let mut new_cells = self.cells;
            new_cells[index] = Some(player);
            Some(Board { cells: new_cells })
        } else {
            None
        }
    }

    /// The empty cells, in ascending order.
    pub fn get_legal_moves(&self) -> (r: Vec<usize>)
        ensures
            forall|j: int, k: int| 0 <= j < k < r@.len() ==> r@[j] < r@[k],
            forall|j: int| 0 <= j < r@.len() ==> is_free(self@, #[trigger] r@[j] as int),
            forall|i: int| is_free(self@, i) ==> r@.contains(i as usize),
    {
        let mut r: Vec<usize> = Vec::new();
        let mut i: usize = 0;
        while i < BOARD_SIZE
            invariant
                i <= 9,
                self@.len() == 9,
                forall|j: int, k: int| 0 <= j < k < r@.len() ==> r@[j] < r@[k],
                forall|j: int| 0 <= j < r@.len() ==> r@[j] < i && is_free(self@, #[trigger] r@[j] as int),
                forall|c: int| 0 <= c < i && is_free(self@, c) ==> r@.contains(c as usize),
            decreases 9 - i,
        {
            let ghost before = r@;
            if self.cells[i].is_none() {
                r.push(i);
            }
            assert forall|c: int| 0 <= c < i + 1 && is_free(self@, c) implies r@.contains(c as usize) by {
                if c < i {
                    let j = choose|j: int| 0 <= j < before.len() && before[j] == c as usize;
                    assert(r@[j] == c as usize);
                } else {
                    assert(r@[r@.len() - 1] == c as usize);
                }
            }
            i += 1;
        }
        r
    }

    /// The outcome of the game on this board, or `None` while it goes on.
    pub fn check_outcome(&self) -> (r: Option<Outcome>)
        ensures
            r == outcome_of(self@),
    {
        let mut k: usize = 0;
        while k < 8
            invariant
                k <= 8,
                self@.len() == 9,
                first_win(self@, 0) == first_win(self@, k as int),
            decreases 8 - k,
        {
            let (a, c, d) = line_cells(k);
            let first = self.cells[a];
            if first.is_some() && same_owner(first, self.cells[c]) && same_owner(first, self.cells[d]) {
                let p = first.unwrap();
                assert(owns_line(self@, k as int, p));
                assert(p == Player::O ==> !owns_line(self@, k as int, Player::X));
                return Some(Outcome::Win(p));
            }
            k += 1;
        }
        let mut i: usize = 0;
        while i < BOARD_SIZE
            invariant
                i <= 9,
                self@.len() == 9,
                first_win(self@, 0) is None,
                forall|j: int| 0 <= j < i ==> self@[j] is Some,
            decreases 9 - i,
        {
            if self.cells[i].is_none() {
                return None;
            }
            i += 1;
        }
        Some(Outcome::Draw)
    }
}

/// The position after playing `moves` from the empty board, X first and then
/// alternating, or `None` if some move is off the board, on a taken cell, or
/// made after the game ended.
pub open spec fn play(moves: Seq<int>) -> Option<Seq<Option<Player>>>
    decreases moves.len(),
{
    if moves.len() == 0 {
        Some(empty_cells())
    } else {
        match play(moves.drop_last()) {
            None => None,
            Some(b) => {
                let i = moves.last();
                let p = if (moves.len() - 1) % 2 == 0 { Player::X } else { Player::O };
                if outcome_of(b) is None && is_free(b, i) {
                    Some(b.update(i, Some(p)))
                } else {
                    None
                }
            },
        }
    }
}

/// Whether `b` arises from the empty board by legal play.
pub open spec fn reachable(b: Seq<Option<Player>>) -> bool {
    exists|moves: Seq<int>| play(moves) == Some(b)
}

proof fn lemma_first_win(b: Seq<Option<Player>>, k: int)
    requires
        0 <= k <= 8,
    ensures
        first_win(b, k) matches Some(p) ==> exists|j: int| k <= j < 8 && owns_line(b, j, p),
        first_win(b, k) is None <==> forall|j: int, p: Player| k <= j < 8 ==> !owns_line(b, j, p),
    decreases 8 - k,
{
    if k < 8 {
        lemma_first_win(b, k + 1);
        if first_win(b, k) is None {
            assert forall|j: int, p: Player| k <= j < 8 implies !owns_line(b, j, p) by {
                if j > k {
                    assert(!owns_line(b, j, p));
                } else {
                    match p {
                        Player::X => {},
                        Player::O => {},
                    }
                }
            }
        }
    }
}

/// The outcome agrees with the lines: a win goes to a player who holds a
/// line, a draw is a full board where nobody holds one, and the game goes on
/// exactly when the board is not full and nobody holds one.
pub proof fn lemma_outcome_by_lines(b: Seq<Option<Player>>)
    ensures
        outcome_of(b) matches Some(Outcome::Win(p)) ==> has_line(b, p),
        outcome_of(b) == Some(Outcome::Draw) <==> is_full(b) && !has_line(b, Player::X)
            && !has_line(b, Player::O),
        outcome_of(b) is None <==> !is_full(b) && !has_line(b, Player::X) && !has_line(b, Player::O),
{
    lemma_first_win(b, 0);
    if has_line(b, Player::X) {
        let k = choose|k: int| 0 <= k < 8 && owns_line(b, k, Player::X);
    }
    if has_line(b, Player::O) {
        let k = choose|k: int| 0 <= k < 8 && owns_line(b, k, Player::O);
    }
}

proof fn lemma_play_one_winner(moves: Seq<int>)
    requires
        play(moves) is Some,
    ensures
        play(moves)->0.len() == 9,
        !(has_line(play(moves)->0, Player::X) && has_line(play(moves)->0, Player::O)),
    decreases moves.len(),
{
    if moves.len() == 0 {
        let b = empty_cells();
        if has_line(b, Player::X) {
            let k = choose|k: int| 0 <= k < 8 && owns_line(b, k, Player::X);
        }
    } else {
        let prev = moves.drop_last();
        lemma_play_one_winner(prev);
        let a = play(prev)->0;
        let b = play(moves)->0;
        let i = moves.last();
        let p = if (moves.len() - 1) % 2 == 0 { Player::X } else { Player::O };
        lemma_outcome_by_lines(a);
        assert(b == a.update(i, Some(p)));
        if has_line(b, opp(p)) {
            let k = choose|k: int| 0 <= k < 8 && owns_line(b, k, opp(p));
            assert(owns_line(a, k, opp(p)));
        }
    }
}

/// On a board reached by legal play at most one player holds a line.
pub proof fn lemma_reachable_one_winner(b: Seq<Option<Player>>)
    requires
        reachable(b),
    ensures
        !(has_line(b, Player::X) && has_line(b, Player::O)),
{
    let moves = choose|moves: Seq<int>| play(moves) == Some(b);
    lemma_play_one_winner(moves);
}

} // verus!
