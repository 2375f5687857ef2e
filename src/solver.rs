use vstd::prelude::*;
use crate::board::{
    code_of, empty_cells, empty_count, first_win, is_full, is_free, opp, outcome_of, Board, Outcome, Player,
};

verus! {

/// Slots in a memo table: one per board code and mover.
pub const MEMO_SLOTS: usize = 39366;

/// The value of a finished game for player `p`: 1 for a win, -1 for a loss, 0 for a draw.
pub open spec fn score(o: Outcome, p: Player) -> int {
    match o {
        Outcome::Win(w) => if w == p { 1 } else { -1 },
        Outcome::Draw => 0,
    }
}

/// The game-theoretic value of position `b` for `p`, who is to move, under
/// optimal play by both sides (negamax).
pub open spec fn value(b: Seq<Option<Player>>, p: Player) -> int
    decreases empty_count(b), 10int,
{
    match outcome_of(b) {
        Some(o) => score(o, p),
        None => best_upto(b, p, 9),
    }
}

/// The best value for `p` over the moves to cells below `n`, or -2 when there is none.
pub open spec fn best_upto(b: Seq<Option<Player>>, p: Player, n: int) -> int
    decreases empty_count(b), n,
{
    if n <= 0 || n > 9 {
        -2
    } else {
        let rest = best_upto(b, p, n - 1);
        if is_free(b, n - 1) {
            let v = -value(b.update(n - 1, Some(p)), opp(p));
            if v > rest { v } else { rest }
        } else {
            rest
        }
    }
}

/// The value for `p` of playing on cell `i`: the negated value of the
/// resulting position for the opponent.
pub open spec fn move_value(b: Seq<Option<Player>>, p: Player, i: int) -> int {
    -value(b.update(i, Some(p)), opp(p))
}

/// The legal moves to cells below `n`, each with its value for `p`, in ascending order.
pub open spec fn results_upto(b: Seq<Option<Player>>, p: Player, n: int) -> Seq<(usize, i8)>
    decreases n,
{
    if n <= 0 || n > 9 {
        Seq::empty()
    } else {
        let rest = results_upto(b, p, n - 1);
        if is_free(b, n - 1) {
            rest.push(((n - 1) as usize, move_value(b, p, n - 1) as i8))
        } else {
            rest
        }
    }
}

/// The largest primary value in a non-empty list of move results.
pub open spec fn max_primary(s: Seq<(usize, i8)>) -> int
    decreases s.len(),
{
    if s.len() <= 1 {
        if s.len() == 1 { s[0].1 as int } else { -2 }
    } else {
        let m = max_primary(s.drop_last());
        if s.last().1 > m { s.last().1 as int } else { m }
    }
}

/// The moves of `s` whose primary value is `v`, in the order of `s`.
pub open spec fn tied_ids(s: Seq<(usize, i8)>, v: int) -> Seq<usize>
    decreases s.len(),
{
    if s.len() == 0 {
        Seq::empty()
    } else {
        let rest = tied_ids(s.drop_last(), v);
        if s.last().1 == v { rest.push(s.last().0) } else { rest }
    }
}

/// The index in a memo table of position `b` with `p` to move.
pub open spec fn slot_of(b: Seq<Option<Player>>, p: Player) -> int {
    2 * code_of(b) + if p == Player::X { 0int } else { 1int }
}

/// The primary part of a tie-break: the best value, and every move that reaches it.
pub struct Choice {
    pub best: i8,
    pub tied: Vec<usize>,
}

#[derive(Clone, Copy)]
struct Entry {
    board: Board,
    mover: Player,
    value: i8,
}

/// Values of positions already solved, keyed by board and mover.
pub struct Memo {
    slots: Vec<Option<Entry>>,
}

impl Memo {
    /// Every stored value is the value of its position.
    pub closed spec fn wf(&self) -> bool {
        &&& self.slots@.len() == MEMO_SLOTS
        &&& forall|i: int| 0 <= i < self.slots@.len() ==> match #[trigger] self.slots@[i] {
            Some(e) => e.value as int == value(e.board@, e.mover),
            None => true,
        }
    }

    /// Whether the value of `b` with `p` to move is stored.
    pub closed spec fn stores(&self, b: Seq<Option<Player>>, p: Player) -> bool {
        let i = slot_of(b, p);
        &&& 0 <= i < self.slots@.len()
        &&& self.slots@[i] matches Some(e)
        &&& e.board@ == b
        &&& e.mover == p
    }

    /// An empty table.
    pub fn new() -> (r: Memo)
        ensures
            r.wf(),
            forall|b: Seq<Option<Player>>, p: Player| !r.stores(b, p),
    {
        let mut slots: Vec<Option<Entry>> = Vec::new();
        let mut i: usize = 0;
        while i < MEMO_SLOTS
            invariant
                i <= MEMO_SLOTS,
                slots@.len() == i,
                forall|j: int| 0 <= j < i ==> slots@[j] is None,
            decreases MEMO_SLOTS - i,
        {
            slots.push(None);
            i += 1;
        }
        Memo { slots }
    }

    /// The stored value of `board` with `player` to move, if any.
    pub fn get(&self, board: &Board, player: Player) -> (r: Option<i8>)
        requires
            self.wf(),
        ensures
            r matches Some(v) ==> v as int == value(board@, player),
            r is Some <==> self.stores(board@, player),
    {
        let i = slot(board, player);
        match self.slots[i] {
            Some(e) => {
                if e.board.same_cells(board) && e.mover == player {
                    Some(e.value)
                } else {
                    None
                }
            },
            None => None,
        }
    }

    /// Stores the value `v` of `board` with `player` to move.
    pub fn insert(&mut self, board: &Board, player: Player, v: i8)
        requires
            old(self).wf(),
            v as int == value(board@, player),
        ensures
            final(self).wf(),
            final(self).stores(board@, player),
    {
        let i = slot(board, player);
        self.slots.set(i, Some(Entry { board: *board, mover: player, value: v }));
    }
}

fn slot(board: &Board, player: Player) -> (r: usize)
    ensures
        r as int == slot_of(board@, player),
        r < MEMO_SLOTS,
{
    let c = board.code();
    match player {
        Player::X => 2 * c as usize,
        Player::O => 2 * c as usize + 1,
    }
}

/// The value of every position for the player to move is -1, 0 or 1.
pub proof fn lemma_value_range(b: Seq<Option<Player>>, p: Player)
    requires
        b.len() == 9,
    ensures
        -1 <= value(b, p) <= 1,
    decreases empty_count(b), 10int,
{
    if outcome_of(b) is None {
        assert(!is_full(b));
        let i = choose|i: int| !(0 <= i < 9 ==> b[i] is Some);
        lemma_best_range(b, p, 9);
        assert(is_free(b, i));
    }
}

/// The best move value over cells below `n` is -2 when none is free, else -1, 0 or 1.
pub proof fn lemma_best_range(b: Seq<Option<Player>>, p: Player, n: int)
    requires
        b.len() == 9,
        0 <= n <= 9,
    ensures
        (exists|i: int| 0 <= i < n && is_free(b, i)) ==> -1 <= best_upto(b, p, n) <= 1,
        !(exists|i: int| 0 <= i < n && is_free(b, i)) ==> best_upto(b, p, n) == -2,
    decreases empty_count(b), n,
{
    if n > 0 {
        lemma_best_range(b, p, n - 1);
        if is_free(b, n - 1) {
            lemma_value_range(b.update(n - 1, Some(p)), opp(p));
        } else {
            assert forall|i: int| 0 <= i < n && is_free(b, i) implies 0 <= i < n - 1 && is_free(b, i) by {}
        }
    }
}

/// The move results below `n` exist exactly when a cell below `n` is free, and
/// their largest value is the best move value.
pub proof fn lemma_results(b: Seq<Option<Player>>, p: Player, n: int)
    requires
        b.len() == 9,
        0 <= n <= 9,
    ensures
        results_upto(b, p, n).len() > 0 <==> exists|i: int| 0 <= i < n && is_free(b, i),
        results_upto(b, p, n).len() > 0 ==> max_primary(results_upto(b, p, n)) == best_upto(b, p, n),
    decreases n,
{
    if n > 0 {
        lemma_results(b, p, n - 1);
        lemma_best_range(b, p, n - 1);
        if is_free(b, n - 1) {
            lemma_value_range(b.update(n - 1, Some(p)), opp(p));
            assert(results_upto(b, p, n).drop_last() =~= results_upto(b, p, n - 1));
        } else {
            assert forall|i: int| 0 <= i < n && is_free(b, i) implies 0 <= i < n - 1 && is_free(b, i) by {}
        }
    }
}

/// A non-empty list of results has at least one move tied for the best value.
pub proof fn lemma_tied_nonempty(s: Seq<(usize, i8)>)
    requires
        s.len() > 0,
    ensures
        tied_ids(s, max_primary(s)).len() > 0,
    decreases s.len(),
{
    if s.len() > 1 && s.last().1 != max_primary(s) {
        lemma_tied_nonempty(s.drop_last());
    }
}

/// The best primary value among `results`, and the moves that reach it, in order.
pub fn select_optimal(results: &Vec<(usize, i8)>) -> (r: Choice)
    requires
        results@.len() > 0,
    ensures
        r.best as int == max_primary(results@),
        r.tied@ == tied_ids(results@, r.best as int),
        r.tied@.len() > 0,
{
    let mut best = results[0].1;
    let mut k: usize = 1;
    while k < results.len()
        invariant
            1 <= k <= results@.len(),
            best as int == max_primary(results@.take(k as int)),
        decreases results@.len() - k,
    {
        assert(results@.take(k + 1).drop_last() =~= results@.take(k as int));
        if results[k].1 > best {
            best = results[k].1;
        }
        k += 1;
    }
    assert(results@.take(results@.len() as int) =~= results@);
    let mut tied: Vec<usize> = Vec::new();
    let mut k: usize = 0;
    while k < results.len()
        invariant
            k <= results@.len(),
            best as int == max_primary(results@),
            tied@ == tied_ids(results@.take(k as int), best as int),
        decreases results@.len() - k,
    {
        assert(results@.take(k + 1).drop_last() =~= results@.take(k as int));
        if results[k].1 == best {
            tied.push(results[k].0);
        }
        k += 1;
    }
    assert(results@.take(results@.len() as int) =~= results@);
    proof {
        lemma_tied_nonempty(results@);
    }
    Choice { best, tied }
}

/// The value of `board` for `player`, who is to move, under optimal play.
/// Positions solved on the way are stored in `memo`.
pub fn solve(board: &Board, player: Player, memo: &mut Memo) -> (r: i8)
    requires
        old(memo).wf(),
    ensures
        final(memo).wf(),
        r as int == value(board@, player),
        -1 <= r <= 1,
        outcome_of(board@) is None ==> final(memo).stores(board@, player),
    decreases empty_count(board@), 1int,
{
    proof {
        board.lemma_len();
        lemma_value_range(board@, player);
    }
    match board.check_outcome() {
        Some(Outcome::Win(p)) => {
            return if p == player { 1 } else { -1 };
        },
        Some(Outcome::Draw) => {
            return 0;
        },
        None => {},
    }
    match memo.get(board, player) {
        Some(v) => {
            return v;
        },
        None => {},
    }
    let results = move_results(board, player, memo);
    proof {
        assert(!is_full(board@));
        let i = choose|i: int| !(0 <= i < 9 ==> board@[i] is Some);
        assert(is_free(board@, i));
        lemma_results(board@, player, 9);
    }
    let choice = select_optimal(&results);
    memo.insert(board, player, choice.best);
    choice.best
}

/// Each legal move of `player` on `board`, in ascending order, with its value
/// for `player`.
pub fn move_results(board: &Board, player: Player, memo: &mut Memo) -> (r: Vec<(usize, i8)>)
    requires
        old(memo).wf(),
    ensures
        final(memo).wf(),
        r@ == results_upto(board@, player, 9),
    decreases empty_count(board@), 0int,
{
    proof {
        board.lemma_len();
    }
    let mut r: Vec<(usize, i8)> = Vec::new();
    let mut i: usize = 0;
    while i < 9
        invariant
            i <= 9,
            board@.len() == 9,
            memo.wf(),
            r@ == results_upto(board@, player, i as int),
        decreases 9 - i,
    {
        match board.make_move(i, player) {
            Some(next) => {
                let v = solve(&next, player.opponent(), memo);
                r.push((i, -v));
            },
            None => {},
        }
        i += 1;
    }
    r
}

/// The first move of X on the empty board: the result of each opening move,
/// and the best value with the openings that reach it.
pub fn analyze_opening(memo: &mut Memo) -> (r: (Vec<(usize, i8)>, Choice))
    requires
        old(memo).wf(),
    ensures
        final(memo).wf(),
        r.0@ == results_upto(empty_cells(), Player::X, 9),
        r.1.best as int == value(empty_cells(), Player::X),
        r.1.tied@ == tied_ids(r.0@, r.1.best as int),
{
    let board = Board::new();
    let results = move_results(&board, Player::X, memo);
    proof {
        reveal_with_fuel(first_win, 9);
        assert(outcome_of(empty_cells()) is None);
        assert(is_free(empty_cells(), 0));
        lemma_results(empty_cells(), Player::X, 9);
    }
    let choice = select_optimal(&results);
    (results, choice)
}

proof fn lemma_best_bounds(b: Seq<Option<Player>>, p: Player, n: int)
    requires
        b.len() == 9,
        0 <= n <= 9,
    ensures
        forall|i: int| 0 <= i < n && is_free(b, i) ==> move_value(b, p, i) <= best_upto(b, p, n),
        (exists|i: int| 0 <= i < n && is_free(b, i)) ==> exists|i: int|
            0 <= i < n && is_free(b, i) && move_value(b, p, i) == best_upto(b, p, n),
    decreases n,
{
    if n > 0 {
        lemma_best_bounds(b, p, n - 1);
        lemma_best_range(b, p, n - 1);
        if is_free(b, n - 1) {
            lemma_value_range(b.update(n - 1, Some(p)), opp(p));
        }
        if exists|i: int| 0 <= i < n - 1 && is_free(b, i) {
            let w = choose|i: int| 0 <= i < n - 1 && is_free(b, i) && move_value(b, p, i) == best_upto(b, p, n - 1);
            if !(is_free(b, n - 1) && move_value(b, p, n - 1) > best_upto(b, p, n - 1)) {
                assert(move_value(b, p, w) == best_upto(b, p, n));
            }
        }
    }
}

/// Negamax: in a game that goes on, the value for the player to move is the
/// largest over the legal moves of the negated value for the opponent after
/// the move.
pub proof fn lemma_negamax(b: Seq<Option<Player>>, p: Player)
    requires
        b.len() == 9,
        outcome_of(b) is None,
    ensures
        forall|i: int| is_free(b, i) ==> move_value(b, p, i) <= value(b, p),
        exists|i: int| is_free(b, i) && move_value(b, p, i) == value(b, p),
{
    lemma_best_bounds(b, p, 9);
    assert(!is_full(b));
    let i = choose|i: int| !(0 <= i < 9 ==> b[i] is Some);
    assert(is_free(b, i));
}

/// Zero sum: on a finished game the value for one player is the negated value
/// for the other.
pub proof fn lemma_terminal_negation(b: Seq<Option<Player>>, p: Player)
    requires
        outcome_of(b) is Some,
    ensures
        value(b, p) == -value(b, opp(p)),
{
}

/// Zero sum across a move: the value a move has for the mover is the negated
/// value of the resulting position for the opponent, who is then to move.
pub proof fn lemma_move_negation(b: Seq<Option<Player>>, p: Player, i: int)
    requires
        is_free(b, i),
    ensures
        move_value(b, p, i) == -value(b.update(i, Some(p)), opp(p)),
        opp(opp(p)) == p,
{
}

/// The moves tied for the best result at a position that goes on are exactly
/// its legal moves whose value equals the position's value, in ascending order.
pub proof fn lemma_tied_are_optimal(b: Seq<Option<Player>>, p: Player)
    requires
        b.len() == 9,
        outcome_of(b) is None,
    ensures
        max_primary(results_upto(b, p, 9)) == value(b, p),
        forall|i: int| 0 <= i < 9 ==> (tied_ids(results_upto(b, p, 9), value(b, p)).contains(i as usize)
            <==> is_free(b, i) && move_value(b, p, i) == value(b, p)),
{
    assert(!is_full(b));
    let w = choose|i: int| !(0 <= i < 9 ==> b[i] is Some);
    assert(is_free(b, w));
    lemma_results(b, p, 9);
    lemma_tied_upto(b, p, 9, value(b, p));
}

proof fn lemma_tied_upto(b: Seq<Option<Player>>, p: Player, n: int, v: int)
    requires
        b.len() == 9,
        0 <= n <= 9,
    ensures
        forall|i: int| 0 <= i < 9 ==> (#[trigger] tied_ids(results_upto(b, p, n), v).contains(i as usize)
            <==> i < n && is_free(b, i) && move_value(b, p, i) == v),
    decreases n,
{
    let t = tied_ids(results_upto(b, p, n), v);
    if n == 0 {
        assert(t =~= Seq::<usize>::empty());
        assert forall|i: int| 0 <= i < 9 implies !#[trigger] t.contains(i as usize) by {}
    } else {
        lemma_tied_upto(b, p, n - 1, v);
        let s = results_upto(b, p, n);
        let t0 = tied_ids(results_upto(b, p, n - 1), v);
        let hit = is_free(b, n - 1) && move_value(b, p, n - 1) == v;
        if is_free(b, n - 1) {
            lemma_value_range(b.update(n - 1, Some(p)), opp(p));
            assert(s.drop_last() =~= results_upto(b, p, n - 1));
            assert(s.last() == ((n - 1) as usize, move_value(b, p, n - 1) as i8));
            assert((move_value(b, p, n - 1) as i8) as int == move_value(b, p, n - 1));
        } else {
            assert(s == results_upto(b, p, n - 1));
        }
        if hit {
            assert(t == t0.push((n - 1) as usize));
        } else {
            assert(t == t0);
        }
        assert forall|i: int| 0 <= i < 9 implies (#[trigger] t.contains(i as usize) <==> i < n && is_free(b, i)
            && move_value(b, p, i) == v) by {
            if t.contains(i as usize) {
                let j = choose|j: int| 0 <= j < t.len() && t[j] == i as usize;
                if j < t0.len() {
                    assert(t0[j] == i as usize);
                    assert(t0.contains(i as usize));
                    assert(i < n - 1 && is_free(b, i) && move_value(b, p, i) == v);
                } else {
                    assert(hit && i == n - 1);
                }
            }
            if i < n && is_free(b, i) && move_value(b, p, i) == v {
                if i < n - 1 {
                    assert(t0.contains(i as usize));
                    let j = choose|j: int| 0 <= j < t0.len() && t0[j] == i as usize;
                    assert(t[j] == i as usize);
                } else {
                    assert(t[t.len() - 1] == i as usize);
                }
            }
        }
    }
}

} // verus!
