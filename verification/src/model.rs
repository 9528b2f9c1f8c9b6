//! The rules engine for the board game Go: board representation, group
//! connectivity, captures, suicide, positional-superko legality and area
//! scoring.
use vstd::prelude::*;

verus! {

broadcast use vstd::seq_lib::group_seq_properties;

/// The fixed parameters of a match, as a transport layer reports them:
/// board size, komi, handicap count, and the two clock settings in seconds.
#[derive(Clone, Copy)]
pub struct Settings {
    pub board_size: u32,
    pub komi: u32,
    pub handicap: u32,
    pub fixed_time: u32,
    pub added_time: u32,
}

/// The contents of one board cell.
#[derive(Copy, Clone, PartialEq, Eq, Structural, Debug)]
pub enum Stone {
    Black,
    White,
    Empty,
}

/// Whose action the game currently waits for.
#[derive(Copy, Clone, PartialEq, Eq, Structural, Debug)]
pub enum Turn {
    Handicap,
    Black,
    White,
    End,
}

impl Stone {
    /// The protocol word for this stone colour.
    pub fn text(&self) -> (r: &'static str)
        ensures
            *self == Stone::Black ==> r@ == "black"@,
            *self == Stone::White ==> r@ == "white"@,
            *self == Stone::Empty ==> r@ == "empty"@,
    {
        match self {
            Stone::Black => "black",
            Stone::White => "white",
            Stone::Empty => "empty",
        }
    }
}

impl Turn {
    /// The protocol word for this phase.
    pub fn text(&self) -> (r: &'static str)
        ensures
            *self == Turn::Handicap ==> r@ == "handicap"@,
            *self == Turn::Black ==> r@ == "black"@,
            *self == Turn::White ==> r@ == "white"@,
            *self == Turn::End ==> r@ == "end"@,
    {
        match self {
            Turn::Handicap => "handicap",
            Turn::Black => "black",
            Turn::White => "white",
            Turn::End => "end",
        }
    }
}

/// The colour of the opposing side; `Empty` has no opponent.
pub open spec fn opposite(s: Stone) -> Stone {
    match s {
        Stone::Black => Stone::White,
        Stone::White => Stone::Black,
        Stone::Empty => Stone::Empty,
    }
}

/// `a` and `b` are distinct cells of an `n`-column board of `len` cells that
/// share an edge.  Row-major layout; rows never wrap.
pub open spec fn adj(n: nat, len: nat, a: int, b: int) -> bool {
    &&& 0 <= a < len
    &&& 0 <= b < len
    &&& {
        ||| (a == b + 1 && a % (n as int) != 0)
        ||| (b == a + 1 && b % (n as int) != 0)
        ||| a == b + n
        ||| b == a + n
    }
}

/// Incrementing a cell index leaves its row exactly when the cell sits in the
/// last column.
pub proof fn lemma_mod_succ(a: int, n: int)
    requires
        n >= 1,
        a >= 0,
    ensures
        (a % n == n - 1) <==> ((a + 1) % n == 0),
        a % n < n,
        a % n >= 0,
{
    vstd::arithmetic::div_mod::lemma_fundamental_div_mod(a, n);
    vstd::arithmetic::div_mod::lemma_mod_division_less_than_divisor(a, n);
    let q = a / n;
    let r = a % n;
    if r == n - 1 {
        assert(a + 1 == (q + 1) * n + 0) by (nonlinear_arith)
            requires
                a == q * n + r,
                r == n - 1,
        ;
        vstd::arithmetic::div_mod::lemma_fundamental_div_mod_converse_mod(a + 1, n, q + 1, 0);
    } else {
        assert(a + 1 == q * n + (r + 1)) by (nonlinear_arith)
            requires
                a == n * q + r,
        ;
        vstd::arithmetic::div_mod::lemma_fundamental_div_mod_converse_mod(a + 1, n, q, r + 1);
    }
}

/// There is a path of at most `k` steps from `a` to `b` through cells that
/// all hold the same value as `a`.
pub open spec fn reach(n: nat, board: Seq<Stone>, a: int, b: int, k: nat) -> bool
    decreases k,
{
    &&& 0 <= a < board.len()
    &&& (a == b || (k > 0 && exists|m: int|
            #[trigger] adj(n, board.len(), a, m) && board[m] == board[a]
            && reach(n, board, m, b, (k - 1) as nat)))
}

/// `a` and `b` lie in the same maximal group: they hold the same value and a
/// path of equal-valued, edge-adjacent cells joins them.
pub open spec fn connected(n: nat, board: Seq<Stone>, a: int, b: int) -> bool {
    exists|k: nat| reach(n, board, a, b, k)
}

pub proof fn lemma_reach_mono(n: nat, board: Seq<Stone>, a: int, b: int, k1: nat, k2: nat)
    requires
        reach(n, board, a, b, k1),
        k1 <= k2,
    ensures
        reach(n, board, a, b, k2),
    decreases k1,
{
    if a != b {
        let m = choose|m: int|
            #[trigger] adj(n, board.len(), a, m) && board[m] == board[a]
            && reach(n, board, m, b, (k1 - 1) as nat);
        lemma_reach_mono(n, board, m, b, (k1 - 1) as nat, (k2 - 1) as nat);
    }
}

/// All cells of one group hold the same value, and both ends are in bounds.
pub proof fn lemma_reach_same(n: nat, board: Seq<Stone>, a: int, b: int, k: nat)
    requires
        reach(n, board, a, b, k),
    ensures
        0 <= b < board.len(),
        board[b] == board[a],
    decreases k,
{
    if a != b {
        let m = choose|m: int|
            #[trigger] adj(n, board.len(), a, m) && board[m] == board[a]
            && reach(n, board, m, b, (k - 1) as nat);
        lemma_reach_same(n, board, m, b, (k - 1) as nat);
    }
}

/// A path may be extended by one adjacent, equal-valued cell.
pub proof fn lemma_reach_step(n: nat, board: Seq<Stone>, a: int, b: int, c: int, k: nat)
    requires
        reach(n, board, a, b, k),
        adj(n, board.len(), b, c),
        board[c] == board[b],
    ensures
        reach(n, board, a, c, k + 1),
    decreases k,
{
    if a == b {
        assert(reach(n, board, c, c, k));
    } else {
        let m = choose|m: int|
            #[trigger] adj(n, board.len(), a, m) && board[m] == board[a]
            && reach(n, board, m, b, (k - 1) as nat);
        lemma_reach_same(n, board, m, b, (k - 1) as nat);
        lemma_reach_step(n, board, m, b, c, (k - 1) as nat);
    }
}

pub proof fn lemma_connected_sym(n: nat, board: Seq<Stone>, a: int, b: int, k: nat)
    requires
        reach(n, board, a, b, k),
    ensures
        reach(n, board, b, a, k),
    decreases k,
{
    if a != b {
        let m = choose|m: int|
            #[trigger] adj(n, board.len(), a, m) && board[m] == board[a]
            && reach(n, board, m, b, (k - 1) as nat);
        lemma_reach_same(n, board, m, b, (k - 1) as nat);
        lemma_connected_sym(n, board, m, b, (k - 1) as nat);
        lemma_reach_step(n, board, b, m, a, (k - 1) as nat);
    }
}

pub proof fn lemma_connected_trans(n: nat, board: Seq<Stone>, a: int, b: int, c: int, j: nat, k: nat)
    requires
        reach(n, board, a, b, j),
        reach(n, board, b, c, k),
    ensures
        reach(n, board, a, c, j + k),
    decreases j,
{
    if a == b {
        lemma_reach_mono(n, board, b, c, k, j + k);
    } else {
        let m = choose|m: int|
            #[trigger] adj(n, board.len(), a, m) && board[m] == board[a]
            && reach(n, board, m, b, (j - 1) as nat);
        lemma_connected_trans(n, board, m, b, c, (j - 1) as nat, k);
    }
}

/// Any set of cells that contains `a` and is closed under equal-valued
/// adjacency contains everything `a` reaches.
pub proof fn lemma_reach_in_closed(
    n: nat,
    board: Seq<Stone>,
    s: Seq<bool>,
    a: int,
    b: int,
    k: nat,
)
    requires
        s.len() == board.len(),
        0 <= a < board.len(),
        s[a],
        forall|p: int, q: int|
            0 <= p < board.len() && s[p] && #[trigger] adj(n, board.len(), p, q)
            && board[q] == board[p] ==> s[q],
        reach(n, board, a, b, k),
    ensures
        0 <= b < board.len(),
        s[b],
    decreases k,
{
    if a != b {
        let m = choose|m: int|
            #[trigger] adj(n, board.len(), a, m) && board[m] == board[a]
            && reach(n, board, m, b, (k - 1) as nat);
        lemma_reach_in_closed(n, board, s, m, b, (k - 1) as nat);
    }
}

/// How many entries of `s` are true; the flood fill terminates because this
/// grows while the board does not.
pub open spec fn count_trues(s: Seq<bool>) -> nat
    decreases s.len(),
{
    if s.len() == 0 {
        0
    } else {
        count_trues(s.drop_last()) + if s.last() {
            1nat
        } else {
            0nat
        }
    }
}

pub proof fn lemma_count_trues_le(s: Seq<bool>)
    ensures
        count_trues(s) <= s.len(),
    decreases s.len(),
{
    if s.len() > 0 {
        lemma_count_trues_le(s.drop_last());
    }
}

pub proof fn lemma_count_trues_none(s: Seq<bool>)
    requires
        forall|i: int| 0 <= i < s.len() ==> !s[i],
    ensures
        count_trues(s) == 0,
    decreases s.len(),
{
    if s.len() > 0 {
        lemma_count_trues_none(s.drop_last());
    }
}

pub proof fn lemma_count_trues_update(s: Seq<bool>, i: int)
    requires
        0 <= i < s.len(),
        !s[i],
    ensures
        count_trues(s.update(i, true)) == count_trues(s) + 1,
    decreases s.len(),
{
    let t = s.update(i, true);
    if i == s.len() - 1 {
        assert(t.drop_last() =~= s.drop_last());
    } else {
        assert(t.drop_last() =~= s.drop_last().update(i, true));
        lemma_count_trues_update(s.drop_last(), i);
    }
}

/// The in-bounds cells sharing an edge with `pos`: left, right, above, below,
/// without wrapping across row ends.
pub fn neighbors(n: usize, board: &[Stone], pos: usize) -> (r: Vec<usize>)
    requires
        1 <= n <= 19,
        n * n == board@.len(),
        pos < board@.len(),
    ensures
        forall|i: int|
            0 <= i < r@.len() ==> adj(n as nat, board@.len(), pos as int, #[trigger] r@[i] as int),
        forall|q: int| adj(n as nat, board@.len(), pos as int, q) ==> r@.contains(q as usize),
{
    proof {
        lemma_mod_succ(pos as int, n as int);
        assert(n * n <= 361) by (nonlinear_arith)
            requires
                n <= 19,
        ;
    }
    let len = board.len();
    let mut result = Vec::<usize>::new();
    let ghost mut at_left: int = -1;
    let ghost mut at_right: int = -1;
    let ghost mut at_up: int = -1;
    let ghost mut at_down: int = -1;
    if pos >= 1 && pos % n > 0 {
        proof {
            at_left = result@.len() as int;
        }
        result.push(pos - 1);
    }
    if pos + 1 < len && pos % n < n - 1 {
        proof {
            at_right = result@.len() as int;
        }
        result.push(pos + 1);
    }
    if pos >= n {
        proof {
            at_up = result@.len() as int;
        }
        result.push(pos - n);
    }
    if pos + n < len {
        proof {
            at_down = result@.len() as int;
        }
        result.push(pos + n);
    }
    proof {
        assert forall|q: int| adj(n as nat, board@.len(), pos as int, q) implies result@.contains(
            q as usize,
        ) by {
            if q == pos - 1 && pos % n != 0 {
                assert(result@[at_left] == (pos - 1) as usize);
            } else if q == pos + 1 && (pos + 1) % (n as int) != 0 {
                assert(result@[at_right] == (pos + 1) as usize);
            } else if q == pos - n {
                assert(result@[at_up] == (pos - n) as usize);
            } else {
                assert(q == pos + n);
                assert(result@[at_down] == (pos + n) as usize);
            }
        }
    }
    result
}

/// The maximal group of `pos`: every cell holding the same value as `pos`
/// that a path of equal-valued neighbours reaches, each cell listed once.
#[verifier::loop_isolation(false)]
pub fn connected_group(n: usize, board: &[Stone], pos: usize) -> (r: Vec<usize>)
    requires
        1 <= n <= 19,
        n * n == board@.len(),
        pos < board@.len(),
    ensures
        r@.no_duplicates(),
        forall|i: int| 0 <= i < r@.len() ==> (#[trigger] r@[i]) < board@.len(),
        forall|q: usize|
            q < board@.len() ==> (r@.contains(q) <==> connected(
                n as nat,
                board@,
                pos as int,
                q as int,
            )),
{
    let len = board.len();
    let color = board[pos];
    let ghost gn = n as nat;
    let ghost b = board@;
    let mut result = Vec::<usize>::new();
    let mut seen = vec![false; len];
    seen[pos] = true;
    let mut stack = Vec::<usize>::new();
    stack.push(pos);
    proof {
        assert(reach(gn, b, pos as int, pos as int, 0));
        lemma_count_trues_le(seen@);
        assert(forall|q: int| 0 <= q < len && q != pos as int ==> !seen@[q]);
        assert(stack@ =~= Seq::<usize>::empty().push(pos));
    }
    while stack.len() > 0
        invariant
            seen@.len() == len,
            count_trues(seen@) <= len,
            stack@.no_duplicates(),
            result@.no_duplicates(),
            forall|i: int| 0 <= i < stack@.len() ==> (#[trigger] stack@[i]) < len,
            forall|i: int| 0 <= i < result@.len() ==> (#[trigger] result@[i]) < len,
            forall|q: usize| !(result@.contains(q) && stack@.contains(q)),
            seen@[pos as int],
            forall|q: int| 0 <= q < len && seen@[q] ==> connected(gn, b, pos as int, q),
            forall|q: usize|
                q < len ==> (seen@[q as int] <==> (result@.contains(q) || stack@.contains(q))),
            forall|p: int, m: int|
                0 <= p < len && result@.contains(p as usize) && #[trigger] adj(gn, b.len(), p, m)
                    && b[m] == b[p] ==> seen@[m],
        decreases 2 * (len - count_trues(seen@)) + stack@.len(),
    {
        let ghost cnt0 = count_trues(seen@);
        let ghost s0 = stack@.len() as int;
        let p = stack.pop().unwrap();
        proof {
            assert(seen@[p as int]);
            let k = choose|k: nat| reach(gn, b, pos as int, p as int, k);
            lemma_reach_same(gn, b, pos as int, p as int, k);
            assert(b[p as int] == color);
        }
        result.push(p);
        let nbrs = neighbors(n, board, p);
        let mut j: usize = 0;
        while j < nbrs.len()
            invariant
                j <= nbrs.len(),
                seen@.len() == len,
                count_trues(seen@) <= len,
                stack@.no_duplicates(),
                result@.no_duplicates(),
                forall|i: int| 0 <= i < stack@.len() ==> (#[trigger] stack@[i]) < len,
                forall|i: int| 0 <= i < result@.len() ==> (#[trigger] result@[i]) < len,
                forall|q: usize| !(result@.contains(q) && stack@.contains(q)),
                seen@[pos as int],
                forall|q: int| 0 <= q < len && seen@[q] ==> connected(gn, b, pos as int, q),
                forall|q: usize|
                    q < len ==> (seen@[q as int] <==> (result@.contains(q) || stack@.contains(q))),
                forall|p2: int, m: int|
                    0 <= p2 < len && result@.contains(p2 as usize) && p2 != p as int
                        && #[trigger] adj(gn, b.len(), p2, m) && b[m] == b[p2] ==> seen@[m],
                forall|jj: int|
                    0 <= jj < j && b[nbrs@[jj] as int] == b[p as int] ==> seen@[
                        #[trigger] nbrs@[jj] as int
                    ],
                stack@.len() + 2 * (len - count_trues(seen@)) <= (s0 - 1) + 2 * (len - cnt0),
            decreases nbrs.len() - j,
        {
            let m = nbrs[j];
            proof {
                assert(adj(gn, b.len(), p as int, m as int));
            }
            if board[m] == color && !seen[m] {
                proof {
                    lemma_count_trues_update(seen@, m as int);
                    let k = choose|k: nat| reach(gn, b, pos as int, p as int, k);
                    lemma_reach_step(gn, b, pos as int, p as int, m as int, k);
                }
                seen[m] = true;
                stack.push(m);
                proof {
                    lemma_count_trues_le(seen@);
                }
            }
            j += 1;
        }
    }
    proof {
        assert forall|q: usize|
            q < board@.len() && connected(gn, b, pos as int, q as int) implies result@.contains(
            q,
        ) by {
            let k = choose|k: nat| reach(gn, b, pos as int, q as int, k);
            assert forall|pp: int, qq: int|
                0 <= pp < b.len() && seen@[pp] && #[trigger] adj(gn, b.len(), pp, qq)
                    && b[qq] == b[pp] implies seen@[qq] by {
                assert(result@.contains(pp as usize));
            }
            lemma_reach_in_closed(gn, b, seen@, pos as int, q as int, k);
        }
    }
    result
}

/// The cell is empty or touches an empty cell: the liberty test for one cell
/// of a group.
pub open spec fn cell_free(n: nat, board: Seq<Stone>, q: int) -> bool {
    board[q] == Stone::Empty || exists|m: int|
        #[trigger] adj(n, board.len(), q, m) && board[m] == Stone::Empty
}

/// Whether any listed cell is empty or touches an empty cell.  Applied to a
/// maximal group of stones this decides whether the group has a liberty.
#[verifier::loop_isolation(false)]
pub fn liberty(n: usize, board: &[Stone], group: &[usize]) -> (r: bool)
    requires
        1 <= n <= 19,
        n * n == board@.len(),
        forall|i: int| 0 <= i < group@.len() ==> (#[trigger] group@[i]) < board@.len(),
    ensures
        r == exists|i: int|
            0 <= i < group@.len() && cell_free(n as nat, board@, #[trigger] group@[i] as int),
{
    let mut i: usize = 0;
    while i < group.len()
        invariant
            i <= group@.len(),
            forall|ii: int|
                0 <= ii < i ==> !cell_free(n as nat, board@, #[trigger] group@[ii] as int),
        decreases group@.len() - i,
    {
        let pos = group[i];
        if board[pos] == Stone::Empty {
            return true;
        }
        let nbrs = neighbors(n, board, pos);
        let mut j: usize = 0;
        while j < nbrs.len()
            invariant
                j <= nbrs@.len(),
                forall|jj: int|
                    0 <= jj < j ==> board@[#[trigger] nbrs@[jj] as int] != Stone::Empty,
            decreases nbrs@.len() - j,
        {
            let m = nbrs[j];
            if board[m] == Stone::Empty {
                proof {
                    assert(adj(n as nat, board@.len(), pos as int, m as int));
                    assert(cell_free(n as nat, board@, group@[i as int] as int));
                }
                return true;
            }
            j += 1;
        }
        proof {
            assert forall|m: int|
                adj(n as nat, board@.len(), pos as int, m) implies board@[m] != Stone::Empty by {
                assert(nbrs@.contains(m as usize));
                let jj = choose|jj: int| 0 <= jj < nbrs@.len() && nbrs@[jj] == m as usize;
                assert(board@[nbrs@[jj] as int] != Stone::Empty);
            }
        }
        i += 1;
    }
    false
}

/// No cell of `q`'s maximal group is empty or touches an empty cell.
pub open spec fn dead_group(n: nat, b: Seq<Stone>, q: int) -> bool {
    !exists|r: int| #[trigger] connected(n, b, q, r) && cell_free(n, b, r)
}

/// After `stone` lands on `pos` (board `bp`), cell `q` holds an opposing
/// stone whose group touches `pos` and is left without liberties.
pub open spec fn captured_opp(n: nat, bp: Seq<Stone>, stone: Stone, pos: int, q: int) -> bool {
    &&& 0 <= q < bp.len()
    &&& bp[q] == opposite(stone)
    &&& exists|m: int| #[trigger] adj(n, bp.len(), pos, m) && connected(n, bp, m, q)
    &&& dead_group(n, bp, q)
}

/// The board after removing every opposing group left without liberties by
/// the placement.
pub open spec fn after_captures(n: nat, bp: Seq<Stone>, stone: Stone, pos: int) -> Seq<Stone> {
    Seq::new(
        bp.len(),
        |q: int|
            if captured_opp(n, bp, stone, pos, q) {
                Stone::Empty
            } else {
                bp[q]
            },
    )
}

/// The whole effect of a placement: the stone lands, opposing dead groups
/// leave first, then the placed stone's own group leaves if it is left
/// without liberties (suicide is permitted and removes the mover's group).
pub open spec fn place(n: nat, b0: Seq<Stone>, stone: Stone, pos: int) -> Seq<Stone> {
    let bp = b0.update(pos, stone);
    let b1 = after_captures(n, bp, stone, pos);
    if dead_group(n, b1, pos) {
        Seq::new(
            b1.len(),
            |q: int|
                if connected(n, b1, pos, q) {
                    Stone::Empty
                } else {
                    b1[q]
                },
        )
    } else {
        b1
    }
}

/// Whether the placement removes at least one stone, either an opposing
/// capture or the placed group itself.
pub open spec fn place_removes(n: nat, b0: Seq<Stone>, stone: Stone, pos: int) -> bool {
    let bp = b0.update(pos, stone);
    (exists|q: int| captured_opp(n, bp, stone, pos, q)) || dead_group(
        n,
        after_captures(n, bp, stone, pos),
        pos,
    )
}

/// Whether the placement takes at least one opposing stone off the board.
pub open spec fn captures_opponent(n: nat, b0: Seq<Stone>, stone: Stone, pos: int) -> bool {
    exists|x: int| captured_opp(n, b0.update(pos, stone), stone, pos, x)
}

/// An opposing stone was captured exactly when some cell that held the
/// opposing colour is empty after the placement: the suicide phase removes
/// only the placed colour's own group.
pub proof fn lemma_opp_capture_visible(n: nat, b0: Seq<Stone>, stone: Stone, pos: int, x: int)
    requires
        stone == Stone::Black || stone == Stone::White,
        0 <= pos < b0.len(),
        0 <= x < b0.len(),
    ensures
        (place(n, b0, stone, pos)[x] == Stone::Empty && b0.update(pos, stone)[x] == opposite(
            stone,
        )) == captured_opp(n, b0.update(pos, stone), stone, pos, x),
{
    let bp = b0.update(pos, stone);
    let b1 = after_captures(n, bp, stone, pos);
    assert(!captured_opp(n, bp, stone, pos, pos));
    if captured_opp(n, bp, stone, pos, x) {
        assert(b1[x] == Stone::Empty);
        if dead_group(n, b1, pos) {
            if connected(n, b1, pos, x) {
                let k = choose|k: nat| reach(n, b1, pos, x, k);
                lemma_reach_same(n, b1, pos, x, k);
                assert(false);
            }
        }
        assert(place(n, b0, stone, pos)[x] == Stone::Empty);
    } else {
        if bp[x] == opposite(stone) {
            assert(b1[x] == opposite(stone));
            if dead_group(n, b1, pos) {
                if connected(n, b1, pos, x) {
                    let k = choose|k: nat| reach(n, b1, pos, x, k);
                    lemma_reach_same(n, b1, pos, x, k);
                    assert(false);
                }
            }
            assert(place(n, b0, stone, pos)[x] == opposite(stone));
        }
    }
}

/// How many of the first `i` cells hold opposing stones the placement
/// captures.
pub open spec fn captured_count(n: nat, bp: Seq<Stone>, stone: Stone, pos: int, i: int) -> nat
    decreases i,
{
    if i <= 0 {
        0
    } else {
        captured_count(n, bp, stone, pos, i - 1) + if captured_opp(n, bp, stone, pos, i - 1) {
            1nat
        } else {
            0nat
        }
    }
}

/// How many of the first `i` cells belong to the placed stone's own group.
pub open spec fn own_group_count(n: nat, b1: Seq<Stone>, pos: int, i: int) -> nat
    decreases i,
{
    if i <= 0 {
        0
    } else {
        own_group_count(n, b1, pos, i - 1) + if connected(n, b1, pos, i - 1) {
            1nat
        } else {
            0nat
        }
    }
}

/// A mask that marks exactly the captured cells has as many marks as there
/// are captured cells.
pub proof fn lemma_count_trues_captured(
    s: Seq<bool>,
    n: nat,
    bp: Seq<Stone>,
    stone: Stone,
    pos: int,
    i: int,
)
    requires
        0 <= i <= s.len(),
        forall|j: int| 0 <= j < s.len() ==> s[j] == captured_opp(n, bp, stone, pos, j),
    ensures
        count_trues(s.take(i)) == captured_count(n, bp, stone, pos, i),
    decreases i,
{
    if i > 0 {
        lemma_count_trues_captured(s, n, bp, stone, pos, i - 1);
        assert(s.take(i).drop_last() =~= s.take(i - 1));
        assert(s.take(i).last() == s[i - 1]);
    }
}

/// The placed stone's group holds at least the placed stone.
pub proof fn lemma_own_count_pos(n: nat, b1: Seq<Stone>, pos: int, i: int)
    requires
        0 <= pos < i,
        connected(n, b1, pos, pos),
    ensures
        own_group_count(n, b1, pos, i) >= 1,
    decreases i,
{
    if pos < i - 1 {
        lemma_own_count_pos(n, b1, pos, i - 1);
    }
}

/// Puts `stone` on `pos`, removes opposing groups left without liberties,
/// then the placed group itself if it also has none, and returns how many
/// stones were removed: the captured opposing stones plus, on suicide, the
/// placed stone's own group.
#[verifier::loop_isolation(false)]
#[verifier::rlimit(100)]
pub fn place_stone(n: usize, board: &mut Vec<Stone>, stone: Stone, pos: usize) -> (captures: u32)
    requires
        1 <= n <= 19,
        n * n == old(board)@.len(),
        pos < old(board)@.len(),
        stone == Stone::Black || stone == Stone::White,
    ensures
        final(board)@ == place(n as nat, old(board)@, stone, pos as int),
        captures > 0 <==> place_removes(n as nat, old(board)@, stone, pos as int),
        captures as int == captured_count(
            n as nat,
            old(board)@.update(pos as int, stone),
            stone,
            pos as int,
            old(board)@.len() as int,
        ) + (if dead_group(
            n as nat,
            after_captures(n as nat, old(board)@.update(pos as int, stone), stone, pos as int),
            pos as int,
        ) {
            own_group_count(
                n as nat,
                after_captures(n as nat, old(board)@.update(pos as int, stone), stone, pos as int),
                pos as int,
                old(board)@.len() as int,
            ) as int
        } else {
            0
        }),
{
    let len = board.len();
    let ghost gn = n as nat;
    proof {
        assert(len <= 361) by (nonlinear_arith)
            requires
                n <= 19,
                n * n == len,
        ;
    }
    board[pos] = stone;
    let ghost bp = board@;
    let opp_color = match stone {
        Stone::Black => Stone::White,
        _ => Stone::Black,
    };
    proof {
        assert(opp_color == opposite(stone));
    }
    let mut dead = vec![false; len];
    let mut captures: u32 = 0;
    proof {
        lemma_count_trues_none(dead@);
    }
    let nbrs = neighbors(n, board.as_slice(), pos);
    let mut t: usize = 0;
    while t < nbrs.len()
        invariant
            t <= nbrs@.len(),
            board@ == bp,
            dead@.len() == len,
            captures as int == count_trues(dead@),
            captures <= len,
            (captures > 0) <==> (exists|x: int| 0 <= x < len && dead@[x]),
            forall|q: int| 0 <= q < len && dead@[q] ==> captured_opp(gn, bp, stone, pos as int, q),
            forall|q: int, r: int|
                0 <= q < len && dead@[q] && #[trigger] connected(gn, bp, q, r) ==> 0 <= r < len
                    && dead@[r],
            forall|tt: int|
                0 <= tt < t && bp[nbrs@[tt] as int] == opposite(stone) && dead_group(
                    gn,
                    bp,
                    nbrs@[tt] as int,
                ) ==> dead@[#[trigger] nbrs@[tt] as int],
        decreases nbrs@.len() - t,
    {
        let m = nbrs[t];
        proof {
            assert(adj(gn, bp.len(), pos as int, m as int));
        }
        if board[m] == opp_color && !dead[m] {
            let g = connected_group(n, board.as_slice(), m);
            let has_liberty = liberty(n, board.as_slice(), g.as_slice());
            if !has_liberty {
                proof {
                    assert forall|r: int| #[trigger] connected(gn, bp, m as int, r) implies
                        !cell_free(gn, bp, r) by {
                        let k = choose|k: nat| reach(gn, bp, m as int, r, k);
                        lemma_reach_same(gn, bp, m as int, r, k);
                        assert(g@.contains(r as usize));
                        let jj = choose|jj: int| 0 <= jj < g@.len() && g@[jj] == r as usize;
                    }
                    assert(dead_group(gn, bp, m as int));
                }
                let mut u: usize = 0;
                let ghost dead0 = dead@;
                while u < g.len()
                    invariant
                        u <= g@.len(),
                        board@ == bp,
                        dead@.len() == len,
                        captures as int == count_trues(dead@),
                        captures <= len,
                        (captures > 0) <==> (exists|x: int| 0 <= x < len && dead@[x]),
                        forall|x: int| 0 <= x < len && dead0[x] ==> dead@[x],
                        forall|uu: int| 0 <= uu < u ==> dead@[#[trigger] g@[uu] as int],
                        forall|x: int|
                            0 <= x < len && dead@[x] ==> dead0[x] || g@.contains(x as usize),
                        forall|q: int|
                            0 <= q < len && dead@[q] ==> captured_opp(gn, bp, stone, pos as int, q),
                    decreases g@.len() - u,
                {
                    let q = g[u];
                    if !dead[q] {
                        proof {
                            lemma_count_trues_update(dead@, q as int);
                            lemma_count_trues_le(dead@.update(q as int, true));
                            assert(g@.contains(q));
                            assert(connected(gn, bp, m as int, q as int));
                            let k = choose|k: nat| reach(gn, bp, m as int, q as int, k);
                            lemma_reach_same(gn, bp, m as int, q as int, k);
                            assert forall|r: int| #[trigger] connected(gn, bp, q as int, r) implies
                                !cell_free(gn, bp, r) by {
                                let k2 = choose|k2: nat| reach(gn, bp, q as int, r, k2);
                                lemma_connected_trans(gn, bp, m as int, q as int, r, k, k2);
                                assert(reach(gn, bp, m as int, r, k + k2));
                                assert(connected(gn, bp, m as int, r));
                            }
                            assert(dead_group(gn, bp, q as int));
                            assert(captured_opp(gn, bp, stone, pos as int, q as int));
                        }
                        dead[q] = true;
                        captures += 1;
                    }
                    u += 1;
                }
                proof {
                    // the whole group of m is now marked, so the dead set
                    // stays closed under connectivity
                    assert forall|q: int, r: int|
                        0 <= q < len && dead@[q] && #[trigger] connected(gn, bp, q, r) implies 0
                        <= r < len && dead@[r] by {
                        let k2 = choose|k2: nat| reach(gn, bp, q, r, k2);
                        lemma_reach_same(gn, bp, q, r, k2);
                        if dead0[q] {
                            assert(dead0[r]);
                        } else {
                            assert(g@.contains(q as usize));
                            assert(connected(gn, bp, m as int, q));
                            let k1 = choose|k1: nat| reach(gn, bp, m as int, q, k1);
                            lemma_connected_trans(gn, bp, m as int, q, r, k1, k2);
                            assert(reach(gn, bp, m as int, r, k1 + k2));
                            assert(connected(gn, bp, m as int, r));
                            assert(g@.contains(r as usize));
                            let vv = choose|vv: int| 0 <= vv < g@.len() && g@[vv] == r as usize;
                            assert(dead@[g@[vv] as int]);
                        }
                    }
                    assert(reach(gn, bp, m as int, m as int, 0));
                    assert(g@.contains(m));
                    assert(dead@[m as int]);
                }
            } else {
                proof {
                    let ii = choose|ii: int|
                        0 <= ii < g@.len() && cell_free(gn, bp, g@[ii] as int);
                    assert(g@.contains(g@[ii]));
                    assert(connected(gn, bp, m as int, g@[ii] as int));
                    assert(!dead_group(gn, bp, m as int));
                }
            }
        }
        t += 1;
    }
    proof {
        // the marked cells are exactly the captured opposing stones
        assert forall|q: int|
            0 <= q < len && captured_opp(gn, bp, stone, pos as int, q) implies dead@[q] by {
            let m0 = choose|m0: int|
                #[trigger] adj(gn, bp.len(), pos as int, m0) && connected(gn, bp, m0, q);
            let k = choose|k: nat| reach(gn, bp, m0, q, k);
            lemma_reach_same(gn, bp, m0, q, k);
            assert(bp[m0] == opposite(stone));
            assert(nbrs@.contains(m0 as usize));
            let tt = choose|tt: int| 0 <= tt < nbrs@.len() && nbrs@[tt] == m0 as usize;
            // m0's group is q's group, so it is dead too
            lemma_connected_sym(gn, bp, m0, q, k);
            assert forall|r: int| #[trigger] connected(gn, bp, m0, r) implies !cell_free(
                gn,
                bp,
                r,
            ) by {
                let k2 = choose|k2: nat| reach(gn, bp, m0, r, k2);
                lemma_connected_trans(gn, bp, q, m0, r, k, k2);
                assert(reach(gn, bp, q, r, k + k2));
                assert(connected(gn, bp, q, r));
            }
            assert(dead_group(gn, bp, m0));
            assert(dead@[m0]);
            assert(connected(gn, bp, m0, q));
        }
        lemma_count_trues_captured(dead@, gn, bp, stone, pos as int, len as int);
        assert(dead@.take(len as int) =~= dead@);
        assert(captures as int == captured_count(gn, bp, stone, pos as int, len as int));
    }
    // lift the captured stones off the board
    let mut w: usize = 0;
    while w < len
        invariant
            w <= len,
            board@.len() == len,
            dead@.len() == len,
            forall|x: int| 0 <= x < len ==> (dead@[x] <==> captured_opp(gn, bp, stone, pos as int, x)),
            forall|x: int|
                0 <= x < w ==> board@[x] == (if dead@[x] {
                    Stone::Empty
                } else {
                    bp[x]
                }),
            forall|x: int| w <= x < len ==> board@[x] == bp[x],
            (captures > 0) <==> (exists|x: int| 0 <= x < len && dead@[x]),
            captures <= len,
            captures as int == captured_count(gn, bp, stone, pos as int, len as int),
        decreases len - w,
    {
        if dead[w] {
            board[w] = Stone::Empty;
        }
        w += 1;
    }
    proof {
        assert(board@ =~= after_captures(gn, bp, stone, pos as int));
    }
    let ghost b1 = board@;
    proof {
        assert(!captured_opp(gn, bp, stone, pos as int, pos as int));
        assert(b1[pos as int] == stone);
    }
    // the placed stone's own group leaves if it too has no liberty
    let g = connected_group(n, board.as_slice(), pos);
    let has_liberty = liberty(n, board.as_slice(), g.as_slice());
    if !has_liberty {
        proof {
            assert forall|r: int| #[trigger] connected(gn, b1, pos as int, r) implies !cell_free(
                gn,
                b1,
                r,
            ) by {
                let k = choose|k: nat| reach(gn, b1, pos as int, r, k);
                lemma_reach_same(gn, b1, pos as int, r, k);
                assert(g@.contains(r as usize));
                let jj = choose|jj: int| 0 <= jj < g@.len() && g@[jj] == r as usize;
            }
            assert(dead_group(gn, b1, pos as int));
        }
        let ghost cap1 = captures as int;
        let mut own = vec![false; len];
        let mut u: usize = 0;
        while u < g.len()
            invariant
                u <= g@.len(),
                own@.len() == len,
                board@ == b1,
                forall|i: int| 0 <= i < g@.len() ==> (#[trigger] g@[i]) < len,
                forall|x: int|
                    0 <= x < len ==> (own@[x] <==> exists|uu: int| 0 <= uu < u && g@[uu]
                        == x as usize),
            decreases g@.len() - u,
        {
            let q = g[u];
            own[q] = true;
            u += 1;
        }
        proof {
            assert forall|x: int| 0 <= x < len implies (own@[x] == connected(
                gn,
                b1,
                pos as int,
                x,
            )) by {
                if own@[x] {
                    let uu = choose|uu: int| 0 <= uu < g@.len() && g@[uu] == x as usize;
                    assert(g@.contains(x as usize));
                } else {
                    if connected(gn, b1, pos as int, x) {
                        assert(g@.contains(x as usize));
                        let uu = choose|uu: int| 0 <= uu < g@.len() && g@[uu] == x as usize;
                        assert(own@[x]);
                    }
                }
            }
        }
        let mut w2: usize = 0;
        while w2 < len
            invariant
                w2 <= len,
                board@.len() == len,
                own@.len() == len,
                cap1 <= len,
                forall|x: int| 0 <= x < len ==> (own@[x] == connected(gn, b1, pos as int, x)),
                captures as int == cap1 + own_group_count(gn, b1, pos as int, w2 as int),
                captures as int <= cap1 + w2,
                forall|x: int|
                    0 <= x < w2 ==> board@[x] == (if connected(gn, b1, pos as int, x) {
                        Stone::Empty
                    } else {
                        b1[x]
                    }),
                forall|x: int| w2 <= x < len ==> board@[x] == b1[x],
            decreases len - w2,
    {
            if own[w2] {
                board[w2] = Stone::Empty;
                captures += 1;
            }
            w2 += 1;
        }
        proof {
            assert(board@ =~= place(gn, old(board)@, stone, pos as int));
            assert(reach(gn, b1, pos as int, pos as int, 0));
            lemma_own_count_pos(gn, b1, pos as int, len as int);
            assert(captures > 0);
            assert(dead_group(gn, after_captures(gn, bp, stone, pos as int), pos as int));
            assert(place_removes(gn, old(board)@, stone, pos as int));
        }
    } else {
        proof {
            let ii = choose|ii: int| 0 <= ii < g@.len() && cell_free(gn, b1, g@[ii] as int);
            assert(g@.contains(g@[ii]));
            assert(connected(gn, b1, pos as int, g@[ii] as int));
            assert(!dead_group(gn, b1, pos as int));
            assert(board@ =~= place(gn, old(board)@, stone, pos as int));
            if captures > 0 {
                let x = choose|x: int| 0 <= x < len && dead@[x];
                assert(captured_opp(gn, bp, stone, pos as int, x));
                assert(place_removes(gn, old(board)@, stone, pos as int));
            } else {
                assert forall|x: int| !captured_opp(gn, bp, stone, pos as int, x) by {
                    if captured_opp(gn, bp, stone, pos as int, x) {
                        assert(0 <= x < len);
                        assert(dead@[x]);
                    }
                }
                assert(!place_removes(gn, old(board)@, stone, pos as int));
            }
        }
    }
    captures
}

/// Whether any listed cell has a neighbour holding `color`.
#[verifier::loop_isolation(false)]
pub fn touches_color(n: usize, board: &[Stone], group: &[usize], color: Stone) -> (r: bool)
    requires
        1 <= n <= 19,
        n * n == board@.len(),
        forall|i: int| 0 <= i < group@.len() ==> (#[trigger] group@[i]) < board@.len(),
    ensures
        r == exists|i: int, s: int|
            0 <= i < group@.len() && #[trigger] adj(n as nat, board@.len(), group@[i] as int, s)
                && board@[s] == color,
{
    proof {
        assert(board@.len() <= 361) by (nonlinear_arith)
            requires
                n <= 19,
                n * n == board@.len(),
        ;
    }
    let mut i: usize = 0;
    while i < group.len()
        invariant
            i <= group@.len(),
            forall|ii: int, s: int|
                0 <= ii < i && #[trigger] adj(n as nat, board@.len(), group@[ii] as int, s)
                    ==> board@[s] != color,
        decreases group@.len() - i,
    {
        let pos = group[i];
        let nbrs = neighbors(n, board, pos);
        let mut j: usize = 0;
        while j < nbrs.len()
            invariant
                j <= nbrs@.len(),
                forall|jj: int|
                    0 <= jj < j ==> board@[#[trigger] nbrs@[jj] as int] != color,
            decreases nbrs@.len() - j,
        {
            let m = nbrs[j];
            if board[m] == color {
                proof {
                    assert(adj(n as nat, board@.len(), pos as int, m as int));
                }
                return true;
            }
            j += 1;
        }
        proof {
            assert(j == nbrs@.len());
            assert forall|s: int|
                adj(n as nat, board@.len(), pos as int, s) implies board@[s] != color by {
                assert(nbrs@.contains(s as usize));
                let jj = choose|jj: int| 0 <= jj < nbrs@.len() && nbrs@[jj] == s as usize;
                assert(board@[nbrs@[jj] as int] != color);
                assert(nbrs@[jj] as int == s);
            }
        }
        i += 1;
    }
    false
}

/// The empty region of cell `q` touches a stone of colour `c`.
pub open spec fn region_borders(n: nat, b: Seq<Stone>, q: int, c: Stone) -> bool {
    exists|r: int, s: int|
        #[trigger] connected(n, b, q, r) && #[trigger] adj(n, b.len(), r, s) && b[s] == c
}

/// Empty cell `q` scores as territory for `c`: its region of empty cells
/// touches stones of `c` and none of the opposing colour.
pub open spec fn territory_for(n: nat, b: Seq<Stone>, q: int, c: Stone) -> bool {
    &&& 0 <= q < b.len()
    &&& b[q] == Stone::Empty
    &&& region_borders(n, b, q, c)
    &&& !region_borders(n, b, q, opposite(c))
}

/// How many of the first `i` cells score for `c`: cells holding a `c` stone
/// plus cells of territory for `c`.
pub open spec fn area_upto(n: nat, b: Seq<Stone>, c: Stone, i: int) -> nat
    decreases i,
{
    if i <= 0 {
        0
    } else {
        area_upto(n, b, c, i - 1) + if b[i - 1] == c || territory_for(n, b, i - 1, c) {
            1nat
        } else {
            0nat
        }
    }
}

/// Area score of colour `c`: its stones on the board plus its territory.
pub open spec fn area(n: nat, b: Seq<Stone>, c: Stone) -> nat {
    area_upto(n, b, c, b.len() as int)
}

/// The failure cases of the rules engine: rejected creation parameters, a
/// rejected handicap placement, a rejected move.
#[derive(Clone, Copy, PartialEq, Eq, Structural, Debug)]
pub enum GameError {
    Creation,
    Handicap,
    Play,
}

impl GameError {
    /// A short description of the error.
    pub fn text(&self) -> (r: &'static str)
        ensures
            *self == GameError::Creation ==> r@ == "Creation error"@,
            *self == GameError::Handicap ==> r@ == "Handicap error"@,
            *self == GameError::Play ==> r@ == "Play error"@,
    {
        match self {
            GameError::Creation => "Creation error",
            GameError::Handicap => "Handicap error",
            GameError::Play => "Play error",
        }
    }
}

/// One match of Go: settings, the live board, the history of positions after
/// each completed placement, the legality mask for the side to move, whose
/// turn it is, and the running area scores.
#[derive(Clone)]
pub struct Game {
    pub board_size: usize,
    pub komi: u32,
    pub handicap: u32,
    pub board: Vec<Stone>,
    pub history: Vec<Vec<Stone>>,
    pub valid_moves: Vec<bool>,
    pub turn: Turn,
    pub passes: u32,
    pub black_score: u32,
    pub white_score: u32,
}

impl Game {
    /// Structural soundness: a square board of a supported odd size, masks of
    /// matching length, at least the initial position recorded, and a pass
    /// counter that can still be incremented.
    pub open spec fn wf(self) -> bool {
        &&& 5 <= self.board_size <= 19
        &&& self.board_size % 2 == 1
        &&& self.board@.len() == self.board_size * self.board_size
        &&& self.valid_moves@.len() == self.board@.len()
        &&& 1 <= self.handicap <= 9
        &&& self.history@.len() >= 1
        &&& forall|i: int|
            0 <= i < self.history@.len() ==> (#[trigger] self.history@[i])@.len()
                == self.board@.len()
        &&& (self.turn == Turn::End || self.passes <= 1)
    }

    /// The recorded scores agree with the area score of the current board.
    pub open spec fn scores_current(self) -> bool {
        &&& self.black_score == area(self.board_size as nat, self.board@, Stone::Black)
        &&& self.white_score == area(self.board_size as nat, self.board@, Stone::White)
    }

    /// Creates a fresh game on an empty board.  Fails exactly when the board
    /// size is even or outside [5, 19], or the handicap is outside [1, 9].
    /// With a handicap of one the game opens on Black's move, otherwise on
    /// handicap placement.
    pub fn new(board_size: usize, komi: u32, handicap: u32) -> (r: Result<Game, GameError>)
        ensures
            r is Ok <==> (5 <= board_size <= 19 && board_size % 2 == 1 && 1 <= handicap <= 9),
            r matches Ok(g) ==> {
                &&& g.wf()
                &&& g.board_size == board_size
                &&& g.komi == komi
                &&& g.handicap == handicap
                &&& g.board@.len() == board_size * board_size
                &&& forall|i: int| 0 <= i < g.board@.len() ==> g.board@[i] == Stone::Empty
                &&& g.history@.len() == 1
                &&& g.history@[0]@ == g.board@
                &&& forall|i: int| 0 <= i < g.valid_moves@.len() ==> g.valid_moves@[i]
                &&& g.turn == (if handicap == 1 {
                    Turn::Black
                } else {
                    Turn::Handicap
                })
                &&& g.passes == 0
                &&& g.black_score == 0
                &&& g.white_score == 0
            },
            r matches Err(e) ==> e == GameError::Creation,
    {
        if board_size >= 5 && board_size <= 19 && board_size % 2 == 1 && handicap > 0 && handicap
            <= 9 {
            proof {
                assert(board_size * board_size <= 361) by (nonlinear_arith)
                    requires
                        board_size <= 19,
                ;
            }
            let tile_count = board_size * board_size;
            let board = vec![Stone::Empty; tile_count];
            let mut history = Vec::<Vec<Stone>>::new();
            history.push(board.clone());
            proof {
                assert(history@[0]@ =~= board@);
            }
            Ok(
                Game {
                    board_size,
                    komi,
                    handicap,
                    board,
                    history,
                    valid_moves: vec![true; tile_count],
                    turn: if handicap == 1 {
                        Turn::Black
                    } else {
                        Turn::Handicap
                    },
                    passes: 0,
                    black_score: 0,
                    white_score: 0,
                },
            )
        } else {
            Err(GameError::Creation)
        }
    }

    /// Area score `[black, white]` of the current board: stones on the board
    /// plus empty regions bordered by stones of one colour alone.
    #[verifier::loop_isolation(false)]
    pub fn score(&self) -> (r: [u32; 2])
        requires
            1 <= self.board_size <= 19,
            self.board_size * self.board_size == self.board@.len(),
        ensures
            r@[0] == area(self.board_size as nat, self.board@, Stone::Black),
            r@[1] == area(self.board_size as nat, self.board@, Stone::White),
    {
        let n = self.board_size;
        let len = self.board.len();
        let ghost gn = n as nat;
        let ghost b = self.board@;
        proof {
            assert(len <= 361) by (nonlinear_arith)
                requires
                    n <= 19,
                    n * n == len,
            ;
        }
        let mut black: u32 = 0;
        let mut white: u32 = 0;
        let mut q: usize = 0;
        while q < len
            invariant
                q <= len,
                black == area_upto(gn, b, Stone::Black, q as int),
                white == area_upto(gn, b, Stone::White, q as int),
                black <= q,
                white <= q,
            decreases len - q,
        {
            let cell = self.board[q];
            if cell == Stone::Black {
                black += 1;
            } else if cell == Stone::White {
                white += 1;
            } else {
                let g = connected_group(n, self.board.as_slice(), q);
                let bb = touches_color(n, self.board.as_slice(), g.as_slice(), Stone::Black);
                let wb = touches_color(n, self.board.as_slice(), g.as_slice(), Stone::White);
                proof {
                    assert forall|c: Stone|
                        (exists|i: int, s: int|
                            0 <= i < g@.len() && #[trigger] adj(gn, b.len(), g@[i] as int, s)
                                && b[s] == c) == region_borders(gn, b, q as int, c) by {
                        if exists|i: int, s: int|
                            0 <= i < g@.len() && #[trigger] adj(gn, b.len(), g@[i] as int, s)
                                && b[s] == c {
                            let (i, s) = choose|i: int, s: int|
                                0 <= i < g@.len() && #[trigger] adj(gn, b.len(), g@[i] as int, s)
                                    && b[s] == c;
                            assert(g@.contains(g@[i]));
                            assert(connected(gn, b, q as int, g@[i] as int));
                            assert(region_borders(gn, b, q as int, c));
                        }
                        if region_borders(gn, b, q as int, c) {
                            let (r, s) = choose|r: int, s: int|
                                #[trigger] connected(gn, b, q as int, r) && #[trigger] adj(
                                    gn,
                                    b.len(),
                                    r,
                                    s,
                                ) && b[s] == c;
                            let k = choose|k: nat| reach(gn, b, q as int, r, k);
                            lemma_reach_same(gn, b, q as int, r, k);
                            assert(g@.contains(r as usize));
                            let i = choose|i: int| 0 <= i < g@.len() && g@[i] == r as usize;
                            assert(adj(gn, b.len(), g@[i] as int, s) && b[s] == c);
                        }
                    }
                    assert(bb == region_borders(gn, b, q as int, Stone::Black));
                    assert(wb == region_borders(gn, b, q as int, Stone::White));
                }
                if bb && !wb {
                    black += 1;
                } else if !bb && wb {
                    white += 1;
                }
            }
            q += 1;
        }
        [black, white]
    }
}


/// The superko rule reaches only moves that capture an opposing group: a
/// placement that takes nothing of the opponent is legal on any empty cell,
/// however the position compares with the record.
pub proof fn lemma_superko_needs_capture(
    n: nat,
    board: Seq<Stone>,
    hist: Seq<Seq<Stone>>,
    s: Stone,
    q: int,
)
    requires
        !captures_opponent(n, board, s, q),
    ensures
        move_ok(n, board, hist, s, q) == (board[q] == Stone::Empty),
{
}

/// Two consecutive passes by alternating sides end the game, the board is
/// left untouched, and the recorded scores still equal the area score of
/// that final board.
pub proof fn lemma_double_pass_ends(g: Game, first: Stone)
    requires
        g.wf(),
        g.scores_current(),
        g.passes == 0,
        g.side_to_move(first),
    ensures
        ({
            let g2 = g.pass_result(first).pass_result(opposite(first));
            &&& g2.turn == Turn::End
            &&& g2.board == g.board
            &&& g2.black_score == area(g2.board_size as nat, g2.board@, Stone::Black)
            &&& g2.white_score == area(g2.board_size as nat, g2.board@, Stone::White)
        }),
{
}

/// Whether some cell that held `color` before is empty after.
#[verifier::loop_isolation(false)]
pub fn removed_stone_of(pre: &Vec<Stone>, post: &Vec<Stone>, color: Stone) -> (r: bool)
    requires
        pre@.len() == post@.len(),
    ensures
        r == exists|x: int|
            0 <= x < pre@.len() && #[trigger] pre@[x] == color && post@[x] == Stone::Empty,
{
    let mut x: usize = 0;
    while x < pre.len()
        invariant
            x <= pre@.len(),
            forall|y: int| 0 <= y < x ==> !(#[trigger] pre@[y] == color && post@[y] == Stone::Empty),
        decreases pre@.len() - x,
    {
        if pre[x] == color && post[x] == Stone::Empty {
            return true;
        }
        x += 1;
    }
    false
}

/// Whether two recorded positions hold the same stones cell for cell.
#[verifier::loop_isolation(false)]
pub fn boards_equal(a: &Vec<Stone>, b: &Vec<Stone>) -> (r: bool)
    ensures
        r == (a@ == b@),
{
    if a.len() != b.len() {
        return false;
    }
    let mut i: usize = 0;
    while i < a.len()
        invariant
            i <= a@.len(),
            forall|j: int| 0 <= j < i ==> a@[j] == b@[j],
        decreases a@.len() - i,
    {
        if a[i] != b[i] {
            return false;
        }
        i += 1;
    }
    proof {
        assert(a@ =~= b@);
    }
    true
}

/// The views of the recorded positions.
pub open spec fn hist_views(h: Seq<Vec<Stone>>) -> Seq<Seq<Stone>> {
    h.map_values(|v: Vec<Stone>| v@)
}

/// Cell `q` is a legal move for `s`: it is empty, and the placement does
/// not capture an opposing group while recreating a recorded position
/// (positional superko); a move that captures nothing of the opponent is
/// never excluded.
pub open spec fn move_ok(n: nat, board: Seq<Stone>, hist: Seq<Seq<Stone>>, s: Stone, q: int) -> bool {
    &&& board[q] == Stone::Empty
    &&& !(captures_opponent(n, board, s, q) && exists|h: int|
        0 <= h < hist.len() && hist[h] == place(n, board, s, q))
}

impl Game {
    /// The game waits on exactly the colour `side`.
    pub open spec fn side_to_move(self, side: Stone) -> bool {
        ||| (side == Stone::Black && self.turn == Turn::Black)
        ||| (side == Stone::White && self.turn == Turn::White)
    }

    /// Rebuilds the legality mask for `next_stone` against the current board
    /// and history.
    #[verifier::loop_isolation(false)]
    #[verifier::rlimit(50)]
    fn rebuild_valid_moves(&mut self, next_stone: Stone)
        requires
            5 <= old(self).board_size <= 19,
            old(self).board_size * old(self).board_size == old(self).board@.len(),
            old(self).valid_moves@.len() == old(self).board@.len(),
            forall|i: int|
                0 <= i < old(self).history@.len() ==> (#[trigger] old(self).history@[i])@.len()
                    == old(self).board@.len(),
            next_stone == Stone::Black || next_stone == Stone::White,
        ensures
            final(self).board == old(self).board,
            final(self).history == old(self).history,
            final(self).turn == old(self).turn,
            final(self).passes == old(self).passes,
            final(self).board_size == old(self).board_size,
            final(self).komi == old(self).komi,
            final(self).handicap == old(self).handicap,
            final(self).black_score == old(self).black_score,
            final(self).white_score == old(self).white_score,
            final(self).valid_moves@.len() == old(self).valid_moves@.len(),
            forall|q: int|
                0 <= q < final(self).valid_moves@.len() ==> final(self).valid_moves@[q] == move_ok(
                    old(self).board_size as nat,
                    old(self).board@,
                    hist_views(old(self).history@),
                    next_stone,
                    q,
                ),
    {
        let n = self.board_size;
        let len = self.board.len();
        let ghost gn = n as nat;
        let ghost b = self.board@;
        let ghost hv = hist_views(self.history@);
        let mut q: usize = 0;
        while q < len
            invariant
                q <= len,
                self.board == old(self).board,
                self.history == old(self).history,
                self.turn == old(self).turn,
                self.passes == old(self).passes,
                self.board_size == old(self).board_size,
                self.komi == old(self).komi,
                self.handicap == old(self).handicap,
                self.black_score == old(self).black_score,
                self.white_score == old(self).white_score,
                self.valid_moves@.len() == len,
                forall|x: int|
                    0 <= x < q ==> self.valid_moves@[x] == move_ok(gn, b, hv, next_stone, x),
            decreases len - q,
        {
            if self.board[q] == Stone::Empty {
                let mut sim = self.board.clone();
                proof {
                    assert(sim@ =~= b);
                }
                place_stone(n, &mut sim, next_stone, q);
                let took_opponent = removed_stone_of(
                    &self.board,
                    &sim,
                    match next_stone {
                        Stone::Black => Stone::White,
                        _ => Stone::Black,
                    },
                );
                proof {
                    assert forall|x: int| 0 <= x < len implies ((b[x] == opposite(next_stone)
                        && sim@[x] == Stone::Empty) == captured_opp(
                        gn,
                        b.update(q as int, next_stone),
                        next_stone,
                        q as int,
                        x,
                    )) by {
                        lemma_opp_capture_visible(gn, b, next_stone, q as int, x);
                    }
                    assert(took_opponent == captures_opponent(gn, b, next_stone, q as int));
                }
                let mut legal = true;
                if took_opponent {
                    let mut h: usize = 0;
                    while h < self.history.len()
                        invariant
                            h <= self.history@.len(),
                            self.history == old(self).history,
                            sim@ == place(gn, b, next_stone, q as int),
                            legal == !(exists|i: int|
                                0 <= i < h && hv[i] == place(gn, b, next_stone, q as int)),
                        decreases self.history@.len() - h,
                    {
                        let same = boards_equal(&sim, &self.history[h]);
                        proof {
                            assert(hv[h as int] == self.history@[h as int]@);
                        }
                        if same {
                            legal = false;
                        }
                        h += 1;
                    }
                }
                self.valid_moves[q] = legal;
                proof {
                    assert(self.valid_moves@[q as int] == move_ok(gn, b, hv, next_stone, q as int));
                }
            } else {
                self.valid_moves[q] = false;
            }
            q += 1;
        }
    }

    /// A handicap placement is accepted: the handicap phase waits on Black,
    /// the cells are distinct and on the board, and there are at most as
    /// many as the configured handicap count.
    pub open spec fn handicap_acceptable(self, stone: Stone, positions: Seq<usize>) -> bool {
        &&& stone == Stone::Black
        &&& self.turn == Turn::Handicap
        &&& positions.len() <= self.handicap
        &&& forall|i: int| 0 <= i < positions.len() ==> (#[trigger] positions[i]) < self.board@.len()
        &&& forall|i: int, j: int| 0 <= i < j < positions.len() ==> positions[i] != positions[j]
    }

    /// What a completed handicap placement guarantees: the stones land on
    /// their cells, the turn passes to White, the legality mask is rebuilt
    /// for White, and everything else is untouched.
    pub open spec fn handicap_rel(pre: Game, post: Game, positions: Seq<usize>) -> bool {
        &&& post.board@.len() == pre.board@.len()
        &&& forall|x: int|
            0 <= x < post.board@.len() ==> post.board@[x] == (if positions.contains(x as usize) {
                Stone::Black
            } else {
                pre.board@[x]
            })
        &&& post.turn == Turn::White
        &&& post.history == pre.history
        &&& post.passes == pre.passes
        &&& post.board_size == pre.board_size
        &&& post.komi == pre.komi
        &&& post.handicap == pre.handicap
        &&& post.black_score == pre.black_score
        &&& post.white_score == pre.white_score
        &&& forall|q: int|
            0 <= q < post.valid_moves@.len() ==> post.valid_moves@[q] == move_ok(
                pre.board_size as nat,
                post.board@,
                hist_views(pre.history@),
                Stone::White,
                q,
            )
        &&& post.valid_moves@.len() == post.board@.len()
    }

    /// Places Black's free handicap stones.  Legal only in the handicap
    /// phase, for Black, on distinct in-bounds cells, at most the configured
    /// handicap count.  The stones land, the turn passes to White, and the
    /// legality mask is rebuilt for White.
    #[verifier::loop_isolation(false)]
    pub fn play_handicap(&mut self, stone: Stone, positions: &[usize]) -> (r: Result<
        (),
        GameError,
    >)
        requires
            old(self).wf(),
        ensures
            final(self).wf(),
            r is Ok <==> old(self).handicap_acceptable(stone, positions@),
            r is Err ==> *final(self) == *old(self) && r == Err::<(), GameError>(GameError::Handicap),
            r is Ok ==> Game::handicap_rel(*old(self), *final(self), positions@),
    {
        if !(stone == Stone::Black && self.turn == Turn::Handicap) {
            return Err(GameError::Handicap);
        }
        let len = self.board.len();
        if positions.len() > self.handicap as usize {
            return Err(GameError::Handicap);
        }
        // the cells must be distinct and on the board
        let mut i: usize = 0;
        while i < positions.len()
            invariant
                i <= positions@.len(),
                forall|x: int| 0 <= x < i ==> (#[trigger] positions@[x]) < len,
                forall|x: int, y: int| 0 <= x < y < i ==> positions@[x] != positions@[y],
                self == old(self),
                len == self.board@.len(),
            decreases positions@.len() - i,
        {
            if positions[i] >= len {
                return Err(GameError::Handicap);
            }
            let mut j: usize = 0;
            while j < i
                invariant
                    j <= i < positions@.len(),
                    forall|y: int| 0 <= y < j ==> positions@[y] != positions@[i as int],
                decreases i - j,
            {
                if positions[j] == positions[i] {
                    return Err(GameError::Handicap);
                }
                j += 1;
            }
            i += 1;
        }
        let ghost b0 = self.board@;
        let mut k: usize = 0;
        while k < positions.len()
            invariant
                k <= positions@.len(),
                self.board@.len() == len,
                forall|x: int| 0 <= x < positions@.len() ==> (#[trigger] positions@[x]) < len,
                forall|x: int|
                    0 <= x < len ==> self.board@[x] == (if exists|y: int|
                        0 <= y < k && positions@[y] == x as usize {
                        Stone::Black
                    } else {
                        b0[x]
                    }),
                self.history == old(self).history,
                self.turn == old(self).turn,
                self.passes == old(self).passes,
                self.board_size == old(self).board_size,
                self.komi == old(self).komi,
                self.handicap == old(self).handicap,
                self.black_score == old(self).black_score,
                self.white_score == old(self).white_score,
                self.valid_moves == old(self).valid_moves,
            decreases positions@.len() - k,
        {
            let p = positions[k];
            self.board[p] = stone;
            k += 1;
        }
        proof {
            assert forall|x: int| 0 <= x < len implies self.board@[x] == (
            if positions@.contains(x as usize) {
                Stone::Black
            } else {
                b0[x]
            }) by {
                if positions@.contains(x as usize) {
                    let y = choose|y: int| 0 <= y < positions@.len() && positions@[y] == x as usize;
                }
            }
        }
        self.turn = Turn::White;
        self.rebuild_valid_moves(Stone::White);
        Ok(())
    }

    /// A move is accepted: the cell is on the board, the game waits on this
    /// colour, and the legality mask allows the cell.
    pub open spec fn play_acceptable(self, stone: Stone, pos: usize) -> bool {
        &&& pos < self.board@.len()
        &&& self.side_to_move(stone)
        &&& self.valid_moves@[pos as int]
    }

    /// What a completed move guarantees: the placement takes effect with its
    /// captures, the new position is recorded, the turn flips, the pass
    /// counter resets, the legality mask is rebuilt for the other colour
    /// under the superko rule, and the scores equal the area score of the
    /// new board.
    pub open spec fn play_rel(pre: Game, post: Game, stone: Stone, pos: usize) -> bool {
        &&& post.board@ == place(pre.board_size as nat, pre.board@, stone, pos as int)
        &&& post.history@.len() == pre.history@.len() + 1
        &&& forall|i: int| 0 <= i < pre.history@.len() ==> post.history@[i] == pre.history@[i]
        &&& post.history@.last()@ == post.board@
        &&& post.turn == (if stone == Stone::Black {
            Turn::White
        } else {
            Turn::Black
        })
        &&& post.passes == 0
        &&& forall|q: int|
            0 <= q < post.valid_moves@.len() ==> post.valid_moves@[q] == move_ok(
                pre.board_size as nat,
                post.board@,
                hist_views(post.history@),
                opposite(stone),
                q,
            )
        &&& post.valid_moves@.len() == post.board@.len()
        &&& post.scores_current()
        &&& post.board_size == pre.board_size
        &&& post.komi == pre.komi
        &&& post.handicap == pre.handicap
    }

    /// Attempts to place `stone` on `pos` for the side to move.  On success
    /// the placement takes effect with its captures, the new position is
    /// recorded, the turn passes to the other colour, the pass counter
    /// resets, the legality mask is rebuilt for the other colour under the
    /// superko rule, and the scores are recomputed from the new board.  An
    /// attempt out of turn, out of bounds or on a forbidden cell is rejected
    /// unchanged.
    #[verifier::loop_isolation(false)]
    pub fn play(&mut self, stone: Stone, pos: usize) -> (r: Result<(), GameError>)
        requires
            old(self).wf(),
        ensures
            final(self).wf(),
            r is Ok <==> old(self).play_acceptable(stone, pos),
            r is Err ==> *final(self) == *old(self) && r == Err::<(), GameError>(GameError::Play),
            r is Ok ==> Game::play_rel(*old(self), *final(self), stone, pos),
    {
        let len = self.board.len();
        let turn_match = (stone == Stone::Black && matches!(self.turn, Turn::Black)) || (stone
            == Stone::White && matches!(self.turn, Turn::White));
        if pos < len && turn_match && self.valid_moves[pos] {
            let n = self.board_size;
            place_stone(n, &mut self.board, stone, pos);
            let snapshot = self.board.clone();
            proof {
                assert(snapshot@ =~= self.board@);
            }
            self.history.push(snapshot);
            self.turn = if stone == Stone::Black {
                Turn::White
            } else {
                Turn::Black
            };
            self.passes = 0;
            let next_stone = if stone == Stone::Black {
                Stone::White
            } else {
                Stone::Black
            };
            self.rebuild_valid_moves(next_stone);
            let scores = self.score();
            self.black_score = scores[0];
            self.white_score = scores[1];
            Ok(())
        } else {
            Err(GameError::Play)
        }
    }

    /// The game after `side` passes: on the second consecutive pass the game
    /// ends, otherwise the turn flips; out of turn nothing changes.
    pub open spec fn pass_result(self, side: Stone) -> Game {
        if self.side_to_move(side) {
            if self.passes + 1 == 2 {
                Game { passes: 2, turn: Turn::End, ..self }
            } else {
                Game {
                    passes: (self.passes + 1) as u32,
                    turn: if side == Stone::Black {
                        Turn::White
                    } else {
                        Turn::Black
                    },
                    ..self
                }
            }
        } else {
            self
        }
    }

    /// A pass by the side to move.  The second consecutive pass ends the
    /// game; otherwise the turn goes to the other colour.  Out of turn the
    /// pass is rejected unchanged.
    pub fn pass(&mut self, side: Stone) -> (r: Result<(), GameError>)
        requires
            old(self).wf(),
        ensures
            final(self).wf(),
            *final(self) == old(self).pass_result(side),
            r is Ok <==> old(self).side_to_move(side),
            r is Err ==> r == Err::<(), GameError>(GameError::Play),
    {
        let side_matches = (side == Stone::Black && matches!(self.turn, Turn::Black)) || (side
            == Stone::White && matches!(self.turn, Turn::White));
        if side_matches {
            self.passes += 1;
            if self.passes == 2 {
                self.turn = Turn::End;
            } else {
                match side {
                    Stone::Black => self.turn = Turn::White,
                    Stone::White => self.turn = Turn::Black,
                    Stone::Empty => (),
                }
            }
            Ok(())
        } else {
            Err(GameError::Play)
        }
    }

    /// What a completed resignation guarantees: the game ends, the opponent
    /// holds the full board area and the resigning side zero, and the rest
    /// is untouched.
    pub open spec fn resign_rel(pre: Game, post: Game, stone: Stone) -> bool {
        &&& post.turn == Turn::End
        &&& (stone == Stone::Black ==> post.black_score == 0 && post.white_score == pre.board_size
            * pre.board_size)
        &&& (stone == Stone::White ==> post.white_score == 0 && post.black_score == pre.board_size
            * pre.board_size)
        &&& post.board == pre.board
        &&& post.history == pre.history
        &&& post.valid_moves == pre.valid_moves
        &&& post.passes == pre.passes
        &&& post.board_size == pre.board_size
        &&& post.komi == pre.komi
        &&& post.handicap == pre.handicap
    }

    /// Resignation by the side to move: the opponent is awarded the full
    /// board area, the resigning side zero, and the game ends.  Out of turn
    /// the resignation is rejected unchanged.
    pub fn resign(&mut self, stone: Stone) -> (r: Result<(), GameError>)
        requires
            old(self).wf(),
        ensures
            final(self).wf(),
            r is Ok <==> old(self).side_to_move(stone),
            r is Err ==> *final(self) == *old(self) && r == Err::<(), GameError>(GameError::Play),
            r is Ok ==> Game::resign_rel(*old(self), *final(self), stone),
    {
        proof {
            assert(self.board_size * self.board_size <= 361) by (nonlinear_arith)
                requires
                    self.board_size <= 19,
            ;
        }
        if stone == Stone::Black && matches!(self.turn, Turn::Black) {
            self.black_score = 0;
            self.white_score = (self.board_size * self.board_size) as u32;
            self.turn = Turn::End;
            Ok(())
        } else if stone == Stone::White && matches!(self.turn, Turn::White) {
            self.white_score = 0;
            self.black_score = (self.board_size * self.board_size) as u32;
            self.turn = Turn::End;
            Ok(())
        } else {
            Err(GameError::Play)
        }
    }
}

} // verus!
