//! The geometry of the 9x9 board, as pure mathematics.
//!
//! Cells are numbered 0..81 in row-major order, groups 0..27: first the nine
//! columns, then the nine rows, then the nine boxes. Everything here is a
//! specification; the executable tables live in `topology`.

use vstd::prelude::*;

verus! {

/// Row (0..9) of cell `c`.
pub open spec fn row_of(c: int) -> int {
    c / 9
}

/// Column (0..9) of cell `c`.
pub open spec fn col_of(c: int) -> int {
    c % 9
}

/// Box (0..9, numbered left to right, top to bottom) of cell `c`.
pub open spec fn box_of(c: int) -> int {
    c / 27 * 3 + c % 9 / 3
}

/// The `i`-th cell of group `u`.
///
/// Groups 0..9 are the columns, each listed top to bottom; groups 9..18 are
/// the rows, each listed left to right; groups 18..27 are the boxes, each
/// listed row by row.
pub open spec fn group_cell(u: int, i: int) -> int {
    if u < 9 {
        i * 9 + u
    } else if u < 18 {
        (u - 9) * 9 + i
    } else {
        ((u - 18) / 3 * 3 + i / 3) * 9 + (u - 18) % 3 * 3 + i % 3
    }
}

/// The `k`-th of the three groups that hold cell `c`: its column, its row,
/// its box.
pub open spec fn group_of(c: int, k: int) -> int {
    if k == 0 {
        col_of(c)
    } else if k == 1 {
        9 + row_of(c)
    } else {
        18 + box_of(c)
    }
}

/// Position of cell `c` inside its `k`-th group.
pub open spec fn place_in_group(c: int, k: int) -> int {
    if k == 0 {
        row_of(c)
    } else if k == 1 {
        col_of(c)
    } else {
        c / 9 % 3 * 3 + c % 3
    }
}

/// Group `u` holds cell `c`.
pub open spec fn in_group(u: int, c: int) -> bool {
    exists|i: int| 0 <= i < 9 && group_cell(u, i) == c
}

/// `p` is a peer of `c`: another cell in the same row, column or box.
pub open spec fn peer(c: int, p: int) -> bool {
    &&& 0 <= c < 81
    &&& 0 <= p < 81
    &&& c != p
    &&& (row_of(c) == row_of(p) || col_of(c) == col_of(p) || box_of(c) == box_of(p))
}

/// The peers of `c` among the cells below `n`, in ascending order.
pub open spec fn peers_upto(c: int, n: int) -> Seq<int>
    decreases n,
{
    if n <= 0 {
        Seq::empty()
    } else if peer(c, n - 1) {
        peers_upto(c, n - 1).push(n - 1)
    } else {
        peers_upto(c, n - 1)
    }
}

/// The peers of `c`, in ascending order.
pub open spec fn peers_of(c: int) -> Seq<int> {
    peers_upto(c, 81)
}

/// Every cell of every group is on the board.
pub proof fn lemma_group_cell_on_board(u: int, i: int)
    requires
        0 <= u < 27,
        0 <= i < 9,
    ensures
        0 <= group_cell(u, i) < 81,
{
}

/// A group lists nine different cells.
pub proof fn lemma_group_cells_differ(u: int, i: int, j: int)
    requires
        0 <= u < 27,
        0 <= i < 9,
        0 <= j < 9,
        i != j,
    ensures
        group_cell(u, i) != group_cell(u, j),
{
}

/// Each of a cell's three groups holds it, at `place_in_group`.
pub proof fn lemma_group_of_holds(c: int, k: int)
    requires
        0 <= c < 81,
        0 <= k < 3,
    ensures
        0 <= group_of(c, k) < 27,
        0 <= place_in_group(c, k) < 9,
        group_cell(group_of(c, k), place_in_group(c, k)) == c,
        in_group(group_of(c, k), c),
{
}

/// A group that holds a cell is one of the cell's three groups.
pub proof fn lemma_holding_group(u: int, i: int)
    requires
        0 <= u < 27,
        0 <= i < 9,
    ensures
        u == group_of(group_cell(u, i), if u < 9 { 0int } else if u < 18 { 1int } else { 2int }),
{
}

/// Row, column and box of the `i`-th cell of group `u`.
pub proof fn lemma_group_cell_coordinates(u: int, i: int)
    requires
        0 <= u < 27,
        0 <= i < 9,
    ensures
        0 <= group_cell(u, i) < 81,
        u < 9 ==> row_of(group_cell(u, i)) == i && col_of(group_cell(u, i)) == u,
        9 <= u < 18 ==> row_of(group_cell(u, i)) == u - 9 && col_of(group_cell(u, i)) == i,
        18 <= u ==> row_of(group_cell(u, i)) == (u - 18) / 3 * 3 + i / 3,
        18 <= u ==> col_of(group_cell(u, i)) == (u - 18) % 3 * 3 + i % 3,
        18 <= u ==> box_of(group_cell(u, i)) == u - 18,
{
}

/// Two different cells of one group are peers.
pub proof fn lemma_group_mates_are_peers(u: int, i: int, j: int)
    requires
        0 <= u < 27,
        0 <= i < 9,
        0 <= j < 9,
        i != j,
    ensures
        peer(group_cell(u, i), group_cell(u, j)),
{
    lemma_group_cell_coordinates(u, i);
    lemma_group_cell_coordinates(u, j);
}

/// A peer of a cell sits in one of the cell's three groups.
pub proof fn lemma_peer_shares_group(c: int, p: int)
    requires
        peer(c, p),
    ensures
        exists|k: int| 0 <= k < 3 && #[trigger] group_of(c, k) == group_of(p, k),
{
    if col_of(c) == col_of(p) {
        assert(group_of(c, 0) == group_of(p, 0));
    } else if row_of(c) == row_of(p) {
        assert(group_of(c, 1) == group_of(p, 1));
    } else {
        assert(group_of(c, 2) == group_of(p, 2));
    }
}

/// `x` held between 0 and 3.
pub open spec fn upto_three(x: int) -> int {
    if x < 0 {
        0
    } else if x > 3 {
        3
    } else {
        x
    }
}

/// How many peers of `c` lie below cell `n`.
///
/// Whole rows below `n` count 8 for the row of `c`, 3 for the two other rows
/// of its band and 1 for every other row; the row that `n` cuts counts what
/// lies left of `n`.
pub open spec fn peers_below(c: int, n: int) -> int {
    let r = c / 9;
    let k = c % 9;
    let band = r / 3 * 3;
    let stack = k / 3 * 3;
    let rows = n / 9;
    let cols = n % 9;
    let whole = rows + (if r < rows { 5int } else { 0int }) + 2 * upto_three(rows - band);
    let cut = if rows == r {
        cols - (if k < cols { 1int } else { 0int })
    } else if band <= rows < band + 3 {
        upto_three(cols - stack)
    } else if k < cols {
        1int
    } else {
        0int
    };
    whole + cut
}

/// The list of peers below `n` is as long as `peers_below` says.
pub proof fn lemma_peers_upto_len(c: int, n: int)
    requires
        0 <= c < 81,
        0 <= n <= 81,
    ensures
        peers_upto(c, n).len() == peers_below(c, n),
    decreases n,
{
    if n > 0 {
        lemma_peers_upto_len(c, n - 1);
        let m = n - 1;
        assert(peers_below(c, n) == peers_below(c, m) + if peer(c, m) { 1int } else { 0int }) by {
            lemma_peers_below_step(c, m);
        }
    }
}

proof fn lemma_peers_below_step(c: int, m: int)
    requires
        0 <= c < 81,
        0 <= m < 81,
    ensures
        peers_below(c, m + 1) == peers_below(c, m) + if peer(c, m) { 1int } else { 0int },
{
    let r = c / 9;
    let k = c % 9;
    let pr = m / 9;
    let pk = m % 9;
    assert(c == r * 9 + k);
    assert(m == pr * 9 + pk);
    if pk < 8 {
        assert((m + 1) / 9 == pr && (m + 1) % 9 == pk + 1);
    } else {
        assert((m + 1) / 9 == pr + 1 && (m + 1) % 9 == 0);
    }
    assert(box_of(c) == box_of(m) <==> (r / 3 == pr / 3 && k / 3 == pk / 3));
}

/// Every cell has exactly twenty peers.
pub proof fn lemma_twenty_peers(c: int)
    requires
        0 <= c < 81,
    ensures
        peers_of(c).len() == 20,
{
    lemma_peers_upto_len(c, 81);
}

/// The list of peers below `n` holds exactly the peers below `n`, in
/// ascending order.
pub proof fn lemma_peers_upto_members(c: int, n: int)
    requires
        0 <= n <= 81,
    ensures
        forall|j: int|
            0 <= j < peers_upto(c, n).len() ==> 0 <= #[trigger] peers_upto(c, n)[j] < n && peer(
                c,
                peers_upto(c, n)[j],
            ),
        forall|p: int| 0 <= p < n && peer(c, p) ==> peers_upto(c, n).contains(p),
        forall|i: int, j: int|
            0 <= i < j < peers_upto(c, n).len() ==> peers_upto(c, n)[i] < peers_upto(c, n)[j],
    decreases n,
{
    if n > 0 {
        lemma_peers_upto_members(c, n - 1);
        let before = peers_upto(c, n - 1);
        let now = peers_upto(c, n);
        if peer(c, n - 1) {
            assert(now[now.len() - 1] == n - 1);
            assert forall|p: int| 0 <= p < n && peer(c, p) implies now.contains(p) by {
                if p < n - 1 {
                    let j = choose|j: int| 0 <= j < before.len() && before[j] == p;
                    assert(now[j] == p);
                } else {
                    assert(now[now.len() - 1] == p);
                }
            }
        }
    }
}

/// The peers of a cell: twenty cells in ascending order, each a peer, every
/// peer among them, the cell itself not.
pub proof fn lemma_peers_of(c: int)
    requires
        0 <= c < 81,
    ensures
        peers_of(c).len() == 20,
        forall|j: int| 0 <= j < 20 ==> peer(c, #[trigger] peers_of(c)[j]),
        forall|p: int| peer(c, p) ==> peers_of(c).contains(p),
        forall|i: int, j: int| 0 <= i < j < 20 ==> peers_of(c)[i] < peers_of(c)[j],
        !peers_of(c).contains(c),
{
    lemma_twenty_peers(c);
    lemma_peers_upto_members(c, 81);
}

} // verus!
