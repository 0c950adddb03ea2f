//! The board's structure as tables: cell names, groups, peers.

use vstd::prelude::*;
use vstd::string::StringExecFns;
use crate::layout::{
    box_of, col_of, group_cell, group_of, in_group, lemma_group_cell_coordinates,
    lemma_group_cell_on_board, lemma_group_mates_are_peers, lemma_group_of_holds,
    lemma_holding_group, lemma_peer_shares_group, lemma_peers_of, lemma_peers_upto_len, peer,
    peers_of, peers_upto, place_in_group, row_of,
};

verus! {

proof fn lemma_cross_index(ii: int, jj: int, i: int, j: int, n: int)
    by (nonlinear_arith)
    requires
        0 <= ii,
        0 <= jj < n,
        0 <= j <= n,
        ii < i || (ii == i && jj < j),
    ensures
        0 <= ii * n + jj < i * n + j,
        (i + 1) * n == i * n + n,
{
}

/// All pairs of a name from `xs` and a name from `ys`, joined, with `xs` in
/// the outer loop: `cross(["A", "B"], ["1", "2"])` is `["A1", "A2", "B1", "B2"]`.
pub fn cross(xs: &[&str], ys: &[&str]) -> (result: Vec<String>)
    ensures
        result@.len() == xs@.len() * ys@.len(),
        forall|i: int, j: int|
            #![trigger xs@[i], ys@[j]]
            0 <= i < xs@.len() && 0 <= j < ys@.len() ==> result@[i * ys@.len() + j]@ == xs@[i]@
                + ys@[j]@,
{
    let mut result: Vec<String> = Vec::new();
    let mut i: usize = 0;
    while i < xs.len()
        invariant
            0 <= i <= xs@.len(),
            result@.len() == i * ys@.len(),
            forall|ii: int, jj: int|
                #![trigger xs@[ii], ys@[jj]]
                0 <= ii < i && 0 <= jj < ys@.len() ==> result@[ii * ys@.len() + jj]@ == xs@[ii]@
                    + ys@[jj]@,
        decreases xs@.len() - i,
    {
        let mut j: usize = 0;
        while j < ys.len()
            invariant
                0 <= i < xs@.len(),
                0 <= j <= ys@.len(),
                result@.len() == i * ys@.len() + j,
                forall|ii: int, jj: int|
                    #![trigger xs@[ii], ys@[jj]]
                    0 <= ii && 0 <= jj < ys@.len() && (ii < i || (ii == i && jj < j))
                        ==> result@[ii * ys@.len() + jj]@ == xs@[ii]@ + ys@[jj]@,
            decreases ys@.len() - j,
        {
            let mut name = String::from_str(xs[i]);
            name.append(ys[j]);
            let ghost before = result@;
            result.push(name);
            proof {
                let n = ys@.len() as int;
                assert forall|ii: int, jj: int|
                    #![trigger xs@[ii], ys@[jj]]
                    0 <= ii && 0 <= jj < n && (ii < i || (ii == i && jj < j + 1))
                        implies result@[ii * n + jj]@ == xs@[ii]@ + ys@[jj]@ by {
                    if ii < i || (ii == i && jj < j) {
                        lemma_cross_index(ii, jj, i as int, j as int, n);
                        assert(result@[ii * n + jj] == before[ii * n + jj]);
                    } else {
                        assert(ii * n + jj == i * n + j);
                    }
                }
            }
            j = j + 1;
        }
        proof {
            assert((i + 1) * ys@.len() == i * ys@.len() + ys@.len()) by (nonlinear_arith);
        }
        i = i + 1;
    }
    result
}


/// The letters that name the rows, top to bottom.
pub open spec fn row_names() -> Seq<char> {
    seq!['A', 'B', 'C', 'D', 'E', 'F', 'G', 'H', 'I']
}

/// The digits that name the columns, left to right.
pub open spec fn column_names() -> Seq<char> {
    seq!['1', '2', '3', '4', '5', '6', '7', '8', '9']
}

/// The name of cell `c`: its row's letter, then its column's digit.
pub open spec fn cell_name(c: int) -> Seq<char> {
    seq![row_names()[c / 9], column_names()[c % 9]]
}

/// The nine cells of group `u`, in order.
pub open spec fn group_cells(u: int) -> Seq<int> {
    Seq::new(9, |i: int| group_cell(u, i))
}

/// The board's structure, as mathematics.
pub struct Topology {
    /// The names of the 81 cells, in row-major order.
    pub cells: Seq<Seq<char>>,
    /// The 27 groups: nine columns, nine rows, nine boxes.
    pub groups: Seq<Seq<int>>,
    /// For each cell, the three groups that hold it: column, row, box.
    pub cell_groups: Seq<Seq<Seq<int>>>,
    /// For each cell, its twenty peers in ascending order.
    pub peers: Seq<Seq<int>>,
}

/// The one topology of the classic board.
pub open spec fn topology() -> Topology {
    Topology {
        cells: Seq::new(81, |c: int| cell_name(c)),
        groups: Seq::new(27, |u: int| group_cells(u)),
        cell_groups: Seq::new(81, |c: int| Seq::new(3, |k: int| group_cells(group_of(c, k)))),
        peers: Seq::new(81, |c: int| peers_of(c)),
    }
}

/// A list of cells, as mathematics.
pub open spec fn cells_view(v: Seq<usize>) -> Seq<int> {
    Seq::new(v.len(), |i: int| v[i] as int)
}

/// A list of groups, as mathematics.
pub open spec fn groups_view(v: Seq<Vec<usize>>) -> Seq<Seq<int>> {
    Seq::new(v.len(), |u: int| cells_view(v[u]@))
}

/// The board's structure, computed once and then only read.
#[derive(Debug)]
pub struct State {
    cells: Vec<String>,
    groups: Vec<Vec<usize>>,
    cell_groups: Vec<Vec<Vec<usize>>>,
    peers: Vec<Vec<usize>>,
}

impl View for State {
    type V = Topology;

    closed spec fn view(&self) -> Topology {
        Topology {
            cells: Seq::new(self.cells@.len(), |c: int| self.cells@[c]@),
            groups: groups_view(self.groups@),
            cell_groups: Seq::new(self.cell_groups@.len(), |c: int| groups_view(self.cell_groups@[c]@)),
            peers: groups_view(self.peers@),
        }
    }
}

impl State {
    /// The tables hold the topology of the classic board.
    pub open spec fn wf(&self) -> bool {
        self@ == topology()
    }

    /// The names of the 81 cells, in row-major order.
    pub fn cells(&self) -> (r: &Vec<String>)
        requires
            self.wf(),
        ensures
            r@.len() == 81,
            forall|c: int| 0 <= c < 81 ==> (#[trigger] r@[c])@ == cell_name(c),
    {
        proof {
            assert(self@.cells.len() == topology().cells.len());
            assert forall|c: int| 0 <= c < 81 implies (#[trigger] self.cells@[c])@ == cell_name(c) by {
                assert(self@.cells[c] == topology().cells[c]);
            }
        }
        &self.cells
    }

    /// The 27 groups: nine columns, nine rows, nine boxes, each of nine
    /// cells.
    pub fn groups(&self) -> (r: &Vec<Vec<usize>>)
        requires
            self.wf(),
        ensures
            r@.len() == 27,
            forall|u: int| 0 <= u < 27 ==> (#[trigger] r@[u])@.len() == 9,
            forall|u: int, i: int|
                0 <= u < 27 && 0 <= i < 9 ==> #[trigger] r@[u]@[i] == group_cell(u, i),
    {
        proof {
            assert(self@.groups.len() == topology().groups.len());
            assert forall|u: int| 0 <= u < 27 implies (#[trigger] self.groups@[u])@.len() == 9 by {
                assert(self@.groups[u] == topology().groups[u]);
                assert(self@.groups[u].len() == 9);
            }
            assert forall|u: int, i: int| 0 <= u < 27 && 0 <= i < 9 implies #[trigger] self.groups@[u]@[i]
                == group_cell(u, i) by {
                assert(self@.groups[u] == topology().groups[u]);
                assert(self@.groups[u][i] == group_cell(u, i));
            }
        }
        &self.groups
    }

    /// The three groups that hold `cell`: its column, its row, its box.
    pub fn cell_groups(&self, cell: usize) -> (r: &Vec<Vec<usize>>)
        requires
            self.wf(),
            cell < 81,
        ensures
            r@.len() == 3,
            forall|k: int| 0 <= k < 3 ==> (#[trigger] r@[k])@.len() == 9,
            forall|k: int, i: int|
                0 <= k < 3 && 0 <= i < 9 ==> #[trigger] r@[k]@[i] == group_cell(
                    group_of(cell as int, k),
                    i,
                ),
    {
        proof {
            let c = cell as int;
            assert(self@.cell_groups.len() == topology().cell_groups.len());
            assert(self@.cell_groups[c] == topology().cell_groups[c]);
            assert(self@.cell_groups[c].len() == 3);
            assert forall|k: int| 0 <= k < 3 implies (#[trigger] self.cell_groups@[c]@[k])@.len()
                == 9 by {
                assert(self@.cell_groups[c][k].len() == 9);
            }
            assert forall|k: int, i: int| 0 <= k < 3 && 0 <= i < 9 implies #[trigger] self.cell_groups@[c]@[k]@[i]
                == group_cell(group_of(c, k), i) by {
                assert(self@.cell_groups[c][k][i] == group_cell(group_of(c, k), i));
            }
        }
        &self.cell_groups[cell]
    }

    /// The twenty peers of `cell`, in ascending order.
    pub fn peers(&self, cell: usize) -> (r: &Vec<usize>)
        requires
            self.wf(),
            cell < 81,
        ensures
            r@.len() == 20,
            forall|j: int| 0 <= j < 20 ==> #[trigger] r@[j] == peers_of(cell as int)[j],
            forall|j: int| 0 <= j < 20 ==> peer(cell as int, #[trigger] r@[j] as int),
    {
        proof {
            let c = cell as int;
            lemma_peers_of(c);
            assert(self@.peers.len() == topology().peers.len());
            assert(self@.peers[c] == topology().peers[c]);
            assert(self@.peers[c].len() == 20);
            assert forall|j: int| 0 <= j < 20 implies #[trigger] self.peers@[c]@[j] == peers_of(
                c,
            )[j] by {
                assert(self@.peers[c][j] == peers_of(c)[j]);
            }
        }
        &self.peers[cell]
    }

    /// The cell that `name` names, if it names one.
    pub fn cell_index(&self, name: &str) -> (r: Option<usize>)
        requires
            self.wf(),
        ensures
            match r {
                Some(c) => c < 81 && cell_name(c as int) == name@,
                None => forall|c: int| 0 <= c < 81 ==> cell_name(c) != name@,
            },
    {
        let cells = self.cells();
        let wanted = String::from_str(name);
        let mut c: usize = 0;
        while c < 81
            invariant
                0 <= c <= 81,
                cells@.len() == 81,
                wanted@ == name@,
                forall|x: int| 0 <= x < 81 ==> (#[trigger] cells@[x])@ == cell_name(x),
                forall|x: int| 0 <= x < c ==> cell_name(x) != name@,
            decreases 81 - c,
        {
            if cells[c] == wanted {
                return Some(c);
            }
            c = c + 1;
        }
        None
    }
}

/// All pairs of a row from `rows` and a column from `columns`, as cells, with
/// `rows` in the outer loop.
pub fn cross_cells(rows: &[usize], columns: &[usize]) -> (result: Vec<usize>)
    requires
        forall|i: int| 0 <= i < rows@.len() ==> rows@[i] < 9,
        forall|j: int| 0 <= j < columns@.len() ==> columns@[j] < 9,
    ensures
        result@.len() == rows@.len() * columns@.len(),
        forall|i: int, j: int|
            #![trigger rows@[i], columns@[j]]
            0 <= i < rows@.len() && 0 <= j < columns@.len() ==> result@[i * columns@.len() + j]
                == rows@[i] * 9 + columns@[j],
{
    let mut result: Vec<usize> = Vec::new();
    let mut i: usize = 0;
    while i < rows.len()
        invariant
            0 <= i <= rows@.len(),
            forall|i: int| 0 <= i < rows@.len() ==> rows@[i] < 9,
            forall|j: int| 0 <= j < columns@.len() ==> columns@[j] < 9,
            result@.len() == i * columns@.len(),
            forall|ii: int, jj: int|
                #![trigger rows@[ii], columns@[jj]]
                0 <= ii < i && 0 <= jj < columns@.len() ==> result@[ii * columns@.len() + jj]
                    == rows@[ii] * 9 + columns@[jj],
        decreases rows@.len() - i,
    {
        let mut j: usize = 0;
        while j < columns.len()
            invariant
                0 <= i < rows@.len(),
                0 <= j <= columns@.len(),
                forall|i: int| 0 <= i < rows@.len() ==> rows@[i] < 9,
                forall|j: int| 0 <= j < columns@.len() ==> columns@[j] < 9,
                result@.len() == i * columns@.len() + j,
                forall|ii: int, jj: int|
                    #![trigger rows@[ii], columns@[jj]]
                    0 <= ii && 0 <= jj < columns@.len() && (ii < i || (ii == i && jj < j))
                        ==> result@[ii * columns@.len() + jj] == rows@[ii] * 9 + columns@[jj],
            decreases columns@.len() - j,
        {
            let ghost before = result@;
            result.push(rows[i] * 9 + columns[j]);
            proof {
                let n = columns@.len() as int;
                assert forall|ii: int, jj: int|
                    #![trigger rows@[ii], columns@[jj]]
                    0 <= ii && 0 <= jj < n && (ii < i || (ii == i && jj < j + 1))
                        implies result@[ii * n + jj] == rows@[ii] * 9 + columns@[jj] by {
                    if ii < i || (ii == i && jj < j) {
                        lemma_cross_index(ii, jj, i as int, j as int, n);
                        assert(result@[ii * n + jj] == before[ii * n + jj]);
                    } else {
                        assert(ii * n + jj == i * n + j);
                    }
                }
            }
            j = j + 1;
        }
        proof {
            assert((i + 1) * columns@.len() == i * columns@.len() + columns@.len())
                by (nonlinear_arith);
        }
        i = i + 1;
    }
    result
}


/// The 27 groups: for each column its cells, for each row its cells, for
/// each box its cells.
fn all_groups() -> (groups: Vec<Vec<usize>>)
    ensures
        groups@.len() == 27,
        forall|u: int| 0 <= u < 27 ==> (#[trigger] groups@[u])@.len() == 9,
        forall|u: int, i: int|
            0 <= u < 27 && 0 <= i < 9 ==> #[trigger] groups@[u]@[i] == group_cell(u, i),
{
    let all: [usize; 9] = [0, 1, 2, 3, 4, 5, 6, 7, 8];
    let mut groups: Vec<Vec<usize>> = Vec::new();
    let mut c: usize = 0;
    while c < 9
        invariant
            0 <= c <= 9,
            all@ == seq![0usize, 1, 2, 3, 4, 5, 6, 7, 8],
            groups@.len() == c,
            forall|u: int| 0 <= u < c ==> (#[trigger] groups@[u])@.len() == 9,
            forall|u: int, i: int|
                0 <= u < c && 0 <= i < 9 ==> #[trigger] groups@[u]@[i] == group_cell(u, i),
        decreases 9 - c,
    {
        let one: [usize; 1] = [c];
        let group = cross_cells(&all, &one);
        proof {
            assert forall|i: int| 0 <= i < 9 implies #[trigger] group@[i] == group_cell(
                c as int,
                i,
            ) by {
                let r = all@[i];
                let k = one@[0];
                assert(i * 1 + 0 == i);
            }
        }
        groups.push(group);
        c = c + 1;
    }
    let mut r: usize = 0;
    while r < 9
        invariant
            0 <= r <= 9,
            all@ == seq![0usize, 1, 2, 3, 4, 5, 6, 7, 8],
            groups@.len() == 9 + r,
            forall|u: int| 0 <= u < 9 + r ==> (#[trigger] groups@[u])@.len() == 9,
            forall|u: int, i: int|
                0 <= u < 9 + r && 0 <= i < 9 ==> #[trigger] groups@[u]@[i] == group_cell(u, i),
        decreases 9 - r,
    {
        let one: [usize; 1] = [r];
        let group = cross_cells(&one, &all);
        proof {
            assert forall|i: int| 0 <= i < 9 implies #[trigger] group@[i] == group_cell(
                9 + r as int,
                i,
            ) by {
                let x = one@[0];
                let k = all@[i];
                assert(0 * 9 + i == i);
            }
        }
        groups.push(group);
        r = r + 1;
    }
    let mut band: usize = 0;
    while band < 3
        invariant
            0 <= band <= 3,
            groups@.len() == 18 + 3 * band,
            forall|u: int| 0 <= u < 18 + 3 * band ==> (#[trigger] groups@[u])@.len() == 9,
            forall|u: int, i: int|
                0 <= u < 18 + 3 * band && 0 <= i < 9 ==> #[trigger] groups@[u]@[i] == group_cell(
                    u,
                    i,
                ),
        decreases 3 - band,
    {
        let mut stack: usize = 0;
        while stack < 3
            invariant
                0 <= band < 3,
                0 <= stack <= 3,
                groups@.len() == 18 + 3 * band + stack,
                forall|u: int|
                    0 <= u < 18 + 3 * band + stack ==> (#[trigger] groups@[u])@.len() == 9,
                forall|u: int, i: int|
                    0 <= u < 18 + 3 * band + stack && 0 <= i < 9 ==> #[trigger] groups@[u]@[i]
                        == group_cell(u, i),
            decreases 3 - stack,
        {
            let rows: [usize; 3] = [3 * band, 3 * band + 1, 3 * band + 2];
            let columns: [usize; 3] = [3 * stack, 3 * stack + 1, 3 * stack + 2];
            let group = cross_cells(&rows, &columns);
            proof {
                let u = 18 + 3 * band + stack as int;
                assert forall|x: int| 0 <= x < 9 implies #[trigger] group@[x] == group_cell(
                    u,
                    x,
                ) by {
                    let i = x / 3;
                    let j = x % 3;
                    let a = rows@[i];
                    let b = columns@[j];
                    assert(i * 3 + j == x);
                }
            }
            groups.push(group);
            stack = stack + 1;
        }
        band = band + 1;
    }
    groups
}


/// `group` lists `cell`.
pub open spec fn holds_spec(group: Seq<usize>, cell: usize) -> bool {
    exists|i: int| 0 <= i < group.len() && group[i] == cell
}

/// Whether `group` lists `cell`.
fn holds(group: &Vec<usize>, cell: usize) -> (r: bool)
    ensures
        r == holds_spec(group@, cell),
{
    let mut i: usize = 0;
    while i < group.len()
        invariant
            0 <= i <= group@.len(),
            forall|x: int| 0 <= x < i ==> group@[x] != cell,
        decreases group@.len() - i,
    {
        if group[i] == cell {
            return true;
        }
        i = i + 1;
    }
    false
}

/// A copy of `group`.
fn copy_group(group: &Vec<usize>) -> (r: Vec<usize>)
    ensures
        r@ == group@,
{
    let mut r: Vec<usize> = Vec::new();
    let mut i: usize = 0;
    while i < group.len()
        invariant
            0 <= i <= group@.len(),
            r@ == group@.take(i as int),
        decreases group@.len() - i,
    {
        r.push(group[i]);
        proof {
            assert(r@ =~= group@.take(i + 1));
        }
        i = i + 1;
    }
    proof {
        assert(group@.take(group@.len() as int) =~= group@);
    }
    r
}

/// The groups among `groups` that list `cell`, in the order of `groups`.
fn groups_holding(groups: &Vec<Vec<usize>>, cell: usize) -> (mine: Vec<Vec<usize>>)
    requires
        cell < 81,
        groups@.len() == 27,
        forall|u: int| 0 <= u < 27 ==> (#[trigger] groups@[u])@.len() == 9,
        forall|u: int, i: int|
            0 <= u < 27 && 0 <= i < 9 ==> #[trigger] groups@[u]@[i] == group_cell(u, i),
    ensures
        mine@.len() == 3,
        forall|k: int| 0 <= k < 3 ==> (#[trigger] mine@[k])@.len() == 9,
        forall|k: int, i: int|
            0 <= k < 3 && 0 <= i < 9 ==> #[trigger] mine@[k]@[i] == group_cell(
                group_of(cell as int, k),
                i,
            ),
{
    let ghost c = cell as int;
    let mut mine: Vec<Vec<usize>> = Vec::new();
    let mut u: usize = 0;
    proof {
        lemma_group_of_holds(c, 0);
        lemma_group_of_holds(c, 1);
        lemma_group_of_holds(c, 2);
    }
    while u < 27
        invariant
            0 <= u <= 27,
            c == cell,
            0 <= c < 81,
            groups@.len() == 27,
            forall|u: int| 0 <= u < 27 ==> (#[trigger] groups@[u])@.len() == 9,
            forall|u: int, i: int|
                0 <= u < 27 && 0 <= i < 9 ==> #[trigger] groups@[u]@[i] == group_cell(u, i),
            mine@.len() == (if group_of(c, 0) < u { 1int } else { 0int }) + (if group_of(c, 1) < u {
                1int
            } else {
                0int
            }) + (if group_of(c, 2) < u { 1int } else { 0int }),
            forall|k: int| 0 <= k < mine@.len() ==> (#[trigger] mine@[k])@.len() == 9,
            forall|k: int, i: int|
                0 <= k < mine@.len() && 0 <= i < 9 ==> #[trigger] mine@[k]@[i] == group_cell(
                    group_of(c, k),
                    i,
                ),
        decreases 27 - u,
    {
        let found = holds(&groups[u], cell);
        proof {
            let k = if u < 9 {
                0int
            } else if u < 18 {
                1int
            } else {
                2int
            };
            lemma_group_of_holds(c, k);
            if found {
                let i = choose|i: int| 0 <= i < groups@[u as int]@.len() && groups@[u as int]@[i] == cell;
                assert(groups@[u as int]@[i] == group_cell(u as int, i));
                lemma_holding_group(u as int, i);
                assert(u == group_of(c, k));
            } else if u == group_of(c, k) {
                let i = place_in_group(c, k);
                assert(groups@[u as int]@[i] == group_cell(u as int, i));
                assert(false);
            }
        }
        if found {
            let group = copy_group(&groups[u]);
            mine.push(group);
        }
        u = u + 1;
    }
    mine
}

/// Two cells are peers exactly when they differ and one of the first cell's
/// three groups holds the second.
pub proof fn lemma_peer_by_groups(c: int, p: int)
    requires
        0 <= c < 81,
        0 <= p < 81,
    ensures
        peer(c, p) <==> c != p && exists|k: int, i: int|
            0 <= k < 3 && 0 <= i < 9 && #[trigger] group_cell(group_of(c, k), i) == p,
{
    if peer(c, p) {
        lemma_peer_shares_group(c, p);
        let k = choose|k: int| 0 <= k < 3 && #[trigger] group_of(c, k) == group_of(p, k);
        lemma_group_of_holds(p, k);
        assert(group_cell(group_of(c, k), place_in_group(p, k)) == p);
    }
    if c != p && exists|k: int, i: int|
        0 <= k < 3 && 0 <= i < 9 && #[trigger] group_cell(group_of(c, k), i) == p {
        let (k, i) = choose|k: int, i: int|
            0 <= k < 3 && 0 <= i < 9 && #[trigger] group_cell(group_of(c, k), i) == p;
        lemma_group_of_holds(c, k);
        lemma_group_mates_are_peers(group_of(c, k), place_in_group(c, k), i);
    }
}

/// The cells other than `cell` that the groups in `mine` list, in ascending
/// order and each once.
fn peers_among(mine: &Vec<Vec<usize>>, cell: usize) -> (peers: Vec<usize>)
    requires
        cell < 81,
        mine@.len() == 3,
        forall|k: int| 0 <= k < 3 ==> (#[trigger] mine@[k])@.len() == 9,
        forall|k: int, i: int|
            0 <= k < 3 && 0 <= i < 9 ==> #[trigger] mine@[k]@[i] == group_cell(
                group_of(cell as int, k),
                i,
            ),
    ensures
        cells_view(peers@) == peers_of(cell as int),
{
    let ghost c = cell as int;
    let mut peers: Vec<usize> = Vec::new();
    let mut p: usize = 0;
    while p < 81
        invariant
            0 <= p <= 81,
            c == cell,
            0 <= c < 81,
            mine@.len() == 3,
            forall|k: int| 0 <= k < 3 ==> (#[trigger] mine@[k])@.len() == 9,
            forall|k: int, i: int|
                0 <= k < 3 && 0 <= i < 9 ==> #[trigger] mine@[k]@[i] == group_cell(
                    group_of(c, k),
                    i,
                ),
            cells_view(peers@) == peers_upto(c, p as int),
        decreases 81 - p,
    {
        let found = p != cell && (holds(&mine[0], p) || holds(&mine[1], p) || holds(&mine[2], p));
        proof {
            lemma_peer_by_groups(c, p as int);
            if found {
                let k = if holds_spec(mine@[0]@, p) {
                    0int
                } else if holds_spec(mine@[1]@, p) {
                    1int
                } else {
                    2int
                };
                let i = choose|i: int| 0 <= i < 9 && mine@[k]@[i] == p;
                assert(group_cell(group_of(c, k), i) == p);
            } else if peer(c, p as int) {
                let (k, i) = choose|k: int, i: int|
                    0 <= k < 3 && 0 <= i < 9 && #[trigger] group_cell(group_of(c, k), i) == p;
                assert(mine@[k]@[i] == p);
                assert(holds_spec(mine@[k]@, p));
            }
            assert(found == peer(c, p as int));
        }
        if found {
            peers.push(p);
            proof {
                assert(cells_view(peers@) =~= peers_upto(c, p as int).push(p as int));
            }
        }
        p = p + 1;
    }
    peers
}

/// The board has 81 cells and 27 groups of nine cells. Every cell lies in
/// three groups and has twenty peers, and is not its own peer.
pub proof fn lemma_topology_counts()
    ensures
        topology().cells.len() == 81,
        topology().groups.len() == 27,
        forall|u: int| 0 <= u < 27 ==> (#[trigger] topology().groups[u]).len() == 9,
        topology().cell_groups.len() == 81,
        forall|c: int| 0 <= c < 81 ==> (#[trigger] topology().cell_groups[c]).len() == 3,
        forall|c: int, k: int|
            0 <= c < 81 && 0 <= k < 3 ==> (#[trigger] topology().cell_groups[c][k]).len() == 9,
        topology().peers.len() == 81,
        forall|c: int| 0 <= c < 81 ==> (#[trigger] topology().peers[c]).len() == 20,
        forall|c: int| 0 <= c < 81 ==> !(#[trigger] topology().peers[c]).contains(c),
{
    assert forall|c: int| 0 <= c < 81 implies (#[trigger] topology().peers[c]).len() == 20
        && !topology().peers[c].contains(c) by {
        lemma_peers_of(c);
    }
}

/// Computes the board's structure: the names of the cells, the groups, and
/// for each cell its three groups and its twenty peers.
pub fn init_stuff() -> (state: State)
    ensures
        state.wf(),
        state@.cells.len() == 81,
        state@.groups.len() == 27,
        forall|u: int| 0 <= u < 27 ==> (#[trigger] state@.groups[u]).len() == 9,
        forall|c: int| 0 <= c < 81 ==> (#[trigger] state@.cell_groups[c]).len() == 3,
        forall|c: int| 0 <= c < 81 ==> (#[trigger] state@.peers[c]).len() == 20,
        forall|c: int| 0 <= c < 81 ==> !(#[trigger] state@.peers[c]).contains(c),
{
    let rows: [&str; 9] = ["A", "B", "C", "D", "E", "F", "G", "H", "I"];
    let columns: [&str; 9] = ["1", "2", "3", "4", "5", "6", "7", "8", "9"];
    let cells = cross(&rows, &columns);
    proof {
        assert(rows@.len() * columns@.len() == 81) by (nonlinear_arith)
            requires
                rows@.len() == 9,
                columns@.len() == 9,
        ;
    }
    let groups = all_groups();
    let mut cell_groups: Vec<Vec<Vec<usize>>> = Vec::new();
    let mut peers: Vec<Vec<usize>> = Vec::new();
    let mut cell: usize = 0;
    while cell < 81
        invariant
            0 <= cell <= 81,
            groups@.len() == 27,
            forall|u: int| 0 <= u < 27 ==> (#[trigger] groups@[u])@.len() == 9,
            forall|u: int, i: int|
                0 <= u < 27 && 0 <= i < 9 ==> #[trigger] groups@[u]@[i] == group_cell(u, i),
            cell_groups@.len() == cell,
            peers@.len() == cell,
            forall|c: int| 0 <= c < cell ==> (#[trigger] cell_groups@[c])@.len() == 3,
            forall|c: int, k: int|
                0 <= c < cell && 0 <= k < 3 ==> (#[trigger] cell_groups@[c]@[k])@.len() == 9,
            forall|c: int, k: int, i: int|
                0 <= c < cell && 0 <= k < 3 && 0 <= i < 9 ==> #[trigger] cell_groups@[c]@[k]@[i]
                    == group_cell(group_of(c, k), i),
            forall|c: int| 0 <= c < cell ==> cells_view((#[trigger] peers@[c])@) == peers_of(c),
        decreases 81 - cell,
    {
        let mine = groups_holding(&groups, cell);
        let others = peers_among(&mine, cell);
        cell_groups.push(mine);
        peers.push(others);
        cell = cell + 1;
    }
    let state = State { cells, groups, cell_groups, peers };
    proof {
        reveal_strlit("A");
        reveal_strlit("B");
        reveal_strlit("C");
        reveal_strlit("D");
        reveal_strlit("E");
        reveal_strlit("F");
        reveal_strlit("G");
        reveal_strlit("H");
        reveal_strlit("I");
        reveal_strlit("1");
        reveal_strlit("2");
        reveal_strlit("3");
        reveal_strlit("4");
        reveal_strlit("5");
        reveal_strlit("6");
        reveal_strlit("7");
        reveal_strlit("8");
        reveal_strlit("9");
        let t = topology();
        assert(state@.cells =~= t.cells) by {
            assert(rows@.len() == 9);
            assert(columns@.len() == 9);
            assert(state.cells@.len() == 81);
            assert forall|c: int| 0 <= c < 81 implies state.cells@[c]@ == cell_name(c) by {
                let i = c / 9;
                let j = c % 9;
                let a = rows@[i];
                let b = columns@[j];
                assert(i * 9 + j == c);
                assert(rows@[i]@ =~= seq![row_names()[i]]);
                assert(columns@[j]@ =~= seq![column_names()[j]]);
                assert(state.cells@[c]@ =~= cell_name(c));
            }
        }
        assert(state@.groups =~~= t.groups);
        assert(state@.cell_groups =~~= t.cell_groups);
        assert(state@.peers =~~= t.peers);
        lemma_topology_counts();
    }
    state
}

} // verus!
