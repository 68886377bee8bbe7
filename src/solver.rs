//! The backtracking solver: fills the cells of a list of lines, one line at a
//! time, with rows from a candidate pool, and records every board on which all
//! the lines are filled.

use std::collections::HashSet;
use vstd::prelude::*;
use crate::rows::seq_sum;

verus! {

broadcast use vstd::std_specs::hash::group_hash_axioms;

/// The values placed anywhere on a board.
pub open spec fn placed_values(grid: Seq<Option<i32>>) -> Set<i32> {
    Set::new(|v: i32| grid.contains(Some(v)))
}

/// The number of cells of `line` that `row` speaks of: the shorter of the two.
pub open spec fn zip_len(line: Seq<usize>, row: Seq<i32>) -> nat {
    if line.len() <= row.len() {
        line.len()
    } else {
        row.len()
    }
}

/// `row` agrees with the board on `line`: at each position, either the cell is
/// empty and the row's value is not on the board yet, or the cell already
/// holds the row's value.
pub open spec fn fits(grid: Seq<Option<i32>>, line: Seq<usize>, row: Seq<i32>) -> bool {
    forall|p: int|
        0 <= p < zip_len(line, row) ==> {
            let cell = grid[#[trigger] line[p] as int];
            (cell is None && !grid.contains(Some(row[p]))) || cell == Some(row[p])
        }
}

/// The board after writing the first `n` values of `row` into the cells of
/// `line` that are still empty, in order.
pub open spec fn place(grid: Seq<Option<i32>>, line: Seq<usize>, row: Seq<i32>, n: nat) -> Seq<
    Option<i32>,
>
    decreases n,
{
    if n == 0 {
        grid
    } else {
        let g = place(grid, line, row, (n - 1) as nat);
        let j = line[n - 1] as int;
        if g[j] is None {
            g.update(j, Some(row[n - 1]))
        } else {
            g
        }
    }
}

/// The boards recorded while exploring line `i` of `lines` with the candidates
/// from index `k` on, starting from `grid`: for each candidate that fits, in
/// pool order, the boards found below it.
pub open spec fn search(
    grid: Seq<Option<i32>>,
    lines: Seq<Seq<usize>>,
    i: nat,
    pool: Seq<Seq<i32>>,
    k: nat,
) -> Seq<Seq<Option<i32>>>
    decreases lines.len() - i, pool.len() - k,
{
    if i >= lines.len() || k >= pool.len() {
        seq![]
    } else {
        let rest = search(grid, lines, i, pool, k + 1);
        if fits(grid, lines[i as int], pool[k as int]) {
            let next = place(grid, lines[i as int], pool[k as int], zip_len(lines[i as int], pool[k as int]));
            let found = if i + 1 == lines.len() {
                seq![next]
            } else {
                search(next, lines, i + 1, pool, 0)
            };
            found + rest
        } else {
            rest
        }
    }
}

/// Every completion of `grid` over lines `i..` of `lines`, in discovery order.
pub open spec fn solutions(
    grid: Seq<Option<i32>>,
    lines: Seq<Seq<usize>>,
    i: nat,
    pool: Seq<Seq<i32>>,
) -> Seq<Seq<Option<i32>>> {
    search(grid, lines, i, pool, 0)
}

/// Boards as sequences of cells.
pub open spec fn boards_view(boards: Seq<Vec<Option<i32>>>) -> Seq<Seq<Option<i32>>> {
    boards.map_values(|b: Vec<Option<i32>>| b@)
}

/// Lines as sequences of cell indices.
pub open spec fn lines_view(lines: Seq<Vec<usize>>) -> Seq<Seq<usize>> {
    lines.map_values(|l: Vec<usize>| l@)
}

/// Rows as sequences of values.
pub open spec fn pool_view(pool: Seq<Vec<i32>>) -> Seq<Seq<i32>> {
    pool.map_values(|r: Vec<i32>| r@)
}

/// Every cell index of every line lies on a board of `n` cells.
pub open spec fn lines_within(lines: Seq<Seq<usize>>, n: nat) -> bool {
    forall|m: int, p: int|
        0 <= m < lines.len() && 0 <= p < lines[m].len() ==> #[trigger] lines[m][p] < n
}

/// Whether `row` agrees with the board on `line`; `used` holds the values on
/// the board.
pub fn row_fits(grid: &Vec<Option<i32>>, used: &HashSet<i32>, line: &Vec<usize>, row: &Vec<i32>) -> (r:
    bool)
    requires
        used@ == placed_values(grid@),
        forall|p: int| 0 <= p < line.len() ==> #[trigger] line[p] < grid.len(),
    ensures
        r == fits(grid@, line@, row@),
{
    let n: usize = if line.len() <= row.len() {
        line.len()
    } else {
        row.len()
    };
    let mut p: usize = 0;
    while p < n
        invariant
            n == zip_len(line@, row@),
            p <= n,
            used@ == placed_values(grid@),
            forall|p: int| 0 <= p < line.len() ==> #[trigger] line[p] < grid.len(),
            forall|q: int|
                0 <= q < p ==> {
                    let cell = grid@[#[trigger] line@[q] as int];
                    (cell is None && !grid@.contains(Some(row@[q]))) || cell == Some(row@[q])
                },
        decreases n - p,
    {
        let num = row[p];
        let ok = match grid[line[p]] {
            None => !used.contains(&num),
            Some(v) => v == num,
        };
        if !ok {
            return false;
        }
        p = p + 1;
    }
    true
}


/// The board with the cells in `cells` emptied.
pub open spec fn clear(grid: Seq<Option<i32>>, cells: Seq<usize>) -> Seq<Option<i32>> {
    Seq::new(grid.len(), |j: int| if cells.contains(j as usize) { None } else { grid[j] })
}

/// The values that the board holds in the cells in `cells`.
pub open spec fn values_at(grid: Seq<Option<i32>>, cells: Seq<usize>) -> Set<i32> {
    Set::new(|v: i32| exists|r: int| 0 <= r < cells.len() && grid[#[trigger] cells[r] as int] == Some(v))
}

proof fn lemma_placed_insert(grid: Seq<Option<i32>>, j: int, v: i32)
    requires
        0 <= j < grid.len(),
        grid[j] is None,
    ensures
        placed_values(grid.update(j, Some(v))) == placed_values(grid).insert(v),
{
    let g2 = grid.update(j, Some(v));
    assert forall|x: i32| placed_values(g2).contains(x) <==> placed_values(grid).insert(v).contains(x) by {
        if g2.contains(Some(x)) {
            let n = choose|n: int| 0 <= n < g2.len() && g2[n] == Some(x);
            if n != j {
                assert(grid[n] == Some(x));
            }
        }
        if grid.contains(Some(x)) {
            let n = choose|n: int| 0 <= n < grid.len() && grid[n] == Some(x);
            assert(g2[n] == Some(x));
        }
        if x == v {
            assert(g2[j] == Some(x));
        }
    }
    assert(placed_values(g2) =~= placed_values(grid).insert(v));
}

/// Writes the values of `row` into the empty cells of `line`, recording them
/// in `used`; returns the cells written, in order.
fn place_row(grid: &mut Vec<Option<i32>>, used: &mut HashSet<i32>, line: &Vec<usize>, row: &Vec<i32>) -> (placed: Vec<usize>)
    requires
        old(used)@ == placed_values(old(grid)@),
        fits(old(grid)@, line@, row@),
        forall|p: int| 0 <= p < line.len() ==> #[trigger] line[p] < old(grid).len(),
    ensures
        final(grid)@ == place(old(grid)@, line@, row@, zip_len(line@, row@)),
        final(used)@ == placed_values(final(grid)@),
        final(grid).len() == old(grid).len(),
        placed@.no_duplicates(),
        forall|r: int|
            0 <= r < placed.len() ==> {
                &&& #[trigger] placed[r] < old(grid).len()
                &&& old(grid)@[placed[r] as int] is None
                &&& final(grid)@[placed[r] as int] is Some
                &&& !placed_values(old(grid)@).contains(final(grid)@[placed[r] as int]->0)
            },
        forall|j: int|
            0 <= j < old(grid).len() && !placed@.contains(j as usize) ==> final(grid)@[j] == old(grid)@[j],
{
    let ghost g0 = grid@;
    let n: usize = if line.len() <= row.len() {
        line.len()
    } else {
        row.len()
    };
    let mut placed: Vec<usize> = Vec::new();
    let mut p: usize = 0;
    while p < n
        invariant
            n == zip_len(line@, row@),
            p <= n,
            fits(g0, line@, row@),
            forall|p: int| 0 <= p < line.len() ==> #[trigger] line[p] < g0.len(),
            grid.len() == g0.len(),
            grid@ == place(g0, line@, row@, p as nat),
            used@ == placed_values(grid@),
            placed@.no_duplicates(),
            forall|r: int|
                0 <= r < placed.len() ==> {
                    &&& #[trigger] placed[r] < g0.len()
                    &&& g0[placed[r] as int] is None
                    &&& grid@[placed[r] as int] is Some
                    &&& !placed_values(g0).contains(grid@[placed[r] as int]->0)
                },
            forall|j: int| 0 <= j < g0.len() && !placed@.contains(j as usize) ==> grid@[j] == g0[j],
        decreases n - p,
    {
        let j = line[p];
        if grid[j].is_none() {
            let num = row[p];
            proof {
                if placed@.contains(j) {
                    let r = choose|r: int| 0 <= r < placed.len() && placed[r] == j;
                    assert(grid@[placed[r] as int] is Some);
                }
                assert(g0[j as int] is None);
                assert(line@[p as int] == j);
                assert(!g0.contains(Some(num)));
                lemma_placed_insert(grid@, j as int, num);
            }
            let ghost placed0 = placed@;
            grid.set(j, Some(num));
            used.insert(num);
            placed.push(j);
            proof {
                assert(placed@ == placed0.push(j));
                assert forall|r: int| 0 <= r < placed.len() implies {
                    &&& #[trigger] placed[r] < g0.len()
                    &&& g0[placed[r] as int] is None
                    &&& grid@[placed[r] as int] is Some
                    &&& !placed_values(g0).contains(grid@[placed[r] as int]->0)
                } by {
                    if r < placed.len() - 1 {
                        assert(placed[r] == placed0[r]);
                        assert(placed0[r] != j);
                    }
                }
                assert forall|jj: int| 0 <= jj < g0.len() && !placed@.contains(jj as usize) implies grid@[jj] == g0[jj] by {
                    assert(placed[placed.len() - 1] == j);
                    assert(jj != j as int);
                    assert(!placed0.contains(jj as usize)) by {
                        if placed0.contains(jj as usize) {
                            let r = choose|r: int| 0 <= r < placed0.len() && placed0[r] == jj as usize;
                            assert(placed[r] == jj as usize);
                        }
                    }
                }
            }
        }
        p = p + 1;
    }
    placed
}

/// Empties the cells in `placed` and takes their values out of `used`.
fn clear_cells(grid: &mut Vec<Option<i32>>, used: &mut HashSet<i32>, placed: &Vec<usize>)
    requires
        old(used)@ == placed_values(old(grid)@),
        placed@.no_duplicates(),
        forall|r: int|
            0 <= r < placed.len() ==> {
                &&& #[trigger] placed[r] < old(grid).len()
                &&& old(grid)@[placed[r] as int] is Some
                &&& !placed_values(clear(old(grid)@, placed@)).contains(old(grid)@[placed[r] as int]->0)
            },
    ensures
        final(grid)@ == clear(old(grid)@, placed@),
        final(used)@ == placed_values(final(grid)@),
{
    let ghost g = grid@;
    let ghost base = clear(g, placed@);
    let ghost all = values_at(g, placed@);
    let ghost mut removed: Set<i32> = Set::empty();
    proof {
        assert forall|x: i32| placed_values(g).contains(x) <==> placed_values(base).union(all.difference(removed)).contains(x) by {
            if g.contains(Some(x)) {
                let n = choose|n: int| 0 <= n < g.len() && g[n] == Some(x);
                if placed@.contains(#[verifier::truncate] (n as usize)) {
                    let r = choose|r: int| 0 <= r < placed.len() && placed[r] == n as usize;
                    assert(g[placed[r] as int] == Some(x));
                } else {
                    assert(base[n] == Some(x));
                }
            }
            if base.contains(Some(x)) {
                let n = choose|n: int| 0 <= n < base.len() && base[n] == Some(x);
                assert(g[n] == Some(x));
            }
            if all.contains(x) {
                let r = choose|r: int| 0 <= r < placed.len() && g[#[trigger] placed[r] as int] == Some(x);
                assert(g[placed[r] as int] == Some(x));
            }
        }
        assert(placed_values(g) =~= placed_values(base).union(all.difference(removed)));
        assert(placed@.take(0) =~= Seq::<usize>::empty());
        assert(clear(g, placed@.take(0)) =~= g);
    }
    let mut q: usize = 0;
    while q < placed.len()
        invariant
            q <= placed.len(),
            placed@.no_duplicates(),
            forall|r: int|
                0 <= r < placed.len() ==> {
                    &&& #[trigger] placed[r] < g.len()
                    &&& g[placed[r] as int] is Some
                    &&& !placed_values(base).contains(g[placed[r] as int]->0)
                },
            base == clear(g, placed@),
            all == values_at(g, placed@),
            grid@ == clear(g, placed@.take(q as int)),
            used@ == placed_values(base).union(all.difference(removed)),
            forall|r: int| 0 <= r < q ==> removed.contains(g[#[trigger] placed[r] as int]->0),
        decreases placed.len() - q,
    {
        let j = placed[q];
        proof {
            assert(!placed@.take(q as int).contains(j)) by {
                if placed@.take(q as int).contains(j) {
                    let r = choose|r: int| 0 <= r < q && placed@.take(q as int)[r] == j;
                    assert(placed[r] == placed[q as int]);
                }
            }
        }
        let v = grid[j].unwrap();
        used.remove(&v);
        grid.set(j, None);
        proof {
            assert(all.contains(v)) by {
                assert(g[placed[q as int] as int] == Some(v));
            }
            removed = removed.insert(v);
            assert(used@ =~= placed_values(base).union(all.difference(removed)));
            assert(placed@.take(q as int + 1) == placed@.take(q as int).push(j));
            let t0 = placed@.take(q as int);
            let t1 = placed@.take(q as int + 1);
            assert forall|jj: int| 0 <= jj < g.len() implies #[trigger] grid@[jj] == clear(g, t1)[jj] by {
                if jj == j as int {
                    assert(t1[q as int] == j);
                } else {
                    assert(jj < grid.len());
                    assert(t1[q as int] == j);
                    if t1.contains(jj as usize) {
                        let r = choose|r: int| 0 <= r < t1.len() && t1[r] == jj as usize;
                        assert(r != q as int);
                        assert(t0[r] == jj as usize);
                    }
                    if t0.contains(jj as usize) {
                        let r = choose|r: int| 0 <= r < t0.len() && t0[r] == jj as usize;
                        assert(t1[r] == jj as usize);
                    }
                }
            }
            assert(grid@ =~= clear(g, t1));
        }
        q = q + 1;
    }
    proof {
        assert(placed@.take(q as int) =~= placed@);
        assert(all.difference(removed) =~= Set::empty()) by {
            assert forall|x: i32| all.contains(x) implies removed.contains(x) by {
                let r = choose|r: int| 0 <= r < placed.len() && g[#[trigger] placed[r] as int] == Some(x);
            }
        }
        assert(used@ =~= placed_values(base));
    }
}

/// A copy of a board.
fn copy_board(grid: &Vec<Option<i32>>) -> (r: Vec<Option<i32>>)
    ensures
        r@ == grid@,
{
    let mut r: Vec<Option<i32>> = Vec::new();
    let mut j: usize = 0;
    while j < grid.len()
        invariant
            j <= grid.len(),
            r@ == grid@.take(j as int),
        decreases grid.len() - j,
    {
        r.push(grid[j]);
        j = j + 1;
        assert(r@ =~= grid@.take(j as int));
    }
    assert(grid@.take(j as int) =~= grid@);
    r
}

/// Explores line `i` of `indices` and the lines after it from the board
/// `grid`, where `used` holds the values on the board. Every way of filling
/// the remaining lines with rows of `candidates` that agree with the board is
/// tried, in pool order; each board on which the last line gets filled is
/// appended to `solns`. The board and `used` are left as they were found.
/// Returns whether `i` is past the last line, so that the caller records the
/// board it just completed.
pub fn solve(
    grid: &mut Vec<Option<i32>>,
    solns: &mut Vec<Vec<Option<i32>>>,
    indices: &[Vec<usize>],
    used: &mut HashSet<i32>,
    i: usize,
    candidates: &[Vec<i32>],
) -> (complete: bool)
    requires
        i <= indices.len(),
        old(used)@ == placed_values(old(grid)@),
        lines_within(lines_view(indices@), old(grid).len() as nat),
    ensures
        complete == (i == indices.len()),
        final(grid)@ == old(grid)@,
        final(used)@ == old(used)@,
        boards_view(final(solns)@) == boards_view(old(solns)@) + solutions(
            old(grid)@,
            lines_view(indices@),
            i as nat,
            pool_view(candidates@),
        ),
    decreases indices.len() - i,
{
    let ghost g0 = grid@;
    let ghost lines = lines_view(indices@);
    let ghost pool = pool_view(candidates@);
    if i == indices.len() {
        assert(boards_view(solns@) =~= boards_view(solns@) + solutions(g0, lines, i as nat, pool));
        return true;
    }
    let line = &indices[i];
    assert(line@ == lines[i as int]);
    let mut k: usize = 0;
    assert(boards_view(solns@) + search(g0, lines, i as nat, pool, 0) == boards_view(old(solns)@)
        + solutions(g0, lines, i as nat, pool));
    while k < candidates.len()
        invariant
            i < indices.len(),
            k <= candidates.len(),
            grid@ == g0,
            used@ == placed_values(g0),
            lines == lines_view(indices@),
            pool == pool_view(candidates@),
            lines_within(lines, g0.len()),
            line@ == lines[i as int],
            boards_view(solns@) + search(g0, lines, i as nat, pool, k as nat) == boards_view(
                old(solns)@,
            ) + solutions(g0, lines, i as nat, pool),
        decreases candidates.len() - k,
    {
        let row = &candidates[k];
        assert(row@ == pool[k as int]);
        let ghost s0 = boards_view(solns@);
        let ghost rest = search(g0, lines, i as nat, pool, k as nat + 1);
        if row_fits(grid, used, line, row) {
            let ghost next = place(g0, line@, row@, zip_len(line@, row@));
            let placed = place_row(grid, used, line, row);
            let complete = solve(grid, solns, indices, used, i + 1, candidates);
            if complete {
                let board = copy_board(grid);
                solns.push(board);
                assert(boards_view(solns@) =~= s0 + seq![next]);
            }
            assert(clear(next, placed@) =~= g0) by {
                assert forall|j: int| 0 <= j < g0.len() implies #[trigger] clear(next, placed@)[j] == g0[j] by {
                    if placed@.contains(j as usize) {
                        let r = choose|r: int| 0 <= r < placed.len() && placed[r] == j as usize;
                        assert(g0[placed[r] as int] is None);
                    }
                }
            }
            clear_cells(grid, used, &placed);
            let ghost found = if i + 1 == lines.len() {
                seq![next]
            } else {
                search(next, lines, i as nat + 1, pool, 0)
            };
            assert(boards_view(solns@) == s0 + found);
            assert(s0 + search(g0, lines, i as nat, pool, k as nat) == boards_view(solns@) + rest) by {
                assert(search(g0, lines, i as nat, pool, k as nat) == found + rest);
                assert(s0 + (found + rest) =~= (s0 + found) + rest);
            }
        }
        k = k + 1;
    }
    assert(search(g0, lines, i as nat, pool, k as nat) =~= Seq::<Seq<Option<i32>>>::empty());
    assert(boards_view(solns@) + search(g0, lines, i as nat, pool, k as nat) =~= boards_view(solns@));
    false
}

/// No value stands in two cells of the board.
pub open spec fn injective(grid: Seq<Option<i32>>) -> bool {
    forall|a: int, b: int|
        0 <= a < grid.len() && 0 <= b < grid.len() && a != b && #[trigger] grid[a] is Some ==> grid[a]
            != #[trigger] grid[b]
}

/// Every value on the board lies in `lo..=hi`.
pub open spec fn values_within(grid: Seq<Option<i32>>, lo: int, hi: int) -> bool {
    forall|j: int| 0 <= j < grid.len() && #[trigger] grid[j] is Some ==> lo <= grid[j]->0 <= hi
}

/// `b` keeps every value of `g`, cell by cell.
pub open spec fn extends(b: Seq<Option<i32>>, g: Seq<Option<i32>>) -> bool {
    &&& b.len() == g.len()
    &&& forall|j: int| 0 <= j < g.len() && #[trigger] g[j] is Some ==> b[j] == g[j]
}

/// The values in the cells of `line`, an empty cell read as 0.
pub open spec fn line_values(grid: Seq<Option<i32>>, line: Seq<usize>) -> Seq<i32> {
    Seq::new(line.len(), |p: int| if grid[line[p] as int] is Some { grid[line[p] as int]->0 } else { 0 })
}

/// Every cell of `line` is filled and their values sum to `target`.
pub open spec fn line_complete(grid: Seq<Option<i32>>, line: Seq<usize>, target: int) -> bool {
    &&& forall|p: int| 0 <= p < line.len() ==> grid[#[trigger] line[p] as int] is Some
    &&& seq_sum(line_values(grid, line)) == target
}

/// What the search needs of its lines and pool for its boards to be sound:
/// every line holds `len` distinct cells of the board; every row holds `len`
/// distinct values in `lo..=hi` summing to `target`.
pub open spec fn sound_setup(
    lines: Seq<Seq<usize>>,
    pool: Seq<Seq<i32>>,
    cells: nat,
    len: nat,
    lo: int,
    hi: int,
    target: int,
) -> bool {
    &&& lines_within(lines, cells)
    &&& forall|m: int| 0 <= m < lines.len() ==> (#[trigger] lines[m]).len() == len && lines[m].no_duplicates()
    &&& forall|k: int|
        0 <= k < pool.len() ==> {
            &&& (#[trigger] pool[k]).len() == len
            &&& pool[k].no_duplicates()
            &&& seq_sum(pool[k]) == target
            &&& forall|p: int| 0 <= p < len ==> lo <= #[trigger] pool[k][p] <= hi
        }
}

proof fn lemma_place_frame(grid: Seq<Option<i32>>, line: Seq<usize>, row: Seq<i32>, n: nat)
    requires
        n <= zip_len(line, row),
        forall|p: int| 0 <= p < line.len() ==> #[trigger] line[p] < grid.len(),
    ensures
        extends(place(grid, line, row, n), grid),
        forall|j: int|
            0 <= j < grid.len() && #[trigger] place(grid, line, row, n)[j] is Some && grid[j] is None
                ==> exists|p: int| 0 <= p < n && line[p] == j && place(grid, line, row, n)[j] == Some(#[trigger] row[p]),
    decreases n,
{
    if n > 0 {
        lemma_place_frame(grid, line, row, (n - 1) as nat);
        let g = place(grid, line, row, (n - 1) as nat);
        let j = line[n - 1] as int;
        assert forall|x: int|
            0 <= x < grid.len() && #[trigger] place(grid, line, row, n)[x] is Some && grid[x] is None
                implies exists|p: int| 0 <= p < n && line[p] == x && place(grid, line, row, n)[x] == Some(#[trigger] row[p]) by {
            if g[x] is None {
                assert(line[n - 1] == x);
                assert(row[n - 1] == row[n - 1]);
            } else {
                let p = choose|p: int| 0 <= p < n - 1 && line[p] == x && g[x] == Some(#[trigger] row[p]);
                assert(row[p] == row[p]);
            }
        }
    }
}

proof fn lemma_place_line(grid: Seq<Option<i32>>, line: Seq<usize>, row: Seq<i32>, n: nat)
    requires
        n <= zip_len(line, row),
        forall|p: int| 0 <= p < line.len() ==> #[trigger] line[p] < grid.len(),
        fits(grid, line, row),
        line.no_duplicates(),
    ensures
        forall|p: int| 0 <= p < n ==> place(grid, line, row, n)[#[trigger] line[p] as int] == Some(row[p]),
    decreases n,
{
    if n > 0 {
        lemma_place_line(grid, line, row, (n - 1) as nat);
        lemma_place_frame(grid, line, row, (n - 1) as nat);
        let g = place(grid, line, row, (n - 1) as nat);
        let j = line[n - 1] as int;
        if g[j] is Some {
            if grid[j] is None {
                let p = choose|p: int| 0 <= p < n - 1 && line[p] == j && g[j] == Some(#[trigger] row[p]);
                assert(line[p] == line[n - 1]);
            } else {
                assert(grid[line[n - 1] as int] is Some);
            }
        }
        assert forall|p: int| 0 <= p < n implies place(grid, line, row, n)[#[trigger] line[p] as int] == Some(row[p]) by {
            if p < n - 1 {
                assert(line[p] != line[n - 1]);
            }
        }
    }
}

proof fn lemma_place_injective(grid: Seq<Option<i32>>, line: Seq<usize>, row: Seq<i32>, n: nat)
    requires
        n <= zip_len(line, row),
        forall|p: int| 0 <= p < line.len() ==> #[trigger] line[p] < grid.len(),
        fits(grid, line, row),
        row.no_duplicates(),
        injective(grid),
    ensures
        injective(place(grid, line, row, n)),
    decreases n,
{
    if n > 0 {
        lemma_place_injective(grid, line, row, (n - 1) as nat);
        lemma_place_frame(grid, line, row, (n - 1) as nat);
        let g = place(grid, line, row, (n - 1) as nat);
        let j = line[n - 1] as int;
        if g[j] is None {
            let v = row[n - 1];
            assert(grid[line[n - 1] as int] is None);
            assert(!grid.contains(Some(v)));
            assert forall|x: int| 0 <= x < g.len() && x != j implies g[x] != Some(v) by {
                if g[x] == Some(v) {
                    if grid[x] is Some {
                        assert(grid[x] == Some(v));
                    } else {
                        let p = choose|p: int| 0 <= p < n - 1 && line[p] == x && g[x] == Some(#[trigger] row[p]);
                        assert(row[p] == row[n - 1]);
                    }
                }
            }
            let g2 = g.update(j, Some(v));
            assert forall|a: int, b: int|
                0 <= a < g2.len() && 0 <= b < g2.len() && a != b && #[trigger] g2[a] is Some implies g2[a]
                    != #[trigger] g2[b] by {
                if a != j && b != j {
                    assert(g[a] is Some);
                }
            }
        }
    }
}

/// A board that extends another, on a line that the other fills, holds the
/// same values there.
pub proof fn lemma_line_values_eq(b: Seq<Option<i32>>, g: Seq<Option<i32>>, line: Seq<usize>)
    requires
        forall|p: int| 0 <= p < line.len() ==> #[trigger] line[p] < g.len(),
        forall|p: int| 0 <= p < line.len() ==> g[#[trigger] line[p] as int] is Some,
        extends(b, g),
    ensures
        line_values(b, line) == line_values(g, line),
{
    assert forall|p: int| 0 <= p < line.len() implies #[trigger] line_values(b, line)[p] == line_values(g, line)[p] by {
        assert(g[line[p] as int] is Some);
    }
    assert(line_values(b, line) =~= line_values(g, line));
}

/// Every board that the search records keeps the values of the board it
/// started from, places no value twice, takes its values from the rows of
/// the pool, and has each line explored, that is line `i` and all after it,
/// filled with values summing to the target.
pub proof fn lemma_search_sound(
    grid: Seq<Option<i32>>,
    lines: Seq<Seq<usize>>,
    i: nat,
    pool: Seq<Seq<i32>>,
    k: nat,
    len: nat,
    lo: int,
    hi: int,
    target: int,
)
    requires
        sound_setup(lines, pool, grid.len(), len, lo, hi, target),
        injective(grid),
        values_within(grid, lo, hi),
    ensures
        forall|b: Seq<Option<i32>>|
            #[trigger] search(grid, lines, i, pool, k).contains(b) ==> {
                &&& extends(b, grid)
                &&& injective(b)
                &&& values_within(b, lo, hi)
                &&& forall|m: int| i <= m < lines.len() ==> line_complete(b, #[trigger] lines[m], target)
            },
    decreases lines.len() - i, pool.len() - k,
{
    if i >= lines.len() || k >= pool.len() {
    } else {
        lemma_search_sound(grid, lines, i, pool, k + 1, len, lo, hi, target);
        let line = lines[i as int];
        let row = pool[k as int];
        let rest = search(grid, lines, i, pool, k + 1);
        if fits(grid, line, row) {
            let n = zip_len(line, row);
            let next = place(grid, line, row, n);
            assert(forall|p: int| 0 <= p < line.len() ==> #[trigger] line[p] < grid.len());
            lemma_place_frame(grid, line, row, n);
            lemma_place_line(grid, line, row, n);
            lemma_place_injective(grid, line, row, n);
            assert(values_within(next, lo, hi)) by {
                assert forall|j: int| 0 <= j < next.len() && #[trigger] next[j] is Some implies lo <= next[j]->0 <= hi by {
                    if grid[j] is None {
                        let p = choose|p: int| 0 <= p < n && line[p] == j && next[j] == Some(#[trigger] row[p]);
                        assert(lo <= pool[k as int][p] <= hi);
                    }
                }
            }
            assert(line_complete(next, line, target)) by {
                assert(line_values(next, line) =~= row);
            }
            let found = if i + 1 == lines.len() {
                seq![next]
            } else {
                search(next, lines, i + 1, pool, 0)
            };
            if i + 1 < lines.len() {
                lemma_search_sound(next, lines, i + 1, pool, 0, len, lo, hi, target);
            }
            assert forall|b: Seq<Option<i32>>| #[trigger] found.contains(b) implies {
                &&& extends(b, grid)
                &&& injective(b)
                &&& values_within(b, lo, hi)
                &&& forall|m: int| i <= m < lines.len() ==> line_complete(b, #[trigger] lines[m], target)
            } by {
                if i + 1 == lines.len() {
                    assert(found[0] == next);
                    assert(b == next);
                } else {
                    assert(extends(b, next));
                    assert forall|m: int| i <= m < lines.len() implies line_complete(b, #[trigger] lines[m], target) by {
                        if m == i {
                            lemma_line_values_eq(b, next, line);
                        }
                    }
                }
            }
            assert forall|b: Seq<Option<i32>>| #[trigger] (found + rest).contains(b) implies found.contains(b)
                || rest.contains(b) by {
                let x = choose|x: int| 0 <= x < (found + rest).len() && (found + rest)[x] == b;
                if x < found.len() {
                    assert(found[x] == b);
                } else {
                    assert(rest[x - found.len()] == b);
                }
            }
        }
    }
}

} // verus!
