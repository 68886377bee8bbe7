//! The hexagon of 19 cells, its 15 lines, and the three-stage search over
//! them: the outer ring first, then the inner ring, then the three lines
//! through the centre.

use std::collections::HashSet;
use vstd::prelude::*;
use crate::rows::{generate_valid_rows, is_arrangement, rows_view, seq_sum, valid_rows};
use crate::solver::{
    boards_view, injective, lemma_line_values_eq, lemma_search_sound, line_complete,
    lines_view, lines_within, placed_values, pool_view, solutions, solve, sound_setup,
    values_within,
};

verus! {

broadcast use vstd::std_specs::hash::group_hash_axioms;

/// The sum that every line must reach.
pub const MAGIC: i32 = 38;

/// The number of cells of the hexagon.
pub const CELLS: usize = 19;

/// The values 1 to 19.
pub open spec fn domain_spec() -> Seq<i32> {
    Seq::new(19, |n: int| (n + 1) as i32)
}

/// A board with every cell empty.
pub open spec fn empty_board() -> Seq<Option<i32>> {
    Seq::new(19, |n: int| None)
}

/// The six lines of three cells along the border.
pub open spec fn outer_ring_spec() -> Seq<Seq<usize>> {
    seq![
        seq![0usize, 1, 2],
        seq![2usize, 6, 11],
        seq![11usize, 15, 18],
        seq![18usize, 17, 16],
        seq![16usize, 12, 7],
        seq![7usize, 3, 0],
    ]
}

/// The six lines of four cells.
pub open spec fn inner_ring_spec() -> Seq<Seq<usize>> {
    seq![
        seq![3usize, 4, 5, 6],
        seq![12usize, 13, 14, 15],
        seq![3usize, 8, 13, 17],
        seq![1usize, 5, 10, 15],
        seq![1usize, 4, 8, 12],
        seq![6usize, 10, 14, 17],
    ]
}

/// The three lines of five cells through the centre.
pub open spec fn centre_spec() -> Seq<Seq<usize>> {
    seq![seq![0usize, 4, 9, 14, 18], seq![2usize, 5, 9, 13, 16], seq![7usize, 8, 9, 10, 11]]
}

/// All 15 lines of the hexagon.
pub open spec fn all_lines() -> Seq<Seq<usize>> {
    outer_ring_spec() + inner_ring_spec() + centre_spec()
}

/// The boards found by running the search on each seed in turn, concatenated.
pub open spec fn extend_all(
    seeds: Seq<Seq<Option<i32>>>,
    lines: Seq<Seq<usize>>,
    pool: Seq<Seq<i32>>,
) -> Seq<Seq<Option<i32>>>
    decreases seeds.len(),
{
    if seeds.len() == 0 {
        seq![]
    } else {
        extend_all(seeds.drop_last(), lines, pool) + solutions(seeds.last(), lines, 0, pool)
    }
}

/// The outer rings that the first stage finds.
pub open spec fn outer_stage() -> Seq<Seq<Option<i32>>> {
    solutions(empty_board(), outer_ring_spec(), 0, valid_rows(domain_spec(), 3, MAGIC))
}

/// The boards with both rings filled that the second stage finds.
pub open spec fn inner_stage() -> Seq<Seq<Option<i32>>> {
    extend_all(outer_stage(), inner_ring_spec(), valid_rows(domain_spec(), 4, MAGIC))
}

/// The complete boards that the third stage finds.
pub open spec fn final_stage() -> Seq<Seq<Option<i32>>> {
    extend_all(inner_stage(), centre_spec(), valid_rows(domain_spec(), 5, MAGIC))
}

/// The boards found after each stage of the search.
pub struct Stages {
    pub outer_rings: Vec<Vec<Option<i32>>>,
    pub inner_rings: Vec<Vec<Option<i32>>>,
    pub solutions: Vec<Vec<Option<i32>>>,
}

/// The values 1 to 19, in increasing order.
pub fn domain() -> (r: Vec<i32>)
    ensures
        r@ == domain_spec(),
{
    let mut r: Vec<i32> = Vec::new();
    let mut v: i32 = 1;
    while v <= 19
        invariant
            1 <= v <= 20,
            r@ == domain_spec().take(v - 1),
        decreases 20 - v,
    {
        r.push(v);
        v = v + 1;
        assert(r@ =~= domain_spec().take(v - 1));
    }
    assert(r@ =~= domain_spec());
    r
}

/// The lines of the outer ring.
pub fn outer_ring() -> (r: Vec<Vec<usize>>)
    ensures
        lines_view(r@) == outer_ring_spec(),
{
    let r = vec![
        vec![0usize, 1, 2],
        vec![2usize, 6, 11],
        vec![11usize, 15, 18],
        vec![18usize, 17, 16],
        vec![16usize, 12, 7],
        vec![7usize, 3, 0],
    ];
    assert(lines_view(r@) =~= outer_ring_spec());
    r
}

/// The lines of the inner ring.
pub fn inner_ring() -> (r: Vec<Vec<usize>>)
    ensures
        lines_view(r@) == inner_ring_spec(),
{
    let r = vec![
        vec![3usize, 4, 5, 6],
        vec![12usize, 13, 14, 15],
        vec![3usize, 8, 13, 17],
        vec![1usize, 5, 10, 15],
        vec![1usize, 4, 8, 12],
        vec![6usize, 10, 14, 17],
    ];
    assert(lines_view(r@) =~= inner_ring_spec());
    r
}

/// The lines through the centre.
pub fn centre_lines() -> (r: Vec<Vec<usize>>)
    ensures
        lines_view(r@) == centre_spec(),
{
    let r = vec![vec![0usize, 4, 9, 14, 18], vec![2usize, 5, 9, 13, 16], vec![7usize, 8, 9, 10, 11]];
    assert(lines_view(r@) =~= centre_spec());
    r
}

/// The set of values placed on a board.
pub fn used_values(grid: &Vec<Option<i32>>) -> (r: HashSet<i32>)
    ensures
        r@ == placed_values(grid@),
{
    let mut r: HashSet<i32> = HashSet::new();
    let mut j: usize = 0;
    while j < grid.len()
        invariant
            j <= grid.len(),
            r@ == placed_values(grid@.take(j as int)),
        decreases grid.len() - j,
    {
        let ghost before = grid@.take(j as int);
        if let Some(v) = grid[j] {
            r.insert(v);
        }
        j = j + 1;
        proof {
            let now = grid@.take(j as int);
            assert(now =~= before.push(grid@[j - 1]));
            assert forall|x: i32| placed_values(now).contains(x) <==> #[trigger] r@.contains(x) by {
                if now.contains(Some(x)) {
                    let n = choose|n: int| 0 <= n < now.len() && now[n] == Some(x);
                    if n < before.len() {
                        assert(before[n] == Some(x));
                    }
                }
                if before.contains(Some(x)) {
                    let n = choose|n: int| 0 <= n < before.len() && before[n] == Some(x);
                    assert(now[n] == Some(x));
                }
                if grid@[j - 1] == Some(x) {
                    assert(now[j - 1] == Some(x));
                }
            }
            assert(r@ =~= placed_values(now));
        }
    }
    assert(grid@.take(j as int) =~= grid@);
    r
}

/// A solved hexagon: every cell holds a value from 1 to 19, no value twice,
/// and each of the 15 lines sums to 38.
pub open spec fn is_magic_hexagon(b: Seq<Option<i32>>) -> bool {
    &&& b.len() == CELLS
    &&& forall|j: int| 0 <= j < CELLS ==> #[trigger] b[j] is Some && 1 <= b[j]->0 <= 19
    &&& injective(b)
    &&& forall|m: int| 0 <= m < all_lines().len() ==> line_complete(b, #[trigger] all_lines()[m], MAGIC as int)
}

/// What holds of each board of a stage: 19 cells, distinct values from 1 to
/// 19, and each line in `done` complete.
pub open spec fn stage_board(b: Seq<Option<i32>>, done: Seq<Seq<usize>>) -> bool {
    &&& b.len() == CELLS
    &&& injective(b)
    &&& values_within(b, 1, 19)
    &&& forall|m: int| 0 <= m < done.len() ==> line_complete(b, #[trigger] done[m], MAGIC as int)
}

proof fn lemma_extend_all_member(
    seeds: Seq<Seq<Option<i32>>>,
    lines: Seq<Seq<usize>>,
    pool: Seq<Seq<i32>>,
    b: Seq<Option<i32>>,
)
    requires
        extend_all(seeds, lines, pool).contains(b),
    ensures
        exists|n: int| 0 <= n < seeds.len() && #[trigger] solutions(seeds[n], lines, 0, pool).contains(b),
    decreases seeds.len(),
{
    if seeds.len() > 0 {
        let front = extend_all(seeds.drop_last(), lines, pool);
        let back = solutions(seeds.last(), lines, 0, pool);
        let x = choose|x: int| 0 <= x < (front + back).len() && (front + back)[x] == b;
        if x < front.len() {
            assert(front[x] == b);
            lemma_extend_all_member(seeds.drop_last(), lines, pool, b);
            let n = choose|n: int| 0 <= n < seeds.drop_last().len() && #[trigger] solutions(seeds.drop_last()[n], lines, 0, pool).contains(b);
            assert(seeds.drop_last()[n] == seeds[n]);
        } else {
            assert(back[x - front.len()] == b);
            assert(solutions(seeds[seeds.len() - 1], lines, 0, pool).contains(b));
        }
    }
}

/// Each stage keeps the lines that earlier stages completed and completes
/// its own.
proof fn lemma_stage_sound(
    seeds: Seq<Seq<Option<i32>>>,
    done: Seq<Seq<usize>>,
    lines: Seq<Seq<usize>>,
    pool: Seq<Seq<i32>>,
    len: nat,
)
    requires
        sound_setup(lines, pool, CELLS as nat, len, 1, 19, MAGIC as int),
        lines_within(done, CELLS as nat),
        forall|n: int| 0 <= n < seeds.len() ==> stage_board(#[trigger] seeds[n], done),
    ensures
        forall|b: Seq<Option<i32>>| #[trigger] extend_all(seeds, lines, pool).contains(b) ==> stage_board(b, done + lines),
{
    assert forall|b: Seq<Option<i32>>| #[trigger] extend_all(seeds, lines, pool).contains(b) implies stage_board(b, done + lines) by {
        lemma_extend_all_member(seeds, lines, pool, b);
        let n = choose|n: int| 0 <= n < seeds.len() && #[trigger] solutions(seeds[n], lines, 0, pool).contains(b);
        let seed = seeds[n];
        assert(stage_board(seed, done));
        lemma_search_sound(seed, lines, 0, pool, 0, len, 1, 19, MAGIC as int);
        assert forall|m: int| 0 <= m < (done + lines).len() implies line_complete(b, #[trigger] (done + lines)[m], MAGIC as int) by {
            if m < done.len() {
                assert((done + lines)[m] == done[m]);
                assert(line_complete(seed, done[m], MAGIC as int));
                assert(forall|p: int| 0 <= p < done[m].len() ==> #[trigger] done[m][p] < seed.len());
                lemma_line_values_eq(b, seed, done[m]);
            } else {
                assert((done + lines)[m] == lines[m - done.len()]);
            }
        }
    }
}

/// Rows drawn from 1..=19 without repetition, of length `len`, summing to 38,
/// make a sound pool for lines of `len` distinct cells of the board.
proof fn lemma_setup(lines: Seq<Seq<usize>>, rows: Seq<Seq<i32>>, len: nat)
    requires
        lines_within(lines, CELLS as nat),
        forall|m: int| 0 <= m < lines.len() ==> (#[trigger] lines[m]).len() == len && lines[m].no_duplicates(),
        forall|s: Seq<i32>| #[trigger] rows.contains(s) <==> is_arrangement(s, domain_spec(), len) && seq_sum(s) == MAGIC,
    ensures
        sound_setup(lines, rows, CELLS as nat, len, 1, 19, MAGIC as int),
{
    assert forall|k: int| 0 <= k < rows.len() implies {
        &&& (#[trigger] rows[k]).len() == len
        &&& rows[k].no_duplicates()
        &&& seq_sum(rows[k]) == MAGIC as int
        &&& forall|p: int| 0 <= p < len ==> 1 <= #[trigger] rows[k][p] <= 19
    } by {
        assert(rows.contains(rows[k]));
        assert forall|p: int| 0 <= p < len implies 1 <= #[trigger] rows[k][p] <= 19 by {
            assert(domain_spec().contains(rows[k][p]));
        }
    }
}

/// The lines of each stage hold distinct cells of the board.
proof fn lemma_lines_shape()
    ensures
        lines_within(all_lines(), CELLS as nat),
        forall|m: int| 0 <= m < outer_ring_spec().len() ==> (#[trigger] outer_ring_spec()[m]).len() == 3 && outer_ring_spec()[m].no_duplicates(),
        forall|m: int| 0 <= m < inner_ring_spec().len() ==> (#[trigger] inner_ring_spec()[m]).len() == 4 && inner_ring_spec()[m].no_duplicates(),
        forall|m: int| 0 <= m < centre_spec().len() ==> (#[trigger] centre_spec()[m]).len() == 5 && centre_spec()[m].no_duplicates(),
        domain_spec().no_duplicates(),
{
    assert(all_lines().len() == 15);
    assert forall|m: int, p: int| 0 <= m < all_lines().len() && 0 <= p < all_lines()[m].len() implies #[trigger] all_lines()[m][p] < CELLS by {
        if m < 6 {
            assert(all_lines()[m] == outer_ring_spec()[m]);
        } else if m < 12 {
            assert(all_lines()[m] == inner_ring_spec()[m - 6]);
        } else {
            assert(all_lines()[m] == centre_spec()[m - 12]);
        }
    }
}

/// Every cell lies on one of the 15 lines.
proof fn lemma_lines_cover(b: Seq<Option<i32>>)
    requires
        b.len() == CELLS,
        forall|m: int| 0 <= m < all_lines().len() ==> line_complete(b, #[trigger] all_lines()[m], MAGIC as int),
    ensures
        forall|j: int| 0 <= j < CELLS ==> #[trigger] b[j] is Some,
{
    let l = all_lines();
    assert(l[0][0] == 0 && l[0][1] == 1 && l[0][2] == 2);
    assert(l[6][0] == 3 && l[6][1] == 4 && l[6][2] == 5 && l[6][3] == 6);
    assert(l[4][2] == 7 && l[8][1] == 8 && l[12][2] == 9 && l[9][2] == 10 && l[1][2] == 11);
    assert(l[7][0] == 12 && l[7][1] == 13 && l[7][2] == 14 && l[7][3] == 15);
    assert(l[3][2] == 16 && l[3][1] == 17 && l[3][0] == 18);
    assert(line_complete(b, l[0], MAGIC as int));
    assert(line_complete(b, l[1], MAGIC as int));
    assert(line_complete(b, l[3], MAGIC as int));
    assert(line_complete(b, l[4], MAGIC as int));
    assert(line_complete(b, l[6], MAGIC as int));
    assert(line_complete(b, l[7], MAGIC as int));
    assert(line_complete(b, l[8], MAGIC as int));
    assert(line_complete(b, l[9], MAGIC as int));
    assert(line_complete(b, l[12], MAGIC as int));
}

/// Runs the search from each seed board in turn and returns every board
/// found, seed by seed.
pub fn extend_boards(seeds: &Vec<Vec<Option<i32>>>, lines: &[Vec<usize>], candidates: &[Vec<i32>]) -> (r: Vec<Vec<Option<i32>>>)
    requires
        forall|n: int| 0 <= n < seeds.len() ==> lines_within(lines_view(lines@), (#[trigger] seeds[n]).len() as nat),
    ensures
        boards_view(r@) == extend_all(boards_view(seeds@), lines_view(lines@), pool_view(candidates@)),
{
    let mut r: Vec<Vec<Option<i32>>> = Vec::new();
    let mut n: usize = 0;
    while n < seeds.len()
        invariant
            n <= seeds.len(),
            forall|n: int| 0 <= n < seeds.len() ==> lines_within(lines_view(lines@), (#[trigger] seeds[n]).len() as nat),
            boards_view(r@) == extend_all(boards_view(seeds@).take(n as int), lines_view(lines@), pool_view(candidates@)),
        decreases seeds.len() - n,
    {
        let seed = &seeds[n];
        let mut used = used_values(seed);
        let mut grid = seed.clone();
        assert(grid@ =~= seed@);
        solve(&mut grid, &mut r, lines, &mut used, 0, candidates);
        proof {
            let t1 = boards_view(seeds@).take(n as int + 1);
            assert(t1.drop_last() =~= boards_view(seeds@).take(n as int));
            assert(t1.last() == seed@);
        }
        n = n + 1;
    }
    assert(boards_view(seeds@).take(n as int) =~= boards_view(seeds@));
    r
}

/// Runs the three stages: the outer ring from an empty board, then the inner
/// ring from each outer ring found, then the centre lines from each board
/// with both rings filled. Every board found at the end is a solved hexagon.
pub fn solve_puzzle() -> (r: Stages)
    ensures
        boards_view(r.outer_rings@) == outer_stage(),
        boards_view(r.inner_rings@) == inner_stage(),
        boards_view(r.solutions@) == final_stage(),
        forall|n: int| 0 <= n < r.solutions.len() ==> is_magic_hexagon(#[trigger] r.solutions[n]@),
{
    proof {
        lemma_lines_shape();
    }
    let rows3 = generate_valid_rows(3, MAGIC, domain());
    let outer = outer_ring();
    let mut grid: Vec<Option<i32>> = Vec::new();
    let mut j: usize = 0;
    while j < CELLS
        invariant
            j <= CELLS,
            grid@ == empty_board().take(j as int),
        decreases CELLS - j,
    {
        grid.push(None);
        j = j + 1;
        assert(grid@ =~= empty_board().take(j as int));
    }
    assert(grid@ =~= empty_board());
    let mut used: HashSet<i32> = HashSet::new();
    assert(used@ =~= placed_values(grid@));
    let mut outer_rings: Vec<Vec<Option<i32>>> = Vec::new();
    assert(lines_within(outer_ring_spec(), CELLS as nat)) by {
        assert forall|m: int, p: int| 0 <= m < 6 && 0 <= p < outer_ring_spec()[m].len() implies #[trigger] outer_ring_spec()[m][p] < CELLS by {
            assert(all_lines()[m] == outer_ring_spec()[m]);
        }
    }
    solve(&mut grid, &mut outer_rings, outer.as_slice(), &mut used, 0, rows3.as_slice());
    assert(boards_view(outer_rings@) =~= outer_stage());

    let rows4 = generate_valid_rows(4, MAGIC, domain());
    let inner = inner_ring();
    proof {
        assert(lines_within(inner_ring_spec(), CELLS as nat)) by {
            assert forall|m: int, p: int| 0 <= m < 6 && 0 <= p < inner_ring_spec()[m].len() implies #[trigger] inner_ring_spec()[m][p] < CELLS by {
                assert(all_lines()[m + 6] == inner_ring_spec()[m]);
            }
        }
        lemma_setup(outer_ring_spec(), rows_view(rows3@), 3);
        lemma_setup(inner_ring_spec(), rows_view(rows4@), 4);
        let seeds = seq![empty_board()];
        assert(seeds.drop_last() =~= Seq::<Seq<Option<i32>>>::empty());
        assert(rows_view(rows3@) == valid_rows(domain_spec(), 3, MAGIC));
        assert(extend_all(seeds.drop_last(), outer_ring_spec(), rows_view(rows3@)) == Seq::<Seq<Option<i32>>>::empty());
        assert(seeds.last() == empty_board());
        assert(extend_all(seeds, outer_ring_spec(), rows_view(rows3@)) =~= outer_stage());
        assert(stage_board(empty_board(), seq![]));
        lemma_stage_sound(seeds, seq![], outer_ring_spec(), rows_view(rows3@), 3);
        assert(seq![] + outer_ring_spec() =~= outer_ring_spec());
        assert forall|n: int| 0 <= n < outer_rings.len() implies stage_board(#[trigger] outer_rings[n]@, outer_ring_spec()) by {
            assert(outer_stage()[n] == outer_rings[n]@);
            assert(outer_stage().contains(outer_rings[n]@));
        }
    }
    let inner_rings = extend_boards(&outer_rings, inner.as_slice(), rows4.as_slice());

    let rows5 = generate_valid_rows(5, MAGIC, domain());
    let centre = centre_lines();
    proof {
        assert(lines_within(centre_spec(), CELLS as nat)) by {
            assert forall|m: int, p: int| 0 <= m < 3 && 0 <= p < centre_spec()[m].len() implies #[trigger] centre_spec()[m][p] < CELLS by {
                assert(all_lines()[m + 12] == centre_spec()[m]);
            }
        }
        lemma_setup(centre_spec(), rows_view(rows5@), 5);
        lemma_stage_sound(boards_view(outer_rings@), outer_ring_spec(), inner_ring_spec(), rows_view(rows4@), 4);
        let done2 = outer_ring_spec() + inner_ring_spec();
        assert(lines_within(done2, CELLS as nat)) by {
            assert forall|m: int, p: int| 0 <= m < done2.len() && 0 <= p < done2[m].len() implies #[trigger] done2[m][p] < CELLS by {
                assert(all_lines()[m] == done2[m]);
            }
        }
        assert forall|n: int| 0 <= n < inner_rings.len() implies stage_board(#[trigger] inner_rings[n]@, done2) by {
            assert(inner_stage()[n] == inner_rings[n]@);
            assert(inner_stage().contains(inner_rings[n]@));
        }
    }
    let solutions = extend_boards(&inner_rings, centre.as_slice(), rows5.as_slice());
    proof {
        let done2 = outer_ring_spec() + inner_ring_spec();
        lemma_stage_sound(boards_view(inner_rings@), done2, centre_spec(), rows_view(rows5@), 5);
        assert(done2 + centre_spec() == all_lines());
        assert forall|n: int| 0 <= n < solutions.len() implies is_magic_hexagon(#[trigger] solutions[n]@) by {
            let b = solutions[n]@;
            assert(final_stage()[n] == b);
            assert(final_stage().contains(b));
            assert(stage_board(b, all_lines()));
            lemma_lines_cover(b);
        }
    }
    Stages { outer_rings, inner_rings, solutions }
}

} // verus!
