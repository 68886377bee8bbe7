//! Row generation: every ordered choice of a fixed number of values from a
//! pool whose sum is a given target.

use itertools::Itertools;
use vstd::prelude::*;

verus! {

/// The sum of a sequence of values, as a mathematical integer.
pub open spec fn seq_sum(s: Seq<i32>) -> int
    decreases s.len(),
{
    if s.len() == 0 {
        0
    } else {
        seq_sum(s.drop_last()) + s.last()
    }
}

/// `s` picks `k` values of `values` at pairwise distinct positions, in order.
pub open spec fn is_selection(s: Seq<i32>, values: Seq<i32>, k: nat) -> bool {
    &&& s.len() == k
    &&& exists|pos: Seq<int>|
        #![trigger pos.no_duplicates()]
        pos.len() == k && pos.no_duplicates() && forall|p: int|
            0 <= p < k ==> 0 <= #[trigger] pos[p] < values.len() && s[p] == values[pos[p]]
}

/// `s` is a sequence of `k` distinct values, each of them found in `values`.
pub open spec fn is_arrangement(s: Seq<i32>, values: Seq<i32>, k: nat) -> bool {
    &&& s.len() == k
    &&& s.no_duplicates()
    &&& forall|p: int| 0 <= p < s.len() ==> values.contains(#[trigger] s[p])
}

/// The rows as sequences of values.
pub open spec fn rows_view(rows: Seq<Vec<i32>>) -> Seq<Seq<i32>> {
    rows.map_values(|r: Vec<i32>| r@)
}

/// The `k`-permutations of `values`, in the order in which they are enumerated.
pub uninterp spec fn permutations_of(values: Seq<i32>, k: nat) -> Seq<Seq<i32>>;

/// The rows of `k` values that `generate_valid_rows` yields: the
/// `k`-permutations of `values` that sum to `target`, in enumeration order.
pub open spec fn valid_rows(values: Seq<i32>, k: nat, target: i32) -> Seq<Seq<i32>> {
    permutations_of(values, k).filter(|s: Seq<i32>| seq_sum(s) == target as int)
}

/// Relies on `Itertools::permutations`: it yields every ordered selection of
/// `k` elements taken at distinct positions of the input, each selection once,
/// in an order that depends on the input and `k` alone.
#[verifier::external_body]
fn permutations(values: &Vec<i32>, k: usize) -> (r: Vec<Vec<i32>>)
    ensures
        rows_view(r@) == permutations_of(values@, k as nat),
        forall|s: Seq<i32>| rows_view(r@).contains(s) <==> is_selection(s, values@, k as nat),
{
    values.iter().copied().permutations(k).collect()
}

/// Over a pool without repeated values, choosing at distinct positions is
/// choosing distinct values.
pub proof fn lemma_selection_is_arrangement(s: Seq<i32>, values: Seq<i32>, k: nat)
    requires
        values.no_duplicates(),
    ensures
        is_selection(s, values, k) <==> is_arrangement(s, values, k),
{
    if is_selection(s, values, k) {
        let pos = choose|pos: Seq<int>|
            #![trigger pos.no_duplicates()]
            pos.len() == k && pos.no_duplicates() && forall|p: int|
                0 <= p < k ==> 0 <= #[trigger] pos[p] < values.len() && s[p] == values[pos[p]];
        assert forall|p: int, q: int| 0 <= p < s.len() && 0 <= q < s.len() && p != q implies s[p]
            != s[q] by {
            assert(pos[p] != pos[q]);
        }
        assert forall|p: int| 0 <= p < s.len() implies values.contains(#[trigger] s[p]) by {
            assert(values[pos[p]] == s[p]);
        }
    }
    if is_arrangement(s, values, k) {
        let pos = Seq::new(k, |p: int| values.index_of(s[p]));
        assert forall|p: int| 0 <= p < k implies 0 <= #[trigger] pos[p] < values.len() && s[p]
            == values[pos[p]] by {
            assert(values.contains(s[p]));
        }
        assert forall|p: int, q: int| 0 <= p < pos.len() && 0 <= q < pos.len() && p != q implies pos[p]
            != pos[q] by {
            assert(values[pos[p]] == s[p]);
            assert(values[pos[q]] == s[q]);
        }
        assert(pos.no_duplicates());
    }
}

/// The sum of a row; wide enough that no row of `i32` values overflows it.
pub fn row_sum(row: &Vec<i32>) -> (r: i128)
    ensures
        r == seq_sum(row@),
{
    let mut acc: i128 = 0;
    let mut i: usize = 0;
    while i < row.len()
        invariant
            i <= row.len(),
            acc == seq_sum(row@.take(i as int)),
            -(i as int) * 0x8000_0000 <= acc <= (i as int) * 0x8000_0000,
        decreases row.len() - i,
    {
        assert(row@.take(i as int + 1).drop_last() =~= row@.take(i as int));
        acc = acc + row[i] as i128;
        i = i + 1;
    }
    assert(row@.take(i as int) =~= row@);
    acc
}

/// Every ordered choice of `length` values at distinct positions of `values`
/// whose sum is `target`, in the order in which the permutations are
/// enumerated.
pub fn generate_valid_rows(length: usize, target: i32, values: Vec<i32>) -> (r: Vec<Vec<i32>>)
    ensures
        rows_view(r@) == valid_rows(values@, length as nat, target),
        forall|s: Seq<i32>| #[trigger]
            rows_view(r@).contains(s) <==> is_selection(s, values@, length as nat) && seq_sum(s)
                == target,
        values@.no_duplicates() ==> forall|s: Seq<i32>| #[trigger]
            rows_view(r@).contains(s) <==> is_arrangement(s, values@, length as nat) && seq_sum(
                s,
            ) == target,
{
    let perms = permutations(&values, length);
    let ghost pred = |s: Seq<i32>| seq_sum(s) == target as int;
    let mut r: Vec<Vec<i32>> = Vec::new();
    let mut i: usize = 0;
    while i < perms.len()
        invariant
            i <= perms.len(),
            pred == (|s: Seq<i32>| seq_sum(s) == target as int),
            rows_view(r@) == rows_view(perms@).take(i as int).filter(pred),
        decreases perms.len() - i,
    {
        let ghost before = rows_view(perms@).take(i as int);
        assert(rows_view(perms@).take(i as int + 1) =~= before.push(perms[i as int]@));
        proof {
            before.lemma_filter_push(perms[i as int]@, pred);
        }
        if row_sum(&perms[i]) == target as i128 {
            let row = perms[i].clone();
            assert(row@ == perms[i as int]@);
            let ghost r0 = r@;
            r.push(row);
            assert(rows_view(r@) =~= rows_view(r0).push(perms[i as int]@));
        }
        i = i + 1;
    }
    assert(rows_view(perms@).take(i as int) =~= rows_view(perms@));
    proof {
        assert forall|s: Seq<i32>| #[trigger]
            rows_view(r@).contains(s) <==> is_selection(s, values@, length as nat) && seq_sum(s)
                == target by {
            broadcast use vstd::seq_lib::group_filter_ensures;

            if rows_view(r@).contains(s) {
                rows_view(perms@).lemma_filter_contains_rev(pred, s);
                let n = choose|n: int| 0 <= n < rows_view(r@).len() && rows_view(r@)[n] == s;
                assert(pred(rows_view(r@)[n]));
            }
            if rows_view(perms@).contains(s) && pred(s) {
                let n = choose|n: int|
                    0 <= n < rows_view(perms@).len() && rows_view(perms@)[n] == s;
                assert(pred(rows_view(perms@)[n]));
            }
        }
        if values@.no_duplicates() {
            assert forall|s: Seq<i32>| #[trigger]
                rows_view(r@).contains(s) <==> is_arrangement(s, values@, length as nat)
                    && seq_sum(s) == target by {
                lemma_selection_is_arrangement(s, values@, length as nat);
            }
        }
    }
    r
}

} // verus!
