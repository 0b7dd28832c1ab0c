//! The validity check: no row, column, or 3x3 block of a board may hold the
//! same placed digit twice. Blank cells never count as duplicates, so a
//! partially filled board can be valid.

use crate::grid::{extends, wf_cells, Grid};
use vstd::prelude::*;

verus! {

/// The digit in row `r`, column `c` of a row-major cell sequence.
pub open spec fn cell_at(s: Seq<u8>, r: int, c: int) -> u8 {
    s[r * 9 + c]
}

/// Row `r` of the board, as a sequence of 9 digits.
pub open spec fn row_seq(s: Seq<u8>, r: int) -> Seq<u8> {
    Seq::new(9, |j: int| cell_at(s, r, j))
}

/// Column `c` of the board, as a sequence of 9 digits.
pub open spec fn col_seq(s: Seq<u8>, c: int) -> Seq<u8> {
    Seq::new(9, |i: int| cell_at(s, i, c))
}

/// The 3x3 block in block-row `br` and block-column `bc` (each 0..=2), as a
/// sequence of 9 digits read row by row.
pub open spec fn block_seq(s: Seq<u8>, br: int, bc: int) -> Seq<u8> {
    Seq::new(9, |m: int| cell_at(s, 3 * br + m / 3, 3 * bc + m % 3))
}

/// Some placed digit occurs twice in the line `v`.
pub open spec fn has_dup(v: Seq<u8>) -> bool {
    exists|i: int, j: int|
        #![trigger v[i], v[j]]
        0 <= i < j < v.len() && v[i] != 0 && v[i] == v[j]
}

/// No row, column, or 3x3 block holds the same placed digit twice.
pub open spec fn grid_valid(s: Seq<u8>) -> bool {
    &&& forall|r: int| 0 <= r < 9 ==> !has_dup(#[trigger] row_seq(s, r))
    &&& forall|c: int| 0 <= c < 9 ==> !has_dup(#[trigger] col_seq(s, c))
    &&& forall|br: int, bc: int| 0 <= br < 3 && 0 <= bc < 3 ==> !has_dup(#[trigger] block_seq(s, br, bc))
}

/// Whether some placed digit occurs twice in the given line.
#[verifier::loop_isolation(false)]
fn duplicate(v: &Vec<u8>) -> (r: bool)
    ensures
        r == has_dup(v@),
{
    let mut i: usize = 0;
    while i < v.len()
        invariant
            i <= v@.len(),
            forall|a: int, b: int|
                #![trigger v@[a], v@[b]]
                0 <= a < i && a < b < v@.len() ==> !(v@[a] != 0 && v@[a] == v@[b]),
        decreases v@.len() - i,
    {
        let mut j: usize = i + 1;
        while j < v.len()
            invariant
                i < v@.len(),
                i < j <= v@.len(),
                forall|b: int| #![trigger v@[b]] i < b < j ==> !(v@[i as int] != 0 && v@[i as int] == v@[b]),
            decreases v@.len() - j,
        {
            if v[i] != 0 && v[i] == v[j] {
                return true;
            }
            j = j + 1;
        }
        i = i + 1;
    }
    false
}

/// Whether the board satisfies every row, column, and block constraint.
/// Total over all well-formed boards, filled or partial; zeros never count.
#[verifier::loop_isolation(false)]
pub fn is_valid(grid: &Grid) -> (r: bool)
    requires
        grid.wf(),
    ensures
        r == grid_valid(grid@),
{
    // Rows and columns: collect each line and scan it for a repeated digit.
    let mut i: usize = 0;
    while i < 9
        invariant
            i <= 9,
            forall|r: int| 0 <= r < i ==> !has_dup(#[trigger] row_seq(grid@, r)),
            forall|c: int| 0 <= c < i ==> !has_dup(#[trigger] col_seq(grid@, c)),
        decreases 9 - i,
    {
        let mut row: Vec<u8> = Vec::new();
        let mut col: Vec<u8> = Vec::new();
        let mut j: usize = 0;
        while j < 9
            invariant
                j <= 9,
                i < 9,
                row@.len() == j,
                col@.len() == j,
                forall|k: int| 0 <= k < j ==> #[trigger] row@[k] == cell_at(grid@, i as int, k),
                forall|k: int| 0 <= k < j ==> #[trigger] col@[k] == cell_at(grid@, k, i as int),
            decreases 9 - j,
        {
            row.push(grid.cell(i, j));
            col.push(grid.cell(j, i));
            j = j + 1;
        }
        proof {
            assert(row@ =~= row_seq(grid@, i as int));
            assert(col@ =~= col_seq(grid@, i as int));
        }
        if duplicate(&row) || duplicate(&col) {
            return false;
        }
        i = i + 1;
    }
    // Blocks: walk each block's 9 cells, tracking which digits were seen.
    let mut br: usize = 0;
    while br < 3
        invariant
            br <= 3,
            forall|r: int| 0 <= r < 9 ==> !has_dup(#[trigger] row_seq(grid@, r)),
            forall|c: int| 0 <= c < 9 ==> !has_dup(#[trigger] col_seq(grid@, c)),
            forall|b1: int, b2: int| 0 <= b1 < br && 0 <= b2 < 3 ==> !has_dup(#[trigger] block_seq(grid@, b1, b2)),
        decreases 3 - br,
    {
        let mut bc: usize = 0;
        while bc < 3
            invariant
                br < 3,
                bc <= 3,
                forall|b1: int, b2: int| 0 <= b1 < br && 0 <= b2 < 3 ==> !has_dup(#[trigger] block_seq(grid@, b1, b2)),
                forall|b2: int| 0 <= b2 < bc ==> !has_dup(#[trigger] block_seq(grid@, br as int, b2)),
            decreases 3 - bc,
        {
            let ghost bs = block_seq(grid@, br as int, bc as int);
            let mut found: Vec<bool> = vec![false, false, false, false, false, false, false, false, false];
            let mut k: usize = 0;
            while k < 9
                invariant
                    br < 3,
                    bc < 3,
                    k <= 9,
                    bs == block_seq(grid@, br as int, bc as int),
                    found@.len() == 9,
                    forall|d: int|
                        0 <= d < 9 ==> (#[trigger] found@[d] <==> exists|m: int| 0 <= m < k && #[trigger] bs[m] == d + 1),
                    forall|m1: int, m2: int|
                        #![trigger bs[m1], bs[m2]]
                        0 <= m1 < m2 < k ==> !(bs[m1] != 0 && bs[m1] == bs[m2]),
                decreases 9 - k,
            {
                let r_ix = 3 * br + k / 3;
                let c_ix = 3 * bc + k % 3;
                let num = grid.cell(r_ix, c_ix);
                proof {
                    assert(bs[k as int] == num);
                }
                if num > 0 {
                    if found[(num - 1) as usize] {
                        proof {
                            let m = choose|m: int| 0 <= m < k && #[trigger] bs[m] == (num - 1) + 1;
                            assert(bs[m] != 0 && bs[m] == bs[k as int]);
                            assert(has_dup(bs));
                        }
                        return false;
                    }
                    found[(num - 1) as usize] = true;
                }
                k = k + 1;
            }
            proof {
                assert(!has_dup(bs));
            }
            bc = bc + 1;
        }
        br = br + 1;
    }
    true
}

/// Any board whose clues are all drawn from a valid board is itself valid:
/// a duplicate pair in the smaller board would already be one in the larger.
pub proof fn lemma_extends_valid(a: Seq<u8>, b: Seq<u8>)
    requires
        a.len() == 81,
        b.len() == 81,
        extends(a, b),
        grid_valid(b),
    ensures
        grid_valid(a),
{
    assert forall|r: int| 0 <= r < 9 implies !has_dup(#[trigger] row_seq(a, r)) by {
        if has_dup(row_seq(a, r)) {
            let (i, j) = choose|i: int, j: int|
                0 <= i < j < 9 && #[trigger] row_seq(a, r)[i] != 0 && row_seq(a, r)[i] == #[trigger] row_seq(a, r)[j];
            assert(row_seq(b, r)[i] == cell_at(b, r, i) && row_seq(b, r)[j] == cell_at(b, r, j));
            assert(has_dup(row_seq(b, r)));
        }
    };
    assert forall|c: int| 0 <= c < 9 implies !has_dup(#[trigger] col_seq(a, c)) by {
        if has_dup(col_seq(a, c)) {
            let (i, j) = choose|i: int, j: int|
                0 <= i < j < 9 && #[trigger] col_seq(a, c)[i] != 0 && col_seq(a, c)[i] == #[trigger] col_seq(a, c)[j];
            assert(col_seq(b, c)[i] == cell_at(b, i, c) && col_seq(b, c)[j] == cell_at(b, j, c));
            assert(has_dup(col_seq(b, c)));
        }
    };
    assert forall|br: int, bc: int| 0 <= br < 3 && 0 <= bc < 3 implies !has_dup(#[trigger] block_seq(a, br, bc)) by {
        if has_dup(block_seq(a, br, bc)) {
            let (i, j) = choose|i: int, j: int|
                0 <= i < j < 9 && #[trigger] block_seq(a, br, bc)[i] != 0
                    && block_seq(a, br, bc)[i] == #[trigger] block_seq(a, br, bc)[j];
            assert(0 <= 3 * br + i / 3 < 9 && 0 <= 3 * bc + i % 3 < 9);
            assert(0 <= 3 * br + j / 3 < 9 && 0 <= 3 * bc + j % 3 < 9);
            assert(block_seq(b, br, bc)[i] == cell_at(b, 3 * br + i / 3, 3 * bc + i % 3));
            assert(block_seq(b, br, bc)[j] == cell_at(b, 3 * br + j / 3, 3 * bc + j % 3));
            assert(has_dup(block_seq(b, br, bc)));
        }
    };
}

/// A relabeling of the nine digits: blank stays blank, digits map to digits,
/// and no two cell values collapse into one.
pub open spec fn digit_permutation(perm: Seq<u8>) -> bool {
    &&& perm.len() == 10
    &&& perm[0] == 0
    &&& forall|d: int| 1 <= d <= 9 ==> 1 <= #[trigger] perm[d] <= 9
    &&& forall|d1: int, d2: int|
        #![trigger perm[d1], perm[d2]]
        0 <= d1 <= 9 && 0 <= d2 <= 9 && d1 != d2 ==> perm[d1] != perm[d2]
}

/// The board with every cell value replaced by its relabeling.
pub open spec fn relabeled(s: Seq<u8>, perm: Seq<u8>) -> Seq<u8> {
    Seq::new(81, |i: int| perm[s[i] as int])
}

/// Relabeling a line neither creates nor removes a repeated placed digit.
proof fn lemma_line_dup_relabel(v: Seq<u8>, w: Seq<u8>, perm: Seq<u8>)
    requires
        digit_permutation(perm),
        v.len() == w.len(),
        forall|i: int| 0 <= i < v.len() ==> #[trigger] v[i] <= 9,
        forall|i: int| 0 <= i < v.len() ==> #[trigger] w[i] == perm[v[i] as int],
    ensures
        has_dup(w) == has_dup(v),
{
    if has_dup(v) {
        let (i, j) = choose|i: int, j: int| 0 <= i < j < v.len() && #[trigger] v[i] != 0 && v[i] == #[trigger] v[j];
        assert(w[i] == perm[v[i] as int] && w[j] == perm[v[j] as int]);
        assert(w[i] != perm[0]);
        assert(has_dup(w));
    }
    if has_dup(w) {
        let (i, j) = choose|i: int, j: int| 0 <= i < j < w.len() && #[trigger] w[i] != 0 && w[i] == #[trigger] w[j];
        assert(w[i] == perm[v[i] as int] && w[j] == perm[v[j] as int]);
        assert(v[i] != 0);
        assert(v[i] == v[j]);
        assert(has_dup(v));
    }
}

/// Validity depends only on which cells hold equal digits, not on which
/// digits they are: consistently relabeling the nine digits of a board by
/// any permutation (with blank kept blank) leaves validity unchanged.
pub proof fn lemma_valid_relabel(s: Seq<u8>, perm: Seq<u8>)
    requires
        wf_cells(s),
        digit_permutation(perm),
    ensures
        grid_valid(relabeled(s, perm)) == grid_valid(s),
{
    let t = relabeled(s, perm);
    assert forall|r: int|
        #![trigger row_seq(t, r)]
        #![trigger row_seq(s, r)]
        0 <= r < 9 implies has_dup(row_seq(t, r)) == has_dup(row_seq(s, r)) by {
        assert(forall|k: int| 0 <= k < 9 ==> #[trigger] row_seq(t, r)[k] == perm[row_seq(s, r)[k] as int]);
        lemma_line_dup_relabel(row_seq(s, r), row_seq(t, r), perm);
    };
    assert forall|c: int|
        #![trigger col_seq(t, c)]
        #![trigger col_seq(s, c)]
        0 <= c < 9 implies has_dup(col_seq(t, c)) == has_dup(col_seq(s, c)) by {
        assert(forall|k: int| 0 <= k < 9 ==> #[trigger] col_seq(t, c)[k] == perm[col_seq(s, c)[k] as int]);
        lemma_line_dup_relabel(col_seq(s, c), col_seq(t, c), perm);
    };
    assert forall|br: int, bc: int|
        #![trigger block_seq(t, br, bc)]
        #![trigger block_seq(s, br, bc)]
        0 <= br < 3 && 0 <= bc < 3 implies has_dup(block_seq(t, br, bc)) == has_dup(block_seq(s, br, bc)) by {
        assert forall|k: int| 0 <= k < 9 implies
            #[trigger] block_seq(t, br, bc)[k] == perm[block_seq(s, br, bc)[k] as int] by {
            assert(0 <= 3 * br + k / 3 < 9 && 0 <= 3 * bc + k % 3 < 9);
        };
        assert(forall|k: int| 0 <= k < 9 ==> #[trigger] block_seq(s, br, bc)[k] <= 9);
        lemma_line_dup_relabel(block_seq(s, br, bc), block_seq(t, br, bc), perm);
    };
    if grid_valid(s) {
        assert(grid_valid(t));
    }
    if grid_valid(t) {
        assert(grid_valid(s));
    }
}

} // verus!
