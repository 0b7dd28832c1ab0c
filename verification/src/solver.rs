//! The recursive backtracking solver. It fills blank cells one at a time,
//! trying the nine digits in a randomly shuffled order, and returns a
//! completion of the starting board exactly when one exists.

use crate::grid::{
    blank_cells, extends, is_full, lemma_full_extends_self, lemma_num_blanks_update, num_blanks,
    wf_cells, Grid,
};
use crate::randomness::shuffle;
use crate::validity::{
    block_seq, cell_at, col_seq, grid_valid, has_dup, is_valid, lemma_extends_valid, row_seq,
};
use vstd::arithmetic::div_mod::{lemma_fundamental_div_mod, lemma_mod_bound};
use vstd::prelude::*;

verus! {

/// `s` completes the puzzle `p`: it is a well-formed, full, valid board
/// that keeps every clue of `p`.
pub open spec fn completion(p: Seq<u8>, s: Seq<u8>) -> bool {
    wf_cells(s) && is_full(s) && grid_valid(s) && extends(p, s)
}

/// Searches for a completion of the given board by depth-first
/// backtracking. Blank cells are filled in a randomly shuffled digit
/// order, so repeated calls on the same board may return different
/// completions; but a completion is returned exactly when one exists.
#[verifier::loop_isolation(false)]
pub fn solve(grid: Grid) -> (r: Option<Grid>)
    requires
        grid.wf(),
    ensures
        match r {
            Some(s) => s.wf() && completion(grid@, s@),
            None => forall|s: Seq<u8>| !completion(grid@, s),
        },
    decreases num_blanks(grid@),
{
    // Find the last blank cell in row-major order.
    let mut full: bool = true;
    let mut bi: usize = 0;
    let mut idx: usize = 0;
    while idx < 81
        invariant
            idx <= 81,
            full ==> forall|m: int| 0 <= m < idx ==> #[trigger] grid@[m] != 0,
            !full ==> bi < 81 && grid@[bi as int] == 0,
        decreases 81 - idx,
    {
        if grid.cell_index(idx) == 0 {
            bi = idx;
            full = false;
        }
        idx = idx + 1;
    }
    // Base case: a full board is its own sole candidate completion.
    if full {
        proof {
            assert(is_full(grid@));
        }
        if is_valid(&grid) {
            proof {
                assert(extends(grid@, grid@));
            }
            return Some(grid);
        } else {
            proof {
                assert forall|s: Seq<u8>| !completion(grid@, s) by {
                    if completion(grid@, s) {
                        lemma_full_extends_self(grid@, s);
                    }
                }
            }
            return None;
        }
    }
    // Recursive step: try the nine digits in a randomly shuffled order.
    let mut digits: Vec<u8> = Vec::new();
    let mut d: u8 = 1;
    while d <= 9
        invariant
            1 <= d <= 10,
            digits@.len() == d - 1,
            forall|m: int| 0 <= m < d - 1 ==> #[trigger] digits@[m] == m + 1,
        decreases 10 - d,
    {
        digits.push(d);
        d = d + 1;
    }
    let ghost pre = digits@;
    shuffle(&mut digits);
    proof {
        broadcast use vstd::seq_lib::group_to_multiset_ensures;

        assert(digits@.to_multiset().len() == pre.to_multiset().len());
        assert(digits@.len() == 9);
        assert forall|m: int| 0 <= m < 9 implies 1 <= #[trigger] digits@[m] <= 9 by {
            assert(digits@.contains(digits@[m]));
            assert(digits@.to_multiset().count(digits@[m]) > 0);
            assert(pre.contains(digits@[m]));
            let w = choose|w: int| 0 <= w < pre.len() && pre[w] == digits@[m];
            assert(pre[w] == w + 1);
        };
        assert forall|v: u8| 1 <= v <= 9 implies digits@.contains(v) by {
            assert(pre[v - 1] == v);
            assert(pre.contains(v));
            assert(pre.to_multiset().count(v) > 0);
            assert(digits@.to_multiset().count(v) > 0);
        };
    }
    let mut t: usize = 0;
    while t < 9
        invariant
            t <= 9,
            digits@.len() == 9,
            forall|m: int| 0 <= m < 9 ==> 1 <= #[trigger] digits@[m] <= 9,
            forall|v: u8| 1 <= v <= 9 ==> digits@.contains(v),
            forall|s: Seq<u8>, m: int|
                #![trigger completion(grid@, s), digits@[m]]
                completion(grid@, s) && 0 <= m < t ==> s[bi as int] != digits@[m],
        decreases 9 - t,
    {
        let dig = digits[t];
        let candidate = grid.place_index(bi, dig);
        let ghost cand = candidate@;
        proof {
            lemma_num_blanks_update(grid@, bi as int, dig);
        }
        if is_valid(&candidate) {
            match solve(candidate) {
                Some(sol) => {
                    proof {
                        assert forall|i: int| 0 <= i < 81 && grid@[i] != 0 implies #[trigger] sol@[i] == grid@[i] by {
                            assert(cand[i] == grid@[i]);
                            assert(sol@[i] == cand[i]);
                        };
                        assert(extends(grid@, sol@));
                    }
                    return Some(sol);
                }
                None => {
                    proof {
                        assert forall|s: Seq<u8>| completion(grid@, s) implies s[bi as int] != dig by {
                            if s[bi as int] == dig {
                                assert forall|i: int| 0 <= i < 81 && cand[i] != 0 implies #[trigger] s[i] == cand[i] by {
                                    if i != bi {
                                        assert(cand[i] == grid@[i]);
                                    }
                                };
                                assert(extends(cand, s));
                                assert(completion(cand, s));
                            }
                        };
                    }
                }
            }
        } else {
            proof {
                assert forall|s: Seq<u8>| completion(grid@, s) implies s[bi as int] != dig by {
                    if s[bi as int] == dig {
                        assert forall|i: int| 0 <= i < 81 && cand[i] != 0 implies #[trigger] s[i] == cand[i] by {
                            if i != bi {
                                assert(cand[i] == grid@[i]);
                            }
                        };
                        assert(extends(cand, s));
                        lemma_extends_valid(cand, s);
                    }
                };
            }
        }
        proof {
            assert forall|s: Seq<u8>, m: int|
                #![trigger completion(grid@, s), digits@[m]]
                completion(grid@, s) && 0 <= m < t + 1 implies s[bi as int] != digits@[m] by {
                if m == t {
                    assert(s[bi as int] != dig);
                }
            };
        }
        t = t + 1;
    }
    // Every digit is ruled out for the blank cell, so no completion exists.
    proof {
        assert forall|s: Seq<u8>| !completion(grid@, s) by {
            if completion(grid@, s) {
                let v = s[bi as int];
                assert(v != 0);
                assert(v <= 9);
                assert(digits@.contains(v));
                let m = choose|m: int| 0 <= m < digits@.len() && digits@[m] == v;
                assert(s[bi as int] != digits@[m]);
            }
        };
    }
    None
}

/// The digit a fixed, fully solved reference board holds in row `r`,
/// column `c`.
pub open spec fn pattern_cell(r: int, c: int) -> u8 {
    ((3 * (r % 3) + r / 3 + c) % 9 + 1) as u8
}

/// The fixed reference board, row-major.
pub open spec fn pattern_cells() -> Seq<u8> {
    Seq::new(81, |i: int| pattern_cell(i / 9, i % 9))
}

/// Splitting a position `v = 3q + a` with `0 <= a < 3` recovers `q` and `a`
/// as quotient and remainder.
proof fn lemma_div3_decompose(v: int, q: int, a: int)
    requires
        v == 3 * q + a,
        0 <= a < 3,
    ensures
        v / 3 == q,
        v % 3 == a,
{
    lemma_fundamental_div_mod(v, 3);
    lemma_mod_bound(v, 3);
}

/// Splitting a flat index `v = 9q + a` with `0 <= a < 9` recovers `q` and
/// `a` as quotient and remainder.
proof fn lemma_div9_decompose(v: int, q: int, a: int)
    requires
        v == 9 * q + a,
        0 <= a < 9,
    ensures
        v / 9 == q,
        v % 9 == a,
{
    lemma_fundamental_div_mod(v, 9);
    lemma_mod_bound(v, 9);
}

/// Two nonnegative numbers less than 9 apart with equal remainders mod 9
/// are equal.
proof fn lemma_mod9_eq(x: int, y: int)
    requires
        0 <= x,
        0 <= y,
        -9 < x - y < 9,
        x % 9 == y % 9,
    ensures
        x == y,
{
    lemma_fundamental_div_mod(x, 9);
    lemma_fundamental_div_mod(y, 9);
}

/// The reference board's cell at a flat index is its cell at that row and
/// column.
proof fn lemma_cell_at_pattern(r: int, c: int)
    requires
        0 <= r < 9,
        0 <= c < 9,
    ensures
        cell_at(pattern_cells(), r, c) == pattern_cell(r, c),
        1 <= pattern_cell(r, c) <= 9,
{
    lemma_div9_decompose(r * 9 + c, r, c);
    lemma_mod_bound(r, 3);
    lemma_fundamental_div_mod(r, 3);
    lemma_mod_bound(3 * (r % 3) + r / 3 + c, 9);
}

/// Within one row, one column, or one block, the reference board never
/// repeats a digit: equal pattern digits at constrained positions force
/// equal positions.
proof fn lemma_pattern_injective(r1: int, c1: int, r2: int, c2: int)
    requires
        0 <= r1 < 9,
        0 <= c1 < 9,
        0 <= r2 < 9,
        0 <= c2 < 9,
        pattern_cell(r1, c1) == pattern_cell(r2, c2),
        r1 == r2 || c1 == c2 || (r1 / 3 == r2 / 3 && c1 / 3 == c2 / 3),
    ensures
        r1 == r2,
        c1 == c2,
{
    lemma_mod_bound(r1, 3);
    lemma_mod_bound(r2, 3);
    lemma_mod_bound(c1, 3);
    lemma_mod_bound(c2, 3);
    lemma_fundamental_div_mod(r1, 3);
    lemma_fundamental_div_mod(r2, 3);
    lemma_fundamental_div_mod(c1, 3);
    lemma_fundamental_div_mod(c2, 3);
    let x1 = 3 * (r1 % 3) + r1 / 3 + c1;
    let x2 = 3 * (r2 % 3) + r2 / 3 + c2;
    assert(0 <= r1 / 3 < 3);
    assert(0 <= r2 / 3 < 3);
    lemma_mod_bound(x1, 9);
    lemma_mod_bound(x2, 9);
    assert(x1 % 9 == x2 % 9);
    if r1 == r2 {
        lemma_mod9_eq(x1, x2);
    } else if c1 == c2 {
        lemma_mod9_eq(x1, x2);
        assert(3 * (r1 % 3) + r1 / 3 == 3 * (r2 % 3) + r2 / 3);
        assert(r1 % 3 == r2 % 3 && r1 / 3 == r2 / 3);
    } else {
        assert(c1 - c2 == (c1 % 3) - (c2 % 3));
        lemma_mod9_eq(x1, x2);
        assert(3 * (r1 % 3) + c1 % 3 == 3 * (r2 % 3) + c2 % 3);
        assert(r1 % 3 == r2 % 3 && c1 % 3 == c2 % 3);
    }
}

/// The blank board has a completion: the fixed reference board is a full,
/// valid extension of it. Together with the solver's contract this says
/// that solving a blank board always returns a solution.
pub proof fn lemma_blank_solvable()
    ensures
        exists|s: Seq<u8>| completion(blank_cells(), s),
{
    let s = pattern_cells();
    assert forall|i: int| 0 <= i < 81 implies 1 <= #[trigger] s[i] <= 9 by {
        lemma_div9_decompose(9 * (i / 9) + i % 9, i / 9, i % 9);
        lemma_fundamental_div_mod(i, 9);
        lemma_mod_bound(i, 9);
        assert(0 <= i / 9 < 9);
        lemma_cell_at_pattern(i / 9, i % 9);
        assert(s[i] == s[(i / 9) * 9 + i % 9]);
    };
    assert(wf_cells(s));
    assert(is_full(s));
    assert(extends(blank_cells(), s));
    assert forall|r: int| 0 <= r < 9 implies !has_dup(#[trigger] row_seq(s, r)) by {
        if has_dup(row_seq(s, r)) {
            let (i, j) = choose|i: int, j: int|
                0 <= i < j < 9 && #[trigger] row_seq(s, r)[i] != 0 && row_seq(s, r)[i] == #[trigger] row_seq(s, r)[j];
            lemma_cell_at_pattern(r, i);
            lemma_cell_at_pattern(r, j);
            lemma_pattern_injective(r, i, r, j);
        }
    };
    assert forall|c: int| 0 <= c < 9 implies !has_dup(#[trigger] col_seq(s, c)) by {
        if has_dup(col_seq(s, c)) {
            let (i, j) = choose|i: int, j: int|
                0 <= i < j < 9 && #[trigger] col_seq(s, c)[i] != 0 && col_seq(s, c)[i] == #[trigger] col_seq(s, c)[j];
            lemma_cell_at_pattern(i, c);
            lemma_cell_at_pattern(j, c);
            lemma_pattern_injective(i, c, j, c);
        }
    };
    assert forall|br: int, bc: int| 0 <= br < 3 && 0 <= bc < 3 implies !has_dup(
        #[trigger] block_seq(s, br, bc),
    ) by {
        if has_dup(block_seq(s, br, bc)) {
            let (i, j) = choose|i: int, j: int|
                0 <= i < j < 9 && #[trigger] block_seq(s, br, bc)[i] != 0
                    && block_seq(s, br, bc)[i] == #[trigger] block_seq(s, br, bc)[j];
            lemma_mod_bound(i, 3);
            lemma_mod_bound(j, 3);
            lemma_fundamental_div_mod(i, 3);
            lemma_fundamental_div_mod(j, 3);
            let ri = 3 * br + i / 3;
            let ci = 3 * bc + i % 3;
            let rj = 3 * br + j / 3;
            let cj = 3 * bc + j % 3;
            assert(0 <= i / 3 < 3 && 0 <= j / 3 < 3);
            lemma_cell_at_pattern(ri, ci);
            lemma_cell_at_pattern(rj, cj);
            lemma_div3_decompose(ri, br, i / 3);
            lemma_div3_decompose(rj, br, j / 3);
            lemma_div3_decompose(ci, bc, i % 3);
            lemma_div3_decompose(cj, bc, j % 3);
            lemma_pattern_injective(ri, ci, rj, cj);
            assert(i / 3 == j / 3 && i % 3 == j % 3);
        }
    };
    assert(grid_valid(s));
    assert(completion(blank_cells(), s));
}

} // verus!
