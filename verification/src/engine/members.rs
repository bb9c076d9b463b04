//! Leaf memberships, and the flat layouts that a refit works on.
use crate::data::BinnedMatrix;
use crate::engine::grow::{row_bins, walk_row};
use crate::engine::{leaf_at, lemma_leaf_at_bound, ObliviousTree, Split};
use crate::error::{
    answers, first_fault, internal, invalid_input, lemma_first_fault, lemma_no_fault, shape_mismatch, Fault, PbError,
};
use crate::float::F32;
use vstd::arithmetic::power2::*;
use vstd::prelude::*;

verus! {

/// A tree with its weight.
pub type WeightedTree = (F32, ObliviousTree);

/// The position of a tree's membership for a row.
pub open spec fn membership_at(row: int, tree: int, n_trees: int) -> int {
    row * n_trees + tree
}

/// Why a membership has no position.
pub open spec fn membership_offset_fault(row: nat, tree: nat, n_trees: nat) -> Option<Fault> {
    if row * n_trees + tree > usize::MAX {
        Some(Fault::Internal("leaf membership offset overflow"@))
    } else {
        None
    }
}

/// The position of a tree's membership for a row.
pub fn membership_offset(row: usize, tree: usize, n_trees: usize) -> (r: Result<usize, PbError>)
    ensures
        answers(r, membership_offset_fault(row as nat, tree as nat, n_trees as nat)),
        r is Ok ==> r->Ok_0 == membership_at(row as int, tree as int, n_trees as int),
{
    match row.checked_mul(n_trees) {
        None => Err(internal("leaf membership offset overflow")),
        Some(o) => match o.checked_add(tree) {
            None => Err(internal("leaf membership offset overflow")),
            Some(at) => Ok(at),
        },
    }
}

/// Memberships do not collide, and fill the table.
pub proof fn law_membership_positions_are_distinct(
    row: int,
    tree: int,
    row2: int,
    tree2: int,
    n_rows: int,
    n_trees: int,
)
    requires
        0 <= row < n_rows,
        0 <= row2 < n_rows,
        0 <= tree < n_trees,
        0 <= tree2 < n_trees,
    ensures
        0 <= membership_at(row, tree, n_trees) < n_rows * n_trees,
        membership_at(row, tree, n_trees) == membership_at(row2, tree2, n_trees) ==> row == row2
            && tree == tree2,
{
    assert(0 <= row * n_trees + tree < n_rows * n_trees) by (nonlinear_arith)
        requires
            0 <= row < n_rows,
            0 <= tree < n_trees,
    ;
    if row * n_trees + tree == row2 * n_trees + tree2 {
        vstd::arithmetic::div_mod::lemma_fundamental_div_mod_converse(
            row * n_trees + tree,
            n_trees,
            row,
            tree,
        );
        vstd::arithmetic::div_mod::lemma_fundamental_div_mod_converse(
            row * n_trees + tree,
            n_trees,
            row2,
            tree2,
        );
    }
}

/// Why a leaf has no column.
pub open spec fn refit_col_fault(tree: nat, leaf: nat) -> Option<Fault> {
    if tree * 8 + leaf > usize::MAX {
        Some(Fault::Internal("refit column offset overflow"@))
    } else {
        None
    }
}

/// The column of a tree's leaf: eight columns per tree.
pub fn refit_col(tree: usize, leaf: usize) -> (r: Result<usize, PbError>)
    ensures
        answers(r, refit_col_fault(tree as nat, leaf as nat)),
        r is Ok ==> r->Ok_0 == tree * 8 + leaf,
{
    match tree.checked_mul(8) {
        None => Err(internal("refit column offset overflow")),
        Some(o) => match o.checked_add(leaf) {
            None => Err(internal("refit column offset overflow")),
            Some(at) => Ok(at),
        },
    }
}

/// Why a matrix cell has no position.
pub open spec fn matrix_fault(n: nat, row: nat, col: nat) -> Option<Fault> {
    if row >= n || col >= n {
        Some(Fault::Internal("matrix coordinate out of range"@))
    } else if row * n + col > usize::MAX {
        Some(Fault::Internal("matrix offset overflow"@))
    } else {
        None
    }
}

/// The position of a cell of a square matrix.
pub fn matrix_offset(n: usize, row: usize, col: usize) -> (r: Result<usize, PbError>)
    ensures
        answers(r, matrix_fault(n as nat, row as nat, col as nat)),
        r is Ok ==> r->Ok_0 == row * n + col,
{
    if row >= n || col >= n {
        return Err(internal("matrix coordinate out of range"));
    }
    match row.checked_mul(n) {
        None => Err(internal("matrix offset overflow")),
        Some(o) => match o.checked_add(col) {
            None => Err(internal("matrix offset overflow")),
            Some(at) => Ok(at),
        },
    }
}

/// Why a membership cannot be read.
pub open spec fn membership_fault(m: Seq<u8>, row: nat, tree: nat, n_trees: nat) -> Option<Fault> {
    let at = membership_at(row as int, tree as int, n_trees as int);
    if membership_offset_fault(row, tree, n_trees) is Some {
        membership_offset_fault(row, tree, n_trees)
    } else if at >= m.len() {
        Some(Fault::Internal("leaf membership lookup escaped"@))
    } else if m[at] >= 8 {
        Some(Fault::Internal("leaf membership value escaped 0..8"@))
    } else {
        None
    }
}

/// The leaf of a row in a tree.
pub fn leaf_from_membership(m: &Vec<u8>, row: usize, tree: usize, n_trees: usize) -> (r: Result<
    usize,
    PbError,
>)
    ensures
        answers(r, membership_fault(m@, row as nat, tree as nat, n_trees as nat)),
        r is Ok ==> r->Ok_0 < 8 && r->Ok_0 == m@[membership_at(
            row as int,
            tree as int,
            n_trees as int,
        )],
{
    let at: usize = match membership_offset(row, tree, n_trees) {
        Err(e) => return Err(e),
        Ok(o) => o,
    };
    if at >= m.len() {
        return Err(internal("leaf membership lookup escaped"));
    }
    let leaf: u8 = m[at];
    if leaf >= 8 {
        return Err(internal("leaf membership value escaped 0..8"));
    }
    Ok(leaf as usize)
}

/// Whether a row cannot be walked down a tree.
pub open spec fn unwalkable(splits: Seq<Split>, data: Seq<Vec<u8>>, row: int) -> bool {
    exists|k: int|
        0 <= k < splits.len() && ((#[trigger] splits[k]).axis >= data.len() || row
            >= data[splits[k].axis as int]@.len())
}

/// Why a row has no leaf in one of the trees.
pub open spec fn tree_walk_fault(
    trees: Seq<WeightedTree>,
    data: Seq<Vec<u8>>,
    row: int,
    t: int,
) -> Option<Fault> {
    if unwalkable(trees[t].1.splits@, data, row) {
        Some(Fault::Internal("leaf membership row escaped the split columns"@))
    } else {
        None
    }
}

/// Why a row has no leaf in some tree.
pub open spec fn row_walk_fault(trees: Seq<WeightedTree>, data: Seq<Vec<u8>>, row: int) -> Option<
    Fault,
> {
    first_fault(|t: int| tree_walk_fault(trees, data, row, t), 0, trees.len() as int)
}

/// Why there are no memberships.
pub open spec fn memberships_fault(trees: Seq<WeightedTree>, x: BinnedMatrix) -> Option<Fault> {
    if x.n_rows as nat * trees.len() > usize::MAX {
        Some(Fault::Internal("leaf membership shape overflow"@))
    } else {
        first_fault(|row: int| row_walk_fault(trees, x.data@, row), 0, x.n_rows as int)
    }
}

/// The leaf of a row in a tree.
pub open spec fn leaf_of(trees: Seq<WeightedTree>, data: Seq<Vec<u8>>, row: int, t: int) -> nat {
    leaf_at(trees[t].1.splits@, row_bins(data, row), trees[t].1.splits@.len())
}

/// Whether every tree has the shape that construction gives.
pub open spec fn trees_ok(trees: Seq<WeightedTree>) -> bool {
    forall|t: int| 0 <= t < trees.len() ==> (#[trigger] trees[t]).1.wf()
}

/// The leaf of every row in every tree, row by row.
pub fn leaf_memberships(x: &BinnedMatrix, trees: &Vec<WeightedTree>) -> (r: Result<
    Vec<u8>,
    PbError,
>)
    requires
        trees_ok(trees@),
    ensures
        answers(r, memberships_fault(trees@, *x)),
        r is Ok ==> r->Ok_0@.len() == x.n_rows * trees@.len(),
        r is Ok ==> forall|row: int, t: int|
            0 <= row < x.n_rows && 0 <= t < trees@.len() ==> (#[trigger] r->Ok_0@[membership_at(
                row,
                t,
                trees@.len() as int,
            )]) as nat == leaf_of(trees@, x.data@, row, t) && leaf_of(trees@, x.data@, row, t) < 8,
{
    let n_rows: usize = x.n_rows as usize;
    let n: usize = trees.len();
    if n_rows.checked_mul(n).is_none() {
        return Err(internal("leaf membership shape overflow"));
    }
    let ghost f = |row: int| row_walk_fault(trees@, x.data@, row);
    let mut out: Vec<u8> = Vec::new();
    let mut row: usize = 0;
    assert(0 * n == 0) by (nonlinear_arith);
    while row < n_rows
        invariant
            row <= n_rows,
            n_rows == x.n_rows,
            n == trees@.len(),
            n_rows * n <= usize::MAX,
            trees_ok(trees@),
            f == (|row: int| row_walk_fault(trees@, x.data@, row)),
            forall|j: int| 0 <= j < row ==> (#[trigger] f(j)) is None,
            out@.len() == row * n,
            forall|q: int, t: int|
                0 <= q < row && 0 <= t < n ==> (#[trigger] out@[membership_at(q, t, n as int)]) as nat
                    == leaf_of(trees@, x.data@, q, t) && leaf_of(trees@, x.data@, q, t) < 8,
        decreases n_rows - row,
    {
        proof {
            lemma_first_fault(f, 0, row as int, n_rows as int);
        }
        let ghost g = |t: int| tree_walk_fault(trees@, x.data@, row as int, t);
        let mut t: usize = 0;
        while t < n
            invariant
                t <= n,
                row < n_rows,
                n_rows == x.n_rows,
                n == trees@.len(),
                trees_ok(trees@),
                f == (|row: int| row_walk_fault(trees@, x.data@, row)),
                g == (|t: int| tree_walk_fault(trees@, x.data@, row as int, t)),
                first_fault(f, 0, n_rows as int) == first_fault(f, row as int, n_rows as int),
                n_rows * n <= usize::MAX,
                forall|j: int| 0 <= j < t ==> (#[trigger] g(j)) is None,
                out@.len() == row * n + t,
                forall|q: int, u: int|
                    0 <= q < row && 0 <= u < n ==> (#[trigger] out@[membership_at(
                        q,
                        u,
                        n as int,
                    )]) as nat == leaf_of(trees@, x.data@, q, u) && leaf_of(trees@, x.data@, q, u) < 8,
                forall|u: int|
                    0 <= u < t ==> (#[trigger] out@[membership_at(row as int, u, n as int)]) as nat
                        == leaf_of(trees@, x.data@, row as int, u) && leaf_of(
                        trees@,
                        x.data@,
                        row as int,
                        u,
                    ) < 8,
            decreases n - t,
        {
            assert(trees@[t as int].1.wf());
            proof {
                lemma_first_fault(g, 0, t as int, n as int);
            }
            match walk_row(&trees[t].1.splits, &x.data, row) {
                None => {
                    assert(g(t as int) is Some);
                    assert(f(row as int) is Some);
                    return Err(internal("leaf membership row escaped the split columns"));
                },
                Some(leaf) => {
                    assert(g(t as int) is None);
                    proof {
                        let splits = trees@[t as int].1.splits@;
                        lemma_leaf_at_bound(splits, row_bins(x.data@, row as int), splits.len());
                        lemma2_to64();
                        if splits.len() < 3 {
                            lemma_pow2_strictly_increases(splits.len(), 3);
                        }
                        assert(leaf < 8);
                    }
                    let ghost before = out@;
                    out.push(leaf as u8);
                    proof {
                        assert forall|q: int, u: int| 0 <= q < row && 0 <= u < n implies (
                        #[trigger] out@[membership_at(q, u, n as int)]) as nat == leaf_of(
                            trees@,
                            x.data@,
                            q,
                            u,
                        ) && leaf_of(trees@, x.data@, q, u) < 8 by {
                            law_membership_positions_are_distinct(q, u, q, u, row as int, n as int);
                            assert(out@[membership_at(q, u, n as int)] == before[membership_at(
                                q,
                                u,
                                n as int,
                            )]);
                        }
                    }
                },
            }
            t = t + 1;
        }
        proof {
            lemma_first_fault(g, 0, n as int, n as int);
            assert(f(row as int) is None);
            assert((row + 1) * n == row * n + n) by (nonlinear_arith);
            assert forall|q: int, u: int| 0 <= q < row + 1 && 0 <= u < n implies (
            #[trigger] out@[membership_at(q, u, n as int)]) as nat == leaf_of(trees@, x.data@, q, u)
                && leaf_of(trees@, x.data@, q, u) < 8 by {
                if q == row {
                    assert(out@[membership_at(row as int, u, n as int)] as nat == leaf_of(
                        trees@,
                        x.data@,
                        row as int,
                        u,
                    ));
                }
            }
        }
        row = row + 1;
    }
    proof {
        lemma_first_fault(f, 0, n_rows as int, n_rows as int);
    }
    Ok(out)
}

/// The leaves of all trees, one after the other.
pub open spec fn flat_leaves(trees: Seq<WeightedTree>) -> Seq<F32> {
    Seq::new(trees.len() * 8, |c: int| trees[c / 8].1.leaves@[c % 8])
}

/// Why the leaves do not fill the columns.
pub open spec fn theta_fault(n_trees: nat, n_cols: nat) -> Option<Fault> {
    if n_trees * 8 != n_cols {
        Some(Fault::Internal("refit theta length mismatch"@))
    } else {
        None
    }
}

/// The leaves of all trees, one after the other.
pub fn collect_leaf_theta(trees: &Vec<WeightedTree>, n_cols: usize) -> (r: Result<
    Vec<F32>,
    PbError,
>)
    ensures
        answers(r, theta_fault(trees@.len(), n_cols as nat)),
        r is Ok ==> r->Ok_0@ == flat_leaves(trees@),
{
    let ghost want = flat_leaves(trees@);
    let mut out: Vec<F32> = Vec::new();
    let mut t: usize = 0;
    while t < trees.len()
        invariant
            t <= trees.len(),
            want == flat_leaves(trees@),
            out@.len() == t * 8,
            forall|c: int| 0 <= c < out@.len() ==> #[trigger] out@[c] == want[c],
        decreases trees.len() - t,
    {
        let mut k: usize = 0;
        while k < 8
            invariant
                k <= 8,
                t < trees@.len(),
                want == flat_leaves(trees@),
                out@.len() == t * 8 + k,
                forall|c: int| 0 <= c < out@.len() ==> #[trigger] out@[c] == want[c],
            decreases 8 - k,
        {
            proof {
                assert((t * 8 + k) / 8 == t && (t * 8 + k) % 8 == k);
            }
            out.push(trees[t].1.leaves[k]);
            k = k + 1;
        }
        t = t + 1;
    }
    if out.len() != n_cols {
        return Err(internal("refit theta length mismatch"));
    }
    assert(out@ =~= want);
    Ok(out)
}

/// Writes the leaves of all trees back, one after the other.
pub fn write_leaf_theta(trees: &mut Vec<WeightedTree>, theta: &Vec<F32>)
    requires
        theta@.len() == old(trees)@.len() * 8,
    ensures
        final(trees)@.len() == old(trees)@.len(),
        flat_leaves(final(trees)@) == theta@,
        forall|t: int|
            0 <= t < old(trees)@.len() ==> (#[trigger] final(trees)@[t]).0 == old(trees)@[t].0
                && final(trees)@[t].1.splits@ == old(trees)@[t].1.splits@ && final(trees)@[t].1.depth
                == old(trees)@[t].1.depth,
{
    let n: usize = trees.len();
    let total: usize = theta.len();
    let mut out: Vec<WeightedTree> = Vec::with_capacity(n);
    let mut t: usize = 0;
    while t < n
        invariant
            t <= n,
            n == trees@.len(),
            *trees == *old(trees),
            theta@.len() == n * 8,
            total == theta@.len(),
            out@.len() == t,
            forall|u: int|
                0 <= u < t ==> (#[trigger] out@[u]).0 == trees@[u].0 && out@[u].1.splits@
                    == trees@[u].1.splits@ && out@[u].1.depth == trees@[u].1.depth,
            forall|u: int, k: int|
                0 <= u < t && 0 <= k < 8 ==> (#[trigger] out@[u].1.leaves@[k]) == theta@[u * 8 + k],
        decreases n - t,
    {
        let mut leaves: [F32; 8] = trees[t].1.leaves;
        let mut k: usize = 0;
        while k < 8
            invariant
                k <= 8,
                t < n,
                theta@.len() == n * 8,
                total == theta@.len(),
                forall|j: int| 0 <= j < k ==> #[trigger] leaves@[j] == theta@[t * 8 + j],
            decreases 8 - k,
        {
            leaves.set(k, theta[t * 8 + k]);
            k = k + 1;
        }
        let mut splits: Vec<Split> = Vec::with_capacity(trees[t].1.splits.len());
        let mut s: usize = 0;
        while s < trees[t].1.splits.len()
            invariant
                t < n,
                n == trees@.len(),
                s <= trees@[t as int].1.splits@.len(),
                splits@ =~= trees@[t as int].1.splits@.take(s as int),
            decreases trees@[t as int].1.splits@.len() - s,
        {
            splits.push(trees[t].1.splits[s]);
            s = s + 1;
        }
        assert(trees@[t as int].1.splits@.take(s as int) =~= trees@[t as int].1.splits@);
        out.push((trees[t].0, ObliviousTree { splits, leaves, depth: trees[t].1.depth }));
        t = t + 1;
    }
    proof {
        let flat = flat_leaves(out@);
        assert forall|c: int| 0 <= c < flat.len() implies flat[c] == theta@[c] by {
            let u = c / 8;
            let k = c % 8;
            assert(out@[u].1.leaves@[k] == theta@[u * 8 + k]);
        }
        assert(flat =~= theta@);
    }
    *trees = out;
}

/// Why a row has no leaf value.
pub open spec fn value_fault(
    tree: ObliviousTree,
    data: Seq<Vec<u8>>,
    map: Option<Seq<u8>>,
    r: int,
) -> Option<Fault> {
    match map {
        Some(m) => if r >= m.len() {
            Some(Fault::Internal("update_raw precomputed membership row escaped"@))
        } else if m[r] >= 8 {
            Some(Fault::Internal("update_raw precomputed leaf escaped"@))
        } else {
            None
        },
        None => if unwalkable(tree.splits@, data, r) {
            Some(Fault::Internal("update_raw row escaped the split columns"@))
        } else {
            None
        },
    }
}

/// The leaf value that a tree adds to a row.
pub open spec fn value_at(
    tree: ObliviousTree,
    data: Seq<Vec<u8>>,
    map: Option<Seq<u8>>,
    r: int,
) -> F32 {
    match map {
        Some(m) => tree.leaves@[m[r] as int],
        None => tree.leaves@[leaf_at(tree.splits@, row_bins(data, r), tree.splits@.len()) as int],
    }
}

/// The view of an optional leaf map.
pub open spec fn map_view(map: Option<&Vec<u8>>) -> Option<Seq<u8>> {
    match map {
        Some(m) => Some(m@),
        None => None,
    }
}

/// The value that a tree adds to each of the first `n` rows: by the leaf map of
/// growth where it is given, otherwise by walking the tree.
pub fn tree_values(
    tree: &ObliviousTree,
    x: &BinnedMatrix,
    map: Option<&Vec<u8>>,
    n: usize,
) -> (r: Result<Vec<F32>, PbError>)
    requires
        tree.wf(),
    ensures
        answers(
            r,
            first_fault(|i: int| value_fault(*tree, x.data@, map_view(map), i), 0, n as int),
        ),
        r is Ok ==> r->Ok_0@.len() == n && forall|i: int|
            0 <= i < n ==> #[trigger] r->Ok_0@[i] == value_at(*tree, x.data@, map_view(map), i),
{
    let ghost mv = map_view(map);
    let ghost f = |i: int| value_fault(*tree, x.data@, mv, i);
    let mut out: Vec<F32> = Vec::new();
    let mut i: usize = 0;
    while i < n
        invariant
            i <= n,
            tree.wf(),
            mv == map_view(map),
            f == (|i: int| value_fault(*tree, x.data@, mv, i)),
            forall|j: int| 0 <= j < i ==> (#[trigger] f(j)) is None,
            out@.len() == i,
            forall|j: int| 0 <= j < i ==> #[trigger] out@[j] == value_at(*tree, x.data@, mv, j),
        decreases n - i,
    {
        proof {
            lemma_first_fault(f, 0, i as int, n as int);
        }
        let leaf: usize = match map {
            Some(m) => {
                if i >= m.len() {
                    assert(f(i as int) is Some);
                    return Err(internal("update_raw precomputed membership row escaped"));
                }
                if m[i] >= 8 {
                    assert(f(i as int) is Some);
                    return Err(internal("update_raw precomputed leaf escaped"));
                }
                m[i] as usize
            },
            None => match walk_row(&tree.splits, &x.data, i) {
                None => {
                    assert(f(i as int) is Some);
                    return Err(internal("update_raw row escaped the split columns"));
                },
                Some(leaf) => {
                    proof {
                        lemma_leaf_at_bound(
                            tree.splits@,
                            row_bins(x.data@, i as int),
                            tree.splits@.len(),
                        );
                        lemma2_to64();
                        if tree.splits@.len() < 3 {
                            lemma_pow2_strictly_increases(tree.splits@.len(), 3);
                        }
                    }
                    leaf
                },
            },
        };
        assert(f(i as int) is None);
        out.push(tree.leaves[leaf]);
        i = i + 1;
    }
    proof {
        lemma_first_fault(f, 0, n as int, n as int);
    }
    Ok(out)
}

/// Where the leaf map of growth agrees with the walk, both give the same values.
pub proof fn law_map_and_walk_give_the_same_values(
    tree: ObliviousTree,
    data: Seq<Vec<u8>>,
    map: Seq<u8>,
    r: int,
)
    requires
        map[r] as nat == leaf_at(tree.splits@, row_bins(data, r), tree.splits@.len()),
    ensures
        value_at(tree, data, Some(map), r) == value_at(tree, data, None, r),
{
}

/// Why a membership has no leaf.
pub open spec fn member_value_fault(m: Seq<u8>, i: int) -> Option<Fault> {
    if m[i] >= 8 {
        Some(Fault::Internal("leaf refinement membership leaf escaped"@))
    } else {
        None
    }
}

/// The value of the leaf of each membership.
pub fn member_values(memberships: &Vec<u8>, leaves: &[F32; 8]) -> (r: Result<Vec<F32>, PbError>)
    ensures
        answers(
            r,
            first_fault(
                |i: int| member_value_fault(memberships@, i),
                0,
                memberships@.len() as int,
            ),
        ),
        r is Ok ==> r->Ok_0@.len() == memberships@.len() && forall|i: int|
            0 <= i < memberships@.len() ==> #[trigger] r->Ok_0@[i] == leaves@[memberships@[i] as int],
{
    let ghost f = |i: int| member_value_fault(memberships@, i);
    let mut out: Vec<F32> = Vec::with_capacity(memberships.len());
    let mut i: usize = 0;
    while i < memberships.len()
        invariant
            i <= memberships.len(),
            f == (|i: int| member_value_fault(memberships@, i)),
            forall|j: int| 0 <= j < i ==> (#[trigger] f(j)) is None,
            out@.len() == i,
            forall|j: int| 0 <= j < i ==> #[trigger] out@[j] == leaves@[memberships@[j] as int],
        decreases memberships.len() - i,
    {
        proof {
            lemma_first_fault(f, 0, i as int, memberships@.len() as int);
        }
        let leaf: usize = memberships[i] as usize;
        if leaf >= 8 {
            assert(f(i as int) is Some);
            return Err(internal("leaf refinement membership leaf escaped"));
        }
        assert(f(i as int) is None);
        out.push(leaves[leaf]);
        i = i + 1;
    }
    proof {
        lemma_first_fault(f, 0, memberships@.len() as int, memberships@.len() as int);
    }
    Ok(out)
}

/// The weights of trees.
pub open spec fn alphas_of(trees: Seq<WeightedTree>) -> Seq<F32> {
    trees.map_values(|t: WeightedTree| t.0)
}

/// Why the weights of trees cannot be used.
pub open spec fn alphas_fault(trees: Seq<WeightedTree>) -> Option<Fault> {
    if exists|t: int| 0 <= t < trees.len() && !(#[trigger] trees[t]).0.finite() {
        Some(Fault::InvalidInput("AGBM tree alpha must be finite"@))
    } else {
        None
    }
}

/// The weights of trees.
pub fn collect_tree_alphas(trees: &Vec<WeightedTree>) -> (r: Result<Vec<F32>, PbError>)
    ensures
        answers(r, alphas_fault(trees@)),
        r is Ok ==> r->Ok_0@ == alphas_of(trees@),
{
    let mut out: Vec<F32> = Vec::with_capacity(trees.len());
    let mut t: usize = 0;
    while t < trees.len()
        invariant
            t <= trees.len(),
            out@.len() == t,
            forall|u: int|
                0 <= u < t ==> (#[trigger] trees@[u]).0.finite() && out@[u] == trees@[u].0,
        decreases trees.len() - t,
    {
        if !trees[t].0.is_finite() {
            assert(!trees@[t as int].0.finite());
            return Err(invalid_input("AGBM tree alpha must be finite"));
        }
        out.push(trees[t].0);
        t = t + 1;
    }
    assert(out@ =~= alphas_of(trees@));
    Ok(out)
}

/// Why weights cannot be set.
pub open spec fn set_alphas_fault(n_trees: nat, alphas: Seq<F32>) -> Option<Fault> {
    if n_trees != alphas.len() {
        Some(Fault::ShapeMismatch("AGBM alpha vector length does not match tree count"@))
    } else if exists|t: int| 0 <= t < alphas.len() && !(#[trigger] alphas[t]).finite() {
        Some(Fault::InvalidInput("AGBM alpha must be finite"@))
    } else {
        None
    }
}

/// Sets the weights of trees. Where they are refused, the trees stay as they are.
pub fn set_tree_alphas(trees: &mut Vec<WeightedTree>, alphas: &Vec<F32>) -> (r: Result<(), PbError>)
    ensures
        answers(r, set_alphas_fault(old(trees)@.len(), alphas@)),
        r is Err ==> *final(trees) == *old(trees),
        r is Ok ==> alphas_of(final(trees)@) == alphas@,
        r is Ok ==> forall|t: int|
            0 <= t < old(trees)@.len() ==> (#[trigger] final(trees)@[t]).1 == old(trees)@[t].1,
{
    if trees.len() != alphas.len() {
        return Err(shape_mismatch("AGBM alpha vector length does not match tree count"));
    }
    let mut i: usize = 0;
    while i < alphas.len()
        invariant
            i <= alphas.len(),
            trees@.len() == alphas@.len(),
            *trees == *old(trees),
            forall|u: int| 0 <= u < i ==> (#[trigger] alphas@[u]).finite(),
        decreases alphas.len() - i,
    {
        if !alphas[i].is_finite() {
            assert(!alphas@[i as int].finite());
            return Err(invalid_input("AGBM alpha must be finite"));
        }
        i = i + 1;
    }
    let n: usize = trees.len();
    let mut t: usize = 0;
    while t < n
        invariant
            t <= n,
            n == alphas@.len(),
            trees@.len() == n,
            old(trees)@.len() == n,
            forall|u: int| 0 <= u < n ==> (#[trigger] trees@[u]).1 == old(trees)@[u].1,
            forall|u: int| 0 <= u < t ==> (#[trigger] trees@[u]).0 == alphas@[u],
        decreases n - t,
    {
        trees[t].0 = alphas[t];
        t = t + 1;
    }
    assert(alphas_of(trees@) =~= alphas@);
    Ok(())
}

/// The columns of leaves are told apart: a column belongs to one tree and one of
/// its eight leaves.
pub proof fn law_leaf_columns_are_distinct(trees: Seq<WeightedTree>, t: int, leaf: int)
    requires
        0 <= t < trees.len(),
        0 <= leaf < 8,
    ensures
        flat_leaves(trees).len() == 8 * trees.len(),
        flat_leaves(trees)[8 * t + leaf] == trees[t].1.leaves@[leaf],
{
    assert((8 * t + leaf) / 8 == t && (8 * t + leaf) % 8 == leaf);
}

/// A membership is read exactly when it is there and names one of eight leaves.
pub proof fn law_memberships_name_leaves(m: Seq<u8>, row: nat, tree: nat, n_trees: nat)
    requires
        m.len() <= usize::MAX,
    ensures
        membership_fault(m, row, tree, n_trees) is None <==> row * n_trees + tree < m.len()
            && m[row as int * n_trees as int + tree as int] < 8,
{
}

/// Memberships are found exactly when they fit into memory and every row is walked,
/// and a row is walked exactly when it has a bin on every axis that a tree splits on.
pub proof fn law_memberships_need_the_axes_of_the_trees(
    trees: Seq<WeightedTree>,
    x: BinnedMatrix,
    row: int,
)
    requires
        0 <= row,
    ensures
        memberships_fault(trees, x) is None <==> x.n_rows as nat * trees.len() <= usize::MAX
            && forall|r: int|
            0 <= r < x.n_rows ==> #[trigger] row_walk_fault(trees, x.data@, r) is None,
        row_walk_fault(trees, x.data@, row) is None <==> forall|t: int, k: int|
            0 <= t < trees.len() && 0 <= k < trees[t].1.splits@.len() ==> (
            #[trigger] trees[t].1.splits@[k]).axis < x.data@.len() && row
                < x.data@[trees[t].1.splits@[k].axis as int]@.len(),
{
    let f = |r: int| row_walk_fault(trees, x.data@, r);
    lemma_no_fault(f, x.n_rows as int);
    if forall|r: int| 0 <= r < x.n_rows ==> (#[trigger] f(r)) is None {
        assert forall|r: int| 0 <= r < x.n_rows implies #[trigger] row_walk_fault(
            trees,
            x.data@,
            r,
        ) is None by {
            assert(f(r) is None);
        }
    }
    let g = |t: int| tree_walk_fault(trees, x.data@, row, t);
    lemma_no_fault(g, trees.len() as int);
    if forall|t: int| 0 <= t < trees.len() ==> (#[trigger] g(t)) is None {
        assert forall|t: int, k: int|
            0 <= t < trees.len() && 0 <= k < trees[t].1.splits@.len() implies (
        #[trigger] trees[t].1.splits@[k]).axis < x.data@.len() && row
            < x.data@[trees[t].1.splits@[k].axis as int]@.len() by {
            assert(g(t) is None);
            assert(!unwalkable(trees[t].1.splits@, x.data@, row));
        }
    } else {
        let t = choose|t: int| 0 <= t < trees.len() && !((#[trigger] g(t)) is None);
        let splits = trees[t].1.splits@;
        let k = choose|k: int|
            0 <= k < splits.len() && ((#[trigger] splits[k]).axis >= x.data@.len() || row
                >= x.data@[splits[k].axis as int]@.len());
        assert(trees[t].1.splits@[k] == splits[k]);
    }
}

/// Weights are collected exactly when all are finite, and set exactly when they are
/// finite and as many as there are trees.
pub proof fn law_finite_weights_are_carried(trees: Seq<WeightedTree>, alphas: Seq<F32>)
    ensures
        alphas_fault(trees) is None <==> forall|t: int|
            0 <= t < trees.len() ==> (#[trigger] trees[t]).0.finite(),
        set_alphas_fault(trees.len(), alphas) is None <==> trees.len() == alphas.len() && forall|
            t: int,
        |
            0 <= t < alphas.len() ==> (#[trigger] alphas[t]).finite(),
        alphas_of(trees).len() == trees.len(),
        forall|t: int| 0 <= t < trees.len() ==> #[trigger] alphas_of(trees)[t] == trees[t].0,
{
}

/// Leaf values are collected exactly when there are eight columns for each tree, and
/// a row is given one exactly when it has one of eight leaves.
pub proof fn law_values_come_from_eight_leaves(
    tree: ObliviousTree,
    data: Seq<Vec<u8>>,
    m: Seq<u8>,
    r: int,
    n_trees: nat,
    n_cols: nat,
    leaf: nat,
)
    ensures
        theta_fault(n_trees, n_cols) is None <==> n_cols == 8 * n_trees,
        refit_col_fault(n_trees, leaf) is None <==> 8 * n_trees + leaf <= usize::MAX,
        value_fault(tree, data, Some(m), r) is None <==> r < m.len() && m[r] < 8,
        value_fault(tree, data, None, r) is None <==> forall|k: int|
            0 <= k < tree.splits@.len() ==> (#[trigger] tree.splits@[k]).axis < data.len() && r
                < data[tree.splits@[k].axis as int]@.len(),
        member_value_fault(m, r) is None <==> m[r] < 8,
{
}

} // verus!
