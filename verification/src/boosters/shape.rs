//! Row-major shapes: cell counts, coordinates, and the odometer that walks them.
use crate::error::{answers, internal, Fault, PbError};
use vstd::prelude::*;

verus! {

/// The number of cells over the first `n` axes.
pub open spec fn cells(shape: Seq<usize>, n: nat) -> nat
    decreases n,
{
    if n == 0 {
        1
    } else {
        cells(shape, (n - 1) as nat) * (shape[n - 1] as nat)
    }
}

/// The row-major index of a coordinate over the first `n` axes.
pub open spec fn flat_of(shape: Seq<usize>, coord: Seq<int>, n: nat) -> int
    decreases n,
{
    if n == 0 {
        0
    } else {
        flat_of(shape, coord, (n - 1) as nat) * shape[n - 1] + coord[n - 1]
    }
}

/// The coordinate of a row-major index over the first `n` axes; the last axis
/// moves fastest.
pub open spec fn coord_of(shape: Seq<usize>, flat: int, n: nat) -> Seq<int>
    decreases n,
{
    if n == 0 {
        Seq::empty()
    } else {
        coord_of(shape, flat / (shape[n - 1] as int), (n - 1) as nat).push(
            flat % (shape[n - 1] as int),
        )
    }
}

/// Whether a coordinate lies within a shape.
pub open spec fn in_range(coord: Seq<int>, shape: Seq<usize>) -> bool {
    &&& coord.len() == shape.len()
    &&& forall|k: int| 0 <= k < shape.len() ==> 0 <= #[trigger] coord[k] < shape[k]
}

/// The coordinate held by a vector.
pub open spec fn ints(coord: Seq<usize>) -> Seq<int> {
    coord.map_values(|c: usize| c as int)
}

/// A coordinate within the shape has an index below the cell count.
pub proof fn law_flat_is_bounded(shape: Seq<usize>, coord: Seq<int>, n: nat)
    requires
        n <= shape.len(),
        in_range(coord, shape),
    ensures
        0 <= flat_of(shape, coord, n) < cells(shape, n),
    decreases n,
{
    if n > 0 {
        law_flat_is_bounded(shape, coord, (n - 1) as nat);
        let q = flat_of(shape, coord, (n - 1) as nat);
        let e = shape[n - 1] as int;
        let c = cells(shape, (n - 1) as nat) as int;
        assert(0 <= coord[n - 1] < e);
        assert(0 <= q * e + coord[n - 1] < c * e) by (nonlinear_arith)
            requires
                0 <= q < c,
                0 <= coord[n - 1] < e,
        ;
    }
}

/// Reading an index back gives its coordinate.
pub proof fn law_coord_inverts_flat(shape: Seq<usize>, coord: Seq<int>, n: nat)
    requires
        n <= shape.len(),
        in_range(coord, shape),
    ensures
        coord_of(shape, flat_of(shape, coord, n), n) == coord.take(n as int),
    decreases n,
{
    if n > 0 {
        law_coord_inverts_flat(shape, coord, (n - 1) as nat);
        let q = flat_of(shape, coord, (n - 1) as nat);
        let e = shape[n - 1] as int;
        let r = coord[n - 1];
        assert(0 <= r < e);
        assert((q * e + r) / e == q && (q * e + r) % e == r) by {
            vstd::arithmetic::div_mod::lemma_fundamental_div_mod_converse(q * e + r, e, q, r);
        }
    }
    assert(coord_of(shape, flat_of(shape, coord, n), n) =~= coord.take(n as int));
}

/// Every index below the cell count has a coordinate within the shape.
pub proof fn law_coord_is_in_range(shape: Seq<usize>, flat: int, n: nat)
    requires
        n <= shape.len(),
        0 <= flat < cells(shape, n),
    ensures
        coord_of(shape, flat, n).len() == n,
        forall|k: int| 0 <= k < n ==> 0 <= #[trigger] coord_of(shape, flat, n)[k] < shape[k],
        flat_of(shape, coord_of(shape, flat, n), n) == flat,
    decreases n,
{
    if n > 0 {
        let e = shape[n - 1] as int;
        let c = cells(shape, (n - 1) as nat) as int;
        assert(e > 0) by (nonlinear_arith)
            requires
                0 <= flat < c * e,
                e >= 0,
                c >= 0,
        ;
        assert(0 <= flat / e < c && 0 <= flat % e < e && flat == (flat / e) * e + flat % e) by (
        nonlinear_arith)
            requires
                0 <= flat < c * e,
                e > 0,
        ;
        law_coord_is_in_range(shape, flat / e, (n - 1) as nat);
        let rest = coord_of(shape, flat / e, (n - 1) as nat);
        let full = coord_of(shape, flat, n);
        lemma_flat_prefix(shape, rest, full, (n - 1) as nat);
    }
}

proof fn lemma_flat_prefix(shape: Seq<usize>, a: Seq<int>, b: Seq<int>, n: nat)
    requires
        n <= a.len(),
        n <= b.len(),
        forall|k: int| 0 <= k < n ==> a[k] == b[k],
    ensures
        flat_of(shape, a, n) == flat_of(shape, b, n),
    decreases n,
{
    if n > 0 {
        lemma_flat_prefix(shape, a, b, (n - 1) as nat);
    }
}

/// Carrying over the axes from `k` on raises the index by one.
proof fn lemma_carry(shape: Seq<usize>, old_coord: Seq<int>, new_coord: Seq<int>, k: nat, n: nat)
    requires
        k <= n,
        flat_of(shape, new_coord, k) == flat_of(shape, old_coord, k) + 1,
        forall|j: int|
            k <= j < n ==> #[trigger] old_coord[j] == shape[j] - 1 && new_coord[j] == 0,
    ensures
        flat_of(shape, new_coord, n) == flat_of(shape, old_coord, n) + 1,
    decreases n,
{
    if n > k {
        lemma_carry(shape, old_coord, new_coord, k, (n - 1) as nat);
        let q = flat_of(shape, old_coord, (n - 1) as nat);
        let e = shape[n - 1] as int;
        assert(old_coord[n - 1] == e - 1);
        assert((q + 1) * e == q * e + e) by (nonlinear_arith);
    }
}

/// A coordinate at the end of every axis is the last one.
proof fn lemma_last(shape: Seq<usize>, coord: Seq<int>, n: nat)
    requires
        forall|j: int| 0 <= j < n ==> #[trigger] coord[j] == shape[j] - 1,
    ensures
        flat_of(shape, coord, n) + 1 == cells(shape, n),
    decreases n,
{
    if n > 0 {
        lemma_last(shape, coord, (n - 1) as nat);
        let q = flat_of(shape, coord, (n - 1) as nat);
        let e = shape[n - 1] as int;
        assert(coord[n - 1] == e - 1);
        assert((q + 1) * e == q * e + e) by (nonlinear_arith);
    }
}

/// Moves a coordinate on by one cell, the last axis fastest; past the last cell
/// it starts again and says so.
pub fn next_coord(coord: &mut Vec<usize>, extents: &Vec<usize>) -> (more: bool)
    requires
        in_range(ints(old(coord)@), extents@),
    ensures
        in_range(ints(final(coord)@), extents@),
        more ==> flat_of(extents@, ints(final(coord)@), extents@.len()) == flat_of(
            extents@,
            ints(old(coord)@),
            extents@.len(),
        ) + 1,
        !more ==> flat_of(extents@, ints(old(coord)@), extents@.len()) + 1 == cells(
            extents@,
            extents@.len(),
        ) && forall|k: int| 0 <= k < extents@.len() ==> #[trigger] final(coord)@[k] == 0,
{
    let n: usize = extents.len();
    let ghost before = ints(coord@);
    let mut k: usize = n;
    while k > 0
        invariant
            k <= n,
            n == extents@.len(),
            before == ints(old(coord)@),
            in_range(before, extents@),
            in_range(ints(coord@), extents@),
            coord@.len() == n,
            forall|j: int| 0 <= j < k ==> #[trigger] coord@[j] == before[j],
            forall|j: int| k <= j < n ==> #[trigger] coord@[j] == 0,
            forall|j: int| k <= j < n ==> #[trigger] before[j] == extents@[j] - 1,
        decreases k,
    {
        k = k - 1;
        let e: usize = extents[k];
        let v: usize = coord[k];
        assert(ints(coord@)[k as int] == v);
        assert(before[k as int] < extents@[k as int]);
        if v + 1 < e {
            coord.set(k, v + 1);
            proof {
                let now = ints(coord@);
                assert forall|j: int| 0 <= j < n implies 0 <= #[trigger] now[j] < extents@[j] by {
                    assert(before[j] < extents@[j]);
                }
                lemma_flat_prefix(extents@, before, now, k as nat);
                lemma_carry(extents@, before, now, (k + 1) as nat, n as nat);
            }
            return true;
        }
        let ghost mid = coord@;
        coord.set(k, 0);
        proof {
            let now = ints(coord@);
            assert forall|j: int| 0 <= j < n implies 0 <= #[trigger] now[j] < extents@[j] by {
                assert(before[j] < extents@[j]);
                if j != k {
                    assert(ints(mid)[j] == now[j]);
                }
            }
        }
    }
    proof {
        lemma_last(extents@, before, n as nat);
    }
    false
}

/// Whether the cell count of some leading axes leaves the machine's range.
pub open spec fn cells_overflow(shape: Seq<usize>) -> bool {
    exists|k: int| 0 <= k <= shape.len() && #[trigger] cells(shape, k as nat) > u64::MAX
}

/// Why a shape has no cell count.
pub open spec fn product_fault(shape: Seq<usize>) -> Option<Fault> {
    if cells_overflow(shape) {
        Some(Fault::Internal("tensor cell count overflow"@))
    } else {
        None
    }
}

/// The number of cells of a shape.
pub fn product_cells(extents: &Vec<usize>) -> (r: Result<u64, PbError>)
    ensures
        answers(r, product_fault(extents@)),
        r is Ok ==> r->Ok_0 == cells(extents@, extents@.len()),
{
    let mut acc: u64 = 1;
    let mut k: usize = 0;
    while k < extents.len()
        invariant
            k <= extents.len(),
            acc == cells(extents@, k as nat),
            forall|j: int| 0 <= j <= k ==> #[trigger] cells(extents@, j as nat) <= u64::MAX,
        decreases extents.len() - k,
    {
        assert(cells(extents@, (k + 1) as nat) == acc * extents@[k as int]);
        match acc.checked_mul(extents[k] as u64) {
            None => {
                assert(cells(extents@, (k + 1) as nat) > u64::MAX);
                return Err(internal("tensor cell count overflow"));
            },
            Some(next) => {
                acc = next;
            },
        }
        k = k + 1;
    }
    Ok(acc)
}

/// How many of the first `n` cells of axis `k` go to `s` under `m`.
pub open spec fn hits(m: spec_fn(int, int) -> int, k: int, s: int, n: nat) -> nat
    decreases n,
{
    if n == 0 {
        0
    } else {
        hits(m, k, s, (n - 1) as nat) + if m(k, n - 1) == s {
            1nat
        } else {
            0nat
        }
    }
}

/// The product of the hits over the first `n` axes.
pub open spec fn hits_product(
    m: spec_fn(int, int) -> int,
    shape: Seq<usize>,
    s: Seq<int>,
    n: nat,
) -> nat
    decreases n,
{
    if n == 0 {
        1
    } else {
        hits_product(m, shape, s, (n - 1) as nat) * hits(m, n - 1, s[n - 1], shape[n - 1] as nat)
    }
}

/// Whether the cell at an index goes to `s` on each of the first `n` axes.
pub open spec fn goes_to(
    m: spec_fn(int, int) -> int,
    shape: Seq<usize>,
    s: Seq<int>,
    flat: int,
    n: nat,
) -> bool {
    forall|k: int| 0 <= k < n ==> m(k, #[trigger] coord_of(shape, flat, n)[k]) == s[k]
}

/// How many of the first `limit` cells go to `s`.
pub open spec fn cells_going_to(
    m: spec_fn(int, int) -> int,
    shape: Seq<usize>,
    s: Seq<int>,
    n: nat,
    limit: nat,
) -> nat
    decreases limit,
{
    if limit == 0 {
        0
    } else {
        cells_going_to(m, shape, s, n, (limit - 1) as nat) + if goes_to(m, shape, s, limit - 1, n) {
            1nat
        } else {
            0nat
        }
    }
}

/// Counting cells axis by axis: the cells that go to `s` are as many as the
/// product, over the axes, of the axis cells that go there.
pub proof fn law_cells_going_to_is_a_product(
    m: spec_fn(int, int) -> int,
    shape: Seq<usize>,
    s: Seq<int>,
    n: nat,
)
    requires
        n <= shape.len(),
        n <= s.len(),
        forall|k: int| 0 <= k < n ==> (#[trigger] shape[k]) > 0,
    ensures
        cells_going_to(m, shape, s, n, cells(shape, n)) == hits_product(m, shape, s, n),
    decreases n,
{
    if n == 0 {
        assert(goes_to(m, shape, s, 0, 0));
        assert(cells_going_to(m, shape, s, 0, 0) == 0);
    } else {
        law_cells_going_to_is_a_product(m, shape, s, (n - 1) as nat);
        assert(shape[n - 1] > 0);
        lemma_rows_of_cells(m, shape, s, n, cells(shape, (n - 1) as nat), 0);
    }
}

/// The count after `q` full rows and `r` cells of the next.
proof fn lemma_rows_of_cells(
    m: spec_fn(int, int) -> int,
    shape: Seq<usize>,
    s: Seq<int>,
    n: nat,
    q: nat,
    r: nat,
)
    requires
        0 < n <= shape.len(),
        n <= s.len(),
        shape[n - 1] > 0,
        r <= shape[n - 1],
    ensures
        cells_going_to(m, shape, s, n, q * (shape[n - 1] as nat) + r) == cells_going_to(
            m,
            shape,
            s,
            (n - 1) as nat,
            q,
        ) * hits(m, n - 1, s[n - 1], shape[n - 1] as nat) + (if goes_to(
            m,
            shape,
            s,
            q as int,
            (n - 1) as nat,
        ) {
            hits(m, n - 1, s[n - 1], r)
        } else {
            0
        }),
    decreases q, r,
{
    let e = shape[n - 1] as nat;
    let p = (n - 1) as nat;
    let h = hits(m, n - 1, s[n - 1], e);
    if r == 0 {
        if q == 0 {
            assert(0 * e + 0 == 0) by (nonlinear_arith);
            assert(0 * h == 0) by (nonlinear_arith);
        } else {
            lemma_rows_of_cells(m, shape, s, n, (q - 1) as nat, e);
            assert((q - 1) * e + e == q * e) by (nonlinear_arith);
            let c = cells_going_to(m, shape, s, p, (q - 1) as nat);
            if goes_to(m, shape, s, q - 1, p) {
                assert((c + 1) * h == c * h + h) by (nonlinear_arith);
            }
        }
    } else {
        lemma_rows_of_cells(m, shape, s, n, q, (r - 1) as nat);
        let flat = q * e + (r - 1);
        assert(flat / (e as int) == q && flat % (e as int) == r - 1) by {
            vstd::arithmetic::div_mod::lemma_fundamental_div_mod_converse(
                flat,
                e as int,
                q as int,
                r - 1,
            );
        }
        let full = coord_of(shape, flat, n);
        let rest = coord_of(shape, q as int, p);
        lemma_coord_len(shape, q as int, p);
        assert(full == rest.push(r - 1));
        assert(goes_to(m, shape, s, flat, n) <==> goes_to(m, shape, s, q as int, p) && m(n - 1, r - 1)
            == s[n - 1]) by {
            if goes_to(m, shape, s, flat, n) {
                assert forall|k: int| 0 <= k < p implies m(k, #[trigger] rest[k]) == s[k] by {
                    assert(full[k] == rest[k]);
                }
                assert(full[n - 1] == r - 1);
            }
            if goes_to(m, shape, s, q as int, p) && m(n - 1, r - 1) == s[n - 1] {
                assert forall|k: int| 0 <= k < n implies m(k, #[trigger] full[k]) == s[k] by {
                    if k < p {
                        assert(full[k] == rest[k]);
                    }
                }
            }
        }
    }
}

proof fn lemma_coord_len(shape: Seq<usize>, flat: int, n: nat)
    ensures
        coord_of(shape, flat, n).len() == n,
    decreases n,
{
    if n > 0 {
        lemma_coord_len(shape, flat / (shape[n - 1] as int), (n - 1) as nat);
    }
}

/// Cells are laid out row by row: the last axis moves fastest.
pub proof fn law_cells_are_laid_out_row_by_row(shape: Seq<usize>, coord: Seq<int>)
    requires
        shape.len() <= 3,
        coord.len() == shape.len(),
    ensures
        shape.len() == 1 ==> flat_of(shape, coord, 1) == coord[0] && cells(shape, 1) == shape[0],
        shape.len() == 2 ==> flat_of(shape, coord, 2) == coord[0] * shape[1] + coord[1] && cells(
            shape,
            2,
        ) == shape[0] * shape[1],
        shape.len() == 3 ==> flat_of(shape, coord, 3) == (coord[0] * shape[1] + coord[1]) * shape[2]
            + coord[2] && cells(shape, 3) == shape[0] * shape[1] * shape[2],
{
    reveal_with_fuel(flat_of, 4);
    reveal_with_fuel(cells, 4);
    let a = shape[0] as int;
    assert(0 * a == 0 && 1 * a == a);
}

} // verus!
