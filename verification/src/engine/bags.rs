//! Bagging: how many fits there are, on which rows, and with which seeds.
use crate::backend::{pcg_numbers_of_seed, seed_of, Stage};
use crate::draw::{is_draw, law_draw_is_unique};
use crate::engine::rows::{
    bootstrap_fault, bootstrap_row, bootstrap_rows, law_bootstraps_number_their_rows, positions,
    subagging_fault, subagging_rows,
};
use crate::engine::select::bag_seed;
use crate::error::{answers, first_fault, lemma_first_fault, lemma_no_fault, Fault, PbError};
use crate::seed_laws::law_seed_injective_in_round;
use vstd::prelude::*;

verus! {

/// How the rows of a bag are drawn.
#[derive(Debug, Clone, Copy, PartialEq, Eq, Structural)]
pub enum BagDraw {
    /// As many as there are, with replacement.
    Replaced,
    /// So many of them, at least one, without replacement.
    Share { rows: usize },
}

/// One fit of a bagged ensemble.
#[derive(Debug, Clone, PartialEq)]
pub struct BagFit {
    pub rows: Vec<u32>,
    pub seed: u64,
}

/// The fits of a bagged ensemble.
#[derive(Debug, Clone, PartialEq)]
pub enum BagPlan {
    /// One fit, on the data as they are.
    Plain,
    /// One fit per bag, averaged.
    Bags(Vec<BagFit>),
}

/// Why the rows of a bag cannot be drawn.
pub open spec fn bag_fault(seed: u64, draw: BagDraw, n_rows: nat, bag: u32) -> Option<Fault> {
    match draw {
        BagDraw::Replaced => if n_rows == 0 {
            None
        } else {
            first_fault(|i: int| bootstrap_fault(seed, bag, n_rows, i), 0, n_rows as int)
        },
        BagDraw::Share { .. } => subagging_fault(n_rows),
    }
}

/// The size of a bag that is to hold `k` rows of `n`.
pub open spec fn share_len(k: usize, n: nat) -> nat {
    let asked: nat = if k == 0 {
        1
    } else {
        k as nat
    };
    if asked < n {
        asked
    } else {
        n
    }
}

/// Whether a fit is that of a bag.
pub open spec fn is_bag(b: BagFit, seed: u64, draw: BagDraw, n_rows: nat, bag: u32) -> bool {
    &&& b.seed == seed_of(seed, bag, Stage::Sample.code(), 0)
    &&& match draw {
        BagDraw::Replaced => {
            &&& b.rows@.len() == n_rows
            &&& forall|i: int|
                0 <= i < n_rows ==> (#[trigger] b.rows@[i]) as nat == bootstrap_row(
                    seed,
                    bag,
                    n_rows,
                    i,
                )
        },
        BagDraw::Share { rows } => is_draw(
            positions(b.rows@),
            n_rows,
            share_len(rows, n_rows),
            pcg_numbers_of_seed(seed_of(seed, bag, Stage::Sample.code(), 0)),
        ),
    }
    &&& forall|i: int| 0 <= i < b.rows@.len() ==> (#[trigger] b.rows@[i]) < n_rows
}

fn fit_of_bag(seed: u64, draw: BagDraw, n_rows: usize, bag: u32) -> (r: Result<BagFit, PbError>)
    ensures
        answers(r, bag_fault(seed, draw, n_rows as nat, bag)),
        r is Ok ==> is_bag(r->Ok_0, seed, draw, n_rows as nat, bag),
{
    let drawn = match draw {
        BagDraw::Replaced => bootstrap_rows(seed, bag, n_rows, n_rows),
        BagDraw::Share { rows } => {
            let k: usize = if rows == 0 {
                1
            } else {
                rows
            };
            subagging_rows(seed, bag, n_rows, k)
        },
    };
    match drawn {
        Err(e) => Err(e),
        Ok(rows) => Ok(BagFit { rows, seed: bag_seed(seed, bag) }),
    }
}

/// Plans a bagged ensemble. One bag is the plain fit: all rows as they are, and
/// no draw that could fail. Otherwise each bag has its own rows and its own seed.
pub fn plan_bags(seed: u64, draw: BagDraw, n_rows: usize, n_bags: u16) -> (r: Result<
    BagPlan,
    PbError,
>)
    ensures
        n_bags == 1 ==> r == Ok::<BagPlan, PbError>(BagPlan::Plain),
        n_bags != 1 ==> answers(
            r,
            first_fault(
                |b: int| bag_fault(seed, draw, n_rows as nat, b as u32),
                0,
                n_bags as int,
            ),
        ),
        n_bags != 1 && r is Ok ==> r->Ok_0 is Bags && r->Ok_0->Bags_0@.len() == n_bags && forall|
            b: int,
        |
            0 <= b < n_bags ==> is_bag(
                #[trigger] r->Ok_0->Bags_0@[b],
                seed,
                draw,
                n_rows as nat,
                b as u32,
            ),
{
    if n_bags == 1 {
        return Ok(BagPlan::Plain);
    }
    let ghost f = |b: int| bag_fault(seed, draw, n_rows as nat, b as u32);
    let mut bags: Vec<BagFit> = Vec::with_capacity(n_bags as usize);
    let mut b: u16 = 0;
    while b < n_bags
        invariant
            b <= n_bags,
            n_bags != 1,
            f == (|b: int| bag_fault(seed, draw, n_rows as nat, b as u32)),
            forall|i: int| 0 <= i < b ==> #[trigger] f(i) is None,
            bags@.len() == b,
            forall|i: int|
                0 <= i < b ==> is_bag(#[trigger] bags@[i], seed, draw, n_rows as nat, i as u32),
        decreases n_bags - b,
    {
        match fit_of_bag(seed, draw, n_rows, b as u32) {
            Err(e) => {
                proof {
                    assert(f(b as int) == bag_fault(seed, draw, n_rows as nat, b as u32));
                    lemma_first_fault(f, 0, b as int, n_bags as int);
                }
                return Err(e);
            },
            Ok(fit) => {
                assert(f(b as int) is None);
                bags.push(fit);
            },
        }
        b = b + 1;
    }
    proof {
        lemma_first_fault(f, 0, n_bags as int, n_bags as int);
    }
    Ok(BagPlan::Bags(bags))
}

/// A bag is determined by its number and the seed: its rows and its own seed are
/// the same whenever it is planned.
pub proof fn law_bags_are_determined(
    a: BagFit,
    b: BagFit,
    seed: u64,
    draw: BagDraw,
    n_rows: nat,
    bag: u32,
)
    requires
        is_bag(a, seed, draw, n_rows, bag),
        is_bag(b, seed, draw, n_rows, bag),
    ensures
        a.rows@ == b.rows@,
        a.seed == b.seed,
{
    if draw is Share {
        let (x, y) = (positions(a.rows@), positions(b.rows@));
        law_draw_is_unique(
            x,
            y,
            n_rows,
            share_len(draw->rows, n_rows),
            pcg_numbers_of_seed(seed_of(seed, bag, Stage::Sample.code(), 0)),
        );
        assert(x.len() == a.rows@.len() && y.len() == b.rows@.len());
        assert forall|i: int| 0 <= i < a.rows@.len() implies a.rows@[i] == b.rows@[i] by {
            assert(x[i] == y[i]);
        }
    }
    assert(a.rows@ =~= b.rows@);
}

/// A bag drawn as a share holds that many different rows, at least one and at most
/// all; a bag drawn with replacement holds as many as there are, each the seed of
/// its position modulo their number.
pub proof fn law_bags_are_as_large_as_planned(
    b: BagFit,
    seed: u64,
    draw: BagDraw,
    n_rows: nat,
    bag: u32,
    i: int,
)
    requires
        is_bag(b, seed, draw, n_rows, bag),
        0 < n_rows <= u32::MAX,
        0 <= i < b.rows@.len(),
    ensures
        b.rows@[i] < n_rows,
        draw is Replaced ==> b.rows@.len() == n_rows && b.rows@[i] as int == seed_of(
            seed,
            bag,
            Stage::Sample.code(),
            i as u32,
        ) as int % n_rows as int,
        draw matches BagDraw::Share { rows } ==> {
            &&& 1 <= rows <= n_rows ==> b.rows@.len() == rows
            &&& rows == 0 ==> b.rows@.len() == 1
            &&& rows > n_rows ==> b.rows@.len() == n_rows
            &&& forall|j: int| i < j < b.rows@.len() ==> b.rows@[i] < b.rows@[j]
        },
{
    if draw is Share {
        let at = positions(b.rows@);
        assert(at.len() == b.rows@.len());
        assert forall|j: int| i < j < b.rows@.len() implies b.rows@[i] < b.rows@[j] by {
            assert(at[i] < at[j]);
        }
    } else {
        assert(b.rows@[i] as nat == bootstrap_row(seed, bag, n_rows, i));
    }
}

/// No two bags of a fit share their seed.
pub proof fn law_bags_have_their_own_seeds(
    a: BagFit,
    b: BagFit,
    seed: u64,
    draw: BagDraw,
    n_rows: nat,
    i: u32,
    j: u32,
)
    requires
        is_bag(a, seed, draw, n_rows, i),
        is_bag(b, seed, draw, n_rows, j),
        i != j,
    ensures
        a.seed != b.seed,
{
    if a.seed == b.seed {
        law_seed_injective_in_round(seed, i, j, Stage::Sample.code(), 0);
    }
}

/// A bag is drawn exactly when 32 bits number its rows.
pub proof fn law_drawn_bags_number_their_rows(seed: u64, draw: BagDraw, n_rows: nat, bag: u32)
    ensures
        draw is Share ==> (bag_fault(seed, draw, n_rows, bag) is None <==> n_rows <= 0xffff_ffff),
        draw is Replaced ==> (bag_fault(seed, draw, n_rows, bag) is None <==> n_rows
            <= 0x1_0000_0000),
{
    let f = |i: int| bootstrap_fault(seed, bag, n_rows, i);
    lemma_no_fault(f, n_rows as int);
    if n_rows > 0 {
        if n_rows <= 0x1_0000_0000 {
            assert forall|i: int| 0 <= i < n_rows implies (#[trigger] f(i)) is None by {
                law_bootstraps_number_their_rows(seed, bag, n_rows, i);
            }
        } else {
            law_bootstraps_number_their_rows(seed, bag, n_rows, 0x1_0000_0000);
            assert(f(0x1_0000_0000) is Some);
        }
    }
}

} // verus!
