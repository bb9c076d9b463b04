//! Fitting an encoder: what is refused, what is pooled, and which rows inform
//! which.
use crate::backend::{pb_seed, seed_of, Stage};
use crate::cat::{
    copy_labels, finite_not_negative, str_eq, ts_config_fault, CatTarget, Smooth, TsConfig,
};
use crate::data::grid::opt_view;
use crate::draw::{is_seeded_order, seeded_order};
use crate::error::{
    answers, first_fault, invalid_config, invalid_input, lemma_first_fault, lemma_no_fault,
    refused_setting, Fault, PbError,
};
use crate::float::{F32, F64};
use crate::labels::{before, is_label_order, label_lt, label_order, texts};
use crate::shown::{show, show_double, shown, shown_double};
use crate::text::{dec, decimal, number_last, with_number};
use vstd::prelude::*;

verus! {

/// The label of pooled levels.
pub open spec fn rare_label() -> Seq<char> {
    "__tri_boost_rare__"@
}

/// Two numbers in a message.
fn two_numbers(head: &str, a: u64, mid: &str, b: u64) -> (s: String)
    ensures
        s@ == head@ + dec(a as nat) + mid@ + dec(b as nat),
{
    let mut s = with_number(head, a, mid);
    s.append(decimal(b).as_str());
    s
}

/// Why the columns of a fit are refused.
pub open spec fn fit_fault(
    config: TsConfig,
    levels: nat,
    y: nat,
    weight: Option<nat>,
) -> Option<Fault> {
    if ts_config_fault(config) is Some {
        ts_config_fault(config)
    } else if levels != y {
        Some(Fault::ShapeMismatch("categorical fit: levels="@ + dec(levels) + ", y="@ + dec(y)))
    } else if weight is Some && weight->0 != y {
        Some(Fault::ShapeMismatch("categorical fit: y="@ + dec(y) + ", weight="@ + dec(weight->0)))
    } else {
        None
    }
}

/// Checks the configuration and the lengths of the columns of a fit.
pub fn check_fit(config: &TsConfig, levels: usize, y: usize, weight: Option<usize>) -> (r: Result<
    (),
    PbError,
>)
    ensures
        answers(
            r,
            fit_fault(
                *config,
                levels as nat,
                y as nat,
                match weight {
                    Some(w) => Some(w as nat),
                    None => None,
                },
            ),
        ),
{
    match config.validate() {
        Err(e) => return Err(e),
        Ok(()) => {},
    }
    if levels != y {
        let what = two_numbers("categorical fit: levels=", levels as u64, ", y=", y as u64);
        return Err(PbError::ShapeMismatch { what });
    }
    match weight {
        Some(w) => {
            if w != y {
                let what = two_numbers("categorical fit: y=", y as u64, ", weight=", w as u64);
                return Err(PbError::ShapeMismatch { what });
            }
        },
        None => {},
    }
    Ok(())
}

/// The error about the number of one row.
fn refused_row(head: &str, i: usize, tail: &str, a: F32) -> (e: PbError)
    ensures
        e@ == Fault::InvalidInput(head@ + dec(i as nat) + tail@ + shown(a)),
{
    let mut what = with_number(head, i as u64, tail);
    what.append(show(a).as_str());
    PbError::InvalidInput { what }
}

/// Whether an exposure can be used: finite and above zero.
pub open spec fn usable_exposure(e: F32) -> bool {
    e.finite() && e.key() > 0
}

/// Why row `i` is refused when its terms are formed.
pub open spec fn term_fault(
    y: Seq<F32>,
    weight: Seq<F32>,
    exposure: Option<Seq<F32>>,
    target: CatTarget,
    i: int,
) -> Option<Fault> {
    if !y[i].finite() || !finite_not_negative(weight[i]) {
        Some(
            Fault::InvalidInput(
                "invalid categorical row "@ + dec(i as nat) + ": y="@ + shown(y[i]) + ", weight="@
                    + shown(weight[i]),
            ),
        )
    } else if exposure is Some && !usable_exposure(exposure->0[i]) {
        Some(
            Fault::InvalidInput(
                "categorical exposure["@ + dec(i as nat) + "] must be finite and > 0, got "@ + shown(
                    exposure->0[i],
                ),
            ),
        )
    } else if target == CatTarget::LogMean && y[i].key() <= 0 {
        Some(
            Fault::InvalidInput(
                "cat_target='log_mean' requires y["@ + dec(i as nat) + "] > 0, got "@ + shown(y[i]),
            ),
        )
    } else {
        None
    }
}

/// Why the rows of a fit are refused: the first row that is.
pub open spec fn terms_fault(
    y: Seq<F32>,
    weight: Seq<F32>,
    exposure: Option<Seq<F32>>,
    target: CatTarget,
) -> Option<Fault> {
    if exposure is Some && exposure->0.len() != y.len() {
        Some(
            Fault::ShapeMismatch(
                "categorical fit: y="@ + dec(y.len()) + ", exposure="@ + dec(exposure->0.len()),
            ),
        )
    } else {
        first_fault(|i: int| term_fault(y, weight, exposure, target, i), 0, y.len() as int)
    }
}

/// Checks every row of a fit.
pub fn check_row_terms(
    y: &Vec<F32>,
    weight: &Vec<F32>,
    exposure: Option<&Vec<F32>>,
    target: CatTarget,
) -> (r: Result<(), PbError>)
    requires
        weight@.len() == y@.len(),
    ensures
        answers(r, terms_fault(y@, weight@, opt_view(exposure), target)),
{
    let ghost ex = opt_view(exposure);
    match exposure {
        Some(e) => {
            if e.len() != y.len() {
                let what = two_numbers(
                    "categorical fit: y=",
                    y.len() as u64,
                    ", exposure=",
                    e.len() as u64,
                );
                return Err(PbError::ShapeMismatch { what });
            }
        },
        None => {},
    }
    let ghost f = |i: int| term_fault(y@, weight@, ex, target, i);
    let mut i: usize = 0;
    while i < y.len()
        invariant
            i <= y.len(),
            weight@.len() == y@.len(),
            ex == opt_view(exposure),
            ex is Some ==> ex->0.len() == y@.len(),
            f == (|i: int| term_fault(y@, weight@, ex, target, i)),
            forall|j: int| 0 <= j < i ==> (#[trigger] f(j)) is None,
        decreases y.len() - i,
    {
        proof {
            lemma_first_fault(f, 0, i as int, y@.len() as int);
        }
        if !y[i].is_finite() || !weight[i].is_finite() || weight[i].order_key() < 0 {
            assert(f(i as int) is Some);
            let mut what = with_number("invalid categorical row ", i as u64, ": y=");
            what.append(show(y[i]).as_str());
            what.append(", weight=");
            what.append(show(weight[i]).as_str());
            return Err(PbError::InvalidInput { what });
        }
        match exposure {
            Some(e) => {
                if !e[i].is_finite() || e[i].order_key() <= 0 {
                    assert(f(i as int) is Some);
                    return Err(
                        refused_row("categorical exposure[", i, "] must be finite and > 0, got ", e[i]),
                    );
                }
            },
            None => {},
        }
        if target == CatTarget::LogMean && y[i].order_key() <= 0 {
            assert(f(i as int) is Some);
            return Err(
                refused_row("cat_target='log_mean' requires y[", i, "] > 0, got ", y[i]),
            );
        }
        assert(f(i as int) is None);
        i = i + 1;
    }
    proof {
        lemma_first_fault(f, 0, y@.len() as int, y@.len() as int);
    }
    Ok(())
}

/// Whether some weight is above zero.
pub open spec fn any_positive(weight: Seq<F32>) -> bool {
    exists|i: int| 0 <= i < weight.len() && (#[trigger] weight[i]).positive()
}

/// Whether some weight is above zero.
pub fn has_positive(weight: &Vec<F32>) -> (b: bool)
    ensures
        b == any_positive(weight@),
{
    let mut i: usize = 0;
    while i < weight.len()
        invariant
            i <= weight.len(),
            forall|j: int| 0 <= j < i ==> !(#[trigger] weight@[j]).positive(),
        decreases weight.len() - i,
    {
        if weight[i].is_positive() {
            assert(weight@[i as int].positive());
            return true;
        }
        i = i + 1;
    }
    false
}

/// Why row `i` is refused when the base rate is formed.
pub open spec fn base_row_fault(
    y: Seq<F32>,
    weight: Seq<F32>,
    exposure: Option<Seq<F32>>,
    i: int,
) -> Option<Fault> {
    if !y[i].finite() {
        Some(
            Fault::InvalidInput(
                "categorical y["@ + dec(i as nat) + "] must be finite, got "@ + shown(y[i]),
            ),
        )
    } else if !finite_not_negative(weight[i]) {
        Some(
            Fault::InvalidInput(
                "categorical weight["@ + dec(i as nat) + "] must be finite and >= 0, got "@ + shown(
                    weight[i],
                ),
            ),
        )
    } else if exposure is Some && !usable_exposure(exposure->0[i]) {
        Some(
            Fault::InvalidInput(
                "categorical exposure["@ + dec(i as nat) + "] must be finite and > 0, got "@ + shown(
                    exposure->0[i],
                ),
            ),
        )
    } else {
        None
    }
}

/// Why the inputs of a base rate are refused.
pub open spec fn base_rate_fault(
    y: Seq<F32>,
    weight: Seq<F32>,
    exposure: Option<Seq<F32>>,
) -> Option<Fault> {
    if weight.len() != y.len() {
        Some(
            Fault::ShapeMismatch(
                "categorical base rate: y="@ + dec(y.len()) + ", weight="@ + dec(weight.len()),
            ),
        )
    } else if exposure is Some && exposure->0.len() != y.len() {
        Some(
            Fault::ShapeMismatch(
                "categorical base rate: y="@ + dec(y.len()) + ", exposure="@ + dec(exposure->0.len()),
            ),
        )
    } else {
        let rows = first_fault(|i: int| base_row_fault(y, weight, exposure, i), 0, y.len() as int);
        if rows is None && !any_positive(weight) {
            Some(Fault::InvalidInput("categorical base rate denominator Σw·e must be > 0"@))
        } else {
            rows
        }
    }
}

/// Checks the inputs of a base rate.
pub fn check_base_rate(y: &Vec<F32>, weight: &Vec<F32>, exposure: Option<&Vec<F32>>) -> (r: Result<
    (),
    PbError,
>)
    ensures
        answers(r, base_rate_fault(y@, weight@, opt_view(exposure))),
{
    let ghost ex = opt_view(exposure);
    if weight.len() != y.len() {
        let what = two_numbers(
            "categorical base rate: y=",
            y.len() as u64,
            ", weight=",
            weight.len() as u64,
        );
        return Err(PbError::ShapeMismatch { what });
    }
    match exposure {
        Some(e) => {
            if e.len() != y.len() {
                let what = two_numbers(
                    "categorical base rate: y=",
                    y.len() as u64,
                    ", exposure=",
                    e.len() as u64,
                );
                return Err(PbError::ShapeMismatch { what });
            }
        },
        None => {},
    }
    let ghost f = |i: int| base_row_fault(y@, weight@, ex, i);
    let mut i: usize = 0;
    while i < y.len()
        invariant
            i <= y.len(),
            weight@.len() == y@.len(),
            ex == opt_view(exposure),
            ex is Some ==> ex->0.len() == y@.len(),
            f == (|i: int| base_row_fault(y@, weight@, ex, i)),
            forall|j: int| 0 <= j < i ==> (#[trigger] f(j)) is None,
        decreases y.len() - i,
    {
        proof {
            lemma_first_fault(f, 0, i as int, y@.len() as int);
        }
        if !y[i].is_finite() {
            assert(f(i as int) is Some);
            return Err(refused_row("categorical y[", i, "] must be finite, got ", y[i]));
        }
        if !weight[i].is_finite() || weight[i].order_key() < 0 {
            assert(f(i as int) is Some);
            return Err(
                refused_row("categorical weight[", i, "] must be finite and >= 0, got ", weight[i]),
            );
        }
        match exposure {
            Some(e) => {
                if !e[i].is_finite() || e[i].order_key() <= 0 {
                    assert(f(i as int) is Some);
                    return Err(
                        refused_row("categorical exposure[", i, "] must be finite and > 0, got ", e[i]),
                    );
                }
            },
            None => {},
        }
        assert(f(i as int) is None);
        i = i + 1;
    }
    proof {
        lemma_first_fault(f, 0, y@.len() as int, y@.len() as int);
    }
    if !has_positive(weight) {
        return Err(invalid_input("categorical base rate denominator Σw·e must be > 0"));
    }
    Ok(())
}

/// Why no base value can be formed: rows whose weights are all zero have no
/// weight to divide by, and their exposures do not change that.
pub open spec fn base_weight_fault(weight: Seq<F32>, target: CatTarget) -> Option<Fault> {
    if any_positive(weight) {
        None
    } else {
        match target {
            CatTarget::Mean => Some(
                Fault::InvalidInput("categorical base rate denominator Σw·e must be > 0"@),
            ),
            CatTarget::LogMean => Some(
                Fault::InvalidInput("categorical log-mean denominator Σw must be > 0"@),
            ),
        }
    }
}

/// Checks that the rows of a fit have a base value.
pub fn check_base_weight(weight: &Vec<F32>, target: CatTarget) -> (r: Result<(), PbError>)
    ensures
        answers(r, base_weight_fault(weight@, target)),
{
    if has_positive(weight) {
        Ok(())
    } else {
        match target {
            CatTarget::Mean => Err(
                invalid_input("categorical base rate denominator Σw·e must be > 0"),
            ),
            CatTarget::LogMean => Err(
                invalid_input("categorical log-mean denominator Σw must be > 0"),
            ),
        }
    }
}

/// Why the inputs of a shrinkage are refused.
pub open spec fn shrinkage_fault(sum_wy: F64, sum_w: F64, base: F32, smooth: Smooth) -> Option<Fault> {
    if !sum_wy.finite() || !sum_w.finite() || sum_w.key() < 0 || !base.finite() {
        Some(
            Fault::InvalidInput(
                "invalid categorical shrinkage inputs: sum_wy="@ + shown_double(sum_wy) + ", sum_w="@
                    + shown_double(sum_w) + ", base="@ + shown(base),
            ),
        )
    } else if smooth is Auto {
        Some(
            Fault::InvalidConfig("Smooth::Auto requires the full encoder-fit variance estimator"@),
        )
    } else if !finite_not_negative(smooth->m) {
        Some(
            Fault::InvalidConfig("Smooth::Fixed m must be finite and >= 0, got "@ + shown(smooth->m)),
        )
    } else if sum_w.key() == 0 && smooth->m.key() == 0 {
        Some(Fault::InvalidInput("categorical shrinkage denominator sum_w + m must be > 0"@))
    } else {
        None
    }
}

/// Checks the inputs of a shrinkage and gives its pseudo-weight.
pub fn check_shrinkage(sum_wy: F64, sum_w: F64, base: F32, smooth: Smooth) -> (r: Result<
    F32,
    PbError,
>)
    ensures
        answers(r, shrinkage_fault(sum_wy, sum_w, base, smooth)),
        r is Ok ==> smooth == (Smooth::Fixed { m: r->Ok_0 }),
{
    if !sum_wy.is_finite() || !sum_w.is_finite() || sum_w.order_key() < 0 || !base.is_finite() {
        let mut what = String::from_str("invalid categorical shrinkage inputs: sum_wy=");
        what.append(show_double(sum_wy).as_str());
        what.append(", sum_w=");
        what.append(show_double(sum_w).as_str());
        what.append(", base=");
        what.append(show(base).as_str());
        return Err(PbError::InvalidInput { what });
    }
    match smooth {
        Smooth::Fixed { m } => {
            if !m.is_finite() || m.order_key() < 0 {
                return Err(refused_setting("Smooth::Fixed m must be finite and >= 0, got ", m));
            }
            if sum_w.order_key() == 0 && m.order_key() == 0 {
                return Err(
                    invalid_input("categorical shrinkage denominator sum_w + m must be > 0"),
                );
            }
            Ok(m)
        },
        Smooth::Auto => Err(
            invalid_config("Smooth::Auto requires the full encoder-fit variance estimator"),
        ),
    }
}

/// The labels of a fit after pooling.
#[derive(Debug, Clone, PartialEq)]
pub struct Pooled {
    /// The label of each row.
    pub labels: Vec<String>,
    /// The labels that were pooled, in order.
    pub rare: Vec<String>,
}

/// Whether a level of this weight is pooled.
pub open spec fn is_rare(denom: F64, min: F64) -> bool {
    min.positive() && denom.below(min)
}

/// Why labels cannot be pooled.
pub open spec fn pool_fault(names: Seq<Seq<char>>, min: F64) -> Option<Fault> {
    if min.positive() && names.contains(rare_label()) {
        Some(
            Fault::InvalidInput(
                "categorical label `__tri_boost_rare__` is reserved for rare buckets"@,
            ),
        )
    } else {
        None
    }
}

/// Whether `p` is the pooling of the rows: rows of a rare label get the pooled
/// label, others keep theirs, and the rare labels are listed in order.
pub open spec fn is_pooling(
    p: Pooled,
    levels: Seq<Seq<char>>,
    ids: Seq<u32>,
    names: Seq<Seq<char>>,
    denoms: Seq<F64>,
    min: F64,
) -> bool {
    &&& p.labels@.len() == levels.len()
    &&& forall|i: int|
        0 <= i < levels.len() ==> (#[trigger] p.labels@[i])@ == (if is_rare(
            denoms[ids[i] as int],
            min,
        ) {
            rare_label()
        } else {
            levels[i]
        })
    &&& forall|a: int, b: int|
        0 <= a < b < p.rare@.len() ==> label_lt(
            (#[trigger] p.rare@[a])@,
            (#[trigger] p.rare@[b])@,
        )
    &&& forall|k: int|
        0 <= k < names.len() ==> (is_rare(denoms[k], min) <==> texts(p.rare@).contains(
            #[trigger] names[k],
        ))
    &&& forall|a: int| 0 <= a < p.rare@.len() ==> names.contains((#[trigger] p.rare@[a])@)
}

/// Pools the labels whose weight stays below `min`. `ids` and `names` number the
/// labels of the rows, and `denoms` holds the weight of each number.
pub fn collapse_rare_levels(
    levels: &Vec<String>,
    ids: &Vec<u32>,
    names: &Vec<String>,
    denoms: &Vec<F64>,
    min: F64,
) -> (r: Result<Pooled, PbError>)
    requires
        ids@.len() == levels@.len(),
        denoms@.len() == names@.len(),
        forall|i: int| 0 <= i < ids@.len() ==> (#[trigger] ids@[i]) < names@.len(),
        texts(names@).no_duplicates(),
    ensures
        answers(r, pool_fault(texts(names@), min)),
        r is Ok ==> is_pooling(r->Ok_0, texts(levels@), ids@, texts(names@), denoms@, min),
        r is Ok ==> forall|i: int|
            0 <= i < levels@.len() ==> (#[trigger] r->Ok_0.labels@[i])@ == (if min.positive()
                && denoms@[ids@[i] as int].below(min) {
                "__tri_boost_rare__"@
            } else {
                levels@[i]@
            }),
        r is Ok ==> forall|k: int|
            0 <= k < names@.len() ==> (min.positive() && denoms@[k].below(min) <==> texts(
                r->Ok_0.rare@,
            ).contains((#[trigger] names@[k])@)),
{
    let ghost t = texts(names@);
    let positive: bool = min.is_positive();
    let rare_text = String::from_str("__tri_boost_rare__");
    let mut picked: Vec<String> = Vec::new();
    let ghost mut from: Seq<int> = Seq::empty();
    let mut k: usize = 0;
    while k < names.len()
        invariant
            k <= names.len(),
            denoms@.len() == names@.len(),
            t == texts(names@),
            t.no_duplicates(),
            positive == min.positive(),
            rare_text@ == rare_label(),
            positive ==> forall|j: int| 0 <= j < k ==> #[trigger] t[j] != rare_label(),
            from.len() == picked@.len(),
            forall|a: int|
                0 <= a < from.len() ==> 0 <= #[trigger] from[a] < k && picked@[a]@ == t[from[a]]
                    && is_rare(denoms@[from[a]], min),
            forall|a: int, b: int| 0 <= a < b < from.len() ==> from[a] < from[b],
            forall|j: int|
                0 <= j < k && is_rare(denoms@[j], min) ==> #[trigger] from.contains(j),
        decreases names.len() - k,
    {
        assert(t[k as int] == names@[k as int]@);
        if positive && names[k] == rare_text {
            assert(t.contains(rare_label()));
            return Err(
                invalid_input("categorical label `__tri_boost_rare__` is reserved for rare buckets"),
            );
        }
        let ghost before_from = from;
        if positive && denoms[k].lt(&min) {
            picked.push(names[k].clone());
            proof {
                from = from.push(k as int);
                assert(from[from.len() - 1] == k);
            }
        }
        proof {
            assert forall|j: int| 0 <= j < k + 1 && is_rare(denoms@[j], min) implies #[trigger]
                from.contains(j) by {
                if j < k {
                    assert(before_from.contains(j));
                    let a = choose|a: int| 0 <= a < before_from.len() && before_from[a] == j;
                    assert(from[a] == j);
                } else {
                    assert(from[from.len() - 1] == j);
                }
            }
        }
        k = k + 1;
    }
    proof {
        if positive && t.contains(rare_label()) {
            let j = choose|j: int| 0 <= j < t.len() && t[j] == rare_label();
            assert(t[j] != rare_label());
        }
    }
    let order = label_order(&picked);
    let ghost pt = texts(picked@);
    let mut rare: Vec<String> = Vec::with_capacity(order.len());
    let mut p: usize = 0;
    while p < order.len()
        invariant
            p <= order.len(),
            pt == texts(picked@),
            is_label_order(order@, pt),
            rare@.len() == p,
            forall|a: int| 0 <= a < p ==> (#[trigger] rare@[a])@ == pt[order@[a] as int],
        decreases order.len() - p,
    {
        rare.push(picked[order[p]].clone());
        p = p + 1;
    }
    proof {
        assert forall|a: int, b: int| 0 <= a < b < rare@.len() implies label_lt(
            (#[trigger] rare@[a])@,
            (#[trigger] rare@[b])@,
        ) by {
            let x = order@[a];
            let y = order@[b];
            assert(before(pt, x, y));
            assert(from[x as int] != from[y as int]);
            assert(pt[x as int] == t[from[x as int]] && pt[y as int] == t[from[y as int]]);
        }
        assert forall|j: int| 0 <= j < t.len() implies (is_rare(denoms@[j], min) <==> texts(
            rare@,
        ).contains(#[trigger] t[j])) by {
            if is_rare(denoms@[j], min) {
                assert(from.contains(j));
                let a = choose|a: int| 0 <= a < from.len() && from[a] == j;
                assert(pt[a] == t[j]);
                assert(order@.contains(a as usize));
                let q = choose|q: int| 0 <= q < order@.len() && order@[q] == a as usize;
                assert(texts(rare@)[q] == t[j]);
            }
            if texts(rare@).contains(t[j]) {
                let q = choose|q: int| 0 <= q < texts(rare@).len() && texts(rare@)[q] == t[j];
                let a = order@[q] as int;
                assert(rare@[q]@ == pt[a]);
                assert(pt[a] == t[from[a]]);
                assert(from[a] == j);
            }
        }
        assert forall|a: int| 0 <= a < rare@.len() implies t.contains((#[trigger] rare@[a])@) by {
            let x = order@[a] as int;
            assert(pt[x] == t[from[x]]);
        }
    }
    let mut labels: Vec<String> = Vec::with_capacity(levels.len());
    let mut i: usize = 0;
    while i < levels.len()
        invariant
            i <= levels.len(),
            ids@.len() == levels@.len(),
            denoms@.len() == names@.len(),
            forall|j: int| 0 <= j < ids@.len() ==> (#[trigger] ids@[j]) < names@.len(),
            positive == min.positive(),
            rare_text@ == rare_label(),
            labels@.len() == i,
            forall|j: int|
                0 <= j < i ==> (#[trigger] labels@[j])@ == (if is_rare(denoms@[ids@[j] as int], min) {
                    rare_label()
                } else {
                    texts(levels@)[j]
                }),
        decreases levels.len() - i,
    {
        let id: u32 = ids[i];
        if positive && denoms[id as usize].lt(&min) {
            labels.push(rare_text.clone());
        } else {
            labels.push(levels[i].clone());
        }
        i = i + 1;
    }
    proof {
        assert forall|k: int| 0 <= k < names@.len() implies (min.positive() && denoms@[k].below(min)
            <==> texts(rare@).contains((#[trigger] names@[k])@)) by {
            assert(t[k] == names@[k]@);
        }
    }
    Ok(Pooled { labels, rare })
}

/// With a positive minimum, the labels that weigh less are pooled and no others:
/// such a label is listed and its rows carry the pooled label, while every other
/// label is left alone and weighs at least the minimum. Without one nothing is.
pub proof fn law_light_labels_are_pooled(
    p: Pooled,
    levels: Seq<Seq<char>>,
    ids: Seq<u32>,
    names: Seq<Seq<char>>,
    denoms: Seq<F64>,
    min: F64,
    k: int,
    row: int,
)
    requires
        is_pooling(p, levels, ids, names, denoms, min),
        0 <= k < names.len(),
        0 <= row < levels.len(),
    ensures
        texts(p.rare@).contains(names[k]) <==> min.positive() && denoms[k].below(min),
        min.positive() && !texts(p.rare@).contains(names[k]) && !min.nan() && !denoms[k].nan()
            ==> min.key() <= denoms[k].key(),
        ids[row] == k && min.positive() && denoms[k].below(min) ==> p.labels@[row]@
            == "__tri_boost_rare__"@,
        ids[row] == k && !(min.positive() && denoms[k].below(min)) ==> p.labels@[row]@
            == levels[row],
        !min.positive() ==> p.rare@.len() == 0,
        p.labels@.len() == levels.len(),
{
    assert(names[k] == names[k]);
    assert(p.labels@[row]@ == p.labels@[row]@);
    if !min.positive() && p.rare@.len() > 0 {
        assert(names.contains(p.rare@[0]@));
        let j = choose|j: int| 0 <= j < names.len() && names[j] == p.rare@[0]@;
        assert(texts(p.rare@)[0] == names[j]);
        assert(texts(p.rare@).contains(names[j]));
    }
}

/// The raw labels that a level stands for: the pooled ones for the pooled label,
/// and its own label otherwise.
pub fn members_of(label: &str, rare: &Vec<String>) -> (m: Vec<String>)
    ensures
        texts(m@) == (if rare@.len() > 0 && label@ == rare_label() {
            texts(rare@)
        } else {
            seq![label@]
        }),
{
    if rare.len() > 0 && str_eq(label, "__tri_boost_rare__") {
        copy_labels(rare)
    } else {
        let mut m: Vec<String> = Vec::new();
        m.push(String::from_str(label));
        assert(texts(m@) =~= seq![label@]);
        m
    }
}

/// Why rows cannot be dealt to folds.
pub open spec fn fold_fault(k: u32, n: nat) -> Option<Fault> {
    if k < 2 {
        Some(
            Fault::InvalidConfig("KFold target statistics require k >= 2, got "@ + dec(k as nat)),
        )
    } else if n > 0x1_0000_0000 {
        Some(Fault::InvalidInput("categorical fit supports at most u32::MAX rows"@))
    } else {
        None
    }
}

/// The fold of a row.
pub open spec fn fold_of(seed: u64, k: u32, row: u32) -> u32 {
    (seed_of(seed, 0, Stage::Categorical.code(), row) % k as u64) as u32
}

/// Deals rows to `k` folds by their seeds.
pub fn kfold_of_rows(seed: u64, k: u32, n: usize) -> (r: Result<Vec<u32>, PbError>)
    ensures
        answers(r, fold_fault(k, n as nat)),
        r is Ok ==> r->Ok_0@.len() == n && forall|row: int|
            0 <= row < n ==> #[trigger] r->Ok_0@[row] == fold_of(seed, k, row as u32)
                && r->Ok_0@[row] < k,
{
    if k < 2 {
        let what = number_last("KFold target statistics require k >= 2, got ", k as u64);
        return Err(PbError::InvalidConfig { what });
    }
    if n as u64 > 0x1_0000_0000 {
        return Err(invalid_input("categorical fit supports at most u32::MAX rows"));
    }
    let mut folds: Vec<u32> = Vec::with_capacity(n);
    let stage = Stage::Categorical;
    let code: u32 = stage.number();
    let mut row: usize = 0;
    while row < n
        invariant
            row <= n,
            n <= 0x1_0000_0000,
            k >= 2,
            code == Stage::Categorical.code(),
            folds@.len() == row,
            forall|j: int|
                0 <= j < row ==> #[trigger] folds@[j] == fold_of(seed, k, j as u32) && folds@[j] < k,
        decreases n - row,
    {
        let s: u64 = pb_seed(seed, 0, code, row as u32);
        assert(s % (k as u64) < k);
        folds.push((s % k as u64) as u32);
        row = row + 1;
    }
    Ok(folds)
}

/// The cell of a fold and a level in the per-fold accumulators.
pub open spec fn fold_cell(fold: int, n_ids: int, id: int) -> int {
    fold * n_ids + id
}

/// Different folds or levels never share an accumulator.
pub proof fn law_fold_cells_are_disjoint(n_ids: int, f1: int, id1: int, f2: int, id2: int)
    requires
        0 <= id1 < n_ids,
        0 <= id2 < n_ids,
        fold_cell(f1, n_ids, id1) == fold_cell(f2, n_ids, id2),
    ensures
        f1 == f2,
        id1 == id2,
{
    assert(f1 == f2) by (nonlinear_arith)
        requires
            0 <= id1 < n_ids,
            0 <= id2 < n_ids,
            f1 * n_ids + id1 == f2 * n_ids + id2,
    ;
}

/// Why rows cannot be ordered.
pub open spec fn order_fault(n_perms: u32, n: nat) -> Option<Fault> {
    if n_perms == 0 {
        Some(Fault::InvalidConfig("Ordered target statistics require n_perms > 0"@))
    } else if n > 0x1_0000_0000 {
        Some(Fault::InvalidInput("categorical fit supports at most u32::MAX rows"@))
    } else {
        None
    }
}

/// The order of the rows in permutation `perm`: by seed. Each row is encoded
/// from the rows before it.
pub fn row_order(seed: u64, n_perms: u32, perm: u32, n: usize) -> (r: Result<Vec<u32>, PbError>)
    ensures
        answers(r, order_fault(n_perms, n as nat)),
        r is Ok ==> is_seeded_order(
            r->Ok_0@,
            seed,
            perm,
            Stage::Categorical.code(),
            n as nat,
        ),
{
    if n_perms == 0 {
        return Err(invalid_config("Ordered target statistics require n_perms > 0"));
    }
    if n as u64 > 0x1_0000_0000 {
        return Err(invalid_input("categorical fit supports at most u32::MAX rows"));
    }
    Ok(seeded_order(seed, perm, Stage::Categorical, n))
}

/// Rows are accepted for a fit exactly when the exposure, where there is one, is as
/// long as the targets, every target is finite, every weight finite and not
/// negative, every exposure finite and above zero, and every target of a logarithm
/// above zero.
pub proof fn law_accepted_rows_are_sound(
    y: Seq<F32>,
    weight: Seq<F32>,
    exposure: Option<Seq<F32>>,
    target: CatTarget,
)
    ensures
        terms_fault(y, weight, exposure, target) is None <==> {
            &&& exposure is Some ==> exposure->0.len() == y.len()
            &&& forall|i: int|
                #![trigger y[i]]
                0 <= i < y.len() ==> {
                    &&& y[i].finite()
                    &&& weight[i].finite() && weight[i].key() >= 0
                    &&& exposure is Some ==> exposure->0[i].finite() && exposure->0[i].key() > 0
                    &&& target == CatTarget::LogMean ==> y[i].key() > 0
                }
        },
{
    let f = |i: int| term_fault(y, weight, exposure, target, i);
    lemma_no_fault(f, y.len() as int);
    if forall|i: int| 0 <= i < y.len() ==> (#[trigger] f(i)) is None {
        assert forall|i: int| #![trigger y[i]] 0 <= i < y.len() implies {
            &&& y[i].finite()
            &&& weight[i].finite() && weight[i].key() >= 0
            &&& exposure is Some ==> exposure->0[i].finite() && exposure->0[i].key() > 0
            &&& target == CatTarget::LogMean ==> y[i].key() > 0
        } by {
            assert(f(i) is None);
        }
    } else {
        let i = choose|i: int| 0 <= i < y.len() && !((#[trigger] f(i)) is None);
        assert(y[i] == y[i]);
    }
}

/// Inputs of a base rate are accepted exactly when all lists are as long as the
/// targets, targets are finite, weights finite and not negative, exposures finite
/// and above zero, and some weight is above zero.
pub proof fn law_accepted_base_rates_are_sound(
    y: Seq<F32>,
    weight: Seq<F32>,
    exposure: Option<Seq<F32>>,
)
    ensures
        base_rate_fault(y, weight, exposure) is None <==> {
            &&& weight.len() == y.len()
            &&& exposure is Some ==> exposure->0.len() == y.len()
            &&& forall|i: int|
                #![trigger y[i]]
                0 <= i < y.len() ==> {
                    &&& y[i].finite()
                    &&& weight[i].finite() && weight[i].key() >= 0
                    &&& exposure is Some ==> exposure->0[i].finite() && exposure->0[i].key() > 0
                }
            &&& exists|i: int|
                0 <= i < weight.len() && !(#[trigger] weight[i]).nan() && weight[i].key() > 0
        },
{
    let f = |i: int| base_row_fault(y, weight, exposure, i);
    lemma_no_fault(f, y.len() as int);
    if forall|i: int| 0 <= i < y.len() ==> (#[trigger] f(i)) is None {
        assert forall|i: int| #![trigger y[i]] 0 <= i < y.len() implies {
            &&& y[i].finite()
            &&& weight[i].finite() && weight[i].key() >= 0
            &&& exposure is Some ==> exposure->0[i].finite() && exposure->0[i].key() > 0
        } by {
            assert(f(i) is None);
        }
    } else {
        let i = choose|i: int| 0 <= i < y.len() && !((#[trigger] f(i)) is None);
        assert(y[i] == y[i]);
    }
    if any_positive(weight) {
        let i = choose|i: int| 0 <= i < weight.len() && (#[trigger] weight[i]).positive();
        assert(weight[i].key() > 0);
    }
}

/// A weight above zero is all that the base of a fit asks for.
pub proof fn law_base_weights_are_sound(weight: Seq<F32>, target: CatTarget)
    ensures
        base_weight_fault(weight, target) is None <==> exists|i: int|
            0 <= i < weight.len() && !(#[trigger] weight[i]).nan() && weight[i].key() > 0,
{
    if any_positive(weight) {
        let i = choose|i: int| 0 <= i < weight.len() && (#[trigger] weight[i]).positive();
        assert(weight[i].key() > 0);
    }
}

/// A shrinkage is accepted exactly when its sums and its base are finite, the
/// weight is not negative, the strength is fixed, finite and not negative, and not
/// both the weight and the strength are zero.
pub proof fn law_accepted_shrinkages_are_sound(sum_wy: F64, sum_w: F64, base: F32, smooth: Smooth)
    ensures
        shrinkage_fault(sum_wy, sum_w, base, smooth) is None <==> {
            &&& sum_wy.finite() && sum_w.finite() && base.finite()
            &&& sum_w.key() >= 0
            &&& smooth matches Smooth::Fixed { m } && m.finite() && m.key() >= 0 && (sum_w.key() > 0
                || m.key() > 0)
        },
{
}

/// A fit is accepted exactly when its configuration is, and labels and weights are
/// as many as targets.
pub proof fn law_accepted_fits_are_sound(config: TsConfig, levels: nat, y: nat, weight: Option<nat>)
    ensures
        fit_fault(config, levels, y, weight) is None <==> ts_config_fault(config) is None && levels
            == y && (weight is Some ==> weight->0 == y),
{
}

/// The fold of a row is its seed modulo the number of folds.
pub proof fn law_folds_follow_the_seeds(seed: u64, k: u32, row: u32)
    requires
        k >= 2,
    ensures
        0 <= fold_of(seed, k, row) < k,
        exists|m: int|
            seed_of(seed, 0, Stage::Categorical.code(), row) == #[trigger] (m * k) + fold_of(
                seed,
                k,
                row,
            ),
{
    let s = seed_of(seed, 0, Stage::Categorical.code(), row) as int;
    let d = k as int;
    vstd::arithmetic::div_mod::lemma_fundamental_div_mod(s, d);
    let m = s / d;
    assert(m * d == d * m) by (nonlinear_arith);
    assert(fold_of(seed, k, row) as int == s % d);
}

/// Labels are pooled exactly when no floor is set or none is the pool's own; rows
/// are put into folds exactly when there are two folds or more and 32 bits number
/// the rows.
pub proof fn law_pools_and_folds_are_sound(names: Seq<Seq<char>>, min: F64, k: u32, n: nat)
    ensures
        pool_fault(names, min) is None <==> min.nan() || min.key() <= 0 || forall|i: int|
            0 <= i < names.len() ==> #[trigger] names[i] != "__tri_boost_rare__"@,
        fold_fault(k, n) is None <==> k >= 2 && n <= 0x1_0000_0000,
{
    if names.contains("__tri_boost_rare__"@) {
        let i = choose|i: int| 0 <= i < names.len() && names[i] == "__tri_boost_rare__"@;
        assert(names[i] == "__tri_boost_rare__"@);
    } else {
        assert forall|i: int| 0 <= i < names.len() implies #[trigger] names[i]
            != "__tri_boost_rare__"@ by {
            assert(names.contains(names[i]));
        }
    }
}

} // verus!
