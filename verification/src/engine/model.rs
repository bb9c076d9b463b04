//! Fitted models, and the combination of several into one.
use crate::cat::CatEncoderStore;
use crate::data::{
    borders_ascend, copy_grids, copy_provenance, grid_views, AxisKind, AxisProvenance, BinnedMatrix, BorderGrid,
    GridView,
};
use crate::engine::members::WeightedTree;
use crate::engine::monotone::{all_digits, axis_of_name, digits_value, is_digit, without_plus};
use crate::engine::{leaf_at, lookup_fault, ExactnessMode};
use crate::error::{
    answers, first_fault, invalid_config, lemma_first_fault, lemma_no_fault, shape_mismatch, Fault,
    PbError,
};
use crate::float::{F32, F64};
use crate::text::{dec, digit_char, number_last, with_number};
use vstd::prelude::*;

verus! {

/// How a raw score becomes a response.
#[derive(Debug, Clone, Copy, PartialEq, Eq, Structural)]
pub enum Link {
    Identity,
    Log,
    Logit,
}

/// The loss that a model was fitted with.
#[derive(Debug, Clone, Copy, PartialEq, Eq, Structural)]
pub enum LossId {
    SquaredError,
    Poisson,
    Gamma,
    Tweedie,
    Logistic,
}

/// The objective that a model was fitted with.
#[derive(Debug, Clone, Copy, PartialEq, Eq, Structural)]
pub struct ObjectiveTag {
    pub link: Link,
    pub loss: LossId,
    /// The power of a Tweedie loss.
    pub tweedie_rho: Option<F32>,
}

/// What a model carries to be served and exported.
#[derive(Debug, Clone, PartialEq)]
pub struct ModelSchema {
    pub feature_names: Vec<String>,
    pub feature_kinds: Vec<AxisKind>,
    pub cat_encoders: CatEncoderStore,
    pub class_labels: Option<Vec<String>>,
    pub objective: ObjectiveTag,
}

/// A fitted model: an intercept and weighted trees over shared grids.
#[derive(Debug, Clone, PartialEq)]
pub struct Model {
    pub f0: F32,
    pub trees: Vec<WeightedTree>,
    pub grids: Vec<BorderGrid>,
    pub provenance: Vec<AxisProvenance>,
    pub link: Link,
    pub mode: ExactnessMode,
    pub schema: ModelSchema,
    pub schema_version: u32,
}

/// The name of an axis that has no other.
pub open spec fn default_name(i: nat) -> Seq<char> {
    "f"@ + dec(i)
}

/// The names of axes that have no others.
pub fn default_names(n: usize) -> (names: Vec<String>)
    ensures
        names@.len() == n,
        forall|i: int| 0 <= i < n ==> (#[trigger] names@[i])@ == default_name(i as nat),
{
    let mut names: Vec<String> = Vec::with_capacity(n);
    let mut i: usize = 0;
    while i < n
        invariant
            i <= n,
            names@.len() == i,
            forall|j: int| 0 <= j < i ==> (#[trigger] names@[j])@ == default_name(j as nat),
        decreases n - i,
    {
        names.push(number_last("f", i as u64));
        i = i + 1;
    }
    names
}

/// Whether a model is what a fit over binned data gives: exact, with the grids
/// and the provenance of the data, and with their encoders.
pub open spec fn is_fitted_model(
    m: Model,
    f0: F32,
    trees: Seq<WeightedTree>,
    x: BinnedMatrix,
    link: Link,
    objective: ObjectiveTag,
    encoders: CatEncoderStore,
) -> bool {
    &&& m.f0 == f0
    &&& m.trees@ == trees
    &&& m.mode == ExactnessMode::Exact
    &&& grid_views(m.grids@) == grid_views(x.grids@)
    &&& m.provenance@ == x.provenance@
    &&& m.link == link
    &&& m.schema.cat_encoders == encoders
    &&& m.schema.objective == objective
    &&& m.schema.class_labels is None
    &&& m.schema.feature_names@.len() == x.data@.len()
    &&& forall|i: int|
        0 <= i < x.data@.len() ==> (#[trigger] m.schema.feature_names@[i])@ == default_name(
            i as nat,
        )
    &&& m.schema.feature_kinds@.len() == x.provenance@.len()
    &&& forall|i: int|
        0 <= i < x.provenance@.len() ==> #[trigger] m.schema.feature_kinds@[i]
            == x.provenance@[i].kind
}

/// The model that a fit over binned data gives.
pub fn fitted_model(
    f0: F32,
    trees: Vec<WeightedTree>,
    x: &BinnedMatrix,
    link: Link,
    objective: ObjectiveTag,
    encoders: CatEncoderStore,
    schema_version: u32,
) -> (m: Model)
    ensures
        is_fitted_model(m, f0, trees@, *x, link, objective, encoders),
        m.schema_version == schema_version,
{
    let mut kinds: Vec<AxisKind> = Vec::with_capacity(x.provenance.len());
    let mut i: usize = 0;
    while i < x.provenance.len()
        invariant
            i <= x.provenance.len(),
            kinds@.len() == i,
            forall|j: int| 0 <= j < i ==> #[trigger] kinds@[j] == x.provenance@[j].kind,
        decreases x.provenance.len() - i,
    {
        kinds.push(x.provenance[i].kind);
        i = i + 1;
    }
    Model {
        f0,
        trees,
        grids: copy_grids(&x.grids),
        provenance: copy_provenance(&x.provenance),
        link,
        mode: ExactnessMode::Exact,
        schema: ModelSchema {
            feature_names: default_names(x.data.len()),
            feature_kinds: kinds,
            cat_encoders: encoders,
            class_labels: None,
            objective,
        },
        schema_version,
    }
}

proof fn lemma_dec_reads_back(n: nat)
    ensures
        dec(n).len() > 0,
        all_digits(dec(n)),
        digits_value(dec(n)) == n,
    decreases n,
{
    reveal_with_fuel(digits_value, 2);
    if n < 10 {
        let s = dec(n);
        assert(s =~= seq![digit_char(n)]);
        assert(s.drop_last() =~= Seq::<char>::empty());
        assert(s.last() == digit_char(n));
    } else {
        lemma_dec_reads_back(n / 10);
        let s = dec(n);
        let head = dec(n / 10);
        assert(s == head.push(digit_char(n % 10)));
        assert(s.drop_last() =~= head);
        assert forall|i: int| 0 <= i < s.len() implies is_digit(#[trigger] s[i]) by {
            if i < head.len() {
                assert(s[i] == head[i]);
            }
        }
        assert(s.last() == digit_char(n % 10));
    }
}

/// A monotone constraint by default name reaches its axis.
pub proof fn law_default_name_means_its_axis(i: nat)
    requires
        i <= usize::MAX,
    ensures
        axis_of_name(default_name(i)) == Some(i),
{
    reveal_strlit("f");
    let name = default_name(i);
    lemma_dec_reads_back(i);
    assert(name.skip(1) =~= dec(i));
    assert(name[0] == 'f');
    assert(is_digit(dec(i)[0]));
    assert(without_plus(dec(i)) == dec(i));
}

/// Why a tree has no value for a row.
pub open spec fn tree_lookup_fault(trees: Seq<WeightedTree>, row_bins: Seq<u8>, t: int) -> Option<
    Fault,
> {
    lookup_fault(trees[t].1.splits@, row_bins)
}

impl Model {
    /// The value of each tree for a row; the raw score is the intercept plus
    /// their weighted sum.
    pub fn lookups(&self, row_bins: &Vec<u8>) -> (r: Result<Vec<F32>, PbError>)
        requires
            forall|t: int| 0 <= t < self.trees@.len() ==> (#[trigger] self.trees@[t]).1.wf(),
        ensures
            answers(
                r,
                first_fault(
                    |t: int| tree_lookup_fault(self.trees@, row_bins@, t),
                    0,
                    self.trees@.len() as int,
                ),
            ),
            r is Ok ==> r->Ok_0@.len() == self.trees@.len() && forall|t: int|
                0 <= t < self.trees@.len() ==> #[trigger] r->Ok_0@[t]
                    == self.trees@[t].1.leaves@[leaf_at(
                    self.trees@[t].1.splits@,
                    row_bins@,
                    self.trees@[t].1.splits@.len(),
                ) as int],
    {
        let ghost f = |t: int| tree_lookup_fault(self.trees@, row_bins@, t);
        let mut out: Vec<F32> = Vec::with_capacity(self.trees.len());
        let mut t: usize = 0;
        while t < self.trees.len()
            invariant
                t <= self.trees.len(),
                forall|t: int| 0 <= t < self.trees@.len() ==> (#[trigger] self.trees@[t]).1.wf(),
                f == (|t: int| tree_lookup_fault(self.trees@, row_bins@, t)),
                forall|j: int| 0 <= j < t ==> (#[trigger] f(j)) is None,
                out@.len() == t,
                forall|j: int|
                    0 <= j < t ==> #[trigger] out@[j] == self.trees@[j].1.leaves@[leaf_at(
                        self.trees@[j].1.splits@,
                        row_bins@,
                        self.trees@[j].1.splits@.len(),
                    ) as int],
            decreases self.trees.len() - t,
        {
            proof {
                lemma_first_fault(f, 0, t as int, self.trees@.len() as int);
                assert(self.trees@[t as int].1.wf());
            }
            match self.trees[t].1.lookup(row_bins) {
                Err(e) => {
                    assert(f(t as int) is Some);
                    return Err(e);
                },
                Ok(v) => {
                    assert(f(t as int) is None);
                    out.push(v);
                },
            }
            t = t + 1;
        }
        proof {
            lemma_first_fault(f, 0, self.trees@.len() as int, self.trees@.len() as int);
        }
        Ok(out)
    }
}

/// Whether two grids are equal as numbers.
pub open spec fn grids_same(a: GridView, b: GridView) -> bool {
    &&& a.n_bins == b.n_bins
    &&& a.missing_bin == b.missing_bin
    &&& a.borders.len() == b.borders.len()
    &&& forall|i: int| 0 <= i < a.borders.len() ==> (#[trigger] a.borders[i]).same(b.borders[i])
}

/// Whether two lists of grids are equal as numbers.
pub open spec fn all_grids_same(a: Seq<BorderGrid>, b: Seq<BorderGrid>) -> bool {
    &&& a.len() == b.len()
    &&& forall|i: int| 0 <= i < a.len() ==> grids_same((#[trigger] a[i])@, b[i]@)
}

/// Whether two objectives are equal, their powers as numbers.
pub open spec fn objectives_same(a: ObjectiveTag, b: ObjectiveTag) -> bool {
    &&& a.link == b.link
    &&& a.loss == b.loss
    &&& match (a.tweedie_rho, b.tweedie_rho) {
        (None, None) => true,
        (Some(x), Some(y)) => x.same(y),
        _ => false,
    }
}

/// Whether two models can be combined.
pub open spec fn compatible(reference: Model, member: Model) -> bool {
    &&& all_grids_same(member.grids@, reference.grids@)
    &&& member.provenance@ == reference.provenance@
    &&& member.link == reference.link
    &&& objectives_same(member.schema.objective, reference.schema.objective)
    &&& member.schema_version == reference.schema_version
}

/// Why a model cannot be combined with the first one.
pub open spec fn soup_member_fault(reference: Model, member: Model) -> Option<Fault> {
    if !(member.mode is Exact) {
        Some(Fault::ExactnessFirewall("model soup accepts only Exact members"@))
    } else if !compatible(reference, member) {
        Some(
            Fault::ShapeMismatch(
                "model soup members must share grids, provenance, link, objective, and schema version"@,
            ),
        )
    } else {
        None
    }
}

/// Whether two grids are equal as numbers.
fn same_grid(a: &BorderGrid, b: &BorderGrid) -> (r: bool)
    ensures
        r == grids_same(a@, b@),
{
    if a.n_bins != b.n_bins || a.missing_bin != b.missing_bin || a.borders.len() != b.borders.len() {
        return false;
    }
    let mut i: usize = 0;
    while i < a.borders.len()
        invariant
            i <= a.borders.len(),
            a.borders@.len() == b.borders@.len(),
            forall|j: int| 0 <= j < i ==> (#[trigger] a.borders@[j]).same(b.borders@[j]),
        decreases a.borders.len() - i,
    {
        if !a.borders[i].ieee_eq(&b.borders[i]) {
            assert(!a@.borders[i as int].same(b@.borders[i as int]));
            return false;
        }
        i = i + 1;
    }
    true
}

fn same_grids(a: &Vec<BorderGrid>, b: &Vec<BorderGrid>) -> (r: bool)
    ensures
        r == all_grids_same(a@, b@),
{
    if a.len() != b.len() {
        return false;
    }
    let mut i: usize = 0;
    while i < a.len()
        invariant
            i <= a.len(),
            a@.len() == b@.len(),
            forall|j: int| 0 <= j < i ==> grids_same((#[trigger] a@[j])@, b@[j]@),
        decreases a.len() - i,
    {
        if !same_grid(&a[i], &b[i]) {
            assert(!grids_same(a@[i as int]@, b@[i as int]@));
            return false;
        }
        i = i + 1;
    }
    true
}

fn same_provenance(a: &Vec<AxisProvenance>, b: &Vec<AxisProvenance>) -> (r: bool)
    ensures
        r == (a@ == b@),
{
    if a.len() != b.len() {
        return false;
    }
    let mut i: usize = 0;
    while i < a.len()
        invariant
            i <= a.len(),
            a@.len() == b@.len(),
            forall|j: int| 0 <= j < i ==> a@[j] == b@[j],
        decreases a.len() - i,
    {
        if a[i] != b[i] {
            assert(a@[i as int] != b@[i as int]);
            return false;
        }
        i = i + 1;
    }
    assert(a@ =~= b@);
    true
}

fn same_objective(a: &ObjectiveTag, b: &ObjectiveTag) -> (r: bool)
    ensures
        r == objectives_same(*a, *b),
{
    if a.link != b.link || a.loss != b.loss {
        return false;
    }
    match (a.tweedie_rho, b.tweedie_rho) {
        (None, None) => true,
        (Some(x), Some(y)) => x.ieee_eq(&y),
        _ => false,
    }
}

/// Refuses a model that is not exact, or that does not share the grids, axes,
/// link, objective and version of the reference.
pub fn validate_soup_member(reference: &Model, member: &Model) -> (r: Result<(), PbError>)
    ensures
        answers(r, soup_member_fault(*reference, *member)),
{
    match &member.mode {
        ExactnessMode::Exact => {},
        ExactnessMode::Approximate { reason: _ } => {
            return Err(
                PbError::ExactnessFirewall(
                    String::from_str("model soup accepts only Exact members"),
                ),
            );
        },
    }
    if !same_grids(&member.grids, &reference.grids) || !same_provenance(
        &member.provenance,
        &reference.provenance,
    ) || member.link != reference.link || !same_objective(
        &member.schema.objective,
        &reference.schema.objective,
    ) || member.schema_version != reference.schema_version {
        return Err(
            shape_mismatch(
                "model soup members must share grids, provenance, link, objective, and schema version",
            ),
        );
    }
    Ok(())
}

/// A model with its weight in a combination.
#[derive(Debug, Clone, PartialEq)]
pub struct WeightedModel {
    pub alpha: F64,
    pub model: Model,
}

/// Why a member of a combination is refused.
pub open spec fn soup_fault(members: Seq<WeightedModel>, i: int) -> Option<Fault> {
    if !members[i].alpha.finite() || members[i].alpha.key() < 0 {
        Some(
            Fault::InvalidConfig(
                "model soup member "@ + dec(i as nat) + " alpha must be finite and >= 0"@,
            ),
        )
    } else {
        soup_member_fault(members[0].model, members[i].model)
    }
}

/// Why models cannot be combined.
pub open spec fn soups_fault(members: Seq<WeightedModel>) -> Option<Fault> {
    if members.len() == 0 {
        Some(Fault::InvalidConfig("model soup requires at least one member"@))
    } else {
        first_fault(|i: int| soup_fault(members, i), 0, members.len() as int)
    }
}

/// Checks the members of a combination: usable weights, and every model
/// compatible with the first.
pub fn check_soup(members: &Vec<WeightedModel>) -> (r: Result<(), PbError>)
    ensures
        answers(r, soups_fault(members@)),
{
    if members.len() == 0 {
        return Err(invalid_config("model soup requires at least one member"));
    }
    let ghost f = |i: int| soup_fault(members@, i);
    let mut i: usize = 0;
    while i < members.len()
        invariant
            i <= members.len(),
            members@.len() > 0,
            f == (|i: int| soup_fault(members@, i)),
            forall|j: int| 0 <= j < i ==> (#[trigger] f(j)) is None,
        decreases members.len() - i,
    {
        proof {
            lemma_first_fault(f, 0, i as int, members@.len() as int);
            assert(f(i as int) == soup_fault(members@, i as int));
        }
        let alpha: F64 = members[i].alpha;
        if !alpha.is_finite() || alpha.order_key() < 0 {
            let what = with_number(
                "model soup member ",
                i as u64,
                " alpha must be finite and >= 0",
            );
            return Err(PbError::InvalidConfig { what });
        }
        match validate_soup_member(&members[0].model, &members[i].model) {
            Err(e) => return Err(e),
            Ok(()) => {},
        }
        assert(f(i as int) is None);
        i = i + 1;
    }
    proof {
        lemma_first_fault(f, 0, members@.len() as int, members@.len() as int);
    }
    Ok(())
}

/// Fits over parts of the same binned data can be averaged.
pub proof fn law_fits_over_shared_grids_combine(
    a: Model,
    b: Model,
    xa: BinnedMatrix,
    xb: BinnedMatrix,
    link: Link,
    objective: ObjectiveTag,
    encoders: CatEncoderStore,
)
    requires
        is_fitted_model(a, a.f0, a.trees@, xa, link, objective, encoders),
        is_fitted_model(b, b.f0, b.trees@, xb, link, objective, encoders),
        a.schema_version == b.schema_version,
        grid_views(xa.grids@) == grid_views(xb.grids@),
        xa.provenance@ == xb.provenance@,
        forall|f: int| 0 <= f < xa.grids@.len() ==> borders_ascend((#[trigger] xa.grids@[f]).borders@),
        objective.tweedie_rho is Some ==> !objective.tweedie_rho->0.nan(),
    ensures
        soup_member_fault(a, b) is None,
{
    let va = grid_views(a.grids@);
    let vb = grid_views(b.grids@);
    let vx = grid_views(xa.grids@);
    assert(va.len() == a.grids@.len() && vb.len() == b.grids@.len());
    assert(vx.len() == xa.grids@.len());
    assert forall|f: int| 0 <= f < b.grids@.len() implies grids_same(
        (#[trigger] b.grids@[f])@,
        a.grids@[f]@,
    ) by {
        assert(vb[f] == b.grids@[f]@);
        assert(va[f] == a.grids@[f]@);
        assert(vx[f] == xa.grids@[f]@);
        assert(borders_ascend(xa.grids@[f].borders@));
    }
}

/// The model that averages several over one set of grids: exact, and in all but
/// its intercept and its trees like the first of them.
pub fn averaged_model(first: Model, f0: F32, trees: Vec<WeightedTree>) -> (m: Model)
    ensures
        m == (Model { f0, trees, mode: ExactnessMode::Exact, ..first }),
{
    Model {
        f0,
        trees,
        grids: first.grids,
        provenance: first.provenance,
        link: first.link,
        mode: ExactnessMode::Exact,
        schema: first.schema,
        schema_version: first.schema_version,
    }
}

/// A member joins a soup exactly when it is exact and agrees with the first in the
/// borders, bins and missing bin of every grid, in provenance, link, objective and
/// schema version.
pub proof fn law_soup_members_agree(reference: Model, member: Model)
    ensures
        soup_member_fault(reference, member) is None <==> {
            &&& member.mode is Exact
            &&& member.grids@.len() == reference.grids@.len()
            &&& forall|f: int|
                0 <= f < member.grids@.len() ==> {
                    &&& (#[trigger] member.grids@[f]).n_bins == reference.grids@[f].n_bins
                    &&& member.grids@[f].missing_bin == reference.grids@[f].missing_bin
                    &&& member.grids@[f].borders@.len() == reference.grids@[f].borders@.len()
                    &&& forall|i: int|
                        0 <= i < member.grids@[f].borders@.len() ==> (
                        #[trigger] member.grids@[f].borders@[i]).same(reference.grids@[f].borders@[i])
                }
            &&& member.provenance@ == reference.provenance@
            &&& member.link == reference.link
            &&& member.schema.objective.link == reference.schema.objective.link
            &&& member.schema.objective.loss == reference.schema.objective.loss
            &&& match (member.schema.objective.tweedie_rho, reference.schema.objective.tweedie_rho) {
                (None, None) => true,
                (Some(x), Some(y)) => x.same(y),
                _ => false,
            }
            &&& member.schema_version == reference.schema_version
        },
{
    let (a, b) = (member.grids@, reference.grids@);
    if all_grids_same(a, b) {
        assert forall|f: int| 0 <= f < a.len() implies {
            &&& (#[trigger] a[f]).n_bins == b[f].n_bins
            &&& a[f].missing_bin == b[f].missing_bin
            &&& a[f].borders@.len() == b[f].borders@.len()
            &&& forall|i: int|
                0 <= i < a[f].borders@.len() ==> (#[trigger] a[f].borders@[i]).same(b[f].borders@[i])
        } by {
            assert(grids_same(a[f]@, b[f]@));
            assert forall|i: int| 0 <= i < a[f].borders@.len() implies (
            #[trigger] a[f].borders@[i]).same(b[f].borders@[i]) by {
                assert(a[f]@.borders[i].same(b[f]@.borders[i]));
            }
        }
    }
}

/// Members make a soup exactly when there are some, every weight is finite and not
/// negative, and every member joins the first.
pub proof fn law_soups_are_checked_member_by_member(members: Seq<WeightedModel>)
    ensures
        soups_fault(members) is None <==> members.len() > 0 && forall|i: int|
            0 <= i < members.len() ==> (#[trigger] members[i]).alpha.finite() && members[i].alpha.key()
                >= 0 && soup_member_fault(members[0].model, members[i].model) is None,
{
    let f = |i: int| soup_fault(members, i);
    lemma_no_fault(f, members.len() as int);
    if forall|i: int| 0 <= i < members.len() ==> (#[trigger] f(i)) is None {
        assert forall|i: int| 0 <= i < members.len() implies (#[trigger] members[i]).alpha.finite()
            && members[i].alpha.key() >= 0 && soup_member_fault(members[0].model, members[i].model)
            is None by {
            assert(f(i) is None);
        }
    } else {
        let i = choose|i: int| 0 <= i < members.len() && !((#[trigger] f(i)) is None);
        assert(members[i] == members[i]);
    }
}

/// A fitted model carries what was fitted and what it was fitted on: the intercept,
/// the trees, the grids and where the axes come from, with a kind for each axis.
pub proof fn law_fitted_models_keep_their_data(
    m: Model,
    f0: F32,
    trees: Seq<WeightedTree>,
    x: BinnedMatrix,
    link: Link,
    objective: ObjectiveTag,
    encoders: CatEncoderStore,
    i: int,
)
    requires
        is_fitted_model(m, f0, trees, x, link, objective, encoders),
        0 <= i < x.provenance@.len(),
    ensures
        m.f0 == f0 && m.trees@ == trees && m.link == link,
        m.provenance@ == x.provenance@ && grid_views(m.grids@) == grid_views(x.grids@),
        m.schema.objective == objective && m.schema.cat_encoders == encoders,
        m.mode == ExactnessMode::Exact && m.schema.class_labels is None,
        m.schema.feature_kinds@.len() == m.provenance@.len(),
        m.schema.feature_kinds@[i] == m.provenance@[i].kind,
        m.schema.feature_names@.len() == x.data@.len(),
{
}

} // verus!
