//! Categorical encodings: target statistics, their levels and their bins.
//!
//! The sums and averages behind an encoding are the caller's; this module holds
//! the rules around them: which inputs are refused, which labels are pooled,
//! in which order levels stand and which bin each of them gets, which rows may
//! inform the encoding of a row, and how labels are looked up when serving.
use crate::data::{feature_name, feature_text, FeatureId};
use crate::error::{answers, invalid_config, refused_setting, Fault, PbError};
use crate::float::F32;
use crate::labels::{
    before, is_label_order, label_less, label_lt, label_order, law_label_order_is_total, texts,
};
use crate::shown::shown;
use crate::text::{dec, number_last, with_number};
use vstd::prelude::*;

pub mod fisher;
pub mod fit;
pub mod leakage;

verus! {

/// The number of a target-statistic encoding.
#[derive(Debug, Clone, Copy, PartialEq, Eq, PartialOrd, Ord, Hash, Default, Structural)]
pub struct TsEncodingId(pub u8);

/// The text of an encoding number in messages.
pub open spec fn encoding_text(id: TsEncodingId) -> Seq<char> {
    "TsEncodingId("@ + dec(id.0 as nat) + ")"@
}

/// The text of an encoding number in messages.
pub fn encoding_name(id: TsEncodingId) -> (s: String)
    ensures
        s@ == encoding_text(id),
{
    with_number("TsEncodingId(", id.0 as u64, ")")
}

/// How the encoding of a training row is kept from seeing its own target.
#[derive(Debug, Clone, Copy, PartialEq, Eq, Structural)]
pub enum LeakageScheme {
    /// Averages over random orders, each row seeing only the rows before it.
    Ordered { n_perms: u32 },
    /// Cross-fitting: each row sees only the other folds.
    KFold { k: u32 },
    /// Each row sees all rows but itself.
    LeaveOneOut,
}

impl Default for LeakageScheme {
    fn default() -> (s: LeakageScheme)
        ensures
            s == (LeakageScheme::KFold { k: 5 }),
    {
        LeakageScheme::KFold { k: 5 }
    }
}

/// How strongly an encoding is pulled towards the base rate.
#[derive(Debug, Clone, Copy, PartialEq, Eq, Structural)]
pub enum Smooth {
    /// A fixed pseudo-weight.
    Fixed { m: F32 },
    /// A pseudo-weight estimated from the variances.
    Auto,
}

impl Default for Smooth {
    fn default() -> (s: Smooth)
        ensures
            s == (Smooth::Fixed { m: F32 { bits: 0x41a0_0000 } }),
    {
        Smooth::Fixed { m: F32 { bits: 0x41a0_0000 } }
    }
}

/// The scale on which targets are averaged.
#[derive(Debug, Clone, Copy, PartialEq, Eq, Structural)]
pub enum CatTarget {
    Mean,
    LogMean,
}

impl Default for CatTarget {
    fn default() -> (t: CatTarget)
        ensures
            t == CatTarget::Mean,
    {
        CatTarget::Mean
    }
}

/// The configuration of a target-statistic encoding.
#[derive(Debug, Clone, Copy, PartialEq, Eq, Structural)]
pub struct TsConfig {
    pub leakage: LeakageScheme,
    pub smooth: Smooth,
    pub target: CatTarget,
    pub target_borders: u32,
    pub one_hot_max_size: u32,
    /// Labels with less weight than this are pooled.
    pub min_data_per_group: F32,
}

impl Default for TsConfig {
    fn default() -> (c: TsConfig)
        ensures
            c.leakage == (LeakageScheme::KFold { k: 5 }),
            c.smooth == (Smooth::Fixed { m: F32 { bits: 0x41a0_0000 } }),
            c.target == CatTarget::Mean,
            c.target_borders == 16,
            c.one_hot_max_size == 2,
            c.min_data_per_group == (F32 { bits: 0x4120_0000 }),
    {
        TsConfig {
            leakage: LeakageScheme::default(),
            smooth: Smooth::default(),
            target: CatTarget::default(),
            target_borders: 16,
            one_hot_max_size: 2,
            min_data_per_group: F32 { bits: 0x4120_0000 },
        }
    }
}

/// Whether a number is finite and not below zero.
pub open spec fn finite_not_negative(x: F32) -> bool {
    x.finite() && x.key() >= 0
}

/// Why an encoding configuration is refused, in the order of the checks.
pub open spec fn ts_config_fault(c: TsConfig) -> Option<Fault> {
    if c.leakage matches LeakageScheme::Ordered { n_perms } && n_perms == 0 {
        Some(Fault::InvalidConfig("Ordered target statistics require n_perms > 0"@))
    } else if c.leakage matches LeakageScheme::KFold { k } && k < 2 {
        Some(
            Fault::InvalidConfig(
                "KFold target statistics require k >= 2, got "@ + dec(c.leakage->k as nat),
            ),
        )
    } else if c.target_borders == 0 {
        Some(Fault::InvalidConfig("target_borders must be > 0"@))
    } else if !finite_not_negative(c.min_data_per_group) {
        Some(
            Fault::InvalidConfig(
                "min_data_per_group must be finite and >= 0, got "@ + shown(c.min_data_per_group),
            ),
        )
    } else if c.smooth is Fixed && !finite_not_negative(c.smooth->m) {
        Some(
            Fault::InvalidConfig("Smooth::Fixed m must be finite and >= 0, got "@ + shown(c.smooth->m)),
        )
    } else {
        None
    }
}

impl TsConfig {
    /// Refuses a configuration that encoding cannot honour.
    pub fn validate(&self) -> (r: Result<(), PbError>)
        ensures
            answers(r, ts_config_fault(*self)),
    {
        match self.leakage {
            LeakageScheme::Ordered { n_perms } => {
                if n_perms == 0 {
                    return Err(invalid_config("Ordered target statistics require n_perms > 0"));
                }
            },
            LeakageScheme::KFold { k } => {
                if k < 2 {
                    let what = number_last("KFold target statistics require k >= 2, got ", k as u64);
                    return Err(PbError::InvalidConfig { what });
                }
            },
            LeakageScheme::LeaveOneOut => {},
        }
        if self.target_borders == 0 {
            return Err(invalid_config("target_borders must be > 0"));
        }
        if !self.min_data_per_group.is_finite() || self.min_data_per_group.order_key() < 0 {
            return Err(
                refused_setting(
                    "min_data_per_group must be finite and >= 0, got ",
                    self.min_data_per_group,
                ),
            );
        }
        match self.smooth {
            Smooth::Fixed { m } => {
                if !m.is_finite() || m.order_key() < 0 {
                    return Err(refused_setting("Smooth::Fixed m must be finite and >= 0, got ", m));
                }
            },
            Smooth::Auto => {},
        }
        Ok(())
    }
}

/// One level of an encoder.
#[derive(Debug, Clone, PartialEq)]
pub struct CatLevel {
    pub label: String,
    /// The raw labels that this level stands for.
    pub members: Vec<String>,
    pub encoding: F32,
    pub bin: u8,
    pub weight: F32,
}

/// The contents of a level.
pub struct LevelView {
    pub label: Seq<char>,
    pub members: Seq<Seq<char>>,
    pub encoding: F32,
    pub bin: u8,
    pub weight: F32,
}

impl View for CatLevel {
    type V = LevelView;

    open spec fn view(&self) -> LevelView {
        LevelView {
            label: self.label@,
            members: texts(self.members@),
            encoding: self.encoding,
            bin: self.bin,
            weight: self.weight,
        }
    }
}

/// The contents of levels.
pub open spec fn level_views(levels: Seq<CatLevel>) -> Seq<LevelView> {
    levels.map_values(|l: CatLevel| l@)
}

/// A copy of labels.
pub fn copy_labels(labels: &Vec<String>) -> (v: Vec<String>)
    ensures
        texts(v@) == texts(labels@),
{
    let mut v: Vec<String> = Vec::with_capacity(labels.len());
    let mut i: usize = 0;
    while i < labels.len()
        invariant
            i <= labels.len(),
            v@.len() == i,
            forall|j: int| 0 <= j < i ==> (#[trigger] v@[j])@ == labels@[j]@,
        decreases labels.len() - i,
    {
        v.push(labels[i].clone());
        i = i + 1;
    }
    assert(texts(v@) =~= texts(labels@));
    v
}

impl CatLevel {
    /// A copy of the level in another bin.
    pub fn in_bin(&self, bin: u8) -> (l: CatLevel)
        ensures
            l@ == (LevelView { bin, ..self@ }),
    {
        CatLevel {
            label: self.label.clone(),
            members: copy_labels(&self.members),
            encoding: self.encoding,
            bin,
            weight: self.weight,
        }
    }
}

/// A frozen target-statistic encoder of one raw feature.
#[derive(Debug, Clone, PartialEq)]
pub struct CatEncoder {
    pub raw: FeatureId,
    pub id: TsEncodingId,
    pub levels: Vec<CatLevel>,
    /// The encoding of labels that no level stands for.
    pub base: F32,
    pub config: TsConfig,
}

/// Whether a level stands for a label.
pub open spec fn stands_for(level: LevelView, label: Seq<char>) -> bool {
    level.label == label || level.members.contains(label)
}

/// The encoding of a label: that of the first level that stands for it.
pub open spec fn encoding_of(levels: Seq<LevelView>, base: F32, label: Seq<char>) -> F32
    decreases levels.len(),
{
    if levels.len() == 0 {
        base
    } else if stands_for(levels[0], label) {
        levels[0].encoding
    } else {
        encoding_of(levels.drop_first(), base, label)
    }
}

/// Whether `labels` holds `label`.
fn has_label(labels: &Vec<String>, label: &str) -> (b: bool)
    ensures
        b == texts(labels@).contains(label@),
{
    let mut i: usize = 0;
    while i < labels.len()
        invariant
            i <= labels.len(),
            forall|j: int| 0 <= j < i ==> texts(labels@)[j] != label@,
        decreases labels.len() - i,
    {
        if str_eq(labels[i].as_str(), label) {
            assert(texts(labels@)[i as int] == label@);
            return true;
        }
        i = i + 1;
    }
    false
}

/// Whether two texts are equal.
pub fn str_eq(a: &str, b: &str) -> (r: bool)
    ensures
        r == (a@ == b@),
{
    proof {
        law_label_order_is_total(a@, b@, a@);
    }
    !label_less(a, b) && !label_less(b, a)
}

/// The entries that a level contributes to the lookup table: its label, then
/// its members.
pub open spec fn level_entries(level: LevelView) -> Seq<(Seq<char>, F32)> {
    seq![(level.label, level.encoding)] + level.members.map_values(
        |m: Seq<char>| (m, level.encoding),
    )
}

/// The entries of the first `n` levels.
pub open spec fn entries_of(levels: Seq<LevelView>, n: nat) -> Seq<(Seq<char>, F32)>
    decreases n,
{
    if n == 0 {
        Seq::empty()
    } else {
        entries_of(levels, (n - 1) as nat) + level_entries(levels[n - 1])
    }
}

/// The table that inserting the entries one after the other gives.
pub open spec fn table_of(entries: Seq<(Seq<char>, F32)>) -> Map<Seq<char>, F32>
    decreases entries.len(),
{
    if entries.len() == 0 {
        Map::empty()
    } else {
        table_of(entries.drop_last()).insert(entries.last().0, entries.last().1)
    }
}

/// A lookup table from labels to encodings, sorted by label.
#[derive(Debug, Clone, PartialEq)]
pub struct EncodingMap {
    labels: Vec<String>,
    encodings: Vec<F32>,
}

impl EncodingMap {
    /// The labels, in order.
    pub closed spec fn keys(&self) -> Seq<Seq<char>> {
        texts(self.labels@)
    }

    /// The encodings, in the order of their labels.
    pub closed spec fn vals(&self) -> Seq<F32> {
        self.encodings@
    }

    /// Labels ascend, and each has its encoding.
    pub open spec fn wf(&self) -> bool {
        &&& self.keys().len() == self.vals().len()
        &&& forall|i: int, j: int|
            0 <= i < j < self.keys().len() ==> label_lt(
                #[trigger] self.keys()[i],
                #[trigger] self.keys()[j],
            )
    }

    /// Whether the table holds exactly the entries of `m`.
    pub open spec fn holds(&self, m: Map<Seq<char>, F32>) -> bool {
        &&& forall|i: int|
            0 <= i < self.keys().len() ==> m.dom().contains(#[trigger] self.keys()[i])
                && m[self.keys()[i]] == self.vals()[i]
        &&& forall|k: Seq<char>| #[trigger] m.dom().contains(k) ==> self.keys().contains(k)
    }

    /// The number of labels.
    pub fn len(&self) -> (n: usize)
        ensures
            n == self.keys().len(),
    {
        self.labels.len()
    }

    /// The encoding of a label, if the table has it.
    pub fn get(&self, label: &str) -> (r: Option<F32>)
        requires
            self.wf(),
        ensures
            r is Some <==> self.keys().contains(label@),
            forall|m: Map<Seq<char>, F32>|
                #[trigger] self.holds(m) ==> r == (if m.dom().contains(label@) {
                    Some(m[label@])
                } else {
                    None
                }),
    {
        let ghost keys = self.keys();
        let mut lo: usize = 0;
        let mut hi: usize = self.labels.len();
        while lo < hi
            invariant
                lo <= hi <= self.labels@.len(),
                keys == self.keys(),
                self.wf(),
                lo > 0 ==> label_lt(keys[lo - 1], label@),
                hi < keys.len() ==> !label_lt(keys[hi as int], label@),
            decreases hi - lo,
        {
            let mid: usize = lo + (hi - lo) / 2;
            assert(keys[mid as int] == self.labels@[mid as int]@);
            if label_less(self.labels[mid].as_str(), label) {
                lo = mid + 1;
            } else {
                hi = mid;
            }
        }
        let found: bool = lo < self.labels.len() && str_eq(self.labels[lo].as_str(), label);
        proof {
            assert(lo < keys.len() ==> keys[lo as int] == self.labels@[lo as int]@);
            if keys.contains(label@) {
                let p = choose|p: int| 0 <= p < keys.len() && keys[p] == label@;
                if p < lo {
                    if p < lo - 1 {
                        assert(label_lt(keys[p], keys[lo - 1]));
                    }
                    law_label_order_is_total(keys[p], keys[lo - 1], label@);
                    law_label_order_is_total(label@, label@, label@);
                }
                if p > lo {
                    assert(label_lt(keys[lo as int], keys[p]));
                }
                assert(p == lo);
            }
        }
        if found {
            Some(self.encodings[lo])
        } else {
            None
        }
    }
}

/// The encodings of labels when serving: by the lookup table, with the base for
/// labels that it lacks.
pub open spec fn served(levels: Seq<LevelView>, base: F32, labels: Seq<Seq<char>>) -> Seq<F32> {
    labels.map_values(|l: Seq<char>| table_encoding(levels, base, l))
}

impl CatEncoder {
    /// Encodes labels with the lookup table of the encoder.
    pub fn serve_labels(&self, labels: &Vec<String>) -> (out: Vec<F32>)
        ensures
            out@ == served(level_views(self.levels@), self.base, texts(labels@)),
    {
        let map = self.encoding_map();
        let ghost views = level_views(self.levels@);
        let ghost table = table_of(entries_of(views, views.len()));
        let mut out: Vec<F32> = Vec::with_capacity(labels.len());
        let mut i: usize = 0;
        while i < labels.len()
            invariant
                i <= labels.len(),
                views == level_views(self.levels@),
                table == table_of(entries_of(views, views.len())),
                map.wf(),
                map.holds(table),
                out@.len() == i,
                forall|j: int|
                    0 <= j < i ==> #[trigger] out@[j] == table_encoding(views, self.base, labels@[j]@),
            decreases labels.len() - i,
        {
            let e: F32 = match map.get(labels[i].as_str()) {
                Some(e) => e,
                None => self.base,
            };
            out.push(e);
            i = i + 1;
        }
        assert(out@ =~= served(views, self.base, texts(labels@)));
        out
    }

    /// The encoding of a label: that of the first level that stands for it, or
    /// the base.
    pub fn encode_label(&self, label: &str) -> (e: F32)
        ensures
            e == encoding_of(level_views(self.levels@), self.base, label@),
    {
        let ghost views = level_views(self.levels@);
        let mut i: usize = 0;
        assert(views.skip(0) =~= views);
        while i < self.levels.len()
            invariant
                i <= self.levels.len(),
                views == level_views(self.levels@),
                encoding_of(views, self.base, label@) == encoding_of(
                    views.skip(i as int),
                    self.base,
                    label@,
                ),
            decreases self.levels.len() - i,
        {
            assert(views[i as int] == self.levels@[i as int]@);
            if str_eq(self.levels[i].label.as_str(), label) || has_label(
                &self.levels[i].members,
                label,
            ) {
                return self.levels[i].encoding;
            }
            assert(views.skip(i as int).drop_first() =~= views.skip(i + 1));
            i = i + 1;
        }
        self.base
    }

    /// The lookup table of the encoder. Where a label occurs more than once, the
    /// last level that carries it counts.
    pub fn encoding_map(&self) -> (m: EncodingMap)
        ensures
            m.wf(),
            m.holds(table_of(entries_of(level_views(self.levels@), self.levels@.len()))),
    {
        let ghost views = level_views(self.levels@);
        let mut labels: Vec<String> = Vec::new();
        let mut encodings: Vec<F32> = Vec::new();
        let mut i: usize = 0;
        while i < self.levels.len()
            invariant
                i <= self.levels.len(),
                views == level_views(self.levels@),
                paired(labels@, encodings@, entries_of(views, i as nat)),
            decreases self.levels.len() - i,
        {
            let level = &self.levels[i];
            assert(views[i as int] == level@);
            let ghost start = entries_of(views, i as nat);
            labels.push(level.label.clone());
            encodings.push(level.encoding);
            let mut j: usize = 0;
            while j < level.members.len()
                invariant
                    j <= level.members.len(),
                    paired(
                        labels@,
                        encodings@,
                        start + level_entries(level@).take(j + 1),
                    ),
                decreases level.members.len() - j,
            {
                let ghost before_labels = labels@;
                let ghost all = level_entries(level@);
                labels.push(level.members[j].clone());
                encodings.push(level.encoding);
                proof {
                    assert(all.take(j + 2) =~= all.take(j + 1).push(all[j + 1]));
                    assert(all[j + 1] == (texts(level.members@)[j as int], level.encoding));
                    assert(start + all.take(j + 2) =~= (start + all.take(j + 1)).push(all[j + 1]));
                }
                j = j + 1;
            }
            assert(level_entries(level@).take(j + 1) =~= level_entries(level@));
            i = i + 1;
        }
        build_map(labels, encodings, Ghost(entries_of(views, views.len())))
    }
}

/// Whether the two lists are the two halves of the entries.
spec fn paired(labels: Seq<String>, encodings: Seq<F32>, entries: Seq<(Seq<char>, F32)>) -> bool {
    &&& labels.len() == entries.len()
    &&& encodings.len() == entries.len()
    &&& forall|i: int|
        0 <= i < entries.len() ==> #[trigger] entries[i] == (labels[i]@, encodings[i])
}

/// In the table, a label has the encoding of its last entry.
proof fn lemma_table_entry(entries: Seq<(Seq<char>, F32)>, i: int)
    requires
        0 <= i < entries.len(),
        forall|j: int| i < j < entries.len() ==> (#[trigger] entries[j]).0 != entries[i].0,
    ensures
        table_of(entries).dom().contains(entries[i].0),
        table_of(entries)[entries[i].0] == entries[i].1,
    decreases entries.len(),
{
    if i < entries.len() - 1 {
        let rest = entries.drop_last();
        assert(entries[entries.len() - 1].0 != entries[i].0);
        assert forall|j: int| i < j < rest.len() implies (#[trigger] rest[j]).0 != rest[i].0 by {
            assert(rest[j] == entries[j]);
        }
        lemma_table_entry(rest, i);
    }
}

proof fn lemma_table_domain(entries: Seq<(Seq<char>, F32)>, k: Seq<char>)
    requires
        table_of(entries).dom().contains(k),
    ensures
        exists|i: int| 0 <= i < entries.len() && (#[trigger] entries[i]).0 == k,
    decreases entries.len(),
{
    if entries.len() > 0 {
        let rest = entries.drop_last();
        if entries.last().0 == k {
            assert(entries[entries.len() - 1].0 == k);
        } else {
            lemma_table_domain(rest, k);
            let i = choose|i: int| 0 <= i < rest.len() && (#[trigger] rest[i]).0 == k;
            assert(entries[i].0 == k);
        }
    }
}

/// Whether position `p` of the order is the last one of its label.
spec fn last_of_run(order: Seq<usize>, t: Seq<Seq<char>>, p: int) -> bool {
    p + 1 >= order.len() || t[order[p + 1] as int] != t[order[p] as int]
}

/// Whether `x` is the label of a run that ends before position `p`.
spec fn ended_before(x: Seq<char>, order: Seq<usize>, t: Seq<Seq<char>>, p: int) -> bool {
    exists|q: int|
        0 <= q < p && x == t[#[trigger] order[q] as int] && last_of_run(order, t, q)
}

/// Sorts entries by label and keeps the last one of each.
fn build_map(labels: Vec<String>, encodings: Vec<F32>, entries: Ghost<Seq<(Seq<char>, F32)>>) -> (m:
    EncodingMap)
    requires
        paired(labels@, encodings@, entries@),
    ensures
        m.wf(),
        m.holds(table_of(entries@)),
{
    let ghost t = texts(labels@);
    let ghost table = table_of(entries@);
    let order = label_order(&labels);
    let mut out_labels: Vec<String> = Vec::new();
    let mut out_encodings: Vec<F32> = Vec::new();
    let mut p: usize = 0;
    while p < order.len()
        invariant
            p <= order.len(),
            t == texts(labels@),
            table == table_of(entries@),
            paired(labels@, encodings@, entries@),
            is_label_order(order@, t),
            out_labels@.len() == out_encodings@.len(),
            forall|a: int, b: int|
                0 <= a < b < out_labels@.len() ==> label_lt(
                    (#[trigger] out_labels@[a])@,
                    (#[trigger] out_labels@[b])@,
                ),
            forall|a: int|
                0 <= a < out_labels@.len() ==> table.dom().contains((#[trigger] out_labels@[a])@)
                    && table[out_labels@[a]@] == out_encodings@[a],
            forall|a: int|
                0 <= a < out_labels@.len() ==> ended_before(
                    (#[trigger] out_labels@[a])@,
                    order@,
                    t,
                    p as int,
                ),
            forall|q: int|
                0 <= q < p && last_of_run(order@, t, q) ==> texts(out_labels@).contains(
                    t[#[trigger] order@[q] as int],
                ),
        decreases order.len() - p,
    {
        let x: usize = order[p];
        let ghost before_out = out_labels@;
        let last: bool = if p + 1 >= order.len() {
            true
        } else {
            let y: usize = order[p + 1];
            assert(t[y as int] == labels@[y as int]@ && t[x as int] == labels@[x as int]@);
            !(labels[y] == labels[x])
        };
        if last {
            proof {
                assert(last_of_run(order@, t, p as int));
                assert(entries@[x as int] == (labels@[x as int]@, encodings@[x as int]));
                // No later entry has this label: it would stand later in the order.
                assert forall|j: int| x < j < entries@.len() implies (#[trigger] entries@[j]).0
                    != entries@[x as int].0 by {
                    if entries@[j].0 == entries@[x as int].0 {
                        assert(order@.contains(j as usize));
                        let q = choose|q: int| 0 <= q < order@.len() && order@[q] == j as usize;
                        if q < p {
                            assert(before(t, order@[q], x));
                            law_label_order_is_total(t[j], t[x as int], t[j]);
                        } else if q > p {
                            let y = order@[p + 1];
                            assert(before(t, x, y));
                            if q > p + 1 {
                                assert(before(t, y, order@[q]));
                            }
                            law_label_order_is_total(t[x as int], t[y as int], t[j]);
                            law_label_order_is_total(t[y as int], t[j], t[x as int]);
                            law_label_order_is_total(t[x as int], t[j], t[y as int]);
                        }
                    }
                }
                lemma_table_entry(entries@, x as int);
                assert forall|a: int| 0 <= a < before_out.len() implies label_lt(
                    (#[trigger] before_out[a])@,
                    t[x as int],
                ) by {
                    let q = choose|q: int|
                        0 <= q < p && before_out[a]@ == t[#[trigger] order@[q] as int]
                            && last_of_run(order@, t, q);
                    let y = order@[q + 1];
                    assert(before(t, order@[q], y));
                    if q + 1 < p {
                        assert(before(t, y, x));
                    }
                    law_label_order_is_total(t[order@[q] as int], t[y as int], t[x as int]);
                    law_label_order_is_total(t[y as int], t[x as int], t[order@[q] as int]);
                }
            }
            out_labels.push(labels[x].clone());
            out_encodings.push(encodings[x]);
            proof {
                assert forall|a: int| 0 <= a < out_labels@.len() implies ended_before(
                    (#[trigger] out_labels@[a])@,
                    order@,
                    t,
                    p + 1,
                ) by {
                    if a < before_out.len() {
                        assert(out_labels@[a] == before_out[a]);
                        assert(ended_before(before_out[a]@, order@, t, p as int));
                    } else {
                        assert(out_labels@[a]@ == t[order@[p as int] as int]);
                    }
                }
                assert forall|q: int| 0 <= q < p + 1 && last_of_run(order@, t, q) implies texts(
                    out_labels@,
                ).contains(t[#[trigger] order@[q] as int]) by {
                    if q < p {
                        let w = choose|w: int|
                            0 <= w < texts(before_out).len() && texts(before_out)[w]
                                == t[order@[q] as int];
                        assert(texts(out_labels@)[w] == t[order@[q] as int]);
                    } else {
                        assert(texts(out_labels@)[out_labels@.len() - 1] == t[x as int]);
                    }
                }
            }
        } else {
            proof {
                assert(!last_of_run(order@, t, p as int));
                assert forall|a: int| 0 <= a < out_labels@.len() implies ended_before(
                    (#[trigger] out_labels@[a])@,
                    order@,
                    t,
                    p + 1,
                ) by {
                    assert(ended_before(before_out[a]@, order@, t, p as int));
                }
            }
        }
        p = p + 1;
    }
    let m = EncodingMap { labels: out_labels, encodings: out_encodings };
    proof {
        let keys = m.keys();
        assert forall|a: int, b: int| 0 <= a < b < keys.len() implies label_lt(
            #[trigger] keys[a],
            #[trigger] keys[b],
        ) by {
            assert(keys[a] == out_labels@[a]@ && keys[b] == out_labels@[b]@);
        }
        assert forall|a: int| 0 <= a < keys.len() implies table.dom().contains(#[trigger] keys[a])
            && table[keys[a]] == m.vals()[a] by {
            assert(keys[a] == out_labels@[a]@);
        }
        assert forall|k: Seq<char>| #[trigger] table.dom().contains(k) implies keys.contains(k) by {
            lemma_table_domain(entries@, k);
            let i = choose|i: int| 0 <= i < entries@.len() && (#[trigger] entries@[i]).0 == k;
            assert(t[i] == k);
            assert(order@.contains(i as usize));
            let q = choose|q: int| 0 <= q < order@.len() && order@[q] == i as usize;
            lemma_run_has_last(order@, t, q);
            let z = choose|z: int|
                q <= z < order@.len() && t[#[trigger] order@[z] as int] == t[order@[q] as int]
                    && last_of_run(order@, t, z);
            assert(keys.contains(t[order@[z] as int]));
        }
    }
    m
}

proof fn lemma_run_has_last(order: Seq<usize>, t: Seq<Seq<char>>, q: int)
    requires
        0 <= q < order.len(),
    ensures
        exists|z: int|
            q <= z < order.len() && t[#[trigger] order[z] as int] == t[order[q] as int]
                && last_of_run(order, t, z),
    decreases order.len() - q,
{
    if last_of_run(order, t, q) {
        assert(t[order[q] as int] == t[order[q] as int]);
    } else {
        lemma_run_has_last(order, t, q + 1);
        let z = choose|z: int|
            q + 1 <= z < order.len() && t[#[trigger] order[z] as int] == t[order[q + 1] as int]
                && last_of_run(order, t, z);
        assert(t[order[z] as int] == t[order[q] as int]);
    }
}

/// The encoders of a model.
#[derive(Debug, Clone, PartialEq, Default)]
pub struct CatEncoderStore {
    encoders: Vec<CatEncoder>,
}

/// The position of the first encoder with this number for this raw feature, or
/// the length.
pub open spec fn encoder_at(list: Seq<CatEncoder>, id: TsEncodingId, raw: FeatureId, from: int) -> int
    decreases list.len() - from,
{
    if from >= list.len() {
        list.len() as int
    } else if list[from].id == id && list[from].raw == raw {
        from
    } else {
        encoder_at(list, id, raw, from + 1)
    }
}

/// Why a lookup of an encoder fails.
pub open spec fn lookup_fault(
    list: Seq<CatEncoder>,
    id: TsEncodingId,
    raw: FeatureId,
) -> Option<Fault> {
    if encoder_at(list, id, raw, 0) < list.len() {
        None
    } else {
        Some(
            Fault::Internal(
                "categorical encoder "@ + encoding_text(id) + " for raw feature "@ + feature_text(raw)
                    + " not found"@,
            ),
        )
    }
}

impl CatEncoderStore {
    /// The encoders, in the order in which they were given.
    pub closed spec fn list(&self) -> Seq<CatEncoder> {
        self.encoders@
    }

    /// A store without encoders.
    pub fn new() -> (s: CatEncoderStore)
        ensures
            s.list().len() == 0,
    {
        CatEncoderStore { encoders: Vec::new() }
    }

    /// A store of the given encoders.
    pub fn from_encoders(encoders: Vec<CatEncoder>) -> (s: CatEncoderStore)
        ensures
            s.list() == encoders@,
    {
        CatEncoderStore { encoders }
    }

    /// The encoders.
    pub fn encoders(&self) -> (v: &Vec<CatEncoder>)
        ensures
            v@ == self.list(),
    {
        &self.encoders
    }

    /// Whether there is no encoder.
    pub fn is_empty(&self) -> (b: bool)
        ensures
            b == (self.list().len() == 0),
    {
        self.encoders.len() == 0
    }

    /// The number of encoders.
    pub fn len(&self) -> (n: usize)
        ensures
            n == self.list().len(),
    {
        self.encoders.len()
    }

    /// The first encoder with this number for this raw feature.
    pub fn get(&self, id: TsEncodingId, raw: FeatureId) -> (r: Result<&CatEncoder, PbError>)
        ensures
            answers(r, lookup_fault(self.list(), id, raw)),
            r is Ok ==> *r->Ok_0 == self.list()[encoder_at(self.list(), id, raw, 0)] && r->Ok_0.id == id
                && r->Ok_0.raw == raw,
    {
        let mut i: usize = 0;
        while i < self.encoders.len()
            invariant
                i <= self.encoders.len(),
                encoder_at(self.list(), id, raw, 0) == encoder_at(self.list(), id, raw, i as int),
            decreases self.encoders.len() - i,
        {
            if self.encoders[i].id == id && self.encoders[i].raw == raw {
                return Ok(&self.encoders[i]);
            }
            i = i + 1;
        }
        let mut what = String::from_str("categorical encoder ");
        what.append(encoding_name(id).as_str());
        what.append(" for raw feature ");
        what.append(feature_name(raw).as_str());
        what.append(" not found");
        Err(PbError::Internal { what })
    }
}

/// The encoding that the lookup table gives a label.
pub open spec fn table_encoding(levels: Seq<LevelView>, base: F32, label: Seq<char>) -> F32 {
    let table = table_of(entries_of(levels, levels.len()));
    if table.dom().contains(label) {
        table[label]
    } else {
        base
    }
}

/// Whether no label is claimed with two encodings.
pub open spec fn unambiguous(levels: Seq<LevelView>) -> bool {
    forall|i: int, j: int, label: Seq<char>|
        0 <= i < levels.len() && 0 <= j < levels.len() && #[trigger] stands_for(levels[i], label)
            && #[trigger] stands_for(levels[j], label) ==> levels[i].encoding == levels[j].encoding
}

proof fn lemma_entry_owner(levels: Seq<LevelView>, n: nat, p: int) -> (i: int)
    requires
        n <= levels.len(),
        0 <= p < entries_of(levels, n).len(),
    ensures
        0 <= i < n,
        stands_for(levels[i], entries_of(levels, n)[p].0),
        entries_of(levels, n)[p].1 == levels[i].encoding,
    decreases n,
{
    let before_n = entries_of(levels, (n - 1) as nat);
    if p < before_n.len() {
        lemma_entry_owner(levels, (n - 1) as nat, p)
    } else {
        let q = p - before_n.len();
        let level = levels[n - 1];
        assert(entries_of(levels, n)[p] == level_entries(level)[q]);
        if q > 0 {
            assert(level_entries(level)[q].0 == level.members[q - 1]);
            assert(level.members.contains(level.members[q - 1]));
        }
        n - 1
    }
}

proof fn lemma_owner_entry(levels: Seq<LevelView>, n: nat, i: int, label: Seq<char>)
    requires
        0 <= i < n <= levels.len(),
        stands_for(levels[i], label),
    ensures
        exists|p: int|
            0 <= p < entries_of(levels, n).len() && (#[trigger] entries_of(levels, n)[p]).0 == label,
    decreases n,
{
    let now = entries_of(levels, n);
    let before_n = entries_of(levels, (n - 1) as nat);
    if i == n - 1 {
        let e = level_entries(levels[i]);
        if levels[i].label == label {
            assert(now[before_n.len() as int] == e[0]);
        } else {
            let w = choose|w: int| 0 <= w < levels[i].members.len() && levels[i].members[w] == label;
            assert(now[before_n.len() + w + 1] == e[w + 1]);
        }
    } else {
        lemma_owner_entry(levels, (n - 1) as nat, i, label);
        let p = choose|p: int| 0 <= p < before_n.len() && (#[trigger] before_n[p]).0 == label;
        assert(now[p] == before_n[p]);
    }
}

proof fn lemma_encoding_owner(levels: Seq<LevelView>, base: F32, label: Seq<char>)
    ensures
        (exists|i: int| 0 <= i < levels.len() && #[trigger] stands_for(levels[i], label)) ==> exists|
            i: int,
        |
            0 <= i < levels.len() && #[trigger] stands_for(levels[i], label) && encoding_of(
                levels,
                base,
                label,
            ) == levels[i].encoding,
        !(exists|i: int| 0 <= i < levels.len() && #[trigger] stands_for(levels[i], label))
            ==> encoding_of(levels, base, label) == base,
    decreases levels.len(),
{
    if levels.len() > 0 {
        let rest = levels.drop_first();
        lemma_encoding_owner(rest, base, label);
        if stands_for(levels[0], label) {
            assert(encoding_of(levels, base, label) == levels[0].encoding);
        } else {
            if exists|i: int| 0 <= i < levels.len() && #[trigger] stands_for(levels[i], label) {
                let i = choose|i: int| 0 <= i < levels.len() && #[trigger] stands_for(levels[i], label);
                assert(stands_for(rest[i - 1], label));
                let j = choose|j: int|
                    0 <= j < rest.len() && #[trigger] stands_for(rest[j], label) && encoding_of(
                        rest,
                        base,
                        label,
                    ) == rest[j].encoding;
                assert(stands_for(levels[j + 1], label));
            } else {
                assert forall|j: int| 0 <= j < rest.len() implies !(#[trigger] stands_for(
                    rest[j],
                    label,
                )) by {
                    assert(rest[j] == levels[j + 1]);
                    assert(!stands_for(levels[j + 1], label));
                }
            }
        }
    }
}

proof fn lemma_last_entry(entries: Seq<(Seq<char>, F32)>, p: int) -> (q: int)
    requires
        0 <= p < entries.len(),
    ensures
        p <= q < entries.len(),
        entries[q].0 == entries[p].0,
        forall|j: int| q < j < entries.len() ==> (#[trigger] entries[j]).0 != entries[q].0,
    decreases entries.len() - p,
{
    if exists|j: int| p < j < entries.len() && (#[trigger] entries[j]).0 == entries[p].0 {
        let j = choose|j: int| p < j < entries.len() && (#[trigger] entries[j]).0 == entries[p].0;
        lemma_last_entry(entries, j)
    } else {
        p
    }
}

/// Looking a label up in the table gives what encoding it directly gives.
pub proof fn law_table_agrees_with_levels(levels: Seq<LevelView>, base: F32, label: Seq<char>)
    requires
        unambiguous(levels),
    ensures
        table_encoding(levels, base, label) == encoding_of(levels, base, label),
{
    let entries = entries_of(levels, levels.len());
    let table = table_of(entries);
    lemma_encoding_owner(levels, base, label);
    if exists|i: int| 0 <= i < levels.len() && #[trigger] stands_for(levels[i], label) {
        let i = choose|i: int|
            0 <= i < levels.len() && #[trigger] stands_for(levels[i], label) && encoding_of(
                levels,
                base,
                label,
            ) == levels[i].encoding;
        lemma_owner_entry(levels, levels.len(), i, label);
        let p = choose|p: int| 0 <= p < entries.len() && (#[trigger] entries[p]).0 == label;
        let q = lemma_last_entry(entries, p);
        lemma_table_entry(entries, q);
        let j = lemma_entry_owner(levels, levels.len(), q);
        assert(stands_for(levels[j], label));
    } else if table.dom().contains(label) {
        lemma_table_domain(entries, label);
        let p = choose|p: int| 0 <= p < entries.len() && (#[trigger] entries[p]).0 == label;
        let j = lemma_entry_owner(levels, levels.len(), p);
        assert(stands_for(levels[j], label));
    }
}

/// An encoding configuration is accepted exactly when its scheme has permutations
/// or at least two folds, targets are cut at least once, and the group minimum and
/// a fixed strength are finite and not negative.
pub proof fn law_encoding_configs_are_sound(c: TsConfig)
    ensures
        ts_config_fault(c) is None <==> {
            &&& match c.leakage {
                LeakageScheme::Ordered { n_perms } => n_perms >= 1,
                LeakageScheme::KFold { k } => k >= 2,
                LeakageScheme::LeaveOneOut => true,
            }
            &&& c.target_borders >= 1
            &&& c.min_data_per_group.finite() && c.min_data_per_group.key() >= 0
            &&& match c.smooth {
                Smooth::Fixed { m } => m.finite() && m.key() >= 0,
                Smooth::Auto => true,
            }
        },
{
}

proof fn lemma_encoding_of(levels: Seq<LevelView>, base: F32, label: Seq<char>)
    ensures
        (forall|i: int|
            0 <= i < levels.len() ==> (#[trigger] levels[i]).label != label
                && !levels[i].members.contains(label)) ==> encoding_of(levels, base, label) == base,
        (exists|i: int|
            0 <= i < levels.len() && ((#[trigger] levels[i]).label == label
                || levels[i].members.contains(label))) ==> exists|i: int|
            {
                &&& 0 <= i < levels.len()
                &&& (#[trigger] levels[i]).label == label || levels[i].members.contains(label)
                &&& encoding_of(levels, base, label) == levels[i].encoding
                &&& forall|j: int|
                    0 <= j < i ==> (#[trigger] levels[j]).label != label
                        && !levels[j].members.contains(label)
            },
    decreases levels.len(),
{
    if levels.len() > 0 {
        let rest = levels.drop_first();
        lemma_encoding_of(rest, base, label);
        assert forall|i: int| 0 <= i < rest.len() implies #[trigger] rest[i] == levels[i + 1] by {}
        if levels[0].label == label || levels[0].members.contains(label) {
            assert(encoding_of(levels, base, label) == levels[0].encoding);
        } else if exists|i: int|
            0 <= i < levels.len() && ((#[trigger] levels[i]).label == label
                || levels[i].members.contains(label)) {
            let i = choose|i: int|
                0 <= i < levels.len() && ((#[trigger] levels[i]).label == label
                    || levels[i].members.contains(label));
            assert(rest[i - 1] == levels[i]);
            let k = choose|k: int|
                {
                    &&& 0 <= k < rest.len()
                    &&& (#[trigger] rest[k]).label == label || rest[k].members.contains(label)
                    &&& encoding_of(rest, base, label) == rest[k].encoding
                    &&& forall|j: int|
                        0 <= j < k ==> (#[trigger] rest[j]).label != label
                            && !rest[j].members.contains(label)
                };
            assert(levels[k + 1] == rest[k]);
            assert forall|j: int| 0 <= j < k + 1 implies (#[trigger] levels[j]).label != label
                && !levels[j].members.contains(label) by {
                if j > 0 {
                    assert(rest[j - 1] == levels[j]);
                }
            }
        }
    }
}

/// A label that no level carries or stands for is encoded as the base; any other
/// as the first level that carries it or stands for it.
pub proof fn law_labels_are_encoded_by_their_level(
    levels: Seq<LevelView>,
    base: F32,
    label: Seq<char>,
    k: int,
)
    ensures
        (forall|i: int|
            0 <= i < levels.len() ==> (#[trigger] levels[i]).label != label
                && !levels[i].members.contains(label)) ==> encoding_of(levels, base, label) == base,
        0 <= k < levels.len() && (levels[k].label == label || levels[k].members.contains(label))
            && (forall|j: int|
            0 <= j < k ==> (#[trigger] levels[j]).label != label && !levels[j].members.contains(
                label,
            )) ==> encoding_of(levels, base, label) == levels[k].encoding,
{
    lemma_encoding_of(levels, base, label);
    if 0 <= k < levels.len() && (levels[k].label == label || levels[k].members.contains(label)) && (
    forall|j: int|
        0 <= j < k ==> (#[trigger] levels[j]).label != label && !levels[j].members.contains(label)) {
        let i = choose|i: int|
            {
                &&& 0 <= i < levels.len()
                &&& (#[trigger] levels[i]).label == label || levels[i].members.contains(label)
                &&& encoding_of(levels, base, label) == levels[i].encoding
                &&& forall|j: int|
                    0 <= j < i ==> (#[trigger] levels[j]).label != label
                        && !levels[j].members.contains(label)
            };
        if i < k {
            assert(levels[i].label != label);
        }
        if k < i {
            assert(levels[k].label != label);
        }
    }
}

proof fn lemma_encoder_at(list: Seq<CatEncoder>, id: TsEncodingId, raw: FeatureId, from: int)
    requires
        0 <= from <= list.len(),
    ensures
        from <= encoder_at(list, id, raw, from) <= list.len(),
        forall|j: int|
            from <= j < encoder_at(list, id, raw, from) ==> !((#[trigger] list[j]).id == id
                && list[j].raw == raw),
        encoder_at(list, id, raw, from) < list.len() ==> list[encoder_at(
            list,
            id,
            raw,
            from,
        )].id == id && list[encoder_at(list, id, raw, from)].raw == raw,
    decreases list.len() - from,
{
    if from < list.len() {
        lemma_encoder_at(list, id, raw, from + 1);
    }
}

/// An encoder is found exactly when one has the number and the feature asked for,
/// and the first of them is.
pub proof fn law_encoders_are_found_by_number_and_feature(
    list: Seq<CatEncoder>,
    id: TsEncodingId,
    raw: FeatureId,
    k: int,
)
    ensures
        lookup_fault(list, id, raw) is None <==> exists|i: int|
            0 <= i < list.len() && (#[trigger] list[i]).id == id && list[i].raw == raw,
        0 <= k < list.len() && list[k].id == id && list[k].raw == raw && (forall|j: int|
            0 <= j < k ==> !((#[trigger] list[j]).id == id && list[j].raw == raw)) ==> encoder_at(
            list,
            id,
            raw,
            0,
        ) == k,
{
    lemma_encoder_at(list, id, raw, 0);
}

/// A label that no level carries or stands for is served as the base, and one that
/// a single level carries or stands for as that level.
pub proof fn law_labels_are_served_by_their_level(
    levels: Seq<LevelView>,
    base: F32,
    label: Seq<char>,
    k: int,
)
    ensures
        (forall|i: int|
            0 <= i < levels.len() ==> (#[trigger] levels[i]).label != label
                && !levels[i].members.contains(label)) ==> table_encoding(levels, base, label)
            == base,
        0 <= k < levels.len() && (levels[k].label == label || levels[k].members.contains(label)) && (
        forall|j: int|
            0 <= j < levels.len() && j != k ==> (#[trigger] levels[j]).label != label
                && !levels[j].members.contains(label)) ==> table_encoding(levels, base, label)
            == levels[k].encoding,
{
    let entries = entries_of(levels, levels.len());
    let table = table_of(entries);
    if table.dom().contains(label) {
        lemma_table_domain(entries, label);
        let p = choose|p: int| 0 <= p < entries.len() && (#[trigger] entries[p]).0 == label;
        let q = lemma_last_entry(entries, p);
        lemma_table_entry(entries, q);
        let j = lemma_entry_owner(levels, levels.len(), q);
        assert(levels[j].label == label || levels[j].members.contains(label));
    }
    if 0 <= k < levels.len() && (levels[k].label == label || levels[k].members.contains(label)) {
        assert(stands_for(levels[k], label));
        lemma_owner_entry(levels, levels.len(), k, label);
        let p = choose|p: int| 0 <= p < entries.len() && (#[trigger] entries[p]).0 == label;
        let q = lemma_last_entry(entries, p);
        lemma_table_entry(entries, q);
    }
}

} // verus!
