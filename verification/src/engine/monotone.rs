//! Monotone constraints by feature name.
use crate::constraints::MonoSign;
use crate::error::{answers, first_fault, lemma_first_fault, lemma_no_fault, Fault, PbError};
use crate::labels::{label_less, label_lt, law_label_order_is_total};
use crate::text::{dec, decimal};
use vstd::prelude::*;

verus! {

/// Monotone signs by feature name, in ascending order of the names.
#[derive(Debug, Clone, PartialEq)]
pub struct MonotoneMap {
    entries: Vec<(String, MonoSign)>,
}

impl MonotoneMap {
    /// The names with their signs.
    pub closed spec fn pairs(&self) -> Seq<(Seq<char>, MonoSign)> {
        self.entries@.map_values(|e: (String, MonoSign)| (e.0@, e.1))
    }

    /// The names ascend, so each occurs once.
    pub open spec fn wf(&self) -> bool {
        forall|i: int, j: int|
            0 <= i < j < self.pairs().len() ==> label_lt(
                (#[trigger] self.pairs()[i]).0,
                (#[trigger] self.pairs()[j]).0,
            )
    }

    /// Whether a name has a sign.
    pub open spec fn has(&self, name: Seq<char>, sign: MonoSign) -> bool {
        exists|i: int| 0 <= i < self.pairs().len() && #[trigger] self.pairs()[i] == (name, sign)
    }

    /// No constraints.
    pub fn new() -> (m: MonotoneMap)
        ensures
            m.wf(),
            m.pairs().len() == 0,
    {
        MonotoneMap { entries: Vec::new() }
    }

    /// Sets the sign of a name.
    pub fn insert(&mut self, name: &str, sign: MonoSign)
        requires
            old(self).wf(),
        ensures
            final(self).wf(),
            forall|n: Seq<char>, s: MonoSign| #[trigger]
                final(self).has(n, s) <==> (if n == name@ {
                    s == sign
                } else {
                    old(self).has(n, s)
                }),
    {
        let ghost before = self.pairs();
        let mut i: usize = 0;
        while i < self.entries.len() && label_less(self.entries[i].0.as_str(), name)
            invariant
                i <= self.entries.len(),
                *self == *old(self),
                before == self.pairs(),
                forall|j: int| 0 <= j < i ==> label_lt((#[trigger] before[j]).0, name@),
            decreases self.entries.len() - i,
        {
            assert(before[i as int].0 == self.entries@[i as int].0@);
            i = i + 1;
        }
        let found: bool = i < self.entries.len() && !label_less(name, self.entries[i].0.as_str());
        proof {
            if i < self.entries@.len() {
                assert(before[i as int].0 == self.entries@[i as int].0@);
                law_label_order_is_total(before[i as int].0, name@, name@);
            }
            assert forall|j: int| 0 <= j < before.len() && #[trigger] before[j].0 == name@ implies found
                && j == i by {
                law_label_order_is_total(name@, name@, name@);
                if j >= i && !(found && j == i) {
                    if j > i {
                        assert(label_lt(before[i as int].0, before[j].0));
                        law_label_order_is_total(before[i as int].0, before[j].0, name@);
                    }
                }
            }
        }
        let entry: (String, MonoSign) = (String::from_str(name), sign);
        if found {
            self.entries.set(i, entry);
        } else {
            self.entries.insert(i, entry);
        }
        proof {
            let now = self.pairs();
            let ii = i as int;
            let shift: int = if found {
                0
            } else {
                1
            };
            assert(now[ii] == (name@, sign));
            assert forall|k: int| 0 <= k < ii implies #[trigger] now[k] == before[k] by {}
            assert forall|k: int| ii < k < now.len() implies #[trigger] now[k] == before[k - shift] by {}
            assert forall|a: int, b: int| 0 <= a < b < now.len() implies label_lt(
                (#[trigger] now[a]).0,
                (#[trigger] now[b]).0,
            ) by {
                if b < ii {
                    assert(label_lt(before[a].0, before[b].0));
                } else if b == ii {
                    assert(label_lt(before[a].0, name@));
                } else if a < ii {
                    assert(label_lt(before[a].0, before[b - shift].0));
                } else if a == ii {
                    // What stands after the place comes after the name.
                    if found {
                        assert(label_lt(before[ii].0, before[b].0));
                    } else {
                        assert(label_lt(name@, before[ii].0));
                        if b - 1 > ii {
                            assert(label_lt(before[ii].0, before[b - 1].0));
                            law_label_order_is_total(name@, before[ii].0, before[b - 1].0);
                        }
                    }
                } else {
                    assert(label_lt(before[a - shift].0, before[b - shift].0));
                }
            }
            assert forall|n: Seq<char>, s: MonoSign| #[trigger] self.has(n, s) <==> (if n == name@ {
                s == sign
            } else {
                old(self).has(n, s)
            }) by {
                if self.has(n, s) {
                    let k = choose|k: int| 0 <= k < now.len() && #[trigger] now[k] == (n, s);
                    if k < ii {
                        assert(before[k] == (n, s));
                        assert(before[k].0 == n);
                    } else if k > ii {
                        assert(before[k - shift] == (n, s));
                        assert(before[k - shift].0 == n);
                    }
                }
                if n == name@ && s == sign {
                    assert(now[ii] == (n, s));
                }
                if n != name@ && old(self).has(n, s) {
                    let k = choose|k: int| 0 <= k < before.len() && #[trigger] before[k] == (n, s);
                    if k < ii {
                        assert(now[k] == (n, s));
                    } else if found && k == ii {
                        assert(before[ii].0 == name@);
                    } else {
                        assert(now[k + shift] == (n, s));
                    }
                }
            }
        }
    }
}

/// Whether a character is a decimal digit.
pub open spec fn is_digit(c: char) -> bool {
    '0' <= c && c <= '9'
}

/// The value of decimal digits.
pub open spec fn digits_value(s: Seq<char>) -> nat
    decreases s.len(),
{
    if s.len() == 0 {
        0
    } else {
        digits_value(s.drop_last()) * 10 + ((s.last() as int) - 48) as nat
    }
}

/// A text without one leading plus sign.
pub open spec fn without_plus(s: Seq<char>) -> Seq<char> {
    if s.len() > 0 && s[0] == '+' {
        s.skip(1)
    } else {
        s
    }
}

/// Whether a text consists of digits.
pub open spec fn all_digits(t: Seq<char>) -> bool {
    forall|i: int| 0 <= i < t.len() ==> is_digit(#[trigger] t[i])
}

/// The number that a text writes: digits, after at most one plus sign.
pub open spec fn number_of(s: Seq<char>) -> Option<nat> {
    let t = without_plus(s);
    if t.len() == 0 || !all_digits(t) || digits_value(t) > usize::MAX {
        None
    } else {
        Some(digits_value(t))
    }
}

/// The axis that a default feature name means: `f` and its number.
pub open spec fn axis_of_name(name: Seq<char>) -> Option<nat> {
    if name.len() > 0 && name[0] == 'f' {
        number_of(name.skip(1))
    } else {
        None
    }
}

/// More digits never make a smaller number.
proof fn lemma_digits_grow(s: Seq<char>, i: int)
    requires
        0 <= i <= s.len(),
    ensures
        digits_value(s.take(i)) <= digits_value(s),
    decreases s.len(),
{
    if i == s.len() {
        assert(s.take(i) =~= s);
    } else {
        lemma_digits_grow(s.drop_last(), i);
        assert(s.drop_last().take(i) =~= s.take(i));
    }
}

/// The axis that a feature name means.
pub fn parse_axis(name: &str) -> (r: Option<usize>)
    ensures
        match r {
            Some(a) => axis_of_name(name@) == Some(a as nat),
            None => axis_of_name(name@) is None,
        },
{
    let n: usize = name.unicode_len();
    if n == 0 || name.get_char(0) != 'f' {
        return None;
    }
    let ghost s = name@.skip(1);
    let start: usize = if n > 1 && name.get_char(1) == '+' {
        2
    } else {
        1
    };
    let ghost t = without_plus(s);
    assert(t =~= name@.skip(start as int));
    if start >= n {
        return None;
    }
    let mut value: usize = 0;
    let mut i: usize = start;
    while i < n
        invariant
            1 <= start <= i <= n,
            start < n,
            n == name@.len(),
            name@.len() > 0,
            name@[0] == 'f',
            s == name@.skip(1),
            t == name@.skip(start as int),
            t == without_plus(s),
            forall|j: int| 0 <= j < i - start ==> is_digit(#[trigger] t[j]),
            value == digits_value(t.take(i - start)),
        decreases n - i,
    {
        let c: char = name.get_char(i);
        let ghost k = i - start;
        proof {
            assert(t[k] == c);
            assert(t.take(k + 1).drop_last() =~= t.take(k));
            assert(t.take(k + 1).last() == c);
        }
        if c < '0' || c > '9' {
            assert(!is_digit(t[k]));
            return None;
        }
        let d: usize = (c as u32 - 48) as usize;
        if value > (usize::MAX - d) / 10 {
            proof {
                assert(digits_value(t.take(k + 1)) > usize::MAX);
                lemma_digits_grow(t, k + 1);
            }
            return None;
        }
        value = value * 10 + d;
        i = i + 1;
    }
    proof {
        assert(t.take(n - start) =~= t);
    }
    Some(value)
}

/// Why a monotone entry is refused.
pub open spec fn entry_fault(pairs: Seq<(Seq<char>, MonoSign)>, n_features: nat, i: int) -> Option<
    Fault,
> {
    match axis_of_name(pairs[i].0) {
        None => Some(
            Fault::InvalidConfig(
                "unknown monotone feature `"@ + pairs[i].0 + "`; expected default name f{axis}"@,
            ),
        ),
        Some(a) => if a >= n_features {
            Some(
                Fault::InvalidConfig(
                    "monotone feature `"@ + pairs[i].0 + "` is outside "@ + dec(n_features)
                        + " model axes"@,
                ),
            )
        } else {
            None
        },
    }
}

/// The sign of an axis after the first `n` entries: the last one that names it
/// and constrains it.
pub open spec fn resolved(pairs: Seq<(Seq<char>, MonoSign)>, n: nat, axis: int) -> Option<MonoSign>
    decreases n,
{
    if n == 0 {
        None
    } else if axis_of_name(pairs[n - 1].0) == Some(axis as nat) && pairs[n - 1].1 != MonoSign::Free {
        Some(pairs[n - 1].1)
    } else {
        resolved(pairs, (n - 1) as nat, axis)
    }
}

/// The sign of each axis.
pub fn resolve_monotone(map: &MonotoneMap, n_features: usize) -> (r: Result<
    Vec<Option<MonoSign>>,
    PbError,
>)
    ensures
        answers(
            r,
            first_fault(
                |i: int| entry_fault(map.pairs(), n_features as nat, i),
                0,
                map.pairs().len() as int,
            ),
        ),
        r is Ok ==> r->Ok_0@.len() == n_features && forall|a: int|
            0 <= a < n_features ==> #[trigger] r->Ok_0@[a] == resolved(
                map.pairs(),
                map.pairs().len(),
                a,
            ),
{
    let ghost pairs = map.pairs();
    let ghost f = |i: int| entry_fault(pairs, n_features as nat, i);
    let mut out: Vec<Option<MonoSign>> = Vec::with_capacity(n_features);
    let mut k: usize = 0;
    while k < n_features
        invariant
            k <= n_features,
            out@.len() == k,
            forall|a: int| 0 <= a < k ==> (#[trigger] out@[a]) is None,
        decreases n_features - k,
    {
        out.push(None);
        k = k + 1;
    }
    let mut i: usize = 0;
    while i < map.entries.len()
        invariant
            i <= map.entries.len(),
            pairs == map.pairs(),
            f == (|i: int| entry_fault(pairs, n_features as nat, i)),
            forall|j: int| 0 <= j < i ==> (#[trigger] f(j)) is None,
            out@.len() == n_features,
            forall|a: int|
                0 <= a < n_features ==> #[trigger] out@[a] == resolved(pairs, i as nat, a),
        decreases map.entries.len() - i,
    {
        proof {
            lemma_first_fault(f, 0, i as int, pairs.len() as int);
            assert(pairs[i as int] == (map.entries@[i as int].0@, map.entries@[i as int].1));
            assert(f(i as int) == entry_fault(pairs, n_features as nat, i as int));
        }
        let name: &str = map.entries[i].0.as_str();
        match parse_axis(name) {
            None => {
                let mut what = String::from_str("unknown monotone feature `");
                what.append(name);
                what.append("`; expected default name f{axis}");
                return Err(PbError::InvalidConfig { what });
            },
            Some(axis) => {
                if axis >= n_features {
                    let mut what = String::from_str("monotone feature `");
                    what.append(name);
                    what.append("` is outside ");
                    what.append(decimal(n_features as u64).as_str());
                    what.append(" model axes");
                    return Err(PbError::InvalidConfig { what });
                }
                let sign: MonoSign = map.entries[i].1;
                if sign != MonoSign::Free {
                    out.set(axis, Some(sign));
                }
            },
        }
        assert(f(i as int) is None);
        i = i + 1;
    }
    proof {
        lemma_first_fault(f, 0, pairs.len() as int, pairs.len() as int);
    }
    Ok(out)
}

/// The sign of an axis is that of the last entry that names the axis and is not
/// free; an axis that no such entry names has none.
pub proof fn law_signs_come_from_their_entries(
    pairs: Seq<(Seq<char>, MonoSign)>,
    n: nat,
    axis: int,
    i: int,
)
    requires
        n <= pairs.len(),
        axis >= 0,
    ensures
        (forall|j: int|
            0 <= j < n ==> axis_of_name((#[trigger] pairs[j]).0) != Some(axis as nat) || pairs[j].1
                == MonoSign::Free) ==> resolved(pairs, n, axis) is None,
        0 <= i < n && axis_of_name(pairs[i].0) == Some(axis as nat) && pairs[i].1 != MonoSign::Free && (
        forall|j: int|
            i < j < n ==> axis_of_name((#[trigger] pairs[j]).0) != Some(axis as nat) || pairs[j].1
                == MonoSign::Free) ==> resolved(pairs, n, axis) == Some(pairs[i].1),
    decreases n,
{
    if n > 0 {
        law_signs_come_from_their_entries(pairs, (n - 1) as nat, axis, i);
        assert(pairs[n - 1] == pairs[n - 1]);
    }
}

/// Signs resolve exactly when every entry names an axis of the model.
pub proof fn law_entries_must_name_axes(pairs: Seq<(Seq<char>, MonoSign)>, n_features: nat)
    ensures
        first_fault(|i: int| entry_fault(pairs, n_features, i), 0, pairs.len() as int) is None
            <==> forall|i: int|
            0 <= i < pairs.len() ==> (axis_of_name((#[trigger] pairs[i]).0) matches Some(a) && a
                < n_features),
{
    let f = |i: int| entry_fault(pairs, n_features, i);
    lemma_no_fault(f, pairs.len() as int);
    if forall|i: int| 0 <= i < pairs.len() ==> (#[trigger] f(i)) is None {
        assert forall|i: int| 0 <= i < pairs.len() implies (axis_of_name(
            (#[trigger] pairs[i]).0,
        ) matches Some(a) && a < n_features) by {
            assert(f(i) is None);
        }
    } else {
        let i = choose|i: int| 0 <= i < pairs.len() && !((#[trigger] f(i)) is None);
        assert(pairs[i] == pairs[i]);
    }
}

/// A name means an axis only if it is an `f` followed by digits, with at most a
/// plus sign between them.
pub proof fn law_axis_names_are_an_f_and_digits(name: Seq<char>)
    requires
        axis_of_name(name) is Some,
    ensures
        name.len() >= 2,
        name[0] == 'f',
        forall|i: int| 2 <= i < name.len() ==> '0' <= #[trigger] name[i] && name[i] <= '9',
        name[1] == '+' || ('0' <= name[1] && name[1] <= '9'),
        name[1] == '+' ==> name.len() >= 3,
{
    let rest = name.skip(1);
    let t = without_plus(rest);
    assert(rest[0] == name[1]);
    if rest[0] == '+' {
        assert forall|i: int| 2 <= i < name.len() implies '0' <= #[trigger] name[i] && name[i]
            <= '9' by {
            assert(t[i - 2] == name[i]);
        }
    } else {
        assert(t[0] == name[1]);
        assert forall|i: int| 2 <= i < name.len() implies '0' <= #[trigger] name[i] && name[i]
            <= '9' by {
            assert(t[i - 1] == name[i]);
        }
    }
}

} // verus!
