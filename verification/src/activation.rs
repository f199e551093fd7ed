//! Activation state for the spreading-activation pass.
//!
//! A sparse energy map over tags: a tag that is absent carries energy 0.
//! Energies are fixed-point scalars in millionths and are never negative;
//! additions saturate at `u64::MAX` instead of overflowing.

use vstd::prelude::*;
use crate::tag::Tag;
use crate::tag::TagView;
use crate::tag::tag_eq;
use crate::tag::canon_chars;
use crate::strutil::seq_le;
use crate::strutil::seq_lt;
use crate::strutil::string_lt;
use crate::strutil::lemma_seq_lt_total;
use crate::strutil::lemma_seq_lt_transitive;
use crate::strutil::lemma_seq_lt_asymmetric;
use crate::strutil::lemma_seq_lt_irreflexive;
use crate::fixed::UNIT;
use crate::fixed::sat_add;
use crate::fixed::sat_add_spec;
use crate::fixed::mul_frac;
use crate::fixed::mul_frac_spec;

verus! {

/// Whether some entry of `s` carries the tag `t`.
pub open spec fn has_key(s: Seq<(TagView, u64)>, t: TagView) -> bool {
    exists|i: int| 0 <= i < s.len() && s[i].0 == t
}

/// The position of the entry carrying `t`.
pub open spec fn key_at(s: Seq<(TagView, u64)>, t: TagView) -> int {
    choose|i: int| 0 <= i < s.len() && s[i].0 == t
}

/// The energy `s` assigns to `t`: the stored value, or 0 when absent.
pub open spec fn energy_of(s: Seq<(TagView, u64)>, t: TagView) -> int {
    if has_key(s, t) {
        s[key_at(s, t)].1 as int
    } else {
        0
    }
}

/// Every tag occurs in at most one entry.
pub open spec fn keys_distinct(s: Seq<(TagView, u64)>) -> bool {
    forall|i: int, j: int| 0 <= i < j < s.len() ==> s[i].0 != s[j].0
}

/// With distinct keys, the energy of the tag stored at position `i` is the
/// value stored there.
pub proof fn lemma_energy_at(s: Seq<(TagView, u64)>, i: int)
    requires
        keys_distinct(s),
        0 <= i < s.len(),
    ensures
        energy_of(s, s[i].0) == s[i].1,
{
    let t = s[i].0;
    assert(has_key(s, t));
    let j = key_at(s, t);
    assert(0 <= j < s.len() && s[j].0 == t);
    if i < j {
        assert(false);
    } else if j < i {
        assert(false);
    }
}

/// The map after adding `e` to the energy of `t`: the entry is updated
/// in place when present, or appended when absent.
pub open spec fn spec_add(s: Seq<(TagView, u64)>, t: TagView, e: u64) -> Seq<(TagView, u64)> {
    if has_key(s, t) {
        s.update(
            key_at(s, t),
            (t, sat_add_spec(s[key_at(s, t)].1 as int, e as int) as u64),
        )
    } else {
        s.push((t, e))
    }
}

/// The map after adding the first `i` entries of `d` into `s`, in order.
pub open spec fn spec_merge_upto(
    s: Seq<(TagView, u64)>,
    d: Seq<(TagView, u64)>,
    i: int,
) -> Seq<(TagView, u64)>
    decreases i,
{
    if i <= 0 {
        s
    } else {
        spec_add(spec_merge_upto(s, d, i - 1), d[i - 1].0, d[i - 1].1)
    }
}

/// The map after adding every entry of `d` into `s`, in order.
pub open spec fn spec_merge(s: Seq<(TagView, u64)>, d: Seq<(TagView, u64)>) -> Seq<
    (TagView, u64),
> {
    spec_merge_upto(s, d, d.len() as int)
}

/// The sum of all stored energies, saturating.
pub open spec fn sum_energies(s: Seq<(TagView, u64)>) -> int
    decreases s.len(),
{
    if s.len() == 0 {
        0
    } else {
        sat_add_spec(sum_energies(s.drop_last()), s.last().1 as int)
    }
}

/// The largest stored energy, or 0 when the map is empty.
pub open spec fn max_energy(s: Seq<(TagView, u64)>) -> int
    decreases s.len(),
{
    if s.len() == 0 {
        0
    } else if s.last().1 as int > max_energy(s.drop_last()) {
        s.last().1 as int
    } else {
        max_energy(s.drop_last())
    }
}

pub proof fn lemma_max_energy_bounds(s: Seq<(TagView, u64)>)
    ensures
        0 <= max_energy(s) <= u64::MAX,
        forall|i: int| 0 <= i < s.len() ==> s[i].1 as int <= max_energy(s),
    decreases s.len(),
{
    if s.len() > 0 {
        lemma_max_energy_bounds(s.drop_last());
        assert forall|i: int| 0 <= i < s.len() implies s[i].1 as int <= max_energy(
            s,
        ) by {
            if i < s.len() - 1 {
                assert(s[i].1 == s.drop_last()[i].1);
            }
        }
    }
}

/// Extending a prefix by one entry updates its maximum in the obvious way.
pub proof fn lemma_max_energy_take_step(s: Seq<(TagView, u64)>, i: int)
    requires
        0 <= i < s.len(),
    ensures
        max_energy(s.take(i + 1)) == if s[i].1 as int > max_energy(s.take(i)) {
            s[i].1 as int
        } else {
            max_energy(s.take(i))
        },
{
    assert(s.take(i + 1).drop_last() =~= s.take(i));
    assert(s.take(i + 1).last() == s[i]);
}

/// The hot-tag output order: higher energy first; on equal energies the
/// canonically smaller tag string first.
pub open spec fn pair_before(a: (TagView, u64), b: (TagView, u64)) -> bool {
    a.1 > b.1 || (a.1 == b.1 && seq_le(canon_chars(a.0), canon_chars(b.0)))
}

/// A sequence of pairs in hot-tag order.
pub open spec fn sorted_hot(s: Seq<(TagView, u64)>) -> bool {
    forall|i: int, j: int| 0 <= i < j < s.len() ==> pair_before(s[i], s[j])
}

/// The hot-tag order is total.
pub proof fn lemma_pair_before_total(a: (TagView, u64), b: (TagView, u64))
    ensures
        pair_before(a, b) || pair_before(b, a),
{
    if a.1 == b.1 {
        lemma_seq_lt_total(canon_chars(a.0), canon_chars(b.0));
    }
}

/// The hot-tag order is transitive.
pub proof fn lemma_pair_before_transitive(
    a: (TagView, u64),
    b: (TagView, u64),
    c: (TagView, u64),
)
    requires
        pair_before(a, b),
        pair_before(b, c),
    ensures
        pair_before(a, c),
{
    if a.1 == b.1 && b.1 == c.1 {
        if seq_lt(canon_chars(a.0), canon_chars(b.0)) && seq_lt(
            canon_chars(b.0),
            canon_chars(c.0),
        ) {
            lemma_seq_lt_transitive(canon_chars(a.0), canon_chars(b.0), canon_chars(c.0));
        }
    }
}

/// Compare two tag-energy pairs in the hot-tag order.
fn pair_before_exec(a: &(Tag, u64), b: &(Tag, u64)) -> (r: bool)
    ensures
        r == pair_before((a.0@, a.1), (b.0@, b.1)),
{
    if a.1 != b.1 {
        a.1 > b.1
    } else {
        let sa = a.0.as_string();
        let sb = b.0.as_string();
        let b_lt_a = string_lt(&sb, &sa);
        proof {
            lemma_seq_lt_total(canon_chars(a.0@), canon_chars(b.0@));
            if seq_lt(canon_chars(b.0@), canon_chars(a.0@)) {
                lemma_seq_lt_asymmetric(canon_chars(b.0@), canon_chars(a.0@));
                lemma_seq_lt_irreflexive(canon_chars(a.0@));
            }
        }
        !b_lt_a
    }
}

/// The map after multiplying every energy by the fixed-point factor `f`.
pub open spec fn decayed(s: Seq<(TagView, u64)>, f: u64) -> Seq<(TagView, u64)> {
    s.map_values(|p: (TagView, u64)| (p.0, mul_frac_spec(p.1 as int, f as int) as u64))
}

/// The map after dividing every energy by `m`, rescaled so `m` maps to `UNIT`.
pub open spec fn rescaled(s: Seq<(TagView, u64)>, m: int) -> Seq<(TagView, u64)> {
    s.map_values(|p: (TagView, u64)| (p.0, (p.1 as int * UNIT / m) as u64))
}

/// The map after normalization: when some energy is positive, all energies
/// are divided by the maximum, which becomes exactly `UNIT`; otherwise the
/// map is unchanged.
pub open spec fn normalize_spec(s: Seq<(TagView, u64)>) -> Seq<(TagView, u64)> {
    if max_energy(s) > 0 {
        rescaled(s, max_energy(s))
    } else {
        s
    }
}

/// The maximum of a non-empty map is attained by some entry.
pub proof fn lemma_max_energy_attained(s: Seq<(TagView, u64)>)
    requires
        s.len() > 0,
    ensures
        exists|i: int| 0 <= i < s.len() && s[i].1 as int == max_energy(s),
    decreases s.len(),
{
    if s.last().1 as int > max_energy(s.drop_last()) {
        assert(s[s.len() - 1].1 as int == max_energy(s));
    } else {
        if s.len() == 1 {
            assert(s.drop_last().len() == 0);
            assert(s[0].1 as int == max_energy(s));
        } else {
            lemma_max_energy_attained(s.drop_last());
            let i = choose|i: int|
                0 <= i < s.drop_last().len() && s.drop_last()[i].1 as int == max_energy(
                    s.drop_last(),
                );
            assert(s[i].1 == s.drop_last()[i].1);
            assert(s[i].1 as int == max_energy(s));
        }
    }
}

/// Normalization is idempotent when some energy is positive: after one
/// normalization the maximum is exactly `UNIT`, and dividing by `UNIT`
/// changes nothing.
pub proof fn lemma_normalize_idempotent(s: Seq<(TagView, u64)>)
    requires
        max_energy(s) > 0,
    ensures
        normalize_spec(normalize_spec(s)) == normalize_spec(s),
{
    let m = max_energy(s);
    let s1 = rescaled(s, m);
    lemma_max_energy_bounds(s);
    assert forall|i: int| 0 <= i < s1.len() implies 0 <= s1[i].1 as int <= UNIT
        && s1[i].1 as int == s[i].1 as int * UNIT / m by {
        assert(s[i].1 as int * UNIT <= m * UNIT) by (nonlinear_arith)
            requires
                s[i].1 as int <= m,
                UNIT > 0,
        ;
        vstd::arithmetic::div_mod::lemma_div_is_ordered(s[i].1 as int * UNIT, m * UNIT, m);
        assert(m * UNIT / m == UNIT) by (nonlinear_arith)
            requires
                m > 0,
        ;
        assert(0 <= s[i].1 as int * UNIT) by (nonlinear_arith)
            requires
                0 <= s[i].1 as int,
                0 <= UNIT,
        ;
        vstd::arithmetic::div_mod::lemma_div_is_ordered(0, s[i].1 as int * UNIT, m);
    }
    lemma_max_energy_attained(s);
    let w = choose|i: int| 0 <= i < s.len() && s[i].1 as int == max_energy(s);
    assert(s1[w].1 as int == UNIT) by {
        assert(m * UNIT / m == UNIT) by (nonlinear_arith)
            requires
                m > 0,
        ;
    }
    lemma_max_energy_bounds(s1);
    lemma_max_energy_attained(s1);
    assert(max_energy(s1) == UNIT);
    assert(rescaled(s1, UNIT as int) =~= s1) by {
        assert forall|i: int| 0 <= i < s1.len() implies rescaled(s1, UNIT as int)[i]
            == s1[i] by {
            assert(s1[i].1 as int * UNIT / (UNIT as int) == s1[i].1 as int)
                by (nonlinear_arith)
                requires
                    UNIT > 0,
            ;
        }
    }
}

/// Two decays compose: decaying by `a` and then by `b` equals one decay by
/// the fixed-point product of `a` and `b`, whenever every intermediate
/// product is an exact multiple of `UNIT` and nothing saturates.
pub proof fn lemma_decay_composition(s: Seq<(TagView, u64)>, a: u64, b: u64)
    requires
        (a * b) % (UNIT as int) == 0,
        a * b <= u64::MAX * (UNIT as int),
        forall|i: int| 0 <= i < s.len() ==> (#[trigger] s[i].1 * a) % (UNIT as int) == 0,
        forall|i: int| 0 <= i < s.len() ==> #[trigger] s[i].1 * a <= u64::MAX * (UNIT as int),
        forall|i: int|
            0 <= i < s.len() ==> #[trigger] s[i].1 * a * b <= u64::MAX * (UNIT as int) * (
            UNIT as int),
    ensures
        decayed(decayed(s, a), b) == decayed(s, mul_frac_spec(a as int, b as int) as u64),
{
    let ab = mul_frac_spec(a as int, b as int);
    assert(ab == a * b / (UNIT as int)) by {
        vstd::arithmetic::div_mod::lemma_div_is_ordered(
            a * b,
            u64::MAX * (UNIT as int),
            UNIT as int,
        );
        assert(u64::MAX * (UNIT as int) / (UNIT as int) == u64::MAX) by (nonlinear_arith)
            requires
                UNIT > 0,
        ;
    }
    assert(decayed(decayed(s, a), b) =~= decayed(s, ab as u64)) by {
        assert forall|i: int| 0 <= i < s.len() implies decayed(decayed(s, a), b)[i]
            == decayed(s, ab as u64)[i] by {
            let e = s[i].1 as int;
            crate::fixed::lemma_mul_frac_compose(e, a as int, b as int);
            assert(mul_frac_spec(e, a as int) <= u64::MAX);
            assert(mul_frac_spec(a as int, b as int) <= u64::MAX);
            assert(decayed(s, a)[i] == (s[i].0, mul_frac_spec(e, a as int) as u64));
            assert(decayed(decayed(s, a), b)[i] == (s[i].0, mul_frac_spec(
                mul_frac_spec(e, a as int),
                b as int,
            ) as u64));
            assert(decayed(s, ab as u64)[i] == (s[i].0, mul_frac_spec(e, ab) as u64));
        }
    }
}

/// Tracks activation energy for tags during spreading.
pub struct ActivationState {
    entries: Vec<(Tag, u64)>,
}

impl View for ActivationState {
    type V = Seq<(TagView, u64)>;

    closed spec fn view(&self) -> Seq<(TagView, u64)> {
        self.entries@.map_values(|p: (Tag, u64)| (p.0@, p.1))
    }
}

impl ActivationState {
    /// Each tag holds at most one entry of the map.
    pub open spec fn wf(&self) -> bool {
        keys_distinct(self@)
    }

    /// Create a new empty activation state.
    pub fn new() -> (r: Self)
        ensures
            r.wf(),
            r@.len() == 0,
    {
        let r = ActivationState { entries: Vec::new() };
        proof {
            assert(r@.len() == 0);
        }
        r
    }

    /// Find the position holding `tag`, if any.
    fn find_index(&self, tag: &Tag) -> (r: Option<usize>)
        ensures
            match r {
                Some(i) => i < self@.len() && self@[i as int].0 == tag@,
                None => !has_key(self@, tag@),
            },
    {
        let mut i: usize = 0;
        while i < self.entries.len()
            invariant
                i <= self.entries.len(),
                self@.len() == self.entries@.len(),
                forall|j: int| 0 <= j < i ==> self@[j].0 != tag@,
            decreases self.entries.len() - i,
        {
            if tag_eq(&self.entries[i].0, tag) {
                return Some(i);
            }
            i = i + 1;
        }
        None
    }

    /// Add energy to a tag, accumulating with any existing energy.
    pub fn add_energy(&mut self, tag: Tag, energy: u64)
        requires
            old(self).wf(),
        ensures
            final(self).wf(),
            energy_of(final(self)@, tag@) == sat_add_spec(
                energy_of(old(self)@, tag@),
                energy as int,
            ),
            forall|u: TagView| u != tag@ ==> energy_of(final(self)@, u) == energy_of(
                old(self)@,
                u,
            ),
            forall|u: TagView| has_key(final(self)@, u) == (has_key(old(self)@, u) || u
                == tag@),
            final(self)@ == spec_add(old(self)@, tag@, energy),
    {
        let ghost s0 = self@;
        match self.find_index(&tag) {
            Some(i) => {
                proof {
                    lemma_energy_at(s0, i as int);
                    assert(has_key(s0, tag@)) by {
                        assert(s0[i as int].0 == tag@);
                    }
                    assert(key_at(s0, tag@) == i as int) by {
                        let k = key_at(s0, tag@);
                        if k != i as int {
                            assert(s0[k].0 == tag@);
                            assert(false);
                        }
                    }
                }
                let cur = self.entries[i].1;
                let summed = sat_add(cur, energy);
                let t = self.entries[i].0.clone();
                self.entries.set(i, (t, summed));
                proof {
                    let s1 = self@;
                    assert(s1 =~= s0.update(i as int, (tag@, summed)));
                    assert(s1 =~= spec_add(s0, tag@, energy));
                    assert(keys_distinct(s1));
                    lemma_energy_at(s1, i as int);
                    assert forall|u: TagView| u != tag@ implies energy_of(s1, u) == energy_of(
                        s0,
                        u,
                    ) by {
                        assert(has_key(s1, u) == has_key(s0, u)) by {
                            if has_key(s0, u) {
                                let k = key_at(s0, u);
                                assert(s1[k].0 == u);
                            }
                            if has_key(s1, u) {
                                let k = key_at(s1, u);
                                assert(s0[k].0 == u);
                            }
                        }
                        if has_key(s0, u) {
                            let k = key_at(s0, u);
                            assert(k != i as int);
                            lemma_energy_at(s1, k);
                            lemma_energy_at(s0, k);
                        }
                    }
                    assert forall|u: TagView| has_key(s1, u) == (has_key(s0, u) || u
                        == tag@) by {
                        if has_key(s1, u) {
                            let k = key_at(s1, u);
                            if k != i as int {
                                assert(s0[k].0 == u);
                            }
                        }
                        if has_key(s0, u) {
                            let k = key_at(s0, u);
                            if k != i as int {
                                assert(s1[k].0 == u);
                            }
                        }
                        if u == tag@ {
                            assert(s1[i as int].0 == u);
                        }
                    }
                }
            },
            None => {
                self.entries.push((tag, energy));
                proof {
                    let s1 = self@;
                    assert(s1 =~= s0.push((tag@, energy)));
                    assert(s1 =~= spec_add(s0, tag@, energy));
                    assert(keys_distinct(s1)) by {
                        assert(forall|i: int|
                            0 <= i < s0.len() ==> s1[i] == #[trigger] s0[i]);
                    }
                    lemma_energy_at(s1, s1.len() - 1);
                    assert(energy_of(s0, tag@) == 0);
                    assert forall|u: TagView| u != tag@ implies energy_of(s1, u) == energy_of(
                        s0,
                        u,
                    ) by {
                        assert(has_key(s1, u) == has_key(s0, u)) by {
                            if has_key(s1, u) {
                                let k = key_at(s1, u);
                                assert(k < s0.len());
                                assert(s0[k].0 == u);
                            }
                            if has_key(s0, u) {
                                let k = key_at(s0, u);
                                assert(s1[k].0 == u);
                            }
                        }
                        if has_key(s0, u) {
                            let k = key_at(s0, u);
                            lemma_energy_at(s1, k);
                            lemma_energy_at(s0, k);
                        }
                    }
                    assert forall|u: TagView| has_key(s1, u) == (has_key(s0, u) || u
                        == tag@) by {
                        if has_key(s1, u) && u != tag@ {
                            let k = key_at(s1, u);
                            assert(k < s0.len());
                            assert(s0[k].0 == u);
                        }
                        if has_key(s0, u) {
                            let k = key_at(s0, u);
                            assert(s1[k].0 == u);
                        }
                        assert(s1[s1.len() - 1].0 == tag@);
                    }
                }
            },
        }
    }

    /// Set the energy of a tag to a specific value, overwriting.
    pub fn set_energy(&mut self, tag: Tag, energy: u64)
        requires
            old(self).wf(),
        ensures
            final(self).wf(),
            energy_of(final(self)@, tag@) == energy,
            forall|u: TagView| u != tag@ ==> energy_of(final(self)@, u) == energy_of(
                old(self)@,
                u,
            ),
            forall|u: TagView| has_key(final(self)@, u) == (has_key(old(self)@, u) || u
                == tag@),
    {
        let ghost s0 = self@;
        match self.find_index(&tag) {
            Some(i) => {
                let t = self.entries[i].0.clone();
                self.entries.set(i, (t, energy));
                proof {
                    let s1 = self@;
                    assert(s1 =~= s0.update(i as int, (tag@, energy)));
                    assert(keys_distinct(s1));
                    lemma_energy_at(s1, i as int);
                    assert forall|u: TagView| u != tag@ implies energy_of(s1, u) == energy_of(
                        s0,
                        u,
                    ) by {
                        assert(has_key(s1, u) == has_key(s0, u)) by {
                            if has_key(s0, u) {
                                let k = key_at(s0, u);
                                assert(s1[k].0 == u);
                            }
                            if has_key(s1, u) {
                                let k = key_at(s1, u);
                                assert(s0[k].0 == u);
                            }
                        }
                        if has_key(s0, u) {
                            let k = key_at(s0, u);
                            assert(k != i as int);
                            lemma_energy_at(s1, k);
                            lemma_energy_at(s0, k);
                        }
                    }
                    assert forall|u: TagView| has_key(s1, u) == (has_key(s0, u) || u
                        == tag@) by {
                        if has_key(s1, u) {
                            let k = key_at(s1, u);
                            if k != i as int {
                                assert(s0[k].0 == u);
                            }
                        }
                        if has_key(s0, u) {
                            let k = key_at(s0, u);
                            if k != i as int {
                                assert(s1[k].0 == u);
                            }
                        }
                        if u == tag@ {
                            assert(s1[i as int].0 == u);
                        }
                    }
                }
            },
            None => {
                self.entries.push((tag, energy));
                proof {
                    let s1 = self@;
                    assert(s1 =~= s0.push((tag@, energy)));
                    assert(keys_distinct(s1)) by {
                        assert(forall|i: int|
                            0 <= i < s0.len() ==> s1[i] == #[trigger] s0[i]);
                    }
                    lemma_energy_at(s1, s1.len() - 1);
                    assert forall|u: TagView| u != tag@ implies energy_of(s1, u) == energy_of(
                        s0,
                        u,
                    ) by {
                        assert(has_key(s1, u) == has_key(s0, u)) by {
                            if has_key(s1, u) {
                                let k = key_at(s1, u);
                                assert(k < s0.len());
                                assert(s0[k].0 == u);
                            }
                            if has_key(s0, u) {
                                let k = key_at(s0, u);
                                assert(s1[k].0 == u);
                            }
                        }
                        if has_key(s0, u) {
                            let k = key_at(s0, u);
                            lemma_energy_at(s1, k);
                            lemma_energy_at(s0, k);
                        }
                    }
                    assert forall|u: TagView| has_key(s1, u) == (has_key(s0, u) || u
                        == tag@) by {
                        if has_key(s1, u) && u != tag@ {
                            let k = key_at(s1, u);
                            assert(k < s0.len());
                            assert(s0[k].0 == u);
                        }
                        if has_key(s0, u) {
                            let k = key_at(s0, u);
                            assert(s1[k].0 == u);
                        }
                        assert(s1[s1.len() - 1].0 == tag@);
                    }
                }
            },
        }
    }

    /// Get the energy of a tag; 0 when the tag is absent.
    pub fn get_energy(&self, tag: &Tag) -> (r: u64)
        requires
            self.wf(),
        ensures
            r == energy_of(self@, tag@),
    {
        match self.find_index(tag) {
            Some(i) => {
                proof {
                    lemma_energy_at(self@, i as int);
                }
                self.entries[i].1
            },
            None => 0,
        }
    }

    /// Check if a tag has any energy.
    pub fn is_active(&self, tag: &Tag) -> (r: bool)
        requires
            self.wf(),
        ensures
            r == (energy_of(self@, tag@) > 0),
    {
        self.get_energy(tag) > 0
    }

    /// The number of tags carrying an entry.
    pub fn active_count(&self) -> (r: usize)
        ensures
            r == self@.len(),
    {
        self.entries.len()
    }

    /// The stored tag-energy pairs, in insertion order.
    pub fn iter_energies(&self) -> (r: &Vec<(Tag, u64)>)
        ensures
            r@.map_values(|p: (Tag, u64)| (p.0@, p.1)) == self@,
    {
        &self.entries
    }

    /// The total energy in the system, saturating.
    pub fn total_energy(&self) -> (r: u64)
        ensures
            r == sum_energies(self@),
    {
        let mut total: u64 = 0;
        let mut i: usize = 0;
        proof {
            assert(self@.take(0) =~= Seq::<(TagView, u64)>::empty());
        }
        while i < self.entries.len()
            invariant
                i <= self.entries.len(),
                self@.len() == self.entries@.len(),
                total == sum_energies(self@.take(i as int)),
            decreases self.entries.len() - i,
        {
            total = sat_add(total, self.entries[i].1);
            proof {
                assert(self@.take(i + 1).drop_last() =~= self@.take(i as int));
                assert(self@.take(i + 1).last() == self@[i as int]);
            }
            i = i + 1;
        }
        proof {
            assert(self@.take(self@.len() as int) =~= self@);
        }
        total
    }

    /// The tag with the highest energy, or none if the state is empty.
    pub fn hottest_tag(&self) -> (r: Option<(Tag, u64)>)
        requires
            self.wf(),
        ensures
            match r {
                Some(p) => {
                    &&& has_key(self@, p.0@)
                    &&& p.1 == energy_of(self@, p.0@)
                    &&& p.1 == max_energy(self@)
                },
                None => self@.len() == 0,
            },
    {
        if self.entries.len() == 0 {
            return None;
        }
        let mut best: usize = 0;
        let mut i: usize = 1;
        proof {
            assert(self@.take(0) =~= Seq::<(TagView, u64)>::empty());
            assert(max_energy(self@.take(0)) == 0);
            lemma_max_energy_take_step(self@, 0);
        }
        while i < self.entries.len()
            invariant
                1 <= i <= self.entries.len(),
                best < i,
                self@.len() == self.entries@.len(),
                self@.len() > 0,
                max_energy(self@.take(i as int)) == self@[best as int].1,
            decreases self.entries.len() - i,
        {
            proof {
                lemma_max_energy_take_step(self@, i as int);
            }
            if self.entries[i].1 > self.entries[best].1 {
                best = i;
            }
            i = i + 1;
        }
        proof {
            assert(self@.take(self@.len() as int) =~= self@);
            lemma_energy_at(self@, best as int);
        }
        let t = self.entries[best].0.clone();
        Some((t, self.entries[best].1))
    }

    /// Apply decay to all energies: multiply each by the fixed-point
    /// factor `decay_rate`.
    pub fn apply_decay(&mut self, decay_rate: u64)
        requires
            old(self).wf(),
        ensures
            final(self).wf(),
            final(self)@ == decayed(old(self)@, decay_rate),
    {
        let ghost s0 = self@;
        let mut i: usize = 0;
        while i < self.entries.len()
            invariant
                i <= self.entries.len(),
                self.entries@.len() == s0.len(),
                self@.len() == s0.len(),
                forall|j: int| i <= j < s0.len() ==> self@[j] == s0[j],
                forall|j: int|
                    0 <= j < i ==> self@[j] == (s0[j].0, mul_frac_spec(
                        s0[j].1 as int,
                        decay_rate as int,
                    ) as u64),
            decreases self.entries.len() - i,
        {
            let t = self.entries[i].0.clone();
            let e = mul_frac(self.entries[i].1, decay_rate);
            let ghost pre = self@;
            self.entries.set(i, (t, e));
            proof {
                assert(self@ =~= pre.update(i as int, (s0[i as int].0, e)));
            }
            i = i + 1;
        }
        proof {
            assert(final(self)@ =~= decayed(s0, decay_rate));
            assert(keys_distinct(final(self)@));
        }
    }

    /// Remove tags with energy below the threshold.
    pub fn prune(&mut self, threshold: u64)
        requires
            old(self).wf(),
        ensures
            final(self).wf(),
            forall|u: TagView| has_key(final(self)@, u) == (has_key(old(self)@, u)
                && energy_of(old(self)@, u) >= threshold),
            forall|u: TagView| has_key(final(self)@, u) ==> energy_of(final(self)@, u)
                == energy_of(old(self)@, u),
    {
        let ghost s0 = self@;
        let mut kept: Vec<(Tag, u64)> = Vec::new();
        let mut i: usize = 0;
        while i < self.entries.len()
            invariant
                i <= self.entries.len(),
                old(self) == self,
                self@ == s0,
                keys_distinct(s0),
                self.entries@.len() == s0.len(),
                keys_distinct(kept@.map_values(|p: (Tag, u64)| (p.0@, p.1))),
                forall|u: TagView| has_key(
                    kept@.map_values(|p: (Tag, u64)| (p.0@, p.1)),
                    u,
                ) == (has_key(s0.take(i as int), u) && energy_of(s0.take(i as int), u)
                    >= threshold),
                forall|u: TagView| has_key(
                    kept@.map_values(|p: (Tag, u64)| (p.0@, p.1)),
                    u,
                ) ==> energy_of(kept@.map_values(|p: (Tag, u64)| (p.0@, p.1)), u)
                    == energy_of(s0.take(i as int), u),
            decreases self.entries.len() - i,
        {
            let ghost kv0 = kept@.map_values(|p: (Tag, u64)| (p.0@, p.1));
            proof {
                assert(s0.take(i + 1).drop_last() =~= s0.take(i as int));
                assert(s0.take(i + 1).last() == s0[i as int]);
                assert(keys_distinct(s0.take(i + 1)));
                assert(keys_distinct(s0.take(i as int)));
                // the current key is new to the prefix
                assert(!has_key(s0.take(i as int), s0[i as int].0)) by {
                    if has_key(s0.take(i as int), s0[i as int].0) {
                        let k = key_at(s0.take(i as int), s0[i as int].0);
                        assert(s0[k].0 == s0[i as int].0);
                    }
                }
                lemma_energy_at(s0.take(i + 1), i as int);
            }
            if self.entries[i].1 >= threshold {
                let t = self.entries[i].0.clone();
                let e = self.entries[i].1;
                kept.push((t, e));
                proof {
                    let kv1 = kept@.map_values(|p: (Tag, u64)| (p.0@, p.1));
                    assert(kv1 =~= kv0.push((s0[i as int].0, s0[i as int].1)));
                    assert(keys_distinct(kv1)) by {
                        assert(forall|j: int|
                            0 <= j < kv0.len() ==> kv1[j] == #[trigger] kv0[j]);
                        assert(!has_key(kv0, s0[i as int].0));
                    }
                    lemma_energy_at(kv1, kv1.len() - 1);
                    assert forall|u: TagView| has_key(kv1, u) == (has_key(s0.take(i + 1), u)
                        && energy_of(s0.take(i + 1), u) >= threshold) by {
                        if u == s0[i as int].0 {
                            assert(kv1[kv1.len() - 1].0 == u);
                            assert(has_key(kv1, u));
                            assert(energy_of(s0.take(i + 1), u) == s0[i as int].1);
                        } else {
                            assert(has_key(kv1, u) == has_key(kv0, u)) by {
                                if has_key(kv1, u) {
                                    let k = key_at(kv1, u);
                                    assert(k < kv0.len());
                                    assert(kv0[k].0 == u);
                                }
                                if has_key(kv0, u) {
                                    let k = key_at(kv0, u);
                                    assert(kv1[k].0 == u);
                                }
                            }
                            assert(has_key(s0.take(i + 1), u) == has_key(
                                s0.take(i as int),
                                u,
                            )) by {
                                if has_key(s0.take(i + 1), u) {
                                    let k = key_at(s0.take(i + 1), u);
                                    assert(k < i);
                                    assert(s0.take(i as int)[k].0 == u);
                                }
                                if has_key(s0.take(i as int), u) {
                                    let k = key_at(s0.take(i as int), u);
                                    assert(s0.take(i + 1)[k].0 == u);
                                }
                            }
                            if has_key(s0.take(i as int), u) {
                                let k = key_at(s0.take(i as int), u);
                                lemma_energy_at(s0.take(i as int), k);
                                lemma_energy_at(s0.take(i + 1), k);
                            }
                        }
                    }
                    assert forall|u: TagView| has_key(kv1, u) implies energy_of(kv1, u)
                        == energy_of(s0.take(i + 1), u) by {
                        if u == s0[i as int].0 {
                            assert(energy_of(kv1, u) == s0[i as int].1);
                        } else {
                            let k = key_at(kv1, u);
                            assert(k < kv0.len());
                            assert(kv0[k].0 == u);
                            lemma_energy_at(kv1, k);
                            lemma_energy_at(kv0, k);
                            assert(has_key(kv0, u));
                            let k2 = key_at(s0.take(i as int), u);
                            lemma_energy_at(s0.take(i as int), k2);
                            lemma_energy_at(s0.take(i + 1), k2);
                        }
                    }
                }
            } else {
                proof {
                    assert forall|u: TagView| has_key(kv0, u) == (has_key(s0.take(i + 1), u)
                        && energy_of(s0.take(i + 1), u) >= threshold) by {
                        if u == s0[i as int].0 {
                            assert(energy_of(s0.take(i + 1), u) == s0[i as int].1);
                            assert(!(energy_of(s0.take(i + 1), u) >= threshold));
                            assert(!has_key(s0.take(i as int), u));
                            assert(!has_key(kv0, u));
                        } else {
                            assert(has_key(s0.take(i + 1), u) == has_key(
                                s0.take(i as int),
                                u,
                            )) by {
                                if has_key(s0.take(i + 1), u) {
                                    let k = key_at(s0.take(i + 1), u);
                                    assert(k < i);
                                    assert(s0.take(i as int)[k].0 == u);
                                }
                                if has_key(s0.take(i as int), u) {
                                    let k = key_at(s0.take(i as int), u);
                                    assert(s0.take(i + 1)[k].0 == u);
                                }
                            }
                            if has_key(s0.take(i as int), u) {
                                let k = key_at(s0.take(i as int), u);
                                lemma_energy_at(s0.take(i as int), k);
                                lemma_energy_at(s0.take(i + 1), k);
                            }
                        }
                    }
                    assert forall|u: TagView| has_key(kv0, u) implies energy_of(kv0, u)
                        == energy_of(s0.take(i + 1), u) by {
                        assert(u != s0[i as int].0);
                        let k2 = key_at(s0.take(i as int), u);
                        lemma_energy_at(s0.take(i as int), k2);
                        lemma_energy_at(s0.take(i + 1), k2);
                    }
                }
            }
            i = i + 1;
        }
        proof {
            assert(s0.take(s0.len() as int) =~= s0);
        }
        self.entries = kept;
    }

    /// Normalize energies so the maximum becomes exactly `UNIT`; a no-op
    /// when every energy is zero.
    pub fn normalize(&mut self)
        requires
            old(self).wf(),
        ensures
            final(self).wf(),
            final(self)@ == normalize_spec(old(self)@),
    {
        let ghost s0 = self@;
        match self.hottest_tag() {
            Some(p) => {
                let mx = p.1;
                if mx > 0 {
                    let mut i: usize = 0;
                    while i < self.entries.len()
                        invariant
                            i <= self.entries.len(),
                            mx > 0,
                            mx == max_energy(s0),
                            self.entries@.len() == s0.len(),
                            self@.len() == s0.len(),
                            forall|j: int| i <= j < s0.len() ==> self@[j] == s0[j],
                            forall|j: int|
                                0 <= j < i ==> self@[j] == (s0[j].0, (s0[j].1 as int
                                    * UNIT / mx as int) as u64),
                        decreases self.entries.len() - i,
                    {
                        proof {
                            lemma_max_energy_bounds(s0);
                            assert(s0[i as int].1 <= mx);
                            assert(s0[i as int].1 as int * UNIT <= mx as int * UNIT)
                                by (nonlinear_arith)
                                requires
                                    s0[i as int].1 as int <= mx as int,
                                    UNIT > 0,
                            ;
                            assert(s0[i as int].1 as int * UNIT / (mx as int) <= mx as int
                                * UNIT / (mx as int)) by {
                                vstd::arithmetic::div_mod::lemma_div_is_ordered(
                                    s0[i as int].1 as int * UNIT,
                                    mx as int * UNIT,
                                    mx as int,
                                );
                            }
                            assert(mx as int * UNIT / (mx as int) == UNIT)
                                by (nonlinear_arith)
                                requires
                                    mx > 0,
                            ;
                        }
                        let t = self.entries[i].0.clone();
                        let e128: u128 = (self.entries[i].1 as u128) * (UNIT as u128)
                            / (mx as u128);
                        proof {
                            assert((self.entries@[i as int].1 as u128) * (UNIT as u128)
                                == s0[i as int].1 as int * UNIT) by (nonlinear_arith)
                                requires
                                    self.entries@[i as int].1 == s0[i as int].1,
                                    self.entries@[i as int].1 <= u64::MAX,
                            ;
                        }
                        let e = e128 as u64;
                        let ghost pre = self@;
                        self.entries.set(i, (t, e));
                        proof {
                            assert(self@ =~= pre.update(i as int, (s0[i as int].0, e)));
                        }
                        i = i + 1;
                    }
                    proof {
                        assert(final(self)@ =~= rescaled(s0, max_energy(s0)));
                        assert(keys_distinct(final(self)@));
                    }
                } else {
                    proof {
                        assert(final(self)@ == s0);
                    }
                }
            },
            None => {
                proof {
                    assert(s0.len() == 0);
                    assert(max_energy(s0) == 0);
                }
            },
        }
    }

    /// Merge another activation state into this one, adding energies.
    #[verifier::rlimit(100)]
    #[verifier::spinoff_prover]
    pub fn merge(&mut self, other: &ActivationState)
        requires
            old(self).wf(),
            other.wf(),
        ensures
            final(self).wf(),
            forall|u: TagView| energy_of(final(self)@, u) == sat_add_spec(
                energy_of(old(self)@, u),
                energy_of(other@, u),
            ),
            forall|u: TagView| has_key(final(self)@, u) == (has_key(old(self)@, u)
                || has_key(other@, u)),
            final(self)@ == spec_merge(old(self)@, other@),
    {
        let ghost s0 = self@;
        let ghost so = other@;
        let pairs = other.iter_energies();
        let mut i: usize = 0;
        while i < pairs.len()
            invariant
                i <= pairs.len(),
                pairs@.map_values(|p: (Tag, u64)| (p.0@, p.1)) == so,
                pairs@.len() == so.len(),
                keys_distinct(so),
                self.wf(),
                self@ == spec_merge_upto(s0, so, i as int),
                forall|u: TagView| energy_of(self@, u) == sat_add_spec(
                    energy_of(s0, u),
                    energy_of(so.take(i as int), u),
                ),
                forall|u: TagView| has_key(self@, u) == (has_key(s0, u) || has_key(
                    so.take(i as int),
                    u,
                )),
            decreases pairs.len() - i,
        {
            let ghost pre = self@;
            proof {
                assert(so.take(i + 1).drop_last() =~= so.take(i as int));
                assert(so.take(i + 1).last() == so[i as int]);
                assert(keys_distinct(so.take(i + 1)));
                assert(!has_key(so.take(i as int), so[i as int].0)) by {
                    if has_key(so.take(i as int), so[i as int].0) {
                        let k = key_at(so.take(i as int), so[i as int].0);
                        assert(so[k].0 == so[i as int].0);
                    }
                }
                lemma_energy_at(so.take(i + 1), i as int);
            }
            let t = pairs[i].0.clone();
            let e = pairs[i].1;
            let ghost tv2 = t@;
            proof {
                assert(t@ == so[i as int].0);
                assert(e == so[i as int].1);
            }
            self.add_energy(t, e);
            proof {
                assert(forall|u: TagView|
                    u != tv2 ==> energy_of(self@, u) == #[trigger] energy_of(pre, u));
                assert(self@ == spec_add(pre, so[i as int].0, so[i as int].1));
                assert(self@ == spec_merge_upto(s0, so, i + 1));
            }
            proof {
                assert forall|u: TagView| energy_of(self@, u) == sat_add_spec(
                    energy_of(s0, u),
                    energy_of(so.take(i + 1), u),
                ) by {
                    if u == so[i as int].0 {
                        assert(energy_of(so.take(i as int), u) == 0);
                        assert(energy_of(so.take(i + 1), u) == so[i as int].1);
                        assert(energy_of(pre, u) == sat_add_spec(energy_of(s0, u), 0));
                        assert(energy_of(self@, u) == sat_add_spec(
                            energy_of(pre, u),
                            e as int,
                        ));
                    } else {
                        assert(energy_of(so.take(i + 1), u) == energy_of(
                            so.take(i as int),
                            u,
                        )) by {
                            assert(has_key(so.take(i + 1), u) == has_key(
                                so.take(i as int),
                                u,
                            )) by {
                                if has_key(so.take(i + 1), u) {
                                    let k = key_at(so.take(i + 1), u);
                                    assert(k < i);
                                    assert(so.take(i as int)[k].0 == u);
                                }
                                if has_key(so.take(i as int), u) {
                                    let k = key_at(so.take(i as int), u);
                                    assert(so.take(i + 1)[k].0 == u);
                                }
                            }
                            if has_key(so.take(i as int), u) {
                                let k = key_at(so.take(i as int), u);
                                lemma_energy_at(so.take(i as int), k);
                                lemma_energy_at(so.take(i + 1), k);
                            }
                        }
                        assert(energy_of(self@, u) == energy_of(pre, u));
                    }
                }
                assert forall|u: TagView| #[trigger] has_key(self@, u) == (has_key(s0, u)
                    || has_key(so.take(i + 1), u)) by {
                    assert(has_key(self@, u) == (has_key(pre, u) || u == so[i as int].0));
                    assert(has_key(pre, u) == (has_key(s0, u) || has_key(
                        so.take(i as int),
                        u,
                    )));
                    assert(has_key(so.take(i + 1), u) == (has_key(so.take(i as int), u) || u
                        == so[i as int].0)) by {
                        if has_key(so.take(i + 1), u) && u != so[i as int].0 {
                            let k = key_at(so.take(i + 1), u);
                            assert(k < i);
                            assert(so.take(i as int)[k].0 == u);
                        }
                        if has_key(so.take(i as int), u) {
                            let k = key_at(so.take(i as int), u);
                            assert(so.take(i + 1)[k].0 == u);
                        }
                        if u == so[i as int].0 {
                            assert(so.take(i + 1)[i as int].0 == u);
                        }
                    }
                }
            }
            i = i + 1;
        }
        proof {
            assert(so.take(so.len() as int) =~= so);
            assert(forall|u: TagView| #[trigger] energy_of(self@, u) == sat_add_spec(
                energy_of(s0, u),
                energy_of(so, u),
            ));
            assert(forall|u: TagView| #[trigger] has_key(self@, u) == (has_key(s0, u)
                || has_key(so, u)));
        }
    }

    /// Tags with energy at or above the threshold, sorted by energy
    /// descending; ties are broken by canonical tag string ascending.
    pub fn hot_tags(&self, threshold: u64) -> (r: Vec<(Tag, u64)>)
        requires
            self.wf(),
        ensures
            ({
                let rv = r@.map_values(|p: (Tag, u64)| (p.0@, p.1));
                &&& keys_distinct(rv)
                &&& sorted_hot(rv)
                &&& forall|k: int|
                    0 <= k < rv.len() ==> has_key(self@, rv[k].0) && rv[k].1 == energy_of(
                        self@,
                        rv[k].0,
                    ) && rv[k].1 >= threshold
                &&& forall|u: TagView|
                    has_key(self@, u) && energy_of(self@, u) >= threshold ==> has_key(rv, u)
            }),
    {
        let ghost s0 = self@;
        let mut hot: Vec<(Tag, u64)> = Vec::new();
        let mut i: usize = 0;
        while i < self.entries.len()
            invariant
                i <= self.entries.len(),
                self.wf(),
                self@ == s0,
                self.entries@.len() == s0.len(),
                keys_distinct(hot@.map_values(|p: (Tag, u64)| (p.0@, p.1))),
                ({
                    let hv = hot@.map_values(|p: (Tag, u64)| (p.0@, p.1));
                    forall|k: int|
                        0 <= k < hv.len() ==> has_key(s0, #[trigger] hv[k].0) && hv[k].1
                            == energy_of(s0, hv[k].0) && hv[k].1 >= threshold && has_key(
                            s0.take(i as int),
                            hv[k].0,
                        )
                }),
                forall|j: int|
                    0 <= j < i && s0[j].1 >= threshold ==> has_key(
                        hot@.map_values(|p: (Tag, u64)| (p.0@, p.1)),
                        #[trigger] s0[j].0,
                    ),
            decreases self.entries.len() - i,
        {
            let ghost hv0 = hot@.map_values(|p: (Tag, u64)| (p.0@, p.1));
            proof {
                assert(forall|u: TagView|
                    has_key(s0.take(i as int), u) ==> has_key(s0.take(i + 1), u)) by {
                    assert forall|u: TagView|
                        has_key(s0.take(i as int), u) implies has_key(s0.take(i + 1), u) by {
                        let k = key_at(s0.take(i as int), u);
                        assert(s0.take(i + 1)[k].0 == u);
                    }
                }
            }
            let e = self.entries[i].1;
            if e >= threshold {
                let t = self.entries[i].0.clone();
                hot.push((t, e));
                proof {
                    let hv1 = hot@.map_values(|p: (Tag, u64)| (p.0@, p.1));
                    assert(hv1 =~= hv0.push((s0[i as int].0, e)));
                    lemma_energy_at(s0, i as int);
                    assert(!has_key(hv0, s0[i as int].0)) by {
                        if has_key(hv0, s0[i as int].0) {
                            let k = key_at(hv0, s0[i as int].0);
                            let j = key_at(s0.take(i as int), hv0[k].0);
                            assert(s0[j].0 == s0[i as int].0);
                        }
                    }
                    assert(keys_distinct(hv1)) by {
                        assert(forall|x: int| 0 <= x < hv0.len() ==> hv1[x] == #[trigger] hv0[x]);
                    }
                    assert(has_key(s0.take(i + 1), s0[i as int].0)) by {
                        assert(s0.take(i + 1)[i as int].0 == s0[i as int].0);
                    }
                    assert(forall|u: TagView| has_key(hv0, u) ==> has_key(hv1, u)) by {
                        assert forall|u: TagView| has_key(hv0, u) implies has_key(hv1, u) by {
                            let k = key_at(hv0, u);
                            assert(hv1[k].0 == u);
                        }
                    }
                    assert(has_key(hv1, s0[i as int].0)) by {
                        assert(hv1[hv1.len() - 1].0 == s0[i as int].0);
                    }
                }
            } else {
                proof {
                    lemma_energy_at(s0, i as int);
                }
            }
            i = i + 1;
        }
        proof {
            assert(s0.take(s0.len() as int) =~= s0);
        }
        let ghost hv = hot@.map_values(|p: (Tag, u64)| (p.0@, p.1));
        // insertion sort into the output order
        let mut out: Vec<(Tag, u64)> = Vec::new();
        let mut m: usize = 0;
        while m < hot.len()
            invariant
                m <= hot.len(),
                hot@.map_values(|p: (Tag, u64)| (p.0@, p.1)) == hv,
                hot@.len() == hv.len(),
                keys_distinct(hv),
                forall|k: int|
                    0 <= k < hv.len() ==> has_key(s0, #[trigger] hv[k].0) && hv[k].1 == energy_of(
                        s0,
                        hv[k].0,
                    ) && hv[k].1 >= threshold,
                forall|u: TagView| has_key(s0, u) && energy_of(s0, u) >= threshold ==> has_key(
                    hv,
                    u,
                ),
                ({
                    let ov = out@.map_values(|p: (Tag, u64)| (p.0@, p.1));
                    &&& sorted_hot(ov)
                    &&& keys_distinct(ov)
                    &&& forall|k: int|
                        0 <= k < ov.len() ==> has_key(s0, #[trigger] ov[k].0) && ov[k].1
                            == energy_of(s0, ov[k].0) && ov[k].1 >= threshold && has_key(
                            hv.take(m as int),
                            ov[k].0,
                        )
                    &&& forall|j: int| 0 <= j < m ==> has_key(ov, #[trigger] hv[j].0)
                }),
            decreases hot.len() - m,
        {
            let ghost ov0 = out@.map_values(|p: (Tag, u64)| (p.0@, p.1));
            let x = (hot[m].0.clone(), hot[m].1);
            let ghost xv = (hv[m as int].0, hv[m as int].1);
            proof {
                assert(x.0@ == hv[m as int].0);
                assert((xv.0, xv.1) == hv[m as int]);
                assert(forall|u: TagView|
                    has_key(hv.take(m as int), u) ==> has_key(hv.take(m + 1), u)) by {
                    assert forall|u: TagView|
                        has_key(hv.take(m as int), u) implies has_key(hv.take(m + 1), u) by {
                        let k = key_at(hv.take(m as int), u);
                        assert(hv.take(m + 1)[k].0 == u);
                    }
                }
                assert(has_key(hv.take(m + 1), hv[m as int].0)) by {
                    assert(hv.take(m + 1)[m as int].0 == hv[m as int].0);
                }
                assert(!has_key(ov0, xv.0)) by {
                    if has_key(ov0, xv.0) {
                        let k = key_at(ov0, xv.0);
                        let j = key_at(hv.take(m as int), ov0[k].0);
                        assert(hv[j].0 == hv[m as int].0);
                    }
                }
            }
            let mut p: usize = 0;
            while p < out.len() && pair_before_exec(&out[p], &x)
                invariant
                    p <= out.len(),
                    out@.map_values(|q: (Tag, u64)| (q.0@, q.1)) == ov0,
                    out@.len() == ov0.len(),
                    xv == (x.0@, x.1),
                    forall|q: int| 0 <= q < p ==> pair_before(#[trigger] ov0[q], xv),
                decreases out.len() - p,
            {
                p = p + 1;
            }
            proof {
                if p < out@.len() {
                    lemma_pair_before_total(ov0[p as int], xv);
                    assert(pair_before(xv, ov0[p as int]));
                }
                assert forall|q: int| p <= q < ov0.len() implies pair_before(
                    xv,
                    #[trigger] ov0[q],
                ) by {
                    assert(pair_before(xv, ov0[p as int]));
                    if q > p {
                        assert(pair_before(ov0[p as int], ov0[q]));
                        lemma_pair_before_transitive(xv, ov0[p as int], ov0[q]);
                    }
                }
            }
            let ghost raw0 = out@;
            out.insert(p, x);
            proof {
                let ov1 = out@.map_values(|q: (Tag, u64)| (q.0@, q.1));
                ov0.insert_ensures(p as int, xv);
                raw0.insert_ensures(p as int, x);
                assert(ov1 =~= ov0.insert(p as int, xv));
                assert(sorted_hot(ov1)) by {
                    assert forall|a: int, b: int| 0 <= a < b < ov1.len() implies pair_before(
                        ov1[a],
                        ov1[b],
                    ) by {
                        if a < p && b < p {
                            assert(ov1[a] == ov0[a]);
                            assert(ov1[b] == ov0[b]);
                        } else if a < p && b == p {
                            assert(ov1[a] == ov0[a]);
                            assert(ov1[b] == xv);
                        } else if a < p && b > p {
                            assert(ov1[a] == ov0[a]);
                            assert(ov1[b] == ov0[b - 1]);
                        } else if a == p {
                            assert(ov1[a] == xv);
                            assert(ov1[b] == ov0[b - 1]);
                        } else {
                            assert(ov1[a] == ov0[a - 1]);
                            assert(ov1[b] == ov0[b - 1]);
                        }
                    }
                }
                assert(keys_distinct(ov1)) by {
                    assert forall|a: int, b: int| 0 <= a < b < ov1.len() implies ov1[a].0
                        != ov1[b].0 by {
                        if a == p {
                            assert(ov1[b] == ov0[b - 1]);
                            if ov1[b].0 == xv.0 {
                                assert(has_key(ov0, xv.0)) by {
                                    assert(ov0[b - 1].0 == xv.0);
                                }
                            }
                        } else if b == p {
                            assert(ov1[a] == ov0[a]);
                            if ov1[a].0 == xv.0 {
                                assert(has_key(ov0, xv.0)) by {
                                    assert(ov0[a].0 == xv.0);
                                }
                            }
                        } else {
                            let a0: int = if a < p {
                                a
                            } else {
                                a - 1
                            };
                            let b0: int = if b < p {
                                b
                            } else {
                                b - 1
                            };
                            assert(ov1[a] == ov0[a0]);
                            assert(ov1[b] == ov0[b0]);
                        }
                    }
                }
                assert forall|k: int| 0 <= k < ov1.len() implies has_key(s0, #[trigger] ov1[k].0)
                    && ov1[k].1 == energy_of(s0, ov1[k].0) && ov1[k].1 >= threshold && has_key(
                    hv.take(m + 1),
                    ov1[k].0,
                ) by {
                    if k < p {
                        assert(ov1[k] == ov0[k]);
                    } else if k == p {
                        assert(ov1[k] == xv);
                    } else {
                        assert(ov1[k] == ov0[k - 1]);
                    }
                }
                assert forall|j: int| 0 <= j < m + 1 implies has_key(
                    ov1,
                    #[trigger] hv[j].0,
                ) by {
                    if j < m {
                        let k = key_at(ov0, hv[j].0);
                        if k < p {
                            assert(ov1[k].0 == hv[j].0);
                        } else {
                            assert(ov1[k + 1].0 == hv[j].0);
                        }
                    } else {
                        assert(ov1[p as int].0 == hv[j].0);
                    }
                }
            }
            m = m + 1;
        }
        proof {
            assert(hv.take(hv.len() as int) =~= hv);
        }
        out
    }

    /// An owned copy of the stored tag-energy pairs, in insertion order.
    pub fn snapshot(&self) -> (r: Vec<(Tag, u64)>)
        ensures
            r@.map_values(|p: (Tag, u64)| (p.0@, p.1)) == self@,
            r@.len() == self@.len(),
    {
        let mut r: Vec<(Tag, u64)> = Vec::new();
        let mut i: usize = 0;
        while i < self.entries.len()
            invariant
                i <= self.entries@.len(),
                self@.len() == self.entries@.len(),
                r@.len() == i,
                forall|j: int|
                    0 <= j < i ==> ((#[trigger] r@[j]).0@, r@[j].1) == self@[j],
            decreases self.entries@.len() - i,
        {
            let t = self.entries[i].0.clone();
            let e = self.entries[i].1;
            r.push((t, e));
            i = i + 1;
        }
        proof {
            assert(r@.map_values(|p: (Tag, u64)| (p.0@, p.1)) =~= self@);
        }
        r
    }

    /// Clear all activation energies.
    pub fn clear(&mut self)
        ensures
            final(self).wf(),
            final(self)@.len() == 0,
    {
        self.entries.clear();
    }
}

} // verus!
