//! The context assembler: spreading activation, fact scoring, and
//! context projection.

use vstd::prelude::*;
use crate::ids::EntityId;
use crate::tag::Tag;
use crate::tag::TagView;
use crate::fixed::UNIT;
use crate::fixed::sat_add_spec;
use crate::fixed::mul_frac;
use crate::fixed::mul_frac_spec;
use crate::activation::ActivationState;
use crate::activation::energy_of;
use crate::activation::has_key;
use crate::activation::key_at;
use crate::activation::keys_distinct;
use crate::activation::sorted_hot;
use crate::activation::pair_before;
use crate::tag::canon_chars;
use crate::tag::lemma_canon_injective;
use crate::strutil::lemma_seq_le_antisymmetric;
use crate::graph::KnowledgeGraph;
use crate::fact::Fact;
use crate::fact::FactView;
use crate::events::GameEvent;
use crate::events::event_tags;
use crate::events::event_primary;
use crate::events::event_entities;
use crate::world::WorldState;
use crate::entities::Character;
use crate::world::has_char;
use crate::world::char_at;
use crate::world::has_loc;
use crate::world::loc_at;
use crate::world::has_eloc;
use crate::world::eloc_get;
use crate::world::night_spec;
use crate::mechanics::StatusEffectType;
use crate::context::AssembledContext;
use crate::context::WorldContext;
use crate::context::CharacterContext;
use crate::strutil::hex_digit_char;
use crate::strutil::append_two_dec;
use crate::context::join_sep_upto;

verus! {

/// Configuration for the spreading-activation pass. All scalar fields
/// are fixed-point values in millionths.
#[derive(Debug, Clone, Copy, PartialEq, Eq, Structural)]
pub struct ActivationConfig {
    /// Initial energy given to trigger tags.
    pub initial_energy: u64,
    /// How much energy decays at each step, in `[0, UNIT]`.
    pub decay_rate: u64,
    /// Maximum depth of spreading.
    pub max_depth: u32,
    /// Minimum energy threshold for inclusion.
    pub energy_threshold: u64,
    /// Maximum number of facts to include in a context.
    pub max_facts: usize,
}

impl Default for ActivationConfig {
    /// Initial energy 1.0, decay 0.5, depth 2, threshold 0.1, at most 20
    /// facts.
    fn default() -> (r: Self)
        ensures
            r == (ActivationConfig {
                initial_energy: UNIT,
                decay_rate: 500_000,
                max_depth: 2,
                energy_threshold: 100_000,
                max_facts: 20,
            }),
    {
        ActivationConfig {
            initial_energy: UNIT,
            decay_rate: 500_000,
            max_depth: 2,
            energy_threshold: 100_000,
            max_facts: 20,
        }
    }
}

/// The energy the trigger initialization assigns to a tag after the
/// first `i` triggers: `initial` added once per occurrence, saturating.
pub open spec fn init_upto(tv: Seq<TagView>, initial: u64, i: int, u: TagView) -> int
    decreases i,
{
    if i <= 0 {
        0
    } else {
        let prev = init_upto(tv, initial, i - 1, u);
        if tv[i - 1] == u {
            sat_add_spec(prev, initial as int)
        } else {
            prev
        }
    }
}

/// Trigger initialization never assigns a negative energy.
pub proof fn lemma_init_nonneg(tv: Seq<TagView>, initial: u64, i: int, u: TagView)
    ensures
        init_upto(tv, initial, i, u) >= 0,
    decreases i,
{
    if i > 0 {
        lemma_init_nonneg(tv, initial, i - 1, u);
    }
}

/// A triggered tag holds at least the initial energy after trigger
/// initialization.
pub proof fn lemma_init_floor(tv: Seq<TagView>, initial: u64, i: int, u: TagView)
    requires
        0 <= i <= tv.len(),
        exists|j: int| 0 <= j < i && tv[j] == u,
    ensures
        init_upto(tv, initial, i, u) >= initial,
    decreases i,
{
    if i > 0 {
        if tv[i - 1] == u {
            lemma_init_nonneg(tv, initial, i - 1, u);
        } else {
            lemma_init_floor(tv, initial, i - 1, u);
        }
    }
}

/// The trigger tags extracted for an event: the event's own tags,
/// followed by the current location tag of its primary entity when one
/// is recorded.
pub open spec fn trigger_views(e: GameEvent, ws: WorldState) -> Seq<TagView> {
    match event_primary(e) {
        Some(p) => if has_eloc(ws.entity_locations@, p.0) {
            event_tags(e).push(TagView::Location(eloc_get(ws.entity_locations@, p.0)))
        } else {
            event_tags(e)
        },
        None => event_tags(e),
    }
}

/// The state after granting the initial energy to the first `i` trigger
/// tags, in order.
pub open spec fn init_state(tv: Seq<TagView>, initial: u64, i: int) -> Seq<(TagView, u64)>
    decreases i,
{
    if i <= 0 {
        Seq::empty()
    } else {
        crate::activation::spec_add(init_state(tv, initial, i - 1), tv[i - 1], initial)
    }
}

/// The delta accumulated from the first `j` out-edges of one source tag
/// carrying energy `e`: each target gains `e` scaled by the edge weight
/// and the decay rate.
pub open spec fn delta_inner(
    acc: Seq<(TagView, u64)>,
    b: Seq<crate::graph::AssocView>,
    e: u64,
    lam: u64,
    j: int,
) -> Seq<(TagView, u64)>
    decreases j,
{
    if j <= 0 {
        acc
    } else {
        crate::activation::spec_add(
            delta_inner(acc, b, e, lam, j - 1),
            b[j - 1].target,
            mul_frac_spec(mul_frac_spec(e as int, b[j - 1].weight as int), lam as int) as u64,
        )
    }
}

/// The delta of one spreading round, over the first `i` snapshot
/// entries: every source at or above the threshold pushes energy along
/// each of its out-edges.
pub open spec fn delta_outer(
    assoc: Seq<(TagView, Seq<crate::graph::AssocView>)>,
    snap: Seq<(TagView, u64)>,
    tau: u64,
    lam: u64,
    i: int,
) -> Seq<(TagView, u64)>
    decreases i,
{
    if i <= 0 {
        Seq::empty()
    } else {
        let prev = delta_outer(assoc, snap, tau, lam, i - 1);
        if snap[i - 1].1 >= tau {
            delta_inner(
                prev,
                crate::graph::abucket(assoc, snap[i - 1].0),
                snap[i - 1].1,
                lam,
                crate::graph::abucket(assoc, snap[i - 1].0).len() as int,
            )
        } else {
            prev
        }
    }
}

/// One spreading round of spec section 4.5: compute the delta from a
/// snapshot of the state, then merge it in additively.
pub open spec fn spread_step(
    assoc: Seq<(TagView, Seq<crate::graph::AssocView>)>,
    s: Seq<(TagView, u64)>,
    tau: u64,
    lam: u64,
) -> Seq<(TagView, u64)> {
    crate::activation::spec_merge(s, delta_outer(assoc, s, tau, lam, s.len() as int))
}

/// The activation state after `k` spreading rounds over the trigger
/// initialization.
pub open spec fn spread_state(
    assoc: Seq<(TagView, Seq<crate::graph::AssocView>)>,
    tv: Seq<TagView>,
    cfg: ActivationConfig,
    k: int,
) -> Seq<(TagView, u64)>
    decreases k,
{
    if k <= 0 {
        init_state(tv, cfg.initial_energy, tv.len() as int)
    } else {
        spread_step(
            assoc,
            spread_state(assoc, tv, cfg, k - 1),
            cfg.energy_threshold,
            cfg.decay_rate,
        )
    }
}

/// Whether `hv` is the hot-tag list of the activation map `act` at the
/// given threshold: sorted, duplicate-free, sound and complete.
pub open spec fn hot_ok(hv: Seq<(TagView, u64)>, act: Seq<(TagView, u64)>, threshold: u64) -> bool {
    &&& keys_distinct(hv)
    &&& sorted_hot(hv)
    &&& forall|k: int|
        0 <= k < hv.len() ==> has_key(act, #[trigger] hv[k].0) && hv[k].1 == energy_of(
            act,
            hv[k].0,
        ) && hv[k].1 >= threshold
    &&& forall|u: TagView|
        has_key(act, u) && energy_of(act, u) >= threshold ==> has_key(hv, u)
}

/// Whether a fact carries at least one hot tag.
pub open spec fn touched_spec(hv: Seq<(TagView, u64)>, f: FactView) -> bool {
    exists|i: int| 0 <= i < hv.len() && f.tags.contains(#[trigger] hv[i].0)
}

/// The score a fact accumulates from the first `i` hot tags: for each
/// hot tag the fact carries, its energy scaled by the fact's importance,
/// summed with saturation.
pub open spec fn score_upto(hv: Seq<(TagView, u64)>, f: FactView, i: int) -> int
    decreases i,
{
    if i <= 0 {
        0
    } else {
        let prev = score_upto(hv, f, i - 1);
        if f.tags.contains(hv[i - 1].0) {
            sat_add_spec(prev, mul_frac_spec(hv[i - 1].1 as int, f.importance as int))
        } else {
            prev
        }
    }
}

/// The total score of a fact over a hot-tag list.
pub open spec fn fact_score(hv: Seq<(TagView, u64)>, f: FactView) -> int {
    score_upto(hv, f, hv.len() as int)
}

/// The selection order: higher score first; equal scores ordered by fact
/// id ascending.
pub open spec fn sel_before(a: (int, u128), b: (int, u128)) -> bool {
    a.0 > b.0 || (a.0 == b.0 && a.1 < b.1)
}

/// Whether the id `x` occurs in a selection.
pub open spec fn sel_has(out: Seq<FactView>, x: u128) -> bool {
    exists|k: int| 0 <= k < out.len() && out[k].id == x
}

/// Whether `out` is the ranked fact selection for the hot-tag list `hv`:
/// at most `maxf` facts, each a stored fact carrying a hot tag, strictly
/// ordered by descending score with ties broken by id, and containing
/// every touched fact unless full of higher-ranked ones.
pub open spec fn selection_ok(
    facts: Seq<FactView>,
    hv: Seq<(TagView, u64)>,
    maxf: int,
    out: Seq<FactView>,
) -> bool {
    &&& out.len() <= maxf
    &&& forall|k: int| 0 <= k < out.len() ==> facts.contains(#[trigger] out[k])
    &&& forall|k: int| 0 <= k < out.len() ==> touched_spec(hv, #[trigger] out[k])
    &&& forall|a: int, b: int|
        0 <= a < b < out.len() ==> sel_before(
            (fact_score(hv, out[a]), out[a].id),
            (fact_score(hv, out[b]), out[b].id),
        )
    &&& forall|a: int, b: int| 0 <= a < b < out.len() ==> out[a].id != out[b].id
    &&& forall|i: int|
        0 <= i < facts.len() && touched_spec(hv, #[trigger] facts[i]) && !sel_has(
            out,
            facts[i].id,
        ) ==> out.len() == maxf && (forall|k: int|
            0 <= k < out.len() ==> sel_before(
                (fact_score(hv, out[k]), out[k].id),
                (fact_score(hv, facts[i]), facts[i].id),
            ))
}

/// The selection order is total on pairs with distinct ids.
pub proof fn lemma_sel_before_total(a: (int, u128), b: (int, u128))
    requires
        a.1 != b.1,
    ensures
        sel_before(a, b) || sel_before(b, a),
{
}

/// Compare two score-id keys in the selection order.
fn sel_before_exec(a0: u64, a1: u128, b0: u64, b1: u128) -> (r: bool)
    ensures
        r == sel_before((a0 as int, a1), (b0 as int, b1)),
{
    a0 > b0 || (a0 == b0 && a1 < b1)
}

/// The selection order is transitive.
pub proof fn lemma_sel_before_transitive(a: (int, u128), b: (int, u128), c: (int, u128))
    requires
        sel_before(a, b),
        sel_before(b, c),
    ensures
        sel_before(a, c),
{
}

/// Insertion keeps every element traceable to the first `m + 1`
/// candidates.
#[verifier::spinoff_prover]
proof fn lemma_ins_membership(
    cv: Seq<(u64, u128, &Fact)>,
    ov0: Seq<(u64, u128, &Fact)>,
    ov1: Seq<(u64, u128, &Fact)>,
    x: (u64, u128, &Fact),
    p: int,
    m: int,
)
    requires
        0 <= m < cv.len(),
        x == cv[m],
        0 <= p <= ov0.len(),
        ov1 == ov0.insert(p, x),
        forall|k: int|
            0 <= k < ov0.len() ==> exists|q: int| 0 <= q < m && #[trigger] ov0[k] == cv[q],
    ensures
        ov1.len() == ov0.len() + 1,
        forall|k: int|
            0 <= k < ov1.len() ==> exists|q: int| 0 <= q < m + 1 && #[trigger] ov1[k] == cv[q],
{
    ov0.insert_ensures(p, x);
    assert forall|k: int| 0 <= k < ov1.len() implies exists|q: int|
        0 <= q < m + 1 && #[trigger] ov1[k] == cv[q] by {
        if k < p {
            assert(ov1[k] == ov0[k]);
            let q = choose|q: int| 0 <= q < m && ov0[k] == cv[q];
            assert(ov1[k] == cv[q]);
        } else if k == p {
            assert(ov1[k] == cv[m]);
        } else {
            assert(ov1[k] == ov0[k - 1]);
            let q = choose|q: int| 0 <= q < m && ov0[k - 1] == cv[q];
            assert(ov1[k] == cv[q]);
        }
    }
}

/// Insertion at the ordered position keeps the arrangement strictly
/// sorted with distinct ids.
#[verifier::spinoff_prover]
proof fn lemma_ins_sorted(
    ov0: Seq<(u64, u128, &Fact)>,
    ov1: Seq<(u64, u128, &Fact)>,
    x: (u64, u128, &Fact),
    p: int,
)
    requires
        0 <= p <= ov0.len(),
        ov1 == ov0.insert(p, x),
        forall|q: int|
            0 <= q < p ==> sel_before(((#[trigger] ov0[q]).0 as int, ov0[q].1), (
            x.0 as int,
            x.1,
            )),
        forall|q: int|
            p <= q < ov0.len() ==> sel_before((x.0 as int, x.1), (
            (#[trigger] ov0[q]).0 as int,
            ov0[q].1,
            )),
        forall|a: int, b: int|
            0 <= a < b < ov0.len() ==> sel_before(
                ((#[trigger] ov0[a]).0 as int, ov0[a].1),
                ((#[trigger] ov0[b]).0 as int, ov0[b].1),
            ),
        forall|a: int, b: int| 0 <= a < b < ov0.len() ==> ov0[a].1 != ov0[b].1,
        forall|q: int| 0 <= q < ov0.len() ==> (#[trigger] ov0[q]).1 != x.1,
    ensures
        forall|a: int, b: int|
            0 <= a < b < ov1.len() ==> sel_before(
                ((#[trigger] ov1[a]).0 as int, ov1[a].1),
                ((#[trigger] ov1[b]).0 as int, ov1[b].1),
            ),
        forall|a: int, b: int| 0 <= a < b < ov1.len() ==> ov1[a].1 != ov1[b].1,
{
    ov0.insert_ensures(p, x);
    assert forall|a: int, b: int| 0 <= a < b < ov1.len() implies sel_before(
        ((#[trigger] ov1[a]).0 as int, ov1[a].1),
        ((#[trigger] ov1[b]).0 as int, ov1[b].1),
    ) && ov1[a].1 != ov1[b].1 by {
        let av: (u64, u128, &Fact) = if a < p {
            ov0[a]
        } else if a == p {
            x
        } else {
            ov0[a - 1]
        };
        let bv: (u64, u128, &Fact) = if b < p {
            ov0[b]
        } else if b == p {
            x
        } else {
            ov0[b - 1]
        };
        assert(ov1[a] == av);
        assert(ov1[b] == bv);
        assert(sel_before((av.0 as int, av.1), (bv.0 as int, bv.1)));
        assert(av.1 != bv.1);
    }
}

/// When the scan stopped at `p`, the new key orders before every
/// element from `p` onward.
#[verifier::spinoff_prover]
proof fn lemma_position_bounds(
    ov0: Seq<(u64, u128, &Fact)>,
    x: (u64, u128, &Fact),
    p: int,
)
    requires
        0 <= p <= ov0.len(),
        p < ov0.len() ==> !sel_before(((ov0[p]).0 as int, ov0[p].1), (x.0 as int, x.1)),
        forall|a: int, b: int|
            0 <= a < b < ov0.len() ==> sel_before(
                ((#[trigger] ov0[a]).0 as int, ov0[a].1),
                ((#[trigger] ov0[b]).0 as int, ov0[b].1),
            ),
        forall|q: int| 0 <= q < ov0.len() ==> (#[trigger] ov0[q]).1 != x.1,
    ensures
        forall|q: int|
            p <= q < ov0.len() ==> sel_before((x.0 as int, x.1), (
            (#[trigger] ov0[q]).0 as int,
            ov0[q].1,
            )),
{
    if p < ov0.len() {
        lemma_sel_before_total((ov0[p].0 as int, ov0[p].1), (x.0 as int, x.1));
        assert forall|q: int| p <= q < ov0.len() implies sel_before((x.0 as int, x.1), (
        (#[trigger] ov0[q]).0 as int,
        ov0[q].1,
        )) by {
            assert(sel_before((x.0 as int, x.1), (ov0[p].0 as int, ov0[p].1)));
            if q > p {
                assert(sel_before((ov0[p].0 as int, ov0[p].1), (ov0[q].0 as int, ov0[q].1)));
                lemma_sel_before_transitive(
                    (x.0 as int, x.1),
                    (ov0[p].0 as int, ov0[p].1),
                    (ov0[q].0 as int, ov0[q].1),
                );
            }
        }
    }
}

/// Insertion keeps every earlier candidate present, and adds the new
/// one.
#[verifier::spinoff_prover]
proof fn lemma_ins_complete(
    cv: Seq<(u64, u128, &Fact)>,
    ov0: Seq<(u64, u128, &Fact)>,
    ov1: Seq<(u64, u128, &Fact)>,
    x: (u64, u128, &Fact),
    p: int,
    m: int,
)
    requires
        0 <= m < cv.len(),
        x == cv[m],
        0 <= p <= ov0.len(),
        ov1 == ov0.insert(p, x),
        forall|q: int|
            #![trigger cv[q]]
            0 <= q < m ==> (exists|k: int| 0 <= k < ov0.len() && ov0[k] == cv[q]),
    ensures
        forall|q: int|
            #![trigger cv[q]]
            0 <= q < m + 1 ==> (exists|k: int| 0 <= k < ov1.len() && ov1[k] == cv[q]),
{
    ov0.insert_ensures(p, x);
    assert forall|q: int| #![trigger cv[q]] 0 <= q < m + 1 implies (exists|k: int|
        0 <= k < ov1.len() && ov1[k] == cv[q]) by {
        if q < m {
            let k = choose|k: int| 0 <= k < ov0.len() && ov0[k] == cv[q];
            if k < p {
                assert(ov1[k] == cv[q]);
            } else {
                assert(ov1[k + 1] == cv[q]);
            }
        } else {
            assert(ov1[p] == cv[q]);
        }
    }
}

/// Sort score-id-fact triples into the selection order by insertion,
/// assuming the ids are distinct.
#[verifier::rlimit(100)]
#[verifier::spinoff_prover]
fn sort_candidates<'a>(cand: Vec<(u64, u128, &'a Fact)>) -> (r: Vec<(u64, u128, &'a Fact)>)
    requires
        forall|a: int, b: int| 0 <= a < b < cand@.len() ==> cand@[a].1 != cand@[b].1,
    ensures
        r@.len() == cand@.len(),
        forall|a: int, b: int|
            0 <= a < b < r@.len() ==> sel_before(
                ((#[trigger] r@[a]).0 as int, r@[a].1),
                ((#[trigger] r@[b]).0 as int, r@[b].1),
            ),
        forall|a: int, b: int| 0 <= a < b < r@.len() ==> r@[a].1 != r@[b].1,
        forall|k: int| 0 <= k < r@.len() ==> cand@.contains(#[trigger] r@[k]),
        forall|q: int| 0 <= q < cand@.len() ==> r@.contains(#[trigger] cand@[q]),
{
    let ghost cv = cand@;
    let mut ordered: Vec<(u64, u128, &'a Fact)> = Vec::new();
    let mut m: usize = 0;
    while m < cand.len()
        invariant
            m <= cand@.len(),
            cand@ == cv,
            forall|a: int, b: int| 0 <= a < b < cv.len() ==> cv[a].1 != cv[b].1,
            ordered@.len() == m,
            forall|k: int|
                0 <= k < ordered@.len() ==> exists|q: int|
                    0 <= q < m && #[trigger] ordered@[k] == cv[q],
            forall|a: int, b: int|
                0 <= a < b < ordered@.len() ==> sel_before(
                    ((#[trigger] ordered@[a]).0 as int, ordered@[a].1),
                    ((#[trigger] ordered@[b]).0 as int, ordered@[b].1),
                ),
            forall|a: int, b: int|
                0 <= a < b < ordered@.len() ==> ordered@[a].1 != ordered@[b].1,
            forall|q: int|
                #![trigger cv[q]]
                0 <= q < m ==> (exists|k: int|
                    0 <= k < ordered@.len() && ordered@[k] == cv[q]),
        decreases cand@.len() - m,
    {
        let ghost ov0 = ordered@;
        let x = (cand[m].0, cand[m].1, cand[m].2);
        proof {
            assert(x == cv[m as int]);
            assert(!(exists|k: int| 0 <= k < ov0.len() && (#[trigger] ov0[k]).1 == x.1)) by {
                if exists|k: int| 0 <= k < ov0.len() && (#[trigger] ov0[k]).1 == x.1 {
                    let k = choose|k: int| 0 <= k < ov0.len() && (#[trigger] ov0[k]).1 == x.1;
                    let q = choose|q: int| 0 <= q < m && ov0[k] == cv[q];
                    assert(cv[q].1 == cv[m as int].1);
                }
            }
        }
        let mut p: usize = 0;
        while p < ordered.len() && sel_before_exec(ordered[p].0, ordered[p].1, x.0, x.1)
            invariant
                p <= ordered@.len(),
                ordered@ == ov0,
                m < cv.len(),
                x == cv[m as int],
                forall|q: int|
                    0 <= q < p ==> sel_before(
                        ((#[trigger] ov0[q]).0 as int, ov0[q].1),
                        (x.0 as int, x.1),
                    ),
            decreases ordered@.len() - p,
        {
            p = p + 1;
        }
        proof {
            assert forall|q: int| 0 <= q < ov0.len() implies (#[trigger] ov0[q]).1 != x.1 by {
                let qc = choose|qc: int| 0 <= qc < m && ov0[q] == cv[qc];
                assert(cv[qc].1 != cv[m as int].1);
            }
            lemma_position_bounds(ov0, x, p as int);
        }
        let ghost raw0 = ordered@;
        ordered.insert(p, x);
        proof {
            raw0.insert_ensures(p as int, x);
            assert forall|q: int| 0 <= q < ov0.len() implies (#[trigger] ov0[q]).1 != x.1 by {
                let qc = choose|qc: int| 0 <= qc < m && ov0[q] == cv[qc];
                assert(cv[qc].1 != cv[m as int].1);
            }
            lemma_ins_membership(cv, ov0, ordered@, x, p as int, m as int);
            lemma_ins_sorted(ov0, ordered@, x, p as int);
            lemma_ins_complete(cv, ov0, ordered@, x, p as int, m as int);
        }
        m = m + 1;
    }
    proof {
        assert forall|k: int| 0 <= k < ordered@.len() implies cv.contains(
            #[trigger] ordered@[k],
        ) by {
            let q = choose|q: int| 0 <= q < m && ordered@[k] == cv[q];
            assert(cv[q] == ordered@[k]);
        }
        assert forall|q: int| 0 <= q < cv.len() implies ordered@.contains(
            #[trigger] cv[q],
        ) by {
            let k = choose|k: int| 0 <= k < ordered@.len() && ordered@[k] == cv[q];
            assert(ordered@[k] == cv[q]);
        }
    }
    ordered
}

/// The selection order never holds in both directions.
pub proof fn lemma_sel_before_asymmetric(a: (int, u128), b: (int, u128))
    requires
        sel_before(a, b),
    ensures
        !sel_before(b, a),
{
}

/// Two stored facts with the same id are the same fact.
pub proof fn lemma_stored_id_unique(facts: Seq<FactView>, x: FactView, y: FactView)
    requires
        crate::graph::fids_distinct(facts),
        facts.contains(x),
        facts.contains(y),
        x.id == y.id,
    ensures
        x == y,
{
    let ix = choose|ix: int| 0 <= ix < facts.len() && facts[ix] == x;
    let iy = choose|iy: int| 0 <= iy < facts.len() && facts[iy] == y;
    if ix < iy {
        assert(false);
    } else if iy < ix {
        assert(false);
    }
}

/// When a ranked selection omits a stored touched fact, every selected
/// fact orders strictly before it.
proof fn lemma_sel_excluded(
    facts: Seq<FactView>,
    hv: Seq<(TagView, u64)>,
    maxf: int,
    o: Seq<FactView>,
    x: FactView,
)
    requires
        selection_ok(facts, hv, maxf, o),
        facts.contains(x),
        touched_spec(hv, x),
        !sel_has(o, x.id),
    ensures
        o.len() == maxf,
        forall|k: int|
            0 <= k < o.len() ==> sel_before(
                (fact_score(hv, #[trigger] o[k]), o[k].id),
                (fact_score(hv, x), x.id),
            ),
{
    let i = choose|i: int| 0 <= i < facts.len() && facts[i] == x;
    assert(touched_spec(hv, facts[i]));
    assert(!sel_has(o, facts[i].id));
}

/// The first `p` entries of two ranked selections for the same inputs
/// agree.
proof fn lemma_selection_unique_upto(
    facts: Seq<FactView>,
    hv: Seq<(TagView, u64)>,
    maxf: int,
    o1: Seq<FactView>,
    o2: Seq<FactView>,
    p: int,
)
    requires
        crate::graph::fids_distinct(facts),
        selection_ok(facts, hv, maxf, o1),
        selection_ok(facts, hv, maxf, o2),
        0 <= p <= o1.len(),
        p <= o2.len(),
    ensures
        forall|j: int| 0 <= j < p ==> o1[j] == o2[j],
    decreases p,
{
    if p > 0 {
        lemma_selection_unique_upto(facts, hv, maxf, o1, o2, p - 1);
        let x = o1[p - 1];
        let y = o2[p - 1];
        let kx = (fact_score(hv, x), x.id);
        let ky = (fact_score(hv, y), y.id);
        assert(facts.contains(x));
        assert(facts.contains(y));
        if x.id != y.id {
            // the other list ranks y's key strictly before x's
            assert(sel_before(ky, kx)) by {
                if sel_has(o2, x.id) {
                    let k2 = choose|k2: int| 0 <= k2 < o2.len() && o2[k2].id == x.id;
                    lemma_stored_id_unique(facts, o2[k2], x);
                    if k2 < p - 1 {
                        assert(o1[k2] == o2[k2]);
                        assert(o1[k2].id == o1[p - 1].id);
                        assert(false);
                    } else if k2 == p - 1 {
                        assert(false);
                    } else {
                        assert(sel_before(
                            (fact_score(hv, o2[p - 1]), o2[p - 1].id),
                            (fact_score(hv, o2[k2]), o2[k2].id),
                        ));
                    }
                } else {
                    lemma_sel_excluded(facts, hv, maxf, o2, x);
                    assert(sel_before((fact_score(hv, o2[p - 1]), o2[p - 1].id), kx));
                }
            }
            // and symmetrically x's key strictly before y's
            assert(sel_before(kx, ky)) by {
                if sel_has(o1, y.id) {
                    let k1 = choose|k1: int| 0 <= k1 < o1.len() && o1[k1].id == y.id;
                    lemma_stored_id_unique(facts, o1[k1], y);
                    if k1 < p - 1 {
                        assert(o2[k1] == o1[k1]);
                        assert(o2[k1].id == o2[p - 1].id);
                        assert(false);
                    } else if k1 == p - 1 {
                        assert(false);
                    } else {
                        assert(sel_before(
                            (fact_score(hv, o1[p - 1]), o1[p - 1].id),
                            (fact_score(hv, o1[k1]), o1[k1].id),
                        ));
                    }
                } else {
                    lemma_sel_excluded(facts, hv, maxf, o1, y);
                    assert(sel_before((fact_score(hv, o1[p - 1]), o1[p - 1].id), ky));
                }
            }
            lemma_sel_before_asymmetric(kx, ky);
            assert(false);
        }
        lemma_stored_id_unique(facts, x, y);
    }
}

/// Ranked fact selection is deterministic: for one fact store, one
/// hot-tag list and one cut-off, only one ordered list satisfies the
/// selection contract. Two runs over identical inputs therefore return
/// the same ordered list.
pub proof fn lemma_selection_unique(
    facts: Seq<FactView>,
    hv: Seq<(TagView, u64)>,
    maxf: int,
    o1: Seq<FactView>,
    o2: Seq<FactView>,
)
    requires
        crate::graph::fids_distinct(facts),
        selection_ok(facts, hv, maxf, o1),
        selection_ok(facts, hv, maxf, o2),
    ensures
        o1 == o2,
{
    let n1 = o1.len() as int;
    let n2 = o2.len() as int;
    if n1 <= n2 {
        lemma_selection_unique_upto(facts, hv, maxf, o1, o2, n1);
        if n1 < n2 {
            let z = o2[n1];
            assert(facts.contains(z));
            assert(!sel_has(o1, z.id)) by {
                if sel_has(o1, z.id) {
                    let k = choose|k: int| 0 <= k < o1.len() && o1[k].id == z.id;
                    assert(o1[k] == o2[k]);
                    assert(o2[k].id == o2[n1].id);
                    assert(false);
                }
            }
            lemma_sel_excluded(facts, hv, maxf, o1, z);
            assert(o1.len() == maxf);
            assert(o2.len() <= maxf);
            assert(false);
        }
        assert(o1 =~= o2);
    } else {
        lemma_selection_unique_upto(facts, hv, maxf, o2, o1, n2);
        let z = o1[n2];
        assert(facts.contains(z));
        assert(!sel_has(o2, z.id)) by {
            if sel_has(o2, z.id) {
                let k = choose|k: int| 0 <= k < o2.len() && o2[k].id == z.id;
                assert(o2[k] == o1[k]);
                assert(o1[k].id == o1[n2].id);
                assert(false);
            }
        }
        lemma_sel_excluded(facts, hv, maxf, o2, z);
        assert(o2.len() == maxf);
        assert(o1.len() <= maxf);
        assert(false);
    }
}

/// The hot-tag order is strict on distinct keys: mutual ordering forces
/// the same key and energy.
proof fn lemma_pair_before_strict(x: (TagView, u64), y: (TagView, u64))
    requires
        pair_before(x, y),
        pair_before(y, x),
    ensures
        x == y,
{
    assert(x.1 == y.1);
    lemma_seq_le_antisymmetric(canon_chars(x.0), canon_chars(y.0));
    lemma_canon_injective(x.0, y.0);
}

/// An entry of a hot list reappears, with the same energy, in any other
/// hot list of the same activation.
proof fn lemma_hot_entry_shared(
    act: Seq<(TagView, u64)>,
    threshold: u64,
    h1: Seq<(TagView, u64)>,
    h2: Seq<(TagView, u64)>,
    k: int,
)
    requires
        hot_ok(h1, act, threshold),
        hot_ok(h2, act, threshold),
        0 <= k < h1.len(),
    ensures
        exists|k2: int| 0 <= k2 < h2.len() && #[trigger] h2[k2] == h1[k],
{
    let x = h1[k];
    assert(has_key(act, x.0) && x.1 == energy_of(act, x.0) && x.1 >= threshold);
    assert(has_key(h2, x.0));
    let k2 = key_at(h2, x.0);
    assert(0 <= k2 < h2.len() && h2[k2].0 == x.0);
    assert(h2[k2].1 == energy_of(act, x.0));
    assert(h2[k2] == x);
}

/// The first `p` entries of two hot lists for the same activation and
/// threshold agree.
proof fn lemma_hot_unique_upto(
    act: Seq<(TagView, u64)>,
    threshold: u64,
    h1: Seq<(TagView, u64)>,
    h2: Seq<(TagView, u64)>,
    p: int,
)
    requires
        hot_ok(h1, act, threshold),
        hot_ok(h2, act, threshold),
        0 <= p <= h1.len(),
        p <= h2.len(),
    ensures
        forall|j: int| 0 <= j < p ==> h1[j] == h2[j],
    decreases p,
{
    if p > 0 {
        lemma_hot_unique_upto(act, threshold, h1, h2, p - 1);
        let x = h1[p - 1];
        let y = h2[p - 1];
        if x != y {
            lemma_hot_entry_shared(act, threshold, h1, h2, p - 1);
            let k2 = choose|k2: int| 0 <= k2 < h2.len() && #[trigger] h2[k2] == x;
            assert(pair_before(y, x)) by {
                if k2 < p - 1 {
                    assert(h1[k2] == h2[k2]);
                    assert(h1[k2].0 == h1[p - 1].0);
                    assert(false);
                } else if k2 == p - 1 {
                    assert(false);
                } else {
                    assert(pair_before(h2[p - 1], h2[k2]));
                }
            }
            lemma_hot_entry_shared(act, threshold, h2, h1, p - 1);
            let k1 = choose|k1: int| 0 <= k1 < h1.len() && #[trigger] h1[k1] == y;
            assert(pair_before(x, y)) by {
                if k1 < p - 1 {
                    assert(h2[k1] == h1[k1]);
                    assert(h2[k1].0 == h2[p - 1].0);
                    assert(false);
                } else if k1 == p - 1 {
                    assert(false);
                } else {
                    assert(pair_before(h1[p - 1], h1[k1]));
                }
            }
            lemma_pair_before_strict(x, y);
        }
    }
}

/// The hot-tag list of an activation state is unique: one activation and
/// one threshold admit exactly one sorted, duplicate-free, sound and
/// complete listing.
pub proof fn lemma_hot_unique(
    act: Seq<(TagView, u64)>,
    threshold: u64,
    h1: Seq<(TagView, u64)>,
    h2: Seq<(TagView, u64)>,
)
    requires
        hot_ok(h1, act, threshold),
        hot_ok(h2, act, threshold),
    ensures
        h1 == h2,
{
    let n1 = h1.len() as int;
    let n2 = h2.len() as int;
    if n1 <= n2 {
        lemma_hot_unique_upto(act, threshold, h1, h2, n1);
        if n1 < n2 {
            lemma_hot_entry_shared(act, threshold, h2, h1, n1);
            let k = choose|k: int| 0 <= k < h1.len() && #[trigger] h1[k] == h2[n1];
            assert(h2[k] == h1[k]);
            assert(h2[k].0 == h2[n1].0);
            assert(false);
        }
        assert(h1 =~= h2);
    } else {
        lemma_hot_unique_upto(act, threshold, h2, h1, n2);
        lemma_hot_entry_shared(act, threshold, h1, h2, n2);
        let k = choose|k: int| 0 <= k < h2.len() && #[trigger] h2[k] == h1[n2];
        assert(h1[k] == h2[k]);
        assert(h1[k].0 == h1[n2].0);
        assert(false);
    }
}

/// Ranked retrieval is deterministic: for one fact store, one activation
/// state and one configuration, any two outcomes admissible under the
/// fact-collection contract are the same ordered list.
pub proof fn lemma_collect_deterministic(
    facts: Seq<FactView>,
    act: Seq<(TagView, u64)>,
    threshold: u64,
    maxf: int,
    hv1: Seq<(TagView, u64)>,
    o1: Seq<FactView>,
    hv2: Seq<(TagView, u64)>,
    o2: Seq<FactView>,
)
    requires
        crate::graph::fids_distinct(facts),
        hot_ok(hv1, act, threshold),
        selection_ok(facts, hv1, maxf, o1),
        hot_ok(hv2, act, threshold),
        selection_ok(facts, hv2, maxf, o2),
    ensures
        o1 == o2,
{
    lemma_hot_unique(act, threshold, hv1, hv2);
    lemma_selection_unique(facts, hv1, maxf, o1, o2);
}

/// The context assembler builds context bundles from knowledge and
/// state.
#[derive(Debug, Clone, Copy)]
pub struct ContextAssembler {
    pub config: ActivationConfig,
}

impl ContextAssembler {
    /// Create a new context assembler with the given configuration.
    pub fn new(config: ActivationConfig) -> (r: Self)
        ensures
            r.config == config,
    {
        ContextAssembler { config }
    }

    /// Create a context assembler with the default configuration.
    pub fn with_defaults() -> (r: Self)
        ensures
            r.config == (ActivationConfig {
                initial_energy: UNIT,
                decay_rate: 500_000,
                max_depth: 2,
                energy_threshold: 100_000,
                max_facts: 20,
            }),
    {
        ContextAssembler { config: ActivationConfig::default() }
    }

    /// Run the spreading-activation pass of spec section 4.5: trigger
    /// tags receive the initial energy (duplicates accumulate), and for
    /// `max_depth` rounds every tag at or above the threshold pushes
    /// energy along its out-edges, scaled by the edge weight and the
    /// decay rate. Each round works on a snapshot of the round's
    /// starting state, so energy contributed by newly activated tags
    /// participates only from the next round onward; no normalization is
    /// applied. The result is exactly the iterated step function
    /// `spread_state`; in addition, every trigger tag ends with at least
    /// the initial energy.
    pub fn spread_activation(&self, graph: &KnowledgeGraph, trigger_tags: Vec<Tag>) -> (r:
        ActivationState)
        requires
            graph.wf(),
        ensures
            r.wf(),
            r@ == spread_state(
                graph@.associations,
                trigger_tags@.map_values(|t: Tag| t@),
                self.config,
                self.config.max_depth as int,
            ),
            forall|u: TagView|
                trigger_tags@.map_values(|t: Tag| t@).contains(u) ==> energy_of(r@, u)
                    >= self.config.initial_energy,
    {
        let ghost tv = trigger_tags@.map_values(|t: Tag| t@);
        let ghost assocv = graph@.associations;
        let mut state = ActivationState::new();
        let mut i: usize = 0;
        proof {
            assert(state@ =~= init_state(tv, self.config.initial_energy, 0));
        }
        while i < trigger_tags.len()
            invariant
                i <= trigger_tags@.len(),
                trigger_tags@.map_values(|t: Tag| t@) == tv,
                tv.len() == trigger_tags@.len(),
                state.wf(),
                state@ == init_state(tv, self.config.initial_energy, i as int),
                forall|u: TagView|
                    energy_of(state@, u) == init_upto(
                        tv,
                        self.config.initial_energy,
                        i as int,
                        u,
                    ),
            decreases trigger_tags@.len() - i,
        {
            let t = trigger_tags[i].clone();
            proof {
                assert(t@ == tv[i as int]);
            }
            let ghost pre = state@;
            state.add_energy(t, self.config.initial_energy);
            proof {
                assert(state@ == crate::activation::spec_add(
                    pre,
                    tv[i as int],
                    self.config.initial_energy,
                ));
                assert(state@ == init_state(tv, self.config.initial_energy, i + 1));
                assert forall|u: TagView| energy_of(state@, u) == init_upto(
                    tv,
                    self.config.initial_energy,
                    i + 1,
                    u,
                ) by {
                    if u == tv[i as int] {
                        assert(energy_of(state@, u) == sat_add_spec(
                            energy_of(pre, u),
                            self.config.initial_energy as int,
                        ));
                    } else {
                        assert(energy_of(state@, u) == energy_of(pre, u));
                    }
                }
            }
            i = i + 1;
        }
        proof {
            assert forall|u: TagView| tv.contains(u) implies energy_of(state@, u)
                >= self.config.initial_energy by {
                lemma_init_floor(tv, self.config.initial_energy, tv.len() as int, u);
            }
        }
        let mut depth: u32 = 0;
        while depth < self.config.max_depth
            invariant
                graph.wf(),
                state.wf(),
                assocv == graph@.associations,
                tv.len() == trigger_tags@.len(),
                depth <= self.config.max_depth,
                state@ == spread_state(assocv, tv, self.config, depth as int),
                forall|u: TagView|
                    tv.contains(u) ==> energy_of(state@, u) >= self.config.initial_energy,
            decreases self.config.max_depth - depth,
        {
            let snap = state.snapshot();
            let ghost sv = state@;
            let mut delta = ActivationState::new();
            let mut k: usize = 0;
            proof {
                assert(delta@ =~= delta_outer(
                    assocv,
                    sv,
                    self.config.energy_threshold,
                    self.config.decay_rate,
                    0,
                ));
            }
            while k < snap.len()
                invariant
                    graph.wf(),
                    delta.wf(),
                    assocv == graph@.associations,
                    k <= snap@.len(),
                    snap@.map_values(|p: (Tag, u64)| (p.0@, p.1)) == sv,
                    sv.len() == snap@.len(),
                    delta@ == delta_outer(
                        assocv,
                        sv,
                        self.config.energy_threshold,
                        self.config.decay_rate,
                        k as int,
                    ),
                decreases snap@.len() - k,
            {
                let ghost dpre = delta@;
                proof {
                    assert(sv[k as int] == (snap@[k as int].0@, snap@[k as int].1));
                }
                if snap[k].1 >= self.config.energy_threshold {
                    let edges = graph.get_associations(&snap[k].0);
                    let ghost bucketv = crate::graph::abucket(assocv, sv[k as int].0);
                    proof {
                        assert(edges@.len() == bucketv.len());
                        assert(forall|q: int|
                            0 <= q < edges@.len() ==> (#[trigger] edges@[q])@ == bucketv[q]);
                    }
                    let mut j: usize = 0;
                    while j < edges.len()
                        invariant
                            delta.wf(),
                            j <= edges@.len(),
                            k < snap@.len(),
                            sv.len() == snap@.len(),
                            sv[k as int] == (snap@[k as int].0@, snap@[k as int].1),
                            bucketv == crate::graph::abucket(assocv, sv[k as int].0),
                            edges@.len() == bucketv.len(),
                            forall|q: int|
                                0 <= q < edges@.len() ==> (#[trigger] edges@[q])@ == bucketv[q],
                            delta@ == delta_inner(
                                dpre,
                                bucketv,
                                sv[k as int].1,
                                self.config.decay_rate,
                                j as int,
                            ),
                        decreases edges@.len() - j,
                    {
                        let ghost dstep = delta@;
                        let spread = mul_frac(
                            mul_frac(snap[k].1, edges[j].weight),
                            self.config.decay_rate,
                        );
                        let target = edges[j].target.clone();
                        proof {
                            assert(target@ == bucketv[j as int].target);
                            assert(edges@[j as int]@.weight == bucketv[j as int].weight);
                        }
                        delta.add_energy(target, spread);
                        proof {
                            assert(delta@ == crate::activation::spec_add(
                                dstep,
                                bucketv[j as int].target,
                                mul_frac_spec(
                                    mul_frac_spec(
                                        sv[k as int].1 as int,
                                        bucketv[j as int].weight as int,
                                    ),
                                    self.config.decay_rate as int,
                                ) as u64,
                            ));
                            assert(delta@ == delta_inner(
                                dpre,
                                bucketv,
                                sv[k as int].1,
                                self.config.decay_rate,
                                j + 1,
                            ));
                        }
                        j = j + 1;
                    }
                    proof {
                        assert(delta@ == delta_outer(
                            assocv,
                            sv,
                            self.config.energy_threshold,
                            self.config.decay_rate,
                            k + 1,
                        ));
                    }
                } else {
                    proof {
                        assert(!(sv[k as int].1 >= self.config.energy_threshold));
                        assert(delta@ == delta_outer(
                            assocv,
                            sv,
                            self.config.energy_threshold,
                            self.config.decay_rate,
                            k + 1,
                        ));
                    }
                }
                k = k + 1;
            }
            let ghost pre = state@;
            state.merge(&delta);
            proof {
                assert(delta@ == delta_outer(
                    assocv,
                    sv,
                    self.config.energy_threshold,
                    self.config.decay_rate,
                    sv.len() as int,
                ));
                assert(state@ == crate::activation::spec_merge(pre, delta@));
                assert(state@ == spread_step(
                    assocv,
                    pre,
                    self.config.energy_threshold,
                    self.config.decay_rate,
                ));
                assert(state@ == spread_state(assocv, tv, self.config, depth + 1));
                assert forall|u: TagView| tv.contains(u) implies energy_of(state@, u)
                    >= self.config.initial_energy by {
                    assert(energy_of(state@, u) == sat_add_spec(
                        energy_of(pre, u),
                        energy_of(delta@, u),
                    ));
                }
            }
            depth = depth + 1;
        }
        state
    }

    /// Collect the relevant facts for an activation state:    /// Collect the relevant facts for an activation state: every stored
    /// fact carrying a hot tag is scored by the saturating sum, over the
    /// hot tags it carries, of the tag's energy scaled by the fact's
    /// importance; the facts come back sorted by score descending with
    /// ties broken by id, cut off at `max_facts`.
    pub fn collect_facts<'a>(
        &self,
        graph: &'a KnowledgeGraph,
        activation: &ActivationState,
    ) -> (r: Vec<&'a Fact>)
        requires
            graph.wf(),
            activation.wf(),
        ensures
            exists|hv: Seq<(TagView, u64)>|
                #[trigger] hot_ok(hv, activation@, self.config.energy_threshold)
                    && selection_ok(
                    graph@.facts,
                    hv,
                    self.config.max_facts as int,
                    r@.map_values(|f: &Fact| f@),
                ),
    {
        let hot = activation.hot_tags(self.config.energy_threshold);
        let ghost hv = hot@.map_values(|p: (Tag, u64)| (p.0@, p.1));
        proof {
            assert(hot_ok(hv, activation@, self.config.energy_threshold));
        }
        let all = graph.all_facts();
        let ghost fv = graph@.facts;
        proof {
            assert forall|a: int, b: int| 0 <= a < b < all@.len() implies (#[trigger] all@[a])@.id
                != (#[trigger] all@[b])@.id by {
                assert(all@[a]@ == fv[a]);
                assert(all@[b]@ == fv[b]);
            }
        }
        proof {
            assert(all@.map_values(|f: &Fact| f@) =~= fv);
        }
        let cand = build_candidates(all, &hot);
        let ghost cv = cand@;
        let ordered = sort_candidates(cand);
        // cut off at the configured maximum
        let limit = if ordered.len() < self.config.max_facts {
            ordered.len()
        } else {
            self.config.max_facts
        };
        let ghost ov = ordered@;
        let mut out: Vec<&'a Fact> = Vec::new();
        let mut t: usize = 0;
        while t < limit
            invariant
                t <= limit,
                limit <= ov.len(),
                ordered@ == ov,
                out@.len() == t,
                forall|k: int| 0 <= k < t ==> #[trigger] out@[k] == ov[k].2,
            decreases limit - t,
        {
            out.push(ordered[t].2);
            t = t + 1;
        }
        proof {
            assert forall|k: int| 0 <= k < limit implies (#[trigger] ov[k]).2@
                == out@.map_values(|f: &Fact| f@)[k] by {
                assert(out@[k] == ov[k].2);
            }
            lemma_selection_final(
                fv,
                hv,
                cv,
                ov,
                out@.map_values(|f: &Fact| f@),
                limit as int,
                self.config.max_facts as int,
            );
        }
        out
    }

    /// The trigger tags of an event, augmented with the current location
    /// tag of the event's primary entity when one is recorded.
    pub fn extract_tags_from_event(&self, event: &GameEvent, world_state: &WorldState) -> (r:
        Vec<Tag>)
        requires
            world_state.wf(),
        ensures
            r@.map_values(|t: Tag| t@) == trigger_views(*event, *world_state),
    {
        let mut tags = event.to_tags();
        match event.primary_entity() {
            Some(entity_id) => {
                match world_state.entity_location(entity_id) {
                    Some(loc) => {
                        tags.push(Tag::location(loc));
                        proof {
                            assert(tags@.map_values(|t: Tag| t@) =~= event_tags(
                                *event,
                            ).push(
                                TagView::Location(
                                    eloc_get(world_state.entity_locations@, entity_id.0),
                                ),
                            ));
                        }
                    },
                    None => {},
                }
            },
            None => {},
        }
        tags
    }

    /// Describe an event in human-readable form, resolving names against
    /// the world state.
    pub fn describe_event(&self, event: &GameEvent, world_state: &WorldState) -> (r: String)
        requires
            world_state.wf(),
        ensures
            r@ == describe_chars(*event, *world_state),
    {
        let ghost chars = world_state.characters@;
        match event {
            GameEvent::CombatAbilityUsed { source, target, ability } => {
                let mut s = String::new();
                match world_state.get_character(*source) {
                    Some(c) => s.append(c.name.as_str()),
                    None => s.append("Unknown"),
                }
                s.append(" used ability '");
                s.append(ability.as_str());
                s.append("' on ");
                match world_state.get_character(*target) {
                    Some(c) => s.append(c.name.as_str()),
                    None => s.append("Unknown"),
                }
                proof {
                    assert(s@ =~= describe_chars(*event, *world_state));
                }
                s
            },
            GameEvent::DialogueStarted { participants, topic } => {
                let mut names: Vec<String> = Vec::new();
                let mut i: usize = 0;
                while i < participants.len()
                    invariant
                        world_state.wf(),
                        chars == world_state.characters@,
                        i <= participants@.len(),
                        names@.map_values(|n: String| n@) == dlg_names_upto(
                            chars,
                            participants@,
                            i as int,
                        ),
                    decreases participants@.len() - i,
                {
                    match world_state.get_character(participants[i]) {
                        Some(c) => {
                            let n = c.name.clone();
                            names.push(n);
                            proof {
                                assert(names@.map_values(|n: String| n@) =~= dlg_names_upto(
                                    chars,
                                    participants@,
                                    i + 1,
                                ));
                            }
                        },
                        None => {},
                    }
                    i = i + 1;
                }
                let ghost nv = names@.map_values(|n: String| n@);
                let mut s = String::new();
                if names.len() > 0 {
                    s.append(names[0].as_str());
                    let mut j: usize = 1;
                    proof {
                        assert(s@ =~= join_sep_upto(nv, " and "@, 1));
                    }
                    while j < names.len()
                        invariant
                            1 <= j <= names@.len(),
                            nv == names@.map_values(|n: String| n@),
                            nv.len() == names@.len(),
                            s@ == join_sep_upto(nv, " and "@, j as int),
                        decreases names@.len() - j,
                    {
                        s.append(" and ");
                        s.append(names[j].as_str());
                        proof {
                            assert(s@ =~= join_sep_upto(nv, " and "@, j + 1));
                        }
                        j = j + 1;
                    }
                }
                proof {
                    assert(s@ =~= joined_names(nv));
                }
                match topic {
                    Some(t) => {
                        s.append(" begin discussing ");
                        s.append(t.as_str());
                    },
                    None => {
                        s.append(" begin a conversation");
                    },
                }
                proof {
                    assert(s@ =~= describe_chars(*event, *world_state));
                }
                s
            },
            GameEvent::LocationEntered { entity, location } => {
                let mut s = String::new();
                match world_state.get_character(*entity) {
                    Some(c) => s.append(c.name.as_str()),
                    None => s.append("Someone"),
                }
                s.append(" enters ");
                match world_state.get_location(*location) {
                    Some(l) => s.append(l.name.as_str()),
                    None => s.append("an unknown place"),
                }
                proof {
                    assert(s@ =~= describe_chars(*event, *world_state));
                }
                s
            },
            GameEvent::EntityDied { entity, killer } => {
                let mut s = String::new();
                match world_state.get_character(*entity) {
                    Some(c) => s.append(c.name.as_str()),
                    None => s.append("Someone"),
                }
                match killer {
                    Some(k) => {
                        s.append(" was killed by ");
                        match world_state.get_character(*k) {
                            Some(c) => s.append(c.name.as_str()),
                            None => s.append("an unknown assailant"),
                        }
                    },
                    None => {
                        s.append(" has died");
                    },
                }
                proof {
                    assert(s@ =~= describe_chars(*event, *world_state));
                }
                s
            },
            GameEvent::Custom { description, .. } => {
                let s = String::from_str(description.as_str());
                proof {
                    assert(s@ =~= describe_chars(*event, *world_state));
                }
                s
            },
        }
    }

    /// Extract world context information: the clock, day, season,
    /// weather, and whether it is night.
    pub fn extract_world_context(&self, world_state: &WorldState) -> (r: WorldContext)
        requires
            world_state.wf(),
        ensures
            r.time_of_day@ == hhmm_chars(world_state.time.hour, world_state.time.minute),
            r.day == world_state.time.day,
            r.season == world_state.time.season,
            r.weather == world_state.environment.weather,
            r.is_night == night_spec(world_state.time.hour),
    {
        let mut tod = String::new();
        append_two_dec(&mut tod, world_state.time.hour);
        proof {
            reveal_strlit(":");
        }
        tod.append(":");
        append_two_dec(&mut tod, world_state.time.minute);
        proof {
            assert(tod@ =~= hhmm_chars(world_state.time.hour, world_state.time.minute));
        }
        WorldContext {
            time_of_day: tod,
            day: world_state.time.day,
            season: world_state.time.season,
            weather: world_state.environment.weather,
            is_night: world_state.is_night(),
        }
    }

    /// Extract character context for each involved entity that resolves
    /// to a character, in event order.
    pub fn extract_character_context(
        &self,
        world_state: &WorldState,
        event: &GameEvent,
    ) -> (r: Vec<CharacterContext>)
        requires
            world_state.wf(),
        ensures
            ctx_ok(
                world_state.characters@,
                resolved_upto(
                    world_state.characters@,
                    event_entities(*event),
                    event_entities(*event).len() as int,
                ),
                r@,
            ),
    {
        let ghost chars = world_state.characters@;
        let ghost ents = event_entities(*event);
        let involved = event.involved_entities();
        let mut r: Vec<CharacterContext> = Vec::new();
        let mut i: usize = 0;
        while i < involved.len()
            invariant
                world_state.wf(),
                chars == world_state.characters@,
                involved@ == ents,
                i <= ents.len(),
                ctx_ok(chars, resolved_upto(chars, ents, i as int), r@),
            decreases ents.len() - i,
        {
            let ghost rl0 = resolved_upto(chars, ents, i as int);
            match world_state.get_character(involved[i]) {
                Some(c) => {
                    let name = c.name.clone();
                    let title = match &c.title {
                        Some(t) => Some(t.clone()),
                        None => None,
                    };
                    let hp = hp_percent(c.stats.current_hp, c.stats.max_hp);
                    let mut statuses: Vec<String> = Vec::new();
                    let mut j: usize = 0;
                    while j < c.status_effects.active_effects.len()
                        invariant
                            j <= c.status_effects.active_effects@.len(),
                            statuses@.len() == j,
                            forall|q: int|
                                0 <= q < j ==> (#[trigger] statuses@[q])@ == status_chars(
                                    c.status_effects.active_effects@[q].effect_type,
                                ),
                        decreases c.status_effects.active_effects@.len() - j,
                    {
                        statuses.push(status_name(c.status_effects.active_effects[j].effect_type));
                        j = j + 1;
                    }
                    let personality = clone_strings(&c.personality_traits);
                    let cc = CharacterContext {
                        name,
                        title,
                        current_hp_percent: hp,
                        active_statuses: statuses,
                        personality,
                    };
                    let ghost r0 = r@;
                    r.push(cc);
                    proof {
                        assert(resolved_upto(chars, ents, i + 1) =~= rl0.push(
                            ents[i as int].0,
                        ));
                        assert(forall|k: int| 0 <= k < r0.len() ==> r@[k] == #[trigger] r0[k]);
                        let ch = chars[char_at(chars, ents[i as int].0)];
                        assert(r@[r@.len() - 1].active_statuses@.map_values(|s2: String| s2@)
                            =~= ch.status_effects.active_effects@.map_values(
                            |e: crate::entities::ActiveStatusEffect| status_chars(e.effect_type),
                        ));
                        assert(matches_char_ctx(r@[r@.len() - 1], ch));
                        let rl1 = resolved_upto(chars, ents, i + 1);
                        assert(ctx_ok(chars, rl1, r@)) by {
                            assert forall|k: int| 0 <= k < r@.len() implies has_char(
                                chars,
                                #[trigger] rl1[k],
                            ) && matches_char_ctx(r@[k], chars[char_at(chars, rl1[k])]) by {
                                if k < r@.len() - 1 {
                                    assert(r@[k] == r0[k]);
                                    assert(rl1[k] == rl0[k]);
                                } else {
                                    assert(rl1[k] == ents[i as int].0);
                                }
                            }
                        }
                    }
                },
                None => {
                    proof {
                        assert(resolved_upto(chars, ents, i + 1) =~= rl0);
                        assert(ctx_ok(chars, resolved_upto(chars, ents, i + 1), r@));
                    }
                },
            }
            i = i + 1;
        }
        r
    }

    /// Assemble the complete context for an event: extract trigger tags,
    /// run spreading activation, collect and rank the relevant facts, and
    /// project the world and character summaries.
    pub fn assemble_context(
        &self,
        event: &GameEvent,
        graph: &KnowledgeGraph,
        world_state: &WorldState,
    ) -> (r: AssembledContext)
        requires
            graph.wf(),
            world_state.wf(),
        ensures
            r.event_description@ == describe_chars(*event, *world_state),
            r.world_context.time_of_day@ == hhmm_chars(
                world_state.time.hour,
                world_state.time.minute,
            ),
            r.world_context.day == world_state.time.day,
            r.world_context.season == world_state.time.season,
            r.world_context.weather == world_state.environment.weather,
            r.world_context.is_night == night_spec(world_state.time.hour),
            ctx_ok(
                world_state.characters@,
                resolved_upto(
                    world_state.characters@,
                    event_entities(*event),
                    event_entities(*event).len() as int,
                ),
                r.character_context@,
            ),
            // the facts and tags are ranked against the activation that
            // spreading the extracted trigger tags actually produced
            ({
                let act = spread_state(
                    graph@.associations,
                    trigger_views(*event, *world_state),
                    self.config,
                    self.config.max_depth as int,
                );
                &&& exists|hv: Seq<(TagView, u64)>, selv: Seq<FactView>|
                    hot_ok(hv, act, self.config.energy_threshold) && #[trigger] selection_ok(
                        graph@.facts,
                        hv,
                        self.config.max_facts as int,
                        selv,
                    ) && r.relevant_facts@.map_values(|s2: String| s2@) == selv.map_values(
                        |f: FactView| f.content,
                    )
                &&& hot_ok(
                    r.activated_tags@.map_values(|p: (Tag, u64)| (p.0@, p.1)),
                    act,
                    self.config.energy_threshold,
                )
            }),
    {
        let trigger_tags = self.extract_tags_from_event(event, world_state);
        let activation = self.spread_activation(graph, trigger_tags);
        let facts = self.collect_facts(graph, &activation);
        let ghost selv = facts@.map_values(|f: &Fact| f@);
        let mut contents: Vec<String> = Vec::new();
        let mut i: usize = 0;
        while i < facts.len()
            invariant
                i <= facts@.len(),
                selv == facts@.map_values(|f: &Fact| f@),
                selv.len() == facts@.len(),
                contents@.len() == i,
                forall|k: int| 0 <= k < i ==> (#[trigger] contents@[k])@ == selv[k].content,
            decreases facts@.len() - i,
        {
            contents.push(facts[i].content.clone());
            i = i + 1;
        }
        proof {
            assert(contents@.map_values(|s2: String| s2@) =~= selv.map_values(
                |f: FactView| f.content,
            ));
            assert(activation@ == spread_state(
                graph@.associations,
                trigger_views(*event, *world_state),
                self.config,
                self.config.max_depth as int,
            ));
            let hv = choose|hv: Seq<(TagView, u64)>|
                #[trigger] hot_ok(hv, activation@, self.config.energy_threshold)
                    && selection_ok(
                    graph@.facts,
                    hv,
                    self.config.max_facts as int,
                    selv,
                );
            assert(hot_ok(hv, activation@, self.config.energy_threshold) && selection_ok(
                graph@.facts,
                hv,
                self.config.max_facts as int,
                selv,
            ));
        }
        let activated = activation.hot_tags(self.config.energy_threshold);
        proof {
            assert(hot_ok(
                activated@.map_values(|p: (Tag, u64)| (p.0@, p.1)),
                activation@,
                self.config.energy_threshold,
            ));
        }
        AssembledContext {
            event_description: self.describe_event(event, world_state),
            relevant_facts: contents,
            world_context: self.extract_world_context(world_state),
            character_context: self.extract_character_context(world_state, event),
            activated_tags: activated,
        }
    }
}

/// The hit-point percentage, rounded to the nearest whole percent.
fn hp_percent(cur: i32, mx: i32) -> (r: u32)
    ensures
        r == hp_percent_spec(cur as int, mx as int),
{
    if mx <= 0 {
        100
    } else if cur <= 0 {
        0
    } else {
        let p: i64 = (cur as i64 * 100 + mx as i64 / 2) / (mx as i64);
        if p > u32::MAX as i64 {
            u32::MAX
        } else {
            p as u32
        }
    }
}

/// From distinct-id scored candidates sorted into the selection order,
/// the prefix of length `limit` is a valid ranked selection.
#[verifier::rlimit(100)]
#[verifier::spinoff_prover]
proof fn lemma_selection_final(
    fv: Seq<FactView>,
    hv: Seq<(TagView, u64)>,
    cv: Seq<(u64, u128, &Fact)>,
    ov: Seq<(u64, u128, &Fact)>,
    outv: Seq<FactView>,
    limit: int,
    maxf: int,
)
    requires
        crate::graph::fids_distinct(fv),
        // candidate properties
        forall|k: int| 0 <= k < cv.len() ==> fv.contains((#[trigger] cv[k]).2@),
        forall|k: int|
            0 <= k < cv.len() ==> (#[trigger] cv[k]).1 == cv[k].2@.id && cv[k].0 == fact_score(
                hv,
                cv[k].2@,
            ) && touched_spec(hv, cv[k].2@),
        forall|q: int|
            0 <= q < fv.len() && touched_spec(hv, #[trigger] fv[q]) ==> (exists|k: int|
                0 <= k < cv.len() && (#[trigger] cv[k]).1 == fv[q].id),
        // the sorted arrangement
        ov.len() == cv.len(),
        forall|a: int, b: int|
            0 <= a < b < ov.len() ==> sel_before(
                ((#[trigger] ov[a]).0 as int, ov[a].1),
                ((#[trigger] ov[b]).0 as int, ov[b].1),
            ),
        forall|a: int, b: int| 0 <= a < b < ov.len() ==> ov[a].1 != ov[b].1,
        forall|k: int| 0 <= k < ov.len() ==> cv.contains(#[trigger] ov[k]),
        forall|q: int| 0 <= q < cv.len() ==> ov.contains(#[trigger] cv[q]),
        // the cut
        limit == if ov.len() < maxf {
            ov.len() as int
        } else {
            maxf
        },
        0 <= limit <= ov.len(),
        outv.len() == limit,
        forall|k: int| 0 <= k < limit ==> (#[trigger] ov[k]).2@ == outv[k],
    ensures
        selection_ok(fv, hv, maxf, outv),
{
    assert forall|k: int| 0 <= k < ov.len() implies (#[trigger] ov[k]).1 == ov[k].2@.id && ov[
    k].0 == fact_score(hv, ov[k].2@) && touched_spec(hv, ov[k].2@) && fv.contains(
        ov[k].2@,
    ) by {
        let q = choose|q: int| 0 <= q < cv.len() && cv[q] == ov[k];
        assert(cv[q].1 == cv[q].2@.id);
        assert(fv.contains(cv[q].2@));
    }
    assert forall|k: int| 0 <= k < outv.len() implies fv.contains(#[trigger] outv[k]) by {
        assert(outv[k] == ov[k].2@);
        assert(fv.contains(ov[k].2@));
    }
    assert forall|a: int, b: int| 0 <= a < b < outv.len() implies (#[trigger] outv[a]).id != (
    #[trigger] outv[b]).id by {
        assert(outv[a] == ov[a].2@);
        assert(outv[b] == ov[b].2@);
        assert(ov[a].1 == ov[a].2@.id);
        assert(ov[b].1 == ov[b].2@.id);
        assert(ov[a].1 != ov[b].1);
    }
    assert forall|k: int| 0 <= k < outv.len() implies touched_spec(hv, #[trigger] outv[k]) by {
        assert(outv[k] == ov[k].2@);
    }
    assert forall|a: int, b: int| 0 <= a < b < outv.len() implies sel_before(
        (fact_score(hv, outv[a]), outv[a].id),
        (fact_score(hv, outv[b]), outv[b].id),
    ) && outv[a].id != outv[b].id by {
        assert(outv[a] == ov[a].2@);
        assert(outv[b] == ov[b].2@);
        assert(sel_before((ov[a].0 as int, ov[a].1), (ov[b].0 as int, ov[b].1)));
    }
    assert forall|i0: int|
        0 <= i0 < fv.len() && touched_spec(hv, #[trigger] fv[i0]) && !sel_has(
            outv,
            fv[i0].id,
        ) implies outv.len() == maxf && (forall|k: int|
        0 <= k < outv.len() ==> sel_before(
            (fact_score(hv, outv[k]), outv[k].id),
            (fact_score(hv, fv[i0]), fv[i0].id),
        )) by {
        let kc = choose|kc: int| 0 <= kc < cv.len() && (#[trigger] cv[kc]).1 == fv[i0].id;
        assert(ov.contains(cv[kc]));
        let ks = choose|ks: int| 0 <= ks < ov.len() && ov[ks] == cv[kc];
        assert(ov[ks].2@.id == fv[i0].id);
        assert(fv.contains(ov[ks].2@));
        let iw = choose|iw: int| 0 <= iw < fv.len() && fv[iw] == ov[ks].2@;
        assert(fv[iw].id == fv[i0].id);
        if iw != i0 {
            assert(false);
        }
        assert(ov[ks].2@ == fv[i0]);
        if ks < limit {
            assert(outv[ks] == ov[ks].2@);
            assert(sel_has(outv, fv[i0].id)) by {
                assert(outv[ks].id == fv[i0].id);
            }
            assert(false);
        }
        assert(limit < ov.len());
        assert(limit == maxf);
        assert forall|k: int| 0 <= k < outv.len() implies sel_before(
            (fact_score(hv, outv[k]), outv[k].id),
            (fact_score(hv, fv[i0]), fv[i0].id),
        ) by {
            assert(outv[k] == ov[k].2@);
            assert(sel_before((ov[k].0 as int, ov[k].1), (
                ov[ks].0 as int,
                ov[ks].1,
            )));
            assert(ov[ks].0 == fact_score(hv, fv[i0]));
            assert(ov[ks].1 == fv[i0].id);
        }
    }
}

/// Score every fact against the hot-tag list and keep those carrying a
/// hot tag, as score-id-fact triples in input order.
fn build_candidates<'a>(all: Vec<&'a Fact>, hot: &Vec<(Tag, u64)>) -> (r: Vec<
    (u64, u128, &'a Fact),
>)
    requires
        forall|a: int, b: int|
            0 <= a < b < all@.len() ==> (#[trigger] all@[a])@.id != (#[trigger] all@[b])@.id,
    ensures
        ({
            let hv = hot@.map_values(|p: (Tag, u64)| (p.0@, p.1));
            let av = all@.map_values(|f: &Fact| f@);
            &&& forall|k: int| 0 <= k < r@.len() ==> av.contains((#[trigger] r@[k]).2@)
            &&& forall|k: int|
                0 <= k < r@.len() ==> (#[trigger] r@[k]).1 == r@[k].2@.id && r@[k].0
                    == fact_score(hv, r@[k].2@) && touched_spec(hv, r@[k].2@)
            &&& forall|a: int, b: int| 0 <= a < b < r@.len() ==> r@[a].1 != r@[b].1
            &&& forall|q: int|
                0 <= q < av.len() && touched_spec(hv, #[trigger] av[q]) ==> (exists|k: int|
                    0 <= k < r@.len() && (#[trigger] r@[k]).1 == av[q].id)
        }),
{
    let ghost hv = hot@.map_values(|p: (Tag, u64)| (p.0@, p.1));
    let ghost av = all@.map_values(|f: &Fact| f@);
    let mut cand: Vec<(u64, u128, &'a Fact)> = Vec::new();
    let mut i: usize = 0;
    while i < all.len()
        invariant
            i <= all@.len(),
            av == all@.map_values(|f: &Fact| f@),
            av.len() == all@.len(),
            hv == hot@.map_values(|p: (Tag, u64)| (p.0@, p.1)),
            forall|a: int, b: int|
                0 <= a < b < all@.len() ==> (#[trigger] all@[a])@.id != (#[trigger] all@[b])@.id,
            forall|k: int|
                0 <= k < cand@.len() ==> exists|i0: int|
                    0 <= i0 < i && (#[trigger] cand@[k]).2@ == av[i0],
            forall|k: int|
                0 <= k < cand@.len() ==> (#[trigger] cand@[k]).1 == cand@[k].2@.id && cand@[k].0
                    == fact_score(hv, cand@[k].2@) && touched_spec(hv, cand@[k].2@),
            forall|a: int, b: int| 0 <= a < b < cand@.len() ==> cand@[a].1 != cand@[b].1,
            forall|q: int|
                0 <= q < i && touched_spec(hv, #[trigger] av[q]) ==> (exists|k: int|
                    0 <= k < cand@.len() && (#[trigger] cand@[k]).1 == av[q].id),
        decreases all@.len() - i,
    {
        let f: &'a Fact = all[i];
        proof {
            assert(f@ == av[i as int]);
        }
        let scored = score_fact(hot, f);
        if scored.1 {
            let ghost c0 = cand@;
            cand.push((scored.0, f.id.0, f));
            proof {
                assert(forall|k: int| 0 <= k < c0.len() ==> cand@[k] == #[trigger] c0[k]);
                assert(cand@[cand@.len() - 1] == (scored.0, f.id.0, f));
                assert forall|a: int, b: int| 0 <= a < b < cand@.len() implies cand@[a].1
                    != cand@[b].1 by {
                    if b < cand@.len() - 1 {
                        assert(cand@[a] == c0[a] && cand@[b] == c0[b]);
                    } else {
                        assert(cand@[a] == c0[a]);
                        let i0 = choose|i0: int| 0 <= i0 < i && c0[a].2@ == av[i0];
                        assert(c0[a].1 == av[i0].id);
                        assert(av[i0].id == all@[i0]@.id);
                        assert(av[i as int].id == all@[i as int]@.id);
                    }
                }
                assert forall|q: int|
                    0 <= q < i + 1 && touched_spec(hv, #[trigger] av[q]) implies (exists|k: int|
                    0 <= k < cand@.len() && (#[trigger] cand@[k]).1 == av[q].id) by {
                    if q < i {
                        let k = choose|k: int|
                            0 <= k < c0.len() && (#[trigger] c0[k]).1 == av[q].id;
                        assert(cand@[k].1 == av[q].id);
                    } else {
                        assert(cand@[cand@.len() - 1].1 == av[q].id);
                    }
                }
            }
        } else {
            proof {
                assert forall|q: int|
                    0 <= q < i + 1 && touched_spec(hv, #[trigger] av[q]) implies (exists|k: int|
                    0 <= k < cand@.len() && (#[trigger] cand@[k]).1 == av[q].id) by {
                    if q == i {
                        assert(!touched_spec(hv, f@));
                        assert(false);
                    }
                }
            }
        }
        i = i + 1;
    }
    proof {
        assert forall|k: int| 0 <= k < cand@.len() implies av.contains(
            (#[trigger] cand@[k]).2@,
        ) by {
            let i0 = choose|i0: int| 0 <= i0 < i && (cand@[k]).2@ == av[i0];
            assert(av[i0] == cand@[k].2@);
        }
    }
    cand
}

/// Score one fact against a hot-tag list: the saturating sum, over the
/// hot tags the fact carries, of the tag energy scaled by the fact's
/// importance; also reports whether the fact carries any hot tag.
fn score_fact(hot: &Vec<(Tag, u64)>, f: &Fact) -> (r: (u64, bool))
    ensures
        r.0 == fact_score(hot@.map_values(|p: (Tag, u64)| (p.0@, p.1)), f@),
        r.1 == touched_spec(hot@.map_values(|p: (Tag, u64)| (p.0@, p.1)), f@),
{
    let ghost hv = hot@.map_values(|p: (Tag, u64)| (p.0@, p.1));
    let mut score: u64 = 0;
    let mut touched = false;
    let mut j: usize = 0;
    while j < hot.len()
        invariant
            j <= hot@.len(),
            hv == hot@.map_values(|p: (Tag, u64)| (p.0@, p.1)),
            hv.len() == hot@.len(),
            score == score_upto(hv, f@, j as int),
            touched == (exists|q: int| 0 <= q < j && f@.tags.contains((#[trigger] hv[q]).0)),
        decreases hot@.len() - j,
    {
        proof {
            assert(hv[j as int].0 == hot@[j as int].0@);
            assert(hv[j as int].1 == hot@[j as int].1);
        }
        if f.has_tag(&hot[j].0) {
            score = crate::fixed::sat_add(score, mul_frac(hot[j].1, f.importance));
            touched = true;
            proof {
                assert(f@.tags.contains(hv[j as int].0));
            }
        } else {
            proof {
                assert(!f@.tags.contains(hv[j as int].0));
                if exists|q: int| 0 <= q < j + 1 && f@.tags.contains((#[trigger] hv[q]).0) {
                    let q = choose|q: int|
                        0 <= q < j + 1 && f@.tags.contains((#[trigger] hv[q]).0);
                    if q == j {
                        assert(false);
                    }
                }
            }
        }
        j = j + 1;
    }
    (score, touched)
}


/// The display name of a character, or the fallback when the entity is
/// unknown.
pub open spec fn name_or(chars: Seq<Character>, e: u128, fallback: Seq<char>) -> Seq<char> {
    if has_char(chars, e) {
        chars[char_at(chars, e)].name@
    } else {
        fallback
    }
}

/// The names of the participants that resolve to characters, over the
/// first `i` participants.
pub open spec fn dlg_names_upto(chars: Seq<Character>, ps: Seq<EntityId>, i: int) -> Seq<
    Seq<char>,
>
    decreases i,
{
    if i <= 0 {
        Seq::empty()
    } else {
        let prev = dlg_names_upto(chars, ps, i - 1);
        if has_char(chars, ps[i - 1].0) {
            prev.push(chars[char_at(chars, ps[i - 1].0)].name@)
        } else {
            prev
        }
    }
}

/// Names joined with `" and "`; empty when no name resolved.
pub open spec fn joined_names(names: Seq<Seq<char>>) -> Seq<char> {
    if names.len() == 0 {
        Seq::empty()
    } else {
        join_sep_upto(names, " and "@, names.len() as int)
    }
}

/// The human-readable description of an event against a world state.
pub open spec fn describe_chars(e: GameEvent, ws: WorldState) -> Seq<char> {
    match e {
        GameEvent::CombatAbilityUsed { source, target, ability } => name_or(
            ws.characters@,
            source.0,
            "Unknown"@,
        ) + " used ability '"@ + ability@ + "' on "@ + name_or(
            ws.characters@,
            target.0,
            "Unknown"@,
        ),
        GameEvent::DialogueStarted { participants, topic } => {
            let names = dlg_names_upto(ws.characters@, participants@, participants@.len() as int);
            match topic {
                Some(t) => joined_names(names) + " begin discussing "@ + t@,
                None => joined_names(names) + " begin a conversation"@,
            }
        },
        GameEvent::LocationEntered { entity, location } => name_or(
            ws.characters@,
            entity.0,
            "Someone"@,
        ) + " enters "@ + (if has_loc(ws.locations@, location.0) {
            ws.locations@[loc_at(ws.locations@, location.0)].name@
        } else {
            "an unknown place"@
        }),
        GameEvent::EntityDied { entity, killer } => name_or(
            ws.characters@,
            entity.0,
            "Someone"@,
        ) + (match killer {
            Some(k) => " was killed by "@ + name_or(
                ws.characters@,
                k.0,
                "an unknown assailant"@,
            ),
            None => " has died"@,
        }),
        GameEvent::Custom { description, .. } => description@,
    }
}

/// The clock rendering `HH:MM` of an hour and minute.
pub open spec fn hhmm_chars(hour: u8, minute: u8) -> Seq<char> {
    seq![
        hex_digit_char(hour as int / 10),
        hex_digit_char(hour as int % 10),
        ':',
        hex_digit_char(minute as int / 10),
        hex_digit_char(minute as int % 10),
    ]
}

/// The hit-point percentage of a character: rounded to the nearest whole
/// percent, 100 when no maximum is set, 0 when at or below zero, and
/// capped at the largest `u32`.
pub open spec fn hp_percent_spec(cur: int, mx: int) -> int {
    if mx <= 0 {
        100
    } else if cur <= 0 {
        0
    } else {
        let p = (cur * 100 + mx / 2) / mx;
        if p > u32::MAX {
            u32::MAX as int
        } else {
            p
        }
    }
}

/// The display name of a status effect.
pub open spec fn status_chars(t: StatusEffectType) -> Seq<char> {
    match t {
        StatusEffectType::Bleeding => "Bleeding"@,
        StatusEffectType::Poisoned => "Poisoned"@,
        StatusEffectType::Burning => "Burning"@,
        StatusEffectType::Stunned => "Stunned"@,
        StatusEffectType::Paralyzed => "Paralyzed"@,
        StatusEffectType::Frightened => "Frightened"@,
        StatusEffectType::Charmed => "Charmed"@,
        StatusEffectType::Weakened => "Weakened"@,
        StatusEffectType::Slowed => "Slowed"@,
        StatusEffectType::Blinded => "Blinded"@,
        StatusEffectType::Deafened => "Deafened"@,
        StatusEffectType::Blessed => "Blessed"@,
        StatusEffectType::Hasted => "Hasted"@,
        StatusEffectType::Invisible => "Invisible"@,
        StatusEffectType::Protected => "Protected"@,
        StatusEffectType::Unconscious => "Unconscious"@,
        StatusEffectType::Dead => "Dead"@,
    }
}

/// Whether a character context faithfully summarizes a character.
pub open spec fn matches_char_ctx(cc: CharacterContext, ch: Character) -> bool {
    &&& cc.name@ == ch.name@
    &&& (match ch.title {
        Some(t) => cc.title is Some && cc.title->0@ == t@,
        None => cc.title is None,
    })
    &&& cc.current_hp_percent == hp_percent_spec(
        ch.stats.current_hp as int,
        ch.stats.max_hp as int,
    )
    &&& cc.active_statuses@.map_values(|s: String| s@)
        == ch.status_effects.active_effects@.map_values(
        |e: crate::entities::ActiveStatusEffect| status_chars(e.effect_type),
    )
    &&& cc.personality@.map_values(|s: String| s@) == ch.personality_traits@.map_values(
        |s: String| s@,
    )
}

/// Whether `rs` summarizes, in order, exactly the characters with the
/// ids `rl`.
pub open spec fn ctx_ok(chars: Seq<Character>, rl: Seq<u128>, rs: Seq<CharacterContext>) -> bool {
    &&& rs.len() == rl.len()
    &&& forall|k: int|
        0 <= k < rs.len() ==> has_char(chars, #[trigger] rl[k]) && matches_char_ctx(
            rs[k],
            chars[char_at(chars, rl[k])],
        )
}

/// The entities among the first `i` involved that resolve to characters.
pub open spec fn resolved_upto(chars: Seq<Character>, ents: Seq<EntityId>, i: int) -> Seq<
    u128,
>
    decreases i,
{
    if i <= 0 {
        Seq::empty()
    } else {
        let prev = resolved_upto(chars, ents, i - 1);
        if has_char(chars, ents[i - 1].0) {
            prev.push(ents[i - 1].0)
        } else {
            prev
        }
    }
}

/// The display name of a status effect.
fn status_name(t: StatusEffectType) -> (r: String)
    ensures
        r@ == status_chars(t),
{
    match t {
        StatusEffectType::Bleeding => String::from_str("Bleeding"),
        StatusEffectType::Poisoned => String::from_str("Poisoned"),
        StatusEffectType::Burning => String::from_str("Burning"),
        StatusEffectType::Stunned => String::from_str("Stunned"),
        StatusEffectType::Paralyzed => String::from_str("Paralyzed"),
        StatusEffectType::Frightened => String::from_str("Frightened"),
        StatusEffectType::Charmed => String::from_str("Charmed"),
        StatusEffectType::Weakened => String::from_str("Weakened"),
        StatusEffectType::Slowed => String::from_str("Slowed"),
        StatusEffectType::Blinded => String::from_str("Blinded"),
        StatusEffectType::Deafened => String::from_str("Deafened"),
        StatusEffectType::Blessed => String::from_str("Blessed"),
        StatusEffectType::Hasted => String::from_str("Hasted"),
        StatusEffectType::Invisible => String::from_str("Invisible"),
        StatusEffectType::Protected => String::from_str("Protected"),
        StatusEffectType::Unconscious => String::from_str("Unconscious"),
        StatusEffectType::Dead => String::from_str("Dead"),
    }
}

/// Clone a list of strings, preserving the character sequences.
fn clone_strings(v: &Vec<String>) -> (r: Vec<String>)
    ensures
        r@.map_values(|s: String| s@) == v@.map_values(|s: String| s@),
{
    let mut r: Vec<String> = Vec::new();
    let mut i: usize = 0;
    while i < v.len()
        invariant
            i <= v@.len(),
            r@.len() == i,
            forall|j: int| 0 <= j < i ==> (#[trigger] r@[j])@ == v@[j]@,
        decreases v@.len() - i,
    {
        r.push(v[i].clone());
        i = i + 1;
    }
    proof {
        assert(r@.map_values(|s: String| s@) =~= v@.map_values(|s: String| s@));
    }
    r
}

} // verus!