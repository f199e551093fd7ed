//! The knowledge graph: an indexed store of facts and weighted tag
//! associations.
//!
//! Facts are kept with three indexes: by tag, by referenced entity, and
//! an adjacency list of weighted directed associations between tags. The
//! well-formedness predicate [`KnowledgeGraph::wf`] states the index
//! consistency the graph maintains across every mutation: each fact is
//! findable under exactly its tags and referenced entities, every index
//! entry points at a live fact, and every stored association weight lies
//! in `[0, UNIT]`.

use vstd::prelude::*;
use crate::ids::EntityId;
use crate::ids::FactId;
use crate::tag::Tag;
use crate::tag::TagView;
use crate::tag::tag_eq;
use crate::fact::Fact;
use crate::fact::FactType;
use crate::fact::FactView;
use crate::fact::fact_refs;
use crate::fixed::UNIT;

verus! {

/// Types of associations between tags.
#[derive(Debug, Clone, Copy, PartialEq, Eq, Structural)]
pub enum AssociationType {
    /// Explicitly defined association.
    Direct,
    /// Both tags appear on the same facts.
    CoOccurrence,
    /// Conceptually related.
    Semantic,
    /// Related in time.
    Temporal,
}

/// A directed association from one tag to another, with a weight in
/// millionths of 1.0.
#[derive(Debug)]
pub struct Association {
    pub target: Tag,
    pub weight: u64,
    pub association_type: AssociationType,
}

/// The mathematical value of an association.
pub struct AssocView {
    pub target: TagView,
    pub weight: u64,
    pub association_type: AssociationType,
}

impl View for Association {
    type V = AssocView;

    open spec fn view(&self) -> AssocView {
        AssocView {
            target: self.target@,
            weight: self.weight,
            association_type: self.association_type,
        }
    }
}

// ---- lookups over the fact list ----

/// Whether a fact with the given id is present.
pub open spec fn has_fid(s: Seq<FactView>, id: u128) -> bool {
    exists|i: int| 0 <= i < s.len() && s[i].id == id
}

/// The position of the fact with the given id.
pub open spec fn fid_at(s: Seq<FactView>, id: u128) -> int {
    choose|i: int| 0 <= i < s.len() && s[i].id == id
}

/// The fact with the given id.
pub open spec fn fact_of(s: Seq<FactView>, id: u128) -> FactView {
    s[fid_at(s, id)]
}

/// Every fact id occurs at most once.
pub open spec fn fids_distinct(s: Seq<FactView>) -> bool {
    forall|i: int, j: int| 0 <= i < j < s.len() ==> s[i].id != s[j].id
}

/// With distinct ids, the fact stored at a position is the fact found
/// for its id.
pub proof fn lemma_fact_at(s: Seq<FactView>, i: int)
    requires
        fids_distinct(s),
        0 <= i < s.len(),
    ensures
        has_fid(s, s[i].id),
        fid_at(s, s[i].id) == i,
        fact_of(s, s[i].id) == s[i],
{
    assert(has_fid(s, s[i].id));
    let j = fid_at(s, s[i].id);
    if i < j {
        assert(false);
    } else if j < i {
        assert(false);
    }
}

// ---- lookups over the tag index ----

/// Whether the tag index carries a bucket for `t`.
pub open spec fn thas(s: Seq<(TagView, Seq<u128>)>, t: TagView) -> bool {
    exists|i: int| 0 <= i < s.len() && s[i].0 == t
}

/// The position of the bucket for `t`.
pub open spec fn tat(s: Seq<(TagView, Seq<u128>)>, t: TagView) -> int {
    choose|i: int| 0 <= i < s.len() && s[i].0 == t
}

/// The fact ids indexed under `t`; empty when no bucket exists.
pub open spec fn tbucket(s: Seq<(TagView, Seq<u128>)>, t: TagView) -> Seq<u128> {
    if thas(s, t) {
        s[tat(s, t)].1
    } else {
        Seq::empty()
    }
}

/// Every tag occurs as at most one bucket key.
pub open spec fn tkeys_distinct(s: Seq<(TagView, Seq<u128>)>) -> bool {
    forall|i: int, j: int| 0 <= i < j < s.len() ==> s[i].0 != s[j].0
}

pub proof fn lemma_tag_at(s: Seq<(TagView, Seq<u128>)>, i: int)
    requires
        tkeys_distinct(s),
        0 <= i < s.len(),
    ensures
        thas(s, s[i].0),
        tat(s, s[i].0) == i,
        tbucket(s, s[i].0) == s[i].1,
{
    assert(thas(s, s[i].0));
    let j = tat(s, s[i].0);
    if i < j {
        assert(false);
    } else if j < i {
        assert(false);
    }
}

// ---- lookups over the entity index ----

/// Whether the entity index carries a bucket for `e`.
pub open spec fn ehas(s: Seq<(u128, Seq<u128>)>, e: u128) -> bool {
    exists|i: int| 0 <= i < s.len() && s[i].0 == e
}

/// The position of the bucket for `e`.
pub open spec fn eat(s: Seq<(u128, Seq<u128>)>, e: u128) -> int {
    choose|i: int| 0 <= i < s.len() && s[i].0 == e
}

/// The fact ids indexed under entity `e`; empty when no bucket exists.
pub open spec fn ebucket(s: Seq<(u128, Seq<u128>)>, e: u128) -> Seq<u128> {
    if ehas(s, e) {
        s[eat(s, e)].1
    } else {
        Seq::empty()
    }
}

/// Every entity occurs as at most one bucket key.
pub open spec fn ekeys_distinct(s: Seq<(u128, Seq<u128>)>) -> bool {
    forall|i: int, j: int| 0 <= i < j < s.len() ==> s[i].0 != s[j].0
}

pub proof fn lemma_ent_at(s: Seq<(u128, Seq<u128>)>, i: int)
    requires
        ekeys_distinct(s),
        0 <= i < s.len(),
    ensures
        ehas(s, s[i].0),
        eat(s, s[i].0) == i,
        ebucket(s, s[i].0) == s[i].1,
{
    assert(ehas(s, s[i].0));
    let j = eat(s, s[i].0);
    if i < j {
        assert(false);
    } else if j < i {
        assert(false);
    }
}

// ---- lookups over the association index ----

/// Whether the adjacency list carries out-edges for `t`.
pub open spec fn ahas(s: Seq<(TagView, Seq<AssocView>)>, t: TagView) -> bool {
    exists|i: int| 0 <= i < s.len() && s[i].0 == t
}

/// The position of the out-edge list of `t`.
pub open spec fn aat(s: Seq<(TagView, Seq<AssocView>)>, t: TagView) -> int {
    choose|i: int| 0 <= i < s.len() && s[i].0 == t
}

/// The out-edges of `t`, in insertion order; empty when none exist.
pub open spec fn abucket(s: Seq<(TagView, Seq<AssocView>)>, t: TagView) -> Seq<AssocView> {
    if ahas(s, t) {
        s[aat(s, t)].1
    } else {
        Seq::empty()
    }
}

/// Every source tag occurs as at most one adjacency key.
pub open spec fn akeys_distinct(s: Seq<(TagView, Seq<AssocView>)>) -> bool {
    forall|i: int, j: int| 0 <= i < j < s.len() ==> s[i].0 != s[j].0
}

pub proof fn lemma_assoc_at(s: Seq<(TagView, Seq<AssocView>)>, i: int)
    requires
        akeys_distinct(s),
        0 <= i < s.len(),
    ensures
        ahas(s, s[i].0),
        aat(s, s[i].0) == i,
        abucket(s, s[i].0) == s[i].1,
{
    assert(ahas(s, s[i].0));
    let j = aat(s, s[i].0);
    if i < j {
        assert(false);
    } else if j < i {
        assert(false);
    }
}

/// Whether an edge list holds an edge to `t`.
pub open spec fn bhas_target(b: Seq<AssocView>, t: TagView) -> bool {
    exists|i: int| 0 <= i < b.len() && b[i].target == t
}

/// The position of the edge to `t`.
pub open spec fn bat_target(b: Seq<AssocView>, t: TagView) -> int {
    choose|i: int| 0 <= i < b.len() && b[i].target == t
}

/// The edge to `t`.
pub open spec fn bedge(b: Seq<AssocView>, t: TagView) -> AssocView {
    b[bat_target(b, t)]
}

/// Every target occurs in at most one edge of a list.
pub open spec fn btargets_distinct(b: Seq<AssocView>) -> bool {
    forall|i: int, j: int| 0 <= i < j < b.len() ==> b[i].target != b[j].target
}

pub proof fn lemma_edge_at(b: Seq<AssocView>, i: int)
    requires
        btargets_distinct(b),
        0 <= i < b.len(),
    ensures
        bhas_target(b, b[i].target),
        bat_target(b, b[i].target) == i,
        bedge(b, b[i].target) == b[i],
{
    assert(bhas_target(b, b[i].target));
    let j = bat_target(b, b[i].target);
    if i < j {
        assert(false);
    } else if j < i {
        assert(false);
    }
}

/// The out-edge list after adding or updating one directed edge: an
/// existing edge to the target takes the average of its old weight and
/// the clamped new weight and keeps its kind; otherwise a new edge with
/// the clamped weight and the given kind is appended.
pub open spec fn assoc_upsert(
    b: Seq<AssocView>,
    to: TagView,
    weight: u64,
    kind: AssociationType,
) -> Seq<AssocView> {
    if bhas_target(b, to) {
        b.update(
            bat_target(b, to),
            AssocView {
                target: to,
                weight: ((bedge(b, to).weight + crate::fixed::clamp_unit_spec(
                    weight as int,
                )) / 2) as u64,
                association_type: bedge(b, to).association_type,
            },
        )
    } else {
        b.push(
            AssocView {
                target: to,
                weight: crate::fixed::clamp_unit_spec(weight as int) as u64,
                association_type: kind,
            },
        )
    }
}

/// How many of the first `i` stored facts carry both tags.
pub open spec fn pc_upto(facts: Seq<FactView>, a: TagView, b: TagView, i: int) -> int
    decreases i,
{
    if i <= 0 {
        0
    } else {
        pc_upto(facts, a, b, i - 1) + if facts[i - 1].tags.contains(a) && facts[i
            - 1].tags.contains(b) {
            1int
        } else {
            0int
        }
    }
}

/// How many stored facts carry both tags.
pub open spec fn pair_count(facts: Seq<FactView>, a: TagView, b: TagView) -> int {
    pc_upto(facts, a, b, facts.len() as int)
}

/// The co-occurrence weight for a pair count: the fixed-point image of
/// `min(1, ln c)`, which is 0 at one co-occurrence, ln 2 in millionths at
/// two, and 1.0 from three on.
pub open spec fn co_weight(c: int) -> int {
    if c <= 1 {
        0
    } else if c == 2 {
        693_147
    } else {
        UNIT as int
    }
}

/// The pair count does not depend on the order of the two tags.
pub proof fn lemma_pc_sym(facts: Seq<FactView>, a: TagView, b: TagView, i: int)
    ensures
        pc_upto(facts, a, b, i) == pc_upto(facts, b, a, i),
    decreases i,
{
    if i > 0 {
        lemma_pc_sym(facts, a, b, i - 1);
    }
}

/// A fact carrying both tags witnesses a positive pair count.
pub proof fn lemma_pc_pos(facts: Seq<FactView>, a: TagView, b: TagView, w: int, i: int)
    requires
        0 <= w < i <= facts.len(),
        facts[w].tags.contains(a),
        facts[w].tags.contains(b),
    ensures
        pc_upto(facts, a, b, i) > 0,
    decreases i,
{
    if w < i - 1 {
        lemma_pc_pos(facts, a, b, w, i - 1);
        lemma_pc_mono(facts, a, b, i - 1);
    } else {
        lemma_pc_mono(facts, a, b, i - 1);
    }
}

/// The pair count over a prefix never shrinks as the prefix grows.
pub proof fn lemma_pc_mono(facts: Seq<FactView>, a: TagView, b: TagView, i: int)
    ensures
        pc_upto(facts, a, b, i + 1) >= pc_upto(facts, a, b, i),
        pc_upto(facts, a, b, i) >= 0,
    decreases i,
{
    if i > 0 {
        lemma_pc_mono(facts, a, b, i - 1);
    }
}

/// A positive pair count yields a fact carrying both tags.
pub proof fn lemma_pc_witness(facts: Seq<FactView>, a: TagView, b: TagView, i: int)
    requires
        0 <= i <= facts.len(),
        pc_upto(facts, a, b, i) > 0,
    ensures
        exists|w: int|
            0 <= w < i && #[trigger] facts[w].tags.contains(a) && facts[w].tags.contains(b),
    decreases i,
{
    if i > 0 {
        if facts[i - 1].tags.contains(a) && facts[i - 1].tags.contains(b) {
        } else {
            lemma_pc_witness(facts, a, b, i - 1);
        }
    }
}

/// Whether two tag pairs name the same unordered pair.
pub open spec fn same_pair(p: (TagView, TagView), a: TagView, b: TagView) -> bool {
    (p.0 == a && p.1 == b) || (p.0 == b && p.1 == a)
}

/// Whether one of the first `m` listed pairs names the unordered pair
/// `{a, b}`.
pub open spec fn listed_upto(pv: Seq<(TagView, TagView)>, m: int, a: TagView, b: TagView) -> bool {
    exists|k: int| 0 <= k < m && same_pair(#[trigger] pv[k], a, b)
}

/// An upsert leaves every edge to another target unchanged.
pub proof fn lemma_upsert_frame(
    b: Seq<AssocView>,
    to: TagView,
    w: u64,
    kind: AssociationType,
    u: TagView,
)
    requires
        btargets_distinct(b),
        u != to,
    ensures
        bhas_target(assoc_upsert(b, to, w, kind), u) == bhas_target(b, u),
        bhas_target(b, u) ==> bedge(assoc_upsert(b, to, w, kind), u) == bedge(b, u),
{
    let b1 = assoc_upsert(b, to, w, kind);
    if bhas_target(b, to) {
        let f = bat_target(b, to);
        lemma_edge_at(b, f);
        if bhas_target(b, u) {
            let k = bat_target(b, u);
            lemma_edge_at(b, k);
            assert(k != f);
            assert(b1[k] == b[k]);
            assert(bhas_target(b1, u));
            let k1 = bat_target(b1, u);
            assert(b1[k1].target == u);
            if k1 != k {
                if k1 == f {
                    assert(b1[f].target == to);
                    assert(false);
                } else {
                    assert(b1[k1] == b[k1]);
                    assert(false);
                }
            }
        } else {
            if bhas_target(b1, u) {
                let k1 = bat_target(b1, u);
                if k1 == f {
                    assert(b1[f].target == to);
                    assert(false);
                } else {
                    assert(b1[k1] == b[k1]);
                    assert(bhas_target(b, u));
                }
            }
        }
    } else {
        if bhas_target(b, u) {
            let k = bat_target(b, u);
            assert(b1[k] == b[k]);
            assert(bhas_target(b1, u));
            let k1 = bat_target(b1, u);
            assert(b1[k1].target == u);
            if k1 != k {
                if k1 == b.len() {
                    assert(b1[k1].target == to);
                    assert(false);
                } else {
                    assert(b1[k1] == b[k1]);
                    if k1 < k {
                        assert(false);
                    } else {
                        assert(false);
                    }
                }
            }
        } else {
            if bhas_target(b1, u) {
                let k1 = bat_target(b1, u);
                if k1 == b.len() {
                    assert(b1[k1].target == to);
                    assert(false);
                } else {
                    assert(b1[k1] == b[k1]);
                    assert(bhas_target(b, u));
                }
            }
        }
    }
}

/// Upserting onto two buckets that agree on the target's edge produces
/// the same edge to that target.
pub proof fn lemma_upsert_edge_agrees(
    b1: Seq<AssocView>,
    b2: Seq<AssocView>,
    to: TagView,
    w: u64,
    kind: AssociationType,
)
    requires
        btargets_distinct(b1),
        btargets_distinct(b2),
        bhas_target(b1, to) == bhas_target(b2, to),
        bhas_target(b1, to) ==> bedge(b1, to) == bedge(b2, to),
    ensures
        bhas_target(assoc_upsert(b1, to, w, kind), to),
        bedge(assoc_upsert(b1, to, w, kind), to) == bedge(assoc_upsert(b2, to, w, kind), to),
{
    lemma_upsert_edge(b1, to, w, kind);
    lemma_upsert_edge(b2, to, w, kind);
}

/// The edge to the upserted target after an upsert: averaged when it
/// existed, fresh otherwise.
pub proof fn lemma_upsert_edge(b: Seq<AssocView>, to: TagView, w: u64, kind: AssociationType)
    requires
        btargets_distinct(b),
    ensures
        bhas_target(assoc_upsert(b, to, w, kind), to),
        bedge(assoc_upsert(b, to, w, kind), to) == if bhas_target(b, to) {
            AssocView {
                target: to,
                weight: ((bedge(b, to).weight + crate::fixed::clamp_unit_spec(w as int))
                    / 2) as u64,
                association_type: bedge(b, to).association_type,
            }
        } else {
            AssocView {
                target: to,
                weight: crate::fixed::clamp_unit_spec(w as int) as u64,
                association_type: kind,
            }
        },
{
    let b1 = assoc_upsert(b, to, w, kind);
    if bhas_target(b, to) {
        let f = bat_target(b, to);
        lemma_edge_at(b, f);
        assert(b1[f].target == to);
        assert(bhas_target(b1, to));
        let k1 = bat_target(b1, to);
        assert(b1[k1].target == to);
        if k1 != f {
            assert(b1[k1] == b[k1]);
            assert(false);
        }
    } else {
        assert(b1[b.len() as int].target == to);
        assert(bhas_target(b1, to));
        let k1 = bat_target(b1, to);
        assert(b1[k1].target == to);
        if k1 != b.len() {
            assert(b1[k1] == b[k1]);
            assert(bhas_target(b, to));
        }
    }
}

/// The out-edges of any tag in a well-formed adjacency list have
/// distinct targets.
pub proof fn lemma_bucket_distinct(assoc: Seq<(TagView, Seq<AssocView>)>, x: TagView)
    requires
        akeys_distinct(assoc),
        forall|k: int| 0 <= k < assoc.len() ==> btargets_distinct((#[trigger] assoc[k]).1),
    ensures
        btargets_distinct(abucket(assoc, x)),
{
    if ahas(assoc, x) {
        let k = aat(assoc, x);
        lemma_assoc_at(assoc, k);
    } else {
        assert(abucket(assoc, x) =~= Seq::<AssocView>::empty());
    }
}

/// The edge bookkeeping of the co-occurrence pass after the first `m`
/// pairs: a listed pair's two directed edges carry the upserted
/// co-occurrence weight over the original state; every other edge is
/// untouched, self-edges included.
pub open spec fn co_edges_ok(
    facts: Seq<FactView>,
    orig: Seq<(TagView, Seq<AssocView>)>,
    cur: Seq<(TagView, Seq<AssocView>)>,
    pv: Seq<(TagView, TagView)>,
    m: int,
) -> bool {
    &&& forall|a: TagView, b: TagView|
        a != b && listed_upto(pv, m, a, b) ==> bhas_target(abucket(cur, a), b) && bedge(
            abucket(cur, a),
            b,
        ) == bedge(
            assoc_upsert(
                abucket(orig, a),
                b,
                co_weight(pair_count(facts, a, b)) as u64,
                AssociationType::CoOccurrence,
            ),
            b,
        )
    &&& forall|a: TagView, b: TagView|
        a != b && !listed_upto(pv, m, a, b) ==> bhas_target(abucket(cur, a), b)
            == bhas_target(abucket(orig, a), b) && (bhas_target(abucket(orig, a), b)
            ==> bedge(abucket(cur, a), b) == bedge(abucket(orig, a), b))
    &&& forall|a: TagView|
        bhas_target(abucket(cur, a), a) == bhas_target(#[trigger] abucket(orig, a), a) && (
        bhas_target(abucket(orig, a), a) ==> bedge(abucket(cur, a), a) == bedge(
            abucket(orig, a),
            a,
        ))
}

/// One co-occurrence pair preserves the bookkeeping: upserting both
/// directed edges of the pair moves it from untouched to carried, and
/// leaves every other edge alone.
#[verifier::rlimit(100)]
#[verifier::spinoff_prover]
pub proof fn lemma_co_step(
    facts: Seq<FactView>,
    orig: Seq<(TagView, Seq<AssocView>)>,
    pre: Seq<(TagView, Seq<AssocView>)>,
    cur: Seq<(TagView, Seq<AssocView>)>,
    pv: Seq<(TagView, TagView)>,
    m: int,
    w: u64,
)
    requires
        0 <= m < pv.len(),
        forall|k1: int, k2: int|
            0 <= k1 < k2 < pv.len() ==> !same_pair(
                #[trigger] pv[k1],
                (#[trigger] pv[k2]).0,
                pv[k2].1,
            ),
        pv[m].0 != pv[m].1,
        w == co_weight(pair_count(facts, pv[m].0, pv[m].1)) as u64,
        akeys_distinct(orig),
        forall|k: int| 0 <= k < orig.len() ==> btargets_distinct((#[trigger] orig[k]).1),
        akeys_distinct(pre),
        forall|k: int| 0 <= k < pre.len() ==> btargets_distinct((#[trigger] pre[k]).1),
        co_edges_ok(facts, orig, pre, pv, m),
        abucket(cur, pv[m].0) == assoc_upsert(
            abucket(pre, pv[m].0),
            pv[m].1,
            w,
            AssociationType::CoOccurrence,
        ),
        abucket(cur, pv[m].1) == assoc_upsert(
            abucket(pre, pv[m].1),
            pv[m].0,
            w,
            AssociationType::CoOccurrence,
        ),
        forall|u: TagView|
            u != pv[m].0 && u != pv[m].1 ==> #[trigger] abucket(cur, u) == abucket(pre, u),
    ensures
        co_edges_ok(facts, orig, cur, pv, m + 1),
{
    let av = pv[m].0;
    let bv = pv[m].1;
    lemma_bucket_distinct(orig, av);
    lemma_bucket_distinct(orig, bv);
    lemma_bucket_distinct(pre, av);
    lemma_bucket_distinct(pre, bv);
    // a pair listed after this step is an earlier pair or this one
    assert forall|a: TagView, b: TagView|
        a != b && listed_upto(pv, m + 1, a, b) implies bhas_target(abucket(cur, a), b)
        && bedge(abucket(cur, a), b) == bedge(
        assoc_upsert(
            abucket(orig, a),
            b,
            co_weight(pair_count(facts, a, b)) as u64,
            AssociationType::CoOccurrence,
        ),
        b,
    ) by {
        let k = choose|k: int| 0 <= k < m + 1 && same_pair(#[trigger] pv[k], a, b);
        if k < m {
            assert(listed_upto(pv, m, a, b));
            // this step leaves the (a, b) edge alone
            if a == av {
                assert(!same_pair(pv[k], pv[m].0, pv[m].1));
                assert(b != bv);
                lemma_upsert_frame(
                    abucket(pre, av),
                    bv,
                    w,
                    AssociationType::CoOccurrence,
                    b,
                );
            } else if a == bv {
                assert(!same_pair(pv[k], pv[m].0, pv[m].1));
                assert(b != av);
                lemma_upsert_frame(
                    abucket(pre, bv),
                    av,
                    w,
                    AssociationType::CoOccurrence,
                    b,
                );
            } else {
                assert(abucket(cur, a) == abucket(pre, a));
            }
        } else {
            assert(same_pair(pv[m], a, b));
            assert(!listed_upto(pv, m, a, b)) by {
                if listed_upto(pv, m, a, b) {
                    let k0 = choose|k0: int| 0 <= k0 < m && same_pair(#[trigger] pv[k0], a, b);
                    assert(same_pair(pv[k0], pv[m].0, pv[m].1));
                }
            }
            if a == av && b == bv {
                lemma_upsert_edge_agrees(
                    abucket(pre, av),
                    abucket(orig, av),
                    bv,
                    w,
                    AssociationType::CoOccurrence,
                );
            } else {
                assert(a == bv && b == av);
                lemma_pc_sym(facts, av, bv, facts.len() as int);
                lemma_upsert_edge_agrees(
                    abucket(pre, bv),
                    abucket(orig, bv),
                    av,
                    w,
                    AssociationType::CoOccurrence,
                );
            }
        }
    }
    assert forall|a: TagView, b: TagView|
        a != b && !listed_upto(pv, m + 1, a, b) implies bhas_target(abucket(cur, a), b)
        == bhas_target(abucket(orig, a), b) && (bhas_target(abucket(orig, a), b) ==> bedge(
        abucket(cur, a),
        b,
    ) == bedge(abucket(orig, a), b)) by {
        assert(!listed_upto(pv, m, a, b)) by {
            if listed_upto(pv, m, a, b) {
                let k0 = choose|k0: int| 0 <= k0 < m && same_pair(#[trigger] pv[k0], a, b);
                assert(same_pair(pv[k0], a, b));
                assert(listed_upto(pv, m + 1, a, b));
            }
        }
        assert(!same_pair(pv[m], a, b)) by {
            if same_pair(pv[m], a, b) {
                assert(listed_upto(pv, m + 1, a, b));
            }
        }
        if a == av {
            assert(b != bv);
            lemma_upsert_frame(abucket(pre, av), bv, w, AssociationType::CoOccurrence, b);
        } else if a == bv {
            assert(b != av);
            lemma_upsert_frame(abucket(pre, bv), av, w, AssociationType::CoOccurrence, b);
        } else {
            assert(abucket(cur, a) == abucket(pre, a));
        }
    }
    assert forall|a: TagView| bhas_target(abucket(cur, a), a) == bhas_target(
        #[trigger] abucket(orig, a),
        a,
    ) && (bhas_target(abucket(orig, a), a) ==> bedge(abucket(cur, a), a) == bedge(
        abucket(orig, a),
        a,
    )) by {
        if a == av {
            lemma_upsert_frame(abucket(pre, av), bv, w, AssociationType::CoOccurrence, a);
        } else if a == bv {
            lemma_upsert_frame(abucket(pre, bv), av, w, AssociationType::CoOccurrence, a);
        } else {
            assert(abucket(cur, a) == abucket(pre, a));
        }
    }
}

/// Two weight contributions to one previously absent edge coalesce into
/// the average of the two clamped weights, whatever kinds were offered.
pub proof fn lemma_association_update(
    b: Seq<AssocView>,
    to: TagView,
    w1: u64,
    w2: u64,
    k1: AssociationType,
    k2: AssociationType,
)
    requires
        !bhas_target(b, to),
    ensures
        bedge(assoc_upsert(assoc_upsert(b, to, w1, k1), to, w2, k2), to).weight == (
        crate::fixed::clamp_unit_spec(w1 as int) + crate::fixed::clamp_unit_spec(
            w2 as int,
        )) / 2,
        bedge(assoc_upsert(assoc_upsert(b, to, w1, k1), to, w2, k2), to).association_type
            == k1,
{
    let e1 = AssocView {
        target: to,
        weight: crate::fixed::clamp_unit_spec(w1 as int) as u64,
        association_type: k1,
    };
    let b1 = assoc_upsert(b, to, w1, k1);
    assert(b1 == b.push(e1));
    assert(b1[b1.len() - 1].target == to);
    assert(bhas_target(b1, to));
    let j = bat_target(b1, to);
    assert(0 <= j < b1.len() && b1[j].target == to);
    if j < b.len() {
        assert(b[j].target == to);
        assert(false);
    }
    assert(bedge(b1, to) == e1);
    let b2 = assoc_upsert(b1, to, w2, k2);
    assert(b2 == b1.update(
        j,
        AssocView {
            target: to,
            weight: ((e1.weight + crate::fixed::clamp_unit_spec(w2 as int)) / 2) as u64,
            association_type: k1,
        },
    ));
    assert(bhas_target(b2, to)) by {
        assert(b2[j].target == to);
    }
    let j2 = bat_target(b2, to);
    assert(0 <= j2 < b2.len() && b2[j2].target == to);
    if j2 < b.len() {
        assert(b2[j2] == b[j2]);
        assert(false);
    }
}

/// Removing a position from a fact list with distinct ids removes exactly
/// that fact and keeps every other fact findable, unchanged.
pub proof fn lemma_facts_remove_frame(s: Seq<FactView>, i: int)
    requires
        fids_distinct(s),
        0 <= i < s.len(),
    ensures
        fids_distinct(s.remove(i)),
        !has_fid(s.remove(i), s[i].id),
        forall|u: u128| u != s[i].id ==> has_fid(s.remove(i), u) == has_fid(s, u),
        forall|u: u128|
            u != s[i].id && has_fid(s, u) ==> fact_of(s.remove(i), u) == fact_of(s, u),
{
    let s1 = s.remove(i);
    s.remove_ensures(i);
    assert forall|a: int, b: int| 0 <= a < b < s1.len() implies s1[a].id != s1[b].id by {
        let a0: int = if a < i {
            a
        } else {
            a + 1
        };
        let b0: int = if b < i {
            b
        } else {
            b + 1
        };
        assert(s1[a] == s[a0]);
        assert(s1[b] == s[b0]);
    }
    assert(!has_fid(s1, s[i].id)) by {
        if has_fid(s1, s[i].id) {
            let k = fid_at(s1, s[i].id);
            let k0: int = if k < i {
                k
            } else {
                k + 1
            };
            assert(s1[k] == s[k0]);
        }
    }
    assert forall|u: u128| u != s[i].id implies has_fid(s1, u) == has_fid(s, u) by {
        if has_fid(s1, u) {
            let k = fid_at(s1, u);
            let k0: int = if k < i {
                k
            } else {
                k + 1
            };
            assert(s1[k] == s[k0]);
            assert(has_fid(s, u));
        }
        if has_fid(s, u) {
            let k0 = fid_at(s, u);
            assert(k0 != i);
            let k: int = if k0 < i {
                k0
            } else {
                k0 - 1
            };
            assert(s1[k] == s[k0]);
            assert(has_fid(s1, u));
        }
    }
    assert forall|u: u128| u != s[i].id && has_fid(s, u) implies fact_of(s1, u) == fact_of(
        s,
        u,
    ) by {
        let k0 = fid_at(s, u);
        assert(s[k0].id == u);
        assert(k0 != i);
        let k: int = if k0 < i {
            k0
        } else {
            k0 - 1
        };
        assert(s1[k] == s[k0]);
        assert(has_fid(s1, u));
        let k1 = fid_at(s1, u);
        assert(s1[k1].id == u);
        if k1 != k {
            assert(false);
        }
        lemma_fact_at(s, k0);
    }
}

/// Pushing a fresh fact keeps every other fact findable, unchanged, and
/// makes the new fact findable.
pub proof fn lemma_facts_push_frame(s: Seq<FactView>, f: FactView)
    requires
        fids_distinct(s),
        !has_fid(s, f.id),
    ensures
        fids_distinct(s.push(f)),
        has_fid(s.push(f), f.id),
        fact_of(s.push(f), f.id) == f,
        forall|u: u128| u != f.id ==> has_fid(s.push(f), u) == has_fid(s, u),
        forall|u: u128| u != f.id && has_fid(s, u) ==> fact_of(s.push(f), u) == fact_of(s, u),
{
    let s1 = s.push(f);
    assert(forall|k: int| 0 <= k < s.len() ==> s1[k] == #[trigger] s[k]);
    assert forall|a: int, b: int| 0 <= a < b < s1.len() implies s1[a].id != s1[b].id by {
        if b < s1.len() - 1 {
            assert(s1[a] == s[a] && s1[b] == s[b]);
        } else {
            assert(s1[a] == s[a]);
            if s[a].id == f.id {
                assert(has_fid(s, f.id));
            }
        }
    }
    assert(s1[s1.len() - 1] == f);
    lemma_fact_at(s1, s1.len() - 1);
    assert forall|u: u128| u != f.id implies has_fid(s1, u) == has_fid(s, u) by {
        if has_fid(s1, u) {
            let k = fid_at(s1, u);
            assert(k < s.len());
            assert(s[k].id == u);
        }
        if has_fid(s, u) {
            let k = fid_at(s, u);
            assert(s1[k].id == u);
        }
    }
    assert forall|u: u128| u != f.id && has_fid(s, u) implies fact_of(s1, u) == fact_of(
        s,
        u,
    ) by {
        let k0 = fid_at(s, u);
        assert(s[k0].id == u);
        assert(s1[k0].id == u);
        assert(has_fid(s1, u));
        let k1 = fid_at(s1, u);
        assert(s1[k1].id == u);
        assert(k1 < s.len() || s1[k1] == f);
        if k1 != k0 {
            assert(false);
        }
        lemma_fact_at(s, k0);
    }
}

/// The id values of a bucket of fact ids.
pub open spec fn bids(b: Seq<FactId>) -> Seq<u128> {
    b.map_values(|q: FactId| q.0)
}

/// Remove a fact id from a bucket, keeping every other id.
fn bucket_remove_id(b: &mut Vec<FactId>, id: FactId)
    requires
        forall|a: int, b0: int|
            0 <= a < b0 < old(b)@.len() ==> old(b)@[a].0 != old(b)@[b0].0,
    ensures
        forall|a: int, b0: int|
            0 <= a < b0 < final(b)@.len() ==> final(b)@[a].0 != final(b)@[b0].0,
        forall|x: u128|
            #[trigger] bids(final(b)@).contains(x) == (bids(old(b)@).contains(x) && x
                != id.0),
{
    let ghost b0 = bids(old(b)@);
    let mut found: Option<usize> = None;
    let mut i: usize = 0;
    let n = b.len();
    while i < n
        invariant
            b == old(b),
            i <= n,
            n == b@.len(),
            match found {
                Some(f) => f < i && b@[f as int].0 == id.0,
                None => forall|j: int| 0 <= j < i ==> b@[j].0 != id.0,
            },
        decreases n - i,
    {
        if found.is_none() && b[i].0 == id.0 {
            found = Some(i);
        }
        i = i + 1;
    }
    match found {
        Some(f) => {
            let ghost braw = b@;
            b.remove(f);
            proof {
                let fi = f as int;
                let b1 = bids(b@);
                braw.remove_ensures(fi);
                assert(b1 =~= b0.remove(fi));
                b0.remove_ensures(fi);
                assert forall|a: int, c: int| 0 <= a < c < b@.len() implies b@[a].0 != b@[c].0 by {
                    let a0: int = if a < fi {
                        a
                    } else {
                        a + 1
                    };
                    let c0: int = if c < fi {
                        c
                    } else {
                        c + 1
                    };
                    assert(b@[a] == braw[a0]);
                    assert(b@[c] == braw[c0]);
                }
                assert forall|x: u128| #![trigger b1.contains(x)] b1.contains(x) == (
                b0.contains(x) && x != id.0) by {
                    if b1.contains(x) {
                        let k = choose|k: int| 0 <= k < b1.len() && b1[k] == x;
                        let k0: int = if k < fi {
                            k
                        } else {
                            k + 1
                        };
                        assert(b1[k] == b0[k0]);
                        assert(b0.contains(x));
                        if x == id.0 {
                            assert(braw[k0].0 == braw[fi].0);
                            assert(false);
                        }
                    }
                    if b0.contains(x) && x != id.0 {
                        let k0 = choose|k0: int| 0 <= k0 < b0.len() && b0[k0] == x;
                        assert(b0[k0] == braw[k0].0);
                        assert(k0 != fi);
                        let k: int = if k0 < fi {
                            k0
                        } else {
                            k0 - 1
                        };
                        assert(b1[k] == b0[k0]);
                        assert(b1.contains(x));
                    }
                }
            }
        },
        None => {
            proof {
                assert forall|x: u128| #![trigger b0.contains(x)] b0.contains(x) implies x
                    != id.0 by {
                    let k = choose|k: int| 0 <= k < b0.len() && b0[k] == x;
                    assert(b@[k].0 != id.0);
                }
            }
        },
    }
}

/// The facts counted as important at a threshold.
pub open spec fn important_pred(threshold: u64) -> spec_fn(FactView) -> bool {
    |fv: FactView| fv.importance >= threshold
}

/// Whether a list of entity ids carries the value `e`.
pub open spec fn elist_has(s: Seq<EntityId>, e: u128) -> bool {
    exists|k: int| 0 <= k < s.len() && s[k].0 == e
}

/// Clone a tag list, preserving its mathematical value.
fn clone_tags(v: &Vec<Tag>) -> (r: Vec<Tag>)
    ensures
        r@.map_values(|t: Tag| t@) == v@.map_values(|t: Tag| t@),
        r@.len() == v@.len(),
{
    let mut r: Vec<Tag> = Vec::new();
    let mut i: usize = 0;
    while i < v.len()
        invariant
            i <= v@.len(),
            r@.len() == i,
            forall|j: int| 0 <= j < i ==> (#[trigger] r@[j])@ == v@[j]@,
        decreases v@.len() - i,
    {
        r.push(v[i].clone());
        i = i + 1;
    }
    proof {
        assert(r@.map_values(|t: Tag| t@) =~= v@.map_values(|t: Tag| t@));
    }
    r
}

/// The entities a fact must be indexed under: those its type refers to
/// and those named by its entity tags.
fn collect_entities(tags: &Vec<Tag>, ft: &FactType) -> (r: Vec<EntityId>)
    ensures
        forall|e: u128|
            #[trigger] elist_has(r@, e) == (crate::fact::type_refs(ft@, e)
                || tags@.map_values(|t: Tag| t@).contains(TagView::Entity(e))),
{
    let ghost tv = tags@.map_values(|t: Tag| t@);
    let mut r: Vec<EntityId> = Vec::new();
    let mut i: usize = 0;
    while i < tags.len()
        invariant
            i <= tags@.len(),
            tags@.map_values(|t: Tag| t@) == tv,
            tv.len() == tags@.len(),
            forall|e: u128|
                #[trigger] elist_has(r@, e) == (exists|j: int|
                    0 <= j < i && tv[j] == TagView::Entity(e)),
        decreases tags@.len() - i,
    {
        let ghost r0 = r@;
        match &tags[i] {
            Tag::Entity(eid) => {
                r.push(*eid);
                proof {
                    assert(tv[i as int] == TagView::Entity(eid.0));
                    assert(forall|j: int| 0 <= j < r0.len() ==> r@[j] == #[trigger] r0[j]);
                    assert forall|e: u128| #[trigger] elist_has(r@, e) == (exists|j: int|
                        0 <= j < i + 1 && tv[j] == TagView::Entity(e)) by {
                        if elist_has(r@, e) {
                            let k = choose|k: int| 0 <= k < r@.len() && r@[k].0 == e;
                            if k < r0.len() {
                                assert(elist_has(r0, e));
                                let j = choose|j: int| 0 <= j < i && tv[j] == TagView::Entity(e);
                                assert(0 <= j < i + 1 && tv[j] == TagView::Entity(e));
                            } else {
                                assert(r@[k].0 == eid.0);
                                assert(tv[i as int] == TagView::Entity(e));
                            }
                        }
                        if exists|j: int| 0 <= j < i + 1 && tv[j] == TagView::Entity(e) {
                            let j = choose|j: int| 0 <= j < i + 1 && tv[j] == TagView::Entity(e);
                            if j < i {
                                assert(elist_has(r0, e));
                                let k = choose|k: int| 0 <= k < r0.len() && r0[k].0 == e;
                                assert(r@[k].0 == e);
                            } else {
                                assert(e == eid.0);
                                assert(r@[r@.len() - 1].0 == e);
                            }
                        }
                    }
                }
            },
            _ => {
                proof {
                    assert forall|e: u128| #[trigger] elist_has(r@, e) == (exists|j: int|
                        0 <= j < i + 1 && tv[j] == TagView::Entity(e)) by {
                        if exists|j: int| 0 <= j < i + 1 && tv[j] == TagView::Entity(e) {
                            let j = choose|j: int| 0 <= j < i + 1 && tv[j] == TagView::Entity(e);
                            if j == i {
                                assert(tv[i as int] == TagView::Entity(e));
                                assert(false);
                            }
                        }
                    }
                }
            },
        }
        i = i + 1;
    }
    let ghost rtags = r@;
    match ft {
        FactType::Relationship { entity_a, entity_b, .. } => {
            r.push(*entity_a);
            r.push(*entity_b);
            proof {
                assert(forall|j: int| 0 <= j < rtags.len() ==> r@[j] == #[trigger] rtags[j]);
                assert(r@[r@.len() - 2].0 == entity_a.0);
                assert(r@[r@.len() - 1].0 == entity_b.0);
                assert forall|e: u128| #[trigger] elist_has(r@, e) == (crate::fact::type_refs(
                    ft@,
                    e,
                ) || tv.contains(TagView::Entity(e))) by {
                    if elist_has(r@, e) {
                        let k = choose|k: int| 0 <= k < r@.len() && r@[k].0 == e;
                        if k < rtags.len() {
                            assert(elist_has(rtags, e));
                            let j = choose|j: int|
                                0 <= j < tv.len() && tv[j] == TagView::Entity(e);
                            assert(tv.contains(TagView::Entity(e)));
                        }
                    }
                    if tv.contains(TagView::Entity(e)) {
                        let j = choose|j: int| 0 <= j < tv.len() && tv[j] == TagView::Entity(e);
                        assert(elist_has(rtags, e));
                        let k = choose|k: int| 0 <= k < rtags.len() && rtags[k].0 == e;
                        assert(r@[k].0 == e);
                    }
                    if crate::fact::type_refs(ft@, e) {
                        assert(e == entity_a.0 || e == entity_b.0);
                    }
                }
            }
        },
        FactType::Secret { holder, .. } => {
            r.push(*holder);
            proof {
                assert(forall|j: int| 0 <= j < rtags.len() ==> r@[j] == #[trigger] rtags[j]);
                assert(r@[r@.len() - 1].0 == holder.0);
                assert forall|e: u128| #[trigger] elist_has(r@, e) == (crate::fact::type_refs(
                    ft@,
                    e,
                ) || tv.contains(TagView::Entity(e))) by {
                    if elist_has(r@, e) {
                        let k = choose|k: int| 0 <= k < r@.len() && r@[k].0 == e;
                        if k < rtags.len() {
                            assert(elist_has(rtags, e));
                            let j = choose|j: int|
                                0 <= j < tv.len() && tv[j] == TagView::Entity(e);
                            assert(tv.contains(TagView::Entity(e)));
                        }
                    }
                    if tv.contains(TagView::Entity(e)) {
                        let j = choose|j: int| 0 <= j < tv.len() && tv[j] == TagView::Entity(e);
                        assert(elist_has(rtags, e));
                        let k = choose|k: int| 0 <= k < rtags.len() && rtags[k].0 == e;
                        assert(r@[k].0 == e);
                    }
                }
            }
        },
        FactType::Trait { entity, .. } => {
            r.push(*entity);
            proof {
                assert(forall|j: int| 0 <= j < rtags.len() ==> r@[j] == #[trigger] rtags[j]);
                assert(r@[r@.len() - 1].0 == entity.0);
                assert forall|e: u128| #[trigger] elist_has(r@, e) == (crate::fact::type_refs(
                    ft@,
                    e,
                ) || tv.contains(TagView::Entity(e))) by {
                    if elist_has(r@, e) {
                        let k = choose|k: int| 0 <= k < r@.len() && r@[k].0 == e;
                        if k < rtags.len() {
                            assert(elist_has(rtags, e));
                            let j = choose|j: int|
                                0 <= j < tv.len() && tv[j] == TagView::Entity(e);
                            assert(tv.contains(TagView::Entity(e)));
                        }
                    }
                    if tv.contains(TagView::Entity(e)) {
                        let j = choose|j: int| 0 <= j < tv.len() && tv[j] == TagView::Entity(e);
                        assert(elist_has(rtags, e));
                        let k = choose|k: int| 0 <= k < rtags.len() && rtags[k].0 == e;
                        assert(r@[k].0 == e);
                    }
                }
            }
        },
        _ => {
            proof {
                assert forall|e: u128| #[trigger] elist_has(r@, e) == (crate::fact::type_refs(
                    ft@,
                    e,
                ) || tv.contains(TagView::Entity(e))) by {
                    if elist_has(r@, e) {
                        let j = choose|j: int| 0 <= j < tv.len() && tv[j] == TagView::Entity(e);
                        assert(tv.contains(TagView::Entity(e)));
                    }
                    if tv.contains(TagView::Entity(e)) {
                        let j = choose|j: int| 0 <= j < tv.len() && tv[j] == TagView::Entity(e);
                        assert(elist_has(r@, e));
                    }
                }
            }
        },
    }
    r
}

/// The fixed-point co-occurrence weight for a pair count.
fn co_weight_exec(c: usize) -> (w: u64)
    ensures
        w == co_weight(c as int),
        w <= UNIT,
{
    if c <= 1 {
        0
    } else if c == 2 {
        693_147
    } else {
        UNIT
    }
}

/// Whether the list already holds the unordered pair of the two tags.
fn pair_listed(r: &Vec<(Tag, Tag)>, a: &Tag, b: &Tag) -> (found: bool)
    ensures
        found == listed_upto(
            r@.map_values(|p: (Tag, Tag)| (p.0@, p.1@)),
            r@.len() as int,
            a@,
            b@,
        ),
{
    let ghost pv = r@.map_values(|p: (Tag, Tag)| (p.0@, p.1@));
    let mut k: usize = 0;
    while k < r.len()
        invariant
            k <= r@.len(),
            pv == r@.map_values(|p: (Tag, Tag)| (p.0@, p.1@)),
            pv.len() == r@.len(),
            forall|q: int| 0 <= q < k ==> !same_pair(#[trigger] pv[q], a@, b@),
        decreases r@.len() - k,
    {
        if (tag_eq(&r[k].0, a) && tag_eq(&r[k].1, b)) || (tag_eq(&r[k].0, b) && tag_eq(
            &r[k].1,
            a,
        )) {
            proof {
                assert(same_pair(pv[k as int], a@, b@));
            }
            return true;
        }
        k = k + 1;
    }
    false
}

/// The mathematical value of a knowledge graph: the stored facts and the
/// three indexes.
pub struct GraphView {
    pub facts: Seq<FactView>,
    pub tag_index: Seq<(TagView, Seq<u128>)>,
    pub associations: Seq<(TagView, Seq<AssocView>)>,
    pub entity_index: Seq<(u128, Seq<u128>)>,
}

/// The main knowledge graph structure.
///
/// The graph stores facts and associations between tags, with lookups by
/// tag, entity, and fact id.
#[derive(Debug)]
pub struct KnowledgeGraph {
    facts: Vec<Fact>,
    tag_to_facts: Vec<(Tag, Vec<FactId>)>,
    associations: Vec<(Tag, Vec<Association>)>,
    fact_by_entity: Vec<(EntityId, Vec<FactId>)>,
}

impl View for KnowledgeGraph {
    type V = GraphView;

    closed spec fn view(&self) -> GraphView {
        GraphView {
            facts: self.facts@.map_values(|f: Fact| f@),
            tag_index: self.tag_to_facts@.map_values(
                |p: (Tag, Vec<FactId>)| (p.0@, p.1@.map_values(|id: FactId| id.0)),
            ),
            associations: self.associations@.map_values(
                |p: (Tag, Vec<Association>)| (p.0@, p.1@.map_values(|a: Association| a@)),
            ),
            entity_index: self.fact_by_entity@.map_values(
                |p: (EntityId, Vec<FactId>)| (p.0.0, p.1@.map_values(|id: FactId| id.0)),
            ),
        }
    }
}

/// The graph's index-consistency invariant over its mathematical value.
pub open spec fn graph_wf(g: GraphView) -> bool {
    // stored facts: unique ids, valid tag sets and importances
    &&& fids_distinct(g.facts)
    &&& forall|i: int|
        0 <= i < g.facts.len() ==> (forall|a: int, b: int|
            0 <= a < b < (#[trigger] g.facts[i]).tags.len() ==> g.facts[i].tags[a]
                != g.facts[i].tags[b])
    &&& forall|i: int| 0 <= i < g.facts.len() ==> (#[trigger] g.facts[i]).importance <= UNIT
    // tag index: unique keys, unique bucket entries
    &&& tkeys_distinct(g.tag_index)
    &&& forall|k: int|
        0 <= k < g.tag_index.len() ==> (forall|a: int, b: int|
            0 <= a < b < (#[trigger] g.tag_index[k]).1.len() ==> g.tag_index[k].1[a]
                != g.tag_index[k].1[b])
    // every fact is indexed under each of its tags
    &&& forall|i: int, t: TagView|
        0 <= i < g.facts.len() && #[trigger] g.facts[i].tags.contains(t) ==> tbucket(
            g.tag_index,
            t,
        ).contains(g.facts[i].id)
    // every tag-index entry points at a live fact carrying that tag
    &&& forall|k: int, j: int|
        0 <= k < g.tag_index.len() && 0 <= j < g.tag_index[k].1.len() ==> has_fid(
            g.facts,
            #[trigger] g.tag_index[k].1[j],
        ) && fact_of(g.facts, g.tag_index[k].1[j]).tags.contains(g.tag_index[k].0)
    // entity index: unique keys, unique bucket entries
    &&& ekeys_distinct(g.entity_index)
    &&& forall|k: int|
        0 <= k < g.entity_index.len() ==> (forall|a: int, b: int|
            0 <= a < b < (#[trigger] g.entity_index[k]).1.len() ==> g.entity_index[k].1[a]
                != g.entity_index[k].1[b])
    // every fact is indexed under each entity it refers to
    &&& forall|i: int, e: u128|
        0 <= i < g.facts.len() && #[trigger] fact_refs(g.facts[i], e) ==> ebucket(
            g.entity_index,
            e,
        ).contains(g.facts[i].id)
    // every entity-index entry points at a live fact referring to that entity
    &&& forall|k: int, j: int|
        0 <= k < g.entity_index.len() && 0 <= j < g.entity_index[k].1.len() ==> has_fid(
            g.facts,
            #[trigger] g.entity_index[k].1[j],
        ) && fact_refs(fact_of(g.facts, g.entity_index[k].1[j]), g.entity_index[k].0)
    // adjacency list: unique keys, unique targets, weights within [0, UNIT]
    &&& akeys_distinct(g.associations)
    &&& forall|k: int|
        0 <= k < g.associations.len() ==> btargets_distinct((#[trigger] g.associations[k]).1)
    &&& forall|k: int, j: int|
        0 <= k < g.associations.len() && 0 <= j < g.associations[k].1.len()
            ==> (#[trigger] g.associations[k].1[j]).weight <= UNIT
}

impl KnowledgeGraph {
    /// The graph's index-consistency invariant.
    pub open spec fn wf(&self) -> bool {
        graph_wf(self@)
    }

    /// Create a new empty knowledge graph.
    pub fn new() -> (r: Self)
        ensures
            r.wf(),
            r@.facts.len() == 0,
            r@.tag_index.len() == 0,
            r@.associations.len() == 0,
            r@.entity_index.len() == 0,
    {
        let r = KnowledgeGraph {
            facts: Vec::new(),
            tag_to_facts: Vec::new(),
            associations: Vec::new(),
            fact_by_entity: Vec::new(),
        };
        proof {
            assert(r@.facts.len() == 0);
            assert(r@.tag_index.len() == 0);
            assert(r@.associations.len() == 0);
            assert(r@.entity_index.len() == 0);
        }
        r
    }

    /// The position of a fact id in the fact list, if present.
    fn fact_index(&self, id: FactId) -> (r: Option<usize>)
        ensures
            match r {
                Some(i) => i < self@.facts.len() && self@.facts[i as int].id == id.0,
                None => !has_fid(self@.facts, id.0),
            },
    {
        let mut i: usize = 0;
        while i < self.facts.len()
            invariant
                i <= self.facts@.len(),
                self@.facts.len() == self.facts@.len(),
                forall|j: int| 0 <= j < i ==> self@.facts[j].id != id.0,
            decreases self.facts@.len() - i,
        {
            if self.facts[i].id.0 == id.0 {
                return Some(i);
            }
            i = i + 1;
        }
        None
    }

    /// Get a fact by id.
    pub fn get_fact(&self, id: FactId) -> (r: Option<&Fact>)
        requires
            self.wf(),
        ensures
            match r {
                Some(f) => has_fid(self@.facts, id.0) && f@ == fact_of(self@.facts, id.0),
                None => !has_fid(self@.facts, id.0),
            },
    {
        match self.fact_index(id) {
            Some(i) => {
                proof {
                    lemma_fact_at(self@.facts, i as int);
                }
                Some(&self.facts[i])
            },
            None => None,
        }
    }

    /// The total number of facts.
    pub fn fact_count(&self) -> (r: usize)
        ensures
            r == self@.facts.len(),
    {
        self.facts.len()
    }

    /// All facts in the knowledge base, in storage order.
    pub fn all_facts(&self) -> (r: Vec<&Fact>)
        ensures
            r@.len() == self@.facts.len(),
            forall|i: int| 0 <= i < r@.len() ==> (#[trigger] r@[i])@ == self@.facts[i],
    {
        let mut r: Vec<&Fact> = Vec::new();
        let mut i: usize = 0;
        while i < self.facts.len()
            invariant
                i <= self.facts@.len(),
                self@.facts.len() == self.facts@.len(),
                r@.len() == i,
                forall|j: int| 0 <= j < i ==> (#[trigger] r@[j])@ == self@.facts[j],
            decreases self.facts@.len() - i,
        {
            r.push(&self.facts[i]);
            i = i + 1;
        }
        r
    }

    /// All tags registered in the tag index, in insertion order.
    pub fn all_tags(&self) -> (r: Vec<&Tag>)
        ensures
            r@.len() == self@.tag_index.len(),
            forall|i: int| 0 <= i < r@.len() ==> (#[trigger] r@[i])@ == self@.tag_index[i].0,
    {
        let mut r: Vec<&Tag> = Vec::new();
        let mut i: usize = 0;
        while i < self.tag_to_facts.len()
            invariant
                i <= self.tag_to_facts@.len(),
                self@.tag_index.len() == self.tag_to_facts@.len(),
                r@.len() == i,
                forall|j: int| 0 <= j < i ==> (#[trigger] r@[j])@ == self@.tag_index[j].0,
            decreases self.tag_to_facts@.len() - i,
        {
            r.push(&self.tag_to_facts[i].0);
            i = i + 1;
        }
        r
    }

    /// All tags that carry out-edges, in insertion order.
    pub fn association_sources(&self) -> (r: Vec<&Tag>)
        ensures
            r@.len() == self@.associations.len(),
            forall|i: int|
                0 <= i < r@.len() ==> (#[trigger] r@[i])@ == self@.associations[i].0,
    {
        let mut r: Vec<&Tag> = Vec::new();
        let mut i: usize = 0;
        while i < self.associations.len()
            invariant
                i <= self.associations@.len(),
                self@.associations.len() == self.associations@.len(),
                r@.len() == i,
                forall|j: int| 0 <= j < i ==> (#[trigger] r@[j])@ == self@.associations[j].0,
            decreases self.associations@.len() - i,
        {
            r.push(&self.associations[i].0);
            i = i + 1;
        }
        r
    }

    /// The total number of indexed tags.
    pub fn tag_count(&self) -> (r: usize)
        ensures
            r == self@.tag_index.len(),
    {
        self.tag_to_facts.len()
    }

    /// Check if a tag is registered in the tag index.
    pub fn has_tag(&self, tag: &Tag) -> (r: bool)
        ensures
            r == thas(self@.tag_index, tag@),
    {
        let mut i: usize = 0;
        while i < self.tag_to_facts.len()
            invariant
                i <= self.tag_to_facts@.len(),
                self@.tag_index.len() == self.tag_to_facts@.len(),
                forall|j: int| 0 <= j < i ==> self@.tag_index[j].0 != tag@,
            decreases self.tag_to_facts@.len() - i,
        {
            if tag_eq(&self.tag_to_facts[i].0, tag) {
                proof {
                    assert(self@.tag_index[i as int].0 == tag@);
                }
                return true;
            }
            i = i + 1;
        }
        false
    }

    /// The position of a tag's bucket in the tag index, if present.
    fn tag_index_pos(&self, tag: &Tag) -> (r: Option<usize>)
        ensures
            match r {
                Some(i) => i < self@.tag_index.len() && self@.tag_index[i as int].0 == tag@,
                None => !thas(self@.tag_index, tag@),
            },
    {
        let mut i: usize = 0;
        while i < self.tag_to_facts.len()
            invariant
                i <= self.tag_to_facts@.len(),
                self@.tag_index.len() == self.tag_to_facts@.len(),
                forall|j: int| 0 <= j < i ==> self@.tag_index[j].0 != tag@,
            decreases self.tag_to_facts@.len() - i,
        {
            if tag_eq(&self.tag_to_facts[i].0, tag) {
                return Some(i);
            }
            i = i + 1;
        }
        None
    }

    /// The position of an entity's bucket in the entity index, if present.
    fn ent_index_pos(&self, e: EntityId) -> (r: Option<usize>)
        ensures
            match r {
                Some(i) => i < self@.entity_index.len() && self@.entity_index[i as int].0 == e.0,
                None => !ehas(self@.entity_index, e.0),
            },
    {
        let mut i: usize = 0;
        while i < self.fact_by_entity.len()
            invariant
                i <= self.fact_by_entity@.len(),
                self@.entity_index.len() == self.fact_by_entity@.len(),
                forall|j: int| 0 <= j < i ==> self@.entity_index[j].0 != e.0,
            decreases self.fact_by_entity@.len() - i,
        {
            if self.fact_by_entity[i].0.0 == e.0 {
                return Some(i);
            }
            i = i + 1;
        }
        None
    }

    /// The position of a tag's out-edge list, if present.
    fn assoc_index_pos(&self, tag: &Tag) -> (r: Option<usize>)
        ensures
            match r {
                Some(i) => i < self@.associations.len() && self@.associations[i as int].0 == tag@,
                None => !ahas(self@.associations, tag@),
            },
    {
        let mut i: usize = 0;
        while i < self.associations.len()
            invariant
                i <= self.associations@.len(),
                self@.associations.len() == self.associations@.len(),
                forall|j: int| 0 <= j < i ==> self@.associations[j].0 != tag@,
            decreases self.associations@.len() - i,
        {
            if tag_eq(&self.associations[i].0, tag) {
                return Some(i);
            }
            i = i + 1;
        }
        None
    }

    /// Append a fact id to the bucket of `tag`, creating the bucket if
    /// needed. The id must not already stand in that bucket.
    fn tag_bucket_push(&mut self, tag: &Tag, id: FactId)
        requires
            tkeys_distinct(old(self)@.tag_index),
            forall|k: int|
                0 <= k < old(self)@.tag_index.len() ==> (forall|a: int, b: int|
                    0 <= a < b < (#[trigger] old(self)@.tag_index[k]).1.len()
                        ==> old(self)@.tag_index[k].1[a] != old(self)@.tag_index[k].1[b]),
            !tbucket(old(self)@.tag_index, tag@).contains(id.0),
        ensures
            tkeys_distinct(final(self)@.tag_index),
            forall|k: int|
                0 <= k < final(self)@.tag_index.len() ==> (forall|a: int, b: int|
                    0 <= a < b < (#[trigger] final(self)@.tag_index[k]).1.len()
                        ==> final(self)@.tag_index[k].1[a] != final(self)@.tag_index[k].1[b]),
            tbucket(final(self)@.tag_index, tag@) == tbucket(old(self)@.tag_index, tag@).push(
                id.0,
            ),
            forall|u: TagView|
                u != tag@ ==> tbucket(final(self)@.tag_index, u) == tbucket(
                    old(self)@.tag_index,
                    u,
                ),
            forall|u: TagView|
                thas(final(self)@.tag_index, u) == (thas(old(self)@.tag_index, u) || u == tag@),
            final(self)@.facts == old(self)@.facts,
            final(self)@.associations == old(self)@.associations,
            final(self)@.entity_index == old(self)@.entity_index,
    {
        let ghost v0 = self@.tag_index;
        match self.tag_index_pos(tag) {
            Some(i) => {
                proof {
                    lemma_tag_at(v0, i as int);
                }
                let mut pair = self.tag_to_facts.remove(i);
                pair.1.push(id);
                let ghost newb = pair.1@.map_values(|x: FactId| x.0);
                self.tag_to_facts.insert(i, pair);
                proof {
                    let v1 = self@.tag_index;
                    assert(v1 =~= v0.update(i as int, (tag@, newb)));
                    assert(newb =~= v0[i as int].1.push(id.0));
                    assert(tkeys_distinct(v1)) by {
                        assert forall|a: int, b: int| 0 <= a < b < v1.len() implies v1[a].0
                            != v1[b].0 by {
                            if a != i as int && b != i as int {
                                assert(v1[a] == v0[a] && v1[b] == v0[b]);
                            } else if a == i as int {
                                assert(v1[b] == v0[b]);
                            } else {
                                assert(v1[a] == v0[a]);
                            }
                        }
                    }
                    lemma_tag_at(v1, i as int);
                    assert forall|k: int|
                        0 <= k < v1.len() implies (forall|a: int, b: int|
                        0 <= a < b < (#[trigger] v1[k]).1.len() ==> v1[k].1[a] != v1[k].1[b]) by {
                        if k != i as int {
                            assert(v1[k] == v0[k]);
                        } else {
                            assert forall|a: int, b: int| 0 <= a < b < v1[k].1.len() implies v1[k].1[a] != v1[k].1[b] by {
                                if b < v1[k].1.len() - 1 {
                                    assert(v1[k].1[a] == v0[i as int].1[a]);
                                    assert(v1[k].1[b] == v0[i as int].1[b]);
                                } else {
                                    assert(v1[k].1[a] == v0[i as int].1[a]);
                                    assert(v1[k].1[b] == id.0);
                                    assert(v0[i as int].1.contains(v0[i as int].1[a]));
                                }
                            }
                        }
                    }
                    assert forall|u: TagView| u != tag@ implies tbucket(v1, u) == tbucket(
                        v0,
                        u,
                    ) by {
                        if thas(v0, u) {
                            let k = tat(v0, u);
                            lemma_tag_at(v0, k);
                            assert(v1[k] == v0[k]);
                            lemma_tag_at(v1, k);
                        } else {
                            if thas(v1, u) {
                                let k = tat(v1, u);
                                assert(v0[k].0 == u);
                            }
                            assert(tbucket(v1, u) =~= tbucket(v0, u));
                        }
                    }
                    assert forall|u: TagView| thas(v1, u) == (thas(v0, u) || u == tag@) by {
                        if thas(v1, u) && u != tag@ {
                            let k = tat(v1, u);
                            assert(v0[k].0 == u);
                        }
                        if thas(v0, u) {
                            let k = tat(v0, u);
                            if k != i as int {
                                assert(v1[k].0 == u);
                            }
                        }
                    }
                }
            },
            None => {
                let mut bucket: Vec<FactId> = Vec::new();
                bucket.push(id);
                let ghost newb = bucket@.map_values(|x: FactId| x.0);
                self.tag_to_facts.push((tag.clone(), bucket));
                proof {
                    let v1 = self@.tag_index;
                    assert(v1 =~= v0.push((tag@, newb)));
                    assert(newb =~= Seq::<u128>::empty().push(id.0));
                    assert(forall|k: int| 0 <= k < v0.len() ==> v1[k] == #[trigger] v0[k]);
                    assert(tkeys_distinct(v1)) by {
                        assert forall|a: int, b: int| 0 <= a < b < v1.len() implies v1[a].0
                            != v1[b].0 by {
                            if b < v1.len() - 1 {
                                assert(v1[a] == v0[a] && v1[b] == v0[b]);
                            } else {
                                assert(v1[a] == v0[a]);
                                if v0[a].0 == tag@ {
                                    assert(thas(v0, tag@));
                                }
                            }
                        }
                    }
                    lemma_tag_at(v1, v1.len() - 1);
                    assert(tbucket(v0, tag@) =~= Seq::<u128>::empty());
                    assert(tbucket(v1, tag@) =~= tbucket(v0, tag@).push(id.0));
                    assert forall|k: int|
                        0 <= k < v1.len() implies (forall|a: int, b: int|
                        0 <= a < b < (#[trigger] v1[k]).1.len() ==> v1[k].1[a] != v1[k].1[b]) by {
                        if k < v1.len() - 1 {
                            assert(v1[k] == v0[k]);
                        } else {
                            assert(v1[k].1.len() == 1);
                        }
                    }
                    assert forall|u: TagView| u != tag@ implies tbucket(v1, u) == tbucket(
                        v0,
                        u,
                    ) by {
                        if thas(v0, u) {
                            let k = tat(v0, u);
                            lemma_tag_at(v0, k);
                            assert(v1[k] == v0[k]);
                            lemma_tag_at(v1, k);
                        } else {
                            if thas(v1, u) {
                                let k = tat(v1, u);
                                assert(k < v0.len());
                                assert(v0[k].0 == u);
                            }
                            assert(tbucket(v1, u) =~= tbucket(v0, u));
                        }
                    }
                    assert forall|u: TagView| thas(v1, u) == (thas(v0, u) || u == tag@) by {
                        if thas(v1, u) && u != tag@ {
                            let k = tat(v1, u);
                            assert(k < v0.len());
                            assert(v0[k].0 == u);
                        }
                        if thas(v0, u) {
                            let k = tat(v0, u);
                            assert(v1[k].0 == u);
                        }
                        assert(v1[v1.len() - 1].0 == tag@);
                    }
                }
            },
        }
    }

    /// Ensure a fact id stands in the bucket of entity `e`, creating the
    /// bucket if needed; adding an id already present changes nothing.
    fn ent_bucket_add(&mut self, e: EntityId, id: FactId)
        requires
            ekeys_distinct(old(self)@.entity_index),
            forall|k: int|
                0 <= k < old(self)@.entity_index.len() ==> (forall|a: int, b: int|
                    0 <= a < b < (#[trigger] old(self)@.entity_index[k]).1.len()
                        ==> old(self)@.entity_index[k].1[a] != old(self)@.entity_index[k].1[b]),
        ensures
            ekeys_distinct(final(self)@.entity_index),
            forall|k: int|
                0 <= k < final(self)@.entity_index.len() ==> (forall|a: int, b: int|
                    0 <= a < b < (#[trigger] final(self)@.entity_index[k]).1.len()
                        ==> final(self)@.entity_index[k].1[a] != final(self)@.entity_index[k].1[b]),
            ebucket(final(self)@.entity_index, e.0) == ebucket(old(self)@.entity_index, e.0)
                || ebucket(final(self)@.entity_index, e.0) == ebucket(
                old(self)@.entity_index,
                e.0,
            ).push(id.0),
            ebucket(final(self)@.entity_index, e.0).contains(id.0),
            forall|u: u128|
                u != e.0 ==> ebucket(final(self)@.entity_index, u) == ebucket(
                    old(self)@.entity_index,
                    u,
                ),
            forall|u: u128|
                ehas(final(self)@.entity_index, u) == (ehas(old(self)@.entity_index, u) || u
                    == e.0),
            final(self)@.facts == old(self)@.facts,
            final(self)@.associations == old(self)@.associations,
            final(self)@.tag_index == old(self)@.tag_index,
    {
        let ghost v0 = self@.entity_index;
        match self.ent_index_pos(e) {
            Some(i) => {
                proof {
                    lemma_ent_at(v0, i as int);
                }
                // look for the id in the bucket
                let mut found = false;
                let mut j: usize = 0;
                let n = self.fact_by_entity[i].1.len();
                while j < n
                    invariant
                        j <= n,
                        i < self.fact_by_entity@.len(),
                        self@.entity_index == v0,
                        self@.entity_index.len() == self.fact_by_entity@.len(),
                        n == v0[i as int].1.len(),
                        n == self.fact_by_entity@[i as int].1@.len(),
                        found ==> v0[i as int].1.contains(id.0),
                        !found ==> (forall|q: int| 0 <= q < j ==> v0[i as int].1[q] != id.0),
                    decreases n - j,
                {
                    if self.fact_by_entity[i].1[j].0 == id.0 {
                        proof {
                            assert(v0[i as int].1[j as int] == id.0);
                        }
                        found = true;
                    }
                    j = j + 1;
                }
                if found {
                    proof {
                        assert(ebucket(v0, e.0).contains(id.0));
                    }
                    return ;
                }
                proof {
                    assert(!v0[i as int].1.contains(id.0));
                }
                let mut pair = self.fact_by_entity.remove(i);
                pair.1.push(id);
                let ghost newb = pair.1@.map_values(|x: FactId| x.0);
                self.fact_by_entity.insert(i, pair);
                proof {
                    let v1 = self@.entity_index;
                    assert(v1 =~= v0.update(i as int, (e.0, newb)));
                    assert(newb =~= v0[i as int].1.push(id.0));
                    assert(ekeys_distinct(v1)) by {
                        assert forall|a: int, b: int| 0 <= a < b < v1.len() implies v1[a].0
                            != v1[b].0 by {
                            if a != i as int && b != i as int {
                                assert(v1[a] == v0[a] && v1[b] == v0[b]);
                            } else if a == i as int {
                                assert(v1[b] == v0[b]);
                            } else {
                                assert(v1[a] == v0[a]);
                            }
                        }
                    }
                    lemma_ent_at(v1, i as int);
                    assert(ebucket(v1, e.0).contains(id.0)) by {
                        assert(ebucket(v1, e.0)[ebucket(v1, e.0).len() - 1] == id.0);
                    }
                    assert forall|k: int|
                        0 <= k < v1.len() implies (forall|a: int, b: int|
                        0 <= a < b < (#[trigger] v1[k]).1.len() ==> v1[k].1[a] != v1[k].1[b]) by {
                        if k != i as int {
                            assert(v1[k] == v0[k]);
                        } else {
                            assert forall|a: int, b: int| 0 <= a < b < v1[k].1.len() implies v1[k].1[a] != v1[k].1[b] by {
                                if b < v1[k].1.len() - 1 {
                                    assert(v1[k].1[a] == v0[i as int].1[a]);
                                    assert(v1[k].1[b] == v0[i as int].1[b]);
                                } else {
                                    assert(v1[k].1[a] == v0[i as int].1[a]);
                                    assert(v1[k].1[b] == id.0);
                                    assert(v0[i as int].1.contains(v0[i as int].1[a]));
                                }
                            }
                        }
                    }
                    assert forall|u: u128| u != e.0 implies ebucket(v1, u) == ebucket(v0, u) by {
                        if ehas(v0, u) {
                            let k = eat(v0, u);
                            lemma_ent_at(v0, k);
                            assert(v1[k] == v0[k]);
                            lemma_ent_at(v1, k);
                        } else {
                            if ehas(v1, u) {
                                let k = eat(v1, u);
                                assert(v0[k].0 == u);
                            }
                            assert(ebucket(v1, u) =~= ebucket(v0, u));
                        }
                    }
                    assert forall|u: u128| ehas(v1, u) == (ehas(v0, u) || u == e.0) by {
                        if ehas(v1, u) && u != e.0 {
                            let k = eat(v1, u);
                            assert(v0[k].0 == u);
                        }
                        if ehas(v0, u) {
                            let k = eat(v0, u);
                            if k != i as int {
                                assert(v1[k].0 == u);
                            }
                        }
                    }
                }
            },
            None => {
                let mut bucket: Vec<FactId> = Vec::new();
                bucket.push(id);
                let ghost newb = bucket@.map_values(|x: FactId| x.0);
                self.fact_by_entity.push((e, bucket));
                proof {
                    let v1 = self@.entity_index;
                    assert(v1 =~= v0.push((e.0, newb)));
                    assert(newb =~= Seq::<u128>::empty().push(id.0));
                    assert(forall|k: int| 0 <= k < v0.len() ==> v1[k] == #[trigger] v0[k]);
                    assert(ekeys_distinct(v1)) by {
                        assert forall|a: int, b: int| 0 <= a < b < v1.len() implies v1[a].0
                            != v1[b].0 by {
                            if b < v1.len() - 1 {
                                assert(v1[a] == v0[a] && v1[b] == v0[b]);
                            } else {
                                assert(v1[a] == v0[a]);
                                if v0[a].0 == e.0 {
                                    assert(ehas(v0, e.0));
                                }
                            }
                        }
                    }
                    lemma_ent_at(v1, v1.len() - 1);
                    assert(ebucket(v0, e.0) =~= Seq::<u128>::empty());
                    assert(ebucket(v1, e.0) =~= ebucket(v0, e.0).push(id.0));
                    assert(ebucket(v1, e.0).contains(id.0)) by {
                        assert(ebucket(v1, e.0)[0] == id.0);
                    }
                    assert forall|k: int|
                        0 <= k < v1.len() implies (forall|a: int, b: int|
                        0 <= a < b < (#[trigger] v1[k]).1.len() ==> v1[k].1[a] != v1[k].1[b]) by {
                        if k < v1.len() - 1 {
                            assert(v1[k] == v0[k]);
                        } else {
                            assert(v1[k].1.len() == 1);
                        }
                    }
                    assert forall|u: u128| u != e.0 implies ebucket(v1, u) == ebucket(v0, u) by {
                        if ehas(v0, u) {
                            let k = eat(v0, u);
                            lemma_ent_at(v0, k);
                            assert(v1[k] == v0[k]);
                            lemma_ent_at(v1, k);
                        } else {
                            if ehas(v1, u) {
                                let k = eat(v1, u);
                                assert(k < v0.len());
                                assert(v0[k].0 == u);
                            }
                            assert(ebucket(v1, u) =~= ebucket(v0, u));
                        }
                    }
                    assert forall|u: u128| ehas(v1, u) == (ehas(v0, u) || u == e.0) by {
                        if ehas(v1, u) && u != e.0 {
                            let k = eat(v1, u);
                            assert(k < v0.len());
                            assert(v0[k].0 == u);
                        }
                        if ehas(v0, u) {
                            let k = eat(v0, u);
                            assert(v1[k].0 == u);
                        }
                        assert(v1[v1.len() - 1].0 == e.0);
                    }
                }
            },
        }
    }

    /// Remove a fact id from the bucket of one tag, if both exist.
    fn tag_bucket_strip(&mut self, tag: &Tag, id: FactId)
        requires
            tkeys_distinct(old(self)@.tag_index),
            forall|k: int|
                0 <= k < old(self)@.tag_index.len() ==> (forall|a: int, b: int|
                    0 <= a < b < (#[trigger] old(self)@.tag_index[k]).1.len()
                        ==> old(self)@.tag_index[k].1[a] != old(self)@.tag_index[k].1[b]),
        ensures
            tkeys_distinct(final(self)@.tag_index),
            forall|k: int|
                0 <= k < final(self)@.tag_index.len() ==> (forall|a: int, b: int|
                    0 <= a < b < (#[trigger] final(self)@.tag_index[k]).1.len()
                        ==> final(self)@.tag_index[k].1[a] != final(self)@.tag_index[k].1[b]),
            forall|u: TagView|
                thas(final(self)@.tag_index, u) == thas(old(self)@.tag_index, u),
            forall|x: u128|
                #[trigger] tbucket(final(self)@.tag_index, tag@).contains(x) == (tbucket(
                    old(self)@.tag_index,
                    tag@,
                ).contains(x) && x != id.0),
            forall|u: TagView|
                u != tag@ ==> tbucket(final(self)@.tag_index, u) == tbucket(
                    old(self)@.tag_index,
                    u,
                ),
            final(self)@.facts == old(self)@.facts,
            final(self)@.associations == old(self)@.associations,
            final(self)@.entity_index == old(self)@.entity_index,
    {
        let ghost v0 = self@.tag_index;
        match self.tag_index_pos(tag) {
            Some(i) => {
                proof {
                    lemma_tag_at(v0, i as int);
                }
                let mut pair = self.tag_to_facts.remove(i);
                let ghost oldb = bids(pair.1@);
                proof {
                    assert(oldb == v0[i as int].1);
                    assert forall|a: int, b: int| 0 <= a < b < pair.1@.len() implies pair.1@[a].0
                        != pair.1@[b].0 by {
                        assert(v0[i as int].1[a] == pair.1@[a].0);
                        assert(v0[i as int].1[b] == pair.1@[b].0);
                    }
                }
                bucket_remove_id(&mut pair.1, id);
                let ghost newb = bids(pair.1@);
                self.tag_to_facts.insert(i, pair);
                proof {
                    let v1 = self@.tag_index;
                    assert(v1 =~= v0.update(i as int, (tag@, newb)));
                    assert(oldb == v0[i as int].1);
                    assert(tkeys_distinct(v1)) by {
                        assert forall|a: int, b: int| 0 <= a < b < v1.len() implies v1[a].0
                            != v1[b].0 by {
                            if a != i as int && b != i as int {
                                assert(v1[a] == v0[a] && v1[b] == v0[b]);
                            } else if a == i as int {
                                assert(v1[b] == v0[b]);
                            } else {
                                assert(v1[a] == v0[a]);
                            }
                        }
                    }
                    lemma_tag_at(v1, i as int);
                    assert forall|k: int|
                        0 <= k < v1.len() implies (forall|a: int, b: int|
                        0 <= a < b < (#[trigger] v1[k]).1.len() ==> v1[k].1[a] != v1[k].1[b]) by {
                        if k != i as int {
                            assert(v1[k] == v0[k]);
                        }
                    }
                    assert forall|u: TagView| thas(v1, u) == thas(v0, u) by {
                        if thas(v1, u) {
                            let k = tat(v1, u);
                            if k != i as int {
                                assert(v0[k].0 == u);
                            }
                        }
                        if thas(v0, u) {
                            let k = tat(v0, u);
                            if k != i as int {
                                assert(v1[k].0 == u);
                            } else {
                                assert(v1[i as int].0 == u);
                            }
                        }
                    }
                    assert forall|u: TagView| u != tag@ implies tbucket(v1, u) == tbucket(
                        v0,
                        u,
                    ) by {
                        if thas(v0, u) {
                            let k = tat(v0, u);
                            lemma_tag_at(v0, k);
                            assert(v1[k] == v0[k]);
                            lemma_tag_at(v1, k);
                        } else {
                            assert(!thas(v1, u));
                            assert(tbucket(v1, u) =~= tbucket(v0, u));
                        }
                    }
                }
            },
            None => {
                proof {
                    assert(tbucket(v0, tag@) =~= Seq::<u128>::empty());
                    assert forall|x: u128| #[trigger] tbucket(self@.tag_index, tag@).contains(
                        x,
                    ) == (tbucket(v0, tag@).contains(x) && x != id.0) by {
                        assert(!tbucket(v0, tag@).contains(x));
                    }
                }
            },
        }
    }

    /// Remove a fact id from every entity bucket.
    fn ent_strip_all(&mut self, id: FactId)
        requires
            ekeys_distinct(old(self)@.entity_index),
            forall|k: int|
                0 <= k < old(self)@.entity_index.len() ==> (forall|a: int, b: int|
                    0 <= a < b < (#[trigger] old(self)@.entity_index[k]).1.len()
                        ==> old(self)@.entity_index[k].1[a] != old(self)@.entity_index[k].1[b]),
        ensures
            ekeys_distinct(final(self)@.entity_index),
            forall|k: int|
                0 <= k < final(self)@.entity_index.len() ==> (forall|a: int, b: int|
                    0 <= a < b < (#[trigger] final(self)@.entity_index[k]).1.len()
                        ==> final(self)@.entity_index[k].1[a] != final(self)@.entity_index[k].1[b]),
            forall|u: u128| ehas(final(self)@.entity_index, u) == ehas(old(self)@.entity_index, u),
            forall|u: u128, x: u128|
                #[trigger] ebucket(final(self)@.entity_index, u).contains(x) == (ebucket(
                    old(self)@.entity_index,
                    u,
                ).contains(x) && x != id.0),
            final(self)@.facts == old(self)@.facts,
            final(self)@.associations == old(self)@.associations,
            final(self)@.tag_index == old(self)@.tag_index,
    {
        let ghost v0 = self@.entity_index;
        let mut i: usize = 0;
        let n = self.fact_by_entity.len();
        while i < n
            invariant
                i <= n,
                n == self.fact_by_entity@.len(),
                self@.entity_index.len() == n,
                v0.len() == n,
                self@.facts == old(self)@.facts,
                self@.associations == old(self)@.associations,
                self@.tag_index == old(self)@.tag_index,
                v0 == old(self)@.entity_index,
                ekeys_distinct(v0),
                forall|k: int|
                    0 <= k < v0.len() ==> (forall|a: int, b: int|
                        0 <= a < b < (#[trigger] v0[k]).1.len() ==> v0[k].1[a] != v0[k].1[b]),
                forall|k: int| 0 <= k < n ==> (#[trigger] self@.entity_index[k]).0 == v0[k].0,
                forall|k: int| i <= k < n ==> #[trigger] self@.entity_index[k] == v0[k],
                forall|k: int|
                    0 <= k < i ==> (forall|a: int, b: int|
                        0 <= a < b < (#[trigger] self@.entity_index[k]).1.len()
                            ==> self@.entity_index[k].1[a] != self@.entity_index[k].1[b]),
                forall|k: int, x: u128|
                    0 <= k < i ==> (#[trigger] self@.entity_index[k].1.contains(x)) == (
                    v0[k].1.contains(x) && x != id.0),
            decreases n - i,
        {
            let ghost rawpre = self.fact_by_entity@;
            let ghost vpre = self@.entity_index;
            let mut pair = self.fact_by_entity.remove(i);
            proof {
                assert(bids(pair.1@) == vpre[i as int].1);
                assert(vpre[i as int] == v0[i as int]);
                assert forall|a: int, b: int| 0 <= a < b < pair.1@.len() implies pair.1@[a].0
                    != pair.1@[b].0 by {
                    assert(v0[i as int].1[a] == pair.1@[a].0);
                    assert(v0[i as int].1[b] == pair.1@[b].0);
                }
            }
            bucket_remove_id(&mut pair.1, id);
            let ghost newb = bids(pair.1@);
            let ghost praw = pair.1@;
            let ghost pv = pair;
            self.fact_by_entity.insert(i, pair);
            proof {
                let v1 = self@.entity_index;
                let fi = i as int;
                let rawmid = rawpre.remove(fi);
                rawpre.remove_ensures(fi);
                rawmid.insert_ensures(fi, pv);
                assert(pv.0 == rawpre[fi].0);
                assert forall|k: int| 0 <= k < n && k != fi implies self.fact_by_entity@[k]
                    == rawpre[k] by {
                    if k < fi {
                        assert(self.fact_by_entity@[k] == rawmid[k]);
                        assert(rawmid[k] == rawpre[k]);
                    } else {
                        assert(self.fact_by_entity@[k] == rawmid[k - 1]);
                        assert(rawmid[k - 1] == rawpre[k]);
                    }
                }
                assert(self.fact_by_entity@[fi] == pv);
                assert(v1.len() == n);
                assert(v1[fi].0 == v0[fi].0);
                assert(v1[fi].1 == newb);
                assert forall|k: int| 0 <= k < n && k != fi implies #[trigger] v1[k]
                    == vpre[k] by {
                    assert(self.fact_by_entity@[k] == rawpre[k]);
                }
                assert(forall|k: int| 0 <= k < n ==> (#[trigger] v1[k]).0 == v0[k].0);
                assert forall|k: int, x: u128| 0 <= k < i + 1 implies (#[trigger] v1[
                k].1.contains(x)) == (v0[k].1.contains(x) && x != id.0) by {
                    if k < fi {
                        assert(v1[k] == vpre[k]);
                        assert(vpre[k].1.contains(x) == (v0[k].1.contains(x) && x != id.0));
                    } else {
                        assert(v1[k].1 == newb);
                        assert(newb.contains(x) == (bids(rawpre[fi].1@).contains(x) && x
                            != id.0));
                        assert(bids(rawpre[fi].1@) == v0[fi].1);
                    }
                }
                assert forall|k: int|
                    0 <= k < i + 1 implies (forall|a: int, b: int|
                    0 <= a < b < (#[trigger] v1[k]).1.len() ==> v1[k].1[a] != v1[k].1[b]) by {
                    if k < fi {
                        assert(v1[k] == vpre[k]);
                    } else {
                        assert(v1[k].1 == newb);
                        assert forall|a: int, b: int| 0 <= a < b < newb.len() implies newb[a]
                            != newb[b] by {
                            assert(newb[a] == praw[a].0);
                            assert(newb[b] == praw[b].0);
                        }
                    }
                }
            }
            i = i + 1;
        }
        proof {
            let v1 = self@.entity_index;
            assert(ekeys_distinct(v1)) by {
                assert forall|a: int, b: int| 0 <= a < b < v1.len() implies v1[a].0 != v1[b].0 by {
                    assert(v1[a].0 == v0[a].0);
                    assert(v1[b].0 == v0[b].0);
                }
            }
            assert forall|u: u128| ehas(v1, u) == ehas(v0, u) by {
                if ehas(v1, u) {
                    let k = eat(v1, u);
                    assert(v0[k].0 == u);
                }
                if ehas(v0, u) {
                    let k = eat(v0, u);
                    assert(v1[k].0 == u);
                }
            }
            assert forall|u: u128, x: u128| #![trigger ebucket(v1, u).contains(x)] ebucket(
                v1,
                u,
            ).contains(x) == (ebucket(v0, u).contains(x) && x != id.0) by {
                if ehas(v0, u) {
                    let k = eat(v0, u);
                    lemma_ent_at(v0, k);
                    lemma_ent_at(v1, k);
                } else {
                    assert(!ehas(v1, u));
                    assert(ebucket(v1, u) =~= Seq::<u128>::empty());
                    assert(ebucket(v0, u) =~= Seq::<u128>::empty());
                }
            }
        }
    }

    /// Remove a fact from the knowledge base, stripping it from every
    /// index. Returns the removed fact, or nothing when the id is
    /// unknown.
    pub fn remove_fact(&mut self, id: FactId) -> (r: Option<Fact>)
        requires
            old(self).wf(),
        ensures
            final(self).wf(),
            final(self)@.associations == old(self)@.associations,
            match r {
                Some(f) => {
                    &&& has_fid(old(self)@.facts, id.0)
                    &&& f@ == fact_of(old(self)@.facts, id.0)
                    &&& !has_fid(final(self)@.facts, id.0)
                    &&& forall|u: u128|
                        u != id.0 ==> has_fid(final(self)@.facts, u) == has_fid(
                            old(self)@.facts,
                            u,
                        )
                    &&& forall|u: u128|
                        u != id.0 && has_fid(old(self)@.facts, u) ==> fact_of(
                            final(self)@.facts,
                            u,
                        ) == fact_of(old(self)@.facts, u)
                },
                None => !has_fid(old(self)@.facts, id.0) && *final(self) == *old(self),
            },
    {
        let ghost g0 = self@;
        let found = self.fact_index(id);
        match found {
            None => None,
            Some(i) => {
                proof {
                    lemma_fact_at(g0.facts, i as int);
                }
                let ghost rawf = self.facts@;
                let fact = self.facts.remove(i);
                let ghost fv = fact@;
                proof {
                    rawf.remove_ensures(i as int);
                    assert(self@.facts =~= g0.facts.remove(i as int));
                    lemma_facts_remove_frame(g0.facts, i as int);
                    assert(fv == g0.facts[i as int]);
                    assert(fv.id == id.0);
                }
                let ghost facts1 = self@.facts;
                let ghost tv = fv.tags;
                // strip the fact from the buckets of its tags
                let mut ti: usize = 0;
                let ntags = fact.tags.len();
                proof {
                    assert(tv.take(0) =~= Seq::<TagView>::empty());
                }
                while ti < ntags
                    invariant
                        ti <= ntags,
                        ntags == fact.tags@.len(),
                        fact@.tags == tv,
                        tv.len() == ntags,
                        self@.facts == facts1,
                        self@.associations == g0.associations,
                        self@.entity_index == g0.entity_index,
                        tkeys_distinct(self@.tag_index),
                        forall|k: int|
                            0 <= k < self@.tag_index.len() ==> (forall|a: int, b: int|
                                0 <= a < b < (#[trigger] self@.tag_index[k]).1.len()
                                    ==> self@.tag_index[k].1[a] != self@.tag_index[k].1[b]),
                        forall|u: TagView| thas(self@.tag_index, u) == thas(g0.tag_index, u),
                        forall|u: TagView, x: u128|
                            #[trigger] tbucket(self@.tag_index, u).contains(x) == (tbucket(
                                g0.tag_index,
                                u,
                            ).contains(x) && !(x == id.0 && tv.take(ti as int).contains(u))),
                    decreases ntags - ti,
                {
                    let ghost pre = self@.tag_index;
                    let t = &fact.tags[ti];
                    proof {
                        assert(t@ == tv[ti as int]);
                    }
                    self.tag_bucket_strip(t, id);
                    proof {
                        let cur = self@.tag_index;
                        assert(tv.take(ti + 1) =~= tv.take(ti as int).push(tv[ti as int]));
                        assert forall|u: TagView, x: u128|
                            #[trigger] tbucket(cur, u).contains(x) == (tbucket(
                                g0.tag_index,
                                u,
                            ).contains(x) && !(x == id.0 && tv.take(ti + 1).contains(u))) by {
                            crate::fact::lemma_tagseq_contains_push(
                                tv.take(ti as int),
                                tv[ti as int],
                                u,
                            );
                            if u == tv[ti as int] {
                                assert(tbucket(cur, u).contains(x) == (tbucket(pre, u).contains(
                                    x,
                                ) && x != id.0));
                            } else {
                                assert(tbucket(cur, u) == tbucket(pre, u));
                            }
                        }
                    }
                    ti = ti + 1;
                }
                proof {
                    assert(tv.take(ntags as int) =~= tv);
                }
                // strip the fact from every entity bucket
                self.ent_strip_all(id);
                proof {
                    let g1 = self@;
                    // the id survives in no tag bucket
                    assert forall|u: TagView| !(#[trigger] tbucket(g1.tag_index, u).contains(
                        id.0,
                    )) by {
                        if tbucket(g1.tag_index, u).contains(id.0) {
                            assert(tv.contains(u));
                        }
                    }
                    // facts kept: each is an original fact other than the removed one
                    assert forall|k: int| 0 <= k < facts1.len() implies (exists|k0: int|
                        0 <= k0 < g0.facts.len() && #[trigger] facts1[k] == g0.facts[k0] && k0
                            != i) by {
                        let k0: int = if k < i {
                            k
                        } else {
                            k + 1
                        };
                        assert(facts1[k] == g0.facts[k0]);
                    }
                    assert(graph_wf(g1)) by {
                        assert(fids_distinct(g1.facts));
                        assert forall|k: int|
                            0 <= k < g1.facts.len() implies (forall|a: int, b: int|
                            0 <= a < b < (#[trigger] g1.facts[k]).tags.len() ==> g1.facts[k].tags[a]
                                != g1.facts[k].tags[b]) && (#[trigger] g1.facts[k]).importance
                            <= UNIT by {
                            let k0 = choose|k0: int|
                                0 <= k0 < g0.facts.len() && facts1[k] == g0.facts[k0] && k0 != i;
                            assert(g0.facts[k0].importance <= UNIT);
                        }
                        assert forall|k: int, t: TagView|
                            0 <= k < g1.facts.len() && #[trigger] g1.facts[k].tags.contains(t)
                                implies tbucket(g1.tag_index, t).contains(g1.facts[k].id) by {
                            let k0 = choose|k0: int|
                                0 <= k0 < g0.facts.len() && facts1[k] == g0.facts[k0] && k0 != i;
                            lemma_fact_at(g0.facts, k0);
                            assert(has_fid(facts1, facts1[k].id)) by {
                                assert(facts1[k].id == facts1[k].id);
                            }
                            assert(facts1[k].id != id.0) by {
                                if facts1[k].id == id.0 {
                                    assert(g0.facts[k0].id == g0.facts[i as int].id);
                                }
                            }
                            assert(tbucket(g0.tag_index, t).contains(g0.facts[k0].id));
                        }
                        assert forall|k: int, j: int|
                            0 <= k < g1.tag_index.len() && 0 <= j < g1.tag_index[k].1.len()
                                implies has_fid(g1.facts, #[trigger] g1.tag_index[k].1[j])
                            && fact_of(g1.facts, g1.tag_index[k].1[j]).tags.contains(
                            g1.tag_index[k].0,
                        ) by {
                            let u = g1.tag_index[k].0;
                            let x = g1.tag_index[k].1[j];
                            lemma_tag_at(g1.tag_index, k);
                            assert(tbucket(g1.tag_index, u).contains(x)) by {
                                assert(tbucket(g1.tag_index, u)[j] == x);
                            }
                            assert(x != id.0);
                            assert(tbucket(g0.tag_index, u).contains(x));
                            assert(thas(g0.tag_index, u));
                            let k0 = tat(g0.tag_index, u);
                            lemma_tag_at(g0.tag_index, k0);
                            let j0 = choose|j0: int|
                                0 <= j0 < g0.tag_index[k0].1.len() && g0.tag_index[k0].1[j0] == x;
                            assert(has_fid(g0.facts, g0.tag_index[k0].1[j0]));
                            assert(fact_of(g0.facts, x).tags.contains(u));
                        }
                        assert forall|k: int, e: u128|
                            0 <= k < g1.facts.len() && #[trigger] fact_refs(g1.facts[k], e)
                                implies ebucket(g1.entity_index, e).contains(g1.facts[k].id) by {
                            let k0 = choose|k0: int|
                                0 <= k0 < g0.facts.len() && facts1[k] == g0.facts[k0] && k0 != i;
                            lemma_fact_at(g0.facts, k0);
                            assert(facts1[k].id != id.0) by {
                                if facts1[k].id == id.0 {
                                    assert(g0.facts[k0].id == g0.facts[i as int].id);
                                }
                            }
                            assert(fact_refs(g0.facts[k0], e));
                            assert(ebucket(g0.entity_index, e).contains(g0.facts[k0].id));
                        }
                        assert forall|k: int, j: int|
                            0 <= k < g1.entity_index.len() && 0 <= j < g1.entity_index[k].1.len()
                                implies has_fid(g1.facts, #[trigger] g1.entity_index[k].1[j])
                            && fact_refs(
                            fact_of(g1.facts, g1.entity_index[k].1[j]),
                            g1.entity_index[k].0,
                        ) by {
                            let e = g1.entity_index[k].0;
                            let x = g1.entity_index[k].1[j];
                            lemma_ent_at(g1.entity_index, k);
                            assert(ebucket(g1.entity_index, e).contains(x)) by {
                                assert(ebucket(g1.entity_index, e)[j] == x);
                            }
                            assert(ebucket(g0.entity_index, e).contains(x) && x != id.0);
                            assert(ehas(g0.entity_index, e));
                            let k0 = eat(g0.entity_index, e);
                            lemma_ent_at(g0.entity_index, k0);
                            let j0 = choose|j0: int|
                                0 <= j0 < g0.entity_index[k0].1.len() && g0.entity_index[k0].1[j0]
                                    == x;
                            assert(has_fid(g0.facts, g0.entity_index[k0].1[j0]));
                            assert(fact_refs(fact_of(g0.facts, x), e));
                        }
                    }
                }
                Some(fact)
            },
        }
    }

    /// Add a fact to the knowledge base, indexing it under each of its
    /// tags and referenced entities. A fact whose id is already present
    /// replaces the old record, after a full re-indexing. Returns the
    /// fact's id.
    pub fn add_fact(&mut self, fact: Fact) -> (r: FactId)
        requires
            old(self).wf(),
            fact.wf(),
        ensures
            final(self).wf(),
            r.0 == fact@.id,
            has_fid(final(self)@.facts, fact@.id),
            fact_of(final(self)@.facts, fact@.id) == fact@,
            forall|u: u128|
                u != fact@.id ==> has_fid(final(self)@.facts, u) == has_fid(
                    old(self)@.facts,
                    u,
                ),
            forall|u: u128|
                u != fact@.id && has_fid(old(self)@.facts, u) ==> fact_of(
                    final(self)@.facts,
                    u,
                ) == fact_of(old(self)@.facts, u),
            final(self)@.associations == old(self)@.associations,
    {
        let id = FactId(fact.id.0);
        let ghost fv = fact@;
        // overwrite semantics: first remove any fact with this id
        let _prior = self.remove_fact(id);
        let ghost g0 = self@;
        proof {
            assert(!has_fid(g0.facts, fv.id));
            // the id stands in no bucket of a well-formed graph it is absent from
            assert forall|u: TagView| !(#[trigger] tbucket(g0.tag_index, u).contains(
                fv.id,
            )) by {
                if tbucket(g0.tag_index, u).contains(fv.id) {
                    assert(thas(g0.tag_index, u));
                    let k = tat(g0.tag_index, u);
                    lemma_tag_at(g0.tag_index, k);
                    let j = choose|j: int|
                        0 <= j < g0.tag_index[k].1.len() && g0.tag_index[k].1[j] == fv.id;
                    assert(has_fid(g0.facts, g0.tag_index[k].1[j]));
                }
            }
            assert forall|e: u128| !(#[trigger] ebucket(g0.entity_index, e).contains(
                fv.id,
            )) by {
                if ebucket(g0.entity_index, e).contains(fv.id) {
                    assert(ehas(g0.entity_index, e));
                    let k = eat(g0.entity_index, e);
                    lemma_ent_at(g0.entity_index, k);
                    let j = choose|j: int|
                        0 <= j < g0.entity_index[k].1.len() && g0.entity_index[k].1[j] == fv.id;
                    assert(has_fid(g0.facts, g0.entity_index[k].1[j]));
                }
            }
        }
        let tags = clone_tags(&fact.tags);
        let ents = collect_entities(&fact.tags, &fact.fact_type);
        let ghost tv = fv.tags;
        let ghost ev = ents@;
        self.facts.push(fact);
        proof {
            assert(self@.facts =~= g0.facts.push(fv));
            lemma_facts_push_frame(g0.facts, fv);
        }
        let ghost facts1 = self@.facts;
        // index the fact under each of its tags
        let mut ti: usize = 0;
        let ntags = tags.len();
        proof {
            assert(tv.take(0) =~= Seq::<TagView>::empty());
        }
        while ti < ntags
            invariant
                ti <= ntags,
                ntags == tags@.len(),
                tags@.map_values(|t: Tag| t@) == tv,
                tv.len() == ntags,
                id.0 == fv.id,
                forall|a: int, b: int| 0 <= a < b < tv.len() ==> tv[a] != tv[b],
                self@.facts == facts1,
                self@.associations == g0.associations,
                self@.entity_index == g0.entity_index,
                tkeys_distinct(self@.tag_index),
                forall|k: int|
                    0 <= k < self@.tag_index.len() ==> (forall|a: int, b: int|
                        0 <= a < b < (#[trigger] self@.tag_index[k]).1.len()
                            ==> self@.tag_index[k].1[a] != self@.tag_index[k].1[b]),
                forall|u: TagView|
                    !(#[trigger] tbucket(g0.tag_index, u).contains(fv.id)),
                forall|u: TagView|
                    #[trigger] thas(self@.tag_index, u) == (thas(g0.tag_index, u)
                        || tv.take(ti as int).contains(u)),
                forall|u: TagView|
                    tv.take(ti as int).contains(u) ==> #[trigger] tbucket(self@.tag_index, u)
                        == tbucket(g0.tag_index, u).push(fv.id),
                forall|u: TagView|
                    !tv.take(ti as int).contains(u) ==> #[trigger] tbucket(self@.tag_index, u)
                        == tbucket(g0.tag_index, u),
            decreases ntags - ti,
        {
            let ghost pre = self@.tag_index;
            proof {
                assert(tags@[ti as int]@ == tv[ti as int]);
                assert(!tv.take(ti as int).contains(tv[ti as int])) by {
                    if tv.take(ti as int).contains(tv[ti as int]) {
                        let j = choose|j: int|
                            0 <= j < ti && tv.take(ti as int)[j] == tv[ti as int];
                        assert(tv[j] == tv[ti as int]);
                    }
                }
                assert(tbucket(pre, tv[ti as int]) == tbucket(g0.tag_index, tv[ti as int]));
            }
            self.tag_bucket_push(&tags[ti], id);
            proof {
                let cur = self@.tag_index;
                assert(tv.take(ti + 1) =~= tv.take(ti as int).push(tv[ti as int]));
                assert forall|u: TagView| #[trigger] thas(cur, u) == (thas(g0.tag_index, u)
                    || tv.take(ti + 1).contains(u)) by {
                    crate::fact::lemma_tagseq_contains_push(
                        tv.take(ti as int),
                        tv[ti as int],
                        u,
                    );
                }
                assert forall|u: TagView| tv.take(ti + 1).contains(u) implies #[trigger] tbucket(
                    cur,
                    u,
                ) == tbucket(g0.tag_index, u).push(fv.id) by {
                    crate::fact::lemma_tagseq_contains_push(
                        tv.take(ti as int),
                        tv[ti as int],
                        u,
                    );
                    if u == tv[ti as int] {
                        assert(tbucket(cur, u) == tbucket(pre, u).push(fv.id));
                    } else {
                        assert(tbucket(cur, u) == tbucket(pre, u));
                    }
                }
                assert forall|u: TagView| !tv.take(ti + 1).contains(u)
                    implies #[trigger] tbucket(cur, u) == tbucket(g0.tag_index, u) by {
                    crate::fact::lemma_tagseq_contains_push(
                        tv.take(ti as int),
                        tv[ti as int],
                        u,
                    );
                    assert(u != tv[ti as int]);
                    assert(tbucket(cur, u) == tbucket(pre, u));
                }
            }
            ti = ti + 1;
        }
        proof {
            assert(tv.take(ntags as int) =~= tv);
        }
        let ghost tidx1 = self@.tag_index;
        proof {
            assert forall|e: u128| #[trigger] ebucket(self@.entity_index, e) == ebucket(
                g0.entity_index,
                e,
            ).push(fv.id) implies fact_refs(fv, e) by {
                assert(ebucket(self@.entity_index, e) == ebucket(g0.entity_index, e));
                assert(ebucket(g0.entity_index, e).push(fv.id).len() == ebucket(
                    g0.entity_index,
                    e,
                ).len() + 1);
            }
        }
        // index the fact under each entity it refers to
        let mut ei: usize = 0;
        let nents = ents.len();
        while ei < nents
            invariant
                ei <= nents,
                nents == ents@.len(),
                ents@ == ev,
                id.0 == fv.id,
                forall|x: u128|
                    #[trigger] elist_has(ev, x) == (crate::fact::type_refs(fv.fact_type, x)
                        || fv.tags.contains(TagView::Entity(x))),
                self@.facts == facts1,
                self@.associations == g0.associations,
                self@.tag_index == tidx1,
                ekeys_distinct(self@.entity_index),
                forall|k: int|
                    0 <= k < self@.entity_index.len() ==> (forall|a: int, b: int|
                        0 <= a < b < (#[trigger] self@.entity_index[k]).1.len()
                            ==> self@.entity_index[k].1[a] != self@.entity_index[k].1[b]),
                forall|e: u128|
                    !(#[trigger] ebucket(g0.entity_index, e).contains(fv.id)),
                forall|e: u128|
                    #[trigger] ebucket(self@.entity_index, e) == ebucket(g0.entity_index, e)
                        || ebucket(self@.entity_index, e) == ebucket(
                        g0.entity_index,
                        e,
                    ).push(fv.id),
                forall|e: u128|
                    #[trigger] ebucket(self@.entity_index, e) == ebucket(
                        g0.entity_index,
                        e,
                    ).push(fv.id) ==> fact_refs(fv, e),
                forall|k: int|
                    0 <= k < ei ==> #[trigger] ebucket(self@.entity_index, ev[k].0).contains(
                        fv.id,
                    ),
            decreases nents - ei,
        {
            let ghost pre = self@.entity_index;
            let e = ents[ei];
            proof {
                assert(ev[ei as int] == e);
                assert(elist_has(ev, e.0)) by {
                    assert(ev[ei as int].0 == e.0);
                }
                assert(fact_refs(fv, e.0));
            }
            self.ent_bucket_add(e, id);
            proof {
                let cur = self@.entity_index;
                assert forall|x: u128| #[trigger] ebucket(cur, x) == ebucket(g0.entity_index, x)
                    || ebucket(cur, x) == ebucket(g0.entity_index, x).push(fv.id) by {
                    if x == e.0 {
                        if ebucket(cur, x) == ebucket(pre, x).push(fv.id) && ebucket(pre, x)
                            == ebucket(g0.entity_index, x).push(fv.id) {
                            // the bucket would then hold the id twice
                            let p = ebucket(pre, x);
                            let c = ebucket(cur, x);
                            assert(p[p.len() - 1] == fv.id);
                            assert(c[c.len() - 1] == fv.id);
                            assert(c[p.len() - 1] == fv.id);
                            assert(ehas(cur, x)) by {
                                if !ehas(cur, x) {
                                    assert(c =~= Seq::<u128>::empty());
                                }
                            }
                            let kk = eat(cur, x);
                            lemma_ent_at(cur, kk);
                            assert(cur[kk].1[p.len() - 1] == cur[kk].1[c.len() - 1]);
                            assert(false);
                        }
                    } else {
                        assert(ebucket(cur, x) == ebucket(pre, x));
                    }
                }
                assert forall|x: u128| #[trigger] ebucket(cur, x) == ebucket(
                    g0.entity_index,
                    x,
                ).push(fv.id) implies fact_refs(fv, x) by {
                    if x != e.0 {
                        assert(ebucket(cur, x) == ebucket(pre, x));
                    }
                }
                assert forall|k: int| 0 <= k < ei + 1 implies #[trigger] ebucket(
                    cur,
                    ev[k].0,
                ).contains(fv.id) by {
                    if k < ei {
                        assert(ebucket(pre, ev[k].0).contains(fv.id));
                        if ev[k].0 == e.0 {
                        } else {
                            assert(ebucket(cur, ev[k].0) == ebucket(pre, ev[k].0));
                        }
                    } else {
                        assert(ebucket(cur, e.0).contains(fv.id));
                    }
                }
            }
            ei = ei + 1;
        }
        // the graph is consistent again
        proof {
            let g1 = self@;
            assert(has_fid(g1.facts, fv.id));
            assert(fact_of(g1.facts, fv.id) == fv);
            assert(graph_wf(g1)) by {
                assert(fids_distinct(g1.facts));
                assert forall|k: int|
                    0 <= k < g1.facts.len() implies (forall|a: int, b: int|
                    0 <= a < b < (#[trigger] g1.facts[k]).tags.len() ==> g1.facts[k].tags[a]
                        != g1.facts[k].tags[b]) && (#[trigger] g1.facts[k]).importance
                    <= UNIT by {
                    if k < g1.facts.len() - 1 {
                        assert(g1.facts[k] == g0.facts[k]);
                    } else {
                        assert(g1.facts[k] == fv);
                    }
                }
                assert forall|k: int, t: TagView|
                    0 <= k < g1.facts.len() && #[trigger] g1.facts[k].tags.contains(t)
                        implies tbucket(g1.tag_index, t).contains(g1.facts[k].id) by {
                    if k < g1.facts.len() - 1 {
                        assert(g1.facts[k] == g0.facts[k]);
                        lemma_fact_at(g0.facts, k);
                        assert(tbucket(g0.tag_index, t).contains(g0.facts[k].id));
                        if tv.contains(t) {
                            assert(tbucket(g1.tag_index, t) == tbucket(g0.tag_index, t).push(
                                fv.id,
                            ));
                            let j = choose|j: int|
                                0 <= j < tbucket(g0.tag_index, t).len() && tbucket(
                                    g0.tag_index,
                                    t,
                                )[j] == g0.facts[k].id;
                            assert(tbucket(g1.tag_index, t)[j] == g0.facts[k].id);
                        } else {
                            assert(tbucket(g1.tag_index, t) == tbucket(g0.tag_index, t));
                        }
                    } else {
                        assert(g1.facts[k] == fv);
                        assert(tbucket(g1.tag_index, t) == tbucket(g0.tag_index, t).push(
                            fv.id,
                        ));
                        assert(tbucket(g1.tag_index, t)[tbucket(g1.tag_index, t).len() - 1]
                            == fv.id);
                    }
                }
                assert forall|k: int, j: int|
                    0 <= k < g1.tag_index.len() && 0 <= j < g1.tag_index[k].1.len()
                        implies has_fid(g1.facts, #[trigger] g1.tag_index[k].1[j]) && fact_of(
                    g1.facts,
                    g1.tag_index[k].1[j],
                ).tags.contains(g1.tag_index[k].0) by {
                    let u = g1.tag_index[k].0;
                    let x = g1.tag_index[k].1[j];
                    lemma_tag_at(g1.tag_index, k);
                    assert(tbucket(g1.tag_index, u).contains(x)) by {
                        assert(tbucket(g1.tag_index, u)[j] == x);
                    }
                    if tv.contains(u) {
                        assert(tbucket(g1.tag_index, u) == tbucket(g0.tag_index, u).push(
                            fv.id,
                        ));
                        if j < tbucket(g1.tag_index, u).len() - 1 {
                            assert(x == tbucket(g0.tag_index, u)[j]);
                            assert(tbucket(g0.tag_index, u).contains(x));
                            assert(thas(g0.tag_index, u));
                            let k0 = tat(g0.tag_index, u);
                            lemma_tag_at(g0.tag_index, k0);
                            let j0 = choose|j0: int|
                                0 <= j0 < g0.tag_index[k0].1.len() && g0.tag_index[k0].1[j0] == x;
                            assert(has_fid(g0.facts, g0.tag_index[k0].1[j0]));
                            assert(x != fv.id);
                        } else {
                            assert(x == fv.id);
                            assert(fact_of(g1.facts, fv.id).tags.contains(u));
                        }
                    } else {
                        assert(tbucket(g1.tag_index, u) == tbucket(g0.tag_index, u));
                        assert(thas(g0.tag_index, u)) by {
                            assert(thas(g1.tag_index, u));
                        }
                        let k0 = tat(g0.tag_index, u);
                        lemma_tag_at(g0.tag_index, k0);
                        let j0 = choose|j0: int|
                            0 <= j0 < g0.tag_index[k0].1.len() && g0.tag_index[k0].1[j0] == x;
                        assert(has_fid(g0.facts, g0.tag_index[k0].1[j0]));
                        assert(x != fv.id);
                    }
                }
                assert forall|k: int, e: u128|
                    0 <= k < g1.facts.len() && #[trigger] fact_refs(g1.facts[k], e)
                        implies ebucket(g1.entity_index, e).contains(g1.facts[k].id) by {
                    if k < g1.facts.len() - 1 {
                        assert(g1.facts[k] == g0.facts[k]);
                        lemma_fact_at(g0.facts, k);
                        assert(ebucket(g0.entity_index, e).contains(g0.facts[k].id));
                        if ebucket(g1.entity_index, e) == ebucket(g0.entity_index, e).push(
                            fv.id,
                        ) {
                            let j = choose|j: int|
                                0 <= j < ebucket(g0.entity_index, e).len() && ebucket(
                                    g0.entity_index,
                                    e,
                                )[j] == g0.facts[k].id;
                            assert(ebucket(g1.entity_index, e)[j] == g0.facts[k].id);
                        }
                    } else {
                        assert(g1.facts[k] == fv);
                        assert(elist_has(ev, e)) by {
                            if crate::fact::type_refs(fv.fact_type, e) {
                            } else {
                                assert(fv.tags.contains(TagView::Entity(e)));
                            }
                        }
                        let q = choose|q: int| 0 <= q < ev.len() && ev[q].0 == e;
                        assert(ebucket(g1.entity_index, ev[q].0).contains(fv.id));
                    }
                }
                assert forall|k: int, j: int|
                    0 <= k < g1.entity_index.len() && 0 <= j < g1.entity_index[k].1.len()
                        implies has_fid(g1.facts, #[trigger] g1.entity_index[k].1[j])
                    && fact_refs(
                    fact_of(g1.facts, g1.entity_index[k].1[j]),
                    g1.entity_index[k].0,
                ) by {
                    let e = g1.entity_index[k].0;
                    let x = g1.entity_index[k].1[j];
                    lemma_ent_at(g1.entity_index, k);
                    assert(ebucket(g1.entity_index, e).contains(x)) by {
                        assert(ebucket(g1.entity_index, e)[j] == x);
                    }
                    if ebucket(g1.entity_index, e) == ebucket(g0.entity_index, e).push(fv.id) {
                        assert(fact_refs(fv, e));
                        if j < g1.entity_index[k].1.len() - 1 {
                            assert(x == ebucket(g0.entity_index, e)[j]);
                            assert(ebucket(g0.entity_index, e).contains(x));
                            assert(ehas(g0.entity_index, e));
                            let k0 = eat(g0.entity_index, e);
                            lemma_ent_at(g0.entity_index, k0);
                            let j0 = choose|j0: int|
                                0 <= j0 < g0.entity_index[k0].1.len() && g0.entity_index[k0].1[j0]
                                    == x;
                            assert(has_fid(g0.facts, g0.entity_index[k0].1[j0]));
                            assert(x != fv.id);
                        } else {
                            assert(x == fv.id);
                            assert(fact_of(g1.facts, fv.id) == fv);
                        }
                    } else {
                        assert(ebucket(g1.entity_index, e) == ebucket(g0.entity_index, e));
                        assert(ebucket(g0.entity_index, e).contains(x));
                        assert(ehas(g0.entity_index, e));
                        let k0 = eat(g0.entity_index, e);
                        lemma_ent_at(g0.entity_index, k0);
                        let j0 = choose|j0: int|
                            0 <= j0 < g0.entity_index[k0].1.len() && g0.entity_index[k0].1[j0]
                                == x;
                        assert(has_fid(g0.facts, g0.entity_index[k0].1[j0]));
                        assert(x != fv.id);
                    }
                }
            }
        }
        id
    }

    /// All facts carrying a tag, in index order.
    pub fn facts_by_tag(&self, tag: &Tag) -> (r: Vec<&Fact>)
        requires
            self.wf(),
        ensures
            r@.len() == tbucket(self@.tag_index, tag@).len(),
            forall|k: int|
                0 <= k < r@.len() ==> (#[trigger] r@[k])@ == fact_of(
                    self@.facts,
                    tbucket(self@.tag_index, tag@)[k],
                ) && r@[k]@.tags.contains(tag@) && has_fid(self@.facts, r@[k]@.id),
    {
        let mut r: Vec<&Fact> = Vec::new();
        match self.tag_index_pos(tag) {
            Some(i) => {
                proof {
                    lemma_tag_at(self@.tag_index, i as int);
                }
                let bucket = &self.tag_to_facts[i].1;
                let ghost bv = self@.tag_index[i as int].1;
                let mut j: usize = 0;
                while j < bucket.len()
                    invariant
                        self.wf(),
                        i < self@.tag_index.len(),
                        bucket == &self.tag_to_facts@[i as int].1,
                        bv == self@.tag_index[i as int].1,
                        bv == tbucket(self@.tag_index, tag@),
                        j <= bucket@.len(),
                        bv.len() == bucket@.len(),
                        forall|q: int| 0 <= q < bv.len() ==> bv[q] == bucket@[q].0,
                        r@.len() == j,
                        forall|q: int|
                            0 <= q < j ==> (#[trigger] r@[q])@ == fact_of(self@.facts, bv[q])
                                && r@[q]@.tags.contains(tag@) && has_fid(self@.facts, r@[q]@.id),
                    decreases bucket@.len() - j,
                {
                    proof {
                        assert(self@.tag_index[i as int].1[j as int] == bv[j as int]);
                        assert(has_fid(self@.facts, bv[j as int]));
                        assert(fact_of(self@.facts, bv[j as int]).tags.contains(
                            self@.tag_index[i as int].0,
                        ));
                    }
                    match self.fact_index(bucket[j]) {
                        Some(fi) => {
                            proof {
                                lemma_fact_at(self@.facts, fi as int);
                            }
                            r.push(&self.facts[fi]);
                        },
                        None => {
                            proof {
                                assert(false);
                            }
                        },
                    }
                    j = j + 1;
                }
                r
            },
            None => {
                proof {
                    assert(tbucket(self@.tag_index, tag@) =~= Seq::<u128>::empty());
                }
                r
            },
        }
    }

    /// All facts indexed under an entity, in index order.
    pub fn facts_by_entity(&self, entity_id: EntityId) -> (r: Vec<&Fact>)
        requires
            self.wf(),
        ensures
            r@.len() == ebucket(self@.entity_index, entity_id.0).len(),
            forall|k: int|
                0 <= k < r@.len() ==> (#[trigger] r@[k])@ == fact_of(
                    self@.facts,
                    ebucket(self@.entity_index, entity_id.0)[k],
                ) && fact_refs(r@[k]@, entity_id.0) && has_fid(self@.facts, r@[k]@.id),
    {
        let mut r: Vec<&Fact> = Vec::new();
        match self.ent_index_pos(entity_id) {
            Some(i) => {
                proof {
                    lemma_ent_at(self@.entity_index, i as int);
                }
                let bucket = &self.fact_by_entity[i].1;
                let ghost bv = self@.entity_index[i as int].1;
                let mut j: usize = 0;
                while j < bucket.len()
                    invariant
                        self.wf(),
                        i < self@.entity_index.len(),
                        bucket == &self.fact_by_entity@[i as int].1,
                        bv == self@.entity_index[i as int].1,
                        bv == ebucket(self@.entity_index, entity_id.0),
                        self@.entity_index[i as int].0 == entity_id.0,
                        j <= bucket@.len(),
                        bv.len() == bucket@.len(),
                        forall|q: int| 0 <= q < bv.len() ==> bv[q] == bucket@[q].0,
                        r@.len() == j,
                        forall|q: int|
                            0 <= q < j ==> (#[trigger] r@[q])@ == fact_of(self@.facts, bv[q])
                                && fact_refs(r@[q]@, entity_id.0) && has_fid(
                                self@.facts,
                                r@[q]@.id,
                            ),
                    decreases bucket@.len() - j,
                {
                    proof {
                        assert(self@.entity_index[i as int].1[j as int] == bv[j as int]);
                        assert(has_fid(self@.facts, bv[j as int]));
                        assert(fact_refs(
                            fact_of(self@.facts, bv[j as int]),
                            self@.entity_index[i as int].0,
                        ));
                    }
                    match self.fact_index(bucket[j]) {
                        Some(fi) => {
                            proof {
                                lemma_fact_at(self@.facts, fi as int);
                            }
                            r.push(&self.facts[fi]);
                        },
                        None => {
                            proof {
                                assert(false);
                            }
                        },
                    }
                    j = j + 1;
                }
                r
            },
            None => {
                proof {
                    assert(ebucket(self@.entity_index, entity_id.0) =~= Seq::<u128>::empty());
                }
                r
            },
        }
    }

    /// Mark a fact as revealed. Returns whether the fact was found.
    pub fn reveal_fact(&mut self, id: FactId) -> (r: bool)
        requires
            old(self).wf(),
        ensures
            final(self).wf(),
            r == has_fid(old(self)@.facts, id.0),
            final(self)@.tag_index == old(self)@.tag_index,
            final(self)@.entity_index == old(self)@.entity_index,
            final(self)@.associations == old(self)@.associations,
            r ==> has_fid(final(self)@.facts, id.0) && fact_of(final(self)@.facts, id.0)
                == (FactView {
                revealed: true,
                known_to_player: true,
                ..fact_of(old(self)@.facts, id.0)
            }),
            forall|u: u128|
                u != id.0 ==> has_fid(final(self)@.facts, u) == has_fid(old(self)@.facts, u),
            forall|u: u128|
                u != id.0 && has_fid(old(self)@.facts, u) ==> fact_of(final(self)@.facts, u)
                    == fact_of(old(self)@.facts, u),
            !r ==> *final(self) == *old(self),
    {
        let ghost g0 = self@;
        match self.fact_index(id) {
            None => false,
            Some(i) => {
                proof {
                    lemma_fact_at(g0.facts, i as int);
                }
                let ghost rawf = self.facts@;
                let mut f = self.facts.remove(i);
                f.mark_revealed();
                let ghost nfv = f@;
                self.facts.insert(i, f);
                proof {
                    let fi = i as int;
                    let rawmid = rawf.remove(fi);
                    rawf.remove_ensures(fi);
                    let facts1 = self@.facts;
                    assert forall|k: int| 0 <= k < facts1.len() && k != fi
                        implies #[trigger] facts1[k] == g0.facts[k] by {
                        if k < fi {
                            assert(self.facts@[k] == rawmid[k]);
                            assert(rawmid[k] == rawf[k]);
                        } else {
                            assert(self.facts@[k] == rawmid[k - 1]);
                            assert(rawmid[k - 1] == rawf[k]);
                        }
                    }
                    assert(facts1[fi] == nfv);
                    assert(facts1.len() == g0.facts.len());
                    assert(nfv == (FactView {
                        revealed: true,
                        known_to_player: true,
                        ..g0.facts[fi]
                    }));
                    assert(fids_distinct(facts1)) by {
                        assert forall|a: int, b: int| 0 <= a < b < facts1.len()
                            implies facts1[a].id != facts1[b].id by {
                            assert(facts1[a].id == g0.facts[a].id);
                            assert(facts1[b].id == g0.facts[b].id);
                        }
                    }
                    lemma_fact_at(facts1, fi);
                    assert forall|u: u128| u != id.0 implies has_fid(facts1, u) == has_fid(
                        g0.facts,
                        u,
                    ) by {
                        if has_fid(facts1, u) {
                            let k = fid_at(facts1, u);
                            assert(g0.facts[k].id == u);
                        }
                        if has_fid(g0.facts, u) {
                            let k = fid_at(g0.facts, u);
                            assert(k != fi);
                            assert(facts1[k].id == u);
                        }
                    }
                    assert forall|u: u128| u != id.0 && has_fid(g0.facts, u) implies fact_of(
                        facts1,
                        u,
                    ) == fact_of(g0.facts, u) by {
                        let k0 = fid_at(g0.facts, u);
                        assert(g0.facts[k0].id == u);
                        assert(k0 != fi);
                        assert(facts1[k0].id == u);
                        assert(has_fid(facts1, u));
                        let k1 = fid_at(facts1, u);
                        if k1 != k0 {
                            assert(false);
                        }
                        lemma_fact_at(g0.facts, k0);
                    }
                    assert(graph_wf(self@)) by {
                        let g1 = self@;
                        assert forall|k: int|
                            0 <= k < g1.facts.len() implies (forall|a: int, b: int|
                            0 <= a < b < (#[trigger] g1.facts[k]).tags.len() ==> g1.facts[k].tags[a]
                                != g1.facts[k].tags[b]) && (#[trigger] g1.facts[k]).importance
                            <= UNIT by {
                            if k != fi {
                                assert(g1.facts[k] == g0.facts[k]);
                            } else {
                                assert(g1.facts[k].tags == g0.facts[k].tags);
                                assert(g1.facts[k].importance == g0.facts[k].importance);
                            }
                        }
                        assert forall|k: int, t: TagView|
                            0 <= k < g1.facts.len() && #[trigger] g1.facts[k].tags.contains(t)
                                implies tbucket(g1.tag_index, t).contains(g1.facts[k].id) by {
                            if k != fi {
                                assert(g1.facts[k] == g0.facts[k]);
                            } else {
                                assert(g1.facts[k].tags == g0.facts[k].tags);
                                assert(g1.facts[k].id == g0.facts[k].id);
                            }
                        }
                        assert forall|k: int, j: int|
                            0 <= k < g1.tag_index.len() && 0 <= j < g1.tag_index[k].1.len()
                                implies has_fid(g1.facts, #[trigger] g1.tag_index[k].1[j])
                            && fact_of(g1.facts, g1.tag_index[k].1[j]).tags.contains(
                            g1.tag_index[k].0,
                        ) by {
                            let x = g1.tag_index[k].1[j];
                            assert(has_fid(g0.facts, x));
                            assert(fact_of(g0.facts, x).tags.contains(g1.tag_index[k].0));
                            if x == id.0 {
                                assert(fact_of(g1.facts, x).tags == fact_of(g0.facts, x).tags);
                            }
                        }
                        assert forall|k: int, e: u128|
                            0 <= k < g1.facts.len() && #[trigger] fact_refs(g1.facts[k], e)
                                implies ebucket(g1.entity_index, e).contains(g1.facts[k].id) by {
                            if k != fi {
                                assert(g1.facts[k] == g0.facts[k]);
                            } else {
                                assert(g1.facts[k].tags == g0.facts[k].tags);
                                assert(g1.facts[k].fact_type == g0.facts[k].fact_type);
                                assert(fact_refs(g0.facts[k], e));
                                assert(g1.facts[k].id == g0.facts[k].id);
                            }
                        }
                        assert forall|k: int, j: int|
                            0 <= k < g1.entity_index.len() && 0 <= j < g1.entity_index[k].1.len()
                                implies has_fid(g1.facts, #[trigger] g1.entity_index[k].1[j])
                            && fact_refs(
                            fact_of(g1.facts, g1.entity_index[k].1[j]),
                            g1.entity_index[k].0,
                        ) by {
                            let x = g1.entity_index[k].1[j];
                            assert(has_fid(g0.facts, x));
                            assert(fact_refs(fact_of(g0.facts, x), g1.entity_index[k].0));
                            if x == id.0 {
                                assert(fact_of(g1.facts, x).tags == fact_of(g0.facts, x).tags);
                                assert(fact_of(g1.facts, x).fact_type == fact_of(
                                    g0.facts,
                                    x,
                                ).fact_type);
                            }
                        }
                    }
                }
                true
            },
        }
    }

    /// Unrevealed secrets held by an entity.
    pub fn unrevealed_secrets(&self, entity: EntityId) -> (r: Vec<&Fact>)
        requires
            self.wf(),
        ensures
            forall|k: int|
                0 <= k < r@.len() ==> has_fid(self@.facts, (#[trigger] r@[k])@.id) && r@[k]@
                    == fact_of(self@.facts, r@[k]@.id) && r@[k]@.fact_type is Secret
                    && !r@[k]@.revealed && fact_refs(r@[k]@, entity.0),
            forall|x: u128|
                ebucket(self@.entity_index, entity.0).contains(x) && fact_of(
                    self@.facts,
                    x,
                ).fact_type is Secret && !fact_of(self@.facts, x).revealed ==> exists|k: int|
                    0 <= k < r@.len() && (#[trigger] r@[k])@.id == x,
    {
        let candidates = self.facts_by_entity(entity);
        let ghost bv = ebucket(self@.entity_index, entity.0);
        let mut r: Vec<&Fact> = Vec::new();
        let mut j: usize = 0;
        while j < candidates.len()
            invariant
                self.wf(),
                j <= candidates@.len(),
                candidates@.len() == bv.len(),
                bv == ebucket(self@.entity_index, entity.0),
                forall|q: int|
                    0 <= q < candidates@.len() ==> (#[trigger] candidates@[q])@ == fact_of(
                        self@.facts,
                        bv[q],
                    ) && fact_refs(candidates@[q]@, entity.0) && has_fid(
                        self@.facts,
                        candidates@[q]@.id,
                    ),
                forall|k: int|
                    0 <= k < r@.len() ==> has_fid(self@.facts, (#[trigger] r@[k])@.id) && r@[k]@
                        == fact_of(self@.facts, r@[k]@.id) && r@[k]@.fact_type is Secret
                        && !r@[k]@.revealed && fact_refs(r@[k]@, entity.0),
                forall|q: int|
                    0 <= q < j && fact_of(self@.facts, bv[q]).fact_type is Secret && !fact_of(
                        self@.facts,
                        bv[q],
                    ).revealed ==> exists|k: int|
                        0 <= k < r@.len() && (#[trigger] r@[k])@.id == bv[q],
            decreases candidates@.len() - j,
        {
            let f = candidates[j];
            let is_secret = match f.fact_type {
                FactType::Secret { .. } => true,
                _ => false,
            };
            if is_secret && !f.revealed {
                let ghost r0 = r@;
                r.push(f);
                proof {
                    assert(forall|k: int| 0 <= k < r0.len() ==> r@[k] == #[trigger] r0[k]);
                    assert(r@[r@.len() - 1]@.id == bv[j as int]) by {
                        assert(f@ == fact_of(self@.facts, bv[j as int]));
                        lemma_fact_at(self@.facts, fid_at(self@.facts, bv[j as int]));
                        assert(has_fid(self@.facts, bv[j as int])) by {
                            assert(has_fid(self@.facts, candidates@[j as int]@.id));
                        }
                    }
                }
            }
            j = j + 1;
        }
        proof {
            assert forall|x: u128| ebucket(self@.entity_index, entity.0).contains(x)
                && fact_of(self@.facts, x).fact_type is Secret && !fact_of(
                self@.facts,
                x,
            ).revealed implies exists|k: int| 0 <= k < r@.len() && (#[trigger] r@[k])@.id
                == x by {
                let q = choose|q: int| 0 <= q < bv.len() && bv[q] == x;
                assert(fact_of(self@.facts, bv[q]).fact_type is Secret);
            }
        }
        r
    }

    /// Facts with importance at or above the threshold, in storage
    /// order.
    pub fn important_facts(&self, threshold: u64) -> (r: Vec<&Fact>)
        requires
            self.wf(),
        ensures
            r@.len() == self@.facts.filter(important_pred(threshold)).len(),
            forall|k: int|
                0 <= k < r@.len() ==> (#[trigger] r@[k])@ == self@.facts.filter(
                    important_pred(threshold),
                )[k],
    {
        let ghost pred = important_pred(threshold);
        let mut r: Vec<&Fact> = Vec::new();
        let mut i: usize = 0;
        proof {
            reveal(Seq::filter);
            assert(self@.facts.take(0) =~= Seq::<FactView>::empty());
            assert(self@.facts.take(0).filter(pred).len() == 0);
        }
        while i < self.facts.len()
            invariant
                i <= self@.facts.len(),
                self@.facts.len() == self.facts@.len(),
                pred == important_pred(threshold),
                r@.len() == self@.facts.take(i as int).filter(pred).len(),
                forall|k: int|
                    0 <= k < r@.len() ==> (#[trigger] r@[k])@ == self@.facts.take(
                        i as int,
                    ).filter(pred)[k],
            decreases self@.facts.len() - i,
        {
            let ghost f0 = self@.facts.take(i as int).filter(pred);
            proof {
                reveal(Seq::filter);
                assert(self@.facts.take(i + 1).drop_last() =~= self@.facts.take(i as int));
                assert(self@.facts.take(i + 1).last() == self@.facts[i as int]);
                assert(self@.facts.take(i + 1).filter(pred) == if pred(self@.facts[i as int]) {
                    f0.push(self@.facts[i as int])
                } else {
                    f0
                });
            }
            if self.facts[i].importance >= threshold {
                let ghost r0 = r@;
                r.push(&self.facts[i]);
                proof {
                    assert(pred(self@.facts[i as int]));
                    assert(forall|k: int| 0 <= k < r0.len() ==> r@[k] == #[trigger] r0[k]);
                    assert((r@[r@.len() - 1])@ == self@.facts[i as int]);
                }
            } else {
                proof {
                    assert(!pred(self@.facts[i as int]));
                }
            }
            i = i + 1;
        }
        proof {
            assert(self@.facts.take(self@.facts.len() as int) =~= self@.facts);
        }
        r
    }

    /// Every one of the first `n` stored facts either appears in the
    /// result or received a false answer from the predicate.
    pub open spec fn screened_upto<F: Fn(&Fact) -> bool>(
        facts: Seq<FactView>,
        predicate: F,
        rv: Seq<&Fact>,
        n: int,
    ) -> bool {
        forall|i: int|
            #![trigger facts[i]]
            0 <= i < n ==> (exists|k: int| 0 <= k < rv.len() && (#[trigger] rv[k])@ == facts[i])
                || (exists|f: &Fact|
                f@ == facts[i] && #[trigger] call_ensures(predicate, (f,), false))
    }

    /// Facts matching a caller-supplied predicate, in storage order. Every
    /// returned fact is stored and was accepted by the predicate; which
    /// facts a non-deterministic predicate accepts is the caller's
    /// affair, so no completeness is promised.
    pub fn find_facts<F: Fn(&Fact) -> bool>(&self, predicate: F) -> (r: Vec<&Fact>)
        requires
            self.wf(),
            forall|f: &Fact| #[trigger] predicate.requires((f,)),
        ensures
            forall|k: int|
                0 <= k < r@.len() ==> self@.facts.contains((#[trigger] r@[k])@),
            forall|k: int| 0 <= k < r@.len() ==> call_ensures(predicate, (#[trigger] r@[k],), true),
            Self::screened_upto(self@.facts, predicate, r@, self@.facts.len() as int),
            forall|k1: int, k2: int|
                0 <= k1 < k2 < r@.len() ==> fid_at(self@.facts, (#[trigger] r@[k1])@.id)
                    < fid_at(self@.facts, (#[trigger] r@[k2])@.id),
    {
        let mut r: Vec<&Fact> = Vec::new();
        let mut i: usize = 0;
        while i < self.facts.len()
            invariant
                i <= self@.facts.len(),
                self@.facts.len() == self.facts@.len(),
                fids_distinct(self@.facts),
                forall|f: &Fact| #[trigger] predicate.requires((f,)),
                forall|k: int|
                    0 <= k < r@.len() ==> self@.facts.contains((#[trigger] r@[k])@),
                forall|k: int|
                    0 <= k < r@.len() ==> call_ensures(predicate, (#[trigger] r@[k],), true),
                Self::screened_upto(self@.facts, predicate, r@, i as int),
                forall|k: int|
                    0 <= k < r@.len() ==> fid_at(self@.facts, (#[trigger] r@[k])@.id) < i,
                forall|k1: int, k2: int|
                    0 <= k1 < k2 < r@.len() ==> fid_at(self@.facts, (#[trigger] r@[k1])@.id)
                        < fid_at(self@.facts, (#[trigger] r@[k2])@.id),
            decreases self@.facts.len() - i,
        {
            let f = &self.facts[i];
            let accepted = predicate(f);
            let ghost r0 = r@;
            if accepted {
                r.push(f);
                proof {
                    assert(forall|k: int| 0 <= k < r0.len() ==> r@[k] == #[trigger] r0[k]);
                    assert(self@.facts.contains((r@[r@.len() - 1])@)) by {
                        assert(self@.facts[i as int] == (r@[r@.len() - 1])@);
                    }
                    lemma_fact_at(self@.facts, i as int);
                    assert(fid_at(self@.facts, (r@[r@.len() - 1])@.id) == i);
                }
            }
            proof {
                assert(Self::screened_upto(self@.facts, predicate, r@, i + 1)) by {
                    assert forall|q: int|
                        #![trigger self@.facts[q]]
                        0 <= q < i + 1 implies (exists|k: int|
                        0 <= k < r@.len() && (#[trigger] r@[k])@ == self@.facts[q]) || (
                    exists|f2: &Fact|
                        f2@ == self@.facts[q] && #[trigger] call_ensures(
                            predicate,
                            (f2,),
                            false,
                        )) by {
                        if q == i {
                            if accepted {
                                assert((r@[r@.len() - 1])@ == self@.facts[q]);
                            } else {
                                assert(f@ == self@.facts[q] && call_ensures(
                                    predicate,
                                    (f,),
                                    false,
                                ));
                            }
                        } else {
                            if exists|k: int|
                                0 <= k < r0.len() && (#[trigger] r0[k])@ == self@.facts[q] {
                                let k = choose|k: int|
                                    0 <= k < r0.len() && (#[trigger] r0[k])@ == self@.facts[q];
                                assert((r@[k])@ == self@.facts[q]);
                            }
                        }
                    }
                }
            }
            i = i + 1;
        }
        r
    }

    /// Add or update a directed association between two tags. A new edge
    /// carries the weight clamped into `[0, UNIT]`; an existing edge takes
    /// the average of its old weight and the clamped new weight, and
    /// keeps its kind.
    #[verifier::rlimit(60)]
    pub fn add_association(
        &mut self,
        from: Tag,
        to: Tag,
        weight: u64,
        assoc_type: AssociationType,
    )
        requires
            old(self).wf(),
        ensures
            final(self).wf(),
            final(self)@.facts == old(self)@.facts,
            final(self)@.tag_index == old(self)@.tag_index,
            final(self)@.entity_index == old(self)@.entity_index,
            abucket(final(self)@.associations, from@) == assoc_upsert(
                abucket(old(self)@.associations, from@),
                to@,
                weight,
                assoc_type,
            ),
            forall|u: TagView|
                u != from@ ==> abucket(final(self)@.associations, u) == abucket(
                    old(self)@.associations,
                    u,
                ),
            forall|u: TagView|
                ahas(final(self)@.associations, u) == (ahas(old(self)@.associations, u) || u
                    == from@),
    {
        let ghost v0 = self@.associations;
        let ghost fromv = from@;
        let ghost tov = to@;
        let clamped = crate::fixed::clamp_unit(weight);
        match self.assoc_index_pos(&from) {
            Some(i) => {
                proof {
                    lemma_assoc_at(v0, i as int);
                }
                let mut found: Option<usize> = None;
                let mut j: usize = 0;
                let n = self.associations[i].1.len();
                while j < n
                    invariant
                        j <= n,
                        i < self.associations@.len(),
                        self@.associations == v0,
                        self@.associations.len() == self.associations@.len(),
                        n == v0[i as int].1.len(),
                        n == self.associations@[i as int].1@.len(),
                        tov == to@,
                        forall|q: int|
                            0 <= q < n ==> (#[trigger] self.associations@[i as int].1@[q])@
                                == v0[i as int].1[q],
                        match found {
                            Some(f) => f < j && v0[i as int].1[f as int].target == tov,
                            None => forall|q: int|
                                0 <= q < j ==> v0[i as int].1[q].target != tov,
                        },
                    decreases n - j,
                {
                    if found.is_none() && tag_eq(&self.associations[i].1[j].target, &to) {
                        found = Some(j);
                    }
                    j = j + 1;
                }
                let ghost rawpre = self.associations@;
                let mut pair = self.associations.remove(i);
                let ghost bv0 = v0[i as int].1;
                proof {
                    assert(pair == rawpre[i as int]);
                    assert(pair.1@.map_values(|a: Association| a@) == bv0);
                }
                match found {
                    Some(f) => {
                        proof {
                            lemma_edge_at(bv0, f as int);
                        }
                        let old_weight = pair.1[f].weight;
                        let old_kind = pair.1[f].association_type;
                        let new_weight = crate::fixed::average(old_weight, clamped);
                        let t = pair.1[f].target.clone();
                        pair.1.set(
                            f,
                            Association {
                                target: t,
                                weight: new_weight,
                                association_type: old_kind,
                            },
                        );
                        proof {
                            let newb = pair.1@.map_values(|a: Association| a@);
                            assert(newb =~= bv0.update(
                                f as int,
                                AssocView {
                                    target: tov,
                                    weight: ((bedge(bv0, tov).weight
                                        + crate::fixed::clamp_unit_spec(weight as int)) / 2) as u64,
                                    association_type: bedge(bv0, tov).association_type,
                                },
                            ));
                            assert(bhas_target(bv0, tov));
                            assert(newb == assoc_upsert(bv0, tov, weight, assoc_type));
                        }
                    },
                    None => {
                        let t = to.clone();
                        pair.1.push(
                            Association {
                                target: t,
                                weight: clamped,
                                association_type: assoc_type,
                            },
                        );
                        proof {
                            let newb = pair.1@.map_values(|a: Association| a@);
                            assert(!bhas_target(bv0, tov)) by {
                                if bhas_target(bv0, tov) {
                                    let q = bat_target(bv0, tov);
                                    assert(bv0[q].target != tov);
                                }
                            }
                            assert(newb =~= bv0.push(
                                AssocView {
                                    target: tov,
                                    weight: crate::fixed::clamp_unit_spec(weight as int) as u64,
                                    association_type: assoc_type,
                                },
                            ));
                            assert(newb == assoc_upsert(bv0, tov, weight, assoc_type));
                        }
                    },
                }
                let ghost newb = pair.1@.map_values(|a: Association| a@);
                let ghost pv = pair;
                self.associations.insert(i, pair);
                proof {
                    let fi = i as int;
                    let rawmid = rawpre.remove(fi);
                    rawpre.remove_ensures(fi);
                    rawmid.insert_ensures(fi, pv);
                    let v1 = self@.associations;
                    assert forall|k: int| 0 <= k < v1.len() && k != fi implies #[trigger] v1[k]
                        == v0[k] by {
                        if k < fi {
                            assert(self.associations@[k] == rawmid[k]);
                            assert(rawmid[k] == rawpre[k]);
                        } else {
                            assert(self.associations@[k] == rawmid[k - 1]);
                            assert(rawmid[k - 1] == rawpre[k]);
                        }
                    }
                    assert(self.associations@[fi] == pv);
                    assert(v1.len() == v0.len());
                    assert(v1[fi].0 == fromv);
                    assert(v1[fi].1 == newb);
                    assert(akeys_distinct(v1)) by {
                        assert forall|a: int, b: int| 0 <= a < b < v1.len() implies v1[a].0
                            != v1[b].0 by {
                            assert(v1[a].0 == v0[a].0);
                            assert(v1[b].0 == v0[b].0);
                        }
                    }
                    lemma_assoc_at(v1, fi);
                    assert(abucket(v1, fromv) == assoc_upsert(
                        abucket(v0, fromv),
                        tov,
                        weight,
                        assoc_type,
                    ));
                    assert forall|u: TagView| u != fromv implies abucket(v1, u) == abucket(
                        v0,
                        u,
                    ) by {
                        if ahas(v0, u) {
                            let k = aat(v0, u);
                            lemma_assoc_at(v0, k);
                            assert(v1[k] == v0[k]);
                            lemma_assoc_at(v1, k);
                        } else {
                            if ahas(v1, u) {
                                let k = aat(v1, u);
                                assert(v0[k].0 == u);
                            }
                            assert(abucket(v1, u) =~= abucket(v0, u));
                        }
                    }
                    assert forall|u: TagView| ahas(v1, u) == (ahas(v0, u) || u == fromv) by {
                        if ahas(v1, u) && u != fromv {
                            let k = aat(v1, u);
                            assert(v0[k].0 == u);
                        }
                        if ahas(v0, u) {
                            let k = aat(v0, u);
                            if k != fi {
                                assert(v1[k].0 == u);
                            } else {
                                assert(v1[fi].0 == u);
                            }
                        }
                    }
                    // the adjacency invariants are preserved
                    assert forall|k: int|
                        0 <= k < v1.len() implies btargets_distinct((#[trigger] v1[k]).1) by {
                        if k != fi {
                            assert(v1[k] == v0[k]);
                        } else {
                            if bhas_target(bv0, tov) {
                                let f = bat_target(bv0, tov);
                                assert forall|a: int, b: int| 0 <= a < b < newb.len()
                                    implies newb[a].target != newb[b].target by {
                                    if a != f && b != f {
                                        assert(newb[a] == bv0[a] && newb[b] == bv0[b]);
                                    } else if a == f {
                                        assert(newb[a].target == tov);
                                        assert(newb[b] == bv0[b]);
                                        assert(bv0[f].target == tov);
                                    } else {
                                        assert(newb[a] == bv0[a]);
                                        assert(newb[b].target == tov);
                                        assert(bv0[f].target == tov);
                                    }
                                }
                            } else {
                                assert forall|a: int, b: int| 0 <= a < b < newb.len()
                                    implies newb[a].target != newb[b].target by {
                                    if b < newb.len() - 1 {
                                        assert(newb[a] == bv0[a] && newb[b] == bv0[b]);
                                    } else {
                                        assert(newb[a] == bv0[a]);
                                        assert(newb[b].target == tov);
                                        if bv0[a].target == tov {
                                            assert(bhas_target(bv0, tov));
                                        }
                                    }
                                }
                            }
                        }
                    }
                    assert forall|k: int, j2: int|
                        0 <= k < v1.len() && 0 <= j2 < v1[k].1.len() implies (#[trigger] v1[
                        k].1[j2]).weight <= UNIT by {
                        if k != fi {
                            assert(v1[k] == v0[k]);
                            assert(v0[k].1[j2].weight <= UNIT);
                        } else {
                            if bhas_target(bv0, tov) {
                                let f = bat_target(bv0, tov);
                                if j2 != f {
                                    assert(newb[j2] == bv0[j2]);
                                    assert(bv0[j2].weight <= UNIT);
                                } else {
                                    assert(bv0[f].weight <= UNIT);
                                }
                            } else {
                                if j2 < newb.len() - 1 {
                                    assert(newb[j2] == bv0[j2]);
                                    assert(bv0[j2].weight <= UNIT);
                                }
                            }
                        }
                    }
                }
            },
            None => {
                let mut bucket: Vec<Association> = Vec::new();
                let t = to.clone();
                bucket.push(
                    Association { target: t, weight: clamped, association_type: assoc_type },
                );
                let ghost newb = bucket@.map_values(|a: Association| a@);
                self.associations.push((from, bucket));
                proof {
                    let v1 = self@.associations;
                    assert(v1 =~= v0.push((fromv, newb)));
                    assert(forall|k: int| 0 <= k < v0.len() ==> v1[k] == #[trigger] v0[k]);
                    assert(akeys_distinct(v1)) by {
                        assert forall|a: int, b: int| 0 <= a < b < v1.len() implies v1[a].0
                            != v1[b].0 by {
                            if b < v1.len() - 1 {
                                assert(v1[a] == v0[a] && v1[b] == v0[b]);
                            } else {
                                assert(v1[a] == v0[a]);
                                if v0[a].0 == fromv {
                                    assert(ahas(v0, fromv));
                                }
                            }
                        }
                    }
                    lemma_assoc_at(v1, v1.len() - 1);
                    assert(abucket(v0, fromv) =~= Seq::<AssocView>::empty());
                    assert(!bhas_target(abucket(v0, fromv), tov));
                    assert(newb =~= abucket(v0, fromv).push(
                        AssocView {
                            target: tov,
                            weight: crate::fixed::clamp_unit_spec(weight as int) as u64,
                            association_type: assoc_type,
                        },
                    ));
                    assert(abucket(v1, fromv) == assoc_upsert(
                        abucket(v0, fromv),
                        tov,
                        weight,
                        assoc_type,
                    ));
                    assert forall|u: TagView| u != fromv implies abucket(v1, u) == abucket(
                        v0,
                        u,
                    ) by {
                        if ahas(v0, u) {
                            let k = aat(v0, u);
                            lemma_assoc_at(v0, k);
                            assert(v1[k] == v0[k]);
                            lemma_assoc_at(v1, k);
                        } else {
                            if ahas(v1, u) {
                                let k = aat(v1, u);
                                assert(k < v0.len());
                                assert(v0[k].0 == u);
                            }
                            assert(abucket(v1, u) =~= abucket(v0, u));
                        }
                    }
                    assert forall|u: TagView| ahas(v1, u) == (ahas(v0, u) || u == fromv) by {
                        if ahas(v1, u) && u != fromv {
                            let k = aat(v1, u);
                            assert(k < v0.len());
                            assert(v0[k].0 == u);
                        }
                        if ahas(v0, u) {
                            let k = aat(v0, u);
                            assert(v1[k].0 == u);
                        }
                        assert(v1[v1.len() - 1].0 == fromv);
                    }
                    assert forall|k: int|
                        0 <= k < v1.len() implies btargets_distinct((#[trigger] v1[k]).1) by {
                        if k < v1.len() - 1 {
                            assert(v1[k] == v0[k]);
                        } else {
                            assert(v1[k].1.len() == 1);
                        }
                    }
                    assert forall|k: int, j2: int|
                        0 <= k < v1.len() && 0 <= j2 < v1[k].1.len() implies (#[trigger] v1[
                        k].1[j2]).weight <= UNIT by {
                        if k < v1.len() - 1 {
                            assert(v1[k] == v0[k]);
                            assert(v0[k].1[j2].weight <= UNIT);
                        } else {
                            assert(v1[k].1[j2] == newb[0]);
                        }
                    }
                }
            },
        }
    }

    /// Add associations between two tags in both directions, with the
    /// same weight and kind.
    pub fn add_bidirectional_association(
        &mut self,
        tag_a: Tag,
        tag_b: Tag,
        weight: u64,
        assoc_type: AssociationType,
    )
        requires
            old(self).wf(),
        ensures
            final(self).wf(),
            final(self)@.facts == old(self)@.facts,
            final(self)@.tag_index == old(self)@.tag_index,
            final(self)@.entity_index == old(self)@.entity_index,
            tag_a@ != tag_b@ ==> abucket(final(self)@.associations, tag_a@) == assoc_upsert(
                abucket(old(self)@.associations, tag_a@),
                tag_b@,
                weight,
                assoc_type,
            ) && abucket(final(self)@.associations, tag_b@) == assoc_upsert(
                abucket(old(self)@.associations, tag_b@),
                tag_a@,
                weight,
                assoc_type,
            ),
            forall|u: TagView|
                u != tag_a@ && u != tag_b@ ==> abucket(final(self)@.associations, u) == abucket(
                    old(self)@.associations,
                    u,
                ),
            forall|u: TagView|
                ahas(final(self)@.associations, u) == (ahas(old(self)@.associations, u) || u
                    == tag_a@ || u == tag_b@),
            tag_a@ == tag_b@ ==> abucket(final(self)@.associations, tag_a@) == assoc_upsert(
                assoc_upsert(
                    abucket(old(self)@.associations, tag_a@),
                    tag_b@,
                    weight,
                    assoc_type,
                ),
                tag_a@,
                weight,
                assoc_type,
            ),
    {
        let a2 = tag_a.clone();
        let b2 = tag_b.clone();
        self.add_association(tag_a, b2, weight, assoc_type);
        self.add_association(tag_b, a2, weight, assoc_type);
    }

    /// Count the stored facts carrying both tags.
    fn count_pair(&self, a: &Tag, b: &Tag) -> (c: usize)
        ensures
            c == pair_count(self@.facts, a@, b@),
    {
        let mut c: usize = 0;
        let mut i: usize = 0;
        while i < self.facts.len()
            invariant
                i <= self@.facts.len(),
                self@.facts.len() == self.facts@.len(),
                c == pc_upto(self@.facts, a@, b@, i as int),
                c <= i,
            decreases self@.facts.len() - i,
        {
            if self.facts[i].has_tag(a) && self.facts[i].has_tag(b) {
                c = c + 1;
            }
            i = i + 1;
        }
        c
    }

    /// Every unordered pair of tags that co-occurs on some stored fact,
    /// each pair exactly once.
    fn co_pairs(&self) -> (r: Vec<(Tag, Tag)>)
        requires
            self.wf(),
        ensures
            ({
                let pv = r@.map_values(|p: (Tag, Tag)| (p.0@, p.1@));
                &&& forall|k1: int, k2: int|
                    0 <= k1 < k2 < pv.len() ==> !same_pair(
                        #[trigger] pv[k1],
                        (#[trigger] pv[k2]).0,
                        pv[k2].1,
                    )
                &&& forall|k: int|
                    0 <= k < pv.len() ==> (#[trigger] pv[k]).0 != pv[k].1 && pair_count(
                        self@.facts,
                        pv[k].0,
                        pv[k].1,
                    ) > 0
                &&& forall|a: TagView, b: TagView|
                    a != b && #[trigger] pair_count(self@.facts, a, b) > 0 ==> listed_upto(
                        pv,
                        pv.len() as int,
                        a,
                        b,
                    )
            }),
    {
        let ghost fv = self@.facts;
        let mut r: Vec<(Tag, Tag)> = Vec::new();
        let mut fi: usize = 0;
        while fi < self.facts.len()
            invariant
                fi <= fv.len(),
                self@.facts == fv,
                self.facts@.len() == fv.len(),
                self.wf(),
                ({
                    let pv = r@.map_values(|p: (Tag, Tag)| (p.0@, p.1@));
                    &&& forall|k1: int, k2: int|
                        0 <= k1 < k2 < pv.len() ==> !same_pair(
                            #[trigger] pv[k1],
                            (#[trigger] pv[k2]).0,
                            pv[k2].1,
                        )
                    &&& forall|k: int|
                        0 <= k < pv.len() ==> (#[trigger] pv[k]).0 != pv[k].1 && pair_count(
                            fv,
                            pv[k].0,
                            pv[k].1,
                        ) > 0
                    &&& forall|a: TagView, b: TagView|
                        a != b && #[trigger] pc_upto(fv, a, b, fi as int) > 0 ==> listed_upto(
                            pv,
                            pv.len() as int,
                            a,
                            b,
                        )
                }),
            decreases fv.len() - fi,
        {
            let ghost tv = fv[fi as int].tags;
            let nt = self.facts[fi].tags.len();
            proof {
                assert(self.facts@[fi as int]@ == fv[fi as int]);
                assert(tv.len() == nt);
            }
            let mut i: usize = 0;
            while i < nt
                invariant
                    i <= nt,
                    fi < fv.len(),
                    self@.facts == fv,
                    self.facts@.len() == fv.len(),
                    self.wf(),
                    tv == fv[fi as int].tags,
                    tv.len() == nt,
                    nt == self.facts@[fi as int].tags@.len(),
                    forall|q: int|
                        0 <= q < nt ==> (#[trigger] self.facts@[fi as int].tags@[q])@ == tv[q],
                    ({
                        let pv = r@.map_values(|p: (Tag, Tag)| (p.0@, p.1@));
                        &&& forall|k1: int, k2: int|
                            0 <= k1 < k2 < pv.len() ==> !same_pair(
                                #[trigger] pv[k1],
                                (#[trigger] pv[k2]).0,
                                pv[k2].1,
                            )
                        &&& forall|k: int|
                            0 <= k < pv.len() ==> (#[trigger] pv[k]).0 != pv[k].1 && pair_count(
                                fv,
                                pv[k].0,
                                pv[k].1,
                            ) > 0
                        &&& forall|a: TagView, b: TagView|
                            a != b && #[trigger] pc_upto(fv, a, b, fi as int) > 0
                                ==> listed_upto(pv, pv.len() as int, a, b)
                        &&& forall|i0: int, j0: int|
                            0 <= i0 < i && i0 < j0 < tv.len() ==> listed_upto(
                                pv,
                                pv.len() as int,
                                #[trigger] tv[i0],
                                #[trigger] tv[j0],
                            )
                    }),
                decreases nt - i,
            {
                let mut j: usize = i + 1;
                while j < nt
                    invariant
                        i < j <= nt || (i + 1 == j && j <= nt),
                        i < nt,
                        j >= i + 1,
                        j <= nt,
                        fi < fv.len(),
                        self@.facts == fv,
                        self.facts@.len() == fv.len(),
                        self.wf(),
                        tv == fv[fi as int].tags,
                        tv.len() == nt,
                        nt == self.facts@[fi as int].tags@.len(),
                        forall|q: int|
                            0 <= q < nt ==> (#[trigger] self.facts@[fi as int].tags@[q])@
                                == tv[q],
                        ({
                            let pv = r@.map_values(|p: (Tag, Tag)| (p.0@, p.1@));
                            &&& forall|k1: int, k2: int|
                                0 <= k1 < k2 < pv.len() ==> !same_pair(
                                    #[trigger] pv[k1],
                                    (#[trigger] pv[k2]).0,
                                    pv[k2].1,
                                )
                            &&& forall|k: int|
                                0 <= k < pv.len() ==> (#[trigger] pv[k]).0 != pv[k].1
                                    && pair_count(fv, pv[k].0, pv[k].1) > 0
                            &&& forall|a: TagView, b: TagView|
                                a != b && #[trigger] pc_upto(fv, a, b, fi as int) > 0
                                    ==> listed_upto(pv, pv.len() as int, a, b)
                            &&& forall|i0: int, j0: int|
                                0 <= i0 < i && i0 < j0 < tv.len() ==> listed_upto(
                                    pv,
                                    pv.len() as int,
                                    #[trigger] tv[i0],
                                    #[trigger] tv[j0],
                                )
                            &&& forall|j0: int|
                                i < j0 < j ==> listed_upto(
                                    pv,
                                    pv.len() as int,
                                    tv[i as int],
                                    #[trigger] tv[j0],
                                )
                        }),
                    decreases nt - j,
                {
                    let ghost pv0 = r@.map_values(|p: (Tag, Tag)| (p.0@, p.1@));
                    let a_listed = pair_listed(
                        &r,
                        &self.facts[fi].tags[i],
                        &self.facts[fi].tags[j],
                    );
                    if !a_listed {
                        let ta = self.facts[fi].tags[i].clone();
                        let tb = self.facts[fi].tags[j].clone();
                        r.push((ta, tb));
                        proof {
                            let pv1 = r@.map_values(|p: (Tag, Tag)| (p.0@, p.1@));
                            assert(pv1 =~= pv0.push((tv[i as int], tv[j as int])));
                            assert(forall|k: int|
                                0 <= k < pv0.len() ==> pv1[k] == #[trigger] pv0[k]);
                            assert(pv1[pv1.len() - 1] == (tv[i as int], tv[j as int]));
                            // the fact's tag set has no duplicates
                            assert(tv[i as int] != tv[j as int]);
                            assert(fv[fi as int].tags.contains(tv[i as int]));
                            assert(fv[fi as int].tags.contains(tv[j as int]));
                            lemma_pc_pos(fv, tv[i as int], tv[j as int], fi as int, fv.len() as int);
                            assert forall|k1: int, k2: int|
                                0 <= k1 < k2 < pv1.len() implies !same_pair(
                                #[trigger] pv1[k1],
                                (#[trigger] pv1[k2]).0,
                                pv1[k2].1,
                            ) by {
                                if k2 < pv1.len() - 1 {
                                    assert(pv1[k1] == pv0[k1] && pv1[k2] == pv0[k2]);
                                } else {
                                    assert(pv1[k1] == pv0[k1]);
                                    assert(!listed_upto(pv0, pv0.len() as int, tv[i as int], tv[j as int]));
                                    if same_pair(pv0[k1], pv1[k2].0, pv1[k2].1) {
                                        assert(same_pair(pv0[k1], tv[i as int], tv[j as int]));
                                        assert(listed_upto(pv0, pv0.len() as int, tv[i as int], tv[j as int]));
                                    }
                                }
                            }
                            assert forall|a: TagView, b: TagView|
                                listed_upto(pv0, pv0.len() as int, a, b) implies listed_upto(
                                pv1,
                                pv1.len() as int,
                                a,
                                b,
                            ) by {
                                let k = choose|k: int|
                                    0 <= k < pv0.len() && same_pair(#[trigger] pv0[k], a, b);
                                assert(same_pair(pv1[k], a, b));
                            }
                            assert(listed_upto(pv1, pv1.len() as int, tv[i as int], tv[j as int]))
                                by {
                                assert(same_pair(pv1[pv1.len() - 1], tv[i as int], tv[j as int]));
                            }
                        }
                    }
                    j = j + 1;
                }
                proof {
                    let pv = r@.map_values(|p: (Tag, Tag)| (p.0@, p.1@));
                    assert forall|i0: int, j0: int|
                        0 <= i0 < i + 1 && i0 < j0 < tv.len() implies listed_upto(
                        pv,
                        pv.len() as int,
                        #[trigger] tv[i0],
                        #[trigger] tv[j0],
                    ) by {}
                }
                i = i + 1;
            }
            proof {
                let pv = r@.map_values(|p: (Tag, Tag)| (p.0@, p.1@));
                assert forall|a: TagView, b: TagView|
                    a != b && #[trigger] pc_upto(fv, a, b, fi + 1) > 0 implies listed_upto(
                    pv,
                    pv.len() as int,
                    a,
                    b,
                ) by {
                    if pc_upto(fv, a, b, fi as int) > 0 {
                    } else {
                        // the new fact carries both tags
                        assert(fv[fi as int].tags.contains(a) && fv[fi as int].tags.contains(b));
                        let ia = choose|ia: int| 0 <= ia < tv.len() && tv[ia] == a;
                        let ib = choose|ib: int| 0 <= ib < tv.len() && tv[ib] == b;
                        assert(ia != ib);
                        if ia < ib {
                            assert(listed_upto(pv, pv.len() as int, tv[ia], tv[ib]));
                            let k = choose|k: int|
                                0 <= k < pv.len() && same_pair(#[trigger] pv[k], tv[ia], tv[ib]);
                            assert(same_pair(pv[k], a, b));
                        } else {
                            assert(listed_upto(pv, pv.len() as int, tv[ib], tv[ia]));
                            let k = choose|k: int|
                                0 <= k < pv.len() && same_pair(#[trigger] pv[k], tv[ib], tv[ia]);
                            assert(same_pair(pv[k], a, b));
                        }
                    }
                }
            }
            fi = fi + 1;
        }
        r
    }

    /// Derive co-occurrence associations from shared tags: for every
    /// unordered pair of distinct tags carried together by `c >= 1`
    /// stored facts, add a bidirectional association of kind
    /// `CoOccurrence` with the fixed-point weight `min(1, ln c)` — 0 at
    /// one co-occurrence, ln 2 at two, 1.0 from three on. An existing
    /// edge takes the average of its old weight and that weight, and
    /// keeps its kind; every other edge, self-edges included, is left
    /// unchanged.
    pub fn build_co_occurrence_associations(&mut self)
        requires
            old(self).wf(),
        ensures
            final(self).wf(),
            final(self)@.facts == old(self)@.facts,
            final(self)@.tag_index == old(self)@.tag_index,
            final(self)@.entity_index == old(self)@.entity_index,
            forall|a: TagView, b: TagView|
                a != b && #[trigger] pair_count(old(self)@.facts, a, b) > 0 ==> bhas_target(
                    abucket(final(self)@.associations, a),
                    b,
                ) && bedge(abucket(final(self)@.associations, a), b) == bedge(
                    assoc_upsert(
                        abucket(old(self)@.associations, a),
                        b,
                        co_weight(pair_count(old(self)@.facts, a, b)) as u64,
                        AssociationType::CoOccurrence,
                    ),
                    b,
                ),
            forall|a: TagView, b: TagView|
                a != b && #[trigger] pair_count(old(self)@.facts, a, b) == 0 ==> bhas_target(
                    abucket(final(self)@.associations, a),
                    b,
                ) == bhas_target(abucket(old(self)@.associations, a), b) && (bhas_target(
                    abucket(old(self)@.associations, a),
                    b,
                ) ==> bedge(abucket(final(self)@.associations, a), b) == bedge(
                    abucket(old(self)@.associations, a),
                    b,
                )),
            forall|a: TagView|
                bhas_target(abucket(final(self)@.associations, a), a) == bhas_target(
                    #[trigger] abucket(old(self)@.associations, a),
                    a,
                ) && (bhas_target(abucket(old(self)@.associations, a), a) ==> bedge(
                    abucket(final(self)@.associations, a),
                    a,
                ) == bedge(abucket(old(self)@.associations, a), a)),
    {
        let ghost f0 = self@.facts;
        let ghost orig = self@.associations;
        let ghost t0 = self@.tag_index;
        let ghost e0 = self@.entity_index;
        let pairs = self.co_pairs();
        let ghost pvv = pairs@.map_values(|p: (Tag, Tag)| (p.0@, p.1@));
        let mut m: usize = 0;
        proof {
            assert(co_edges_ok(f0, orig, self@.associations, pvv, 0));
        }
        while m < pairs.len()
            invariant
                m <= pairs@.len(),
                pairs@.map_values(|p: (Tag, Tag)| (p.0@, p.1@)) == pvv,
                pvv.len() == pairs@.len(),
                forall|k1: int, k2: int|
                    0 <= k1 < k2 < pvv.len() ==> !same_pair(
                        #[trigger] pvv[k1],
                        (#[trigger] pvv[k2]).0,
                        pvv[k2].1,
                    ),
                forall|k: int|
                    0 <= k < pvv.len() ==> (#[trigger] pvv[k]).0 != pvv[k].1 && pair_count(
                        f0,
                        pvv[k].0,
                        pvv[k].1,
                    ) > 0,
                self.wf(),
                self@.facts == f0,
                self@.tag_index == t0,
                self@.entity_index == e0,
                akeys_distinct(orig),
                forall|k: int| 0 <= k < orig.len() ==> btargets_distinct((#[trigger] orig[k]).1),
                co_edges_ok(f0, orig, self@.associations, pvv, m as int),
            decreases pairs@.len() - m,
        {
            let a = pairs[m].0.clone();
            let b = pairs[m].1.clone();
            proof {
                assert(a@ == pvv[m as int].0);
                assert(b@ == pvv[m as int].1);
            }
            let c = self.count_pair(&a, &b);
            let w = co_weight_exec(c);
            let ghost pre = self@.associations;
            self.add_bidirectional_association(a, b, w, AssociationType::CoOccurrence);
            proof {
                lemma_co_step(f0, orig, pre, self@.associations, pvv, m as int, w);
            }
            m = m + 1;
        }
        proof {
            let cur = self@.associations;
            assert forall|a: TagView, b: TagView|
                a != b && #[trigger] pair_count(f0, a, b) > 0 implies bhas_target(
                abucket(cur, a),
                b,
            ) && bedge(abucket(cur, a), b) == bedge(
                assoc_upsert(
                    abucket(orig, a),
                    b,
                    co_weight(pair_count(f0, a, b)) as u64,
                    AssociationType::CoOccurrence,
                ),
                b,
            ) by {
                assert(listed_upto(pvv, pvv.len() as int, a, b));
            }
            assert forall|a: TagView, b: TagView|
                a != b && #[trigger] pair_count(f0, a, b) == 0 implies bhas_target(
                abucket(cur, a),
                b,
            ) == bhas_target(abucket(orig, a), b) && (bhas_target(abucket(orig, a), b)
                ==> bedge(abucket(cur, a), b) == bedge(abucket(orig, a), b)) by {
                assert(!listed_upto(pvv, pvv.len() as int, a, b)) by {
                    if listed_upto(pvv, pvv.len() as int, a, b) {
                        let k = choose|k: int|
                            0 <= k < pvv.len() && same_pair(#[trigger] pvv[k], a, b);
                        assert(pair_count(f0, pvv[k].0, pvv[k].1) > 0);
                        if pvv[k].0 == a && pvv[k].1 == b {
                            assert(false);
                        } else {
                            assert(pvv[k].0 == b && pvv[k].1 == a);
                            lemma_pc_sym(f0, a, b, f0.len() as int);
                            assert(false);
                        }
                    }
                }
            }
        }
    }

    /// All out-edges of a tag, in insertion order; empty when none exist.
    pub fn get_associations(&self, tag: &Tag) -> (r: Vec<&Association>)
        requires
            self.wf(),
        ensures
            r@.len() == abucket(self@.associations, tag@).len(),
            forall|j: int|
                0 <= j < r@.len() ==> (#[trigger] r@[j])@ == abucket(self@.associations, tag@)[j],
    {
        let mut r: Vec<&Association> = Vec::new();
        match self.assoc_index_pos(tag) {
            Some(i) => {
                proof {
                    lemma_assoc_at(self@.associations, i as int);
                }
                let bucket = &self.associations[i].1;
                let ghost bv = self@.associations[i as int].1;
                let mut j: usize = 0;
                while j < bucket.len()
                    invariant
                        j <= bucket@.len(),
                        bv == bucket@.map_values(|a: Association| a@),
                        bv.len() == bucket@.len(),
                        r@.len() == j,
                        forall|q: int| 0 <= q < j ==> (#[trigger] r@[q])@ == bv[q],
                    decreases bucket@.len() - j,
                {
                    r.push(&bucket[j]);
                    j = j + 1;
                }
                r
            },
            None => {
                proof {
                    assert(abucket(self@.associations, tag@) =~= Seq::<AssocView>::empty());
                }
                r
            },
        }
    }
}

} // verus!
