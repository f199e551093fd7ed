//! Facts: the knowledge records stored in the graph.

use vstd::prelude::*;
use crate::ids::EntityId;
use crate::ids::LocationId;
use crate::ids::QuestId;
use crate::ids::FactId;
use crate::tag::Tag;
use crate::tag::TagView;
use crate::tag::tag_eq;
use crate::world::WorldTime;
use crate::world::Season;
use crate::fixed::UNIT;
use crate::fixed::clamp_unit;

verus! {

/// Relationship types between entities.
#[derive(Debug, Clone, Copy, PartialEq, Eq, Structural)]
pub enum RelationshipType {
    Family,
    Friend,
    Enemy,
    Romantic,
    Professional,
    Rival,
    Mentor,
    Acquaintance,
}

/// Severity levels for secrets.
#[derive(Debug, Clone, Copy, PartialEq, Eq, Structural)]
pub enum SecretSeverity {
    /// Embarrassing but harmless.
    Minor,
    /// Damaging to reputation.
    Moderate,
    /// Life-changing consequences.
    Major,
    /// Could result in death or worse.
    Critical,
}

/// Sources of facts.
#[derive(Debug, Clone, Copy, PartialEq, Eq, Structural)]
pub enum FactSource {
    /// Part of initial game setup.
    Initial,
    /// Created by the narrative engine during play.
    LLMGenerated,
    /// Result of player choice.
    PlayerAction,
    /// Triggered by game mechanics.
    WorldEvent,
    /// Revealed through conversation.
    DialogueRevealed,
}

/// Types of facts in the knowledge base.
#[derive(Debug)]
pub enum FactType {
    /// Relationship between two entities, with a sentiment in millionths
    /// from -1.0 (hostile) to 1.0 (friendly).
    Relationship {
        entity_a: EntityId,
        entity_b: EntityId,
        relationship: RelationshipType,
        sentiment: i64,
    },
    /// A historical event.
    Event { description: String, participants: Vec<EntityId>, location: Option<LocationId> },
    /// A secret that could be revealed.
    Secret { holder: EntityId, severity: SecretSeverity },
    /// Character trait or personality note.
    Trait { entity: EntityId, trait_name: String },
    /// World lore.
    Lore { category: String },
    /// Quest-related information.
    Quest { quest_id: QuestId },
    /// Generic or custom fact.
    Generic,
}

/// The mathematical value of a fact type.
pub enum FactTypeView {
    Relationship { entity_a: u128, entity_b: u128, relationship: RelationshipType, sentiment: i64 },
    Event { description: Seq<char>, participants: Seq<u128>, location: Option<u128> },
    Secret { holder: u128, severity: SecretSeverity },
    Trait { entity: u128, trait_name: Seq<char> },
    Lore { category: Seq<char> },
    Quest { quest_id: u128 },
    Generic,
}

impl View for FactType {
    type V = FactTypeView;

    open spec fn view(&self) -> FactTypeView {
        match self {
            FactType::Relationship { entity_a, entity_b, relationship, sentiment } => (
            FactTypeView::Relationship {
                entity_a: entity_a.0,
                entity_b: entity_b.0,
                relationship: *relationship,
                sentiment: *sentiment,
            }),
            FactType::Event { description, participants, location } => (FactTypeView::Event {
                description: description@,
                participants: participants@.map_values(|e: EntityId| e.0),
                location: match location {
                    Some(l) => Some(l.0),
                    None => None,
                },
            }),
            FactType::Secret { holder, severity } => (FactTypeView::Secret {
                holder: holder.0,
                severity: *severity,
            }),
            FactType::Trait { entity, trait_name } => (FactTypeView::Trait {
                entity: entity.0,
                trait_name: trait_name@,
            }),
            FactType::Lore { category } => (FactTypeView::Lore { category: category@ }),
            FactType::Quest { quest_id } => (FactTypeView::Quest { quest_id: quest_id.0 }),
            FactType::Generic => FactTypeView::Generic,
        }
    }
}

/// The entities a fact type refers to directly.
pub open spec fn type_refs(t: FactTypeView, e: u128) -> bool {
    match t {
        FactTypeView::Relationship { entity_a, entity_b, .. } => e == entity_a || e == entity_b,
        FactTypeView::Secret { holder, .. } => e == holder,
        FactTypeView::Trait { entity, .. } => e == entity,
        _ => false,
    }
}

/// Membership in a pushed tag sequence decomposes into membership in the
/// base or equality with the new element.
pub proof fn lemma_tagseq_contains_push(s: Seq<TagView>, a: TagView, t: TagView)
    ensures
        s.push(a).contains(t) == (s.contains(t) || t == a),
{
    if s.contains(t) {
        let k = choose|k: int| 0 <= k < s.len() && s[k] == t;
        assert(s.push(a)[k] == t);
    }
    if t == a {
        assert(s.push(a)[s.len() as int] == t);
    }
    if s.push(a).contains(t) {
        let k = choose|k: int| 0 <= k < s.push(a).len() && s.push(a)[k] == t;
        if k < s.len() {
            assert(s[k] == t);
        }
    }
}

/// A fact is a piece of knowledge stored in the graph.
#[derive(Debug)]
pub struct Fact {
    pub id: FactId,
    /// Human-readable content of the fact.
    pub content: String,
    /// Type of fact for filtering and processing.
    pub fact_type: FactType,
    /// Tags this fact is associated with; a set, with no tag repeated.
    pub tags: Vec<Tag>,
    /// When this fact was added, in game time.
    pub timestamp: WorldTime,
    /// Importance score in millionths of 1.0, for prioritization.
    pub importance: u64,
    /// Whether this fact is known to the player.
    pub known_to_player: bool,
    /// Whether this fact has been revealed in narrative.
    pub revealed: bool,
    /// Optional expiration, for temporary facts.
    pub expires_at: Option<WorldTime>,
    /// Source of this fact.
    pub source: FactSource,
}

/// The mathematical value of a fact.
pub struct FactView {
    pub id: u128,
    pub content: Seq<char>,
    pub fact_type: FactTypeView,
    pub tags: Seq<TagView>,
    pub timestamp: WorldTime,
    pub importance: u64,
    pub known_to_player: bool,
    pub revealed: bool,
    pub expires_at: Option<WorldTime>,
    pub source: FactSource,
}

impl View for Fact {
    type V = FactView;

    open spec fn view(&self) -> FactView {
        FactView {
            id: self.id.0,
            content: self.content@,
            fact_type: self.fact_type@,
            tags: self.tags@.map_values(|t: Tag| t@),
            timestamp: self.timestamp,
            importance: self.importance,
            known_to_player: self.known_to_player,
            revealed: self.revealed,
            expires_at: self.expires_at,
            source: self.source,
        }
    }
}

/// The entities a fact is indexed under: those its type refers to, and
/// those named by its entity tags.
pub open spec fn fact_refs(f: FactView, e: u128) -> bool {
    type_refs(f.fact_type, e) || f.tags.contains(TagView::Entity(e))
}

impl Fact {
    /// The tag set holds no duplicates and the importance lies in
    /// `[0, UNIT]`.
    pub open spec fn wf(&self) -> bool {
        &&& forall|i: int, j: int| 0 <= i < j < self@.tags.len() ==> self@.tags[i] != self@.tags[j]
        &&& self.importance <= UNIT
    }

    /// Create a new fact with the given content and default settings.
    pub fn new(content: &str) -> (r: Self)
        ensures
            r.wf(),
            r@.content == content@,
            r@.fact_type is Generic,
            r@.tags.len() == 0,
            r@.timestamp == (WorldTime { day: 0, hour: 0, minute: 0, season: Season::Spring }),
            r@.importance == UNIT / 2,
            r@.known_to_player == true,
            r@.revealed == false,
            r@.expires_at is None,
            r@.source == FactSource::Initial,
    {
        Fact {
            id: FactId::new(),
            content: String::from_str(content),
            fact_type: FactType::Generic,
            tags: Vec::new(),
            timestamp: WorldTime::default(),
            importance: UNIT / 2,
            known_to_player: true,
            revealed: false,
            expires_at: None,
            source: FactSource::Initial,
        }
    }

    /// Set the fact type.
    pub fn with_type(self, fact_type: FactType) -> (r: Self)
        requires
            self.wf(),
        ensures
            r.wf(),
            r@ == (FactView { fact_type: fact_type@, ..self@ }),
    {
        let ghost tv = fact_type@;
        let r = Fact { fact_type, ..self };
        proof {
            assert(r@ == (FactView { fact_type: tv, ..self@ }));
        }
        r
    }

    /// Add a tag to this fact; adding a tag it already carries changes
    /// nothing.
    pub fn with_tag(self, tag: Tag) -> (r: Self)
        requires
            self.wf(),
        ensures
            r.wf(),
            self@.tags.contains(tag@) ==> r@ == self@,
            !self@.tags.contains(tag@) ==> r@ == (FactView {
                tags: self@.tags.push(tag@),
                ..self@
            }),
    {
        if self.has_tag(&tag) {
            self
        } else {
            let ghost tv = tag@;
            let Fact {
                id,
                content,
                fact_type,
                mut tags,
                timestamp,
                importance,
                known_to_player,
                revealed,
                expires_at,
                source,
            } = self;
            let ghost tags0 = tags@.map_values(|t: Tag| t@);
            tags.push(tag);
            let r = Fact {
                id,
                content,
                fact_type,
                tags,
                timestamp,
                importance,
                known_to_player,
                revealed,
                expires_at,
                source,
            };
            proof {
                assert(r@.tags =~= tags0.push(tv));
                assert(forall|i: int| 0 <= i < tags0.len() ==> r@.tags[i] == #[trigger] tags0[i]);
                assert forall|i: int, j: int| 0 <= i < j < r@.tags.len() implies r@.tags[i]
                    != r@.tags[j] by {
                    if j < r@.tags.len() - 1 {
                        assert(r@.tags[i] == tags0[i] && r@.tags[j] == tags0[j]);
                    } else {
                        assert(r@.tags[i] == tags0[i]);
                        assert(!tags0.contains(tv));
                    }
                }
            }
            r
        }
    }

    /// Add multiple tags to this fact, in order.
    pub fn with_tags(self, tags: Vec<Tag>) -> (r: Self)
        requires
            self.wf(),
        ensures
            r.wf(),
            r@.id == self@.id,
            r@.content == self@.content,
            r@.fact_type == self@.fact_type,
            r@.timestamp == self@.timestamp,
            r@.importance == self@.importance,
            r@.known_to_player == self@.known_to_player,
            r@.revealed == self@.revealed,
            r@.expires_at == self@.expires_at,
            r@.source == self@.source,
            forall|t: TagView| #[trigger] r@.tags.contains(t) == (self@.tags.contains(t)
                || tags@.map_values(|x: Tag| x@).contains(t)),
    {
        let ghost s0 = self@;
        let ghost given = tags@.map_values(|x: Tag| x@);
        let mut r = self;
        let mut i: usize = 0;
        let n = tags.len();
        proof {
            assert(given.take(0) =~= Seq::<TagView>::empty());
        }
        while i < n
            invariant
                i <= n,
                n == tags@.len(),
                tags@.map_values(|x: Tag| x@) == given,
                r.wf(),
                r@.id == s0.id,
                r@.content == s0.content,
                r@.fact_type == s0.fact_type,
                r@.timestamp == s0.timestamp,
                r@.importance == s0.importance,
                r@.known_to_player == s0.known_to_player,
                r@.revealed == s0.revealed,
                r@.expires_at == s0.expires_at,
                r@.source == s0.source,
                forall|t: TagView| #[trigger] r@.tags.contains(t) == (s0.tags.contains(t)
                    || given.take(i as int).contains(t)),
            decreases n - i,
        {
            let ghost rpre = r@;
            let t = tags[i].clone();
            proof {
                assert(t@ == given[i as int]);
            }
            r = r.with_tag(t);
            proof {
                assert(given.take(i + 1) =~= given.take(i as int).push(given[i as int]));
                assert forall|u: TagView| #[trigger] r@.tags.contains(u) == (s0.tags.contains(u)
                    || given.take(i + 1).contains(u)) by {
                    lemma_tagseq_contains_push(
                        given.take(i as int),
                        given[i as int],
                        u,
                    );
                    if !rpre.tags.contains(given[i as int]) {
                        lemma_tagseq_contains_push(rpre.tags, given[i as int], u);
                    }
                }
            }
            i = i + 1;
        }
        proof {
            assert(given.take(n as int) =~= given);
        }
        r
    }

    /// Set the importance score, clamped into `[0, UNIT]`.
    pub fn with_importance(self, importance: u64) -> (r: Self)
        requires
            self.wf(),
        ensures
            r.wf(),
            r@ == (FactView {
                importance: crate::fixed::clamp_unit_spec(importance as int) as u64,
                ..self@
            }),
    {
        let clamped = clamp_unit(importance);
        let r = Fact { importance: clamped, ..self };
        r
    }

    /// Set whether the fact is known to the player.
    pub fn with_known_to_player(self, known: bool) -> (r: Self)
        requires
            self.wf(),
        ensures
            r.wf(),
            r@ == (FactView { known_to_player: known, ..self@ }),
    {
        Fact { known_to_player: known, ..self }
    }

    /// Set the fact source.
    pub fn with_source(self, source: FactSource) -> (r: Self)
        requires
            self.wf(),
        ensures
            r.wf(),
            r@ == (FactView { source: source, ..self@ }),
    {
        Fact { source, ..self }
    }

    /// Set the timestamp.
    pub fn with_timestamp(self, timestamp: WorldTime) -> (r: Self)
        requires
            self.wf(),
        ensures
            r.wf(),
            r@ == (FactView { timestamp: timestamp, ..self@ }),
    {
        Fact { timestamp, ..self }
    }

    /// Check if this fact carries a specific tag.
    pub fn has_tag(&self, tag: &Tag) -> (r: bool)
        ensures
            r == self@.tags.contains(tag@),
    {
        let mut i: usize = 0;
        while i < self.tags.len()
            invariant
                i <= self.tags@.len(),
                forall|j: int| 0 <= j < i ==> self@.tags[j] != tag@,
            decreases self.tags@.len() - i,
        {
            if tag_eq(&self.tags[i], tag) {
                assert(self@.tags[i as int] == tag@);
                return true;
            }
            i = i + 1;
        }
        false
    }

    /// Check if this fact involves a specific entity through an entity
    /// tag.
    pub fn involves_entity(&self, entity_id: EntityId) -> (r: bool)
        ensures
            r == self@.tags.contains(TagView::Entity(entity_id.0)),
    {
        let t = Tag::entity(entity_id);
        self.has_tag(&t)
    }

    /// Mark this fact as revealed; a revealed fact is known to the player.
    pub fn mark_revealed(&mut self)
        ensures
            final(self)@ == (FactView {
                revealed: true,
                known_to_player: true,
                ..old(self)@
            }),
            old(self).wf() ==> final(self).wf(),
    {
        self.revealed = true;
        self.known_to_player = true;
    }
}

} // verus!
