//! Game events: the narrative core reacts to these.

use vstd::prelude::*;
use crate::ids::EntityId;
use crate::ids::LocationId;
use crate::tag::Tag;
use crate::tag::TagView;

verus! {

/// An event reported by the game, carrying the entities and places it
/// involves.
#[derive(Debug)]
pub enum GameEvent {
    /// A combat ability was used by one entity on another.
    CombatAbilityUsed { source: EntityId, target: EntityId, ability: String },
    /// A conversation begins, optionally about a topic.
    DialogueStarted { participants: Vec<EntityId>, topic: Option<String> },
    /// An entity enters a location.
    LocationEntered { entity: EntityId, location: LocationId },
    /// An entity died, possibly at the hands of another.
    EntityDied { entity: EntityId, killer: Option<EntityId> },
    /// Any other happening, described freely and tagged by the caller.
    Custom { description: String, tags: Vec<Tag>, entities: Vec<EntityId> },
}

/// The trigger tags an event contributes.
pub open spec fn event_tags(e: GameEvent) -> Seq<TagView> {
    match e {
        GameEvent::CombatAbilityUsed { source, target, .. } => seq![
            TagView::Entity(source.0),
            TagView::Entity(target.0),
            TagView::EventType("Combat"@),
        ],
        GameEvent::DialogueStarted { participants, .. } => participants@.map_values(
            |p: EntityId| TagView::Entity(p.0),
        ).push(TagView::EventType("Dialogue"@)),
        GameEvent::LocationEntered { entity, location } => seq![
            TagView::Entity(entity.0),
            TagView::Location(location.0),
        ],
        GameEvent::EntityDied { entity, killer } => match killer {
            Some(k) => seq![
                TagView::Entity(entity.0),
                TagView::Entity(k.0),
                TagView::EventType("Death"@),
            ],
            None => seq![TagView::Entity(entity.0), TagView::EventType("Death"@)],
        },
        GameEvent::Custom { tags, .. } => tags@.map_values(|t: Tag| t@),
    }
}

/// The entity an event is primarily about.
pub open spec fn event_primary(e: GameEvent) -> Option<EntityId> {
    match e {
        GameEvent::CombatAbilityUsed { source, .. } => Some(source),
        GameEvent::DialogueStarted { participants, .. } => if participants.len() > 0 {
            Some(participants[0])
        } else {
            None
        },
        GameEvent::LocationEntered { entity, .. } => Some(entity),
        GameEvent::EntityDied { entity, .. } => Some(entity),
        GameEvent::Custom { entities, .. } => if entities.len() > 0 {
            Some(entities[0])
        } else {
            None
        },
    }
}

/// The entities an event involves, in order.
pub open spec fn event_entities(e: GameEvent) -> Seq<EntityId> {
    match e {
        GameEvent::CombatAbilityUsed { source, target, .. } => seq![source, target],
        GameEvent::DialogueStarted { participants, .. } => participants@,
        GameEvent::LocationEntered { entity, .. } => seq![entity],
        GameEvent::EntityDied { entity, killer } => match killer {
            Some(k) => seq![entity, k],
            None => seq![entity],
        },
        GameEvent::Custom { entities, .. } => entities@,
    }
}

impl GameEvent {
    /// The trigger tags this event contributes.
    pub fn to_tags(&self) -> (r: Vec<Tag>)
        ensures
            r@.map_values(|t: Tag| t@) == event_tags(*self),
    {
        let mut r: Vec<Tag> = Vec::new();
        match self {
            GameEvent::CombatAbilityUsed { source, target, .. } => {
                r.push(Tag::entity(*source));
                r.push(Tag::entity(*target));
                r.push(Tag::event_type("Combat"));
                proof {
                    assert(r@.map_values(|t: Tag| t@) =~= event_tags(*self));
                }
            },
            GameEvent::DialogueStarted { participants, .. } => {
                let mut i: usize = 0;
                while i < participants.len()
                    invariant
                        i <= participants@.len(),
                        r@.len() == i,
                        forall|j: int|
                            0 <= j < i ==> (#[trigger] r@[j])@ == TagView::Entity(
                                participants@[j].0,
                            ),
                    decreases participants@.len() - i,
                {
                    r.push(Tag::entity(participants[i]));
                    i = i + 1;
                }
                r.push(Tag::event_type("Dialogue"));
                proof {
                    assert(r@.map_values(|t: Tag| t@) =~= event_tags(*self));
                }
            },
            GameEvent::LocationEntered { entity, location } => {
                r.push(Tag::entity(*entity));
                r.push(Tag::location(*location));
                proof {
                    assert(r@.map_values(|t: Tag| t@) =~= event_tags(*self));
                }
            },
            GameEvent::EntityDied { entity, killer } => {
                r.push(Tag::entity(*entity));
                match killer {
                    Some(k) => {
                        r.push(Tag::entity(*k));
                    },
                    None => {},
                }
                r.push(Tag::event_type("Death"));
                proof {
                    assert(r@.map_values(|t: Tag| t@) =~= event_tags(*self));
                }
            },
            GameEvent::Custom { tags, .. } => {
                let mut i: usize = 0;
                while i < tags.len()
                    invariant
                        i <= tags@.len(),
                        r@.len() == i,
                        forall|j: int| 0 <= j < i ==> (#[trigger] r@[j])@ == tags@[j]@,
                    decreases tags@.len() - i,
                {
                    r.push(tags[i].clone());
                    i = i + 1;
                }
                proof {
                    assert(r@.map_values(|t: Tag| t@) =~= event_tags(*self));
                }
            },
        }
        r
    }

    /// The entity this event is primarily about, if any.
    pub fn primary_entity(&self) -> (r: Option<EntityId>)
        ensures
            r == event_primary(*self),
    {
        match self {
            GameEvent::CombatAbilityUsed { source, .. } => Some(*source),
            GameEvent::DialogueStarted { participants, .. } => {
                if participants.len() > 0 {
                    Some(participants[0])
                } else {
                    None
                }
            },
            GameEvent::LocationEntered { entity, .. } => Some(*entity),
            GameEvent::EntityDied { entity, .. } => Some(*entity),
            GameEvent::Custom { entities, .. } => {
                if entities.len() > 0 {
                    Some(entities[0])
                } else {
                    None
                }
            },
        }
    }

    /// All entities this event involves, in order.
    pub fn involved_entities(&self) -> (r: Vec<EntityId>)
        ensures
            r@ == event_entities(*self),
    {
        let mut r: Vec<EntityId> = Vec::new();
        match self {
            GameEvent::CombatAbilityUsed { source, target, .. } => {
                r.push(*source);
                r.push(*target);
                proof {
                    assert(r@ =~= event_entities(*self));
                }
            },
            GameEvent::DialogueStarted { participants, .. } => {
                let mut i: usize = 0;
                while i < participants.len()
                    invariant
                        i <= participants@.len(),
                        r@ == participants@.take(i as int),
                    decreases participants@.len() - i,
                {
                    r.push(participants[i]);
                    proof {
                        assert(r@ =~= participants@.take(i + 1));
                    }
                    i = i + 1;
                }
                proof {
                    assert(participants@.take(participants@.len() as int) =~= participants@);
                }
            },
            GameEvent::LocationEntered { entity, .. } => {
                r.push(*entity);
                proof {
                    assert(r@ =~= event_entities(*self));
                }
            },
            GameEvent::EntityDied { entity, killer } => {
                r.push(*entity);
                match killer {
                    Some(k) => {
                        r.push(*k);
                    },
                    None => {},
                }
                proof {
                    assert(r@ =~= event_entities(*self));
                }
            },
            GameEvent::Custom { entities, .. } => {
                let mut i: usize = 0;
                while i < entities.len()
                    invariant
                        i <= entities@.len(),
                        r@ == entities@.take(i as int),
                    decreases entities@.len() - i,
                {
                    r.push(entities[i]);
                    proof {
                        assert(r@ =~= entities@.take(i + 1));
                    }
                    i = i + 1;
                }
                proof {
                    assert(entities@.take(entities@.len() as int) =~= entities@);
                }
            },
        }
        r
    }
}

} // verus!
