use narrative_core::activation::ActivationState;
use narrative_core::assembler::ActivationConfig;
use narrative_core::assembler::ContextAssembler;
use narrative_core::context::AssembledContext;
use narrative_core::context::CharacterContext;
use narrative_core::context::WorldContext;
use narrative_core::entities::Character;
use narrative_core::entities::StatType;
use narrative_core::entities::StatsComponent;
use narrative_core::events::GameEvent;
use narrative_core::fact::Fact;
use narrative_core::fact::FactType;
use narrative_core::fact::RelationshipType;
use narrative_core::graph::AssociationType;
use narrative_core::graph::KnowledgeGraph;
use narrative_core::ids::EntityId;
use narrative_core::ids::LocationId;
use narrative_core::mechanics::ResistanceType;
use narrative_core::tag::Tag;
use narrative_core::world::Season;
use narrative_core::world::Weather;
use narrative_core::world::WorldState;
use narrative_core::world::WorldTime;
use narrative_core::UNIT;

#[test]
fn test_stats_modifier() {
    let stats = StatsComponent {
        strength: 18,
        dexterity: 14,
        constitution: 12,
        intelligence: 8,
        wisdom: 10,
        charisma: 16,
        ..Default::default()
    };

    assert_eq!(stats.modifier(StatType::Strength), 4);
    assert_eq!(stats.modifier(StatType::Dexterity), 2);
    assert_eq!(stats.modifier(StatType::Constitution), 1);
    assert_eq!(stats.modifier(StatType::Intelligence), -1);
    assert_eq!(stats.modifier(StatType::Wisdom), 0);
    assert_eq!(stats.modifier(StatType::Charisma), 3);
}

#[test]
fn test_default_stats() {
    let stats = StatsComponent::default();
    assert_eq!(stats.strength, 10);
    assert_eq!(stats.modifier(StatType::Strength), 0);
}

#[test]
fn test_resistance_multipliers() {
    assert_eq!(ResistanceType::Vulnerable.multiplier(), 2_000_000);
    assert_eq!(ResistanceType::Normal.multiplier(), 1_000_000);
    assert_eq!(ResistanceType::Resistant.multiplier(), 500_000);
    assert_eq!(ResistanceType::Immune.multiplier(), 0);
}

#[test]
fn test_new_character() {
    let character = Character::new("Test Hero");
    assert_eq!(character.name, "Test Hero");
    assert!(character.is_alive());
    assert!(character.title.is_none());
}

#[test]
fn test_character_death() {
    let mut character = Character::new("Doomed");
    character.stats.current_hp = 0;
    assert!(!character.is_alive());
}

#[test]
fn test_tag_creation() {
    let concept = Tag::concept("Magic");
    assert!(matches!(concept, Tag::Concept(s) if s == "Magic"));

    let faction = Tag::faction("Knights");
    assert!(matches!(faction, Tag::Faction(s) if s == "Knights"));
}

#[test]
fn test_tag_as_string() {
    let concept = Tag::concept("Combat");
    assert_eq!(concept.as_string(), "concept:Combat");

    let entity = Tag::entity(EntityId::nil());
    assert!(entity.as_string().starts_with("entity:"));
}

#[test]
fn test_tag_equality() {
    let tag1 = Tag::concept("Magic");
    let tag2 = Tag::concept("Magic");
    let tag3 = Tag::concept("Combat");

    assert_eq!(tag1, tag2);
    assert_ne!(tag1, tag3);
}

#[test]
fn test_tag_category() {
    assert_eq!(Tag::concept("Test").category(), "concept");
    assert_eq!(Tag::entity(EntityId::nil()).category(), "entity");
    assert_eq!(Tag::faction("Guild").category(), "faction");
}

#[test]
fn test_id_canonical_form() {
    let id = EntityId::nil();
    assert_eq!(
        id.to_canonical_string(),
        "00000000-0000-0000-0000-000000000000"
    );
    let id = EntityId::from_uuid(0xa1a2a3a4b1b2c1c2d1d2d3d4d5d6d7d8);
    assert_eq!(
        id.to_canonical_string(),
        "a1a2a3a4-b1b2-c1c2-d1d2-d3d4d5d6d7d8"
    );
}

#[test]
fn test_fact_creation() {
    let fact = Fact::new("The hero defeated the dragon");
    assert_eq!(fact.content, "The hero defeated the dragon");
    assert_eq!(fact.importance, 500_000);
    assert!(fact.known_to_player);
    assert!(!fact.revealed);
}

#[test]
fn test_fact_builder() {
    let fact = Fact::new("Secret alliance")
        .with_importance(900_000)
        .with_known_to_player(false)
        .with_tag(Tag::concept("Politics"))
        .with_tag(Tag::faction("Kingdom"))
        .with_source(narrative_core::fact::FactSource::Initial);

    assert_eq!(fact.importance, 900_000);
    assert!(!fact.known_to_player);
    assert_eq!(fact.tags.len(), 2);
    assert!(fact.has_tag(&Tag::concept("Politics")));
}

#[test]
fn test_fact_importance_clamping() {
    let fact_high = Fact::new("Test").with_importance(1_500_000);
    assert_eq!(fact_high.importance, 1_000_000);

    let fact_low = Fact::new("Test").with_importance(0);
    assert_eq!(fact_low.importance, 0);
}

#[test]
fn test_fact_reveal() {
    let mut fact = Fact::new("Hidden truth").with_known_to_player(false);
    assert!(!fact.known_to_player);
    assert!(!fact.revealed);

    fact.mark_revealed();
    assert!(fact.known_to_player);
    assert!(fact.revealed);
}

#[test]
fn test_relationship_fact() {
    let entity_a = EntityId::new();
    let entity_b = EntityId::new();

    let fact = Fact::new("They are childhood friends")
        .with_type(FactType::Relationship {
            entity_a,
            entity_b,
            relationship: RelationshipType::Friend,
            sentiment: 800_000,
        })
        .with_tag(Tag::entity(entity_a))
        .with_tag(Tag::entity(entity_b));

    assert!(fact.involves_entity(entity_a));
    assert!(fact.involves_entity(entity_b));
}

#[test]
fn test_add_and_get_fact() {
    let mut graph = KnowledgeGraph::new();

    let fact = Fact::new("The kingdom is at war")
        .with_tag(Tag::concept("War"))
        .with_tag(Tag::faction("Kingdom"));

    let id = graph.add_fact(fact);

    let retrieved = graph.get_fact(id);
    assert!(retrieved.is_some());
    assert_eq!(retrieved.unwrap().content, "The kingdom is at war");
}

#[test]
fn test_facts_by_tag() {
    let mut graph = KnowledgeGraph::new();

    let war_tag = Tag::concept("War");

    graph.add_fact(Fact::new("Battle of the plains").with_tag(war_tag.clone()));
    graph.add_fact(Fact::new("Siege of the castle").with_tag(war_tag.clone()));
    graph.add_fact(Fact::new("Peace treaty signed").with_tag(Tag::concept("Peace")));

    let war_facts = graph.facts_by_tag(&war_tag);
    assert_eq!(war_facts.len(), 2);
}

#[test]
fn test_associations() {
    let mut graph = KnowledgeGraph::new();

    let villain = Tag::concept("Villain");
    let magic = Tag::concept("Magic");
    let darkness = Tag::concept("Darkness");

    graph.add_association(villain.clone(), magic.clone(), 700_000, AssociationType::Direct);
    graph.add_association(villain.clone(), darkness.clone(), 900_000, AssociationType::Direct);

    let assocs = graph.get_associations(&villain);
    assert_eq!(assocs.len(), 2);

    let magic_assoc = assocs.iter().find(|a| a.target == magic);
    assert!(magic_assoc.is_some());
    assert_eq!(magic_assoc.unwrap().weight, 700_000);
}

#[test]
fn test_association_weight_averaging() {
    let mut graph = KnowledgeGraph::new();
    let a = Tag::concept("A");
    let b = Tag::concept("B");
    graph.add_association(a.clone(), b.clone(), 600_000, AssociationType::Direct);
    graph.add_association(a.clone(), b.clone(), 800_000, AssociationType::Semantic);
    let assocs = graph.get_associations(&a);
    assert_eq!(assocs.len(), 1);
    assert_eq!(assocs[0].weight, 700_000);
    assert_eq!(assocs[0].association_type, AssociationType::Direct);
}

#[test]
fn test_association_weight_clamped() {
    let mut graph = KnowledgeGraph::new();
    let a = Tag::concept("A");
    let b = Tag::concept("B");
    graph.add_association(a.clone(), b.clone(), 5_000_000, AssociationType::Direct);
    let assocs = graph.get_associations(&a);
    assert_eq!(assocs[0].weight, UNIT);
}

#[test]
fn test_bidirectional_associations() {
    let mut graph = KnowledgeGraph::new();

    let tag_a = Tag::concept("A");
    let tag_b = Tag::concept("B");

    graph.add_bidirectional_association(tag_a.clone(), tag_b.clone(), 800_000, AssociationType::Semantic);

    assert_eq!(graph.get_associations(&tag_a).len(), 1);
    assert_eq!(graph.get_associations(&tag_b).len(), 1);
}

#[test]
fn test_facts_by_entity() {
    let mut graph = KnowledgeGraph::new();

    let entity_a = EntityId::new();
    let entity_b = EntityId::new();

    graph.add_fact(
        Fact::new("They are allies")
            .with_type(FactType::Relationship {
                entity_a,
                entity_b,
                relationship: RelationshipType::Friend,
                sentiment: 800_000,
            })
            .with_tag(Tag::entity(entity_a))
            .with_tag(Tag::entity(entity_b)),
    );

    graph.add_fact(Fact::new("Hero's trait").with_tag(Tag::entity(entity_a)));

    let entity_a_facts = graph.facts_by_entity(entity_a);
    assert_eq!(entity_a_facts.len(), 2);

    let entity_b_facts = graph.facts_by_entity(entity_b);
    assert_eq!(entity_b_facts.len(), 1);
}

#[test]
fn test_reveal_fact() {
    let mut graph = KnowledgeGraph::new();

    let fact = Fact::new("Secret identity").with_known_to_player(false);
    let id = graph.add_fact(fact);

    assert!(!graph.get_fact(id).unwrap().revealed);
    assert!(!graph.get_fact(id).unwrap().known_to_player);

    graph.reveal_fact(id);

    assert!(graph.get_fact(id).unwrap().revealed);
    assert!(graph.get_fact(id).unwrap().known_to_player);
}

#[test]
fn test_remove_fact() {
    let mut graph = KnowledgeGraph::new();

    let tag = Tag::concept("Test");
    let fact = Fact::new("Removable fact").with_tag(tag.clone());
    let id = graph.add_fact(fact);

    assert!(graph.get_fact(id).is_some());
    assert_eq!(graph.facts_by_tag(&tag).len(), 1);

    let removed = graph.remove_fact(id);
    assert!(removed.is_some());
    assert!(graph.get_fact(id).is_none());
    assert_eq!(graph.facts_by_tag(&tag).len(), 0);
}

#[test]
fn test_important_facts() {
    let mut graph = KnowledgeGraph::new();

    graph.add_fact(Fact::new("Minor detail").with_importance(200_000));
    graph.add_fact(Fact::new("Important event").with_importance(800_000));
    graph.add_fact(Fact::new("Critical secret").with_importance(1_000_000));

    let important = graph.important_facts(700_000);
    assert_eq!(important.len(), 2);
}

#[test]
fn test_unrevealed_secrets() {
    let mut graph = KnowledgeGraph::new();
    let holder = EntityId::new();
    let id = graph.add_fact(
        Fact::new("A dark secret").with_type(FactType::Secret {
            holder,
            severity: narrative_core::fact::SecretSeverity::Major,
        }),
    );
    assert_eq!(graph.unrevealed_secrets(holder).len(), 1);
    graph.reveal_fact(id);
    assert_eq!(graph.unrevealed_secrets(holder).len(), 0);
}

#[test]
fn test_activation_state_basic() {
    let mut state = ActivationState::new();

    let tag = Tag::concept("Test");
    state.add_energy(tag.clone(), 500_000);

    assert_eq!(state.get_energy(&tag), 500_000);
    assert!(state.is_active(&tag));
}

#[test]
fn test_energy_accumulation() {
    let mut state = ActivationState::new();

    let tag = Tag::concept("Test");
    state.add_energy(tag.clone(), 300_000);
    state.add_energy(tag.clone(), 400_000);

    assert_eq!(state.get_energy(&tag), 700_000);
}

#[test]
fn test_hot_tags() {
    let mut state = ActivationState::new();

    state.add_energy(Tag::concept("High"), 900_000);
    state.add_energy(Tag::concept("Medium"), 500_000);
    state.add_energy(Tag::concept("Low"), 100_000);

    let hot = state.hot_tags(400_000);
    assert_eq!(hot.len(), 2);
    assert_eq!(hot[0].0, Tag::concept("High"));
    assert_eq!(hot[1].0, Tag::concept("Medium"));
}

#[test]
fn test_hottest_tag() {
    let mut state = ActivationState::new();

    state.add_energy(Tag::concept("A"), 300_000);
    state.add_energy(Tag::concept("B"), 900_000);
    state.add_energy(Tag::concept("C"), 500_000);

    let hottest = state.hottest_tag();
    assert!(hottest.is_some());
    assert_eq!(hottest.unwrap().0, Tag::concept("B"));
}

#[test]
fn test_decay() {
    let mut state = ActivationState::new();

    state.add_energy(Tag::concept("Test"), 1_000_000);
    state.apply_decay(500_000);

    assert_eq!(state.get_energy(&Tag::concept("Test")), 500_000);
}

#[test]
fn test_decay_composition() {
    let mut once = ActivationState::new();
    once.add_energy(Tag::concept("Test"), 1_000_000);
    once.apply_decay(500_000);
    once.apply_decay(400_000);

    let mut combined = ActivationState::new();
    combined.add_energy(Tag::concept("Test"), 1_000_000);
    combined.apply_decay(200_000);

    assert_eq!(
        once.get_energy(&Tag::concept("Test")),
        combined.get_energy(&Tag::concept("Test"))
    );
}

#[test]
fn test_prune() {
    let mut state = ActivationState::new();

    state.add_energy(Tag::concept("High"), 900_000);
    state.add_energy(Tag::concept("Low"), 100_000);

    state.prune(500_000);

    assert!(state.is_active(&Tag::concept("High")));
    assert!(!state.is_active(&Tag::concept("Low")));
    assert_eq!(state.active_count(), 1);
}

#[test]
fn test_normalize() {
    let mut state = ActivationState::new();

    state.add_energy(Tag::concept("A"), 500_000);
    state.add_energy(Tag::concept("B"), 1_000_000);

    state.normalize();

    assert_eq!(state.get_energy(&Tag::concept("B")), 1_000_000);
    assert_eq!(state.get_energy(&Tag::concept("A")), 500_000);
}

#[test]
fn test_normalize_idempotent() {
    let mut state = ActivationState::new();
    state.add_energy(Tag::concept("A"), 300_000);
    state.add_energy(Tag::concept("B"), 750_000);
    state.normalize();
    let a_once = state.get_energy(&Tag::concept("A"));
    let b_once = state.get_energy(&Tag::concept("B"));
    state.normalize();
    assert_eq!(state.get_energy(&Tag::concept("A")), a_once);
    assert_eq!(state.get_energy(&Tag::concept("B")), b_once);
}

#[test]
fn test_merge() {
    let mut state1 = ActivationState::new();
    let mut state2 = ActivationState::new();

    state1.add_energy(Tag::concept("A"), 500_000);
    state2.add_energy(Tag::concept("A"), 300_000);
    state2.add_energy(Tag::concept("B"), 700_000);

    state1.merge(&state2);

    assert_eq!(state1.get_energy(&Tag::concept("A")), 800_000);
    assert_eq!(state1.get_energy(&Tag::concept("B")), 700_000);
}

#[test]
fn test_total_energy() {
    let mut state = ActivationState::new();

    state.add_energy(Tag::concept("A"), 300_000);
    state.add_energy(Tag::concept("B"), 400_000);
    state.add_energy(Tag::concept("C"), 300_000);

    assert_eq!(state.total_energy(), 1_000_000);
}

#[test]
fn test_world_time_is_night() {
    let mut state = WorldState::new();

    state.time.hour = 14;
    assert!(!state.is_night());

    state.time.hour = 22;
    assert!(state.is_night());

    state.time.hour = 4;
    assert!(state.is_night());
}

#[test]
fn test_advance_time() {
    let mut state = WorldState::new();
    state.time = WorldTime::new(1, 23, 30, Season::Spring);

    state.advance_time(60);

    assert_eq!(state.time.hour, 0);
    assert_eq!(state.time.minute, 30);
    assert_eq!(state.time.day, 2);
}

#[test]
fn test_season_thresholds() {
    let mut state = WorldState::new();
    state.time = WorldTime::new(0, 0, 0, Season::Spring);
    state.advance_time(90 * 24 * 60);
    assert_eq!(state.time.day, 90);
    assert_eq!(state.time.season, Season::Summer);
    state.advance_time(90 * 24 * 60);
    assert_eq!(state.time.season, Season::Autumn);
    state.advance_time(90 * 24 * 60);
    assert_eq!(state.time.season, Season::Winter);
}

#[test]
fn test_danger_level() {
    let mut state = WorldState::new();
    state.environment.ambient_danger_level = 300_000;

    state.time.hour = 12;
    state.environment.weather = Weather::Clear;
    assert_eq!(state.current_danger_level(), 300_000);

    state.time.hour = 22;
    assert_eq!(state.current_danger_level(), 500_000);

    state.environment.weather = Weather::Stormy;
    assert_eq!(state.current_danger_level(), 650_000);

    state.environment.ambient_danger_level = 900_000;
    assert_eq!(state.current_danger_level(), 1_000_000);
}

#[test]
fn test_add_character() {
    let mut state = WorldState::new();
    let character = Character::new("Test Hero");
    let id = character.id;

    state.add_character(character);

    assert!(state.get_character(id).is_some());
    assert_eq!(state.get_character(id).unwrap().name, "Test Hero");
}

fn setup_test_graph() -> KnowledgeGraph {
    let mut graph = KnowledgeGraph::new();

    let villain = EntityId::new();
    let priestess = EntityId::new();

    let villain_tag = Tag::entity(villain);
    let priestess_tag = Tag::entity(priestess);
    let magic_tag = Tag::concept("Magic");
    let orphanage_tag = Tag::concept("Orphanage");

    graph.add_association(villain_tag.clone(), orphanage_tag.clone(), 900_000, AssociationType::Direct);
    graph.add_association(priestess_tag.clone(), orphanage_tag.clone(), 900_000, AssociationType::Direct);
    graph.add_association(villain_tag.clone(), magic_tag.clone(), 700_000, AssociationType::Direct);
    graph.add_association(priestess_tag.clone(), magic_tag.clone(), 800_000, AssociationType::Direct);

    graph.add_fact(
        Fact::new("The villain and priestess grew up in Morning Star orphanage")
            .with_tag(villain_tag.clone())
            .with_tag(priestess_tag.clone())
            .with_tag(orphanage_tag.clone())
            .with_importance(900_000),
    );

    graph.add_fact(
        Fact::new("Both trained in magical arts from a young age")
            .with_tag(villain_tag)
            .with_tag(priestess_tag)
            .with_tag(magic_tag)
            .with_importance(700_000),
    );

    graph
}

#[test]
fn test_spreading_activation() {
    let graph = setup_test_graph();
    let assembler = ContextAssembler::with_defaults();

    let trigger = vec![Tag::concept("Orphanage")];
    let activation = assembler.spread_activation(&graph, trigger);

    assert!(activation.get_energy(&Tag::concept("Orphanage")) >= 900_000);
}

#[test]
fn test_activation_decay() {
    let mut graph = KnowledgeGraph::new();

    let tag_a = Tag::concept("A");
    let tag_b = Tag::concept("B");
    let tag_c = Tag::concept("C");

    graph.add_association(tag_a.clone(), tag_b.clone(), 800_000, AssociationType::Direct);
    graph.add_association(tag_b.clone(), tag_c.clone(), 800_000, AssociationType::Direct);

    let config = ActivationConfig {
        initial_energy: 1_000_000,
        decay_rate: 500_000,
        max_depth: 1,
        energy_threshold: 10_000,
        max_facts: 10,
    };

    let assembler = ContextAssembler::new(config);
    let activation = assembler.spread_activation(&graph, vec![tag_a.clone()]);

    let energy_a = activation.get_energy(&tag_a);
    let energy_b = activation.get_energy(&tag_b);
    let energy_c = activation.get_energy(&tag_c);

    // depth 1: A keeps 1.0, B gets 1.0 * 0.8 * 0.5, C is not reached
    assert_eq!(energy_a, 1_000_000);
    assert_eq!(energy_b, 400_000);
    assert_eq!(energy_c, 0);
    assert!(energy_a > energy_b, "energy_a ({}) should be > energy_b ({})", energy_a, energy_b);
    assert!(energy_b > 0, "energy_b ({}) should be > 0", energy_b);
}

#[test]
fn test_activation_multi_hop() {
    let mut graph = KnowledgeGraph::new();

    let tag_a = Tag::concept("A");
    let tag_b = Tag::concept("B");
    let tag_c = Tag::concept("C");

    graph.add_association(tag_a.clone(), tag_b.clone(), 800_000, AssociationType::Direct);
    graph.add_association(tag_b.clone(), tag_c.clone(), 800_000, AssociationType::Direct);

    let config = ActivationConfig {
        initial_energy: 1_000_000,
        decay_rate: 500_000,
        max_depth: 2,
        energy_threshold: 10_000,
        max_facts: 10,
    };

    let assembler = ContextAssembler::new(config);
    let activation = assembler.spread_activation(&graph, vec![tag_a.clone()]);

    let energy_a = activation.get_energy(&tag_a);
    let energy_b = activation.get_energy(&tag_b);
    let energy_c = activation.get_energy(&tag_c);

    assert!(energy_a > 0);
    assert!(energy_b > 0);
    // depth 2: C = 0.4 * 0.8 * 0.5 = 0.16
    assert_eq!(energy_c, 160_000);
    assert!(energy_b > energy_c, "energy_b ({}) should be > energy_c ({})", energy_b, energy_c);
}

#[test]
fn test_collect_facts() {
    let graph = setup_test_graph();
    let assembler = ContextAssembler::with_defaults();

    let trigger = vec![Tag::concept("Orphanage")];
    let activation = assembler.spread_activation(&graph, trigger);
    let facts = assembler.collect_facts(&graph, &activation);

    assert!(!facts.is_empty());
    assert!(facts.iter().any(|f| f.content.contains("Morning Star orphanage")));
}

#[test]
fn test_collect_facts_deterministic() {
    let graph = setup_test_graph();
    let assembler = ContextAssembler::with_defaults();

    let activation = assembler.spread_activation(&graph, vec![Tag::concept("Orphanage")]);
    let first: Vec<String> = assembler
        .collect_facts(&graph, &activation)
        .iter()
        .map(|f| f.content.clone())
        .collect();
    let second: Vec<String> = assembler
        .collect_facts(&graph, &activation)
        .iter()
        .map(|f| f.content.clone())
        .collect();
    assert_eq!(first, second);
}

#[test]
fn test_assemble_context() {
    let mut graph = setup_test_graph();
    let mut world_state = WorldState::new();

    let hero = Character::new("Hero");
    let hero_id = world_state.add_character(hero);

    graph.add_fact(
        Fact::new("The hero is brave and just")
            .with_tag(Tag::entity(hero_id))
            .with_importance(600_000),
    );

    let assembler = ContextAssembler::with_defaults();

    let event = GameEvent::LocationEntered {
        entity: hero_id,
        location: LocationId::new(),
    };

    let context = assembler.assemble_context(&event, &graph, &world_state);

    assert!(!context.event_description.is_empty());
}

#[test]
fn test_context_to_prompt() {
    let context = AssembledContext {
        event_description: "Hero enters the dark forest".to_string(),
        relevant_facts: vec![
            "The forest is haunted".to_string(),
            "Dangerous creatures lurk within".to_string(),
        ],
        world_context: WorldContext {
            time_of_day: "22:00".to_string(),
            day: 42,
            season: Season::Autumn,
            weather: Weather::Foggy,
            is_night: true,
        },
        character_context: vec![CharacterContext {
            name: "Hero".to_string(),
            title: Some("The Brave".to_string()),
            current_hp_percent: 80,
            active_statuses: vec![],
            personality: vec!["brave".to_string()],
        }],
        activated_tags: vec![],
    };

    let prompt = context.to_prompt_string();

    assert!(prompt.contains("Hero enters the dark forest"));
    assert!(prompt.contains("22:00"));
    assert!(prompt.contains("Night"));
    assert!(prompt.contains("Foggy"));
    assert!(prompt.contains("- Hero, The Brave: HP 80%, Conditions: None"));
    assert!(prompt.contains("forest is haunted"));
}

#[test]
fn test_tag_hash() {
    let mut set = std::collections::HashSet::new();
    set.insert(Tag::concept("Magic"));
    set.insert(Tag::concept("Magic"));

    assert_eq!(set.len(), 1);
}

#[test]
fn test_co_occurrence_associations() {
    let mut graph = KnowledgeGraph::new();

    let magic = Tag::concept("Magic");
    let combat = Tag::concept("Combat");
    let villain = Tag::concept("Villain");

    graph.add_fact(
        Fact::new("Villain casts spell")
            .with_tag(magic.clone())
            .with_tag(villain.clone()),
    );
    graph.add_fact(
        Fact::new("Villain summons demon")
            .with_tag(magic.clone())
            .with_tag(villain.clone()),
    );
    graph.add_fact(
        Fact::new("Combat spell")
            .with_tag(magic.clone())
            .with_tag(combat.clone()),
    );

    graph.build_co_occurrence_associations();

    let magic_assocs = graph.get_associations(&magic);
    assert!(!magic_assocs.is_empty());

    let villain_assoc = magic_assocs.iter().find(|a| a.target == villain);
    let combat_assoc = magic_assocs.iter().find(|a| a.target == combat);

    assert!(villain_assoc.is_some());
    assert!(combat_assoc.is_some());
    // two co-occurrences give the fixed-point ln 2; one gives ln 1 = 0
    assert_eq!(villain_assoc.unwrap().weight, 693_147);
    assert_eq!(combat_assoc.unwrap().weight, 0);
    assert!(villain_assoc.unwrap().weight >= combat_assoc.unwrap().weight);
    assert_eq!(
        villain_assoc.unwrap().association_type,
        AssociationType::CoOccurrence
    );
}

#[test]
fn test_co_occurrence_averages_existing_edge() {
    let mut graph = KnowledgeGraph::new();
    let a = Tag::concept("A");
    let b = Tag::concept("B");
    graph.add_association(a.clone(), b.clone(), 400_000, AssociationType::Direct);
    graph.add_fact(Fact::new("one").with_tag(a.clone()).with_tag(b.clone()));
    graph.add_fact(Fact::new("two").with_tag(a.clone()).with_tag(b.clone()));

    graph.build_co_occurrence_associations();

    let assocs = graph.get_associations(&a);
    let edge = assocs.iter().find(|x| x.target == b).unwrap();
    // (0.4 + ln 2) / 2, and the original kind is kept
    assert_eq!(edge.weight, (400_000 + 693_147) / 2);
    assert_eq!(edge.association_type, AssociationType::Direct);
}

#[test]
fn test_find_facts() {
    let mut graph = KnowledgeGraph::new();
    graph.add_fact(Fact::new("Minor detail").with_importance(200_000));
    graph.add_fact(Fact::new("Major event").with_importance(900_000));

    let found = graph.find_facts(|f| f.importance >= 500_000);
    assert_eq!(found.len(), 1);
    assert_eq!(found[0].content, "Major event");
}
