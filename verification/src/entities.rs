//! Entity definitions: characters and their components.

use vstd::prelude::*;
use crate::ids::EntityId;
use crate::mechanics::EquipmentSlot;
use crate::mechanics::StatusEffectType;

verus! {

/// Types of entities in the game world.
#[derive(Debug, Clone, Copy, PartialEq, Eq, Structural, Hash)]
pub enum EntityType {
    Character,
    Creature,
    Item,
    Location,
}

/// Stats component for characters and creatures.
#[derive(Debug, Clone, Copy, PartialEq, Eq, Structural)]
pub struct StatsComponent {
    pub strength: i32,
    pub dexterity: i32,
    pub constitution: i32,
    pub intelligence: i32,
    pub wisdom: i32,
    pub charisma: i32,
    pub current_hp: i32,
    pub max_hp: i32,
    pub current_mana: i32,
    pub max_mana: i32,
}

/// The default stats block: every ability score 10, 10 hit points, no
/// mana.
pub open spec fn default_stats() -> StatsComponent {
    StatsComponent {
        strength: 10,
        dexterity: 10,
        constitution: 10,
        intelligence: 10,
        wisdom: 10,
        charisma: 10,
        current_hp: 10,
        max_hp: 10,
        current_mana: 0,
        max_mana: 0,
    }
}

impl Default for StatsComponent {
    /// Every ability score is 10, with 10 hit points and no mana.
    fn default() -> (r: Self)
        ensures
            r == default_stats(),
    {
        StatsComponent {
            strength: 10,
            dexterity: 10,
            constitution: 10,
            intelligence: 10,
            wisdom: 10,
            charisma: 10,
            current_hp: 10,
            max_hp: 10,
            current_mana: 0,
            max_mana: 0,
        }
    }
}

/// Stat types for modifier calculations.
#[derive(Debug, Clone, Copy, PartialEq, Eq, Structural)]
pub enum StatType {
    Strength,
    Dexterity,
    Constitution,
    Intelligence,
    Wisdom,
    Charisma,
}

/// The ability score a stats block assigns to a stat type.
pub open spec fn stat_value(s: StatsComponent, stat: StatType) -> int {
    match stat {
        StatType::Strength => s.strength as int,
        StatType::Dexterity => s.dexterity as int,
        StatType::Constitution => s.constitution as int,
        StatType::Intelligence => s.intelligence as int,
        StatType::Wisdom => s.wisdom as int,
        StatType::Charisma => s.charisma as int,
    }
}

/// The modifier of an ability score: `(score - 10) / 2`, rounded toward
/// zero.
pub open spec fn stat_modifier_spec(v: int) -> int {
    if v >= 10 {
        (v - 10) / 2
    } else {
        -((10 - v) / 2)
    }
}

impl StatsComponent {
    /// Calculate the modifier for a given stat: `(score - 10) / 2`.
    pub fn modifier(&self, stat: StatType) -> (r: i32)
        ensures
            r == stat_modifier_spec(stat_value(*self, stat)),
    {
        let value = match stat {
            StatType::Strength => self.strength,
            StatType::Dexterity => self.dexterity,
            StatType::Constitution => self.constitution,
            StatType::Intelligence => self.intelligence,
            StatType::Wisdom => self.wisdom,
            StatType::Charisma => self.charisma,
        };
        if value >= 10 {
            let d: i64 = value as i64 - 10;
            (d / 2) as i32
        } else {
            let d: i64 = 10 - value as i64;
            (-(d / 2)) as i32
        }
    }
}

/// A stack of items in an inventory.
#[derive(Debug, Clone, Copy, PartialEq, Eq, Structural)]
pub struct ItemStack {
    pub item_id: EntityId,
    pub quantity: u32,
}

/// Inventory component for entities that can hold items.
#[derive(Debug)]
pub struct InventoryComponent {
    pub items: Vec<ItemStack>,
    pub capacity: usize,
    pub equipped: Vec<(EquipmentSlot, EntityId)>,
}

impl InventoryComponent {
    /// An empty inventory with no capacity.
    pub fn new() -> (r: Self)
        ensures
            r.items@.len() == 0,
            r.capacity == 0,
            r.equipped@.len() == 0,
    {
        InventoryComponent { items: Vec::new(), capacity: 0, equipped: Vec::new() }
    }
}

/// An active status effect with duration and metadata.
#[derive(Debug, Clone, Copy, PartialEq, Eq)]
pub struct ActiveStatusEffect {
    pub effect_type: StatusEffectType,
    /// `None` means a permanent effect.
    pub remaining_duration: Option<u32>,
    pub stacks: u32,
    pub source: Option<EntityId>,
}

/// Status effects currently active on an entity.
#[derive(Debug)]
pub struct StatusEffectComponent {
    pub active_effects: Vec<ActiveStatusEffect>,
}

impl StatusEffectComponent {
    /// No active effects.
    pub fn new() -> (r: Self)
        ensures
            r.active_effects@.len() == 0,
    {
        StatusEffectComponent { active_effects: Vec::new() }
    }
}

/// A full character definition with all relevant components.
#[derive(Debug)]
pub struct Character {
    pub id: EntityId,
    pub name: String,
    pub title: Option<String>,
    pub stats: StatsComponent,
    pub inventory: InventoryComponent,
    pub status_effects: StatusEffectComponent,
    pub backstory: Option<String>,
    pub personality_traits: Vec<String>,
    pub current_goal: Option<String>,
    /// Faction name and reputation score pairs.
    pub faction_allegiances: Vec<(String, i32)>,
}

impl Character {
    /// Create a new character with the given name and default components.
    pub fn new(name: &str) -> (r: Self)
        ensures
            r.name@ == name@,
            r.title is None,
            r.stats == default_stats(),
            r.inventory.items@.len() == 0,
            r.status_effects.active_effects@.len() == 0,
            r.backstory is None,
            r.personality_traits@.len() == 0,
            r.current_goal is None,
            r.faction_allegiances@.len() == 0,
    {
        Character {
            id: EntityId::new(),
            name: String::from_str(name),
            title: None,
            stats: StatsComponent::default(),
            inventory: InventoryComponent::new(),
            status_effects: StatusEffectComponent::new(),
            backstory: None,
            personality_traits: Vec::new(),
            current_goal: None,
            faction_allegiances: Vec::new(),
        }
    }

    /// Check if the character is alive.
    pub fn is_alive(&self) -> (r: bool)
        ensures
            r == (self.stats.current_hp > 0),
    {
        self.stats.current_hp > 0
    }

    /// Check if the character has a specific status effect.
    pub fn has_status(&self, effect: StatusEffectType) -> (r: bool)
        ensures
            r == exists|i: int|
                0 <= i < self.status_effects.active_effects@.len()
                    && self.status_effects.active_effects@[i].effect_type == effect,
    {
        let mut i: usize = 0;
        while i < self.status_effects.active_effects.len()
            invariant
                i <= self.status_effects.active_effects@.len(),
                forall|j: int|
                    0 <= j < i ==> self.status_effects.active_effects@[j].effect_type != effect,
            decreases self.status_effects.active_effects@.len() - i,
        {
            if self.status_effects.active_effects[i].effect_type == effect {
                return true;
            }
            i = i + 1;
        }
        false
    }
}

} // verus!
