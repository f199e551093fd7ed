//! Game mechanics: damage types, status effects, equipment and resistances.

use vstd::prelude::*;
use crate::fixed::UNIT;

verus! {

/// All possible damage types in the system.
#[derive(Debug, Clone, Copy, PartialEq, Eq, Structural, Hash)]
pub enum DamageType {
    Slashing,
    Piercing,
    Bludgeoning,
    Fire,
    Cold,
    Lightning,
    Acid,
    Radiant,
    Necrotic,
    Force,
    Psychic,
    Poison,
    /// Bypasses all resistances.
    True,
}

/// Status effects that can be applied to entities.
#[derive(Debug, Clone, Copy, PartialEq, Eq, Structural, Hash)]
pub enum StatusEffectType {
    Bleeding,
    Poisoned,
    Burning,
    Stunned,
    Paralyzed,
    Frightened,
    Charmed,
    Weakened,
    Slowed,
    Blinded,
    Deafened,
    Blessed,
    Hasted,
    Invisible,
    Protected,
    Unconscious,
    Dead,
}

/// Equipment slots for characters.
#[derive(Debug, Clone, Copy, PartialEq, Eq, Structural, Hash)]
pub enum EquipmentSlot {
    Head,
    Chest,
    Hands,
    Legs,
    Feet,
    MainHand,
    OffHand,
    Neck,
    Ring1,
    Ring2,
}

/// Combat range categories.
#[derive(Debug, Clone, Copy, PartialEq, Eq, Structural)]
pub enum CombatRange {
    Melee,
    Close,
    Medium,
    Long,
    Extreme,
}

/// Resistance types for damage calculation.
#[derive(Debug, Clone, Copy, PartialEq, Eq, Structural)]
pub enum ResistanceType {
    /// Twice the damage.
    Vulnerable,
    /// Unmodified damage.
    Normal,
    /// Half the damage.
    Resistant,
    /// No damage.
    Immune,
}

/// The damage multiplier of a resistance type, in millionths.
pub open spec fn multiplier_spec(r: ResistanceType) -> int {
    match r {
        ResistanceType::Vulnerable => 2 * UNIT as int,
        ResistanceType::Normal => UNIT as int,
        ResistanceType::Resistant => UNIT as int / 2,
        ResistanceType::Immune => 0,
    }
}

impl ResistanceType {
    /// Get the fixed-point damage multiplier for this resistance type.
    pub fn multiplier(&self) -> (r: u64)
        ensures
            r == multiplier_spec(*self),
    {
        match self {
            ResistanceType::Vulnerable => 2_000_000,
            ResistanceType::Normal => 1_000_000,
            ResistanceType::Resistant => 500_000,
            ResistanceType::Immune => 0,
        }
    }
}

} // verus!
