//! World state: time, environment, characters and locations.

use vstd::prelude::*;
use crate::ids::EntityId;
use crate::ids::LocationId;
use crate::fixed::UNIT;
use crate::entities::Character;

verus! {

/// Seasons of the year.
#[derive(Debug, Clone, Copy, PartialEq, Eq, Structural)]
pub enum Season {
    Spring,
    Summer,
    Autumn,
    Winter,
}

/// Weather conditions.
#[derive(Debug, Clone, Copy, PartialEq, Eq, Structural)]
pub enum Weather {
    Clear,
    Cloudy,
    Rainy,
    Stormy,
    Snowy,
    Foggy,
}

/// Visibility levels.
#[derive(Debug, Clone, Copy, PartialEq, Eq, Structural)]
pub enum Visibility {
    Bright,
    Normal,
    Dim,
    Dark,
    MagicalDarkness,
}

/// Location types.
#[derive(Debug, Clone, Copy, PartialEq, Eq, Structural)]
pub enum LocationType {
    Wilderness,
    Town,
    Dungeon,
    Building,
    Special,
}

/// World time tracking.
#[derive(Debug, Clone, Copy, PartialEq, Eq, Structural)]
pub struct WorldTime {
    pub day: u32,
    pub hour: u8,
    pub minute: u8,
    pub season: Season,
}

/// The season of a day number, over a 360-day year.
pub open spec fn season_of(season_day: int) -> Season {
    if 0 <= season_day <= 89 {
        Season::Spring
    } else if season_day <= 179 {
        Season::Summer
    } else if season_day <= 269 {
        Season::Autumn
    } else {
        Season::Winter
    }
}

/// The time reached after advancing by the given minutes: minutes and
/// hours carry over, and the season is recomputed from `day mod 360`.
pub open spec fn advance_spec(t: WorldTime, minutes: u32) -> WorldTime {
    let total_minutes = t.minute + minutes;
    let total_hours = t.hour + total_minutes / 60;
    let new_day = t.day + total_hours / 24;
    WorldTime {
        day: new_day as u32,
        hour: (total_hours % 24) as u8,
        minute: (total_minutes % 60) as u8,
        season: season_of(new_day % 360),
    }
}

/// Advancing the clock conserves total minutes: the new day, hour and
/// minute denote exactly the old instant plus the elapsed minutes, the
/// clock fields stay within range, and the season follows the new day's
/// position in the 360-day year.
pub proof fn lemma_advance_conserves(t: WorldTime, minutes: u32)
    requires
        t.hour < 24,
        t.minute < 60,
        t.day + (t.hour + (t.minute + minutes) / 60) / 24 <= u32::MAX,
    ensures
        ({
            let n = advance_spec(t, minutes);
            &&& n.day * 1440 + n.hour * 60 + n.minute == t.day * 1440 + t.hour * 60
                + t.minute + minutes
            &&& n.hour < 24
            &&& n.minute < 60
            &&& n.season == season_of(n.day as int % 360)
        }),
{
    let tm = t.minute + minutes;
    let th = t.hour + tm / 60;
    let nd = t.day + th / 24;
    vstd::arithmetic::div_mod::lemma_fundamental_div_mod(tm as int, 60);
    vstd::arithmetic::div_mod::lemma_fundamental_div_mod(th as int, 24);
    assert(0 <= tm % 60 < 60) by {
        vstd::arithmetic::div_mod::lemma_mod_bound(tm as int, 60);
    }
    assert(0 <= th % 24 < 24) by {
        vstd::arithmetic::div_mod::lemma_mod_bound(th as int, 24);
    }
    assert(nd * 1440 + (th % 24) * 60 + tm % 60 == t.day * 1440 + t.hour * 60 + t.minute
        + minutes) by (nonlinear_arith)
        requires
            th == 24 * (th / 24) + th % 24,
            tm == 60 * (tm / 60) + tm % 60,
            th == t.hour + tm / 60,
            nd == t.day + th / 24,
            tm == t.minute + minutes,
    ;
}

impl WorldTime {
    /// Create a new world time.
    pub fn new(day: u32, hour: u8, minute: u8, season: Season) -> (r: Self)
        ensures
            r == (WorldTime { day, hour, minute, season }),
    {
        WorldTime { day, hour, minute, season }
    }
}

impl Default for WorldTime {
    /// Midnight of day zero, in spring.
    fn default() -> (r: Self)
        ensures
            r == (WorldTime { day: 0, hour: 0, minute: 0, season: Season::Spring }),
    {
        WorldTime { day: 0, hour: 0, minute: 0, season: Season::Spring }
    }
}

/// Environment state.
#[derive(Debug, Clone, Copy, PartialEq, Eq, Structural)]
pub struct EnvironmentState {
    pub weather: Weather,
    /// Temperature in degrees Celsius.
    pub temperature: i32,
    pub visibility: Visibility,
    /// Ambient danger level, in millionths of 1.0.
    pub ambient_danger_level: u64,
}

impl Default for EnvironmentState {
    /// Clear, twenty degrees, normal visibility, no ambient danger.
    fn default() -> (r: Self)
        ensures
            r == (EnvironmentState {
                weather: Weather::Clear,
                temperature: 20,
                visibility: Visibility::Normal,
                ambient_danger_level: 0,
            }),
    {
        EnvironmentState {
            weather: Weather::Clear,
            temperature: 20,
            visibility: Visibility::Normal,
            ambient_danger_level: 0,
        }
    }
}

/// A location in the game world.
#[derive(Debug)]
pub struct Location {
    pub id: LocationId,
    pub name: String,
    pub description: String,
    pub location_type: LocationType,
    pub connected_locations: Vec<LocationId>,
    /// Tag names for knowledge-base integration.
    pub ambient_tags: Vec<String>,
}

/// Flag value types for global state.
#[derive(Debug)]
pub enum FlagValue {
    Bool(bool),
    Int(i64),
    Text(String),
}

/// Whether an hour of the day counts as night.
pub open spec fn night_spec(hour: u8) -> bool {
    hour < 6 || hour >= 20
}

/// The extra danger a weather condition contributes, in millionths.
pub open spec fn weather_danger(w: Weather) -> int {
    match w {
        Weather::Stormy => 150_000,
        Weather::Foggy => 100_000,
        _ => 0,
    }
}

/// The danger level at the given time and weather: the ambient level,
/// plus 0.2 at night, plus the weather contribution, clamped at 1.0.
pub open spec fn danger_spec(base: u64, hour: u8, weather: Weather) -> int {
    let raw = base + (if night_spec(hour) {
        200_000int
    } else {
        0int
    }) + weather_danger(weather);
    if raw > UNIT {
        UNIT as int
    } else {
        raw
    }
}

/// Whether some pair of `s` carries the entity key `e`.
pub open spec fn has_eloc(s: Seq<(EntityId, LocationId)>, e: u128) -> bool {
    exists|i: int| 0 <= i < s.len() && s[i].0.0 == e
}

/// The position of the pair carrying `e`.
pub open spec fn eloc_at(s: Seq<(EntityId, LocationId)>, e: u128) -> int {
    choose|i: int| 0 <= i < s.len() && s[i].0.0 == e
}

/// The location bits recorded for entity `e`.
pub open spec fn eloc_get(s: Seq<(EntityId, LocationId)>, e: u128) -> u128 {
    s[eloc_at(s, e)].1.0
}

/// Whether some character of `s` has the id `id`.
pub open spec fn has_char(s: Seq<Character>, id: u128) -> bool {
    exists|i: int| 0 <= i < s.len() && s[i].id.0 == id
}

/// The position of the character with id `id`.
pub open spec fn char_at(s: Seq<Character>, id: u128) -> int {
    choose|i: int| 0 <= i < s.len() && s[i].id.0 == id
}

/// Whether some location of `s` has the id `id`.
pub open spec fn has_loc(s: Seq<Location>, id: u128) -> bool {
    exists|i: int| 0 <= i < s.len() && s[i].id.0 == id
}

/// The position of the location with id `id`.
pub open spec fn loc_at(s: Seq<Location>, id: u128) -> int {
    choose|i: int| 0 <= i < s.len() && s[i].id.0 == id
}

/// The complete state of the game world at a point in time.
#[derive(Debug)]
pub struct WorldState {
    /// Global time tracking.
    pub time: WorldTime,
    /// Current weather and environmental conditions.
    pub environment: EnvironmentState,
    /// All characters in the world, including the player.
    pub characters: Vec<Character>,
    /// Location data.
    pub locations: Vec<Location>,
    /// Current location of each entity.
    pub entity_locations: Vec<(EntityId, LocationId)>,
    /// Global flags and variables.
    pub global_flags: Vec<(String, FlagValue)>,
}

impl WorldState {
    /// A valid clock, a danger level within range, and at most one record
    /// per character, location and entity position.
    pub open spec fn wf(&self) -> bool {
        &&& self.time.hour < 24
        &&& self.time.minute < 60
        &&& self.environment.ambient_danger_level <= UNIT
        &&& forall|i: int, j: int|
            0 <= i < j < self.characters@.len() ==> self.characters@[i].id.0
                != self.characters@[j].id.0
        &&& forall|i: int, j: int|
            0 <= i < j < self.locations@.len() ==> self.locations@[i].id.0
                != self.locations@[j].id.0
        &&& forall|i: int, j: int|
            0 <= i < j < self.entity_locations@.len() ==> self.entity_locations@[i].0.0
                != self.entity_locations@[j].0.0
    }

    /// Create a new empty world state.
    pub fn new() -> (r: Self)
        ensures
            r.wf(),
            r.time == (WorldTime { day: 0, hour: 0, minute: 0, season: Season::Spring }),
            r.environment == (EnvironmentState {
                weather: Weather::Clear,
                temperature: 20,
                visibility: Visibility::Normal,
                ambient_danger_level: 0,
            }),
            r.characters@.len() == 0,
            r.locations@.len() == 0,
            r.entity_locations@.len() == 0,
            r.global_flags@.len() == 0,
    {
        WorldState {
            time: WorldTime::default(),
            environment: EnvironmentState::default(),
            characters: Vec::new(),
            locations: Vec::new(),
            entity_locations: Vec::new(),
            global_flags: Vec::new(),
        }
    }

    /// Get a character by id.
    pub fn get_character(&self, id: EntityId) -> (r: Option<&Character>)
        requires
            self.wf(),
        ensures
            match r {
                Some(c) => {
                    &&& has_char(self.characters@, id.0)
                    &&& *c == self.characters@[char_at(self.characters@, id.0)]
                    &&& c.id.0 == id.0
                },
                None => !has_char(self.characters@, id.0),
            },
    {
        let mut i: usize = 0;
        while i < self.characters.len()
            invariant
                self.wf(),
                i <= self.characters@.len(),
                forall|j: int| 0 <= j < i ==> self.characters@[j].id.0 != id.0,
            decreases self.characters@.len() - i,
        {
            if self.characters[i].id.0 == id.0 {
                proof {
                    let k = char_at(self.characters@, id.0);
                    assert(has_char(self.characters@, id.0));
                    if k != i as int {
                        assert(false);
                    }
                }
                return Some(&self.characters[i]);
            }
            i = i + 1;
        }
        None
    }

    /// Check if it is currently night: before 06:00 or at or after 20:00.
    pub fn is_night(&self) -> (r: bool)
        ensures
            r == night_spec(self.time.hour),
    {
        self.time.hour < 6 || self.time.hour >= 20
    }

    /// The danger level at the current time and weather.
    pub fn current_danger_level(&self) -> (r: u64)
        requires
            self.wf(),
        ensures
            r == danger_spec(
                self.environment.ambient_danger_level,
                self.time.hour,
                self.environment.weather,
            ),
    {
        let base = self.environment.ambient_danger_level;
        let time_modifier: u64 = if self.is_night() {
            200_000
        } else {
            0
        };
        let weather_modifier: u64 = match self.environment.weather {
            Weather::Stormy => 150_000,
            Weather::Foggy => 100_000,
            _ => 0,
        };
        let raw = base + time_modifier + weather_modifier;
        if raw > UNIT {
            UNIT
        } else {
            raw
        }
    }

    /// Advance time by the given minutes, carrying into hours and days and
    /// recomputing the season.
    pub fn advance_time(&mut self, minutes: u32)
        requires
            old(self).wf(),
            old(self).time.day + (old(self).time.hour + (old(self).time.minute + minutes)
                / 60) / 24 <= u32::MAX,
        ensures
            final(self).wf(),
            final(self).time == advance_spec(old(self).time, minutes),
            final(self).environment == old(self).environment,
            final(self).characters == old(self).characters,
            final(self).locations == old(self).locations,
            final(self).entity_locations == old(self).entity_locations,
            final(self).global_flags == old(self).global_flags,
    {
        let total_minutes: u64 = self.time.minute as u64 + minutes as u64;
        let new_minute: u8 = (total_minutes % 60) as u8;
        let total_hours: u64 = self.time.hour as u64 + total_minutes / 60;
        let new_hour: u8 = (total_hours % 24) as u8;
        let new_day: u32 = self.time.day + (total_hours / 24) as u32;
        let season_day = new_day % 360;
        let season = if season_day <= 89 {
            Season::Spring
        } else if season_day <= 179 {
            Season::Summer
        } else if season_day <= 269 {
            Season::Autumn
        } else {
            Season::Winter
        };
        self.time = WorldTime { day: new_day, hour: new_hour, minute: new_minute, season };
    }

    /// Add a character to the world, replacing any with the same id.
    pub fn add_character(&mut self, character: Character) -> (r: EntityId)
        requires
            old(self).wf(),
        ensures
            final(self).wf(),
            r == character.id,
            has_char(final(self).characters@, character.id.0),
            final(self).characters@[char_at(final(self).characters@, character.id.0)]
                == character,
            forall|u: u128|
                u != character.id.0 ==> has_char(final(self).characters@, u) == has_char(
                    old(self).characters@,
                    u,
                ),
            forall|u: u128|
                u != character.id.0 && has_char(old(self).characters@, u)
                    ==> final(self).characters@[char_at(final(self).characters@, u)]
                    == old(self).characters@[char_at(old(self).characters@, u)],
            final(self).time == old(self).time,
            final(self).environment == old(self).environment,
            final(self).locations == old(self).locations,
            final(self).entity_locations == old(self).entity_locations,
            final(self).global_flags == old(self).global_flags,
    {
        let ghost s0 = self.characters@;
        let ghost cid = character.id.0;
        let id = EntityId(character.id.0);
        let mut found: Option<usize> = None;
        let mut i: usize = 0;
        let n = self.characters.len();
        while i < n
            invariant
                self == old(self),
                i <= n,
                n == self.characters@.len(),
                self.characters@ == s0,
                id.0 == cid,
                match found {
                    Some(f) => f < i && s0[f as int].id.0 == cid,
                    None => forall|j: int| 0 <= j < i ==> s0[j].id.0 != cid,
                },
            decreases n - i,
        {
            if found.is_none() && self.characters[i].id.0 == id.0 {
                found = Some(i);
            }
            i = i + 1;
        }
        let ghost cv = character;
        match found {
            Some(f) => {
                self.characters.set(f, character);
                proof {
                    let s1 = self.characters@;
                    let fi = f as int;
                    assert(s1 == s0.update(fi, cv));
                    assert(s1[fi] == cv);
                    assert forall|a: int, b: int| 0 <= a < b < s1.len() implies s1[a].id.0
                        != s1[b].id.0 by {
                        if a != fi && b != fi {
                            assert(s1[a] == s0[a] && s1[b] == s0[b]);
                        } else if a == fi {
                            assert(s1[b] == s0[b]);
                        } else {
                            assert(s1[a] == s0[a]);
                        }
                    }
                    let k = char_at(s1, cid);
                    assert(has_char(s1, cid)) by {
                        assert(s1[fi].id.0 == cid);
                    }
                    if k != fi {
                        assert(false);
                    }
                    assert forall|u: u128| u != cid implies has_char(s1, u) == has_char(
                        s0,
                        u,
                    ) by {
                        if has_char(s1, u) {
                            let m = char_at(s1, u);
                            assert(s0[m].id.0 == u);
                        }
                        if has_char(s0, u) {
                            let m = char_at(s0, u);
                            assert(s1[m].id.0 == u);
                        }
                    }
                    assert forall|u: u128| u != cid && has_char(s0, u) implies s1[char_at(
                        s1,
                        u,
                    )] == s0[char_at(s0, u)] by {
                        let k0 = char_at(s0, u);
                        assert(s0[k0].id.0 == u);
                        assert(has_char(s1, u)) by {
                            assert(s1[k0].id.0 == u);
                        }
                        let k1 = char_at(s1, u);
                        assert(s1[k1].id.0 == u);
                        assert(k1 != fi);
                        assert(s1[k1] == s0[k1]);
                        if k0 != k1 {
                            assert(false);
                        }
                    }
                }
            },
            None => {
                self.characters.push(character);
                proof {
                    let s1 = self.characters@;
                    assert(s1 == s0.push(cv));
                    assert(s1[s1.len() - 1] == cv);
                    assert(forall|j: int| 0 <= j < s0.len() ==> s1[j] == #[trigger] s0[j]);
                    assert forall|a: int, b: int| 0 <= a < b < s1.len() implies s1[a].id.0
                        != s1[b].id.0 by {
                        if b < s1.len() - 1 {
                            assert(s1[a] == s0[a] && s1[b] == s0[b]);
                        } else {
                            assert(s1[a] == s0[a]);
                            assert(s0[a].id.0 != cid);
                        }
                    }
                    let k = char_at(s1, cid);
                    assert(has_char(s1, cid)) by {
                        assert(s1[s1.len() - 1].id.0 == cid);
                    }
                    if k != s1.len() - 1 {
                        assert(false);
                    }
                    assert forall|u: u128| u != cid implies has_char(s1, u) == has_char(
                        s0,
                        u,
                    ) by {
                        if has_char(s1, u) {
                            let m = char_at(s1, u);
                            assert(m < s0.len());
                            assert(s0[m].id.0 == u);
                        }
                        if has_char(s0, u) {
                            let m = char_at(s0, u);
                            assert(s1[m].id.0 == u);
                        }
                    }
                    assert forall|u: u128| u != cid && has_char(s0, u) implies s1[char_at(
                        s1,
                        u,
                    )] == s0[char_at(s0, u)] by {
                        let k0 = char_at(s0, u);
                        assert(s0[k0].id.0 == u);
                        assert(has_char(s1, u)) by {
                            assert(s1[k0].id.0 == u);
                        }
                        let k1 = char_at(s1, u);
                        assert(s1[k1].id.0 == u);
                        assert(k1 < s1.len() - 1);
                        assert(s1[k1] == s0[k1]);
                        if k0 != k1 {
                            assert(false);
                        }
                    }
                }
            },
        }
        id
    }

    /// Add a location to the world, replacing any with the same id.
    pub fn add_location(&mut self, location: Location) -> (r: LocationId)
        requires
            old(self).wf(),
        ensures
            final(self).wf(),
            r == location.id,
            has_loc(final(self).locations@, location.id.0),
            final(self).locations@[loc_at(final(self).locations@, location.id.0)]
                == location,
            forall|u: u128|
                u != location.id.0 ==> has_loc(final(self).locations@, u) == has_loc(
                    old(self).locations@,
                    u,
                ),
            forall|u: u128|
                u != location.id.0 && has_loc(old(self).locations@, u)
                    ==> final(self).locations@[loc_at(final(self).locations@, u)]
                    == old(self).locations@[loc_at(old(self).locations@, u)],
            final(self).time == old(self).time,
            final(self).environment == old(self).environment,
            final(self).characters == old(self).characters,
            final(self).entity_locations == old(self).entity_locations,
            final(self).global_flags == old(self).global_flags,
    {
        let ghost s0 = self.locations@;
        let ghost lid = location.id.0;
        let id = LocationId(location.id.0);
        let mut found: Option<usize> = None;
        let mut i: usize = 0;
        let n = self.locations.len();
        while i < n
            invariant
                self == old(self),
                i <= n,
                n == self.locations@.len(),
                self.locations@ == s0,
                id.0 == lid,
                match found {
                    Some(f) => f < i && s0[f as int].id.0 == lid,
                    None => forall|j: int| 0 <= j < i ==> s0[j].id.0 != lid,
                },
            decreases n - i,
        {
            if found.is_none() && self.locations[i].id.0 == id.0 {
                found = Some(i);
            }
            i = i + 1;
        }
        let ghost lv = location;
        match found {
            Some(f) => {
                self.locations.set(f, location);
                proof {
                    let s1 = self.locations@;
                    let fi = f as int;
                    assert(s1 == s0.update(fi, lv));
                    assert(s1[fi] == lv);
                    assert forall|a: int, b: int| 0 <= a < b < s1.len() implies s1[a].id.0
                        != s1[b].id.0 by {
                        if a != fi && b != fi {
                            assert(s1[a] == s0[a] && s1[b] == s0[b]);
                        } else if a == fi {
                            assert(s1[b] == s0[b]);
                        } else {
                            assert(s1[a] == s0[a]);
                        }
                    }
                    assert(has_loc(s1, lid)) by {
                        assert(s1[fi].id.0 == lid);
                    }
                    let k = loc_at(s1, lid);
                    if k != fi {
                        assert(s1[k].id.0 == lid);
                        assert(false);
                    }
                    assert forall|u: u128| u != lid implies has_loc(s1, u) == has_loc(
                        s0,
                        u,
                    ) by {
                        if has_loc(s1, u) {
                            let m = loc_at(s1, u);
                            assert(s0[m].id.0 == u);
                        }
                        if has_loc(s0, u) {
                            let m = loc_at(s0, u);
                            assert(s1[m].id.0 == u);
                        }
                    }
                    assert forall|u: u128| u != lid && has_loc(s0, u) implies s1[loc_at(
                        s1,
                        u,
                    )] == s0[loc_at(s0, u)] by {
                        let k0 = loc_at(s0, u);
                        assert(s0[k0].id.0 == u);
                        assert(has_loc(s1, u)) by {
                            assert(s1[k0].id.0 == u);
                        }
                        let k1 = loc_at(s1, u);
                        assert(s1[k1].id.0 == u);
                        assert(k1 != fi);
                        assert(s1[k1] == s0[k1]);
                        if k0 != k1 {
                            assert(false);
                        }
                    }
                }
            },
            None => {
                self.locations.push(location);
                proof {
                    let s1 = self.locations@;
                    assert(s1 == s0.push(lv));
                    assert(forall|j: int| 0 <= j < s0.len() ==> s1[j] == #[trigger] s0[j]);
                    assert forall|a: int, b: int| 0 <= a < b < s1.len() implies s1[a].id.0
                        != s1[b].id.0 by {
                        if b < s1.len() - 1 {
                            assert(s1[a] == s0[a] && s1[b] == s0[b]);
                        } else {
                            assert(s1[a] == s0[a]);
                        }
                    }
                    assert(has_loc(s1, lid)) by {
                        assert(s1[s1.len() - 1].id.0 == lid);
                    }
                    let k = loc_at(s1, lid);
                    if k != s1.len() - 1 {
                        assert(s1[k].id.0 == lid);
                        assert(s0[k].id.0 == lid);
                        assert(false);
                    }
                    assert forall|u: u128| u != lid implies has_loc(s1, u) == has_loc(
                        s0,
                        u,
                    ) by {
                        if has_loc(s1, u) {
                            let m = loc_at(s1, u);
                            assert(m < s0.len());
                            assert(s0[m].id.0 == u);
                        }
                        if has_loc(s0, u) {
                            let m = loc_at(s0, u);
                            assert(s1[m].id.0 == u);
                        }
                    }
                    assert forall|u: u128| u != lid && has_loc(s0, u) implies s1[loc_at(
                        s1,
                        u,
                    )] == s0[loc_at(s0, u)] by {
                        let k0 = loc_at(s0, u);
                        assert(s0[k0].id.0 == u);
                        assert(has_loc(s1, u)) by {
                            assert(s1[k0].id.0 == u);
                        }
                        let k1 = loc_at(s1, u);
                        assert(s1[k1].id.0 == u);
                        assert(k1 < s1.len() - 1);
                        assert(s1[k1] == s0[k1]);
                        if k0 != k1 {
                            assert(false);
                        }
                    }
                }
            },
        }
        id
    }

    /// Record the current location of an entity, replacing any previous
    /// record for it.
    pub fn set_entity_location(&mut self, entity_id: EntityId, location_id: LocationId)
        requires
            old(self).wf(),
        ensures
            final(self).wf(),
            has_eloc(final(self).entity_locations@, entity_id.0),
            eloc_get(final(self).entity_locations@, entity_id.0) == location_id.0,
            forall|u: u128|
                u != entity_id.0 ==> has_eloc(final(self).entity_locations@, u) == has_eloc(
                    old(self).entity_locations@,
                    u,
                ),
            forall|u: u128|
                u != entity_id.0 && has_eloc(old(self).entity_locations@, u) ==> eloc_get(
                    final(self).entity_locations@,
                    u,
                ) == eloc_get(old(self).entity_locations@, u),
            final(self).time == old(self).time,
            final(self).environment == old(self).environment,
            final(self).characters == old(self).characters,
            final(self).locations == old(self).locations,
            final(self).global_flags == old(self).global_flags,
    {
        let ghost s0 = self.entity_locations@;
        let mut found: Option<usize> = None;
        let mut i: usize = 0;
        let n = self.entity_locations.len();
        while i < n
            invariant
                self == old(self),
                i <= n,
                n == self.entity_locations@.len(),
                self.entity_locations@ == s0,
                match found {
                    Some(f) => f < i && s0[f as int].0.0 == entity_id.0,
                    None => forall|j: int| 0 <= j < i ==> s0[j].0.0 != entity_id.0,
                },
            decreases n - i,
        {
            if found.is_none() && self.entity_locations[i].0.0 == entity_id.0 {
                found = Some(i);
            }
            i = i + 1;
        }
        match found {
            Some(f) => {
                self.entity_locations.set(f, (entity_id, location_id));
                proof {
                    let s1 = self.entity_locations@;
                    lemma_eloc_frame(s0, s1, f as int, entity_id.0, location_id.0);
                }
            },
            None => {
                self.entity_locations.push((entity_id, location_id));
                proof {
                    let s1 = self.entity_locations@;
                    assert(forall|j: int| 0 <= j < s0.len() ==> s1[j] == #[trigger] s0[j]);
                    assert forall|a: int, b: int| 0 <= a < b < s1.len() implies s1[a].0.0
                        != s1[b].0.0 by {
                        if b < s1.len() - 1 {
                            assert(s1[a] == s0[a] && s1[b] == s0[b]);
                        } else {
                            assert(s1[a] == s0[a]);
                        }
                    }
                    assert(s1[s1.len() - 1].0.0 == entity_id.0);
                    let k = eloc_at(s1, entity_id.0);
                    assert(has_eloc(s1, entity_id.0));
                    if k != s1.len() - 1 {
                        assert(false);
                    }
                    assert forall|u: u128| u != entity_id.0 implies has_eloc(s1, u) == has_eloc(
                        s0,
                        u,
                    ) by {
                        if has_eloc(s1, u) {
                            let m = eloc_at(s1, u);
                            assert(m < s0.len());
                            assert(s0[m].0.0 == u);
                        }
                        if has_eloc(s0, u) {
                            let m = eloc_at(s0, u);
                            assert(s1[m].0.0 == u);
                        }
                    }
                    assert forall|u: u128| u != entity_id.0 && has_eloc(s0, u) implies eloc_get(
                        s1,
                        u,
                    ) == eloc_get(s0, u) by {
                        let k0 = eloc_at(s0, u);
                        assert(s0[k0].0.0 == u);
                        assert(has_eloc(s1, u)) by {
                            assert(s1[k0].0.0 == u);
                        }
                        let k1 = eloc_at(s1, u);
                        assert(s1[k1].0.0 == u);
                        assert(k1 < s1.len() - 1);
                        assert(s1[k1] == s0[k1]);
                        if k0 != k1 {
                            assert(false);
                        }
                    }
                }
            },
        }
    }

    /// The current location of an entity, if one is recorded.
    pub fn entity_location(&self, entity_id: EntityId) -> (r: Option<LocationId>)
        requires
            self.wf(),
        ensures
            match r {
                Some(l) => has_eloc(self.entity_locations@, entity_id.0) && l.0 == eloc_get(
                    self.entity_locations@,
                    entity_id.0,
                ),
                None => !has_eloc(self.entity_locations@, entity_id.0),
            },
    {
        let mut i: usize = 0;
        while i < self.entity_locations.len()
            invariant
                self.wf(),
                i <= self.entity_locations@.len(),
                forall|j: int| 0 <= j < i ==> self.entity_locations@[j].0.0 != entity_id.0,
            decreases self.entity_locations@.len() - i,
        {
            if self.entity_locations[i].0.0 == entity_id.0 {
                proof {
                    let s = self.entity_locations@;
                    assert(has_eloc(s, entity_id.0));
                    let k = eloc_at(s, entity_id.0);
                    if k != i as int {
                        assert(false);
                    }
                }
                return Some(LocationId(self.entity_locations[i].1.0));
            }
            i = i + 1;
        }
        None
    }

    /// Get a location by id.
    pub fn get_location(&self, id: LocationId) -> (r: Option<&Location>)
        requires
            self.wf(),
        ensures
            match r {
                Some(l) => {
                    &&& has_loc(self.locations@, id.0)
                    &&& *l == self.locations@[loc_at(self.locations@, id.0)]
                    &&& l.id.0 == id.0
                },
                None => !has_loc(self.locations@, id.0),
            },
    {
        let mut i: usize = 0;
        while i < self.locations.len()
            invariant
                self.wf(),
                i <= self.locations@.len(),
                forall|j: int| 0 <= j < i ==> self.locations@[j].id.0 != id.0,
            decreases self.locations@.len() - i,
        {
            if self.locations[i].id.0 == id.0 {
                proof {
                    let s = self.locations@;
                    assert(has_loc(s, id.0));
                    let k = loc_at(s, id.0);
                    if k != i as int {
                        assert(false);
                    }
                }
                return Some(&self.locations[i]);
            }
            i = i + 1;
        }
        None
    }

    /// All entities recorded at a specific location, in record order.
    pub fn entities_at_location(&self, location_id: LocationId) -> (r: Vec<EntityId>)
        requires
            self.wf(),
        ensures
            forall|k: int|
                0 <= k < r@.len() ==> has_eloc(self.entity_locations@, #[trigger] r@[k].0)
                    && eloc_get(self.entity_locations@, r@[k].0) == location_id.0,
            forall|j: int|
                0 <= j < self.entity_locations@.len() && (#[trigger] self.entity_locations@[j]).1.0
                    == location_id.0 ==> exists|k: int|
                    0 <= k < r@.len() && r@[k].0 == self.entity_locations@[j].0.0,
    {
        let ghost s = self.entity_locations@;
        let mut r: Vec<EntityId> = Vec::new();
        let mut i: usize = 0;
        while i < self.entity_locations.len()
            invariant
                i <= s.len(),
                self.entity_locations@ == s,
                self.wf(),
                forall|k: int|
                    0 <= k < r@.len() ==> has_eloc(s, #[trigger] r@[k].0) && eloc_get(s, r@[k].0)
                        == location_id.0,
                forall|j: int|
                    0 <= j < i && (#[trigger] s[j]).1.0 == location_id.0 ==> exists|k: int|
                        0 <= k < r@.len() && r@[k].0 == s[j].0.0,
            decreases s.len() - i,
        {
            if self.entity_locations[i].1.0 == location_id.0 {
                let ghost r0 = r@;
                r.push(EntityId(self.entity_locations[i].0.0));
                proof {
                    assert(forall|k: int| 0 <= k < r0.len() ==> r@[k] == #[trigger] r0[k]);
                    assert(has_eloc(s, s[i as int].0.0)) by {
                        assert(s[i as int].0.0 == s[i as int].0.0);
                    }
                    let k = eloc_at(s, s[i as int].0.0);
                    if k != i as int {
                        assert(false);
                    }
                    assert(r@[r@.len() - 1].0 == s[i as int].0.0);
                }
            }
            i = i + 1;
        }
        r
    }
}

/// The witness index for a character id, for use in framing proofs.
pub open spec fn eloc_witness_char(s: Seq<Character>, id: u128) -> int {
    char_at(s, id)
}

/// Replacing the pair at a position that already carries the key keeps
/// all other records unchanged.
proof fn lemma_eloc_frame(
    s0: Seq<(EntityId, LocationId)>,
    s1: Seq<(EntityId, LocationId)>,
    i: int,
    e: u128,
    l: u128,
)
    requires
        0 <= i < s0.len(),
        s1 == s0.update(i, (EntityId(e), LocationId(l))),
        s0[i].0.0 == e,
        forall|a: int, b: int| 0 <= a < b < s0.len() ==> s0[a].0.0 != s0[b].0.0,
    ensures
        forall|a: int, b: int| 0 <= a < b < s1.len() ==> s1[a].0.0 != s1[b].0.0,
        has_eloc(s1, e),
        eloc_get(s1, e) == l,
        forall|u: u128| u != e ==> has_eloc(s1, u) == has_eloc(s0, u),
        forall|u: u128| u != e && has_eloc(s0, u) ==> eloc_get(s1, u) == eloc_get(s0, u),
{
    assert(s1[i].0.0 == e);
    assert forall|a: int, b: int| 0 <= a < b < s1.len() implies s1[a].0.0 != s1[b].0.0 by {
        if a != i && b != i {
            assert(s1[a] == s0[a] && s1[b] == s0[b]);
        } else if a == i {
            assert(s1[b] == s0[b]);
        } else {
            assert(s1[a] == s0[a]);
        }
    }
    assert(has_eloc(s1, e));
    let k = eloc_at(s1, e);
    if k != i {
        assert(false);
    }
    assert forall|u: u128| u != e implies has_eloc(s1, u) == has_eloc(s0, u) by {
        if has_eloc(s1, u) {
            let m = eloc_at(s1, u);
            assert(s0[m].0.0 == u);
        }
        if has_eloc(s0, u) {
            let m = eloc_at(s0, u);
            assert(s1[m].0.0 == u);
        }
    }
    assert forall|u: u128| u != e && has_eloc(s0, u) implies eloc_get(s1, u) == eloc_get(
        s0,
        u,
    ) by {
        let k0 = eloc_at(s0, u);
        assert(s0[k0].0.0 == u);
        assert(has_eloc(s1, u)) by {
            assert(s1[k0].0.0 == u);
        }
        let k1 = eloc_at(s1, u);
        assert(s1[k1].0.0 == u);
        assert(k1 != i);
        assert(s1[k1] == s0[k1]);
        if k0 != k1 {
            assert(false);
        }
    }
}

} // verus!
