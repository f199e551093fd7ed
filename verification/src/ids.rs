//! Identifiers for entities, locations, quests and facts.
//!
//! Each identifier is a 128-bit value. Fresh identifiers are drawn at
//! random; the canonical presentation is the 8-4-4-4-12 hexadecimal form
//! of the value's thirty-two digits, most significant first.

use vstd::prelude::*;
use crate::strutil::hex_chars;
use crate::strutil::append_hex_u128;
use crate::strutil::lemma_hex_chars_len;
use crate::strutil::lemma_hex_chars_injective;
use crate::strutil::pow16;

verus! {

/// Relies on `uuid::Uuid::new_v4` and `uuid::Uuid::as_u128`: draws a fresh
/// random version-4 identifier and returns the big-endian numeric value of
/// its sixteen bytes. The result is random; nothing is promised of it.
#[verifier::external_body]
fn fresh_id_bits() -> u128 {
    uuid::Uuid::new_v4().as_u128()
}

/// The canonical 8-4-4-4-12 hexadecimal form of a 128-bit identifier.
pub open spec fn uuid_chars(n: int) -> Seq<char> {
    hex_chars(n / 0x1000000000000000000000000, 8) + seq!['-'] + hex_chars(
        n / 0x100000000000000000000,
        4,
    ) + seq!['-'] + hex_chars(n / 0x10000000000000000, 4) + seq!['-'] + hex_chars(
        n / 0x1000000000000,
        4,
    ) + seq!['-'] + hex_chars(n, 12)
}

/// Distinct 128-bit identifiers have distinct canonical forms.
pub proof fn lemma_uuid_chars_injective(x: u128, y: u128)
    requires
        uuid_chars(x as int) == uuid_chars(y as int),
    ensures
        x == y,
{
    let xi = x as int;
    let yi = y as int;
    let p12 = 0x1000000000000int;
    let p16 = 0x10000000000000000int;
    let p20 = 0x100000000000000000000int;
    let p24 = 0x1000000000000000000000000int;
    let g16 = 0x10000int;
    let g32 = 0x100000000int;
    assert(pow16(0) == 1);
    assert(pow16(1) == 16);
    assert(pow16(2) == 0x100);
    assert(pow16(3) == 0x1000);
    assert(pow16(4) == 0x10000);
    assert(pow16(5) == 0x100000);
    assert(pow16(6) == 0x1000000);
    assert(pow16(7) == 0x10000000);
    assert(pow16(8) == g32);
    assert(pow16(9) == 0x1000000000);
    assert(pow16(10) == 0x10000000000);
    assert(pow16(11) == 0x100000000000);
    assert(pow16(12) == p12);
    let ax = hex_chars(xi / p24, 8);
    let bx = hex_chars(xi / p20, 4);
    let cx = hex_chars(xi / p16, 4);
    let dx = hex_chars(xi / p12, 4);
    let ex = hex_chars(xi, 12);
    let ay = hex_chars(yi / p24, 8);
    let by = hex_chars(yi / p20, 4);
    let cy = hex_chars(yi / p16, 4);
    let dy = hex_chars(yi / p12, 4);
    let ey = hex_chars(yi, 12);
    lemma_hex_chars_len(xi / p24, 8);
    lemma_hex_chars_len(xi / p20, 4);
    lemma_hex_chars_len(xi / p16, 4);
    lemma_hex_chars_len(xi / p12, 4);
    lemma_hex_chars_len(xi, 12);
    lemma_hex_chars_len(yi / p24, 8);
    lemma_hex_chars_len(yi / p20, 4);
    lemma_hex_chars_len(yi / p16, 4);
    lemma_hex_chars_len(yi / p12, 4);
    lemma_hex_chars_len(yi, 12);
    let ux = uuid_chars(xi);
    let uy = uuid_chars(yi);
    assert(ax =~= ay) by {
        assert(forall|i: int| 0 <= i < 8 ==> ux[i] == #[trigger] ax[i]);
        assert(forall|i: int| 0 <= i < 8 ==> uy[i] == #[trigger] ay[i]);
    }
    assert(bx =~= by) by {
        assert(forall|i: int| 0 <= i < 4 ==> ux[9 + i] == #[trigger] bx[i]);
        assert(forall|i: int| 0 <= i < 4 ==> uy[9 + i] == #[trigger] by[i]);
    }
    assert(cx =~= cy) by {
        assert(forall|i: int| 0 <= i < 4 ==> ux[14 + i] == #[trigger] cx[i]);
        assert(forall|i: int| 0 <= i < 4 ==> uy[14 + i] == #[trigger] cy[i]);
    }
    assert(dx =~= dy) by {
        assert(forall|i: int| 0 <= i < 4 ==> ux[19 + i] == #[trigger] dx[i]);
        assert(forall|i: int| 0 <= i < 4 ==> uy[19 + i] == #[trigger] dy[i]);
    }
    assert(ex =~= ey) by {
        assert(forall|i: int| 0 <= i < 12 ==> ux[24 + i] == #[trigger] ex[i]);
        assert(forall|i: int| 0 <= i < 12 ==> uy[24 + i] == #[trigger] ey[i]);
    }
    lemma_hex_chars_injective(xi / p24, yi / p24, 8);
    lemma_hex_chars_injective(xi / p20, yi / p20, 4);
    lemma_hex_chars_injective(xi / p16, yi / p16, 4);
    lemma_hex_chars_injective(xi / p12, yi / p12, 4);
    lemma_hex_chars_injective(xi, yi, 12);
    // the leading group determines the high bits outright
    assert(xi / p24 <= 0xffffffff && yi / p24 <= 0xffffffff) by {
        assert((0xffffffffffffffffffffffffffffffffint) / p24 == 0xffffffff);
        vstd::arithmetic::div_mod::lemma_div_is_ordered(
            xi,
            0xffffffffffffffffffffffffffffffffint,
            p24,
        );
        vstd::arithmetic::div_mod::lemma_div_is_ordered(
            yi,
            0xffffffffffffffffffffffffffffffffint,
            p24,
        );
    }
    assert(xi / p24 == yi / p24) by {
        vstd::arithmetic::div_mod::lemma_small_mod((xi / p24) as nat, g32 as nat);
        vstd::arithmetic::div_mod::lemma_small_mod((yi / p24) as nat, g32 as nat);
    }
    // fold each group into the quotient above it
    assert(xi / p20 == yi / p20) by {
        vstd::arithmetic::div_mod::lemma_div_denominator(xi, p20, g16);
        vstd::arithmetic::div_mod::lemma_div_denominator(yi, p20, g16);
        vstd::arithmetic::div_mod::lemma_fundamental_div_mod(xi / p20, g16);
        vstd::arithmetic::div_mod::lemma_fundamental_div_mod(yi / p20, g16);
    }
    assert(xi / p16 == yi / p16) by {
        vstd::arithmetic::div_mod::lemma_div_denominator(xi, p16, g16);
        vstd::arithmetic::div_mod::lemma_div_denominator(yi, p16, g16);
        vstd::arithmetic::div_mod::lemma_fundamental_div_mod(xi / p16, g16);
        vstd::arithmetic::div_mod::lemma_fundamental_div_mod(yi / p16, g16);
    }
    assert(xi / p12 == yi / p12) by {
        vstd::arithmetic::div_mod::lemma_div_denominator(xi, p12, g16);
        vstd::arithmetic::div_mod::lemma_div_denominator(yi, p12, g16);
        vstd::arithmetic::div_mod::lemma_fundamental_div_mod(xi / p12, g16);
        vstd::arithmetic::div_mod::lemma_fundamental_div_mod(yi / p12, g16);
    }
    assert(xi == yi) by {
        vstd::arithmetic::div_mod::lemma_fundamental_div_mod(xi, p12);
        vstd::arithmetic::div_mod::lemma_fundamental_div_mod(yi, p12);
    }
}

/// Render a 128-bit identifier in its canonical hexadecimal form.
pub fn id_canonical_string(bits: u128) -> (s: String)
    ensures
        s@ == uuid_chars(bits as int),
{
    let mut s = String::new();
    proof {
        reveal_strlit("-");
    }
    append_hex_u128(&mut s, bits / 0x1000000000000000000000000, 8);
    s.append("-");
    append_hex_u128(&mut s, bits / 0x100000000000000000000, 4);
    s.append("-");
    append_hex_u128(&mut s, bits / 0x10000000000000000, 4);
    s.append("-");
    append_hex_u128(&mut s, bits / 0x1000000000000, 4);
    s.append("-");
    append_hex_u128(&mut s, bits, 12);
    proof {
        assert(s@ =~= uuid_chars(bits as int));
    }
    s
}

/// Unique identifier for all entities in the game.
#[derive(Debug, Clone, Copy, PartialEq, Eq, Structural, Hash)]
pub struct EntityId(pub u128);

impl EntityId {
    /// Create a new random entity identifier.
    pub fn new() -> Self {
        Self(fresh_id_bits())
    }

    /// Create an entity identifier from a specific 128-bit value.
    pub fn from_uuid(bits: u128) -> (r: Self)
        ensures
            r.0 == bits,
    {
        Self(bits)
    }

    /// The all-zero entity identifier, useful for defaults.
    pub fn nil() -> (r: Self)
        ensures
            r.0 == 0,
    {
        Self(0)
    }

    /// The canonical hexadecimal form of this identifier.
    pub fn to_canonical_string(&self) -> (s: String)
        ensures
            s@ == uuid_chars(self.0 as int),
    {
        id_canonical_string(self.0)
    }
}

/// Unique identifier for locations.
#[derive(Debug, Clone, Copy, PartialEq, Eq, Structural, Hash)]
pub struct LocationId(pub u128);

impl LocationId {
    /// Create a new random location identifier.
    pub fn new() -> Self {
        Self(fresh_id_bits())
    }

    /// The all-zero location identifier.
    pub fn nil() -> (r: Self)
        ensures
            r.0 == 0,
    {
        Self(0)
    }

    /// The canonical hexadecimal form of this identifier.
    pub fn to_canonical_string(&self) -> (s: String)
        ensures
            s@ == uuid_chars(self.0 as int),
    {
        id_canonical_string(self.0)
    }
}

/// Unique identifier for quests.
#[derive(Debug, Clone, Copy, PartialEq, Eq, Structural, Hash)]
pub struct QuestId(pub u128);

impl QuestId {
    /// Create a new random quest identifier.
    pub fn new() -> Self {
        Self(fresh_id_bits())
    }

    /// The canonical hexadecimal form of this identifier.
    pub fn to_canonical_string(&self) -> (s: String)
        ensures
            s@ == uuid_chars(self.0 as int),
    {
        id_canonical_string(self.0)
    }
}

/// Unique identifier for facts.
#[derive(Debug, Clone, Copy, PartialEq, Eq, Structural, Hash)]
pub struct FactId(pub u128);

impl FactId {
    /// Create a new random fact identifier.
    pub fn new() -> Self {
        Self(fresh_id_bits())
    }

    /// The canonical hexadecimal form of this identifier.
    pub fn to_canonical_string(&self) -> (s: String)
        ensures
            s@ == uuid_chars(self.0 as int),
    {
        id_canonical_string(self.0)
    }
}

} // verus!
