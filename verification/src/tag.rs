//! Tags: the nodes of the knowledge graph.
//!
//! A tag is a discriminated identifier over entities, locations, concepts,
//! factions, event types, relation types and custom names. Tags are value
//! types; the canonical string form `"<category>:<payload>"` defines the
//! one total order the library puts on them.

use vstd::prelude::*;
use crate::ids::EntityId;
use crate::ids::LocationId;
use crate::ids::uuid_chars;
use crate::ids::lemma_uuid_chars_injective;
use crate::strutil::seq_lt;
use crate::strutil::string_lt;

verus! {

/// Tags are the nodes in the knowledge graph. They represent concepts,
/// entities, locations, or themes.
#[derive(Debug, PartialEq, Eq, Hash)]
pub enum Tag {
    /// Reference to a specific entity (character, creature, item).
    Entity(EntityId),
    /// A location in the world.
    Location(LocationId),
    /// A concept or theme.
    Concept(String),
    /// A faction or organization.
    Faction(String),
    /// An event type.
    EventType(String),
    /// A relationship type.
    RelationType(String),
    /// Custom tag for extension.
    Custom(String),
}

/// The mathematical value of a tag: the same discrimination, with string
/// payloads abstracted to character sequences.
pub enum TagView {
    Entity(u128),
    Location(u128),
    Concept(Seq<char>),
    Faction(Seq<char>),
    EventType(Seq<char>),
    RelationType(Seq<char>),
    Custom(Seq<char>),
}

impl View for Tag {
    type V = TagView;

    open spec fn view(&self) -> TagView {
        match self {
            Tag::Entity(id) => TagView::Entity(id.0),
            Tag::Location(id) => TagView::Location(id.0),
            Tag::Concept(s) => TagView::Concept(s@),
            Tag::Faction(s) => TagView::Faction(s@),
            Tag::EventType(s) => TagView::EventType(s@),
            Tag::RelationType(s) => TagView::RelationType(s@),
            Tag::Custom(s) => TagView::Custom(s@),
        }
    }
}

/// The category name of a tag value.
pub open spec fn category_chars(t: TagView) -> Seq<char> {
    match t {
        TagView::Entity(_) => seq!['e', 'n', 't', 'i', 't', 'y'],
        TagView::Location(_) => seq!['l', 'o', 'c', 'a', 't', 'i', 'o', 'n'],
        TagView::Concept(_) => seq!['c', 'o', 'n', 'c', 'e', 'p', 't'],
        TagView::Faction(_) => seq!['f', 'a', 'c', 't', 'i', 'o', 'n'],
        TagView::EventType(_) => seq!['e', 'v', 'e', 'n', 't'],
        TagView::RelationType(_) => seq!['r', 'e', 'l', 'a', 't', 'i', 'o', 'n'],
        TagView::Custom(_) => seq!['c', 'u', 's', 't', 'o', 'm'],
    }
}

/// The payload of a tag value, rendered as characters.
pub open spec fn payload_chars(t: TagView) -> Seq<char> {
    match t {
        TagView::Entity(b) => uuid_chars(b as int),
        TagView::Location(b) => uuid_chars(b as int),
        TagView::Concept(s) => s,
        TagView::Faction(s) => s,
        TagView::EventType(s) => s,
        TagView::RelationType(s) => s,
        TagView::Custom(s) => s,
    }
}

/// The canonical string form `"<category>:<payload>"` of a tag value.
pub open spec fn canon_chars(t: TagView) -> Seq<char> {
    category_chars(t) + seq![':'] + payload_chars(t)
}

/// The canonical order on tag values: lexicographic on the canonical
/// string form.
pub open spec fn tag_lt_spec(a: TagView, b: TagView) -> bool {
    seq_lt(canon_chars(a), canon_chars(b))
}

/// No category name contains the separating colon.
pub proof fn lemma_category_no_colon(t: TagView)
    ensures
        forall|i: int|
            0 <= i < category_chars(t).len() ==> #[trigger] category_chars(t)[i] != ':',
{
}

/// The canonical string form determines the tag: distinct tags render
/// distinctly.
pub proof fn lemma_canon_injective(a: TagView, b: TagView)
    requires
        canon_chars(a) == canon_chars(b),
    ensures
        a == b,
{
    let ca = category_chars(a);
    let cb = category_chars(b);
    let pa = payload_chars(a);
    let pb = payload_chars(b);
    let la = ca.len() as int;
    let lb = cb.len() as int;
    let c = canon_chars(a);
    lemma_category_no_colon(a);
    lemma_category_no_colon(b);
    assert(c[la] == ':');
    assert(canon_chars(b)[lb] == ':');
    // the first colon marks the category boundary on both sides
    assert(la == lb) by {
        if la < lb {
            assert(c[la] == cb[la]);
        } else if lb < la {
            assert(c[lb] == ca[lb]);
        }
    }
    assert(ca =~= cb) by {
        assert(forall|i: int| 0 <= i < la ==> c[i] == #[trigger] ca[i]);
        assert(forall|i: int| 0 <= i < lb ==> c[i] == #[trigger] cb[i]);
    }
    assert(pa =~= pb) by {
        assert(c.len() == la + 1 + pa.len());
        assert(c.len() == lb + 1 + pb.len());
        assert(forall|i: int| 0 <= i < pa.len() ==> c[la + 1 + i] == #[trigger] pa[i]);
        assert(forall|i: int| 0 <= i < pb.len() ==> c[lb + 1 + i] == #[trigger] pb[i]);
    }
    // category length and first character identify the variant
    assert(ca[0] == cb[0]);
    match a {
        TagView::Entity(x) => {
            assert(b is Entity);
            lemma_uuid_chars_injective(x, b->Entity_0);
        },
        TagView::Location(x) => {
            assert(b is Location);
            lemma_uuid_chars_injective(x, b->Location_0);
        },
        TagView::Concept(_) => {
            assert(b is Concept);
        },
        TagView::Faction(_) => {
            assert(b is Faction);
        },
        TagView::EventType(_) => {
            assert(b is EventType);
        },
        TagView::RelationType(_) => {
            assert(b is RelationType);
        },
        TagView::Custom(_) => {
            assert(b is Custom);
        },
    }
}

impl Tag {
    /// Create a new entity tag.
    pub fn entity(id: EntityId) -> (r: Self)
        ensures
            r@ == TagView::Entity(id.0),
    {
        Tag::Entity(id)
    }

    /// Create a new location tag.
    pub fn location(id: LocationId) -> (r: Self)
        ensures
            r@ == TagView::Location(id.0),
    {
        Tag::Location(id)
    }

    /// Create a new concept tag.
    pub fn concept(name: &str) -> (r: Self)
        ensures
            r@ == TagView::Concept(name@),
    {
        Tag::Concept(String::from_str(name))
    }

    /// Create a new faction tag.
    pub fn faction(name: &str) -> (r: Self)
        ensures
            r@ == TagView::Faction(name@),
    {
        Tag::Faction(String::from_str(name))
    }

    /// Create a new event type tag.
    pub fn event_type(name: &str) -> (r: Self)
        ensures
            r@ == TagView::EventType(name@),
    {
        Tag::EventType(String::from_str(name))
    }

    /// Create a new relationship type tag.
    pub fn relation_type(name: &str) -> (r: Self)
        ensures
            r@ == TagView::RelationType(name@),
    {
        Tag::RelationType(String::from_str(name))
    }

    /// Create a custom tag.
    pub fn custom(name: &str) -> (r: Self)
        ensures
            r@ == TagView::Custom(name@),
    {
        Tag::Custom(String::from_str(name))
    }

    /// Convert the tag to its canonical string representation.
    pub fn as_string(&self) -> (r: String)
        ensures
            r@ == canon_chars(self@),
    {
        let mut s: String;
        proof {
            reveal_strlit("entity:");
            reveal_strlit("location:");
            reveal_strlit("concept:");
            reveal_strlit("faction:");
            reveal_strlit("event:");
            reveal_strlit("relation:");
            reveal_strlit("custom:");
        }
        match self {
            Tag::Entity(id) => {
                s = String::from_str("entity:");
                let p = id.to_canonical_string();
                s.append(p.as_str());
            },
            Tag::Location(id) => {
                s = String::from_str("location:");
                let p = id.to_canonical_string();
                s.append(p.as_str());
            },
            Tag::Concept(name) => {
                s = String::from_str("concept:");
                s.append(name.as_str());
            },
            Tag::Faction(name) => {
                s = String::from_str("faction:");
                s.append(name.as_str());
            },
            Tag::EventType(name) => {
                s = String::from_str("event:");
                s.append(name.as_str());
            },
            Tag::RelationType(name) => {
                s = String::from_str("relation:");
                s.append(name.as_str());
            },
            Tag::Custom(name) => {
                s = String::from_str("custom:");
                s.append(name.as_str());
            },
        }
        proof {
            assert(s@ =~= canon_chars(self@));
        }
        s
    }

    /// Get the category name of this tag.
    pub fn category(&self) -> (r: &'static str)
        ensures
            r@ == category_chars(self@),
    {
        proof {
            reveal_strlit("entity");
            reveal_strlit("location");
            reveal_strlit("concept");
            reveal_strlit("faction");
            reveal_strlit("event");
            reveal_strlit("relation");
            reveal_strlit("custom");
        }
        let r = match self {
            Tag::Entity(_) => "entity",
            Tag::Location(_) => "location",
            Tag::Concept(_) => "concept",
            Tag::Faction(_) => "faction",
            Tag::EventType(_) => "event",
            Tag::RelationType(_) => "relation",
            Tag::Custom(_) => "custom",
        };
        proof {
            assert(r@ =~= category_chars(self@));
        }
        r
    }
}

impl Clone for Tag {
    /// A clone denotes the same tag value.
    fn clone(&self) -> (r: Self)
        ensures
            r@ == self@,
    {
        match self {
            Tag::Entity(id) => Tag::Entity(*id),
            Tag::Location(id) => Tag::Location(*id),
            Tag::Concept(s) => Tag::Concept(s.clone()),
            Tag::Faction(s) => Tag::Faction(s.clone()),
            Tag::EventType(s) => Tag::EventType(s.clone()),
            Tag::RelationType(s) => Tag::RelationType(s.clone()),
            Tag::Custom(s) => Tag::Custom(s.clone()),
        }
    }
}

/// Structural equality of two tags.
pub fn tag_eq(a: &Tag, b: &Tag) -> (r: bool)
    ensures
        r == (a@ == b@),
{
    match (a, b) {
        (Tag::Entity(x), Tag::Entity(y)) => x.0 == y.0,
        (Tag::Location(x), Tag::Location(y)) => x.0 == y.0,
        (Tag::Concept(x), Tag::Concept(y)) => *x == *y,
        (Tag::Faction(x), Tag::Faction(y)) => *x == *y,
        (Tag::EventType(x), Tag::EventType(y)) => *x == *y,
        (Tag::RelationType(x), Tag::RelationType(y)) => *x == *y,
        (Tag::Custom(x), Tag::Custom(y)) => *x == *y,
        _ => false,
    }
}

/// Compare two tags in the canonical order.
pub fn tag_lt(a: &Tag, b: &Tag) -> (r: bool)
    ensures
        r == tag_lt_spec(a@, b@),
{
    let sa = a.as_string();
    let sb = b.as_string();
    string_lt(&sa, &sb)
}

} // verus!
