//! The assembled context: the core's output bundle, and its projection
//! into a prompt string.

use vstd::prelude::*;
use crate::tag::Tag;
use crate::world::Season;
use crate::world::Weather;
use crate::strutil::dec_chars;
use crate::strutil::append_u64_dec;

verus! {

/// World state context for the prompt.
#[derive(Debug)]
pub struct WorldContext {
    pub time_of_day: String,
    pub day: u32,
    pub season: Season,
    pub weather: Weather,
    pub is_night: bool,
}

/// Character context for the prompt.
#[derive(Debug)]
pub struct CharacterContext {
    pub name: String,
    pub title: Option<String>,
    pub current_hp_percent: u32,
    pub active_statuses: Vec<String>,
    pub personality: Vec<String>,
}

/// The assembled context ready for prompt generation.
#[derive(Debug)]
pub struct AssembledContext {
    /// Description of the triggering event.
    pub event_description: String,
    /// Relevant fact contents from the knowledge base, in score order.
    pub relevant_facts: Vec<String>,
    /// World state context.
    pub world_context: WorldContext,
    /// Context for involved characters.
    pub character_context: Vec<CharacterContext>,
    /// Tags that were activated, with their energy levels, hottest first.
    pub activated_tags: Vec<(Tag, u64)>,
}

/// The name of a weather condition.
pub open spec fn weather_chars(w: Weather) -> Seq<char> {
    match w {
        Weather::Clear => "Clear"@,
        Weather::Cloudy => "Cloudy"@,
        Weather::Rainy => "Rainy"@,
        Weather::Stormy => "Stormy"@,
        Weather::Snowy => "Snowy"@,
        Weather::Foggy => "Foggy"@,
    }
}

/// The first `i` entries joined with a separator; at least one entry is
/// assumed.
pub open spec fn join_sep_upto(ss: Seq<Seq<char>>, sep: Seq<char>, i: int) -> Seq<char>
    decreases i,
{
    if i <= 1 {
        ss[0]
    } else {
        join_sep_upto(ss, sep, i - 1) + sep + ss[i - 1]
    }
}

/// The conditions part of a character line: `None` when no status is
/// active, else the names joined with commas.
pub open spec fn conditions_chars(ss: Seq<Seq<char>>) -> Seq<char> {
    if ss.len() == 0 {
        "None"@
    } else {
        join_sep_upto(ss, ", "@, ss.len() as int)
    }
}

/// One bullet line for a character.
pub open spec fn char_line_chars(c: CharacterContext) -> Seq<char> {
    "- "@ + c.name@ + (match c.title {
        Some(t) => ", "@ + t@,
        None => Seq::<char>::empty(),
    }) + ": HP "@ + dec_chars(c.current_hp_percent as int) + "%, Conditions: "@
        + conditions_chars(c.active_statuses@.map_values(|s: String| s@)) + "\n"@
}

/// The character bullet lines for the first `i` characters.
pub open spec fn chars_block_upto(cs: Seq<CharacterContext>, i: int) -> Seq<char>
    decreases i,
{
    if i <= 0 {
        Seq::empty()
    } else {
        chars_block_upto(cs, i - 1) + char_line_chars(cs[i - 1])
    }
}

/// The fact bullet lines for the first `i` facts.
pub open spec fn facts_block_upto(fs: Seq<Seq<char>>, i: int) -> Seq<char>
    decreases i,
{
    if i <= 0 {
        Seq::empty()
    } else {
        facts_block_upto(fs, i - 1) + "- "@ + fs[i - 1] + "\n"@
    }
}

/// The full prompt string of an assembled context: fixed section headers
/// in order, with the character and background sections omitted when
/// empty.
pub open spec fn prompt_chars(ac: AssembledContext) -> Seq<char> {
    "## Current Event\n"@ + ac.event_description@ + "\n\n"@ + "## World State\n"@ + "Time: "@
        + ac.world_context.time_of_day@ + " (Day "@ + dec_chars(ac.world_context.day as int)
        + "), "@ + (if ac.world_context.is_night {
        "Night"@
    } else {
        "Day"@
    }) + " "@ + weather_chars(ac.world_context.weather) + "\n"@ + "\n"@ + (if ac.character_context@.len() > 0 {
        "## Involved Characters\n"@ + chars_block_upto(
            ac.character_context@,
            ac.character_context@.len() as int,
        ) + "\n"@
    } else {
        Seq::<char>::empty()
    }) + (if ac.relevant_facts@.len() > 0 {
        "## Relevant Background\n"@ + facts_block_upto(
            ac.relevant_facts@.map_values(|s: String| s@),
            ac.relevant_facts@.len() as int,
        ) + "\n"@
    } else {
        Seq::<char>::empty()
    })
}

impl AssembledContext {
    /// Format the context as a prompt string.
    #[verifier::rlimit(100)]
    pub fn to_prompt_string(&self) -> (r: String)
        ensures
            r@ == prompt_chars(*self),
    {
        let mut s = String::new();
        s.append("## Current Event\n");
        s.append(self.event_description.as_str());
        s.append("\n\n");
        s.append("## World State\n");
        s.append("Time: ");
        s.append(self.world_context.time_of_day.as_str());
        s.append(" (Day ");
        append_u64_dec(&mut s, self.world_context.day as u64);
        s.append("), ");
        if self.world_context.is_night {
            s.append("Night");
        } else {
            s.append("Day");
        }
        s.append(" ");
        match self.world_context.weather {
            Weather::Clear => s.append("Clear"),
            Weather::Cloudy => s.append("Cloudy"),
            Weather::Rainy => s.append("Rainy"),
            Weather::Stormy => s.append("Stormy"),
            Weather::Snowy => s.append("Snowy"),
            Weather::Foggy => s.append("Foggy"),
        }
        s.append("\n");
        s.append("\n");
        let ghost head = s@;
        if self.character_context.len() > 0 {
            s.append("## Involved Characters\n");
            let ghost cs = self.character_context@;
            let mut i: usize = 0;
            proof {
                assert(s@ =~= head + "## Involved Characters\n"@ + chars_block_upto(cs, 0));
            }
            while i < self.character_context.len()
                invariant
                    i <= cs.len(),
                    cs == self.character_context@,
                    s@ == head + "## Involved Characters\n"@ + chars_block_upto(cs, i as int),
                decreases cs.len() - i,
            {
                let c = &self.character_context[i];
                let ghost before = s@;
                s.append("- ");
                s.append(c.name.as_str());
                match &c.title {
                    Some(t) => {
                        s.append(", ");
                        s.append(t.as_str());
                    },
                    None => {},
                }
                s.append(": HP ");
                append_u64_dec(&mut s, c.current_hp_percent as u64);
                s.append("%, Conditions: ");
                let ghost sts = c.active_statuses@.map_values(|x: String| x@);
                if c.active_statuses.len() == 0 {
                    s.append("None");
                    proof {
                        assert(s@ =~= before + "- "@ + c.name@ + (match c.title {
                            Some(t) => ", "@ + t@,
                            None => Seq::<char>::empty(),
                        }) + ": HP "@ + dec_chars(c.current_hp_percent as int)
                            + "%, Conditions: "@ + conditions_chars(sts));
                    }
                } else {
                    let ghost mid = s@;
                    s.append(c.active_statuses[0].as_str());
                    let mut j: usize = 1;
                    proof {
                        assert(s@ =~= mid + join_sep_upto(sts, ", "@, 1));
                    }
                    while j < c.active_statuses.len()
                        invariant
                            1 <= j <= sts.len(),
                            sts == c.active_statuses@.map_values(|x: String| x@),
                            sts.len() == c.active_statuses@.len(),
                            s@ == mid + join_sep_upto(sts, ", "@, j as int),
                        decreases sts.len() - j,
                    {
                        s.append(", ");
                        s.append(c.active_statuses[j].as_str());
                        proof {
                            assert(s@ =~= mid + join_sep_upto(sts, ", "@, j + 1));
                        }
                        j = j + 1;
                    }
                    proof {
                        assert(s@ =~= before + "- "@ + c.name@ + (match c.title {
                            Some(t) => ", "@ + t@,
                            None => Seq::<char>::empty(),
                        }) + ": HP "@ + dec_chars(c.current_hp_percent as int)
                            + "%, Conditions: "@ + conditions_chars(sts));
                    }
                }
                s.append("\n");
                proof {
                    assert(s@ =~= head + "## Involved Characters\n"@ + chars_block_upto(
                        cs,
                        i + 1,
                    ));
                }
                i = i + 1;
            }
            s.append("\n");
        }
        let ghost head2 = s@;
        if self.relevant_facts.len() > 0 {
            s.append("## Relevant Background\n");
            let ghost fs = self.relevant_facts@.map_values(|x: String| x@);
            let mut i: usize = 0;
            proof {
                assert(s@ =~= head2 + "## Relevant Background\n"@ + facts_block_upto(fs, 0));
            }
            while i < self.relevant_facts.len()
                invariant
                    i <= fs.len(),
                    fs == self.relevant_facts@.map_values(|x: String| x@),
                    fs.len() == self.relevant_facts@.len(),
                    s@ == head2 + "## Relevant Background\n"@ + facts_block_upto(fs, i as int),
                decreases fs.len() - i,
            {
                s.append("- ");
                s.append(self.relevant_facts[i].as_str());
                s.append("\n");
                proof {
                    assert(s@ =~= head2 + "## Relevant Background\n"@ + facts_block_upto(
                        fs,
                        i + 1,
                    ));
                }
                i = i + 1;
            }
            s.append("\n");
        }
        proof {
            assert(s@ =~= prompt_chars(*self));
        }
        s
    }
}

} // verus!
