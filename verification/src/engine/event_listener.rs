//! What the engine tells of its work in the background.

use vstd::prelude::*;

verus! {

/// How far the engine holds writes back.
#[derive(Clone, Copy, Debug, PartialEq, Eq, Structural)]
pub enum WriteStallCondition {
    Normal,
    Delayed,
    Stopped,
}

/// Listens to one database.
#[derive(Debug)]
pub struct EventListener {
    db_name: String,
}

impl EventListener {
    /// The name of the database.
    pub closed spec fn spec_db_name(&self) -> Seq<char> {
        self.db_name@
    }

    pub fn new(db_name: &str) -> (r: EventListener)
        ensures
            r.spec_db_name() == db_name@,
    {
        EventListener { db_name: db_name.to_owned() }
    }

    /// The name of the database.
    pub fn db_name(&self) -> (r: &str)
        ensures
            r@ == self.spec_db_name(),
    {
        self.db_name.as_str()
    }

    /// The two marks to set when the condition of a column family goes from `prev` to
    /// `cur`: the mark of the new condition, to be set to 1, and that of the old one, to
    /// be set to 0.
    pub fn on_stall_conditions_changed(&self, cur: WriteStallCondition, prev: WriteStallCondition) -> (r: (
        &'static str,
        &'static str,
    ))
        ensures
            r.0@ == stall_tag(cur),
            r.1@ == stall_tag(prev),
    {
        (tag_write_stall_condition(cur), tag_write_stall_condition(prev))
    }
}

/// The name of a condition.
pub open spec fn stall_tag(e: WriteStallCondition) -> Seq<char> {
    match e {
        WriteStallCondition::Normal => "normal"@,
        WriteStallCondition::Delayed => "delayed"@,
        WriteStallCondition::Stopped => "stopped"@,
    }
}

/// The name of a condition.
#[inline]
pub fn tag_write_stall_condition(e: WriteStallCondition) -> (r: &'static str)
    ensures
        r@ == stall_tag(e),
{
    match e {
        WriteStallCondition::Normal => "normal",
        WriteStallCondition::Delayed => "delayed",
        WriteStallCondition::Stopped => "stopped",
    }
}

} // verus!
