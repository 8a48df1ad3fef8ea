pub mod channels;
pub mod fuzzy;
pub mod health;
pub mod instance;
pub mod mirror;
pub mod namehistory;
pub mod recent_messages;
pub mod search;
pub mod shortcut;
pub mod topk;

use vstd::prelude::*;

verus! {

/// A channel entry as returned by a justlog/rustlog instance's `/channels`.
#[derive(Clone, Debug)]
pub struct Channel {
    pub name: String,
    pub user_id: String,
}

/// One entry of an instance's `/list` `availableLogs` array: a day (channel
/// logs) or a month (user logs).
#[derive(Clone, Debug, PartialEq, Eq)]
pub struct AvailableLogDate {
    pub year: String,
    pub month: String,
    pub day: Option<String>,
}

impl AvailableLogDate {
    /// A field-for-field copy.
    pub fn copied(&self) -> (r: AvailableLogDate)
        ensures
            r == *self,
    {
        AvailableLogDate {
            year: self.year.clone(),
            month: self.month.clone(),
            day: match &self.day {
                Some(d) => Some(d.clone()),
                None => None,
            },
        }
    }
}

} // verus!
