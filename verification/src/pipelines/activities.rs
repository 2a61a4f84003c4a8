//! Settings of the pipeline parts that work with activities.
use vstd::prelude::*;
use crate::text::str_eq;

verus! {

/// How the events that belong to no activity are treated when a log is
/// made of activities: left out, put in as one event, or all put in.
#[derive(PartialEq, Eq, Structural, Clone, Copy, Debug)]
pub enum UndefActivityHandlingStrategyDto {
    DontInsert,
    InsertAsSingleEvent,
    InsertAllEvents,
}

impl UndefActivityHandlingStrategyDto {
    /// The strategy named `s`, spelt as its variant; `Err` for any other text.
    pub fn parse(s: &str) -> (r: Result<Self, ()>)
        ensures
            r == (if s@ == "DontInsert"@ {
                Ok(UndefActivityHandlingStrategyDto::DontInsert)
            } else if s@ == "InsertAsSingleEvent"@ {
                Ok(UndefActivityHandlingStrategyDto::InsertAsSingleEvent)
            } else if s@ == "InsertAllEvents"@ {
                Ok(UndefActivityHandlingStrategyDto::InsertAllEvents)
            } else {
                Err(())
            }),
    {
        if str_eq(s, "DontInsert") {
            Ok(UndefActivityHandlingStrategyDto::DontInsert)
        } else if str_eq(s, "InsertAsSingleEvent") {
            Ok(UndefActivityHandlingStrategyDto::InsertAsSingleEvent)
        } else if str_eq(s, "InsertAllEvents") {
            Ok(UndefActivityHandlingStrategyDto::InsertAllEvents)
        } else {
            Err(())
        }
    }
}

impl std::str::FromStr for UndefActivityHandlingStrategyDto {
    type Err = ();

    fn from_str(s: &str) -> (r: Result<Self, ()>)
        ensures
            r == (if s@ == "DontInsert"@ {
                Ok(UndefActivityHandlingStrategyDto::DontInsert)
            } else if s@ == "InsertAsSingleEvent"@ {
                Ok(UndefActivityHandlingStrategyDto::InsertAsSingleEvent)
            } else if s@ == "InsertAllEvents"@ {
                Ok(UndefActivityHandlingStrategyDto::InsertAllEvents)
            } else {
                Err(())
            }),
    {
        Self::parse(s)
    }
}

} // verus!
