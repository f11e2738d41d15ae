//! What can go wrong with the one file that holds every position, and what loading does with
//! what a read of it gave.
//!
//! A file that is present but unparseable is never treated as empty: that would hand back an
//! empty store which the next save would then write over the user's positions.

use vstd::prelude::*;

verus! {

#[derive(Debug)]
pub enum StoreError {
    /// The file exists but is not a store. The damaged file has been copied to .bak.
    Corrupt(String),
    Io(String),
}

impl StoreError {
    /// The sentence the page shows for this error.
    pub open spec fn message_of(&self) -> Seq<char> {
        match self {
            StoreError::Corrupt(e) => "portfolios.json is damaged and was copied to portfolios.json.bak: "@
                + e@,
            StoreError::Io(e) => "store io: "@ + e@,
        }
    }

    pub fn message(&self) -> (r: String)
        ensures
            r@ == self.message_of(),
    {
        match self {
            StoreError::Corrupt(e) => {
                let mut m = String::from_str(
                    "portfolios.json is damaged and was copied to portfolios.json.bak: ",
                );
                m.append(e.as_str());
                m
            },
            StoreError::Io(e) => {
                let mut m = String::from_str("store io: ");
                m.append(e.as_str());
                m
            },
        }
    }
}

/// What reading `portfolios.json` gave: no file, a read that failed with this error, a file that
/// parsed as a store, or a file that is there but did not parse, with the parser's error.
#[derive(Debug)]
pub enum StoreRead {
    Missing,
    Failed(String),
    Parsed,
    Unparseable(String),
}

/// What loading does next: start from an empty store, report an error, use what was parsed, or
/// copy the damaged file to `portfolios.json.bak` and then report it.
#[derive(Debug)]
pub enum StoreStep {
    Empty,
    Fail(StoreError),
    Use,
    BackUpThenFail(StoreError),
}

/// The step each reading leads to.
pub open spec fn step_for(read: StoreRead) -> StoreStep {
    match read {
        StoreRead::Missing => StoreStep::Empty,
        StoreRead::Failed(e) => StoreStep::Fail(StoreError::Io(e)),
        StoreRead::Parsed => StoreStep::Use,
        StoreRead::Unparseable(e) => StoreStep::BackUpThenFail(StoreError::Corrupt(e)),
    }
}

/// Decide what loading does with what the read gave. Only a missing file starts an empty store;
/// a file that is there but damaged is kept aside and reported, never replaced.
pub fn load_step(read: StoreRead) -> (r: StoreStep)
    ensures
        r == step_for(read),
        match read {
            StoreRead::Missing => r is Empty,
            StoreRead::Failed(e) => r matches StoreStep::Fail(StoreError::Io(m)) && m@ == e@,
            StoreRead::Parsed => r is Use,
            StoreRead::Unparseable(e) => r matches StoreStep::BackUpThenFail(
                StoreError::Corrupt(m),
            ) && m@ == e@,
        },
{
    match read {
        StoreRead::Missing => StoreStep::Empty,
        StoreRead::Failed(e) => StoreStep::Fail(StoreError::Io(e)),
        StoreRead::Parsed => StoreStep::Use,
        StoreRead::Unparseable(e) => StoreStep::BackUpThenFail(StoreError::Corrupt(e)),
    }
}

/// Losing positions is the one outcome not allowed: a file that is there but does not parse
/// never leads to an empty store, which the next save would write over it. It is backed up and
/// reported as damaged, with the parser's words; only a missing file starts an empty store.
pub proof fn law_a_damaged_file_never_becomes_an_empty_store(read: StoreRead)
    ensures
        step_for(read) is Empty <==> read is Missing,
        read matches StoreRead::Unparseable(e) ==> step_for(read) == StoreStep::BackUpThenFail(
            StoreError::Corrupt(e),
        ),
{
}

} // verus!
