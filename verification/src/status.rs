//! Allocation status of a delegated address block.

use vstd::prelude::*;
use vstd::string::StringExecFns;

use crate::error::Error;
use crate::text::{text_is, to_chars, to_text};

verus! {

/// Status of a delegated block, in the order of its numeric index.
#[derive(Debug, Copy, Clone, Hash, PartialEq, Eq, Structural)]
pub enum Status {
    Allocated,
    Assigned,
    Available,
    Reserved,
}

impl Status {
    /// Numeric index of the status: 0 to 3 in declaration order.
    pub open spec fn spec_index(&self) -> u8 {
        match *self {
            Status::Allocated => 0u8,
            Status::Assigned => 1u8,
            Status::Available => 2u8,
            Status::Reserved => 3u8,
        }
    }

    /// The name of the status as delegation files write it.
    pub open spec fn spec_name(&self) -> Seq<char> {
        match *self {
            Status::Allocated => "allocated"@,
            Status::Assigned => "assigned"@,
            Status::Available => "available"@,
            Status::Reserved => "reserved"@,
        }
    }

    /// The status that delegation files write as `s`, if there is one.
    pub open spec fn named(s: Seq<char>) -> Option<Status> {
        if s == "allocated"@ {
            Some(Status::Allocated)
        } else if s == "assigned"@ {
            Some(Status::Assigned)
        } else if s == "available"@ {
            Some(Status::Available)
        } else if s == "reserved"@ {
            Some(Status::Reserved)
        } else {
            None
        }
    }

    /// What is said of a text that names no status.
    pub open spec fn refusal(s: Seq<char>) -> Seq<char> {
        "Unknow Status ("@ + s + ")"@
    }

    /// The status named `s`. Fails with `ParseStatusError` exactly when `s`
    /// is not the name of a status.
    pub fn from_chars(s: &Vec<char>) -> (r: Result<Status, Error>)
        ensures
            match Status::named(s@) {
                Some(status) => r == Ok::<Status, Error>(status),
                None => r is Err && r->Err_0 is ParseStatusError && r->Err_0->ParseStatusError_0@
                    == Status::refusal(s@),
            },
    {
        if text_is(s, "allocated") {
            Ok(Status::Allocated)
        } else if text_is(s, "assigned") {
            Ok(Status::Assigned)
        } else if text_is(s, "available") {
            Ok(Status::Available)
        } else if text_is(s, "reserved") {
            Ok(Status::Reserved)
        } else {
            let mut message = String::from_str("Unknow Status (");
            let text = to_text(s);
            message.append(text.as_str());
            message.append(")");
            Err(Error::ParseStatusError(message))
        }
    }

    /// The status named `s`. Fails with `ParseStatusError` exactly when `s`
    /// is not the name of a status.
    pub fn from_str(s: &str) -> (r: Result<Status, Error>)
        ensures
            match Status::named(s@) {
                Some(found) => r == Ok::<Status, Error>(found),
                None => r is Err && r->Err_0 is ParseStatusError && r->Err_0->ParseStatusError_0@
                    == Status::refusal(s@),
            },
    {
        let chars = to_chars(s);
        Status::from_chars(&chars)
    }

    /// The name of the status as delegation files write it.
    pub fn name(&self) -> (r: &'static str)
        ensures
            r@ == self.spec_name(),
    {
        match *self {
            Status::Allocated => "allocated",
            Status::Assigned => "assigned",
            Status::Available => "available",
            Status::Reserved => "reserved",
        }
    }

    /// The status with the given index; `Err(())` exactly when the index is above 3.
    pub fn from_index(index: u8) -> (r: Result<Status, ()>)
        ensures
            index <= 3 ==> r is Ok && r->Ok_0.spec_index() == index,
            index > 3 ==> r is Err,
    {
        match index {
            0 => Ok(Status::Allocated),
            1 => Ok(Status::Assigned),
            2 => Ok(Status::Available),
            3 => Ok(Status::Reserved),
            _ => Err(()),
        }
    }

    /// Numeric index of the status.
    #[verifier::when_used_as_spec(spec_index)]
    pub fn index(&self) -> (r: u8)
        ensures
            r == self.spec_index(),
            r <= 3,
    {
        match *self {
            Status::Allocated => 0,
            Status::Assigned => 1,
            Status::Available => 2,
            Status::Reserved => 3,
        }
    }
}

/// A status is found again by its name.
pub proof fn lemma_status_name_round_trip(status: Status)
    ensures
        Status::named(status.spec_name()) == Some(status),
{
    reveal_strlit("allocated");
    reveal_strlit("assigned");
    reveal_strlit("available");
    reveal_strlit("reserved");
    assert("allocated"@.len() == 9 && "allocated"@[0] == 'a' && "allocated"@[1] == 'l');
    assert("assigned"@.len() == 8 && "assigned"@[0] == 'a');
    assert("available"@.len() == 9 && "available"@[0] == 'a' && "available"@[1] == 'v');
    assert("reserved"@.len() == 8 && "reserved"@[0] == 'r');
}

} // verus!
