//! The registries that publish or receive delegations.

use vstd::prelude::*;
use vstd::string::StringExecFns;

use crate::error::Error;
use crate::text::{text_is, to_chars, to_text};

verus! {

/// Number resource registries, in the order of their numeric index.
#[derive(Debug, Copy, Clone, Hash, PartialEq, Eq, Structural)]
pub enum Registry {
    /// Africa Region
    Afrinic,
    /// Asia/Pacific Region
    Apnic,
    /// Canada, USA, and some Caribbean Islands
    Arin,
    /// Internet Assigned Numbers Authority(IANA)
    Iana,
    /// Internet Engineering Task Force(IETF), Special Registry
    Ietf,
    /// Latin America and some Caribbean Islands
    Lacnic,
    /// Europe, the Middle East, and Central Asia
    Ripencc,
}

impl Registry {
    /// Numeric index of the registry: 0 to 6 in declaration order.
    pub open spec fn spec_index(&self) -> u8 {
        match *self {
            Registry::Afrinic => 0u8,
            Registry::Apnic => 1u8,
            Registry::Arin => 2u8,
            Registry::Iana => 3u8,
            Registry::Ietf => 4u8,
            Registry::Lacnic => 5u8,
            Registry::Ripencc => 6u8,
        }
    }

    /// The region a registry serves, in words.
    pub open spec fn spec_description(&self) -> Seq<char> {
        match *self {
            Registry::Afrinic => "Africa Region"@,
            Registry::Apnic => "Asia/Pacific Region"@,
            Registry::Arin => "Canada, USA, and some Caribbean Islands"@,
            Registry::Iana => "Internet Assigned Numbers Authority(IANA)"@,
            Registry::Ietf => "Internet Engineering Task Force(IETF), Special Registry"@,
            Registry::Lacnic => "Latin America and some Caribbean Islands"@,
            Registry::Ripencc => "Europe, the Middle East, and Central Asia"@,
        }
    }

    /// The name of the registry as delegation files write it.
    pub open spec fn spec_name(&self) -> Seq<char> {
        match *self {
            Registry::Afrinic => "afrinic"@,
            Registry::Apnic => "apnic"@,
            Registry::Arin => "arin"@,
            Registry::Iana => "iana"@,
            Registry::Ietf => "ietf"@,
            Registry::Lacnic => "lacnic"@,
            Registry::Ripencc => "ripencc"@,
        }
    }

    /// The registry that delegation files write as `s`, if there is one.
    pub open spec fn named(s: Seq<char>) -> Option<Registry> {
        if s == "afrinic"@ {
            Some(Registry::Afrinic)
        } else if s == "apnic"@ {
            Some(Registry::Apnic)
        } else if s == "arin"@ {
            Some(Registry::Arin)
        } else if s == "iana"@ {
            Some(Registry::Iana)
        } else if s == "ietf"@ {
            Some(Registry::Ietf)
        } else if s == "lacnic"@ {
            Some(Registry::Lacnic)
        } else if s == "ripencc"@ {
            Some(Registry::Ripencc)
        } else {
            None
        }
    }

    /// What is said of a text that names no registry.
    pub open spec fn refusal(s: Seq<char>) -> Seq<char> {
        "Unknow Registry Name ("@ + s + ")"@
    }

    /// The registry named `s`. Fails with `ParseRegistryError` exactly when
    /// `s` is not the name of a registry.
    pub fn from_chars(s: &Vec<char>) -> (r: Result<Registry, Error>)
        ensures
            match Registry::named(s@) {
                Some(registry) => r == Ok::<Registry, Error>(registry),
                None => r is Err && r->Err_0 is ParseRegistryError && r->Err_0->ParseRegistryError_0@
                    == Registry::refusal(s@),
            },
    {
        if text_is(s, "afrinic") {
            Ok(Registry::Afrinic)
        } else if text_is(s, "apnic") {
            Ok(Registry::Apnic)
        } else if text_is(s, "arin") {
            Ok(Registry::Arin)
        } else if text_is(s, "iana") {
            Ok(Registry::Iana)
        } else if text_is(s, "ietf") {
            Ok(Registry::Ietf)
        } else if text_is(s, "lacnic") {
            Ok(Registry::Lacnic)
        } else if text_is(s, "ripencc") {
            Ok(Registry::Ripencc)
        } else {
            let mut message = String::from_str("Unknow Registry Name (");
            let text = to_text(s);
            message.append(text.as_str());
            message.append(")");
            Err(Error::ParseRegistryError(message))
        }
    }

    /// The registry named `s`. Fails with `ParseRegistryError` exactly when `s`
    /// is not the name of a registry.
    pub fn from_str(s: &str) -> (r: Result<Registry, Error>)
        ensures
            match Registry::named(s@) {
                Some(found) => r == Ok::<Registry, Error>(found),
                None => r is Err && r->Err_0 is ParseRegistryError && r->Err_0->ParseRegistryError_0@
                    == Registry::refusal(s@),
            },
    {
        let chars = to_chars(s);
        Registry::from_chars(&chars)
    }

    /// The name of the registry as delegation files write it.
    pub fn name(&self) -> (r: &'static str)
        ensures
            r@ == self.spec_name(),
    {
        match *self {
            Registry::Afrinic => "afrinic",
            Registry::Apnic => "apnic",
            Registry::Arin => "arin",
            Registry::Iana => "iana",
            Registry::Ietf => "ietf",
            Registry::Lacnic => "lacnic",
            Registry::Ripencc => "ripencc",
        }
    }

    /// The registry with the given index; `Err(())` exactly when the index is above 6.
    pub fn from_index(index: u8) -> (r: Result<Registry, ()>)
        ensures
            index <= 6 ==> r is Ok && r->Ok_0.spec_index() == index,
            index > 6 ==> r is Err,
    {
        match index {
            0 => Ok(Registry::Afrinic),
            1 => Ok(Registry::Apnic),
            2 => Ok(Registry::Arin),
            3 => Ok(Registry::Iana),
            4 => Ok(Registry::Ietf),
            5 => Ok(Registry::Lacnic),
            6 => Ok(Registry::Ripencc),
            _ => Err(()),
        }
    }

    /// Numeric index of the registry.
    #[verifier::when_used_as_spec(spec_index)]
    pub fn index(&self) -> (r: u8)
        ensures
            r == self.spec_index(),
            r <= 6,
    {
        match *self {
            Registry::Afrinic => 0,
            Registry::Apnic => 1,
            Registry::Arin => 2,
            Registry::Iana => 3,
            Registry::Ietf => 4,
            Registry::Lacnic => 5,
            Registry::Ripencc => 6,
        }
    }

    /// The region a registry serves, in words.
    pub fn description(&self) -> (r: &'static str)
        ensures
            r@ == self.spec_description(),
    {
        match *self {
            Registry::Afrinic => "Africa Region",
            Registry::Apnic => "Asia/Pacific Region",
            Registry::Arin => "Canada, USA, and some Caribbean Islands",
            Registry::Iana => "Internet Assigned Numbers Authority(IANA)",
            Registry::Ietf => "Internet Engineering Task Force(IETF), Special Registry",
            Registry::Lacnic => "Latin America and some Caribbean Islands",
            Registry::Ripencc => "Europe, the Middle East, and Central Asia",
        }
    }
}

/// An index and its registry determine each other.
pub proof fn lemma_registry_index_injective(a: Registry, b: Registry)
    requires
        a.spec_index() == b.spec_index(),
    ensures
        a == b,
{
}

/// A registry is found again by its name.
pub proof fn lemma_registry_name_round_trip(registry: Registry)
    ensures
        Registry::named(registry.spec_name()) == Some(registry),
{
    reveal_strlit("afrinic");
    reveal_strlit("apnic");
    reveal_strlit("arin");
    reveal_strlit("iana");
    reveal_strlit("ietf");
    reveal_strlit("lacnic");
    reveal_strlit("ripencc");
    assert("afrinic"@.len() == 7 && "afrinic"@[0] == 'a');
    assert("apnic"@.len() == 5);
    assert("arin"@.len() == 4 && "arin"@[0] == 'a');
    assert("iana"@.len() == 4 && "iana"@[0] == 'i' && "iana"@[1] == 'a');
    assert("ietf"@.len() == 4 && "ietf"@[0] == 'i' && "ietf"@[1] == 'e');
    assert("lacnic"@.len() == 6);
    assert("ripencc"@.len() == 7 && "ripencc"@[0] == 'r');
}

} // verus!
