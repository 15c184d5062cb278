//! Country codes as delegation files write them.

use vstd::prelude::*;
use vstd::string::StringExecFns;

use crate::error::Error;
use crate::text::{to_chars, to_text};

verus! {

/// Whether `c` is one of the letters `A` to `Z`.
pub open spec fn is_upper_letter(c: char) -> bool {
    'A' <= c <= 'Z'
}

/// Whether `s` is a country code: exactly two letters from `A` to `Z`.
pub open spec fn is_country_code(s: Seq<char>) -> bool {
    s.len() == 2 && is_upper_letter(s[0]) && is_upper_letter(s[1])
}

/// A country, or a region that delegation files treat as one, by its
/// two-letter code.
#[derive(Debug, Copy, Clone, Hash, PartialEq, Eq, Structural)]
pub struct Country {
    first: char,
    second: char,
}

impl View for Country {
    type V = Seq<char>;

    /// The two letters of the code.
    closed spec fn view(&self) -> Seq<char> {
        seq![self.first, self.second]
    }
}

impl Country {
    #[verifier::type_invariant]
    spec fn inv(self) -> bool {
        is_upper_letter(self.first) && is_upper_letter(self.second)
    }

    /// The code `ZZ`, which stands for a country that is not known.
    pub open spec fn unknown_code() -> Seq<char> {
        seq!['Z', 'Z']
    }

    /// What is said of a text that is no country code.
    pub open spec fn refusal(s: Seq<char>) -> Seq<char> {
        "Unknow Country Code ("@ + s + ")"@
    }

    /// The country that stands for "not known": `ZZ`.
    pub fn unknown() -> (r: Country)
        ensures
            r@ == Country::unknown_code(),
    {
        Country { first: 'Z', second: 'Z' }
    }

    /// The country with the code `s`. Fails with `ParseCountryError` exactly
    /// when `s` is not two letters from `A` to `Z`.
    pub fn from_str(s: &str) -> (r: Result<Country, Error>)
        ensures
            is_country_code(s@) ==> r is Ok && r->Ok_0@ == s@,
            !is_country_code(s@) ==> r is Err && r->Err_0 is ParseCountryError && r->Err_0->ParseCountryError_0@ == Country::refusal(s@),
    {
        let chars = to_chars(s);
        Country::from_chars(&chars)
    }

    /// The country with the code `chars`. Fails with `ParseCountryError`
    /// exactly when `chars` is not two letters from `A` to `Z`.
    pub fn from_chars(chars: &Vec<char>) -> (r: Result<Country, Error>)
        ensures
            is_country_code(chars@) ==> r is Ok && r->Ok_0@ == chars@,
            !is_country_code(chars@) ==> r is Err && r->Err_0 is ParseCountryError && r->Err_0->ParseCountryError_0@ == Country::refusal(chars@),
    {
        if chars.len() == 2 {
            let first: char = chars[0];
            let second: char = chars[1];
            if first >= 'A' && first <= 'Z' && second >= 'A' && second <= 'Z' {
                assert(seq![first, second] =~= chars@);
                return Ok(Country { first, second });
            }
        }
        let mut message = String::from_str("Unknow Country Code (");
        let text = to_text(chars);
        message.append(text.as_str());
        message.append(")");
        Err(Error::ParseCountryError(message))
    }

    /// The two letters of the code.
    pub fn code(&self) -> (r: String)
        ensures
            r@ == self@,
            is_country_code(self@),
    {
        proof {
            use_type_invariant(self);
        }
        let mut out = String::new();
        out.push(self.first);
        out.push(self.second);
        assert(out@ =~= self@);
        out
    }

    /// Whether this is the code for a country that is not known.
    pub fn is_unknown(&self) -> (r: bool)
        ensures
            r == (self@ == Country::unknown_code()),
    {
        let r = self.first == 'Z' && self.second == 'Z';
        proof {
            if self@ == Country::unknown_code() {
                assert(self@[0] == 'Z' && self@[1] == 'Z');
            }
            if r {
                assert(self@ =~= Country::unknown_code());
            }
        }
        r
    }
}

/// Two countries with the same code are the same country.
pub proof fn lemma_country_by_code(a: Country, b: Country)
    requires
        a@ == b@,
    ensures
        a == b,
{
    assert(a@[0] == b@[0]);
    assert(a@[1] == b@[1]);
}

} // verus!
