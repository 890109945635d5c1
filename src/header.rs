use vstd::prelude::*;
use vstd::string::is_ascii_spec_bytes;

verus! {

/// A character allowed in a header field name (RFC 5322 `ftext`): printable
/// US-ASCII (`'!'` to `'~'`) except `':'`.
pub open spec fn is_ftext(c: char) -> bool {
    33 <= c as u32 <= 126 && c as u32 != 58
}

pub open spec fn is_lower(c: char) -> bool {
    97 <= c as u32 <= 122
}

pub open spec fn is_upper(c: char) -> bool {
    65 <= c as u32 <= 90
}

pub open spec fn is_digit(c: char) -> bool {
    48 <= c as u32 <= 57
}

/// Position `i` starts a word: it is the first character or follows one
/// that is neither a letter nor a digit.
pub open spec fn begins_word(name: Seq<char>, i: int) -> bool {
    i == 0 || !(is_lower(name[i - 1]) || is_upper(name[i - 1]) || is_digit(name[i - 1]))
}

/// The name's letter case breaks the schema at `i`: a word must begin with
/// an upper-case letter or a digit, and continue in lower case.
pub open spec fn breaks_schema(name: Seq<char>, i: int) -> bool {
    (is_lower(name[i]) && begins_word(name, i)) || (is_upper(name[i]) && !begins_word(name, i))
}

pub open spec fn flawed_at(name: Seq<char>, i: int) -> bool {
    !is_ftext(name[i]) || breaks_schema(name, i)
}

/// The first flaw of the name lies at `i`.
pub open spec fn first_flaw(name: Seq<char>, i: int) -> bool {
    &&& 0 <= i < name.len()
    &&& flawed_at(name, i)
    &&& forall|j: int| 0 <= j < i ==> !#[trigger] flawed_at(name, j)
}

pub open spec fn is_valid_header_name(name: Seq<char>) -> bool {
    name.len() >= 1 && forall|i: int| 0 <= i < name.len() ==> !#[trigger] flawed_at(name, i)
}

/// Why a header field name was refused.
#[derive(Debug, Clone, PartialEq, Eq, Hash)]
pub enum HeaderNameError {
    /// The name is empty or holds a character not allowed in field names.
    InvalidHeaderName(String),
    /// The name's letter case does not follow the accepted schema.
    RejectedHeaderNameSchema(String),
}

/// The name of a header field, e.g. `Subject` or `Message-Id`.
///
/// Only names in which every word starts with an upper-case letter (or a
/// digit) and continues in lower case are accepted, so that names can be
/// compared without case folding: `Message-Id` is accepted, `Message-ID` is
/// not.
#[derive(Debug, Clone, Copy, PartialEq, Eq, Hash)]
pub struct HeaderName {
    name: &'static str,
}

impl HeaderName {
    pub closed spec fn spec_name(&self) -> Seq<char> {
        self.name@
    }

    /// Validates the ASCII `name` and wraps it.
    pub fn new(name: &'static str) -> (r: Result<HeaderName, HeaderNameError>)
        requires
            name.is_ascii(),
        ensures
            r is Ok <==> is_valid_header_name(name@),
            r is Ok ==> r->Ok_0.spec_name() == name@,
    {
        match HeaderName::validate_name(name) {
            Ok(()) => Ok(HeaderName { name }),
            Err(e) => Err(e),
        }
    }

    /// Wraps `name` without validating it.
    pub fn from_ascii_unchecked(name: &'static str) -> (r: HeaderName)
        ensures
            r.spec_name() == name@,
    {
        HeaderName { name }
    }

    pub fn as_str(&self) -> (r: &'static str)
        ensures
            r@ == self.spec_name(),
    {
        self.name
    }

    /// Checks the ASCII `name` character by character; the first flaw
    /// decides the error.
    pub fn validate_name(name: &str) -> (r: Result<(), HeaderNameError>)
        requires
            name.is_ascii(),
        ensures
            r is Ok <==> is_valid_header_name(name@),
            r matches Err(HeaderNameError::InvalidHeaderName(n)) ==> n@ == name@ && (name@.len()
                == 0 || exists|i: int| first_flaw(name@, i) && !is_ftext(name@[i])),
            r matches Err(HeaderNameError::RejectedHeaderNameSchema(n)) ==> n@ == name@ && exists|
                i: int,
            | first_flaw(name@, i) && is_ftext(name@[i]),
    {
        let bytes = name.as_bytes();
        proof {
            is_ascii_spec_bytes(name);
        }
        let ghost s = name@;
        proof {
            assert forall|j: int| 0 <= j < s.len() implies bytes@[j] as u32 == #[trigger] s[j] as u32 by {
                assert(bytes@[j] == s[j] as u8);
                assert((s[j] as u32) < 128);
            }
        }
        if bytes.len() < 1 {
            return Err(HeaderNameError::InvalidHeaderName(name.to_owned()));
        }
        let mut begin_of_word = true;
        let mut i: usize = 0;
        while i < bytes.len()
            invariant
                0 <= i <= bytes@.len(),
                bytes@.len() == s.len(),
                s == name@,
                forall|j: int| 0 <= j < s.len() ==> bytes@[j] as u32 == #[trigger] s[j] as u32,
                forall|j: int| 0 <= j < i ==> !#[trigger] flawed_at(s, j),
                begin_of_word == begins_word(s, i as int),
            decreases bytes.len() - i,
        {
            let b = bytes[i];
            proof {
                assert(b as u32 == s[i as int] as u32);
            }
            if b < 33u8 || b > 126u8 || b == 58u8 {
                assert(first_flaw(s, i as int));
                return Err(HeaderNameError::InvalidHeaderName(name.to_owned()));
            }
            if 97u8 <= b && b <= 122u8 {
                if begin_of_word {
                    assert(first_flaw(s, i as int));
                    return Err(HeaderNameError::RejectedHeaderNameSchema(name.to_owned()));
                }
            } else if 65u8 <= b && b <= 90u8 {
                if begin_of_word {
                    begin_of_word = false;
                } else {
                    assert(first_flaw(s, i as int));
                    return Err(HeaderNameError::RejectedHeaderNameSchema(name.to_owned()));
                }
            } else if 48u8 <= b && b <= 57u8 {
                begin_of_word = false;
            } else {
                begin_of_word = true;
            }
            i = i + 1;
        }
        Ok(())
    }
}

} // verus!
