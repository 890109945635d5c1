use vstd::prelude::*;

verus! {

/// The kind of mail being produced; it decides which characters and
/// encodings may appear in header fields.
#[derive(Debug, Clone, Copy, Hash, PartialEq, Eq)]
pub enum MailType {
    Ascii,
    Mime8BitEnabled,
    Internationalized,
}

impl MailType {
    pub open spec fn spec_is_internationalized(&self) -> bool {
        *self is Internationalized
    }

    pub open spec fn spec_supports_8bit_bodies(&self) -> bool {
        !(*self is Ascii)
    }

    /// True only for internationalized mail, the one mail type in which
    /// non-ASCII UTF-8 may be written directly into headers.
    #[verifier::when_used_as_spec(spec_is_internationalized)]
    pub fn is_internationalized(&self) -> (r: bool)
        ensures
            r == self.spec_is_internationalized(),
    {
        match self {
            MailType::Internationalized => true,
            _ => false,
        }
    }

    /// True for every mail type but plain ASCII mail.
    #[verifier::when_used_as_spec(spec_supports_8bit_bodies)]
    pub fn supports_8bit_bodies(&self) -> (r: bool)
        ensures
            r == self.spec_supports_8bit_bodies(),
    {
        match self {
            MailType::Ascii => false,
            MailType::Mime8BitEnabled => true,
            MailType::Internationalized => true,
        }
    }
}

} // verus!
