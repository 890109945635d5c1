use vstd::prelude::*;

use crate::mail_type::MailType;

verus! {

/// Name used when the encoding of some data is not known.
pub const UNKNOWN: &'static str = "<unknown>";

/// Name of the UTF-8 encoding.
pub const UTF_8: &'static str = "utf-8";

/// Name of the US-ASCII encoding.
pub const US_ASCII: &'static str = "us-ascii";

/// What went wrong while encoding.
#[derive(Debug, Clone, Copy, PartialEq, Eq, Hash)]
pub enum EncodingErrorKind {
    /// Text in one encoding was given where another was expected.
    InvalidTextEncoding { expected_encoding: &'static str, got_encoding: &'static str },
    /// A physical line would exceed the hard limit and cannot be folded.
    HardLineLengthLimitBreached,
    /// The data cannot be represented in the named encoding.
    NotEncodable { encoding: &'static str },
    /// Malformed data, e.g. a `'\r'` or `'\n'` that is not part of a CRLF pair.
    Malformed,
    /// A body payload could not be accessed.
    AccessingMailBodyFailed,
    /// Any other failure, described by a static text.
    Other { kind: &'static str },
}

/// Where in the mail an error happened.
#[derive(Debug, Clone, Copy, PartialEq, Eq, Hash)]
pub enum Place {
    Header { name: &'static str },
    Body,
}

/// An encoding error: its kind plus optional diagnostic context.
#[derive(Debug)]
pub struct EncodingError {
    kind: EncodingErrorKind,
    mail_type: Option<MailType>,
    str_context: Option<String>,
    place: Option<Place>,
}

impl EncodingError {
    pub closed spec fn spec_kind(&self) -> EncodingErrorKind {
        self.kind
    }

    pub closed spec fn spec_mail_type(&self) -> Option<MailType> {
        self.mail_type
    }

    pub closed spec fn spec_str_context(&self) -> Option<Seq<char>> {
        match self.str_context {
            Some(s) => Some(s@),
            None => None,
        }
    }

    pub closed spec fn spec_place(&self) -> Option<Place> {
        self.place
    }

    /// An error of the given kind without any context.
    pub fn from_kind(kind: EncodingErrorKind) -> (r: EncodingError)
        ensures
            r.spec_kind() == kind,
            r.spec_mail_type() is None,
            r.spec_str_context() is None,
            r.spec_place() is None,
    {
        EncodingError { kind, mail_type: None, str_context: None, place: None }
    }

    /// An error of the given kind, raised while encoding mail of the given type.
    pub fn with_kind_and_mail_type(kind: EncodingErrorKind, mail_type: MailType) -> (r:
        EncodingError)
        ensures
            r.spec_kind() == kind,
            r.spec_mail_type() == Some(mail_type),
            r.spec_str_context() is None,
            r.spec_place() is None,
    {
        EncodingError { kind, mail_type: Some(mail_type), str_context: None, place: None }
    }

    #[verifier::when_used_as_spec(spec_kind)]
    pub fn kind(&self) -> (r: EncodingErrorKind)
        ensures
            r == self.spec_kind(),
    {
        self.kind
    }

    #[verifier::when_used_as_spec(spec_mail_type)]
    pub fn mail_type(&self) -> (r: Option<MailType>)
        ensures
            r == self.spec_mail_type(),
    {
        self.mail_type
    }

    pub fn str_context(&self) -> (r: Option<&str>)
        ensures
            self.spec_str_context() is None ==> r is None,
            self.spec_str_context() is Some ==> r is Some && r->Some_0@ == self.spec_str_context()->Some_0,
    {
        match &self.str_context {
            Some(s) => Some(s.as_str()),
            None => None,
        }
    }

    pub fn set_str_context(&mut self, ctx: String)
        ensures
            final(self).spec_str_context() == Some(ctx@),
            final(self).spec_kind() == old(self).spec_kind(),
            final(self).spec_mail_type() == old(self).spec_mail_type(),
            final(self).spec_place() == old(self).spec_place(),
    {
        self.str_context = Some(ctx);
    }

    pub fn with_str_context(self, ctx: String) -> (r: EncodingError)
        ensures
            r.spec_str_context() == Some(ctx@),
            r.spec_kind() == self.spec_kind(),
            r.spec_mail_type() == self.spec_mail_type(),
            r.spec_place() == self.spec_place(),
    {
        let mut me = self;
        me.set_str_context(ctx);
        me
    }

    /// Sets the place from `func` unless a place is already known.
    pub fn with_place_or_else<F>(self, func: F) -> (r: EncodingError)
        where
            F: FnOnce() -> Option<Place>,
        requires
            self.spec_place() is None ==> func.requires(()),
        ensures
            self.spec_place() is Some ==> r.spec_place() == self.spec_place(),
            self.spec_place() is None ==> func.ensures((), r.spec_place()),
            r.spec_kind() == self.spec_kind(),
            r.spec_mail_type() == self.spec_mail_type(),
            r.spec_str_context() == self.spec_str_context(),
    {
        let mut me = self;
        if me.place.is_none() {
            me.place = func();
        }
        me
    }

    /// Sets the mail type from `func` unless a mail type is already known.
    pub fn with_mail_type_or_else<F>(self, func: F) -> (r: EncodingError)
        where
            F: FnOnce() -> Option<MailType>,
        requires
            self.spec_mail_type() is None ==> func.requires(()),
        ensures
            self.spec_mail_type() is Some ==> r.spec_mail_type() == self.spec_mail_type(),
            self.spec_mail_type() is None ==> func.ensures((), r.spec_mail_type()),
            r.spec_kind() == self.spec_kind(),
            r.spec_place() == self.spec_place(),
            r.spec_str_context() == self.spec_str_context(),
    {
        let mut me = self;
        if me.mail_type.is_none() {
            me.mail_type = func();
        }
        me
    }
}

impl From<EncodingErrorKind> for EncodingError {
    fn from(kind: EncodingErrorKind) -> (r: EncodingError) {
        EncodingError::from_kind(kind)
    }
}

impl vstd::std_specs::convert::FromSpecImpl<EncodingErrorKind> for EncodingError {
    open spec fn obeys_from_spec() -> bool {
        false
    }

    open spec fn from_spec(kind: EncodingErrorKind) -> EncodingError {
        arbitrary()
    }
}

impl From<(EncodingErrorKind, MailType)> for EncodingError {
    fn from(kind_and_mail_type: (EncodingErrorKind, MailType)) -> (r: EncodingError) {
        EncodingError::with_kind_and_mail_type(kind_and_mail_type.0, kind_and_mail_type.1)
    }
}

impl vstd::std_specs::convert::FromSpecImpl<(EncodingErrorKind, MailType)> for EncodingError {
    open spec fn obeys_from_spec() -> bool {
        false
    }

    open spec fn from_spec(kind_and_mail_type: (EncodingErrorKind, MailType)) -> EncodingError {
        arbitrary()
    }
}

} // verus!
