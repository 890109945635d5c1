use vstd::prelude::*;

use crate::error::{EncodingError, EncodingErrorKind};

verus! {

/// The buffer of a body payload, e.g. a transfer-encoded image or text.
///
/// Its bytes are only handed out to a callback, so implementations may keep
/// them behind a lock guard or produce them lazily; the slice is valid for
/// the duration of the callback only.
pub trait BodyBuffer {
    /// The bytes the payload holds.
    spec fn body_bytes(&self) -> Seq<u8>;

    /// The bytes can be had: `with_slice` then always hands them to its callback.
    spec fn readable(&self) -> bool;

    /// Calls `func` with the payload's bytes and returns what it returns;
    /// fails with `AccessingMailBodyFailed` where the bytes cannot be had.
    fn with_slice<R, F>(&self, func: F) -> (r: Result<R, EncodingError>) where
        F: FnOnce(&[u8]) -> Result<R, EncodingError>
        requires
            forall|s: &[u8]| s@ == self.body_bytes() ==> #[trigger] func.requires((s,)),
        ensures
            (exists|s: &[u8]| s@ == self.body_bytes() && #[trigger] func.ensures((s,), r)) || (
            r is Err && r->Err_0.kind() == EncodingErrorKind::AccessingMailBodyFailed),
            self.readable() ==> exists|s: &[u8]|
                s@ == self.body_bytes() && #[trigger] func.ensures((s,), r),
    ;
}

/// A body payload held in a plain vector of bytes.
#[derive(Debug, Clone, PartialEq, Eq, Hash)]
pub struct VecBodyBuf(pub Vec<u8>);

impl BodyBuffer for VecBodyBuf {
    open spec fn body_bytes(&self) -> Seq<u8> {
        self.0@
    }

    open spec fn readable(&self) -> bool {
        true
    }

    fn with_slice<R, F>(&self, func: F) -> (r: Result<R, EncodingError>) where
        F: FnOnce(&[u8]) -> Result<R, EncodingError>
    {
        let slice = self.0.as_slice();
        let r = func(slice);
        assert(func.ensures((slice,), r));
        r
    }
}

/// One contiguous chunk of a rendered mail: header text, or a body payload.
#[derive(Debug, Clone, PartialEq, Eq, Hash)]
pub enum Section<B> {
    Text(Vec<u8>),
    BodyPayload(B),
}

impl<B> Section<B> {
    /// The header text of a text section.
    pub fn unwrap_header(self) -> (r: Vec<u8>)
        requires
            self is Text,
        ensures
            r == self->Text_0,
    {
        match self {
            Section::Text(text) => text,
            Section::BodyPayload(_) => vstd::pervasive::unreached(),
        }
    }

    /// The payload of a body section.
    pub fn unwrap_body(self) -> (r: B)
        requires
            self is BodyPayload,
        ensures
            r == self->BodyPayload_0,
    {
        match self {
            Section::BodyPayload(body) => body,
            Section::Text(_) => vstd::pervasive::unreached(),
        }
    }
}

} // verus!
