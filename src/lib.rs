//! Line-folding encoder for mail header fields.
//!
//! An [`Encoder`] owns a sequence of sections: header text buffers and
//! opaque body payloads. An [`EncodeHandle`] writes one header field at a
//! time into the last text buffer, keeps every physical line terminated by
//! CRLF, folds long lines at marked folding-white-space positions and lets
//! the caller commit or roll back the field.
mod mail_type;
pub mod error;
pub mod body;
pub mod encoder;
pub mod handle;
pub mod header;
pub mod inner_item;
pub mod laws;
pub mod line_content;
pub mod text_validity;

pub use mail_type::MailType;
pub use handle::{ConditionalWriteResult, EncodeHandle, LINE_LEN_HARD_LIMIT, LINE_LEN_SOFT_LIMIT};
pub use body::{BodyBuffer, Section, VecBodyBuf};
pub use encoder::Encoder;
pub use inner_item::{InnerAscii, InnerUtf8};
pub use header::{HeaderName, HeaderNameError};
pub use error::{EncodingError, EncodingErrorKind, Place};
