use vstd::prelude::*;
use vstd::string::StringSliceAdditionalSpecFns;
use vstd::utf8::valid_utf8;

use crate::error::{EncodingError, EncodingErrorKind, US_ASCII, UTF_8};
use crate::mail_type::MailType;
use crate::line_content::{content_in, lemma_line_has_content, lemma_other_steps_flags, lemma_write_byte_flags, lemma_write_bytes_flags};
use crate::text_validity::{lemma_keeps_trans, lemma_finish_ok, lemma_undo_ok, lemma_write_ascii_ok, lemma_write_text_ok};

verus! {

/// Preferred maximum length of a physical line, CRLF excluded (RFC 5322).
pub const LINE_LEN_SOFT_LIMIT: usize = 78;

/// Absolute maximum length of a physical line, CRLF excluded (RFC 5322, RFC 5321).
pub const LINE_LEN_HARD_LIMIT: usize = 998;

/// A space or a horizontal tab.
pub open spec fn is_ws(b: u8) -> bool {
    b == 32u8 || b == 9u8
}

/// A byte that continues a multi-byte UTF-8 sequence.
pub open spec fn is_continuation(b: u8) -> bool {
    0x80u8 <= b && b < 0xC0u8
}

/// The number of bytes of the UTF-8 character that starts with `b`.
pub open spec fn char_width(b: u8) -> int {
    if b < 0x80u8 {
        1
    } else if b < 0xE0u8 {
        2
    } else if b < 0xF0u8 {
        3
    } else {
        4
    }
}

pub fn utf8_width(b: u8) -> (r: usize)
    ensures
        r == char_width(b),
{
    if b < 0x80u8 {
        1
    } else if b < 0xE0u8 {
        2
    } else if b < 0xF0u8 {
        3
    } else {
        4
    }
}

pub open spec fn crlf() -> Seq<u8> {
    seq![13u8, 10u8]
}

/// The abstract state of an [`EncodeHandle`]: the whole buffer plus the
/// positions and flags the handle keeps about the field being written.
pub struct HandleState {
    pub buf: Seq<u8>,
    pub mail_type: MailType,
    /// Where the field in progress began: the commit and rollback boundary.
    pub header_start: nat,
    /// Where the current physical line began.
    pub line_start: nat,
    /// The most recently marked folding position.
    pub last_fws: nat,
    /// A `'\r'` was consumed and waits for its `'\n'`.
    pub skipped_cr: bool,
    /// Non-whitespace was written since the last folding mark (or line start).
    pub content_since_fws: bool,
    /// Non-whitespace was written on this line before the last folding mark.
    pub content_before_fws: bool,
}

impl HandleState {
    pub open spec fn wf(self) -> bool {
        &&& self.header_start <= self.line_start
        &&& self.line_start <= self.buf.len()
        &&& self.last_fws <= self.buf.len()
    }

    /// The state right after creation, `finish_header` or `undo_header`:
    /// nothing of the next field is written yet.
    pub open spec fn is_fresh(self) -> bool {
        &&& self.header_start == self.buf.len()
        &&& self.line_start == self.buf.len()
        &&& self.last_fws == self.buf.len()
        &&& !self.skipped_cr
        &&& !self.content_since_fws
        &&& !self.content_before_fws
    }

    pub open spec fn line_len(self) -> int {
        self.buf.len() - self.line_start
    }

    pub open spec fn line_has_content(self) -> bool {
        self.content_before_fws || self.content_since_fws
    }

    /// Ends the current line: with CRLF if it holds content, otherwise by
    /// cutting the blank line away.
    pub open spec fn start_new_line(self) -> HandleState {
        let buf = if self.line_has_content() {
            self.buf + crlf()
        } else {
            self.buf.subrange(0, self.line_start as int)
        };
        HandleState {
            buf,
            line_start: buf.len(),
            last_fws: buf.len(),
            content_since_fws: false,
            content_before_fws: false,
            ..self
        }
    }

    /// The line can be folded at the last marked position.
    pub open spec fn can_fold(self) -> bool {
        self.content_before_fws && self.last_fws > self.line_start
    }

    /// The byte the continuation line starts with when the line is folded
    /// while `b` is written: the one at the folding position, or `b` itself
    /// where that position is the end of the buffer.
    pub open spec fn byte_after_fold(self, b: u8) -> u8 {
        if self.last_fws < self.buf.len() {
            self.buf[self.last_fws as int]
        } else {
            b
        }
    }

    /// What is inserted at a fold: no extra space where the continuation
    /// line already starts with whitespace.
    pub open spec fn fold_text(self, b: u8) -> Seq<u8> {
        if is_ws(self.byte_after_fold(b)) {
            crlf()
        } else {
            seq![13u8, 10u8, 32u8]
        }
    }

    /// Folds the line at the last marked position while `b` is written.
    pub open spec fn fold(self, b: u8) -> HandleState {
        HandleState {
            buf: self.buf.subrange(0, self.last_fws as int) + self.fold_text(b) + self.buf.subrange(
                self.last_fws as int,
                self.buf.len() as int,
            ),
            line_start: self.last_fws + 2,
            content_before_fws: false,
            ..self
        }
    }

    pub open spec fn push_byte(self, b: u8) -> HandleState {
        HandleState {
            buf: self.buf.push(b),
            content_since_fws: self.content_since_fws || !is_ws(b),
            ..self
        }
    }

    /// Folds the line where it reached the soft limit and can be folded.
    pub open spec fn fold_if_due(self, b: u8) -> HandleState {
        if self.line_len() >= LINE_LEN_SOFT_LIMIT && self.can_fold() {
            self.fold(b)
        } else {
            self
        }
    }

    /// Feeds one byte. A byte that starts a character of `char_width(b)`
    /// bytes is refused where the character would take the line past the
    /// hard limit; a fold done just before stays.
    pub open spec fn write_byte(self, b: u8) -> (HandleState, Option<EncodingErrorKind>) {
        if b == 10u8 {
            if self.skipped_cr {
                (HandleState { skipped_cr: false, ..self.start_new_line() }, None)
            } else {
                (self, Some(EncodingErrorKind::Malformed))
            }
        } else if self.skipped_cr {
            (self, Some(EncodingErrorKind::Malformed))
        } else if b == 13u8 {
            (HandleState { skipped_cr: true, ..self }, None)
        } else if is_continuation(b) {
            (self.push_byte(b), None)
        } else if self.fold_if_due(b).line_len() + char_width(b) > LINE_LEN_HARD_LIMIT {
            (self.fold_if_due(b), Some(EncodingErrorKind::HardLineLengthLimitBreached))
        } else {
            (self.fold_if_due(b).push_byte(b), None)
        }
    }

    /// Feeds the bytes in order, stopping at the first error.
    pub open spec fn write_bytes(self, bytes: Seq<u8>) -> (HandleState, Option<EncodingErrorKind>)
        decreases bytes.len(),
    {
        if bytes.len() == 0 {
            (self, None)
        } else {
            let (s, e) = self.write_bytes(bytes.drop_last());
            if e is Some {
                (s, e)
            } else {
                s.write_byte(bytes.last())
            }
        }
    }

    pub open spec fn mark_fws(self) -> HandleState {
        HandleState {
            content_before_fws: self.content_before_fws || self.content_since_fws,
            content_since_fws: false,
            last_fws: self.buf.len(),
            ..self
        }
    }

    /// Starts a new field at the end of the buffer.
    pub open spec fn reinit(self) -> HandleState {
        HandleState {
            header_start: self.buf.len(),
            line_start: self.buf.len(),
            last_fws: self.buf.len(),
            skipped_cr: false,
            content_since_fws: false,
            content_before_fws: false,
            ..self
        }
    }

    pub open spec fn finish(self) -> HandleState {
        self.start_new_line().reinit()
    }

    pub open spec fn undo(self) -> HandleState {
        HandleState { buf: self.buf.subrange(0, self.header_start as int), ..self }.reinit()
    }
}

/// A byte allowed in RFC 5322 `atext`: letters, digits and
/// ``!#$%&'*+-/=?^_`{|}~``; in internationalized mail (RFC 6532) also every
/// byte of a non-ASCII UTF-8 character.
pub open spec fn is_atext_byte(b: u8, mail_type: MailType) -> bool {
    ||| 97u8 <= b <= 122u8
    ||| 65u8 <= b <= 90u8
    ||| 48u8 <= b <= 57u8
    ||| b == 33u8
    ||| 35u8 <= b <= 39u8
    ||| b == 42u8
    ||| b == 43u8
    ||| b == 45u8
    ||| b == 47u8
    ||| b == 61u8
    ||| b == 63u8
    ||| 94u8 <= b <= 96u8
    ||| 123u8 <= b <= 126u8
    ||| (b >= 128u8 && mail_type.is_internationalized())
}

pub open spec fn all_atext(bytes: Seq<u8>, mail_type: MailType) -> bool {
    forall|i: int| 0 <= i < bytes.len() ==> is_atext_byte(#[trigger] bytes[i], mail_type)
}

pub fn check_atext_byte(b: u8, mail_type: MailType) -> (r: bool)
    ensures
        r == is_atext_byte(b, mail_type),
{
    (97u8 <= b && b <= 122u8) || (65u8 <= b && b <= 90u8) || (48u8 <= b && b <= 57u8) || b == 33u8
        || (35u8 <= b && b <= 39u8) || b == 42u8 || b == 43u8 || b == 45u8 || b == 47u8 || b
        == 61u8 || b == 63u8 || (94u8 <= b && b <= 96u8) || (123u8 <= b && b <= 126u8) || (b
        >= 128u8 && mail_type.is_internationalized())
}

/// True if every byte of `s` is allowed in `atext` for the mail type.
pub fn is_atext(s: &str, mail_type: MailType) -> (r: bool)
    ensures
        r == all_atext(s.spec_bytes(), mail_type),
{
    let bytes = s.as_bytes();
    let mut i: usize = 0;
    while i < bytes.len()
        invariant
            0 <= i <= bytes@.len(),
            bytes@ == s.spec_bytes(),
            forall|j: int| 0 <= j < i ==> is_atext_byte(#[trigger] bytes@[j], mail_type),
        decreases bytes.len() - i,
    {
        if !check_atext_byte(bytes[i], mail_type) {
            return false;
        }
        i = i + 1;
    }
    true
}

/// The outcome of a write that first tests a condition: the write was done,
/// the condition did not hold (nothing was written, the caller may fall back
/// to another form), or the write itself failed.
#[derive(Debug)]
pub enum ConditionalWriteResult {
    Success,
    ConditionFailure,
    GeneralFailure(EncodingError),
}

impl From<Result<(), EncodingError>> for ConditionalWriteResult {
    fn from(v: Result<(), EncodingError>) -> (r: ConditionalWriteResult) {
        match v {
            Ok(()) => ConditionalWriteResult::Success,
            Err(e) => ConditionalWriteResult::GeneralFailure(e),
        }
    }
}

impl vstd::std_specs::convert::FromSpecImpl<Result<(), EncodingError>> for ConditionalWriteResult {
    open spec fn obeys_from_spec() -> bool {
        true
    }

    open spec fn from_spec(v: Result<(), EncodingError>) -> ConditionalWriteResult {
        match v {
            Ok(()) => ConditionalWriteResult::Success,
            Err(e) => ConditionalWriteResult::GeneralFailure(e),
        }
    }
}

impl ConditionalWriteResult {
    /// The result of a write that was done.
    pub open spec fn of_write(failure: Option<EncodingErrorKind>, r: ConditionalWriteResult) -> bool {
        match r {
            ConditionalWriteResult::Success => failure is None,
            ConditionalWriteResult::GeneralFailure(e) => failure is Some && e.kind()
                == failure->Some_0,
            ConditionalWriteResult::ConditionFailure => false,
        }
    }

    /// Runs `func` where the condition failed; otherwise passes the
    /// outcome of the write on.
    pub fn handle_condition_failure<F>(self, func: F) -> (r: Result<(), EncodingError>) where
        F: FnOnce() -> Result<(), EncodingError>
        requires
            self is ConditionFailure ==> func.requires(()),
        ensures
            self is Success ==> r is Ok,
            self is GeneralFailure ==> r == Err::<(), EncodingError>(self->GeneralFailure_0),
            self is ConditionFailure ==> func.ensures((), r),
    {
        match self {
            ConditionalWriteResult::Success => Ok(()),
            ConditionalWriteResult::ConditionFailure => func(),
            ConditionalWriteResult::GeneralFailure(err) => Err(err),
        }
    }
}

/// A cursor that writes one header field at a time into a borrowed buffer.
///
/// It keeps track of the current line's length and of the places where the
/// line may be folded: a line that reached the soft limit (78) is folded at
/// the last marked position where there is one, and a line that cannot be
/// folded takes no character once it reached the hard limit (998). Every
/// field written through it is concluded with [`EncodeHandle::finish_header`]
/// or rolled back with [`EncodeHandle::undo_header`].
///
/// Contracts speak of the handle through its view (a [`HandleState`]) and
/// of the borrowed buffer through [`EncodeHandle::buffer_ref`]; a verified
/// caller gets the buffer's final content back from [`EncodeHandle::close`].
pub struct EncodeHandle<'a> {
    pub(crate) buffer: &'a mut Vec<u8>,
    pub(crate) mail_type: MailType,
    pub(crate) header_start_idx: usize,
    pub(crate) line_start_idx: usize,
    pub(crate) last_fws_idx: usize,
    pub(crate) skipped_cr: bool,
    pub(crate) content_since_fws: bool,
    pub(crate) content_before_fws: bool,
}

impl<'a> View for EncodeHandle<'a> {
    type V = HandleState;

    closed spec fn view(&self) -> HandleState {
        HandleState {
            buf: (*self.buffer)@,
            mail_type: self.mail_type,
            header_start: self.header_start_idx as nat,
            line_start: self.line_start_idx as nat,
            last_fws: self.last_fws_idx as nat,
            skipped_cr: self.skipped_cr,
            content_since_fws: self.content_since_fws,
            content_before_fws: self.content_before_fws,
        }
    }
}


pub proof fn lemma_fold_wf(s: HandleState, b: u8)
    requires
        s.wf(),
        s.can_fold(),
    ensures
        s.fold(b).wf(),
{
    let f = s.fold(b);
    assert(f.buf.len() == s.buf.len() + s.fold_text(b).len());
}

/// Every step keeps the state well formed.
pub proof fn lemma_write_byte_wf(s: HandleState, b: u8)
    requires
        s.wf(),
    ensures
        s.write_byte(b).0.wf(),
        s.write_byte(b).0.header_start == s.header_start,
        s.write_byte(b).0.mail_type == s.mail_type,
        s.write_byte(b).0.buf.subrange(0, s.header_start as int) == s.buf.subrange(
            0,
            s.header_start as int,
        ),
{
    let h = s.header_start as int;
    let r = s.write_byte(b).0;
    if b == 10u8 && s.skipped_cr {
        if s.line_has_content() {
            assert(r.buf.subrange(0, h) =~= s.buf.subrange(0, h));
        } else {
            assert(r.buf.subrange(0, h) =~= s.buf.subrange(0, h));
        }
    } else if !s.skipped_cr && b != 10u8 && b != 13u8 && !is_continuation(b)
        && s.line_len() >= LINE_LEN_SOFT_LIMIT && s.can_fold() {
        let f = s.fold(b);
        assert(f.buf.subrange(0, h) =~= s.buf.subrange(0, h));
        assert(r.buf.subrange(0, h) =~= s.buf.subrange(0, h));
    } else {
        assert(r.buf.subrange(0, h) =~= s.buf.subrange(0, h));
    }
}

pub proof fn lemma_write_bytes_wf(s: HandleState, bytes: Seq<u8>)
    requires
        s.wf(),
    ensures
        s.write_bytes(bytes).0.wf(),
        s.write_bytes(bytes).0.header_start == s.header_start,
        s.write_bytes(bytes).0.mail_type == s.mail_type,
        s.write_bytes(bytes).0.buf.subrange(0, s.header_start as int) == s.buf.subrange(
            0,
            s.header_start as int,
        ),
    decreases bytes.len(),
{
    if bytes.len() > 0 {
        lemma_write_bytes_wf(s, bytes.drop_last());
        let (t, e) = s.write_bytes(bytes.drop_last());
        if e is None {
            lemma_write_byte_wf(t, bytes.last());
        }
    }
}

/// Once an error occurred, further bytes change nothing.
pub proof fn lemma_write_bytes_error_stays(s: HandleState, bytes: Seq<u8>, k: int)
    requires
        0 <= k <= bytes.len(),
        s.write_bytes(bytes.subrange(0, k)).1 is Some,
    ensures
        s.write_bytes(bytes) == s.write_bytes(bytes.subrange(0, k)),
    decreases bytes.len(),
{
    if k < bytes.len() {
        assert(bytes.drop_last().subrange(0, k) =~= bytes.subrange(0, k));
        lemma_write_bytes_error_stays(s, bytes.drop_last(), k);
    } else {
        assert(bytes.subrange(0, k) =~= bytes);
    }
}

impl<'a> EncodeHandle<'a> {
    /// The borrowed buffer.
    pub closed spec fn buffer_ref(&self) -> &'a mut Vec<u8> {
        self.buffer
    }

    /// Ends the use of the handle once its field is committed or rolled
    /// back: what the borrowed buffer finally holds is what the handle holds.
    pub fn close(self)
        requires
            self@.buf.len() == self@.header_start,
        ensures
            (*final(self.buffer_ref()))@ == self@.buf,
    {
    }

    /// A handle that starts a new field at the end of `buffer`.
    pub fn new(mail_type: MailType, buffer: &'a mut Vec<u8>) -> (r: EncodeHandle<'a>)
        ensures
            r@.buf == old(buffer)@,
            r@.mail_type == mail_type,
            r@.is_fresh(),
            valid_utf8(old(buffer)@) ==> r@.consistent(),
            *final(r.buffer_ref()) == *final(buffer),
    {
        let start_idx = buffer.len();
        EncodeHandle {
            buffer,
            mail_type,
            header_start_idx: start_idx,
            line_start_idx: start_idx,
            last_fws_idx: start_idx,
            skipped_cr: false,
            content_since_fws: false,
            content_before_fws: false,
        }
    }

    fn reinit(&mut self)
        ensures
            final(self)@ == old(self)@.reinit(),
            *final(final(self).buffer_ref()) == *final(old(self).buffer_ref()),
    {
        let start_idx = self.buffer.len();
        self.line_start_idx = start_idx;
        self.last_fws_idx = start_idx;
        self.skipped_cr = false;
        self.content_since_fws = false;
        self.content_before_fws = false;
        self.header_start_idx = start_idx;
    }

    /// True if the positions the handle keeps lie within its buffer.
    pub fn is_well_formed(&self) -> (r: bool)
        ensures
            r == self@.wf(),
    {
        let n = self.buffer.len();
        self.header_start_idx <= self.line_start_idx && self.line_start_idx <= n
            && self.last_fws_idx <= n
    }

    /// True while the field in progress has written anything.
    pub fn has_unfinished_parts(&self) -> (r: bool)
        ensures
            r == (self@.buf.len() != self@.header_start),
    {
        self.buffer.len() != self.header_start_idx
    }

    pub fn mail_type(&self) -> (r: MailType)
        ensures
            r == self@.mail_type,
    {
        self.mail_type
    }

    /// True if the current line holds anything but whitespace.
    pub fn line_has_content(&self) -> (r: bool)
        ensures
            r == self@.line_has_content(),
            self@.consistent() ==> (r <==> content_in(
                self@.buf,
                self@.line_start as int,
                self@.buf.len() as int,
            )),
    {
        proof {
            if self@.consistent() {
                lemma_line_has_content(self@);
            }
        }
        self.content_before_fws || self.content_since_fws
    }

    /// The length in bytes of the current physical line.
    pub fn current_line_byte_length(&self) -> (r: usize)
        requires
            self@.wf(),
        ensures
            r == self@.line_len(),
            self@.consistent() ==> r <= LINE_LEN_HARD_LIMIT,
    {
        self.buffer.len() - self.line_start_idx
    }

    /// Marks the current position as one where the line may be folded.
    pub fn mark_fws_pos(&mut self)
        ensures
            old(self)@.wf() ==> final(self)@.wf(),
            final(self)@ == old(self)@.mark_fws(),
            old(self)@.consistent() ==> final(self)@.consistent(),
            old(self)@.wf() ==> old(self)@.keeps_earlier_fields(final(self)@),
            *final(final(self).buffer_ref()) == *final(old(self).buffer_ref()),
    {
        proof {
            if self@.consistent() {
                lemma_other_steps_flags(self@);
            }
        }
        self.content_before_fws = self.content_before_fws || self.content_since_fws;
        self.content_since_fws = false;
        self.last_fws_idx = self.buffer.len();
    }

    /// Ends the current line: appends CRLF if the line has content, else
    /// cuts the whitespace-only line away.
    fn start_new_line(&mut self)
        requires
            old(self)@.wf(),
        ensures
            final(self)@ == old(self)@.start_new_line(),
            *final(final(self).buffer_ref()) == *final(old(self).buffer_ref()),
    {
        if self.line_has_content() {
            self.buffer.push(13u8);
            self.buffer.push(10u8);
        } else {
            self.buffer.truncate(self.line_start_idx);
        }
        self.line_start_idx = self.buffer.len();
        self.content_since_fws = false;
        self.content_before_fws = false;
        self.last_fws_idx = self.line_start_idx;
        proof {
            let o = old(self)@;
            if o.line_has_content() {
                assert(self.buffer@ =~= o.buf + crlf());
            } else {
                assert(self.buffer@ =~= o.buf.subrange(0, o.line_start as int));
            }
            assert(self@ == o.start_new_line());
        }
    }

    /// Folds the line at the last marked position if that is possible.
    fn break_line_on_fws(&mut self, b: u8) -> (r: bool)
        requires
            old(self)@.wf(),
        ensures
            r == old(self)@.can_fold(),
            r ==> final(self)@ == old(self)@.fold(b),
            !r ==> final(self)@ == old(self)@,
            *final(final(self).buffer_ref()) == *final(old(self).buffer_ref()),
    {
        if self.content_before_fws && self.last_fws_idx > self.line_start_idx {
            let ghost o = self@;
            let idx = self.last_fws_idx;
            let next = if idx < self.buffer.len() {
                self.buffer[idx]
            } else {
                b
            };
            let ws_follows = next == 32u8 || next == 9u8;
            if !ws_follows {
                self.buffer.insert(idx, 32u8);
            }
            self.buffer.insert(idx, 10u8);
            self.buffer.insert(idx, 13u8);
            let n = self.buffer.len();
            assert(n >= idx + 2);
            self.line_start_idx = idx + 2;
            self.content_before_fws = false;
            proof {
                let pre = o.buf.subrange(0, idx as int);
                let post = o.buf.subrange(idx as int, o.buf.len() as int);
                assert(o.buf =~= pre + post);
                assert(self.buffer@ =~= pre + o.fold_text(b) + post);
                assert(self@ == o.fold(b));
            }
            true
        } else {
            false
        }
    }

    fn internal_write_byte(&mut self, b: u8) -> (r: Result<(), EncodingError>)
        requires
            old(self)@.wf(),
        ensures
            final(self)@ == old(self)@.write_byte(b).0,
            final(self)@.wf(),
            r is Err <==> old(self)@.write_byte(b).1 is Some,
            r is Err ==> r->Err_0.kind() == old(self)@.write_byte(b).1->Some_0
                && r->Err_0.mail_type() == Some(old(self)@.mail_type),
            *final(final(self).buffer_ref()) == *final(old(self).buffer_ref()),
    {
        if b == 10u8 {
            if self.skipped_cr {
                self.start_new_line();
                self.skipped_cr = false;
                return Ok(());
            } else {
                return Err(
                    EncodingError::with_kind_and_mail_type(
                        EncodingErrorKind::Malformed,
                        self.mail_type,
                    ),
                );
            }
        }
        if self.skipped_cr {
            return Err(
                EncodingError::with_kind_and_mail_type(EncodingErrorKind::Malformed, self.mail_type),
            );
        }
        if b == 13u8 {
            self.skipped_cr = true;
            return Ok(());
        }
        if !(0x80u8 <= b && b < 0xC0u8) {
            if self.current_line_byte_length() >= LINE_LEN_SOFT_LIMIT {
                self.break_line_on_fws(b);
            }
            if self.current_line_byte_length() > LINE_LEN_HARD_LIMIT - utf8_width(b) {
                return Err(
                    EncodingError::with_kind_and_mail_type(
                        EncodingErrorKind::HardLineLengthLimitBreached,
                        self.mail_type,
                    ),
                );
            }
        }
        self.buffer.push(b);
        if b != 32u8 && b != 9u8 {
            self.content_since_fws = true;
        }
        Ok(())
    }

    /// Writes the bytes one after the other; may stop half-way on error.
    fn internal_write_bytes(&mut self, bytes: &[u8]) -> (r: Result<(), EncodingError>)
        requires
            old(self)@.wf(),
        ensures
            final(self)@.header_start == old(self)@.header_start,
            final(self)@.mail_type == old(self)@.mail_type,
            final(self)@.buf.subrange(0, old(self)@.header_start as int) == old(self)@.buf.subrange(
                0,
                old(self)@.header_start as int,
            ),
            final(self)@ == old(self)@.write_bytes(bytes@).0,
            final(self)@.wf(),
            r is Err <==> old(self)@.write_bytes(bytes@).1 is Some,
            r is Err ==> r->Err_0.kind() == old(self)@.write_bytes(bytes@).1->Some_0
                && r->Err_0.mail_type() == Some(old(self)@.mail_type),
            *final(final(self).buffer_ref()) == *final(old(self).buffer_ref()),
    {
        let ghost s0 = self@;
        let mut i: usize = 0;
        while i < bytes.len()
            invariant
                0 <= i <= bytes@.len(),
                s0 == old(self)@,
                s0.wf(),
                self@.wf(),
                self@.mail_type == s0.mail_type,
                s0.write_bytes(bytes@.subrange(0, i as int)) == (self@, None::<EncodingErrorKind>),
                *final(self.buffer_ref()) == *final(old(self).buffer_ref()),
            decreases bytes.len() - i,
        {
            let ghost pre = self@;
            let r = self.internal_write_byte(bytes[i]);
            proof {
                assert(bytes@.subrange(0, i + 1).drop_last() =~= bytes@.subrange(0, i as int));
                assert(bytes@.subrange(0, i + 1).last() == bytes@[i as int]);
                assert(s0.write_bytes(bytes@.subrange(0, i + 1)) == pre.write_byte(bytes@[i as int]));
            }
            match r {
                Err(e) => {
                    proof {
                        lemma_write_bytes_error_stays(s0, bytes@, i + 1);
                        lemma_write_bytes_wf(s0, bytes@);
                    }
                    return Err(e);
                },
                Ok(()) => {},
            }
            i = i + 1;
        }
        proof {
            assert(bytes@.subrange(0, i as int) =~= bytes@);
            lemma_write_bytes_wf(s0, bytes@);
        }
        Ok(())
    }

    /// Writes an ASCII character.
    ///
    /// Fails on a `'\n'` that does not follow a `'\r'`, on any character
    /// after a lone `'\r'`, and where the line reached the hard limit and
    /// cannot be folded.
    pub fn write_char(&mut self, ch: char) -> (r: Result<(), EncodingError>)
        requires
            old(self)@.wf(),
            (ch as u32) < 128,
        ensures
            final(self)@ == old(self)@.write_byte(ch as u8).0,
            final(self)@.wf(),
            old(self)@.consistent() ==> final(self)@.consistent(),
            old(self)@.keeps_earlier_fields(final(self)@),
            r is Err <==> old(self)@.write_byte(ch as u8).1 is Some,
            r is Err ==> r->Err_0.kind() == old(self)@.write_byte(ch as u8).1->Some_0
                && r->Err_0.mail_type() == Some(old(self)@.mail_type),
            *final(final(self).buffer_ref()) == *final(old(self).buffer_ref()),
    {
        let ghost pre = self@;
        let r = self.internal_write_byte(ch as u8);
        proof {
            if pre.consistent() {
                lemma_write_ascii_ok(pre, ch as u8);
                lemma_write_byte_flags(pre, ch as u8);
            }
            lemma_write_byte_wf(pre, ch as u8);
        }
        r
    }

    /// Writes an ASCII string; fails as [`EncodeHandle::write_char`] does,
    /// possibly after part of `s` was written.
    pub fn write_str(&mut self, s: &str) -> (r: Result<(), EncodingError>)
        requires
            old(self)@.wf(),
            s.is_ascii(),
        ensures
            final(self)@ == old(self)@.write_bytes(s.spec_bytes()).0,
            final(self)@.wf(),
            old(self)@.consistent() ==> final(self)@.consistent(),
            old(self)@.keeps_earlier_fields(final(self)@),
            r is Err <==> old(self)@.write_bytes(s.spec_bytes()).1 is Some,
            r is Err ==> r->Err_0.kind() == old(self)@.write_bytes(s.spec_bytes()).1->Some_0
                && r->Err_0.mail_type() == Some(old(self)@.mail_type),
            *final(final(self).buffer_ref()) == *final(old(self).buffer_ref()),
    {
        let ghost pre = self@;
        let r = self.internal_write_bytes(s.as_bytes());
        proof {
            if pre.consistent() {
                lemma_write_text_ok(pre, s@);
                lemma_write_bytes_flags(pre, s.spec_bytes());
            }
        }
        r
    }

    /// Writes UTF-8 text; only internationalized mail accepts it, any other
    /// mail type fails with `InvalidTextEncoding` and nothing is written.
    pub fn write_utf8(&mut self, s: &str) -> (r: Result<(), EncodingError>)
        requires
            old(self)@.wf(),
        ensures
            final(self)@.wf(),
            old(self)@.consistent() ==> final(self)@.consistent(),
            old(self)@.keeps_earlier_fields(final(self)@),
            *final(final(self).buffer_ref()) == *final(old(self).buffer_ref()),
            !old(self)@.mail_type.is_internationalized() ==> {
                &&& final(self)@ == old(self)@
                &&& r is Err
                &&& r->Err_0.kind() == (EncodingErrorKind::InvalidTextEncoding {
                    expected_encoding: US_ASCII,
                    got_encoding: UTF_8,
                })
                &&& r->Err_0.mail_type() == Some(old(self)@.mail_type)
            },
            old(self)@.mail_type.is_internationalized() ==> {
                &&& final(self)@ == old(self)@.write_bytes(s.spec_bytes()).0
                &&& (r is Err <==> old(self)@.write_bytes(s.spec_bytes()).1 is Some)
                &&& (r is Err ==> r->Err_0.kind() == old(self)@.write_bytes(
                    s.spec_bytes(),
                ).1->Some_0 && r->Err_0.mail_type() == Some(old(self)@.mail_type))
            },
    {
        if self.mail_type.is_internationalized() {
            let ghost pre = self@;
            let r = self.internal_write_bytes(s.as_bytes());
            proof {
                if pre.consistent() {
                    lemma_write_text_ok(pre, s@);
                    lemma_write_bytes_flags(pre, s.spec_bytes());
                }
            }
            r
        } else {
            Err(
                EncodingError::with_kind_and_mail_type(
                    EncodingErrorKind::InvalidTextEncoding {
                        expected_encoding: US_ASCII,
                        got_encoding: UTF_8,
                    },
                    self.mail_type,
                ),
            )
        }
    }

    /// Writes `s` without checking it against the mail type; newlines and
    /// line lengths are still enforced.
    pub fn write_str_unchecked(&mut self, s: &str) -> (r: Result<(), EncodingError>)
        requires
            old(self)@.wf(),
        ensures
            final(self)@ == old(self)@.write_bytes(s.spec_bytes()).0,
            final(self)@.wf(),
            old(self)@.consistent() ==> final(self)@.consistent(),
            old(self)@.keeps_earlier_fields(final(self)@),
            r is Err <==> old(self)@.write_bytes(s.spec_bytes()).1 is Some,
            r is Err ==> r->Err_0.kind() == old(self)@.write_bytes(s.spec_bytes()).1->Some_0
                && r->Err_0.mail_type() == Some(old(self)@.mail_type),
            *final(final(self).buffer_ref()) == *final(old(self).buffer_ref()),
    {
        let ghost pre = self@;
        let r = self.internal_write_bytes(s.as_bytes());
        proof {
            if pre.consistent() {
                lemma_write_text_ok(pre, s@);
                lemma_write_bytes_flags(pre, s.spec_bytes());
            }
        }
        r
    }

    /// Commits the field: the buffer then ends in exactly one CRLF (a
    /// trailing whitespace-only line is cut away, a pending `'\r'` is
    /// reused), and a new field starts.
    pub fn finish_header(&mut self)
        requires
            old(self)@.wf(),
        ensures
            final(self)@ == old(self)@.finish(),
            final(self)@.wf(),
            old(self)@.consistent() ==> final(self)@.consistent(),
            old(self)@.keeps_earlier_fields(final(self)@),
            *final(final(self).buffer_ref()) == *final(old(self).buffer_ref()),
    {
        proof {
            let o = self@;
            if o.consistent() {
                lemma_finish_ok(o);
                lemma_other_steps_flags(o);
            }
            let h = o.header_start as int;
            if o.line_has_content() {
                assert((o.buf + crlf()).subrange(0, h) =~= o.buf.subrange(0, h));
            } else {
                assert(o.buf.subrange(0, o.line_start as int).subrange(0, h) =~= o.buf.subrange(0, h));
            }
        }
        self.start_new_line();
        self.reinit();
    }

    /// Rolls back everything written since the handle was created or the
    /// last field was committed or rolled back.
    pub fn undo_header(&mut self)
        requires
            old(self)@.wf(),
        ensures
            final(self)@ == old(self)@.undo(),
            final(self)@.wf(),
            old(self)@.consistent() ==> final(self)@.consistent(),
            old(self)@.keeps_earlier_fields(final(self)@),
            *final(final(self).buffer_ref()) == *final(old(self).buffer_ref()),
    {
        proof {
            let o = self@;
            if o.consistent() {
                lemma_undo_ok(o);
                lemma_other_steps_flags(o);
            }
            let h = o.header_start as int;
            assert(o.buf.subrange(0, h).subrange(0, h) =~= o.buf.subrange(0, h));
        }
        self.buffer.truncate(self.header_start_idx);
        self.reinit();
    }

    /// Marks a folding position and writes a space there.
    pub fn write_fws(&mut self)
        requires
            old(self)@.wf(),
        ensures
            final(self)@ == old(self)@.mark_fws().write_byte(32u8).0,
            final(self)@.wf(),
            old(self)@.consistent() ==> final(self)@.consistent(),
            old(self)@.keeps_earlier_fields(final(self)@),
            *final(final(self).buffer_ref()) == *final(old(self).buffer_ref()),
    {
        let ghost o = self@;
        self.mark_fws_pos();
        let ghost m = self@;
        let _ = self.write_char(' ');
        proof {
            assert(m.buf.subrange(0, o.header_start as int) =~= o.buf.subrange(0, o.header_start as int));
            lemma_keeps_trans(o, m, self@);
        }
    }

    /// Writes `s` where the mail is internationalized; any other mail type
    /// is a condition failure and nothing is written.
    pub fn write_if_utf8(&mut self, s: &str) -> (r: ConditionalWriteResult)
        requires
            old(self)@.wf(),
        ensures
            final(self)@.wf(),
            old(self)@.consistent() ==> final(self)@.consistent(),
            old(self)@.keeps_earlier_fields(final(self)@),
            *final(final(self).buffer_ref()) == *final(old(self).buffer_ref()),
            old(self)@.mail_type.is_internationalized() ==> {
                &&& final(self)@ == old(self)@.write_bytes(s.spec_bytes()).0
                &&& ConditionalWriteResult::of_write(old(self)@.write_bytes(s.spec_bytes()).1, r)
            },
            !old(self)@.mail_type.is_internationalized() ==> final(self)@ == old(self)@ && r is ConditionFailure,
    {
        if self.mail_type.is_internationalized() {
            let ghost pre = self@;
            let r = self.internal_write_bytes(s.as_bytes());
            proof {
                if pre.consistent() {
                    lemma_write_text_ok(pre, s@);
                    lemma_write_bytes_flags(pre, s.spec_bytes());
                }
            }
            ConditionalWriteResult::from(r)
        } else {
            ConditionalWriteResult::ConditionFailure
        }
    }

    /// Writes `s` where all of it is `atext` for the mail type; otherwise
    /// it is a condition failure and nothing is written.
    pub fn write_if_atext(&mut self, s: &str) -> (r: ConditionalWriteResult)
        requires
            old(self)@.wf(),
        ensures
            final(self)@.wf(),
            old(self)@.consistent() ==> final(self)@.consistent(),
            old(self)@.keeps_earlier_fields(final(self)@),
            *final(final(self).buffer_ref()) == *final(old(self).buffer_ref()),
            all_atext(s.spec_bytes(), old(self)@.mail_type) ==> {
                &&& final(self)@ == old(self)@.write_bytes(s.spec_bytes()).0
                &&& ConditionalWriteResult::of_write(old(self)@.write_bytes(s.spec_bytes()).1, r)
            },
            !all_atext(s.spec_bytes(), old(self)@.mail_type) ==> final(self)@ == old(self)@ && r is ConditionFailure,
    {
        if is_atext(s, self.mail_type) {
            let ghost pre = self@;
            let r = self.internal_write_bytes(s.as_bytes());
            proof {
                if pre.consistent() {
                    lemma_write_text_ok(pre, s@);
                    lemma_write_bytes_flags(pre, s.spec_bytes());
                }
            }
            ConditionalWriteResult::from(r)
        } else {
            ConditionalWriteResult::ConditionFailure
        }
    }

    /// Writes `s`, unchecked, where `cond` holds of it; otherwise it is a
    /// condition failure and nothing is written.
    pub fn write_if<F>(&mut self, s: &str, cond: F) -> (r: ConditionalWriteResult) where
        F: FnOnce(&str) -> bool
        requires
            old(self)@.wf(),
            cond.requires((s,)),
        ensures
            final(self)@.wf(),
            old(self)@.consistent() ==> final(self)@.consistent(),
            old(self)@.keeps_earlier_fields(final(self)@),
            *final(final(self).buffer_ref()) == *final(old(self).buffer_ref()),
            r is ConditionFailure ==> final(self)@ == old(self)@ && cond.ensures((s,), false),
            !(r is ConditionFailure) ==> {
                &&& cond.ensures((s,), true)
                &&& final(self)@ == old(self)@.write_bytes(s.spec_bytes()).0
                &&& ConditionalWriteResult::of_write(old(self)@.write_bytes(s.spec_bytes()).1, r)
            },
    {
        if cond(s) {
            let ghost pre = self@;
            let r = self.internal_write_bytes(s.as_bytes());
            proof {
                if pre.consistent() {
                    lemma_write_text_ok(pre, s@);
                    lemma_write_bytes_flags(pre, s.spec_bytes());
                }
            }
            ConditionalWriteResult::from(r)
        } else {
            ConditionalWriteResult::ConditionFailure
        }
    }
}

} // verus!
