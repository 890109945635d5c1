use vstd::prelude::*;
use vstd::utf8::{decode_utf8, valid_utf8, valid_utf8_concat};

use crate::body::{BodyBuffer, Section};
use crate::error::{EncodingError, EncodingErrorKind, UNKNOWN, UTF_8};
use crate::handle::{crlf, EncodeHandle};
use crate::mail_type::MailType;
use crate::text_validity::{lemma_ascii_valid, lemma_keeps_trans, lemma_rendered_utf8, section_is_utf8};

verus! {

/// The characters `String::from_utf8_lossy` makes of some bytes.
pub uninterp spec fn lossy_utf8(bytes: Seq<u8>) -> Seq<char>;

/// Relies on `String::from_utf8`: it accepts exactly the valid UTF-8 byte
/// sequences and keeps the characters they encode.
#[verifier::external_body]
fn string_from_utf8(bytes: Vec<u8>) -> (r: Option<String>)
    ensures
        r is Some <==> valid_utf8(bytes@),
        r is Some ==> r->Some_0@ == decode_utf8(bytes@),
{
    String::from_utf8(bytes).ok()
}

/// Relies on `String::from_utf8_lossy`: valid UTF-8 is decoded unchanged,
/// anything else gets replacement characters.
#[verifier::external_body]
fn string_from_utf8_lossy(bytes: &[u8]) -> (r: String)
    ensures
        r@ == lossy_utf8(bytes@),
        valid_utf8(bytes@) ==> r@ == decode_utf8(bytes@),
{
    String::from_utf8_lossy(bytes).into_owned()
}

pub open spec fn ends_with_crlf(bytes: Seq<u8>) -> bool {
    bytes.len() >= 2 && bytes.subrange(bytes.len() - 2, bytes.len() as int) == crlf()
}

/// A body's bytes as they appear in the output: followed by CRLF unless
/// they end in one already.
pub open spec fn crlf_terminated(bytes: Seq<u8>) -> Seq<u8> {
    if ends_with_crlf(bytes) {
        bytes
    } else {
        bytes + crlf()
    }
}

pub open spec fn section_bytes<B: BodyBuffer>(section: Section<B>) -> Seq<u8> {
    match section {
        Section::Text(text) => text@,
        Section::BodyPayload(body) => crlf_terminated(body.body_bytes()),
    }
}

/// The bytes of a whole section sequence, in order.
pub open spec fn rendered<B: BodyBuffer>(sections: Seq<Section<B>>) -> Seq<u8>
    decreases sections.len(),
{
    if sections.len() == 0 {
        Seq::empty()
    } else {
        rendered(sections.drop_last()) + section_bytes(sections.last())
    }
}

/// Every body payload among the sections can be read.
pub open spec fn bodies_readable<B: BodyBuffer>(sections: Seq<Section<B>>) -> bool {
    forall|i: int|
        0 <= i < sections.len() && #[trigger] sections[i] is BodyPayload
            ==> sections[i]->BodyPayload_0.readable()
}

/// Every text section and every body payload is valid UTF-8.
pub open spec fn all_utf8<B: BodyBuffer>(sections: Seq<Section<B>>) -> bool {
    forall|i: int| 0 <= i < sections.len() ==> section_is_utf8(#[trigger] sections[i])
}

pub open spec fn ends_in_text<B>(sections: Seq<Section<B>>) -> bool {
    sections.len() > 0 && sections.last() is Text
}

/// The number of sections a new handle leaves untouched.
pub open spec fn kept_sections<B>(sections: Seq<Section<B>>) -> int {
    if ends_in_text(sections) {
        sections.len() - 1
    } else {
        sections.len() as int
    }
}

/// The text a new handle continues: that of the last section if it is text.
pub open spec fn open_text<B>(sections: Seq<Section<B>>) -> Seq<u8> {
    if ends_in_text(sections) {
        sections.last()->Text_0@
    } else {
        Seq::empty()
    }
}

/// After an operation that changed only the last text section, all
/// sections are valid UTF-8 where they were before and that text is.
proof fn lemma_utf8_after_last_text<B: BodyBuffer>(before: Seq<Section<B>>, after: Seq<Section<B>>)
    requires
        all_utf8(before),
        after.len() == kept_sections(before) + 1,
        after.subrange(0, kept_sections(before)) == before.subrange(0, kept_sections(before)),
        after.last() is Text,
        valid_utf8(after.last()->Text_0@),
    ensures
        all_utf8(after),
{
    let k = kept_sections(before);
    assert forall|i: int| 0 <= i < after.len() implies section_is_utf8(#[trigger] after[i]) by {
        if i < k {
            assert(after[i] == after.subrange(0, k)[i]);
            assert(before[i] == before.subrange(0, k)[i]);
            assert(section_is_utf8(before[i]));
        }
    }
}

/// Where all sections are valid UTF-8, so is the text a new handle continues.
proof fn lemma_open_text_utf8<B: BodyBuffer>(sections: Seq<Section<B>>)
    requires
        all_utf8(sections),
    ensures
        valid_utf8(open_text(sections)),
{
    if ends_in_text(sections) {
        assert(section_is_utf8(sections[sections.len() - 1]));
    } else {
        lemma_ascii_valid(Seq::<u8>::empty());
    }
}

fn append_bytes(out: &mut Vec<u8>, bytes: &[u8])
    ensures
        final(out)@ == old(out)@ + bytes@,
{
    let ghost start = out@;
    let mut i: usize = 0;
    while i < bytes.len()
        invariant
            0 <= i <= bytes@.len(),
            out@ == start + bytes@.subrange(0, i as int),
        decreases bytes.len() - i,
    {
        out.push(bytes[i]);
        i = i + 1;
        assert(out@ =~= start + bytes@.subrange(0, i as int));
    }
    assert(bytes@.subrange(0, i as int) =~= bytes@);
}

/// A copy of a body's bytes, followed by CRLF unless they end in one.
fn crlf_terminated_copy(bytes: &[u8]) -> (r: Vec<u8>)
    ensures
        r@ == crlf_terminated(bytes@),
{
    let mut out: Vec<u8> = Vec::new();
    append_bytes(&mut out, bytes);
    let n = bytes.len();
    let ends_crlf = n >= 2 && bytes[n - 2] == 13u8 && bytes[n - 1] == 10u8;
    proof {
        if n >= 2 {
            let tail = bytes@.subrange(n - 2, n as int);
            if ends_crlf {
                assert(tail =~= crlf());
            } else {
                assert(tail != crlf()) by {
                    if tail == crlf() {
                        assert(tail[0] == bytes@[n - 2]);
                        assert(tail[1] == bytes@[n - 1]);
                    }
                }
            }
        }
    }
    if !ends_crlf {
        out.push(13u8);
        out.push(10u8);
        assert(out@ =~= bytes@ + crlf());
    } else {
        assert(out@ =~= bytes@);
    }
    out
}

fn terminated_piece(slice: &[u8]) -> (r: Result<Vec<u8>, EncodingError>)
    ensures
        r is Ok,
        r->Ok_0@ == crlf_terminated(slice@),
{
    Ok(crlf_terminated_copy(slice))
}

/// Collects the sections of one mail: header text buffers written through
/// [`EncodeHandle`]s, and body payloads. The mail type is fixed at creation.
pub struct Encoder<B: BodyBuffer> {
    mail_type: MailType,
    sections: Vec<Section<B>>,
}

impl<B: BodyBuffer> Encoder<B> {
    pub closed spec fn spec_mail_type(&self) -> MailType {
        self.mail_type
    }

    pub closed spec fn sections(&self) -> Seq<Section<B>> {
        self.sections@
    }

    pub fn new(mail_type: MailType) -> (r: Encoder<B>)
        ensures
            r.spec_mail_type() == mail_type,
            r.sections().len() == 0,
    {
        Encoder { mail_type, sections: Vec::new() }
    }

    #[verifier::when_used_as_spec(spec_mail_type)]
    pub fn mail_type(&self) -> (r: MailType)
        ensures
            r == self.spec_mail_type(),
    {
        self.mail_type
    }

    /// A handle on the last section's text, opening a new empty text
    /// section first where the last section is not text.
    pub fn encode_handle(&mut self) -> (r: EncodeHandle<'_>)
        ensures
            r@.buf == open_text(old(self).sections()),
            r@.mail_type == old(self).spec_mail_type(),
            r@.is_fresh(),
            valid_utf8(open_text(old(self).sections())) ==> r@.consistent(),
            final(self).spec_mail_type() == old(self).spec_mail_type(),
            final(self).sections().len() == kept_sections(old(self).sections()) + 1,
            final(self).sections().subrange(0, kept_sections(old(self).sections()))
                == old(self).sections().subrange(0, kept_sections(old(self).sections())),
            final(self).sections().last() == Section::<B>::Text(*final(r.buffer_ref())),
    {
        let ends_text = match self.sections.last() {
            Some(Section::Text(_)) => true,
            _ => false,
        };
        if !ends_text {
            self.sections.push(Section::Text(Vec::new()));
        }
        let mail_type = self.mail_type;
        let n = self.sections.len();
        let last = &mut self.sections[n - 1];
        match last {
            Section::Text(text) => EncodeHandle::new(mail_type, text),
            Section::BodyPayload(_) => vstd::pervasive::unreached(),
        }
    }
    /// Appends a bare CRLF (the separator between header and body) to the
    /// last text section, opening one where the last section is not text.
    pub fn add_blank_line(&mut self)
        ensures
            final(self).spec_mail_type() == old(self).spec_mail_type(),
            final(self).sections().len() == kept_sections(old(self).sections()) + 1,
            final(self).sections().subrange(0, kept_sections(old(self).sections()))
                == old(self).sections().subrange(0, kept_sections(old(self).sections())),
            final(self).sections().last() is Text,
            final(self).sections().last()->Text_0@ == open_text(old(self).sections()) + crlf(),
            all_utf8(old(self).sections()) ==> all_utf8(final(self).sections()),
    {
        let mut text: Vec<u8> = match self.sections.pop() {
            Some(Section::Text(text)) => text,
            Some(other) => {
                self.sections.push(other);
                Vec::new()
            },
            None => Vec::new(),
        };
        text.push(13u8);
        text.push(10u8);
        self.sections.push(Section::Text(text));
        proof {
            let o = old(self).sections();
            let k = kept_sections(o);
            assert(self.sections@.subrange(0, k) =~= o.subrange(0, k));
            assert(self.sections@.last()->Text_0@ =~= open_text(o) + crlf());
            if all_utf8(o) {
                lemma_open_text_utf8(o);
                lemma_ascii_valid(crlf());
                valid_utf8_concat(open_text(o), crlf());
                lemma_utf8_after_last_text(o, self.sections@);
            }
        }
    }

    /// Appends a body payload as a section of its own.
    pub fn add_body(&mut self, body: B)
        ensures
            final(self).spec_mail_type() == old(self).spec_mail_type(),
            final(self).sections() == old(self).sections().push(Section::BodyPayload(body)),
            all_utf8(old(self).sections()) && valid_utf8(body.body_bytes()) ==> all_utf8(
                final(self).sections(),
            ),
    {
        self.sections.push(Section::BodyPayload(body));
        proof {
            let o = old(self).sections();
            assert forall|i: int| 0 <= i < self.sections@.len() && all_utf8(o) && valid_utf8(body.body_bytes()) implies section_is_utf8(#[trigger] self.sections@[i]) by {
                if i < o.len() {
                    assert(section_is_utf8(o[i]));
                }
            }
        }
    }

    pub fn into_sections(self) -> (r: Vec<Section<B>>)
        ensures
            r@ == self.sections(),
    {
        self.sections
    }

    /// The bytes of all sections in order; each body is followed by CRLF
    /// unless it ends in one. Fails where a body cannot be accessed.
    pub fn to_vec(&self) -> (r: Result<Vec<u8>, EncodingError>)
        ensures
            r is Ok ==> r->Ok_0@ == rendered(self.sections()),
            r is Err ==> r->Err_0.kind() == EncodingErrorKind::AccessingMailBodyFailed,
            bodies_readable(self.sections()) ==> r is Ok,
    {
        let mut out: Vec<u8> = Vec::new();
        let mut i: usize = 0;
        while i < self.sections.len()
            invariant
                0 <= i <= self.sections@.len(),
                out@ == rendered(self.sections@.subrange(0, i as int)),
            decreases self.sections.len() - i,
        {
            proof {
                assert(self.sections@.subrange(0, i + 1).drop_last() =~= self.sections@.subrange(
                    0,
                    i as int,
                ));
            }
            match &self.sections[i] {
                Section::Text(text) => {
                    append_bytes(&mut out, text.as_slice());
                },
                Section::BodyPayload(body) => {
                    let piece = body.with_slice(terminated_piece);
                    match piece {
                        Ok(bytes) => {
                            append_bytes(&mut out, bytes.as_slice());
                        },
                        Err(e) => {
                            assert(!body.readable());
                            return Err(e);
                        },
                    }
                },
            }
            i = i + 1;
        }
        proof {
            assert(self.sections@.subrange(0, i as int) =~= self.sections@);
        }
        Ok(out)
    }

    /// The output as text; fails where a body cannot be accessed or the
    /// output is not valid UTF-8.
    pub fn to_string(&self) -> (r: Result<String, EncodingError>)
        ensures
            r is Ok ==> valid_utf8(rendered(self.sections())) && r->Ok_0@ == decode_utf8(
                rendered(self.sections()),
            ),
            r is Err ==> r->Err_0.kind() == EncodingErrorKind::AccessingMailBodyFailed || (
            !valid_utf8(rendered(self.sections())) && r->Err_0.kind() == (
            EncodingErrorKind::InvalidTextEncoding {
                expected_encoding: UTF_8,
                got_encoding: UNKNOWN,
            }) && r->Err_0.mail_type() == Some(self.spec_mail_type())),
            bodies_readable(self.sections()) ==> (r is Ok <==> valid_utf8(
                rendered(self.sections()),
            )),
            bodies_readable(self.sections()) && all_utf8(self.sections()) ==> r is Ok,
    {
        proof {
            if all_utf8(self.sections()) {
                lemma_rendered_utf8(self.sections());
            }
        }
        let bytes = match self.to_vec() {
            Ok(bytes) => bytes,
            Err(e) => {
                return Err(e);
            },
        };
        match string_from_utf8(bytes) {
            Some(text) => Ok(text),
            None => Err(
                EncodingError::with_kind_and_mail_type(
                    EncodingErrorKind::InvalidTextEncoding {
                        expected_encoding: UTF_8,
                        got_encoding: UNKNOWN,
                    },
                    self.mail_type,
                ),
            ),
        }
    }

    /// The output as text, with invalid UTF-8 replaced; fails where a body
    /// cannot be accessed.
    pub fn to_string_lossy(&self) -> (r: Result<String, EncodingError>)
        ensures
            r is Ok ==> r->Ok_0@ == lossy_utf8(rendered(self.sections())),
            r is Ok && valid_utf8(rendered(self.sections())) ==> r->Ok_0@ == decode_utf8(
                rendered(self.sections()),
            ),
            r is Err ==> r->Err_0.kind() == EncodingErrorKind::AccessingMailBodyFailed,
            bodies_readable(self.sections()) ==> r is Ok,
    {
        match self.to_vec() {
            Ok(bytes) => Ok(string_from_utf8_lossy(bytes.as_slice())),
            Err(e) => Err(e),
        }
    }
    /// Runs `func` on a fresh handle over the last text section, then
    /// commits the field where `func` succeeded and rolls it back where it
    /// failed, passing the failure on.
    ///
    /// `func` is to use the handle through its methods only: it keeps the
    /// handle on its buffer and keeps the fields written before.
    pub fn write_header_line<F>(&mut self, func: F) -> (r: Result<(), EncodingError>) where
        F: FnOnce(&mut EncodeHandle) -> Result<(), EncodingError>
        requires
            forall|h: &mut EncodeHandle|
                (*h)@.wf() && (*h)@.is_fresh() && (*h)@.mail_type == old(self).spec_mail_type()
                    ==> #[trigger] func.requires((h,)),
            forall|h: &mut EncodeHandle, res: Result<(), EncodingError>|
                (*h)@.wf() && (*h)@.is_fresh() && (*h)@.mail_type == old(self).spec_mail_type()
                    && #[trigger] func.ensures((h,), res) ==> (*h)@.keeps_earlier_fields(
                    (*final(h))@,
                ) && *final((*final(h)).buffer_ref()) == *final((*h).buffer_ref()),
        ensures
            final(self).spec_mail_type() == old(self).spec_mail_type(),
            final(self).sections().len() == kept_sections(old(self).sections()) + 1,
            final(self).sections().subrange(0, kept_sections(old(self).sections()))
                == old(self).sections().subrange(0, kept_sections(old(self).sections())),
            final(self).sections().last() is Text,
            exists|h: &mut EncodeHandle, res: Result<(), EncodingError>|
                {
                    &&& #[trigger] func.ensures((h,), res)
                    &&& (*h)@.buf == open_text(old(self).sections())
                    &&& (*h)@.is_fresh()
                    &&& (*h)@.mail_type == old(self).spec_mail_type()
                    &&& (res is Ok ==> r is Ok && final(self).sections().last()->Text_0@ == (
                    *final(h))@.finish().buf)
                    &&& (res is Err ==> r == res && final(self).sections().last()->Text_0@ == (
                    *final(h))@.undo().buf)
                },
            open_text(final(self).sections()).subrange(0, open_text(old(self).sections()).len() as int)
                == open_text(old(self).sections()),
            valid_utf8(open_text(old(self).sections())) ==> valid_utf8(
                open_text(final(self).sections()),
            ),
            all_utf8(old(self).sections()) ==> all_utf8(final(self).sections()),
    {
        let ghost before = self.sections@;
        proof {
            if all_utf8(before) {
                lemma_open_text_utf8(before);
            }
        }
        let mut handle = self.encode_handle();
        let ghost h0 = handle@;
        proof {
            assert(valid_utf8(Seq::<u8>::empty())) by {
                lemma_ascii_valid(Seq::<u8>::empty());
            }
        }
        let hr = &mut handle;
        let res = func(hr);
        let ghost h1 = handle@;
        match res {
            Ok(()) => {
                handle.finish_header();
                proof {
                    lemma_keeps_trans(h0, h1, handle@);
                }
                handle.close();
                proof {
                    if all_utf8(before) {
                        lemma_utf8_after_last_text(before, self.sections@);
                    }
                }
                Ok(())
            },
            Err(e) => {
                handle.undo_header();
                proof {
                    lemma_keeps_trans(h0, h1, handle@);
                }
                handle.close();
                proof {
                    if all_utf8(before) {
                        lemma_utf8_after_last_text(before, self.sections@);
                    }
                }
                Err(e)
            },
        }
    }
}

} // verus!
