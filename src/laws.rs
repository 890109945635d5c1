use vstd::prelude::*;

use crate::body::{BodyBuffer, Section};
use crate::encoder::{crlf_terminated, ends_with_crlf, rendered};
use crate::error::EncodingErrorKind;
use crate::handle::{
    char_width, crlf, is_continuation, is_ws, lemma_write_bytes_wf, HandleState, LINE_LEN_HARD_LIMIT,
    LINE_LEN_SOFT_LIMIT,
};

verus! {

/// The bytes hold no `'\r'` and no `'\n'`.
pub open spec fn no_newline(bytes: Seq<u8>) -> bool {
    forall|i: int| 0 <= i < bytes.len() ==> #[trigger] bytes[i] != 13u8 && bytes[i] != 10u8
}

/// The bytes are spaces and tabs only.
pub open spec fn all_ws(bytes: Seq<u8>) -> bool {
    forall|i: int| 0 <= i < bytes.len() ==> is_ws(#[trigger] bytes[i])
}

pub open spec fn all_ascii(bytes: Seq<u8>) -> bool {
    forall|i: int| 0 <= i < bytes.len() ==> #[trigger] bytes[i] < 128u8
}

/// The text fits on one line: at most a hard limit long, and where it is
/// not all ASCII three bytes less, room for its widest last character.
pub open spec fn fits_one_line(bytes: Seq<u8>) -> bool {
    bytes.len() <= LINE_LEN_HARD_LIMIT && (all_ascii(bytes) || bytes.len() + 3
        <= LINE_LEN_HARD_LIMIT)
}

/// One step a caller takes on a handle between commits.
pub enum HandleStep {
    Write(Seq<u8>),
    MarkFws,
}

pub open spec fn run_steps(s: HandleState, steps: Seq<HandleStep>) -> HandleState
    decreases steps.len(),
{
    if steps.len() == 0 {
        s
    } else {
        let t = run_steps(s, steps.drop_last());
        match steps.last() {
            HandleStep::Write(bytes) => t.write_bytes(bytes).0,
            HandleStep::MarkFws => t.mark_fws(),
        }
    }
}

/// Text without CR or LF that fits on one line, written into a fresh field,
/// is appended unchanged, with no fold and no error.
pub proof fn lemma_plain_text_appended(s: HandleState, bytes: Seq<u8>)
    requires
        s.wf(),
        s.is_fresh(),
        no_newline(bytes),
        fits_one_line(bytes),
    ensures
        s.write_bytes(bytes).1 is None,
        s.write_bytes(bytes).0 == (HandleState {
            buf: s.buf + bytes,
            content_since_fws: !all_ws(bytes),
            ..s
        }),
    decreases bytes.len(),
{
    if bytes.len() == 0 {
        assert(s.buf + bytes =~= s.buf);
    } else {
        let pre = bytes.drop_last();
        let b = bytes.last();
        assert(no_newline(pre)) by {
            assert forall|i: int| 0 <= i < pre.len() implies #[trigger] pre[i] != 13u8
                && pre[i] != 10u8 by {
                assert(pre[i] == bytes[i]);
            }
        }
        if all_ascii(bytes) {
            assert(all_ascii(pre)) by {
                assert forall|i: int| 0 <= i < pre.len() implies #[trigger] pre[i] < 128u8 by {
                    assert(pre[i] == bytes[i]);
                }
            }
            assert(bytes[bytes.len() - 1] < 128u8);
        }
        lemma_plain_text_appended(s, pre);
        assert(b == bytes[bytes.len() - 1]);
        assert((s.buf + pre).push(b) =~= s.buf + bytes);
        assert(!all_ws(bytes) == (!all_ws(pre) || !is_ws(b))) by {
            if !all_ws(pre) {
                let i = choose|i: int| 0 <= i < pre.len() && !is_ws(#[trigger] pre[i]);
                assert(bytes[i] == pre[i]);
            }
            if all_ws(pre) && is_ws(b) {
                assert forall|i: int| 0 <= i < bytes.len() implies is_ws(#[trigger] bytes[i]) by {
                    if i < pre.len() {
                        assert(bytes[i] == pre[i]);
                    }
                }
            }
        }
    }
}

/// Committing a field of one line without CR or LF that holds more than
/// whitespace appends exactly that line and one CRLF.
pub proof fn lemma_single_line_field(s: HandleState, bytes: Seq<u8>)
    requires
        s.wf(),
        s.is_fresh(),
        no_newline(bytes),
        !all_ws(bytes),
        fits_one_line(bytes),
    ensures
        s.write_bytes(bytes).1 is None,
        s.write_bytes(bytes).0.finish().buf == s.buf + bytes + crlf(),
{
    lemma_plain_text_appended(s, bytes);
}

/// A field that ends in CRLF already gets no second CRLF when committed.
pub proof fn lemma_finish_keeps_final_crlf(s: HandleState, bytes: Seq<u8>)
    requires
        s.wf(),
        bytes.len() >= 2,
        bytes[bytes.len() - 2] == 13u8,
        bytes.last() == 10u8,
        s.write_bytes(bytes).1 is None,
    ensures
        s.write_bytes(bytes).0.finish().buf == s.write_bytes(bytes).0.buf,
{
    let t = s.write_bytes(bytes.drop_last()).0;
    lemma_write_bytes_wf(s, bytes.drop_last());
    let u = s.write_bytes(bytes).0;
    assert(u.start_new_line().buf =~= u.buf);
}

/// A field of spaces and tabs only is cut away entirely when committed:
/// no blank line is emitted.
pub proof fn lemma_whitespace_field_vanishes(s: HandleState, bytes: Seq<u8>)
    requires
        s.wf(),
        s.is_fresh(),
        all_ws(bytes),
        bytes.len() <= LINE_LEN_HARD_LIMIT,
    ensures
        s.write_bytes(bytes).1 is None,
        s.write_bytes(bytes).0.finish().buf == s.buf,
{
    assert(no_newline(bytes)) by {
        assert forall|i: int| 0 <= i < bytes.len() implies #[trigger] bytes[i] != 13u8
            && bytes[i] != 10u8 by {
            assert(is_ws(bytes[i]));
        }
    }
    assert(all_ascii(bytes)) by {
        assert forall|i: int| 0 <= i < bytes.len() implies #[trigger] bytes[i] < 128u8 by {
            assert(is_ws(bytes[i]));
        }
    }
    lemma_plain_text_appended(s, bytes);
    assert((s.buf + bytes).subrange(0, s.buf.len() as int) =~= s.buf);
}

proof fn lemma_run_steps_wf(s: HandleState, steps: Seq<HandleStep>)
    requires
        s.wf(),
    ensures
        run_steps(s, steps).wf(),
        run_steps(s, steps).header_start == s.header_start,
        run_steps(s, steps).mail_type == s.mail_type,
        run_steps(s, steps).buf.subrange(0, s.header_start as int) == s.buf.subrange(
            0,
            s.header_start as int,
        ),
    decreases steps.len(),
{
    if steps.len() > 0 {
        lemma_run_steps_wf(s, steps.drop_last());
        let t = run_steps(s, steps.drop_last());
        match steps.last() {
            HandleStep::Write(bytes) => {
                lemma_write_bytes_wf(t, bytes);
            },
            HandleStep::MarkFws => {},
        }
    }
}

/// Rolling back after any sequence of writes and folding marks restores
/// the handle, buffer included, to what it was when the field began.
pub proof fn lemma_undo_restores(s: HandleState, steps: Seq<HandleStep>)
    requires
        s.wf(),
        s.is_fresh(),
    ensures
        run_steps(s, steps).undo() == s,
{
    lemma_run_steps_wf(s, steps);
    assert(s.buf.subrange(0, s.header_start as int) =~= s.buf);
}

/// Committing twice in a row is the same as committing once.
pub proof fn lemma_finish_idempotent(s: HandleState)
    requires
        s.wf(),
    ensures
        s.finish().finish() == s.finish(),
{
    let f = s.finish();
    assert(f.buf.subrange(0, f.line_start as int) =~= f.buf);
}

/// A line at or past the soft limit that can be folded is folded at the
/// marked position, not where the new character goes; the continuation
/// line gets a space only where it would not start with whitespace anyway.
pub proof fn lemma_fold_at_mark(s: HandleState, b: u8)
    requires
        s.wf(),
        !s.skipped_cr,
        b != 13u8,
        b != 10u8,
        !is_continuation(b),
        s.line_len() >= LINE_LEN_SOFT_LIMIT,
        s.line_len() + char_width(b) <= LINE_LEN_HARD_LIMIT,
        s.can_fold(),
    ensures
        s.write_byte(b).1 is None,
        s.write_byte(b).0.buf == s.buf.subrange(0, s.last_fws as int) + s.fold_text(b)
            + s.buf.subrange(s.last_fws as int, s.buf.len() as int) + seq![b],
        s.fold_text(b) == (if is_ws(s.byte_after_fold(b)) {
            crlf()
        } else {
            seq![13u8, 10u8, 32u8]
        }),
        s.write_byte(b).0.line_start == s.last_fws + 2,
{
    let f = s.fold(b);
    assert(f.buf.len() == s.buf.len() + s.fold_text(b).len());
}

/// A line of a hard limit's worth of ASCII characters is accepted; one
/// more character then fails with `HardLineLengthLimitBreached`.
pub proof fn lemma_hard_limit(s: HandleState, bytes: Seq<u8>, b: u8)
    requires
        s.wf(),
        s.is_fresh(),
        no_newline(bytes),
        all_ascii(bytes),
        bytes.len() == LINE_LEN_HARD_LIMIT,
        b < 128u8,
        b != 13u8,
        b != 10u8,
    ensures
        s.write_bytes(bytes).1 is None,
        s.write_bytes(bytes.push(b)).1 == Some(EncodingErrorKind::HardLineLengthLimitBreached),
        s.write_bytes(bytes.push(b)).0 == s.write_bytes(bytes).0,
{
    lemma_plain_text_appended(s, bytes);
    assert(bytes.push(b).drop_last() =~= bytes);
}

/// A `'\n'` that does not follow a `'\r'` fails with `Malformed` and
/// changes nothing.
pub proof fn lemma_orphan_lf(s: HandleState)
    requires
        !s.skipped_cr,
    ensures
        s.write_byte(10u8) == (s, Some(EncodingErrorKind::Malformed)),
{
}

/// A field whose last write ends on a lone `'\r'` is committed with that
/// `'\r'` as the start of its CRLF.
pub proof fn lemma_trailing_cr_reused(s: HandleState, bytes: Seq<u8>)
    requires
        s.wf(),
        s.is_fresh(),
        no_newline(bytes),
        !all_ws(bytes),
        fits_one_line(bytes),
    ensures
        s.write_bytes(bytes.push(13u8)).1 is None,
        s.write_bytes(bytes.push(13u8)).0.finish().buf == s.buf + bytes + crlf(),
{
    lemma_plain_text_appended(s, bytes);
    assert(bytes.push(13u8).drop_last() =~= bytes);
}

/// A body between two text sections is rendered between them, followed by
/// CRLF where it does not end in one.
pub proof fn lemma_render_text_body_text<B: BodyBuffer>(
    first: Section<B>,
    body: Section<B>,
    last: Section<B>,
)
    requires
        first is Text,
        body is BodyPayload,
        last is Text,
    ensures
        rendered(seq![first, body, last]) == first->Text_0@ + body->BodyPayload_0.body_bytes() + (
        if ends_with_crlf(body->BodyPayload_0.body_bytes()) {
            Seq::<u8>::empty()
        } else {
            crlf()
        }) + last->Text_0@,
{
    let s1 = seq![first];
    let s2 = seq![first, body];
    let s3 = seq![first, body, last];
    assert(s1.drop_last() =~= Seq::<Section<B>>::empty());
    assert(s2.drop_last() =~= s1);
    assert(s3.drop_last() =~= s2);
    assert(s1.last() == first);
    assert(s2.last() == body);
    assert(s3.last() == last);
    assert(rendered(Seq::<Section<B>>::empty()) == Seq::<u8>::empty());
    assert(rendered(s1) =~= first->Text_0@);
    assert(rendered(s2) == rendered(s1) + crlf_terminated(body->BodyPayload_0.body_bytes()));
    assert(rendered(s3) == rendered(s2) + last->Text_0@);
    let bb = body->BodyPayload_0.body_bytes();
    if ends_with_crlf(bb) {
        assert(crlf_terminated(bb) =~= bb + Seq::<u8>::empty());
    }
    assert(rendered(s3) =~= first->Text_0@ + bb + (if ends_with_crlf(bb) {
        Seq::<u8>::empty()
    } else {
        crlf()
    }) + last->Text_0@);
}

} // verus!
