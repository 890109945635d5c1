use vstd::prelude::*;
use vstd::utf8::{
    encode_scalar, encode_utf8, encode_utf8_first_scalar, is_char_boundary,
    is_char_boundary_iff_not_is_continuation_byte, is_char_boundary_start_end_of_seq,
    is_leading_byte_width_1, length_of_first_scalar, partial_valid_utf8,
    partial_valid_utf8_extend_ascii_block, pop_first_scalar, valid_first_scalar,
    valid_leading_and_continuation_bytes_first_codepoint, valid_utf8, valid_utf8_concat,
    valid_utf8_split,
};

use crate::body::{BodyBuffer, Section};
use crate::encoder::{crlf_terminated, rendered, section_bytes};
use crate::handle::{char_width, LINE_LEN_HARD_LIMIT, crlf, is_continuation, lemma_write_bytes_error_stays, HandleState};

verus! {

/// `i` is the end of `bytes` or the position of a byte that starts a character.
pub open spec fn at_boundary(bytes: Seq<u8>, i: int) -> bool {
    i == bytes.len() || (0 <= i < bytes.len() && !is_continuation(bytes[i]))
}

impl HandleState {
    /// The buffer is valid UTF-8, the field, line and folding positions lie
    /// on character boundaries, and the current line is within the hard limit.
    pub open spec fn text_ok(self) -> bool {
        &&& valid_utf8(self.buf)
        &&& self.line_len() <= LINE_LEN_HARD_LIMIT
        &&& at_boundary(self.buf, self.header_start as int)
        &&& at_boundary(self.buf, self.line_start as int)
        &&& at_boundary(self.buf, self.last_fws as int)
    }
}

impl HandleState {
    /// `later` is a state a handle in this state can reach through its
    /// methods: the mail type is kept, the field start only moves forward,
    /// the buffer before the field in progress is untouched, and valid
    /// UTF-8 text stays valid.
    pub open spec fn keeps_earlier_fields(self, later: HandleState) -> bool {
        &&& later.wf()
        &&& later.mail_type == self.mail_type
        &&& self.header_start <= later.header_start
        &&& later.buf.subrange(0, self.header_start as int) == self.buf.subrange(
            0,
            self.header_start as int,
        )
        &&& (self.consistent() ==> later.consistent())
    }
}

/// Reaching states one after the other keeps earlier fields too.
pub proof fn lemma_keeps_trans(a: HandleState, b: HandleState, c: HandleState)
    requires
        a.wf(),
        a.keeps_earlier_fields(b),
        b.keeps_earlier_fields(c),
    ensures
        a.keeps_earlier_fields(c),
{
    let h = a.header_start as int;
    assert(c.buf.subrange(0, h) =~= c.buf.subrange(0, b.header_start as int).subrange(0, h));
    assert(b.buf.subrange(0, h) =~= b.buf.subrange(0, b.header_start as int).subrange(0, h));
}

impl HandleState {
    /// The invariant every handle method keeps: positions in order, text
    /// valid UTF-8 within the hard limit, and flags in line with the bytes.
    pub open spec fn consistent(self) -> bool {
        &&& self.wf()
        &&& self.text_ok()
        &&& self.flags_ok()
    }
}

/// `bytes` encodes exactly one character.
pub open spec fn one_scalar(bytes: Seq<u8>) -> bool {
    valid_first_scalar(bytes) && length_of_first_scalar(bytes) == bytes.len()
}

pub proof fn lemma_boundary_iff(bytes: Seq<u8>, i: int)
    requires
        valid_utf8(bytes),
        0 <= i <= bytes.len(),
    ensures
        is_char_boundary(bytes, i) <==> at_boundary(bytes, i),
{
    if i == bytes.len() {
        is_char_boundary_start_end_of_seq(bytes);
    } else {
        is_char_boundary_iff_not_is_continuation_byte(bytes, i);
    }
}

pub proof fn lemma_ascii_valid(bytes: Seq<u8>)
    requires
        forall|i: int| 0 <= i < bytes.len() ==> #[trigger] bytes[i] < 0x80u8,
    ensures
        valid_utf8(bytes),
{
    assert(bytes.subrange(0, 0) =~= Seq::<u8>::empty());
    assert(partial_valid_utf8(bytes, 0));
    assert forall|i: int| 0 <= 0 <= i < bytes.len() <= bytes.len() implies #[trigger] is_leading_byte_width_1(bytes[i]) by {
        assert(bytes[i] < 0x80u8);
    }
    partial_valid_utf8_extend_ascii_block(bytes, 0, bytes.len() as int);
    assert(bytes.subrange(0, bytes.len() as int) =~= bytes);
}

/// Appending valid UTF-8 keeps the text valid and its boundaries.
pub proof fn lemma_append_valid(a: Seq<u8>, p: Seq<u8>)
    requires
        valid_utf8(a),
        valid_utf8(p),
    ensures
        valid_utf8(a + p),
        forall|i: int| 0 <= i <= a.len() && #[trigger] at_boundary(a, i) ==> at_boundary(a + p, i),
        at_boundary(a + p, a.len() as int),
{
    valid_utf8_concat(a, p);
    if p.len() > 0 {
        is_char_boundary_start_end_of_seq(p);
        is_char_boundary_iff_not_is_continuation_byte(p, 0);
        assert((a + p)[a.len() as int] == p[0]);
    }
    assert forall|i: int| 0 <= i <= a.len() && #[trigger] at_boundary(a, i) implies at_boundary(
        a + p,
        i,
    ) by {
        if i < a.len() {
            assert((a + p)[i] == a[i]);
        }
    }
}

/// Cutting the text at a boundary keeps it valid and keeps the boundaries
/// before the cut.
pub proof fn lemma_truncate_valid(a: Seq<u8>, k: int)
    requires
        valid_utf8(a),
        0 <= k <= a.len(),
        at_boundary(a, k),
    ensures
        valid_utf8(a.subrange(0, k)),
        valid_utf8(a.subrange(k, a.len() as int)),
        forall|i: int| 0 <= i <= k && #[trigger] at_boundary(a, i) ==> at_boundary(a.subrange(0, k), i),
{
    lemma_boundary_iff(a, k);
    valid_utf8_split(a, k);
    assert forall|i: int| 0 <= i <= k && #[trigger] at_boundary(a, i) implies at_boundary(
        a.subrange(0, k),
        i,
    ) by {
        if i < k {
            assert(a.subrange(0, k)[i] == a[i]);
        }
    }
}

pub proof fn lemma_start_new_line_ok(s: HandleState)
    requires
        s.wf(),
        s.text_ok(),
    ensures
        s.start_new_line().text_ok(),
{
    if s.line_has_content() {
        lemma_ascii_valid(crlf());
        lemma_append_valid(s.buf, crlf());
    } else {
        lemma_truncate_valid(s.buf, s.line_start as int);
    }
}

proof fn lemma_fold_ok(s: HandleState, b: u8)
    requires
        s.wf(),
        s.text_ok(),
        s.can_fold(),
    ensures
        s.fold(b).wf(),
        s.fold(b).text_ok(),
        s.fold(b).buf.len() >= s.buf.len(),
        s.fold(b).line_len() <= s.line_len(),
{
    let f = s.last_fws as int;
    let pre = s.buf.subrange(0, f);
    let post = s.buf.subrange(f, s.buf.len() as int);
    let ft = s.fold_text(b);
    lemma_truncate_valid(s.buf, f);
    lemma_ascii_valid(ft);
    lemma_append_valid(pre, ft);
    lemma_append_valid(pre + ft, post);
    let nb = s.fold(b).buf;
    assert(nb.len() == s.buf.len() + ft.len());
    assert(nb =~= pre + ft + post);
    assert(nb[f] == 13u8);
    assert(at_boundary(pre, s.header_start as int));
    assert(at_boundary(pre, s.line_start as int));
    assert(at_boundary(pre + ft, s.header_start as int));
    assert(at_boundary(pre + ft, s.line_start as int));
    if ft.len() == 3 {
        assert(nb[f + 2] == 32u8);
    } else if post.len() > 0 {
        assert(nb[f + 2] == post[0]);
        assert(post[0] == s.buf[f]);
    }
}

/// A state after a lone byte that is written as is (after a fold, maybe).
proof fn lemma_push_ascii_ok(s: HandleState, b: u8)
    requires
        s.wf(),
        s.text_ok(),
        b < 0x80u8,
        s.line_len() + 1 <= LINE_LEN_HARD_LIMIT,
    ensures
        s.push_byte(b).text_ok(),
{
    lemma_ascii_valid(seq![b]);
    lemma_append_valid(s.buf, seq![b]);
    assert(s.buf.push(b) =~= s.buf + seq![b]);
}

proof fn lemma_write_one(s: HandleState, bytes: Seq<u8>)
    requires
        bytes.len() == 1,
    ensures
        s.write_bytes(bytes) == s.write_byte(bytes[0]),
{
    assert(bytes.drop_last() =~= Seq::<u8>::empty());
    assert(s.write_bytes(Seq::<u8>::empty()) == (s, None::<crate::error::EncodingErrorKind>));
    assert(bytes.last() == bytes[0]);
}

/// Writing one ASCII byte keeps the text valid.
pub proof fn lemma_write_ascii_ok(s: HandleState, b: u8)
    requires
        s.wf(),
        s.text_ok(),
        b < 0x80u8,
    ensures
        s.write_byte(b).0.text_ok(),
{
    if b == 10u8 && s.skipped_cr {
        lemma_start_new_line_ok(s);
    } else if !s.skipped_cr && b != 10u8 && b != 13u8 {
        let t = s.fold_if_due(b);
        if s.line_len() >= 78 && s.can_fold() {
            lemma_fold_ok(s, b);
        }
        if s.write_byte(b).1 is None {
            lemma_push_ascii_ok(t, b);
        }
    }
}

/// Committing keeps the text valid.
pub proof fn lemma_finish_ok(s: HandleState)
    requires
        s.wf(),
        s.text_ok(),
    ensures
        s.finish().text_ok(),
{
    lemma_start_new_line_ok(s);
}

/// Rolling back keeps the text valid.
pub proof fn lemma_undo_ok(s: HandleState)
    requires
        s.wf(),
        s.text_ok(),
    ensures
        s.undo().text_ok(),
{
    lemma_truncate_valid(s.buf, s.header_start as int);
}

/// After the leading byte of a multi-byte character was written (to `t`,
/// the state `s` or its fold), the continuation bytes are appended one by one.
proof fn lemma_continuations(s: HandleState, t: HandleState, e: Seq<u8>, j: int)
    requires
        2 <= e.len() <= 4,
        1 <= j <= e.len(),
        forall|i: int| 1 <= i < e.len() ==> is_continuation(#[trigger] e[i]),
        !t.skipped_cr,
        s.write_byte(e[0]) == (t.push_byte(e[0]), None::<crate::error::EncodingErrorKind>),
    ensures
        s.write_bytes(e.subrange(0, j)).1 is None,
        s.write_bytes(e.subrange(0, j)).0.buf == t.buf + e.subrange(0, j),
        s.write_bytes(e.subrange(0, j)).0.header_start == t.header_start,
        s.write_bytes(e.subrange(0, j)).0.line_start == t.line_start,
        s.write_bytes(e.subrange(0, j)).0.last_fws == t.last_fws,
        !s.write_bytes(e.subrange(0, j)).0.skipped_cr,
    decreases j,
{
    if j == 1 {
        assert(e.subrange(0, 1)[0] == e[0]);
        lemma_write_one(s, e.subrange(0, 1));
        assert(t.buf.push(e[0]) =~= t.buf + e.subrange(0, 1));
    } else {
        lemma_continuations(s, t, e, j - 1);
        assert(e.subrange(0, j).drop_last() =~= e.subrange(0, j - 1));
        assert(e.subrange(0, j).last() == e[j - 1]);
        assert(is_continuation(e[j - 1]));
        assert((t.buf + e.subrange(0, j - 1)).push(e[j - 1]) =~= t.buf + e.subrange(0, j));
    }
}

/// Writing the encoding of one character keeps the text valid.
proof fn lemma_write_scalar_ok(s: HandleState, e: Seq<u8>)
    requires
        s.wf(),
        s.text_ok(),
        one_scalar(e),
    ensures
        s.write_bytes(e).0.text_ok(),
{
    assert(valid_leading_and_continuation_bytes_first_codepoint(e));
    assert(e.subrange(0, 1).drop_last() =~= Seq::<u8>::empty());
    assert(e.subrange(0, 1).last() == e[0]);
    let b = e[0];
    let (u, err) = s.write_byte(b);
    if e.len() == 1 {
        assert(e =~= e.subrange(0, 1));
        lemma_write_one(s, e);
        lemma_write_ascii_ok(s, b);
    } else {
        assert(b >= 0xC0u8);
        assert(e.subrange(0, 1)[0] == b);
        lemma_write_one(s, e.subrange(0, 1));
        let t = s.fold_if_due(b);
        if s.line_len() >= 78 && s.can_fold() {
            lemma_fold_ok(s, b);
        }
        assert(char_width(b) == e.len());
        if err is Some {
            lemma_write_bytes_error_stays(s, e, 1);
        } else {
            assert(u == t.push_byte(b));
            lemma_continuations(s, t, e, e.len() as int);
            assert(e.subrange(0, e.len() as int) =~= e);
            reveal_with_fuel(valid_utf8, 2);
            assert(pop_first_scalar(e) =~= Seq::<u8>::empty());
            assert(valid_utf8(e));
            lemma_append_valid(t.buf, e);
        }
    }
}

/// Writing two pieces one after the other is writing their concatenation.
pub proof fn lemma_write_bytes_concat(s: HandleState, a: Seq<u8>, b: Seq<u8>)
    ensures
        s.write_bytes(a + b) == (if s.write_bytes(a).1 is Some {
            s.write_bytes(a)
        } else {
            s.write_bytes(a).0.write_bytes(b)
        }),
    decreases b.len(),
{
    if b.len() == 0 {
        assert(a + b =~= a);
    } else {
        assert((a + b).drop_last() =~= a + b.drop_last());
        assert((a + b).last() == b.last());
        lemma_write_bytes_concat(s, a, b.drop_last());
    }
}

proof fn lemma_first_scalar_prefix(e: Seq<u8>, rest: Seq<u8>)
    requires
        valid_first_scalar(e + rest),
        length_of_first_scalar(e + rest) == e.len(),
    ensures
        one_scalar(e),
{
    let x = e + rest;
    if e.len() >= 1 {
        assert(x[0] == e[0]);
    }
    if e.len() >= 2 {
        assert(x[1] == e[1]);
    }
    if e.len() >= 3 {
        assert(x[2] == e[2]);
    }
    if e.len() >= 4 {
        assert(x[3] == e[3]);
    }
}

/// Writing any text into a handle whose buffer is valid UTF-8 keeps it
/// valid UTF-8, with the field, line and folding positions on character
/// boundaries, whether or not the write fails part-way.
pub proof fn lemma_write_text_ok(s: HandleState, chars: Seq<char>)
    requires
        s.wf(),
        s.text_ok(),
    ensures
        s.write_bytes(encode_utf8(chars)).0.text_ok(),
    decreases chars.len(),
{
    if chars.len() == 0 {
        assert(encode_utf8(chars) =~= Seq::<u8>::empty());
        assert(s.write_bytes(Seq::<u8>::empty()) == (s, None::<crate::error::EncodingErrorKind>));
    } else {
        let e = encode_scalar(chars[0] as u32);
        let rest = encode_utf8(chars.drop_first());
        assert(encode_utf8(chars) == e + rest);
        encode_utf8_first_scalar(chars);
        lemma_first_scalar_prefix(e, rest);
        lemma_write_scalar_ok(s, e);
        crate::handle::lemma_write_bytes_wf(s, e);
        lemma_write_bytes_concat(s, e, rest);
        if s.write_bytes(e).1 is None {
            lemma_write_text_ok(s.write_bytes(e).0, chars.drop_first());
        }
    }
}

pub open spec fn section_is_utf8<B: BodyBuffer>(section: Section<B>) -> bool {
    match section {
        Section::Text(text) => valid_utf8(text@),
        Section::BodyPayload(body) => valid_utf8(body.body_bytes()),
    }
}

/// Where every text section and every body payload is valid UTF-8, so is
/// the rendered mail; `Encoder::to_string` then fails only where a body
/// cannot be accessed.
pub proof fn lemma_rendered_utf8<B: BodyBuffer>(sections: Seq<Section<B>>)
    requires
        forall|i: int| 0 <= i < sections.len() ==> section_is_utf8(#[trigger] sections[i]),
    ensures
        valid_utf8(rendered(sections)),
    decreases sections.len(),
{
    if sections.len() > 0 {
        let init = sections.drop_last();
        assert forall|i: int| 0 <= i < init.len() implies section_is_utf8(#[trigger] init[i]) by {
            assert(init[i] == sections[i]);
        }
        lemma_rendered_utf8(init);
        let last = sections.last();
        assert(section_is_utf8(sections[sections.len() - 1]));
        match last {
            Section::Text(_) => {},
            Section::BodyPayload(body) => {
                lemma_ascii_valid(crlf());
                valid_utf8_concat(body.body_bytes(), crlf());
            },
        }
        assert(valid_utf8(section_bytes(last)));
        valid_utf8_concat(rendered(init), section_bytes(last));
    }
}

} // verus!
