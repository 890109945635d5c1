use vstd::prelude::*;

use crate::handle::{is_continuation, is_ws, HandleState, LINE_LEN_SOFT_LIMIT};

verus! {

/// Some byte in `[from, to)` is neither a space nor a tab.
pub open spec fn content_in(bytes: Seq<u8>, from: int, to: int) -> bool {
    exists|i: int| from <= i < to && !is_ws(#[trigger] bytes[i])
}

impl HandleState {
    /// Where the part of the line after the last folding mark begins.
    pub open spec fn since_mark(self) -> int {
        if self.last_fws > self.line_start {
            self.last_fws as int
        } else {
            self.line_start as int
        }
    }

    /// The content flags say what the buffer holds: whether the part of the
    /// current line after the last mark, and the part before it, hold
    /// anything but whitespace.
    pub open spec fn flags_ok(self) -> bool {
        &&& self.content_since_fws == content_in(self.buf, self.since_mark(), self.buf.len() as int)
        &&& self.content_before_fws == (self.last_fws > self.line_start && content_in(
            self.buf,
            self.line_start as int,
            self.last_fws as int,
        ))
    }
}

proof fn lemma_content_split(bytes: Seq<u8>, a: int, m: int, c: int)
    requires
        a <= m <= c,
    ensures
        content_in(bytes, a, c) == (content_in(bytes, a, m) || content_in(bytes, m, c)),
{
    if content_in(bytes, a, c) {
        let i = choose|i: int| a <= i < c && !is_ws(#[trigger] bytes[i]);
        if i < m {
            assert(a <= i < m && !is_ws(bytes[i]));
        } else {
            assert(m <= i < c && !is_ws(bytes[i]));
        }
    }
}

/// The same bytes, shifted by `off`, hold the same content.
proof fn lemma_content_shift(b1: Seq<u8>, b2: Seq<u8>, from: int, to: int, off: int)
    requires
        forall|i: int| from <= i < to ==> b2[i + off] == #[trigger] b1[i],
    ensures
        content_in(b2, from + off, to + off) == content_in(b1, from, to),
{
    if content_in(b1, from, to) {
        let i = choose|i: int| from <= i < to && !is_ws(#[trigger] b1[i]);
        assert(b2[i + off] == b1[i]);
        assert(from + off <= i + off < to + off && !is_ws(b2[i + off]));
    }
    if content_in(b2, from + off, to + off) {
        let j = choose|j: int| from + off <= j < to + off && !is_ws(#[trigger] b2[j]);
        assert(b2[(j - off) + off] == b1[j - off]);
        assert(from <= j - off < to && !is_ws(b1[j - off]));
    }
}

proof fn lemma_content_push(bytes: Seq<u8>, b: u8, from: int)
    requires
        0 <= from <= bytes.len(),
    ensures
        content_in(bytes.push(b), from, (bytes.len() + 1) as int) == (content_in(bytes, from, bytes.len() as int)
            || !is_ws(b)),
        forall|a: int, c: int|
            0 <= a <= c <= bytes.len() ==> #[trigger] content_in(bytes.push(b), a, c) == content_in(
                bytes,
                a,
                c,
            ),
{
    let nb = bytes.push(b);
    lemma_content_split(nb, from, bytes.len() as int, (bytes.len() + 1) as int);
    if !is_ws(b) {
        assert(!is_ws(nb[bytes.len() as int]));
    }
    if content_in(nb, bytes.len() as int, (bytes.len() + 1) as int) {
        let i = choose|i: int| bytes.len() <= i < (bytes.len() + 1) as int && !is_ws(#[trigger] nb[i]);
        assert(i == bytes.len());
    }
    lemma_content_shift(bytes, nb, from, bytes.len() as int, 0);
    assert forall|a: int, c: int| 0 <= a <= c <= bytes.len() implies #[trigger] content_in(
        nb,
        a,
        c,
    ) == content_in(bytes, a, c) by {
        lemma_content_shift(bytes, nb, a, c, 0);
    }
}

proof fn lemma_push_flags(s: HandleState, b: u8)
    requires
        s.wf(),
        s.flags_ok(),
    ensures
        s.push_byte(b).flags_ok(),
{
    lemma_content_push(s.buf, b, s.since_mark());
    assert(content_in(s.buf.push(b), s.line_start as int, s.last_fws as int) == content_in(
        s.buf,
        s.line_start as int,
        s.last_fws as int,
    ));
}

proof fn lemma_fold_flags(s: HandleState, b: u8)
    requires
        s.wf(),
        s.flags_ok(),
        s.can_fold(),
    ensures
        s.fold(b).flags_ok(),
{
    let f = s.last_fws as int;
    let n = s.buf.len() as int;
    let ft = s.fold_text(b);
    let k = ft.len() as int;
    let t = s.fold(b);
    let nb = t.buf;
    assert(nb.len() == n + k);
    assert forall|i: int| f <= i < n implies nb[i + k] == #[trigger] s.buf[i] by {}
    lemma_content_shift(s.buf, nb, f, n, k);
    lemma_content_split(nb, f + 2, f + k, n + k);
    if content_in(nb, f + 2, f + k) {
        let i = choose|i: int| f + 2 <= i < f + k && !is_ws(#[trigger] nb[i]);
        assert(nb[i] == 32u8);
    }
}

proof fn lemma_line_start_flags(s: HandleState)
    ensures
        s.start_new_line().flags_ok(),
        s.reinit().flags_ok(),
{
}

/// With the flags in line with the buffer, the line has content exactly
/// where some byte of it is neither a space nor a tab.
pub proof fn lemma_line_has_content(s: HandleState)
    requires
        s.wf(),
        s.flags_ok(),
    ensures
        s.line_has_content() == content_in(s.buf, s.line_start as int, s.buf.len() as int),
{
    if s.last_fws > s.line_start {
        lemma_content_split(s.buf, s.line_start as int, s.last_fws as int, s.buf.len() as int);
    }
}

/// Feeding a byte keeps the flags in line with the buffer.
pub proof fn lemma_write_byte_flags(s: HandleState, b: u8)
    requires
        s.wf(),
        s.flags_ok(),
    ensures
        s.write_byte(b).0.flags_ok(),
{
    if b == 10u8 || s.skipped_cr || b == 13u8 {
        lemma_line_start_flags(s);
    } else if is_continuation(b) {
        lemma_push_flags(s, b);
    } else {
        let t = s.fold_if_due(b);
        if s.line_len() >= LINE_LEN_SOFT_LIMIT && s.can_fold() {
            lemma_fold_flags(s, b);
            crate::handle::lemma_fold_wf(s, b);
        }
        lemma_push_flags(t, b);
    }
}

pub proof fn lemma_write_bytes_flags(s: HandleState, bytes: Seq<u8>)
    requires
        s.wf(),
        s.flags_ok(),
    ensures
        s.write_bytes(bytes).0.flags_ok(),
    decreases bytes.len(),
{
    if bytes.len() > 0 {
        lemma_write_bytes_flags(s, bytes.drop_last());
        crate::handle::lemma_write_bytes_wf(s, bytes.drop_last());
        let (t, e) = s.write_bytes(bytes.drop_last());
        if e is None {
            lemma_write_byte_flags(t, bytes.last());
        }
    }
}

/// Marking, committing and rolling back keep the flags in line too.
pub proof fn lemma_other_steps_flags(s: HandleState)
    requires
        s.wf(),
        s.flags_ok(),
    ensures
        s.mark_fws().flags_ok(),
        s.finish().flags_ok(),
        s.undo().flags_ok(),
{
    let m = s.mark_fws();
    if s.last_fws > s.line_start {
        lemma_content_split(s.buf, s.line_start as int, s.last_fws as int, s.buf.len() as int);
    }
    if m.last_fws <= m.line_start {
        assert(s.buf.len() == s.line_start);
    }
    lemma_line_start_flags(s);
    lemma_line_start_flags(s.start_new_line());
    lemma_line_start_flags(HandleState { buf: s.buf.subrange(0, s.header_start as int), ..s });
}

} // verus!
