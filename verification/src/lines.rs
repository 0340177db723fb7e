//! CRLF-terminated lines: the framing shared by requests and replies.

use vstd::prelude::*;
use crate::bytes::{crlf, CR, LF};

verus! {

/// Longest unterminated line (or multibulk header) a parser will keep
/// waiting on before declaring the input malformed.
pub const MAX_INLINE_LEN: usize = 64 * 1024;

pub open spec fn crlf_at(buf: Seq<u8>, i: int) -> bool {
    0 <= i && i + 1 < buf.len() && buf[i] == CR && buf[i + 1] == LF
}

/// The position of the first CR LF pair at or after `from`.
pub open spec fn find_crlf_spec(buf: Seq<u8>, from: int) -> Option<int>
    decreases buf.len() - from,
{
    if from < 0 || from + 1 >= buf.len() {
        None
    } else if crlf_at(buf, from) {
        Some(from)
    } else {
        find_crlf_spec(buf, from + 1)
    }
}

/// No CR LF pair starts inside `s`.
pub open spec fn crlf_free(s: Seq<u8>) -> bool {
    forall|i: int| 0 <= i < s.len() - 1 ==> !(s[i] == CR && #[trigger] s[i + 1] == LF)
}

/// Bytes after `pos` that a parser holds while no terminator has arrived.
pub open spec fn pending_len(buf: Seq<u8>, pos: int) -> int {
    if buf.len() > pos {
        buf.len() - pos
    } else {
        0
    }
}

pub enum LineRead {
    /// The line's payload and the position just past its CR LF.
    Line(Seq<u8>, int),
    /// No terminator yet, and the partial line is still short enough to wait for.
    Missing,
    /// No terminator, and too many bytes are already pending.
    TooLong,
}

pub open spec fn read_line_spec(buf: Seq<u8>, pos: int) -> LineRead {
    match find_crlf_spec(buf, pos) {
        Some(c) => LineRead::Line(buf.subrange(pos, c), c + 2),
        None => if pending_len(buf, pos) > MAX_INLINE_LEN {
            LineRead::TooLong
        } else {
            LineRead::Missing
        },
    }
}

/// What `find_crlf_spec` returns: the first terminator, if any.
pub proof fn lemma_find_crlf_props(buf: Seq<u8>, from: int)
    requires
        from >= 0,
    ensures
        match find_crlf_spec(buf, from) {
            Some(c) => from <= c && crlf_at(buf, c) && forall|j: int|
                from <= j < c ==> !crlf_at(buf, j),
            None => forall|j: int| from <= j ==> !crlf_at(buf, j),
        },
    decreases buf.len() - from,
{
    if from + 1 >= buf.len() {
    } else if crlf_at(buf, from) {
    } else {
        lemma_find_crlf_props(buf, from + 1);
    }
}

/// A terminator at `c` with none before it, from `from` on, is what is found.
pub proof fn lemma_find_crlf_first(buf: Seq<u8>, from: int, c: int)
    requires
        0 <= from <= c,
        crlf_at(buf, c),
        forall|j: int| from <= j < c ==> !crlf_at(buf, j),
    ensures
        find_crlf_spec(buf, from) == Some(c),
    decreases c - from,
{
    if from < c {
        lemma_find_crlf_first(buf, from + 1, c);
    }
}

/// In `pre + body + CR LF + rest`, with `body` free of terminators, the first terminator after `pre` is the one after `body`.
pub proof fn lemma_find_crlf_after(pre: Seq<u8>, body: Seq<u8>, rest: Seq<u8>)
    requires
        crlf_free(body),
    ensures
        find_crlf_spec(pre + body + crlf() + rest, pre.len() as int) == Some(
            (pre.len() + body.len()) as int,
        ),
{
    let buf = pre + body + crlf() + rest;
    let c: int = (pre.len() + body.len()) as int;
    assert(buf[c] == CR && buf[c + 1] == LF);
    assert forall|j: int| pre.len() <= j < c implies !crlf_at(buf, j) by {
        let k = j - pre.len();
        assert(buf[j] == body[k]);
        if k + 1 < body.len() {
            assert(buf[j + 1] == body[k + 1]);
        } else {
            assert(k == body.len() - 1);
            assert(buf[j + 1] == CR);
        }
    }
    lemma_find_crlf_first(buf, pre.len() as int, c);
}

/// A terminator found in `buf` is still the first one after more bytes
/// arrive.
pub proof fn lemma_find_crlf_extend(buf: Seq<u8>, ext: Seq<u8>, from: int)
    requires
        from >= 0,
        find_crlf_spec(buf, from) is Some,
    ensures
        find_crlf_spec(buf + ext, from) == find_crlf_spec(buf, from),
    decreases buf.len() - from,
{
    let x = buf + ext;
    assert(x[from] == buf[from]);
    assert(x[from + 1] == buf[from + 1]);
    if !crlf_at(buf, from) {
        lemma_find_crlf_extend(buf, ext, from + 1);
    }
}

/// A line read in full from `buf` reads the same after more bytes arrive.
pub proof fn lemma_read_line_extend(buf: Seq<u8>, ext: Seq<u8>, pos: int)
    requires
        pos >= 0,
        read_line_spec(buf, pos) is Line,
    ensures
        read_line_spec(buf + ext, pos) == read_line_spec(buf, pos),
{
    lemma_find_crlf_extend(buf, ext, pos);
    lemma_find_crlf_props(buf, pos);
    let c = find_crlf_spec(buf, pos)->0;
    assert((buf + ext).subrange(pos, c) =~= buf.subrange(pos, c));
}

/// The first CR LF pair at or after `from`.
pub fn find_crlf(buf: &[u8], from: usize) -> (r: Option<usize>)
    ensures
        match r {
            Some(c) => find_crlf_spec(buf@, from as int) == Some(c as int),
            None => find_crlf_spec(buf@, from as int) is None,
        },
{
    let n = buf.len();
    let mut i = from;
    while i < n && i + 1 < n
        invariant
            from <= i,
            n == buf.len(),
            find_crlf_spec(buf@, from as int) == find_crlf_spec(buf@, i as int),
        decreases n - i,
    {
        if buf[i] == CR && buf[i + 1] == LF {
            return Some(i);
        }
        i += 1;
    }
    None
}

/// One CRLF-terminated line starting at `pos`: `Ok(Some((start, end, next)))`
/// with the payload in `buf[start..end]`, `Ok(None)` while it is incomplete,
/// `Err` once it is too long to keep waiting for.
pub fn read_line(buf: &[u8], pos: usize) -> (r: Result<Option<(usize, usize)>, ()>)
    requires
        pos <= buf.len(),
    ensures
        match r {
            Ok(Some((end, next))) => read_line_spec(buf@, pos as int) == LineRead::Line(
                buf@.subrange(pos as int, end as int),
                next as int,
            ) && pos <= end && end + 2 == next && next <= buf.len(),
            Ok(None) => read_line_spec(buf@, pos as int) == LineRead::Missing,
            Err(()) => read_line_spec(buf@, pos as int) == LineRead::TooLong,
        },
{
    match find_crlf(buf, pos) {
        Some(c) => {
            proof {
                lemma_find_crlf_props(buf@, pos as int);
            }
            Ok(Some((c, c + 2)))
        },
        None => {
            if buf.len() - pos > MAX_INLINE_LEN {
                Err(())
            } else {
                Ok(None)
            }
        },
    }
}

} // verus!
