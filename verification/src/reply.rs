//! Server replies: the five RESP2 value types, their wire form, and the
//! client-side parser that reads them back.

use vstd::prelude::*;
use crate::bytes::{copy_range, crlf, push_all, CR, LF};
use crate::decimal::{digits_value, parse_int, 
    int_text, lemma_nat_text, lemma_parse_int_text, nat_text, parse_i64_bytes, parse_i64_spec,
    push_i64_text, push_u64_text, all_digits, is_digit, MINUS, PLUS,
};
use crate::lines::{
    lemma_find_crlf_props, lemma_read_line_extend, MAX_INLINE_LEN, crlf_at,
    crlf_free, find_crlf_spec, lemma_find_crlf_after, read_line, read_line_spec, LineRead,
};
use crate::text::{owned, push_char, push_text};
use crate::sql::{nat_chars, push_nat};

verus! {

/// Largest bulk string a parser accepts (the common server default).
pub const MAX_BULK_LEN: i64 = 512 * 1024 * 1024;
/// Largest element count a parser accepts for one array.
pub const MAX_ARRAY_LEN: i64 = 1024 * 1024;
/// Deepest array nesting the reply parser descends into.
pub const MAX_REPLY_DEPTH: usize = 32;

/// ASCII '*'.
pub const STAR: u8 = 42;
/// ASCII '$'.
pub const DOLLAR: u8 = 36;
/// ASCII ':'.
pub const COLON: u8 = 58;

/// A server reply value: exactly the five RESP2 types.
#[derive(Debug, PartialEq, Eq)]
pub enum Reply {
    /// `+<text>\r\n`.
    Simple(Vec<u8>),
    /// `-<text>\r\n`.
    Error(Vec<u8>),
    /// `:<n>\r\n`.
    Integer(i64),
    /// `$<len>\r\n<data>\r\n`, or `$-1\r\n` for `None`.
    Bulk(Option<Vec<u8>>),
    /// `*<len>\r\n<elem>...`, or `*-1\r\n` for `None`.
    Array(Option<Vec<Reply>>),
}

/// The mathematical value of a [`Reply`].
pub enum ReplyModel {
    Simple(Seq<u8>),
    Error(Seq<u8>),
    Integer(i64),
    Bulk(Option<Seq<u8>>),
    Array(Option<Seq<ReplyModel>>),
}

pub open spec fn reply_model(r: Reply) -> ReplyModel
    decreases r,
{
    match r {
        Reply::Simple(s) => ReplyModel::Simple(s@),
        Reply::Error(s) => ReplyModel::Error(s@),
        Reply::Integer(n) => ReplyModel::Integer(n),
        Reply::Bulk(None) => ReplyModel::Bulk(None),
        Reply::Bulk(Some(d)) => ReplyModel::Bulk(Some(d@)),
        Reply::Array(None) => ReplyModel::Array(None),
        Reply::Array(Some(items)) => ReplyModel::Array(Some(reply_models(items@))),
    }
}

pub open spec fn reply_models(s: Seq<Reply>) -> Seq<ReplyModel>
    decreases s,
{
    if s.len() == 0 {
        Seq::empty()
    } else {
        reply_models(s.subrange(0, s.len() - 1)).push(reply_model(s[s.len() - 1]))
    }
}

impl View for Reply {
    type V = ReplyModel;

    open spec fn view(&self) -> ReplyModel {
        reply_model(*self)
    }
}

pub proof fn lemma_reply_models(s: Seq<Reply>)
    ensures
        reply_models(s).len() == s.len(),
        forall|i: int| 0 <= i < s.len() ==> #[trigger] reply_models(s)[i] == reply_model(s[i]),
    decreases s.len(),
{
    if s.len() > 0 {
        lemma_reply_models(s.subrange(0, s.len() - 1));
    }
}

pub proof fn lemma_reply_models_push(s: Seq<Reply>, r: Reply)
    ensures
        reply_models(s.push(r)) == reply_models(s).push(reply_model(r)),
{
    assert(s.push(r).subrange(0, s.len() as int) =~= s);
}

/// The bytes of a reply on the wire.
pub open spec fn wire(r: ReplyModel) -> Seq<u8>
    decreases r,
{
    match r {
        ReplyModel::Simple(s) => seq![PLUS] + s + crlf(),
        ReplyModel::Error(s) => seq![MINUS] + s + crlf(),
        ReplyModel::Integer(n) => seq![COLON] + int_text(n as int) + crlf(),
        ReplyModel::Bulk(None) => seq![DOLLAR, MINUS, 49u8] + crlf(),
        ReplyModel::Bulk(Some(d)) => seq![DOLLAR] + nat_text(d.len()) + crlf() + d + crlf(),
        ReplyModel::Array(None) => seq![STAR, MINUS, 49u8] + crlf(),
        ReplyModel::Array(Some(items)) => seq![STAR] + nat_text(items.len()) + crlf() + wire_all(
            items,
        ),
    }
}

/// The wire bytes of several replies, one after another.
pub open spec fn wire_all(items: Seq<ReplyModel>) -> Seq<u8>
    decreases items,
{
    if items.len() == 0 {
        Seq::empty()
    } else {
        wire_all(items.subrange(0, items.len() - 1)) + wire(items[items.len() - 1])
    }
}

pub proof fn lemma_wire_all_push(items: Seq<ReplyModel>, r: ReplyModel)
    ensures
        wire_all(items.push(r)) == wire_all(items) + wire(r),
{
    assert(items.push(r).subrange(0, items.len() as int) =~= items);
}

pub proof fn lemma_wire_all_concat(a: Seq<ReplyModel>, b: Seq<ReplyModel>)
    ensures
        wire_all(a + b) == wire_all(a) + wire_all(b),
    decreases b.len(),
{
    if b.len() == 0 {
        assert(a + b =~= a);
        assert(wire_all(a) + wire_all(b) =~= wire_all(a));
    } else {
        let bl = b.subrange(0, b.len() - 1);
        lemma_wire_all_concat(a, bl);
        assert((a + b).subrange(0, (a + b).len() - 1) =~= a + bl);
        assert((a + b)[(a + b).len() - 1] == b[b.len() - 1]);
        assert(wire_all(a) + wire_all(b) =~= wire_all(a) + wire_all(bl) + wire(b[b.len() - 1]));
    }
}

impl Clone for Reply {
    fn clone(&self) -> (r: Reply)
        ensures
            r@ == self@,
        decreases self,
    {
        match self {
            Reply::Simple(s) => Reply::Simple(crate::bytes::copy_bytes(s.as_slice())),
            Reply::Error(s) => Reply::Error(crate::bytes::copy_bytes(s.as_slice())),
            Reply::Integer(n) => Reply::Integer(*n),
            Reply::Bulk(None) => Reply::Bulk(None),
            Reply::Bulk(Some(d)) => Reply::Bulk(Some(crate::bytes::copy_bytes(d.as_slice()))),
            Reply::Array(None) => Reply::Array(None),
            Reply::Array(Some(items)) => {
                let mut out: Vec<Reply> = Vec::new();
                let mut i: usize = 0;
                while i < items.len()
                    invariant
                        i <= items.len(),
                        reply_models(out@) == reply_models(items@.subrange(0, i as int)),
                        *self == Reply::Array(Some(*items)),
                    decreases items.len() - i,
                {
                    proof {
                        assert(decreases_to!(*self => (*self)->Array_0));
                        assert(decreases_to!((*self)->Array_0 => (*self)->Array_0->Some_0));
                        assert(decreases_to!(*items => items@));
                        assert(decreases_to!(items@ => items@[i as int]));
                        assert(decreases_to!(*self => items@[i as int]));
                    }
                    let c = items[i].clone();
                    proof {
                        assert(items@.subrange(0, i + 1) =~= items@.subrange(0, i as int).push(
                            items@[i as int],
                        ));
                        lemma_reply_models_push(items@.subrange(0, i as int), items@[i as int]);
                        lemma_reply_models_push(out@, c);
                    }
                    out.push(c);
                    i += 1;
                }
                assert(items@.subrange(0, items.len() as int) =~= items@);
                Reply::Array(Some(out))
            },
        }
    }
}

impl Reply {
    pub fn ok() -> (r: Reply)
        ensures
            r@ == ReplyModel::Simple(seq![79u8, 75u8]),
    {
        let mut v: Vec<u8> = Vec::new();
        v.push(79);
        v.push(75);
        assert(v@ =~= seq![79u8, 75u8]);
        Reply::Simple(v)
    }

    pub fn simple(s: &[u8]) -> (r: Reply)
        ensures
            r@ == ReplyModel::Simple(s@),
    {
        Reply::Simple(crate::bytes::copy_bytes(s))
    }

    pub fn error(s: &[u8]) -> (r: Reply)
        ensures
            r@ == ReplyModel::Error(s@),
    {
        Reply::Error(crate::bytes::copy_bytes(s))
    }

    pub fn bulk(s: &[u8]) -> (r: Reply)
        ensures
            r@ == ReplyModel::Bulk(Some(s@)),
    {
        Reply::Bulk(Some(crate::bytes::copy_bytes(s)))
    }

    pub fn nil() -> (r: Reply)
        ensures
            r@ == ReplyModel::Bulk(None),
    {
        Reply::Bulk(None)
    }

    /// Serialize into `out`, appending to whatever it already holds.
    pub fn write_to(&self, out: &mut Vec<u8>)
        ensures
            final(out)@ == old(out)@ + wire(self@),
        decreases self,
    {
        let ghost start = out@;
        match self {
            Reply::Simple(s) => {
                out.push(PLUS);
                push_all(out, s.as_slice());
                out.push(CR);
                out.push(LF);
            },
            Reply::Error(s) => {
                out.push(MINUS);
                push_all(out, s.as_slice());
                out.push(CR);
                out.push(LF);
            },
            Reply::Integer(n) => {
                out.push(COLON);
                push_i64_text(out, *n);
                out.push(CR);
                out.push(LF);
            },
            Reply::Bulk(None) => {
                out.push(DOLLAR);
                out.push(MINUS);
                out.push(49);
                out.push(CR);
                out.push(LF);
            },
            Reply::Bulk(Some(data)) => {
                out.push(DOLLAR);
                push_u64_text(out, data.len() as u64);
                out.push(CR);
                out.push(LF);
                push_all(out, data.as_slice());
                out.push(CR);
                out.push(LF);
            },
            Reply::Array(None) => {
                out.push(STAR);
                out.push(MINUS);
                out.push(49);
                out.push(CR);
                out.push(LF);
            },
            Reply::Array(Some(items)) => {
                out.push(STAR);
                push_u64_text(out, items.len() as u64);
                out.push(CR);
                out.push(LF);
                let ghost header = out@;
                let mut i: usize = 0;
                while i < items.len()
                    invariant
                        i <= items.len(),
                        out@ == header + wire_all(reply_models(items@.subrange(0, i as int))),
                        *self == Reply::Array(Some(*items)),
                    decreases items.len() - i,
                {
                    let ghost before = out@;
                    proof {
                        assert(decreases_to!(*self => (*self)->Array_0));
                        assert(decreases_to!((*self)->Array_0 => (*self)->Array_0->Some_0));
                        assert(decreases_to!(*items => items@));
                        assert(decreases_to!(items@ => items@[i as int]));
                        assert(decreases_to!(*self => items@[i as int]));
                    }
                    items[i].write_to(out);
                    proof {
                        assert(items@.subrange(0, i + 1) =~= items@.subrange(0, i as int).push(
                            items@[i as int],
                        ));
                        lemma_reply_models_push(items@.subrange(0, i as int), items@[i as int]);
                        lemma_wire_all_push(
                            reply_models(items@.subrange(0, i as int)),
                            reply_model(items@[i as int]),
                        );
                    }
                    i += 1;
                }
                assert(items@.subrange(0, items.len() as int) =~= items@);
                proof {
                    lemma_reply_models(items@);
                }
            },
        }
        assert(final(out)@ =~= old(out)@ + wire(self@));
    }

    pub fn to_bytes(&self) -> (v: Vec<u8>)
        ensures
            v@ == wire(self@),
    {
        let mut out: Vec<u8> = Vec::new();
        self.write_to(&mut out);
        assert(out@ =~= wire(self@));
        out
    }
}


/// The `Debug` text of a byte vector's items: each byte in decimal,
/// separated by ", ".
pub open spec fn byte_items(b: Seq<u8>) -> Seq<char>
    decreases b.len(),
{
    if b.len() == 0 {
        Seq::empty()
    } else if b.len() == 1 {
        nat_chars(b[0] as nat)
    } else {
        byte_items(b.drop_last()) + ", "@ + nat_chars(b.last() as nat)
    }
}

/// The `Debug` text of a byte vector: `[1, 2, 3]`.
pub open spec fn bytes_debug(b: Seq<u8>) -> Seq<char> {
    "["@ + byte_items(b) + "]"@
}

/// The `Debug` text of an `i64`: its decimal digits, after '-' when negative.
pub open spec fn i64_debug(n: i64) -> Seq<char> {
    if n < 0 {
        "-"@ + nat_chars((-n) as nat)
    } else {
        nat_chars(n as nat)
    }
}

/// The text `{:?}` writes for a reply: the variant's name, then its field in
/// parentheses, as `derive(Debug)` lays it out.
pub open spec fn reply_debug_text(r: ReplyModel) -> Seq<char>
    decreases r,
{
    match r {
        ReplyModel::Simple(s) => "Simple("@ + bytes_debug(s) + ")"@,
        ReplyModel::Error(s) => "Error("@ + bytes_debug(s) + ")"@,
        ReplyModel::Integer(n) => "Integer("@ + i64_debug(n) + ")"@,
        ReplyModel::Bulk(None) => "Bulk(None)"@,
        ReplyModel::Bulk(Some(d)) => "Bulk(Some("@ + bytes_debug(d) + "))"@,
        ReplyModel::Array(None) => "Array(None)"@,
        ReplyModel::Array(Some(items)) => "Array(Some(["@ + debug_items(items) + "]))"@,
    }
}

/// The `Debug` texts of several replies, separated by ", ".
pub open spec fn debug_items(items: Seq<ReplyModel>) -> Seq<char>
    decreases items,
{
    if items.len() == 0 {
        Seq::empty()
    } else if items.len() == 1 {
        reply_debug_text(items[0])
    } else {
        debug_items(items.subrange(0, items.len() - 1)) + ", "@ + reply_debug_text(
            items[items.len() - 1],
        )
    }
}

/// Appends the `Debug` text of a byte vector.
fn push_bytes_debug(s: &mut String, b: &Vec<u8>)
    ensures
        final(s)@ == old(s)@ + bytes_debug(b@),
{
    push_text(s, "[");
    let ghost start = s@;
    let mut i: usize = 0;
    while i < b.len()
        invariant
            i <= b.len(),
            s@ == start + byte_items(b@.take(i as int)),
        decreases b.len() - i,
    {
        let ghost t = b@.take(i + 1);
        proof {
            assert(t.drop_last() =~= b@.take(i as int));
            assert(t.last() == b@[i as int]);
            if i == 0 {
                assert(t[0] == b@[0]);
            }
        }
        if i > 0 {
            push_text(s, ", ");
        }
        push_nat(s, b[i] as u64);
        i += 1;
        proof {
            assert(s@ =~= start + byte_items(b@.take(i as int)));
        }
    }
    assert(b@.take(b.len() as int) =~= b@);
    push_text(s, "]");
    assert(s@ =~= old(s)@ + bytes_debug(b@));
}

/// Appends the `Debug` text of an `i64`.
fn push_i64_debug(s: &mut String, n: i64)
    ensures
        final(s)@ == old(s)@ + i64_debug(n),
{
    if n < 0 {
        push_text(s, "-");
        let mag: u64 = (0i128 - n as i128) as u64;
        push_nat(s, mag);
    } else {
        push_nat(s, n as u64);
    }
}

impl Reply {
    /// The text `{:?}` writes for this reply.
    pub fn debug_string(&self) -> (s: String)
        ensures
            s@ == reply_debug_text(self@),
    {
        let mut s = String::new();
        self.push_debug(&mut s);
        assert(s@ =~= reply_debug_text(self@));
        s
    }

    fn push_debug(&self, s: &mut String)
        ensures
            final(s)@ == old(s)@ + reply_debug_text(self@),
        decreases self,
    {
        let ghost start = s@;
        match self {
            Reply::Simple(b) => {
                push_text(s, "Simple(");
                push_bytes_debug(s, b);
                push_text(s, ")");
            },
            Reply::Error(b) => {
                push_text(s, "Error(");
                push_bytes_debug(s, b);
                push_text(s, ")");
            },
            Reply::Integer(n) => {
                push_text(s, "Integer(");
                push_i64_debug(s, *n);
                push_text(s, ")");
            },
            Reply::Bulk(None) => push_text(s, "Bulk(None)"),
            Reply::Bulk(Some(d)) => {
                push_text(s, "Bulk(Some(");
                push_bytes_debug(s, d);
                push_text(s, "))");
            },
            Reply::Array(None) => push_text(s, "Array(None)"),
            Reply::Array(Some(items)) => {
                push_text(s, "Array(Some([");
                let ghost head = s@;
                let mut i: usize = 0;
                while i < items.len()
                    invariant
                        i <= items.len(),
                        s@ == head + debug_items(reply_models(items@.subrange(0, i as int))),
                        *self == Reply::Array(Some(*items)),
                    decreases items.len() - i,
                {
                    proof {
                        assert(decreases_to!(*self => (*self)->Array_0));
                        assert(decreases_to!((*self)->Array_0 => (*self)->Array_0->Some_0));
                        assert(decreases_to!(*items => items@));
                        assert(decreases_to!(items@ => items@[i as int]));
                        assert(decreases_to!(*self => items@[i as int]));
                    }
                    let ghost y = reply_models(items@.subrange(0, i as int));
                    let ghost x = reply_models(items@.subrange(0, i + 1));
                    proof {
                        assert(items@.subrange(0, i + 1) =~= items@.subrange(0, i as int).push(
                            items@[i as int],
                        ));
                        lemma_reply_models_push(items@.subrange(0, i as int), items@[i as int]);
                        lemma_reply_models(items@.subrange(0, i as int));
                        assert(x.subrange(0, i as int) =~= y);
                        assert(x[i as int] == reply_model(items@[i as int]));
                        if i == 0 {
                            assert(y =~= Seq::<ReplyModel>::empty());
                        }
                    }
                    if i > 0 {
                        push_text(s, ", ");
                    }
                    items[i].push_debug(s);
                    i += 1;
                    proof {
                        assert(s@ =~= head + debug_items(x));
                    }
                }
                assert(items@.subrange(0, items.len() as int) =~= items@);
                push_text(s, "]))");
            },
        }
        assert(s@ =~= start + reply_debug_text(self@));
    }
}

/// Result of attempting to parse one server reply from a byte buffer.
#[derive(Debug, PartialEq, Eq)]
pub enum ReplyOutcome {
    /// A full reply was parsed; `consumed` is how many bytes of `buf` to drop.
    Complete { reply: Reply, consumed: usize },
    /// Not enough bytes yet; read more and retry with a larger buffer.
    Incomplete,
    /// Malformed input that can never become valid by reading more bytes.
    Invalid(String),
}

/// The parser's answer, over models: a reply and the position just past it.
pub enum ReplyStep {
    Done(ReplyModel, int),
    Incomplete,
    Invalid(Seq<char>),
}

pub open spec fn outcome_step(o: ReplyOutcome) -> ReplyStep {
    match o {
        ReplyOutcome::Complete { reply, consumed } => ReplyStep::Done(reply@, consumed as int),
        ReplyOutcome::Incomplete => ReplyStep::Incomplete,
        ReplyOutcome::Invalid(m) => ReplyStep::Invalid(m@),
    }
}

pub open spec fn hex_digit(d: int) -> char {
    if d < 10 {
        (48 + d) as char
    } else {
        (87 + d) as char
    }
}

pub open spec fn unexpected_sigil_message(b: u8) -> Seq<char> {
    "unexpected reply type byte '"@ + seq![b as char] + "' (0x"@ + seq![
        hex_digit((b / 16) as int),
        hex_digit((b % 16) as int),
    ] + ")"@
}

/// The parse of one reply starting at `pos`, `depth` arrays deep.
pub open spec fn parse_reply_at_spec(buf: Seq<u8>, pos: int, depth: int) -> ReplyStep
    decreases MAX_REPLY_DEPTH + 1 - depth, 1int, 0int,
{
    if depth > MAX_REPLY_DEPTH {
        ReplyStep::Invalid("reply nested deeper than 32"@)
    } else if pos < 0 || pos >= buf.len() {
        ReplyStep::Incomplete
    } else {
        let sigil = buf[pos];
        let body = pos + 1;
        if sigil == PLUS || sigil == MINUS || sigil == COLON || sigil == DOLLAR || sigil == STAR {
            match read_line_spec(buf, body) {
                LineRead::TooLong => ReplyStep::Invalid("reply line too long"@),
                LineRead::Missing => ReplyStep::Incomplete,
                LineRead::Line(line, next) => {
                    if sigil == PLUS {
                        ReplyStep::Done(ReplyModel::Simple(line), next)
                    } else if sigil == MINUS {
                        ReplyStep::Done(ReplyModel::Error(line), next)
                    } else if sigil == COLON {
                        match parse_i64_spec(line) {
                            Some(n) => ReplyStep::Done(ReplyModel::Integer(n), next),
                            None => ReplyStep::Invalid("invalid integer reply"@),
                        }
                    } else if sigil == DOLLAR {
                        match parse_i64_spec(line) {
                            None => ReplyStep::Invalid("invalid bulk length"@),
                            Some(len) => if len == -1 {
                                ReplyStep::Done(ReplyModel::Bulk(None), next)
                            } else if len < 0 {
                                ReplyStep::Invalid("invalid bulk length"@)
                            } else if len > MAX_BULK_LEN {
                                ReplyStep::Invalid("bulk length too large"@)
                            } else if next + len + 2 > buf.len() {
                                ReplyStep::Incomplete
                            } else if buf[next + len] != CR || buf[next + len + 1] != LF {
                                ReplyStep::Invalid("expected CRLF after bulk data"@)
                            } else {
                                ReplyStep::Done(
                                    ReplyModel::Bulk(Some(buf.subrange(next, next + len))),
                                    next + len + 2,
                                )
                            },
                        }
                    } else {
                        match parse_i64_spec(line) {
                            None => ReplyStep::Invalid("invalid multibulk length"@),
                            Some(count) => if count == -1 {
                                ReplyStep::Done(ReplyModel::Array(None), next)
                            } else if count < 0 {
                                ReplyStep::Invalid("invalid multibulk length"@)
                            } else if count > MAX_ARRAY_LEN {
                                ReplyStep::Invalid("multibulk length too large"@)
                            } else {
                                parse_items_spec(buf, next, depth, count as int, Seq::empty())
                            },
                        }
                    }
                },
            }
        } else {
            ReplyStep::Invalid(unexpected_sigil_message(sigil))
        }
    }
}

/// The parse of `remaining` more array elements from `pos`, with `acc`
/// already read.
pub open spec fn parse_items_spec(
    buf: Seq<u8>,
    pos: int,
    depth: int,
    remaining: int,
    acc: Seq<ReplyModel>,
) -> ReplyStep
    decreases MAX_REPLY_DEPTH + 1 - depth, 0int, remaining,
{
    if remaining <= 0 {
        ReplyStep::Done(ReplyModel::Array(Some(acc)), pos)
    } else if depth > MAX_REPLY_DEPTH {
        ReplyStep::Invalid("reply nested deeper than 32"@)
    } else {
        match parse_reply_at_spec(buf, pos, depth + 1) {
            ReplyStep::Done(item, after) => parse_items_spec(
                buf,
                after,
                depth,
                remaining - 1,
                acc.push(item),
            ),
            ReplyStep::Incomplete => ReplyStep::Incomplete,
            ReplyStep::Invalid(m) => ReplyStep::Invalid(m),
        }
    }
}

enum Step {
    Done(Reply, usize),
    Incomplete,
    Invalid(String),
}

spec fn step_model(s: Step) -> ReplyStep {
    match s {
        Step::Done(r, p) => ReplyStep::Done(r@, p as int),
        Step::Incomplete => ReplyStep::Incomplete,
        Step::Invalid(m) => ReplyStep::Invalid(m@),
    }
}

fn hex_char(d: u8) -> (c: char)
    requires
        d < 16,
    ensures
        c == hex_digit(d as int),
{
    if d < 10 {
        (48 + d) as char
    } else {
        (87 + d) as char
    }
}

fn unexpected_sigil(b: u8) -> (m: String)
    ensures
        m@ == unexpected_sigil_message(b),
{
    let mut m = owned("unexpected reply type byte '");
    push_char(&mut m, b as char);
    push_text(&mut m, "' (0x");
    push_char(&mut m, hex_char(b / 16));
    push_char(&mut m, hex_char(b % 16));
    push_text(&mut m, ")");
    m
}

/// Parse exactly one reply from the front of `buf`.
pub fn parse_reply(buf: &[u8]) -> (r: ReplyOutcome)
    ensures
        outcome_step(r) == parse_reply_at_spec(buf@, 0, 0),
        match r {
            ReplyOutcome::Complete { consumed, .. } => 0 < consumed <= buf.len(),
            _ => true,
        },
{
    match parse_reply_at(buf, 0, 0) {
        Step::Done(reply, pos) => ReplyOutcome::Complete { reply, consumed: pos },
        Step::Incomplete => ReplyOutcome::Incomplete,
        Step::Invalid(msg) => ReplyOutcome::Invalid(msg),
    }
}

fn parse_reply_at(buf: &[u8], pos: usize, depth: usize) -> (r: Step)
    requires
        pos <= buf.len(),
    ensures
        step_model(r) == parse_reply_at_spec(buf@, pos as int, depth as int),
        match r {
            Step::Done(_, after) => pos < after <= buf.len(),
            _ => true,
        },
    decreases MAX_REPLY_DEPTH + 1 - depth,
{
    if depth > MAX_REPLY_DEPTH {
        return Step::Invalid(owned("reply nested deeper than 32"));
    }
    if pos >= buf.len() {
        return Step::Incomplete;
    }
    let sigil = buf[pos];
    let body = pos + 1;
    if !(sigil == PLUS || sigil == MINUS || sigil == COLON || sigil == DOLLAR || sigil == STAR) {
        return Step::Invalid(unexpected_sigil(sigil));
    }
    let (end, next) = match read_line(buf, body) {
        Err(()) => {
            return Step::Invalid(owned("reply line too long"));
        },
        Ok(None) => {
            return Step::Incomplete;
        },
        Ok(Some(line)) => line,
    };
    let ghost line = buf@.subrange(body as int, end as int);
    if sigil == PLUS {
        return Step::Done(Reply::Simple(copy_range(buf, body, end)), next);
    }
    if sigil == MINUS {
        return Step::Done(Reply::Error(copy_range(buf, body, end)), next);
    }
    let parsed = parse_i64_bytes(&buf[body..end]);
    if sigil == COLON {
        return match parsed {
            Some(n) => Step::Done(Reply::Integer(n), next),
            None => Step::Invalid(owned("invalid integer reply")),
        };
    }
    if sigil == DOLLAR {
        let len = match parsed {
            None => {
                return Step::Invalid(owned("invalid bulk length"));
            },
            Some(len) => len,
        };
        if len == -1 {
            return Step::Done(Reply::Bulk(None), next);
        }
        if len < 0 {
            return Step::Invalid(owned("invalid bulk length"));
        }
        if len > MAX_BULK_LEN {
            return Step::Invalid(owned("bulk length too large"));
        }
        let len = len as usize;
        if len + 2 > buf.len() - next {
            return Step::Incomplete;
        }
        let data_end = next + len;
        if buf[data_end] != CR || buf[data_end + 1] != LF {
            return Step::Invalid(owned("expected CRLF after bulk data"));
        }
        return Step::Done(Reply::Bulk(Some(copy_range(buf, next, data_end))), data_end + 2);
    }
    let count = match parsed {
        None => {
            return Step::Invalid(owned("invalid multibulk length"));
        },
        Some(count) => count,
    };
    if count == -1 {
        return Step::Done(Reply::Array(None), next);
    }
    if count < 0 {
        return Step::Invalid(owned("invalid multibulk length"));
    }
    if count > MAX_ARRAY_LEN {
        return Step::Invalid(owned("multibulk length too large"));
    }
    let count = count as usize;
    let mut items: Vec<Reply> = Vec::new();
    let mut at = next;
    let mut i: usize = 0;
    assert(reply_models(items@) =~= Seq::<ReplyModel>::empty());
    assert(parse_reply_at_spec(buf@, pos as int, depth as int) == parse_items_spec(
        buf@,
        next as int,
        depth as int,
        count as int,
        Seq::empty(),
    ));
    while i < count
        invariant
            i <= count,
            pos < next <= at <= buf.len(),
            depth <= MAX_REPLY_DEPTH,
            count <= MAX_ARRAY_LEN,
            parse_items_spec(buf@, at as int, depth as int, (count - i) as int, reply_models(items@))
                == parse_items_spec(buf@, next as int, depth as int, count as int, Seq::empty()),
            parse_reply_at_spec(buf@, pos as int, depth as int) == parse_items_spec(
                buf@,
                next as int,
                depth as int,
                count as int,
                Seq::empty(),
            ),
        decreases count - i,
    {
        match parse_reply_at(buf, at, depth + 1) {
            Step::Done(item, after) => {
                proof {
                    lemma_reply_models_push(items@, item);
                }
                items.push(item);
                at = after;
            },
            Step::Incomplete => {
                return Step::Incomplete;
            },
            Step::Invalid(m) => {
                return Step::Invalid(m);
            },
        }
        i += 1;
    }
    Step::Done(Reply::Array(Some(items)), at)
}


/// A reply the parser can read back as it was written: simple and error
/// text without CR LF, lengths within the parser's limits, and no array
/// nested deeper than the parser descends.
pub open spec fn wire_safe(r: ReplyModel, depth: int) -> bool
    decreases r,
{
    0 <= depth <= MAX_REPLY_DEPTH && match r {
        ReplyModel::Simple(s) => crlf_free(s),
        ReplyModel::Error(s) => crlf_free(s),
        ReplyModel::Bulk(Some(d)) => d.len() <= MAX_BULK_LEN,
        ReplyModel::Array(Some(items)) => items.len() <= MAX_ARRAY_LEN && forall|i: int|
            0 <= i < items.len() ==> wire_safe(#[trigger] items[i], depth + 1),
        _ => true,
    }
}

proof fn lemma_digits_crlf_free(s: Seq<u8>)
    requires
        all_digits(s),
    ensures
        crlf_free(s),
{
    assert forall|i: int| 0 <= i < s.len() - 1 implies !(s[i] == CR && #[trigger] s[i + 1]
        == LF) by {
        assert(is_digit(s[i]));
    }
}

proof fn lemma_int_text_crlf_free(n: int)
    ensures
        crlf_free(int_text(n)),
{
    if n < 0 {
        lemma_nat_text((-n) as nat);
        let t = int_text(n);
        assert forall|i: int| 0 <= i < t.len() - 1 implies !(t[i] == CR && #[trigger] t[i + 1]
            == LF) by {
            assert(t[i + 1] == nat_text((-n) as nat)[i]);
            assert(is_digit(nat_text((-n) as nat)[i]));
        }
    } else {
        lemma_nat_text(n as nat);
        lemma_digits_crlf_free(nat_text(n as nat));
    }
}

/// The header line after a sigil is read back whole.
proof fn lemma_read_header(pre: Seq<u8>, sigil: u8, line: Seq<u8>, rest: Seq<u8>)
    requires
        crlf_free(line),
    ensures
        read_line_spec(pre + seq![sigil] + line + crlf() + rest, pre.len() + 1 as int) == LineRead::Line(
            line,
            (pre.len() + 1 + line.len() + 2) as int,
        ),
{
    let p2 = pre + seq![sigil];
    lemma_find_crlf_after(p2, line, rest);
    let buf = pre + seq![sigil] + line + crlf() + rest;
    assert(buf.subrange(pre.len() + 1 as int, (pre.len() + 1 + line.len()) as int) =~= line);
}

proof fn lemma_parse_minus_one()
    ensures
        parse_i64_spec(seq![MINUS, 49u8]) == Some(-1i64),
{
    let s = seq![MINUS, 49u8];
    let d = s.drop_first();
    assert(d =~= seq![49u8]);
    assert(d.drop_last() =~= Seq::<u8>::empty());
    assert(digits_value(Seq::<u8>::empty()) == 0);
    assert(d.last() == 49u8);
    assert(digits_value(d) == digits_value(d.drop_last()) * 10 + 1);
    assert(digits_value(d) == 1);
    assert(all_digits(d));
    assert(parse_int(s, true) == Some(-1int));
}

proof fn lemma_parse_small_nat(n: nat)
    requires
        n <= MAX_BULK_LEN,
    ensures
        parse_i64_spec(nat_text(n)) == Some(n as i64),
{
    crate::decimal::lemma_parse_nat_text(n as u64);
}

proof fn lemma_rt_text(r: ReplyModel, pre: Seq<u8>, rest: Seq<u8>, depth: int)
    requires
        wire_safe(r, depth),
        r is Simple || r is Error,
    ensures
        parse_reply_at_spec(pre + wire(r) + rest, pre.len() as int, depth) == ReplyStep::Done(
            r,
            (pre.len() + wire(r).len()) as int,
        ),
{
    match r {
        ReplyModel::Simple(s) => {
            assert(pre + wire(r) + rest =~= pre + seq![PLUS] + s + crlf() + rest);
            lemma_read_header(pre, PLUS, s, rest);
        },
        ReplyModel::Error(s) => {
            assert(pre + wire(r) + rest =~= pre + seq![MINUS] + s + crlf() + rest);
            lemma_read_header(pre, MINUS, s, rest);
        },
        _ => {},
    }
}

proof fn lemma_rt_integer(n: i64, pre: Seq<u8>, rest: Seq<u8>, depth: int)
    requires
        0 <= depth <= MAX_REPLY_DEPTH,
    ensures
        parse_reply_at_spec(pre + wire(ReplyModel::Integer(n)) + rest, pre.len() as int, depth)
            == ReplyStep::Done(
            ReplyModel::Integer(n),
            (pre.len() + wire(ReplyModel::Integer(n)).len()) as int,
        ),
{
    let r = ReplyModel::Integer(n);
    assert(pre + wire(r) + rest =~= pre + seq![COLON] + int_text(n as int) + crlf() + rest);
    lemma_int_text_crlf_free(n as int);
    lemma_read_header(pre, COLON, int_text(n as int), rest);
    lemma_parse_int_text(n);
}

proof fn lemma_rt_null(r: ReplyModel, pre: Seq<u8>, rest: Seq<u8>, depth: int)
    requires
        0 <= depth <= MAX_REPLY_DEPTH,
        r == ReplyModel::Bulk(None) || r == ReplyModel::Array(None),
    ensures
        parse_reply_at_spec(pre + wire(r) + rest, pre.len() as int, depth) == ReplyStep::Done(
            r,
            (pre.len() + wire(r).len()) as int,
        ),
{
    let line = seq![MINUS, 49u8];
    let sigil: u8 = if r is Bulk {
        DOLLAR
    } else {
        STAR
    };
    assert(pre + wire(r) + rest =~= pre + seq![sigil] + line + crlf() + rest);
    assert(crlf_free(line));
    lemma_read_header(pre, sigil, line, rest);
    lemma_parse_minus_one();
}

proof fn lemma_rt_bulk(d: Seq<u8>, pre: Seq<u8>, rest: Seq<u8>, depth: int)
    requires
        0 <= depth <= MAX_REPLY_DEPTH,
        d.len() <= MAX_BULK_LEN,
    ensures
        parse_reply_at_spec(pre + wire(ReplyModel::Bulk(Some(d))) + rest, pre.len() as int, depth)
            == ReplyStep::Done(
            ReplyModel::Bulk(Some(d)),
            (pre.len() + wire(ReplyModel::Bulk(Some(d))).len()) as int,
        ),
{
    let r = ReplyModel::Bulk(Some(d));
    let buf = pre + wire(r) + rest;
    let p = pre.len() as int;
    let line = nat_text(d.len());
    let tail = d + crlf() + rest;
    assert(buf =~= pre + seq![DOLLAR] + line + crlf() + tail);
    lemma_nat_text(d.len());
    lemma_digits_crlf_free(line);
    lemma_read_header(pre, DOLLAR, line, tail);
    lemma_parse_small_nat(d.len());
    let next = p + 1 + line.len() + 2;
    assert(buf.subrange(next, next + d.len()) =~= d);
    assert(buf[next + d.len()] == CR);
    assert(buf[next + d.len() + 1] == LF);
}

/// Reading `wire(r)` back from inside a larger buffer gives `r` and the
/// position just past it.
pub proof fn lemma_reply_round_trip_at(r: ReplyModel, pre: Seq<u8>, rest: Seq<u8>, depth: int)
    requires
        wire_safe(r, depth),
    ensures
        parse_reply_at_spec(pre + wire(r) + rest, pre.len() as int, depth) == ReplyStep::Done(
            r,
            (pre.len() + wire(r).len()) as int,
        ),
    decreases r, 0int,
{
    match r {
        ReplyModel::Simple(_) => lemma_rt_text(r, pre, rest, depth),
        ReplyModel::Error(_) => lemma_rt_text(r, pre, rest, depth),
        ReplyModel::Integer(n) => lemma_rt_integer(n, pre, rest, depth),
        ReplyModel::Bulk(None) => lemma_rt_null(r, pre, rest, depth),
        ReplyModel::Array(None) => lemma_rt_null(r, pre, rest, depth),
        ReplyModel::Bulk(Some(d)) => lemma_rt_bulk(d, pre, rest, depth),
        ReplyModel::Array(Some(items)) => {
            let buf = pre + wire(r) + rest;
            let line = nat_text(items.len());
            let tail = wire_all(items) + rest;
            assert(buf =~= pre + seq![STAR] + line + crlf() + tail);
            lemma_nat_text(items.len());
            lemma_digits_crlf_free(line);
            lemma_read_header(pre, STAR, line, tail);
            lemma_parse_small_nat(items.len());
            let start = pre + seq![STAR] + line + crlf();
            assert(buf =~= start + wire_all(items) + rest);
            assert(items.take(0) =~= Seq::<ReplyModel>::empty());
            assert(decreases_to!(r => r->Array_0));
            assert(decreases_to!(r->Array_0 => items));
            lemma_items_round_trip(items, 0, start, rest, depth);
        },
    }
}

proof fn lemma_items_round_trip(
    items: Seq<ReplyModel>,
    k: int,
    start: Seq<u8>,
    rest: Seq<u8>,
    depth: int,
)
    requires
        0 <= k <= items.len(),
        0 <= depth <= MAX_REPLY_DEPTH,
        forall|i: int| 0 <= i < items.len() ==> wire_safe(#[trigger] items[i], depth + 1),
    ensures
        parse_items_spec(
            start + wire_all(items) + rest,
            (start.len() + wire_all(items.take(k)).len()) as int,
            depth,
            items.len() - k,
            items.take(k),
        ) == ReplyStep::Done(ReplyModel::Array(Some(items)), (start.len() + wire_all(items).len()) as int),
    decreases items, items.len() - k,
{
    let buf = start + wire_all(items) + rest;
    if k == items.len() {
        assert(items.take(k) =~= items);
    } else {
        let q = start + wire_all(items.take(k));
        let after = wire_all(items.skip(k + 1)) + rest;
        assert(items.take(k + 1) =~= items.take(k).push(items[k]));
        lemma_wire_all_push(items.take(k), items[k]);
        assert(items =~= items.take(k + 1) + items.skip(k + 1));
        lemma_wire_all_concat(items.take(k + 1), items.skip(k + 1));
        assert(buf =~= q + wire(items[k]) + after);
        lemma_reply_round_trip_at(items[k], q, after, depth + 1);
        lemma_items_round_trip(items, k + 1, start, rest, depth);
    }
}

/// Anything the server can serialize, the client reads back identically:
/// the same reply, consuming exactly its bytes and leaving what follows.
pub proof fn lemma_reply_round_trip(r: ReplyModel, rest: Seq<u8>)
    requires
        wire_safe(r, 0),
    ensures
        parse_reply_at_spec(wire(r) + rest, 0, 0) == ReplyStep::Done(r, wire(r).len() as int),
{
    lemma_reply_round_trip_at(r, Seq::empty(), rest, 0);
    assert(Seq::<u8>::empty() + wire(r) + rest =~= wire(r) + rest);
}

/// A null bulk and an empty bulk are different on the wire.
pub proof fn lemma_null_bulk_is_not_empty_bulk()
    ensures
        wire(ReplyModel::Bulk(None)) != wire(ReplyModel::Bulk(Some(Seq::empty()))),
{
    crate::decimal::lemma_nat_text(0);
    assert(wire(ReplyModel::Bulk(None))[1] == MINUS);
    assert(nat_text(0) == seq![48u8]);
    assert(wire(ReplyModel::Bulk(Some(Seq::empty())))[1] == 48u8);
}

/// The error the reply parser gives while a line is still unterminated but
/// already longer than it will wait for; bytes that arrive later can still
/// terminate that line.
pub open spec fn reply_pending_too_long(p: ReplyStep) -> bool {
    p == ReplyStep::Invalid("reply line too long"@)
}

proof fn lemma_reply_settled_at(buf: Seq<u8>, ext: Seq<u8>, pos: int, depth: int)
    requires
        !(parse_reply_at_spec(buf, pos, depth) is Incomplete),
        !reply_pending_too_long(parse_reply_at_spec(buf, pos, depth)),
    ensures
        parse_reply_at_spec(buf + ext, pos, depth) == parse_reply_at_spec(buf, pos, depth),
    decreases MAX_REPLY_DEPTH + 1 - depth, 1int, 0int,
{
    if depth <= MAX_REPLY_DEPTH && 0 <= pos < buf.len() {
        let x = buf + ext;
        assert(x[pos] == buf[pos]);
        let sigil = buf[pos];
        if sigil == PLUS || sigil == MINUS || sigil == COLON || sigil == DOLLAR || sigil == STAR {
            if let LineRead::Line(line, next) = read_line_spec(buf, pos + 1) {
                lemma_read_line_extend(buf, ext, pos + 1);
                lemma_find_crlf_props(buf, pos + 1);
                if sigil == DOLLAR {
                    if let Some(len) = parse_i64_spec(line) {
                        if 0 <= len <= MAX_BULK_LEN && next + len + 2 <= buf.len() {
                            assert(x[next + len] == buf[next + len]);
                            assert(x[next + len + 1] == buf[next + len + 1]);
                            assert(x.subrange(next, next + len) =~= buf.subrange(next, next + len));
                        }
                    }
                } else if sigil == STAR {
                    if let Some(count) = parse_i64_spec(line) {
                        if 0 <= count <= MAX_ARRAY_LEN {
                            lemma_items_settled(buf, ext, next, depth, count as int, Seq::empty());
                        }
                    }
                }
            }
        }
    }
}

proof fn lemma_items_settled(
    buf: Seq<u8>,
    ext: Seq<u8>,
    pos: int,
    depth: int,
    remaining: int,
    acc: Seq<ReplyModel>,
)
    requires
        !(parse_items_spec(buf, pos, depth, remaining, acc) is Incomplete),
        !reply_pending_too_long(parse_items_spec(buf, pos, depth, remaining, acc)),
    ensures
        parse_items_spec(buf + ext, pos, depth, remaining, acc) == parse_items_spec(
            buf,
            pos,
            depth,
            remaining,
            acc,
        ),
    decreases MAX_REPLY_DEPTH + 1 - depth, 0int, remaining,
{
    if remaining > 0 && depth <= MAX_REPLY_DEPTH {
        match parse_reply_at_spec(buf, pos, depth + 1) {
            ReplyStep::Done(item, after) => {
                lemma_reply_settled_at(buf, ext, pos, depth + 1);
                lemma_items_settled(buf, ext, after, depth, remaining - 1, acc.push(item));
            },
            ReplyStep::Invalid(_) => {
                lemma_reply_settled_at(buf, ext, pos, depth + 1);
            },
            ReplyStep::Incomplete => {},
        }
    }
}

/// A reply parse that has settled stays settled: once the bytes at hand
/// give a complete reply, or an error other than a still-unterminated line
/// that is already too long, bytes arriving after them change nothing: the
/// same reply, ending at the same place, or the same error.
pub proof fn lemma_reply_parse_settled(buf: Seq<u8>, ext: Seq<u8>)
    requires
        !(parse_reply_at_spec(buf, 0, 0) is Incomplete),
        !reply_pending_too_long(parse_reply_at_spec(buf, 0, 0)),
    ensures
        parse_reply_at_spec(buf + ext, 0, 0) == parse_reply_at_spec(buf, 0, 0),
{
    lemma_reply_settled_at(buf, ext, 0, 0);
}

/// Every simple and error text in `r` fits in one pending line.
pub open spec fn short_lines(r: ReplyModel) -> bool
    decreases r,
{
    match r {
        ReplyModel::Simple(s) => s.len() < MAX_INLINE_LEN,
        ReplyModel::Error(s) => s.len() < MAX_INLINE_LEN,
        ReplyModel::Array(Some(items)) => forall|i: int|
            0 <= i < items.len() ==> short_lines(#[trigger] items[i]),
        _ => true,
    }
}

/// A header line cut short (its CR LF not yet complete) reads as missing.
proof fn lemma_partial_line(pre: Seq<u8>, sigil: u8, line: Seq<u8>, m: int)
    requires
        crlf_free(line),
        0 <= m < line.len() + 2,
        line.len() + 1 <= MAX_INLINE_LEN,
    ensures
        read_line_spec(pre + seq![sigil] + (line + crlf()).take(m), pre.len() + 1 as int)
            == LineRead::Missing,
{
    let buf = pre + seq![sigil] + (line + crlf()).take(m);
    let pos = pre.len() + 1;
    let t = line + crlf();
    assert forall|j: int| pos <= j implies !crlf_at(buf, j) by {
        if crlf_at(buf, j) {
            let a = j - pos;
            assert(buf[j] == t[a]);
            assert(buf[j + 1] == t[a + 1]);
            if a + 1 < line.len() {
                assert(t[a] == line[a] && t[a + 1] == line[a + 1]);
            } else if a + 1 == line.len() {
                assert(t[a + 1] == CR);
            } else {
                assert(a + 1 >= m);
            }
        }
    }
    lemma_find_crlf_props(buf, pos as int);
}

proof fn lemma_short_header_text(n: nat)
    requires
        n <= 0x1_0000_0000,
    ensures
        nat_text(n).len() + 1 <= MAX_INLINE_LEN,
        crlf_free(nat_text(n)),
{
    lemma_nat_text(n);
    lemma_digits_crlf_free(nat_text(n));
    reveal_with_fuel(crate::decimal::pow10, 12);
    crate::decimal::lemma_nat_text_len(n, 11);
}

/// A prefix of a reply's wire form, cut anywhere before its last byte,
/// parses as incomplete from wherever it starts.
#[verifier::rlimit(40)]
pub proof fn lemma_prefix_incomplete_at(r: ReplyModel, pre: Seq<u8>, k: int, depth: int)
    requires
        wire_safe(r, depth),
        short_lines(r),
        0 <= k < wire(r).len(),
    ensures
        parse_reply_at_spec(pre + wire(r).take(k), pre.len() as int, depth) == ReplyStep::Incomplete,
    decreases r, 0int,
{
    let buf = pre + wire(r).take(k);
    if k > 0 {
        match r {
            ReplyModel::Simple(s) => {
                assert(buf =~= pre + seq![PLUS] + (s + crlf()).take(k - 1));
                lemma_partial_line(pre, PLUS, s, k - 1);
            },
            ReplyModel::Error(s) => {
                assert(buf =~= pre + seq![MINUS] + (s + crlf()).take(k - 1));
                lemma_partial_line(pre, MINUS, s, k - 1);
            },
            ReplyModel::Integer(n) => {
                let line = int_text(n as int);
                assert(buf =~= pre + seq![COLON] + (line + crlf()).take(k - 1));
                lemma_int_text_crlf_free(n as int);
                crate::decimal::lemma_int_text_len(n);
                lemma_partial_line(pre, COLON, line, k - 1);
            },
            ReplyModel::Bulk(None) => {
                let line = seq![MINUS, 49u8];
                assert(buf =~= pre + seq![DOLLAR] + (line + crlf()).take(k - 1));
                lemma_partial_line(pre, DOLLAR, line, k - 1);
            },
            ReplyModel::Array(None) => {
                let line = seq![MINUS, 49u8];
                assert(buf =~= pre + seq![STAR] + (line + crlf()).take(k - 1));
                lemma_partial_line(pre, STAR, line, k - 1);
            },
            ReplyModel::Bulk(Some(d)) => {
                let line = nat_text(d.len());
                lemma_short_header_text(d.len());
                let hdr = 1 + line.len() + 2;
                if k < hdr {
                    assert(buf =~= pre + seq![DOLLAR] + (line + crlf()).take(k - 1));
                    lemma_partial_line(pre, DOLLAR, line, k - 1);
                } else {
                    let tail = (d + crlf()).take(k - hdr);
                    assert(buf =~= pre + seq![DOLLAR] + line + crlf() + tail);
                    lemma_read_header(pre, DOLLAR, line, tail);
                    lemma_parse_small_nat(d.len());
                }
            },
            ReplyModel::Array(Some(items)) => {
                let line = nat_text(items.len());
                lemma_short_header_text(items.len());
                let hdr = 1 + line.len() + 2;
                if k < hdr {
                    assert(buf =~= pre + seq![STAR] + (line + crlf()).take(k - 1));
                    lemma_partial_line(pre, STAR, line, k - 1);
                } else {
                    let tail = wire_all(items).take(k - hdr);
                    assert(buf =~= pre + seq![STAR] + line + crlf() + tail);
                    lemma_read_header(pre, STAR, line, tail);
                    lemma_parse_small_nat(items.len());
                    let start = pre + seq![STAR] + line + crlf();
                    assert(buf =~= start + wire_all(items).take(k - hdr));
                    assert(items.take(0) =~= Seq::<ReplyModel>::empty());
                    assert(decreases_to!(r => r->Array_0));
                    assert(decreases_to!(r->Array_0 => items));
                    lemma_items_prefix(items, 0, start, k - hdr, depth);
                }
            },
        }
    }
}

proof fn lemma_items_prefix(items: Seq<ReplyModel>, j: int, start: Seq<u8>, cut: int, depth: int)
    requires
        0 <= j <= items.len(),
        0 <= depth <= MAX_REPLY_DEPTH,
        forall|i: int| 0 <= i < items.len() ==> wire_safe(#[trigger] items[i], depth + 1),
        forall|i: int| 0 <= i < items.len() ==> short_lines(#[trigger] items[i]),
        wire_all(items.take(j)).len() <= cut < wire_all(items).len(),
    ensures
        parse_items_spec(
            start + wire_all(items).take(cut),
            (start.len() + wire_all(items.take(j)).len()) as int,
            depth,
            items.len() - j,
            items.take(j),
        ) == ReplyStep::Incomplete,
    decreases items, items.len() - j,
{
    let buf = start + wire_all(items).take(cut);
    if j == items.len() {
        assert(items.take(j) =~= items);
    } else {
        let q = start + wire_all(items.take(j));
        let w = wire_all(items.take(j + 1));
        assert(items.take(j + 1) =~= items.take(j).push(items[j]));
        lemma_wire_all_push(items.take(j), items[j]);
        assert(items =~= items.take(j + 1) + items.skip(j + 1));
        lemma_wire_all_concat(items.take(j + 1), items.skip(j + 1));
        let before = wire_all(items.take(j)).len();
        if cut >= w.len() {
            let after = wire_all(items).take(cut).skip(w.len() as int);
            assert(buf =~= q + wire(items[j]) + after);
            lemma_reply_round_trip_at(items[j], q, after, depth + 1);
            lemma_items_prefix(items, j + 1, start, cut, depth);
        } else {
            assert(buf =~= q + wire(items[j]).take(cut - before));
            lemma_prefix_incomplete_at(items[j], q, cut - before, depth + 1);
        }
    }
}

/// Every strict prefix of a reply's wire form parses as incomplete, never
/// as an error and never as a shorter complete reply: a reply that has only
/// partly arrived is waited for.
pub proof fn lemma_reply_prefix_incomplete(r: ReplyModel, k: int)
    requires
        wire_safe(r, 0),
        short_lines(r),
        0 <= k < wire(r).len(),
    ensures
        parse_reply_at_spec(wire(r).take(k), 0, 0) == ReplyStep::Incomplete,
{
    lemma_prefix_incomplete_at(r, Seq::empty(), k, 0);
    assert(Seq::<u8>::empty() + wire(r).take(k) =~= wire(r).take(k));
}

} // verus!
