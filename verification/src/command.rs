//! Client requests: parsing one command (a RESP array of bulk strings, or
//! an inline command line) off the front of a buffer, and encoding one.

use vstd::prelude::*;
use crate::bytes::{copy_range, crlf, push_all, CR, LF};
use crate::decimal::{lemma_nat_text, nat_text, parse_i64_bytes, parse_i64_spec, push_u64_text};
use crate::lines::{
    crlf_free, find_crlf, find_crlf_spec, lemma_find_crlf_after, lemma_find_crlf_extend,
    lemma_find_crlf_props, MAX_INLINE_LEN,
};
use crate::reply::{MAX_ARRAY_LEN, MAX_BULK_LEN, STAR, DOLLAR};
use crate::text::{owned, push_char, push_text};

verus! {

/// ASCII space.
pub const SPACE: u8 = 32;

/// Result of attempting to parse one command from a byte buffer.
#[derive(Debug, PartialEq, Eq)]
pub enum ParseOutcome {
    /// A full command: its name and arguments as raw bytes, and how many
    /// bytes of the buffer it took. Empty `args` is a no-op command.
    Complete { args: Vec<Vec<u8>>, consumed: usize },
    /// Not enough bytes yet.
    Incomplete,
    /// Malformed input that can never become valid by reading more bytes.
    Invalid(String),
}

/// The parser's answer, over byte sequences.
pub enum CommandParse {
    Complete(Seq<Seq<u8>>, int),
    Incomplete,
    Invalid(Seq<char>),
}

pub open spec fn vec_args(args: Seq<Vec<u8>>) -> Seq<Seq<u8>> {
    args.map_values(|a: Vec<u8>| a@)
}

pub open spec fn outcome_parse(o: ParseOutcome) -> CommandParse {
    match o {
        ParseOutcome::Complete { args, consumed } => CommandParse::Complete(
            vec_args(args@),
            consumed as int,
        ),
        ParseOutcome::Incomplete => CommandParse::Incomplete,
        ParseOutcome::Invalid(m) => CommandParse::Invalid(m@),
    }
}

pub open spec fn expected_dollar_message(b: u8) -> Seq<char> {
    "expected '$', got '"@ + seq![b as char] + "'"@
}

pub open spec fn parse_command_spec(buf: Seq<u8>) -> CommandParse {
    if buf.len() == 0 {
        CommandParse::Incomplete
    } else if buf[0] == STAR {
        parse_array_spec(buf)
    } else {
        parse_inline_spec(buf)
    }
}

pub open spec fn parse_array_spec(buf: Seq<u8>) -> CommandParse {
    match find_crlf_spec(buf, 1) {
        None => if buf.len() > MAX_INLINE_LEN {
            CommandParse::Invalid("count line too long"@)
        } else {
            CommandParse::Incomplete
        },
        Some(c) => match parse_i64_spec(buf.subrange(1, c)) {
            None => CommandParse::Invalid("invalid multibulk length"@),
            Some(count) => if count < 0 {
                CommandParse::Invalid("invalid multibulk length"@)
            } else if count > MAX_ARRAY_LEN {
                CommandParse::Invalid("multibulk length too large"@)
            } else {
                parse_bulks_spec(buf, c + 2, count as int, Seq::empty())
            },
        },
    }
}

/// `remaining` more bulk-string arguments from `pos`, with `acc` already read.
pub open spec fn parse_bulks_spec(
    buf: Seq<u8>,
    pos: int,
    remaining: int,
    acc: Seq<Seq<u8>>,
) -> CommandParse
    decreases remaining,
{
    if remaining <= 0 {
        CommandParse::Complete(acc, pos)
    } else if pos < 0 || pos >= buf.len() {
        CommandParse::Incomplete
    } else if buf[pos] != DOLLAR {
        CommandParse::Invalid(expected_dollar_message(buf[pos]))
    } else {
        match find_crlf_spec(buf, pos + 1) {
            None => if buf.len() - pos > MAX_INLINE_LEN {
                CommandParse::Invalid("bulk length line too long"@)
            } else {
                CommandParse::Incomplete
            },
            Some(lc) => match parse_i64_spec(buf.subrange(pos + 1, lc)) {
                None => CommandParse::Invalid("invalid bulk length"@),
                Some(len) => {
                    let ds = lc + 2;
                    if len < 0 {
                        CommandParse::Invalid("invalid bulk length"@)
                    } else if len > MAX_BULK_LEN {
                        CommandParse::Invalid("bulk length too large"@)
                    } else if ds + len + 2 > buf.len() {
                        CommandParse::Incomplete
                    } else if buf[ds + len] != CR || buf[ds + len + 1] != LF {
                        CommandParse::Invalid("expected CRLF after bulk data"@)
                    } else {
                        parse_bulks_spec(
                            buf,
                            ds + len + 2,
                            remaining - 1,
                            acc.push(buf.subrange(ds, ds + len)),
                        )
                    }
                },
            },
        }
    }
}

/// Length of the run of non-space bytes at the front of `s`.
pub open spec fn word_len(s: Seq<u8>) -> int
    decreases s.len(),
{
    if s.len() == 0 || s[0] == SPACE {
        0
    } else {
        1 + word_len(s.drop_first())
    }
}

/// The words of an inline command line: split on spaces, empty pieces dropped.
pub open spec fn inline_tokens(line: Seq<u8>) -> Seq<Seq<u8>>
    decreases line.len(),
{
    if line.len() == 0 {
        Seq::empty()
    } else if line[0] == SPACE {
        inline_tokens(line.drop_first())
    } else {
        let w = word_len(line);
        if 0 < w <= line.len() {
            seq![line.take(w)] + inline_tokens(line.skip(w))
        } else {
            Seq::empty()
        }
    }
}

pub proof fn lemma_word_len_bounds(s: Seq<u8>)
    ensures
        0 <= word_len(s) <= s.len(),
        s.len() > 0 && s[0] != SPACE ==> word_len(s) > 0,
    decreases s.len(),
{
    if s.len() > 0 && s[0] != SPACE {
        lemma_word_len_bounds(s.drop_first());
    }
}

pub open spec fn parse_inline_spec(buf: Seq<u8>) -> CommandParse {
    match find_crlf_spec(buf, 0) {
        None => if buf.len() > MAX_INLINE_LEN {
            CommandParse::Invalid("inline command too long"@)
        } else {
            CommandParse::Incomplete
        },
        Some(c) => CommandParse::Complete(inline_tokens(buf.take(c)), c + 2),
    }
}

/// The errors the parser gives while a line is still unterminated but
/// already longer than it will wait for; bytes that arrive later can still
/// terminate that line.
pub open spec fn pending_too_long(p: CommandParse) -> bool {
    p matches CommandParse::Invalid(m) && (m == "count line too long"@ || m
        == "bulk length line too long"@ || m == "inline command too long"@)
}

proof fn lemma_bulks_settled(buf: Seq<u8>, ext: Seq<u8>, pos: int, remaining: int, acc: Seq<Seq<u8>>)
    requires
        !(parse_bulks_spec(buf, pos, remaining, acc) is Incomplete),
        !pending_too_long(parse_bulks_spec(buf, pos, remaining, acc)),
    ensures
        parse_bulks_spec(buf + ext, pos, remaining, acc) == parse_bulks_spec(buf, pos, remaining, acc),
    decreases remaining,
{
    let x = buf + ext;
    if remaining > 0 && 0 <= pos < buf.len() {
        assert(x[pos] == buf[pos]);
        if buf[pos] == DOLLAR {
            if let Some(lc) = find_crlf_spec(buf, pos + 1) {
                lemma_find_crlf_extend(buf, ext, pos + 1);
                lemma_find_crlf_props(buf, pos + 1);
                assert(x.subrange(pos + 1, lc) =~= buf.subrange(pos + 1, lc));
                if let Some(len) = parse_i64_spec(buf.subrange(pos + 1, lc)) {
                    let ds = lc + 2;
                    if 0 <= len <= MAX_BULK_LEN && ds + len + 2 <= buf.len() {
                        assert(x[ds + len] == buf[ds + len]);
                        assert(x[ds + len + 1] == buf[ds + len + 1]);
                        if buf[ds + len] == CR && buf[ds + len + 1] == LF {
                            assert(x.subrange(ds, ds + len) =~= buf.subrange(ds, ds + len));
                            lemma_bulks_settled(
                                buf,
                                ext,
                                ds + len + 2,
                                remaining - 1,
                                acc.push(buf.subrange(ds, ds + len)),
                            );
                        }
                    }
                }
            }
        }
    }
}

/// A parse that has settled stays settled: once the bytes at hand give a
/// complete command, or an error other than a still-unterminated line that
/// is already too long, bytes arriving after them change nothing: the same
/// command, consuming the same bytes, or the same error.
pub proof fn lemma_command_parse_settled(buf: Seq<u8>, ext: Seq<u8>)
    requires
        !(parse_command_spec(buf) is Incomplete),
        !pending_too_long(parse_command_spec(buf)),
    ensures
        parse_command_spec(buf + ext) == parse_command_spec(buf),
{
    let x = buf + ext;
    assert(x[0] == buf[0]);
    if buf[0] == STAR {
        if let Some(c) = find_crlf_spec(buf, 1) {
            lemma_find_crlf_extend(buf, ext, 1);
            lemma_find_crlf_props(buf, 1);
            assert(x.subrange(1, c) =~= buf.subrange(1, c));
            if let Some(count) = parse_i64_spec(buf.subrange(1, c)) {
                if 0 <= count <= MAX_ARRAY_LEN {
                    lemma_bulks_settled(buf, ext, c + 2, count as int, Seq::empty());
                }
            }
        }
    } else {
        if let Some(c) = find_crlf_spec(buf, 0) {
            lemma_find_crlf_extend(buf, ext, 0);
            lemma_find_crlf_props(buf, 0);
            assert(x.take(c) =~= buf.take(c));
        }
    }
}

proof fn lemma_bulks_consume(buf: Seq<u8>, pos: int, remaining: int, acc: Seq<Seq<u8>>)
    requires
        0 <= pos <= buf.len(),
    ensures
        parse_bulks_spec(buf, pos, remaining, acc) matches CommandParse::Complete(_, c) ==> pos <= c
            <= buf.len(),
    decreases remaining,
{
    if remaining > 0 && 0 <= pos < buf.len() && buf[pos] == DOLLAR {
        if let Some(lc) = find_crlf_spec(buf, pos + 1) {
            lemma_find_crlf_props(buf, pos + 1);
            if let Some(len) = parse_i64_spec(buf.subrange(pos + 1, lc)) {
                let ds = lc + 2;
                if 0 <= len <= MAX_BULK_LEN && ds + len + 2 <= buf.len() {
                    lemma_bulks_consume(
                        buf,
                        ds + len + 2,
                        remaining - 1,
                        acc.push(buf.subrange(ds, ds + len)),
                    );
                }
            }
        }
    }
}

/// A complete command takes at least one byte of the buffer, and no more
/// than the buffer holds.
pub proof fn lemma_command_consumes(buf: Seq<u8>)
    ensures
        parse_command_spec(buf) matches CommandParse::Complete(_, c) ==> 0 < c <= buf.len(),
{
    if buf.len() > 0 {
        if buf[0] == STAR {
            if let Some(c) = find_crlf_spec(buf, 1) {
                lemma_find_crlf_props(buf, 1);
                if let Some(count) = parse_i64_spec(buf.subrange(1, c)) {
                    if 0 <= count <= MAX_ARRAY_LEN {
                        lemma_bulks_consume(buf, c + 2, count as int, Seq::empty());
                    }
                }
            }
        } else {
            lemma_find_crlf_props(buf, 0);
        }
    }
}

fn expected_dollar(b: u8) -> (m: String)
    ensures
        m@ == expected_dollar_message(b),
{
    let mut m = owned("expected '$', got '");
    push_char(&mut m, b as char);
    push_text(&mut m, "'");
    m
}

/// Parse exactly one command from the front of `buf`.
pub fn parse_command(buf: &[u8]) -> (r: ParseOutcome)
    ensures
        outcome_parse(r) == parse_command_spec(buf@),
        match r {
            ParseOutcome::Complete { consumed, .. } => 0 < consumed <= buf.len(),
            _ => true,
        },
{
    if buf.len() == 0 {
        return ParseOutcome::Incomplete;
    }
    if buf[0] == STAR {
        parse_array_command(buf)
    } else {
        parse_inline_command(buf)
    }
}

pub proof fn lemma_vec_args_push(args: Seq<Vec<u8>>, a: Vec<u8>)
    ensures
        vec_args(args.push(a)) == vec_args(args).push(a@),
{
    assert(vec_args(args.push(a)) =~= vec_args(args).push(a@));
}

fn parse_array_command(buf: &[u8]) -> (r: ParseOutcome)
    requires
        buf.len() > 0,
        buf@[0] == STAR,
    ensures
        outcome_parse(r) == parse_array_spec(buf@),
        match r {
            ParseOutcome::Complete { consumed, .. } => 0 < consumed <= buf.len(),
            _ => true,
        },
{
    let crlf = match find_crlf(buf, 1) {
        None => {
            if buf.len() > MAX_INLINE_LEN {
                return ParseOutcome::Invalid(owned("count line too long"));
            }
            return ParseOutcome::Incomplete;
        },
        Some(c) => c,
    };
    proof {
        lemma_find_crlf_props(buf@, 1);
    }
    let count = match parse_i64_bytes(&buf[1..crlf]) {
        None => {
            return ParseOutcome::Invalid(owned("invalid multibulk length"));
        },
        Some(n) => n,
    };
    if count < 0 {
        return ParseOutcome::Invalid(owned("invalid multibulk length"));
    }
    if count > MAX_ARRAY_LEN {
        return ParseOutcome::Invalid(owned("multibulk length too large"));
    }
    let count = count as usize;
    let start = crlf + 2;
    let mut pos = start;
    let mut args: Vec<Vec<u8>> = Vec::new();
    let mut i: usize = 0;
    assert(vec_args(args@) =~= Seq::<Seq<u8>>::empty());
    while i < count
        invariant
            i <= count,
            3 <= start <= pos <= buf.len(),
            parse_array_spec(buf@) == parse_bulks_spec(buf@, start as int, count as int, Seq::empty()),
            parse_bulks_spec(buf@, pos as int, (count - i) as int, vec_args(args@))
                == parse_bulks_spec(buf@, start as int, count as int, Seq::empty()),
        decreases count - i,
    {
        if pos >= buf.len() {
            return ParseOutcome::Incomplete;
        }
        if buf[pos] != DOLLAR {
            return ParseOutcome::Invalid(expected_dollar(buf[pos]));
        }
        let len_crlf = match find_crlf(buf, pos + 1) {
            None => {
                if buf.len() - pos > MAX_INLINE_LEN {
                    return ParseOutcome::Invalid(owned("bulk length line too long"));
                }
                return ParseOutcome::Incomplete;
            },
            Some(c) => c,
        };
        proof {
            lemma_find_crlf_props(buf@, pos + 1);
        }
        let len = match parse_i64_bytes(&buf[pos + 1..len_crlf]) {
            None => {
                return ParseOutcome::Invalid(owned("invalid bulk length"));
            },
            Some(n) => n,
        };
        if len < 0 {
            return ParseOutcome::Invalid(owned("invalid bulk length"));
        }
        if len > MAX_BULK_LEN {
            return ParseOutcome::Invalid(owned("bulk length too large"));
        }
        let len = len as usize;
        let data_start = len_crlf + 2;
        if len + 2 > buf.len() - data_start {
            return ParseOutcome::Incomplete;
        }
        let data_end = data_start + len;
        if buf[data_end] != CR || buf[data_end + 1] != LF {
            return ParseOutcome::Invalid(owned("expected CRLF after bulk data"));
        }
        let arg = copy_range(buf, data_start, data_end);
        proof {
            lemma_vec_args_push(args@, arg);
        }
        args.push(arg);
        pos = data_end + 2;
        i += 1;
    }
    ParseOutcome::Complete { args, consumed: pos }
}

fn parse_inline_command(buf: &[u8]) -> (r: ParseOutcome)
    requires
        buf.len() > 0,
    ensures
        outcome_parse(r) == parse_inline_spec(buf@),
        match r {
            ParseOutcome::Complete { consumed, .. } => 0 < consumed <= buf.len(),
            _ => true,
        },
{
    let crlf = match find_crlf(buf, 0) {
        None => {
            if buf.len() > MAX_INLINE_LEN {
                return ParseOutcome::Invalid(owned("inline command too long"));
            }
            return ParseOutcome::Incomplete;
        },
        Some(c) => c,
    };
    proof {
        lemma_find_crlf_props(buf@, 0);
    }
    let ghost line = buf@.take(crlf as int);
    let mut args: Vec<Vec<u8>> = Vec::new();
    let mut i: usize = 0;
    assert(line.skip(0) =~= line);
    assert(vec_args(args@) =~= Seq::<Seq<u8>>::empty());
    while i < crlf
        invariant
            i <= crlf,
            crlf + 1 < buf.len(),
            line == buf@.take(crlf as int),
            vec_args(args@) + inline_tokens(line.skip(i as int)) == inline_tokens(line),
        decreases crlf - i,
    {
        if buf[i] == SPACE {
            assert(line.skip(i as int).drop_first() =~= line.skip(i + 1));
            i += 1;
        } else {
            let mut j = i;
            while j < crlf && buf[j] != SPACE
                invariant
                    i <= j <= crlf,
                    crlf + 1 < buf.len(),
                    line == buf@.take(crlf as int),
                    word_len(line.skip(i as int)) == (j - i) + word_len(line.skip(j as int)),
                decreases crlf - j,
            {
                assert(line.skip(j as int).drop_first() =~= line.skip(j + 1));
                j += 1;
            }
            let word = copy_range(buf, i, j);
            proof {
                let s = line.skip(i as int);
                assert(word_len(line.skip(j as int)) == 0);
                lemma_word_len_bounds(s);
                assert(s.take(j - i) =~= word@);
                assert(s.skip(j - i) =~= line.skip(j as int));
                lemma_vec_args_push(args@, word);
                assert(vec_args(args@).push(word@) + inline_tokens(line.skip(j as int))
                    =~= vec_args(args@) + inline_tokens(s));
            }
            args.push(word);
            i = j;
        }
    }
    assert(line.skip(crlf as int) =~= Seq::<u8>::empty());
    assert(vec_args(args@) + Seq::<Seq<u8>>::empty() =~= vec_args(args@));
    ParseOutcome::Complete { args, consumed: crlf + 2 }
}

/// One argument on the wire: `$<len>\r\n<bytes>\r\n`.
pub open spec fn bulk_frame(a: Seq<u8>) -> Seq<u8> {
    seq![DOLLAR] + nat_text(a.len()) + crlf() + a + crlf()
}

pub open spec fn frames(args: Seq<Seq<u8>>) -> Seq<u8>
    decreases args.len(),
{
    if args.len() == 0 {
        Seq::empty()
    } else {
        frames(args.drop_last()) + bulk_frame(args.last())
    }
}

/// A command on the wire: an array of bulk strings.
pub open spec fn encode_spec(args: Seq<Seq<u8>>) -> Seq<u8> {
    seq![STAR] + nat_text(args.len()) + crlf() + frames(args)
}

pub open spec fn slice_args(args: Seq<&[u8]>) -> Seq<Seq<u8>> {
    args.map_values(|a: &[u8]| a@)
}

/// Encode a command as an array of bulk strings, appending to `out`.
/// Binary-safe: every argument carries an explicit length.
pub fn encode_command_into(args: &[&[u8]], out: &mut Vec<u8>)
    ensures
        final(out)@ == old(out)@ + encode_spec(slice_args(args@)),
{
    let ghost start = out@;
    out.push(STAR);
    push_u64_text(out, args.len() as u64);
    out.push(CR);
    out.push(LF);
    let ghost header = out@;
    let mut i: usize = 0;
    while i < args.len()
        invariant
            i <= args.len(),
            header == start + seq![STAR] + nat_text(args.len() as nat) + crlf(),
            out@ == header + frames(slice_args(args@.take(i as int))),
        decreases args.len() - i,
    {
        let arg = args[i];
        out.push(DOLLAR);
        push_u64_text(out, arg.len() as u64);
        out.push(CR);
        out.push(LF);
        push_all(out, arg);
        out.push(CR);
        out.push(LF);
        proof {
            let t = slice_args(args@.take(i + 1));
            assert(t.drop_last() =~= slice_args(args@.take(i as int)));
            assert(t.last() == arg@);
            assert(out@ =~= header + frames(t));
        }
        i += 1;
    }
    assert(args@.take(args.len() as int) =~= args@);
    assert(final(out)@ =~= old(out)@ + encode_spec(slice_args(args@)));
}

/// [`encode_command_into`] into a fresh buffer.
pub fn encode_command(args: &[&[u8]]) -> (v: Vec<u8>)
    ensures
        v@ == encode_spec(slice_args(args@)),
{
    let mut out: Vec<u8> = Vec::new();
    encode_command_into(args, &mut out);
    assert(out@ =~= encode_spec(slice_args(args@)));
    out
}

pub proof fn lemma_frames_concat(a: Seq<Seq<u8>>, b: Seq<Seq<u8>>)
    ensures
        frames(a + b) == frames(a) + frames(b),
    decreases b.len(),
{
    if b.len() == 0 {
        assert(a + b =~= a);
        assert(frames(a) + frames(b) =~= frames(a));
    } else {
        lemma_frames_concat(a, b.drop_last());
        assert((a + b).drop_last() =~= a + b.drop_last());
        assert(frames(a) + frames(b) =~= frames(a) + frames(b.drop_last()) + bulk_frame(
            b.last(),
        ));
    }
}

proof fn lemma_digits_free(n: nat)
    ensures
        crlf_free(nat_text(n)),
{
    lemma_nat_text(n);
    let t = nat_text(n);
    assert forall|i: int| 0 <= i < t.len() - 1 implies !(t[i] == CR && #[trigger] t[i + 1]
        == LF) by {
        assert(crate::decimal::is_digit(t[i]));
    }
}

/// Reading one argument frame back from the middle of a buffer.
proof fn lemma_bulk_frame_parse(q: Seq<u8>, a: Seq<u8>, after: Seq<u8>, remaining: int, acc: Seq<Seq<u8>>)
    requires
        a.len() <= MAX_BULK_LEN,
        remaining > 0,
    ensures
        parse_bulks_spec(q + bulk_frame(a) + after, q.len() as int, remaining, acc)
            == parse_bulks_spec(
            q + bulk_frame(a) + after,
            (q.len() + bulk_frame(a).len()) as int,
            remaining - 1,
            acc.push(a),
        ),
{
    let buf = q + bulk_frame(a) + after;
    let p = q.len() as int;
    let line = nat_text(a.len());
    lemma_digits_free(a.len());
    lemma_nat_text(a.len());
    let tail = a + crlf() + after;
    assert(buf =~= q + seq![DOLLAR] + line + crlf() + tail);
    lemma_find_crlf_after(q + seq![DOLLAR], line, tail);
    assert(buf.subrange(p + 1, p + 1 + line.len()) =~= line);
    crate::decimal::lemma_parse_nat_text(a.len() as u64);
    let ds = p + 1 + line.len() + 2;
    assert(buf.subrange(ds, ds + a.len()) =~= a);
    assert(buf[ds + a.len()] == CR);
    assert(buf[ds + a.len() + 1] == LF);
}

proof fn lemma_bulks_round_trip(args: Seq<Seq<u8>>, k: int, start: Seq<u8>, rest: Seq<u8>)
    requires
        0 <= k <= args.len(),
        forall|i: int| 0 <= i < args.len() ==> (#[trigger] args[i]).len() <= MAX_BULK_LEN,
    ensures
        parse_bulks_spec(
            start + frames(args) + rest,
            (start.len() + frames(args.take(k)).len()) as int,
            args.len() - k,
            args.take(k),
        ) == CommandParse::Complete(args, (start.len() + frames(args).len()) as int),
    decreases args.len() - k,
{
    if k == args.len() {
        assert(args.take(k) =~= args);
    } else {
        let q = start + frames(args.take(k));
        let after = frames(args.skip(k + 1)) + rest;
        assert(args.take(k + 1).drop_last() =~= args.take(k));
        assert(args =~= args.take(k + 1) + args.skip(k + 1));
        lemma_frames_concat(args.take(k + 1), args.skip(k + 1));
        assert(start + frames(args) + rest =~= q + bulk_frame(args[k]) + after);
        lemma_bulk_frame_parse(q, args[k], after, args.len() - k, args.take(k));
        assert(args.take(k).push(args[k]) =~= args.take(k + 1));
        lemma_bulks_round_trip(args, k + 1, start, rest);
    }
}

/// What the encoder writes, the command parser reads back: the same
/// arguments, consuming exactly the encoded bytes and nothing after them.
pub proof fn lemma_command_round_trip(args: Seq<Seq<u8>>, rest: Seq<u8>)
    requires
        args.len() <= MAX_ARRAY_LEN,
        forall|i: int| 0 <= i < args.len() ==> (#[trigger] args[i]).len() <= MAX_BULK_LEN,
    ensures
        parse_command_spec(encode_spec(args) + rest) == CommandParse::Complete(
            args,
            encode_spec(args).len() as int,
        ),
{
    let buf = encode_spec(args) + rest;
    let line = nat_text(args.len());
    lemma_digits_free(args.len());
    lemma_nat_text(args.len());
    let tail = frames(args) + rest;
    assert(buf =~= seq![STAR] + line + crlf() + tail);
    lemma_find_crlf_after(seq![STAR], line, tail);
    assert(buf.subrange(1, (1 + line.len()) as int) =~= line);
    crate::decimal::lemma_parse_nat_text(args.len() as u64);
    let start = seq![STAR] + line + crlf();
    assert(buf =~= start + frames(args) + rest);
    assert(args.take(0) =~= Seq::<Seq<u8>>::empty());
    lemma_bulks_round_trip(args, 0, start, rest);
}

} // verus!
