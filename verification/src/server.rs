//! The decisions of the server around its sockets: where backends connect,
//! the byte budget the settings ask for, serving one buffered command at a
//! time, when a connection's output is too far behind, how a flush ends, and
//! the watchdog's strike count.

use vstd::prelude::*;
use crate::clock::Instant;
use crate::command::{parse_command, parse_command_spec, vec_args, CommandParse, ParseOutcome};
use crate::dispatch::{args_charge, dispatch, dispatch_post, password_view, ConnState};
use crate::reply::{wire, Reply, ReplyModel};
use crate::store::Store;
use crate::text::{is_word, owned, push_char, push_text, utf8_encode};
use crate::sql::nat_chars;

verus! {

/// Most reply bytes a connection may owe before it is dropped.
pub const MAX_PENDING_WRITE_BYTES: usize = 67108864;

/// Consecutive failed probes before the watchdog restarts the worker.
pub const WATCHDOG_STRIKES: u32 = 3;

/// Keys one idle tick of the event loop sweeps for expiry.
pub const ACTIVE_EXPIRE_SAMPLE_SIZE: usize = 20;

/// The host a backend connects to for a listen address: the wildcard
/// addresses (and an empty one) mean loopback of the same family.
pub open spec fn connect_host(bind: Seq<char>) -> Seq<char> {
    if bind == "0.0.0.0"@ || bind == ""@ {
        "127.0.0.1"@
    } else if bind == "::"@ || bind == "[::]"@ || bind == "::0"@ {
        "::1"@
    } else {
        bind
    }
}

/// Decimal text of an `i32`.
pub open spec fn int_chars(n: int) -> Seq<char> {
    if n < 0 {
        seq!['-'] + nat_chars((-n) as nat)
    } else {
        nat_chars(n as nat)
    }
}

/// `host:port`, with a bare IPv6 host put in brackets.
pub open spec fn connect_addr(host: Seq<char>, port: i32) -> Seq<char> {
    if host.contains(':') && !(host.len() > 0 && host[0] == '[') {
        "["@ + host + "]:"@ + int_chars(port as int)
    } else {
        host + ":"@ + int_chars(port as int)
    }
}

fn push_int(s: &mut String, n: i32)
    ensures
        final(s)@ == old(s)@ + int_chars(n as int),
{
    let mut digits: Vec<u8> = Vec::new();
    if n < 0 {
        push_char(s, '-');
    }
    let mag: u64 = if n < 0 {
        (0i64 - n as i64) as u64
    } else {
        n as u64
    };
    crate::decimal::push_u64_text(&mut digits, mag);
    let ghost mid = s@;
    let mut i: usize = 0;
    while i < digits.len()
        invariant
            i <= digits.len(),
            digits@ == Seq::<u8>::empty() + crate::decimal::nat_text(mag as nat),
            s@ == mid + nat_chars(mag as nat).take(i as int),
        decreases digits.len() - i,
    {
        push_char(s, digits[i] as char);
        i += 1;
        assert(s@ =~= mid + nat_chars(mag as nat).take(i as int));
    }
    assert(nat_chars(mag as nat).take(digits.len() as int) =~= nat_chars(mag as nat));
    assert(s@ =~= old(s)@ + int_chars(n as int));
}

fn contains_colon(s: &String) -> (b: bool)
    ensures
        b == s@.contains(':'),
{
    let t = s.as_str();
    let n = vstd::string::StrSliceExecFns::unicode_len(t);
    let mut i: usize = 0;
    while i < n
        invariant
            n == s@.len(),
            t@ == s@,
            i <= n,
            forall|j: int| 0 <= j < i ==> s@[j] != ':',
        decreases n - i,
    {
        if vstd::string::StrSliceExecFns::get_char(t, i) == ':' {
            return true;
        }
        i += 1;
    }
    false
}

/// Where a backend should connect to reach the server, and the password to
/// send (none when empty): `bind` is the listen address (loopback when
/// unset).
pub fn loopback_target(bind: Option<String>, port: i32, password: Option<Vec<u8>>) -> (r: (
    String,
    Option<Vec<u8>>,
))
    ensures
        r.0@ == connect_addr(
            connect_host(
                match bind {
                    Some(b) => b@,
                    None => "127.0.0.1"@,
                },
            ),
            port,
        ),
        r.1 == crate::client::normalize_password_spec(password),
{
    let b = match bind {
        Some(b) => b,
        None => owned("127.0.0.1"),
    };
    let host = if is_word(&b, "0.0.0.0") || is_word(&b, "") {
        owned("127.0.0.1")
    } else if is_word(&b, "::") || is_word(&b, "[::]") || is_word(&b, "::0") {
        owned("::1")
    } else {
        b
    };
    let bracketed = contains_colon(&host) && !(vstd::string::StrSliceExecFns::unicode_len(
        host.as_str(),
    ) > 0 && vstd::string::StrSliceExecFns::get_char(host.as_str(), 0) == '[');
    let mut addr = String::new();
    if bracketed {
        push_text(&mut addr, "[");
        push_text(&mut addr, host.as_str());
        push_text(&mut addr, "]:");
    } else {
        push_text(&mut addr, host.as_str());
        push_text(&mut addr, ":");
    }
    push_int(&mut addr, port);
    proof {
        assert(Seq::<char>::empty() + "["@ =~= "["@);
        assert(Seq::<char>::empty() + host@ =~= host@);
    }
    (addr, crate::client::normalize_password(password))
}

/// The byte budget the settings ask for: none when the size is not
/// positive or eviction is off, otherwise the size in MiB as bytes
/// (capped at the largest `usize`).
pub open spec fn budget_spec(max_memory_mb: i32, eviction: Seq<char>) -> Option<usize> {
    if max_memory_mb <= 0 || eviction == "noeviction"@ {
        None
    } else if max_memory_mb * 1048576 > usize::MAX {
        Some(usize::MAX)
    } else {
        Some((max_memory_mb * 1048576) as usize)
    }
}

pub fn budget_from_settings(max_memory_mb: i32, eviction: &String) -> (b: Option<usize>)
    ensures
        b == budget_spec(max_memory_mb, eviction@),
{
    if max_memory_mb <= 0 || is_word(eviction, "noeviction") {
        return None;
    }
    let mb = max_memory_mb as usize;
    match mb.checked_mul(1048576) {
        Some(v) => Some(v),
        None => Some(usize::MAX),
    }
}

/// Whether `a` equals `b` ignoring ASCII case.
pub open spec fn ascii_lower(c: u8) -> u8 {
    if 65 <= c <= 90 {
        (c + 32) as u8
    } else {
        c
    }
}

pub open spec fn eq_ignore_ascii_case(a: Seq<u8>, b: Seq<u8>) -> bool {
    a.len() == b.len() && forall|i: int| 0 <= i < a.len() ==> ascii_lower(a[i]) == ascii_lower(b[i])
}

fn is_quit(a: &[u8]) -> (b: bool)
    ensures
        b == eq_ignore_ascii_case(a@, seq![81u8, 85u8, 73u8, 84u8]),
{
    let q: [u8; 4] = [81, 85, 73, 84];
    if a.len() != 4 {
        return false;
    }
    let mut i: usize = 0;
    while i < 4
        invariant
            a.len() == 4,
            q@ == seq![81u8, 85u8, 73u8, 84u8],
            i <= 4,
            forall|j: int| 0 <= j < i ==> ascii_lower(a@[j]) == ascii_lower(q@[j]),
        decreases 4 - i,
    {
        let x = a[i];
        let lx = if 65 <= x && x <= 90 {
            x + 32
        } else {
            x
        };
        let y = q[i];
        let ly = if 65 <= y && y <= 90 {
            y + 32
        } else {
            y
        };
        if lx != ly {
            return false;
        }
        i += 1;
    }
    true
}

/// What serving one buffered command leads to.
#[derive(Debug, Clone, Copy, PartialEq, Eq)]
pub enum StepOutcome {
    /// The buffer holds no complete command yet.
    NeedMore,
    /// A command was served (or skipped, when empty); try the next.
    Continue,
    /// Close the connection once the output is flushed (QUIT, or a
    /// protocol error).
    Close,
}

pub open spec fn protocol_error_reply(msg: Seq<char>) -> ReplyModel {
    ReplyModel::Error(crate::bytes::text("ERR Protocol error: ") + utf8_encode(msg))
}

/// One step of serving a connection: take the first command from
/// `read_buf` and append its reply to `write_buf`.
pub open spec fn service_step_post(
    read0: Seq<u8>,
    read1: Seq<u8>,
    write0: Seq<u8>,
    write1: Seq<u8>,
    s0: Store,
    s1: Store,
    c0: bool,
    c1: bool,
    password: Option<Seq<u8>>,
    invalidations_lost: u64,
    sys_now_ms: i64,
    now: Instant,
    r: StepOutcome,
) -> bool {
    match parse_command_spec(read0) {
        CommandParse::Incomplete => r == StepOutcome::NeedMore && read1 == read0 && write1 == write0
            && s1 == s0 && c1 == c0,
        CommandParse::Invalid(m) => r == StepOutcome::Close && read1 == read0 && write1 == write0
            + wire(protocol_error_reply(m)) && s1 == s0 && c1 == c0,
        CommandParse::Complete(args, consumed) => {
            &&& read1 == read0.skip(consumed)
            &&& if args.len() == 0 {
                r == StepOutcome::Continue && write1 == write0 && s1 == s0 && c1 == c0
            } else if s0.used() + args_charge(args) > usize::MAX {
                r == StepOutcome::Close && write1 == write0 + wire(too_large_reply()) && s1 == s0
                    && c1 == c0
            } else {
                exists|reply: ReplyModel|
                    {
                        &&& dispatch_post(
                            s0,
                            s1,
                            c0,
                            c1,
                            sys_now_ms,
                            now,
                            args,
                            password,
                            invalidations_lost,
                            reply,
                        )
                        &&& write1 == write0 + wire(reply)
                        &&& r == (if eq_ignore_ascii_case(args[0], seq![81u8, 85u8, 73u8, 84u8]) {
                            StepOutcome::Close
                        } else {
                            StepOutcome::Continue
                        })
                    }
            }
        },
    }
}

/// The service loop serves the whole read buffer: a step that goes on
/// has taken at least one byte off the front of it, so the loop ends; and a
/// step that waits for more leaves the buffer holding exactly an incomplete
/// command, every complete one before it having been served.
pub proof fn lemma_service_step_progress(
    read0: Seq<u8>,
    read1: Seq<u8>,
    write0: Seq<u8>,
    write1: Seq<u8>,
    s0: Store,
    s1: Store,
    c0: bool,
    c1: bool,
    password: Option<Seq<u8>>,
    invalidations_lost: u64,
    sys_now_ms: i64,
    now: Instant,
    r: StepOutcome,
)
    requires
        service_step_post(
            read0,
            read1,
            write0,
            write1,
            s0,
            s1,
            c0,
            c1,
            password,
            invalidations_lost,
            sys_now_ms,
            now,
            r,
        ),
    ensures
        r == StepOutcome::Continue ==> read1.len() < read0.len(),
        r == StepOutcome::NeedMore ==> read1 == read0 && parse_command_spec(read1) is Incomplete,
{
    crate::command::lemma_command_consumes(read0);
}

/// The reply for a command whose bytes the store's accounting cannot hold.
pub open spec fn too_large_reply() -> ReplyModel {
    ReplyModel::Error(crate::bytes::text("ERR command too large"))
}

fn charge_fits(store: &Store, args: &Vec<Vec<u8>>) -> (b: bool)
    ensures
        b == (store.used() + args_charge(vec_args(args@)) <= usize::MAX),
{
    let mut total: usize = store.used_bytes();
    let mut i: usize = 0;
    proof {
        assert(vec_args(args@).take(0) =~= Seq::<Seq<u8>>::empty());
    }
    while i < args.len()
        invariant
            i <= args.len(),
            total == store.used() + args_charge(vec_args(args@).take(i as int)),
        decreases args.len() - i,
    {
        proof {
            assert(vec_args(args@).take(i + 1).drop_last() =~= vec_args(args@).take(i as int));
            lemma_charge_prefix_mono(vec_args(args@), i as int);
        }
        let add = args[i].len();
        match total.checked_add(add) {
            Some(t1) => match t1.checked_add(116) {
                Some(t2) => {
                    total = t2;
                },
                None => {
                    return false;
                },
            },
            None => {
                return false;
            },
        }
        i += 1;
    }
    proof {
        assert(vec_args(args@).take(args.len() as int) =~= vec_args(args@));
    }
    true
}

proof fn lemma_charge_prefix_mono(args: Seq<Seq<u8>>, i: int)
    requires
        0 <= i < args.len(),
    ensures
        args_charge(args.take(i + 1)) <= args_charge(args),
    decreases args.len() - i,
{
    if i + 1 < args.len() {
        lemma_charge_prefix_mono(args, i + 1);
        assert(args.take(i + 2).drop_last() =~= args.take(i + 1));
    } else {
        assert(args.take(i + 1) =~= args);
    }
}

/// Serves the first command buffered in `read_buf`, appending its reply to
/// `write_buf`. `sys_now_ms` and `mono_now` are the clocks read for this
/// command.
pub fn service_step(
    read_buf: &mut Vec<u8>,
    write_buf: &mut Vec<u8>,
    store: &mut Store,
    conn: &mut ConnState,
    password: Option<&[u8]>,
    invalidations_lost: u64,
    sys_now_ms: i64,
    mono_now: Instant,
) -> (r: StepOutcome)
    requires
        old(store).wf(),
    ensures
        final(store).wf(),
        service_step_post(
            old(read_buf)@,
            final(read_buf)@,
            old(write_buf)@,
            final(write_buf)@,
            *old(store),
            *final(store),
            old(conn).authenticated,
            final(conn).authenticated,
            password_view(password),
            invalidations_lost,
            sys_now_ms,
            mono_now,
            r,
        ),
{
    let parsed = parse_command(read_buf.as_slice());
    match parsed {
        ParseOutcome::Incomplete => StepOutcome::NeedMore,
        ParseOutcome::Invalid(msg) => {
            let mut m: Vec<u8> = crate::bytes::text_bytes("ERR Protocol error: ");
            let mb = crate::text::into_bytes(msg);
            crate::bytes::push_all(&mut m, mb.as_slice());
            let reply = Reply::Error(m);
            reply.write_to(write_buf);
            StepOutcome::Close
        },
        ParseOutcome::Complete { args, consumed } => {
            let rest = crate::bytes::copy_range(read_buf.as_slice(), consumed, read_buf.len());
            *read_buf = rest;
            if args.len() == 0 {
                return StepOutcome::Continue;
            }
            if !charge_fits(store, &args) {
                let reply = Reply::Error(crate::bytes::text_bytes("ERR command too large"));
                reply.write_to(write_buf);
                return StepOutcome::Close;
            }
            let quit = is_quit(args[0].as_slice());
            let reply = dispatch(
                store,
                sys_now_ms,
                mono_now,
                args.as_slice(),
                conn,
                password,
                invalidations_lost,
            );
            reply.write_to(write_buf);
            if quit {
                StepOutcome::Close
            } else {
                StepOutcome::Continue
            }
        },
    }
}

/// Whether a connection owes more reply bytes than it may.
pub fn over_write_limit(write_len: usize, write_pos: usize) -> (b: bool)
    requires
        write_pos <= write_len,
    ensures
        b == (write_len - write_pos > MAX_PENDING_WRITE_BYTES),
{
    write_len - write_pos > MAX_PENDING_WRITE_BYTES
}

/// How an attempt to push buffered output to the socket ended.
#[derive(Debug, Clone, Copy, PartialEq, Eq)]
pub enum FlushOutcome {
    /// Everything buffered reached the kernel.
    Drained,
    /// The socket is full; the rest waits for writability.
    Pending,
    /// Unrecoverable; drop the connection.
    Failed,
}

/// What one write to the socket returned.
#[derive(Debug, Clone, Copy, PartialEq, Eq)]
pub enum WriteResult {
    Wrote(usize),
    WouldBlock,
    Interrupted,
    Failed,
}

/// The flush after one write: a write of zero bytes or an error fails,
/// `WouldBlock` leaves the rest pending, `Interrupted` retries, and a write
/// of `n` bytes moves the cursor on (`Ok` with the new position).
pub fn flush_step(pos: usize, len: usize, w: WriteResult) -> (r: Result<usize, FlushOutcome>)
    requires
        pos < len,
    ensures
        match w {
            WriteResult::Wrote(n) => if n == 0 {
                r == Err::<usize, FlushOutcome>(FlushOutcome::Failed)
            } else {
                r == Ok::<usize, FlushOutcome>(if pos + n > len {
                    len
                } else {
                    (pos + n) as usize
                })
            },
            WriteResult::WouldBlock => r == Err::<usize, FlushOutcome>(FlushOutcome::Pending),
            WriteResult::Interrupted => r == Ok::<usize, FlushOutcome>(pos),
            WriteResult::Failed => r == Err::<usize, FlushOutcome>(FlushOutcome::Failed),
        },
{
    match w {
        WriteResult::Wrote(n) => if n == 0 {
            Err(FlushOutcome::Failed)
        } else if n > len - pos {
            Ok(len)
        } else {
            Ok(pos + n)
        },
        WriteResult::WouldBlock => Err(FlushOutcome::Pending),
        WriteResult::Interrupted => Ok(pos),
        WriteResult::Failed => Err(FlushOutcome::Failed),
    }
}

/// Whether to keep a connection after a flush: a drained one unless it is
/// to close, a pending one always, a failed one never.
pub fn keep_after_flush(outcome: FlushOutcome, close_after_flush: bool) -> (b: bool)
    ensures
        b == match outcome {
            FlushOutcome::Drained => !close_after_flush,
            FlushOutcome::Pending => true,
            FlushOutcome::Failed => false,
        },
{
    match outcome {
        FlushOutcome::Drained => !close_after_flush,
        FlushOutcome::Pending => true,
        FlushOutcome::Failed => false,
    }
}

/// The write interest a connection should be registered with, when it
/// differs from the current one: wanted exactly while bytes are owed.
pub fn interest_update(write_pos: usize, write_len: usize, want_write: bool) -> (r: Option<bool>)
    ensures
        (write_pos < write_len) == want_write ==> r is None,
        (write_pos < write_len) != want_write ==> r == Some(write_pos < write_len),
{
    let needs = write_pos < write_len;
    if needs == want_write {
        None
    } else {
        Some(needs)
    }
}

/// How many probes at the end of `ps` failed in a row.
pub open spec fn trailing_failures(ps: Seq<bool>) -> nat
    decreases ps.len(),
{
    if ps.len() == 0 || ps.last() {
        0
    } else {
        trailing_failures(ps.drop_last()) + 1
    }
}

/// Whether the last `n` probes of `ps` all failed.
pub open spec fn ends_in_failures(ps: Seq<bool>, n: int) -> bool {
    ps.len() >= n && forall|i: int| ps.len() - n <= i < ps.len() ==> !#[trigger] ps[i]
}

/// Whole-run law of the watchdog: fed the probes `ps` one by one from zero
/// strikes (with no restart yet), the strikes are the failures since the
/// last success, and the next probe `p` restarts the worker exactly when it
/// makes `WATCHDOG_STRIKES` failures in a row.
pub proof fn lemma_watchdog_run(ps: Seq<bool>, p: bool)
    requires
        trailing_failures(ps) < WATCHDOG_STRIKES,
    ensures
        trailing_failures(ps.push(p)) == (if p {
            0
        } else {
            trailing_failures(ps) + 1
        }),
        (trailing_failures(ps.push(p)) >= WATCHDOG_STRIKES) == ends_in_failures(
            ps.push(p),
            WATCHDOG_STRIKES as int,
        ),
{
    let q = ps.push(p);
    assert(q.drop_last() =~= ps);
    assert(q.last() == p);
    lemma_trailing(q, WATCHDOG_STRIKES as int);
}

proof fn lemma_trailing(ps: Seq<bool>, n: int)
    requires
        n >= 0,
    ensures
        (trailing_failures(ps) >= n) == ends_in_failures(ps, n),
    decreases ps.len(),
{
    if n > 0 && ps.len() > 0 {
        let d = ps.drop_last();
        lemma_trailing(d, n - 1);
        if !ps.last() {
            if ends_in_failures(d, n - 1) {
                assert forall|i: int| ps.len() - n <= i < ps.len() implies !#[trigger] ps[i] by {
                    if i < ps.len() - 1 {
                        assert(ps[i] == d[i]);
                    }
                }
            }
            if ends_in_failures(ps, n) {
                assert forall|i: int| d.len() - (n - 1) <= i < d.len() implies !#[trigger] d[i] by {
                    assert(ps[i] == d[i]);
                }
            }
        } else {
            assert(!ends_in_failures(ps, n)) by {
                assert(ps[ps.len() - 1] == ps.last());
            }
        }
    } else if n > 0 {
        assert(!ends_in_failures(ps, n));
    }
}

/// The watchdog after one probe: a success clears the strikes; a failure
/// adds one, and reaching `WATCHDOG_STRIKES` means restart.
pub fn watchdog_step(strikes: u32, probe_ok: bool) -> (r: (u32, bool))
    requires
        strikes < WATCHDOG_STRIKES,
    ensures
        probe_ok ==> r == (0u32, false),
        !probe_ok ==> r.0 == strikes + 1 && r.1 == (strikes + 1 >= WATCHDOG_STRIKES),
{
    if probe_ok {
        (0, false)
    } else {
        let s = strikes + 1;
        (s, s >= WATCHDOG_STRIKES)
    }
}

} // verus!
