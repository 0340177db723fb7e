//! Command dispatch: one parsed command (its arguments as byte strings) in,
//! one reply out, against the store and the connection's state. Every path
//! returns a reply; unknown commands get a well-formed error.

use vstd::prelude::*;
use vstd::string::StringSliceAdditionalSpecFns;
use crate::bytes::{copy_bytes, crlf, push_all, text, CR, LF};
use crate::clock::Instant;
use crate::decimal::{parse_i64_bytes, parse_i64_spec};
use crate::reply::{Reply, ReplyModel};
use crate::store::{
    bump, count_present, counted_read, entry_cost, expire_post, get_ex_contents, incr_post,
    lists_live_keys, lookup, mset_post, opt_view, pairs_cost, persist_post, present, present_among,
    purge, purge_all, random_key_post, same_books, scan_post, set_post, Condition, EntryModel,
    Expiry, IncrError, SetOutcome, Store,
};
use crate::command::{slice_args, vec_args};
use crate::decimal::{nat_text, parse_u64_bytes, parse_u64_spec, push_u64_text};
use crate::glob::{glob_match, glob_spec};
use crate::reply::reply_models;
use crate::text::{from_utf8_lossy, into_bytes, is_word, lossy_text, to_uppercase, upper_text, utf8_encode};

verus! {

/// Per-connection state that commands read and change.
pub struct ConnState {
    pub authenticated: bool,
}

impl Default for ConnState {
    /// A fresh connection: not yet authenticated.
    fn default() -> (c: ConnState)
        ensures
            !c.authenticated,
    {
        ConnState { authenticated: false }
    }
}

/// Byte-wise equality that looks at every byte whatever it finds, so the
/// time taken does not reveal where two equal-length inputs differ.
fn constant_time_eq(a: &[u8], b: &[u8]) -> (r: bool)
    ensures
        r == (a@ == b@),
{
    if a.len() != b.len() {
        return false;
    }
    let mut diff: u8 = 0;
    let mut i: usize = 0;
    while i < a.len()
        invariant
            i <= a.len() == b.len(),
            diff == 0 <==> forall|j: int| 0 <= j < i ==> a@[j] == b@[j],
        decreases a.len() - i,
    {
        let x = a[i];
        let y = b[i];
        let d = diff;
        assert((d | (x ^ y)) == 0 <==> (d == 0 && x == y)) by (bit_vector);
        diff = diff | (x ^ y);
        i += 1;
    }
    assert(diff == 0 ==> a@ =~= b@);
    diff == 0
}

/// The command word: the argument decoded as UTF-8 (lossily) and
/// upper-cased.
pub open spec fn word_of(arg: Seq<u8>) -> Seq<char> {
    upper_text(lossy_text(arg))
}

fn upper(bytes: &[u8]) -> (s: String)
    ensures
        s@ == word_of(bytes@),
{
    let t = from_utf8_lossy(bytes);
    to_uppercase(t.as_str())
}

/// The UTF-8 bytes of the lossy decoding of `b`, as error messages quote it.
pub open spec fn quoted(b: Seq<u8>) -> Seq<u8> {
    utf8_encode(lossy_text(b))
}

fn lossy_bytes(b: &[u8]) -> (r: Vec<u8>)
    ensures
        r@ == quoted(b@),
{
    into_bytes(from_utf8_lossy(b))
}

pub open spec fn simple_text(t: &str) -> ReplyModel {
    ReplyModel::Simple(text(t))
}

pub open spec fn error_text(t: &str) -> ReplyModel {
    ReplyModel::Error(text(t))
}

pub open spec fn ok_reply() -> ReplyModel {
    ReplyModel::Simple(seq![79u8, 75u8])
}

pub open spec fn bulk_or_nil(v: Option<Seq<u8>>) -> ReplyModel {
    ReplyModel::Bulk(v)
}

pub open spec fn wrong_args(cmd: &str) -> ReplyModel {
    ReplyModel::Error(
        text("ERR wrong number of arguments for '") + text(cmd) + text("' command"),
    )
}

pub open spec fn invalid_expire(cmd: &str) -> ReplyModel {
    ReplyModel::Error(text("ERR invalid expire time in '") + text(cmd) + text("' command"))
}

pub open spec fn syntax_error() -> ReplyModel {
    error_text("ERR syntax error")
}

pub open spec fn not_integer() -> ReplyModel {
    error_text("ERR value is not an integer or out of range")
}

fn err_text(t: &str) -> (r: Reply)
    ensures
        r@ == error_text(t),
{
    Reply::error(t.as_bytes())
}

fn err_wrong_args(cmd: &str) -> (r: Reply)
    ensures
        r@ == wrong_args(cmd),
{
    let mut m: Vec<u8> = Vec::new();
    push_all(&mut m, "ERR wrong number of arguments for '".as_bytes());
    push_all(&mut m, cmd.as_bytes());
    push_all(&mut m, "' command".as_bytes());
    Reply::Error(m)
}

fn err_syntax() -> (r: Reply)
    ensures
        r@ == syntax_error(),
{
    err_text("ERR syntax error")
}

fn err_not_integer() -> (r: Reply)
    ensures
        r@ == not_integer(),
{
    err_text("ERR value is not an integer or out of range")
}

fn err_invalid_expire(cmd: &str) -> (r: Reply)
    ensures
        r@ == invalid_expire(cmd),
{
    let mut m: Vec<u8> = Vec::new();
    push_all(&mut m, "ERR invalid expire time in '".as_bytes());
    push_all(&mut m, cmd.as_bytes());
    push_all(&mut m, "' command".as_bytes());
    Reply::Error(m)
}

fn bulk_opt(v: Option<Vec<u8>>) -> (r: Reply)
    ensures
        r@ == bulk_or_nil(crate::store::opt_view(v)),
{
    Reply::Bulk(v)
}

/// The monotonic deadline for a target wall-clock time given in
/// milliseconds since the Unix epoch: `mono_now` itself when the target is
/// not after `sys_now_ms`, otherwise `mono_now` plus the difference.
pub open spec fn absolute_deadline(sys_now_ms: i64, mono_now: Instant, target_ms: i64) -> Instant {
    if target_ms <= sys_now_ms {
        mono_now
    } else {
        Instant {
            nanos: crate::clock::sat_add(
                mono_now.nanos as int,
                (target_ms - sys_now_ms) * crate::clock::NANOS_PER_MILLI,
            ),
        }
    }
}

fn resolve_absolute_deadline(sys_now_ms: i64, mono_now: Instant, target_ms: i64) -> (d: Instant)
    ensures
        d == absolute_deadline(sys_now_ms, mono_now, target_ms),
{
    if target_ms <= sys_now_ms {
        mono_now
    } else {
        let diff: i128 = target_ms as i128 - sys_now_ms as i128;
        mono_now.plus_millis(diff as u64)
    }
}

/// How a relative or absolute expiry option turns a positive `n` into a
/// deadline: seconds or milliseconds from `now`, or an epoch time in
/// seconds (scaled to milliseconds, saturating) or milliseconds.
pub open spec fn option_deadline(unit: Seq<char>, sys_now_ms: i64, now: Instant, n: i64) -> Instant {
    if unit == "EX"@ {
        Instant { nanos: crate::clock::sat_add(now.nanos as int, n * crate::clock::NANOS_PER_SEC) }
    } else if unit == "PX"@ {
        Instant { nanos: crate::clock::sat_add(now.nanos as int, n * crate::clock::NANOS_PER_MILLI) }
    } else if unit == "EXAT"@ {
        absolute_deadline(
            sys_now_ms,
            now,
            if n * 1000 > i64::MAX {
                i64::MAX
            } else {
                (n * 1000) as i64
            },
        )
    } else {
        absolute_deadline(sys_now_ms, now, n)
    }
}

/// EXAT counts in Unix seconds: `EXAT n` is the moment `PXAT n * 1000` is
/// (the product held at `i64::MAX`); and when that moment is after the wall
/// clock it is `PX` of the milliseconds still to go, counted from `now`.
pub proof fn lemma_exat_is_seconds(sys_now_ms: i64, now: Instant, n: i64)
    requires
        n > 0,
    ensures
        option_deadline("EXAT"@, sys_now_ms, now, n) == option_deadline(
            "PXAT"@,
            sys_now_ms,
            now,
            if n > i64::MAX / 1000 {
                i64::MAX
            } else {
                (n * 1000) as i64
            },
        ),
        sys_now_ms >= 0 && n <= i64::MAX / 1000 && n * 1000 > sys_now_ms ==> option_deadline(
            "EXAT"@,
            sys_now_ms,
            now,
            n,
        ) == option_deadline("PX"@, sys_now_ms, now, (n * 1000 - sys_now_ms) as i64),
        n <= i64::MAX / 1000 && n * 1000 <= sys_now_ms ==> option_deadline(
            "EXAT"@,
            sys_now_ms,
            now,
            n,
        ) == now,
{
    reveal_strlit("EX");
    reveal_strlit("PX");
    reveal_strlit("EXAT");
    reveal_strlit("PXAT");
    assert("EXAT"@.len() != "EX"@.len() && "EXAT"@.len() != "PX"@.len());
    assert("PXAT"@.len() != "EX"@.len() && "PXAT"@.len() != "PX"@.len());
    assert("PXAT"@[0] != "EXAT"@[0]);
    assert("PX"@[0] != "EX"@[0]);
    assert(n > i64::MAX / 1000 <==> n * 1000 > i64::MAX);
    if sys_now_ms >= 0 && n <= i64::MAX / 1000 && n * 1000 > sys_now_ms {
        let t = (n * 1000) as i64;
        assert(t == n * 1000);
        let d = (n * 1000 - sys_now_ms) as i64;
        assert(d == t - sys_now_ms);
        assert(option_deadline("EXAT"@, sys_now_ms, now, n) == absolute_deadline(sys_now_ms, now, t));
        assert(option_deadline("PX"@, sys_now_ms, now, d) == Instant {
            nanos: crate::clock::sat_add(now.nanos as int, d * crate::clock::NANOS_PER_MILLI),
        });
    }
}

pub open spec fn is_expiry_unit(w: Seq<char>) -> bool {
    w == "EX"@ || w == "PX"@ || w == "EXAT"@ || w == "PXAT"@
}

fn deadline_for(unit: &String, sys_now_ms: i64, now: Instant, n: i64) -> (d: Instant)
    requires
        n > 0,
        is_expiry_unit(unit@),
    ensures
        d == option_deadline(unit@, sys_now_ms, now, n),
{
    if is_word(unit, "EX") {
        now.plus_secs(n as u64)
    } else if is_word(unit, "PX") {
        now.plus_millis(n as u64)
    } else if is_word(unit, "EXAT") {
        let ms = if n > i64::MAX / 1000 {
            i64::MAX
        } else {
            n * 1000
        };
        resolve_absolute_deadline(sys_now_ms, now, ms)
    } else {
        resolve_absolute_deadline(sys_now_ms, now, n)
    }
}

/// SET's trailing options, as far as they are decided.
pub struct SetOptions {
    /// `None` while no expiry option has been seen.
    pub expiry: Option<Expiry>,
    pub condition: Condition,
    pub want_get: bool,
}

pub open spec fn no_set_options() -> SetOptions {
    SetOptions { expiry: None, condition: Condition::Always, want_get: false }
}

/// SET's options from index `i` on, given what the earlier ones decided:
/// NX and XX exclude each other, as do EX, PX, EXAT, PXAT and KEEPTTL;
/// GET stands alone. An expiry needs a positive integer after it.
pub open spec fn set_options_from(
    sys_now_ms: i64,
    now: Instant,
    opts: Seq<Seq<u8>>,
    i: int,
    acc: SetOptions,
) -> Result<SetOptions, ReplyModel>
    decreases opts.len() - i,
{
    if i < 0 || i >= opts.len() {
        Ok(acc)
    } else {
        let w = word_of(opts[i]);
        if w == "NX"@ || w == "XX"@ {
            if acc.condition != Condition::Always {
                Err(syntax_error())
            } else {
                set_options_from(
                    sys_now_ms,
                    now,
                    opts,
                    i + 1,
                    SetOptions {
                        condition: if w == "NX"@ {
                            Condition::IfNotExists
                        } else {
                            Condition::IfExists
                        },
                        ..acc
                    },
                )
            }
        } else if w == "GET"@ {
            set_options_from(sys_now_ms, now, opts, i + 1, SetOptions { want_get: true, ..acc })
        } else if w == "KEEPTTL"@ {
            if acc.expiry is Some {
                Err(syntax_error())
            } else {
                set_options_from(
                    sys_now_ms,
                    now,
                    opts,
                    i + 1,
                    SetOptions { expiry: Some(Expiry::KeepTtl), ..acc },
                )
            }
        } else if is_expiry_unit(w) {
            if acc.expiry is Some || i + 1 >= opts.len() {
                Err(syntax_error())
            } else {
                match parse_i64_spec(opts[i + 1]) {
                    None => Err(not_integer()),
                    Some(n) => if n <= 0 {
                        Err(invalid_expire("set"))
                    } else {
                        set_options_from(
                            sys_now_ms,
                            now,
                            opts,
                            i + 2,
                            SetOptions {
                                expiry: Some(Expiry::At(option_deadline(w, sys_now_ms, now, n))),
                                ..acc
                            },
                        )
                    },
                }
            }
        } else {
            Err(syntax_error())
        }
    }
}

pub open spec fn set_options_spec(sys_now_ms: i64, now: Instant, opts: Seq<Seq<u8>>) -> Result<
    SetOptions,
    ReplyModel,
> {
    set_options_from(sys_now_ms, now, opts, 0, no_set_options())
}

/// One SET option: a word that takes no value (NX, XX, GET, KEEPTTL, or any
/// other word), or an expiry unit followed by its value.
pub open spec fn option_group(g: Seq<Seq<u8>>) -> bool {
    ||| g.len() == 1 && !is_expiry_unit(word_of(g[0]))
    ||| g.len() == 2 && is_expiry_unit(word_of(g[0]))
}

/// What one option does to the options decided so far.
pub open spec fn option_step(
    sys_now_ms: i64,
    now: Instant,
    g: Seq<Seq<u8>>,
    acc: SetOptions,
) -> Result<SetOptions, ReplyModel> {
    let w = word_of(g[0]);
    if w == "NX"@ || w == "XX"@ {
        if acc.condition != Condition::Always {
            Err(syntax_error())
        } else {
            Ok(
                SetOptions {
                    condition: if w == "NX"@ {
                        Condition::IfNotExists
                    } else {
                        Condition::IfExists
                    },
                    ..acc
                },
            )
        }
    } else if w == "GET"@ {
        Ok(SetOptions { want_get: true, ..acc })
    } else if w == "KEEPTTL"@ {
        if acc.expiry is Some {
            Err(syntax_error())
        } else {
            Ok(SetOptions { expiry: Some(Expiry::KeepTtl), ..acc })
        }
    } else if is_expiry_unit(w) {
        if acc.expiry is Some {
            Err(syntax_error())
        } else {
            match parse_i64_spec(g[1]) {
                None => Err(not_integer()),
                Some(n) => if n <= 0 {
                    Err(invalid_expire("set"))
                } else {
                    Ok(
                        SetOptions {
                            expiry: Some(Expiry::At(option_deadline(w, sys_now_ms, now, n))),
                            ..acc
                        },
                    )
                },
            }
        }
    } else {
        Err(syntax_error())
    }
}

/// The options `gs`, one after another, from `acc`.
pub open spec fn options_in_turn(
    sys_now_ms: i64,
    now: Instant,
    gs: Seq<Seq<Seq<u8>>>,
    acc: SetOptions,
) -> Result<SetOptions, ReplyModel>
    decreases gs.len(),
{
    if gs.len() == 0 {
        Ok(acc)
    } else {
        match option_step(sys_now_ms, now, gs[0], acc) {
            Ok(a) => options_in_turn(sys_now_ms, now, gs.drop_first(), a),
            Err(e) => Err(e),
        }
    }
}

/// The words of the options `gs`, one after another.
pub open spec fn option_words(gs: Seq<Seq<Seq<u8>>>) -> Seq<Seq<u8>>
    decreases gs.len(),
{
    if gs.len() == 0 {
        Seq::empty()
    } else {
        gs[0] + option_words(gs.drop_first())
    }
}

proof fn lemma_options_shift(
    sys_now_ms: i64,
    now: Instant,
    p: Seq<Seq<u8>>,
    r: Seq<Seq<u8>>,
    k: int,
    acc: SetOptions,
)
    requires
        0 <= k <= r.len(),
    ensures
        set_options_from(sys_now_ms, now, p + r, p.len() + k, acc) == set_options_from(
            sys_now_ms,
            now,
            r,
            k,
            acc,
        ),
    decreases r.len() - k,
{
    let x = p + r;
    if k < r.len() {
        assert(x[p.len() + k] == r[k]);
        if k + 1 < r.len() {
            assert(x[p.len() + k + 1] == r[k + 1]);
        }
        let w = word_of(r[k]);
        if w == "NX"@ || w == "XX"@ {
            if acc.condition == Condition::Always {
                lemma_options_shift(
                    sys_now_ms,
                    now,
                    p,
                    r,
                    k + 1,
                    SetOptions {
                        condition: if w == "NX"@ {
                            Condition::IfNotExists
                        } else {
                            Condition::IfExists
                        },
                        ..acc
                    },
                );
            }
        } else if w == "GET"@ {
            lemma_options_shift(sys_now_ms, now, p, r, k + 1, SetOptions { want_get: true, ..acc });
        } else if w == "KEEPTTL"@ {
            if acc.expiry is None {
                lemma_options_shift(
                    sys_now_ms,
                    now,
                    p,
                    r,
                    k + 1,
                    SetOptions { expiry: Some(Expiry::KeepTtl), ..acc },
                );
            }
        } else if is_expiry_unit(w) {
            if acc.expiry is None && k + 1 < r.len() {
                if let Some(n) = parse_i64_spec(r[k + 1]) {
                    if n > 0 {
                        lemma_options_shift(
                            sys_now_ms,
                            now,
                            p,
                            r,
                            k + 2,
                            SetOptions {
                                expiry: Some(Expiry::At(option_deadline(w, sys_now_ms, now, n))),
                                ..acc
                            },
                        );
                    }
                }
            }
        }
    }
}

/// The words that take no value are not expiry units.
proof fn lemma_plain_option_words()
    ensures
        !is_expiry_unit("NX"@),
        !is_expiry_unit("XX"@),
        !is_expiry_unit("GET"@),
        !is_expiry_unit("KEEPTTL"@),
{
    reveal_strlit("NX");
    reveal_strlit("XX");
    reveal_strlit("GET");
    reveal_strlit("KEEPTTL");
    reveal_strlit("EX");
    reveal_strlit("PX");
    reveal_strlit("EXAT");
    reveal_strlit("PXAT");
    assert("NX"@[0] != "EX"@[0] && "NX"@[0] != "PX"@[0]);
    assert("NX"@.len() != "EXAT"@.len() && "NX"@.len() != "PXAT"@.len());
    assert("XX"@[0] != "EX"@[0] && "XX"@[0] != "PX"@[0]);
    assert("XX"@.len() != "EXAT"@.len() && "XX"@.len() != "PXAT"@.len());
    assert("GET"@.len() != "EX"@.len() && "GET"@.len() != "PX"@.len());
    assert("GET"@.len() != "EXAT"@.len() && "GET"@.len() != "PXAT"@.len());
    assert("KEEPTTL"@.len() != "EX"@.len() && "KEEPTTL"@.len() != "PX"@.len());
    assert("KEEPTTL"@.len() != "EXAT"@.len() && "KEEPTTL"@.len() != "PXAT"@.len());
}

/// Reading the words of whole options in one go is reading them option by
/// option.
proof fn lemma_options_in_turn(
    sys_now_ms: i64,
    now: Instant,
    gs: Seq<Seq<Seq<u8>>>,
    acc: SetOptions,
)
    requires
        forall|i: int| 0 <= i < gs.len() ==> option_group(#[trigger] gs[i]),
    ensures
        set_options_from(sys_now_ms, now, option_words(gs), 0, acc) == options_in_turn(
            sys_now_ms,
            now,
            gs,
            acc,
        ),
    decreases gs.len(),
{
    lemma_plain_option_words();
    if gs.len() > 0 {
        let g = gs[0];
        let rest = gs.drop_first();
        assert(option_group(g));
        assert forall|i: int| 0 <= i < rest.len() implies option_group(#[trigger] rest[i]) by {
            assert(rest[i] == gs[i + 1]);
        }
        let x = g + option_words(rest);
        assert(option_words(gs) == x);
        assert(x[0] == g[0]);
        if g.len() == 2 {
            assert(x[1] == g[1]);
        }
        match option_step(sys_now_ms, now, g, acc) {
            Ok(a) => {
                lemma_options_shift(sys_now_ms, now, g, option_words(rest), 0, a);
                lemma_options_in_turn(sys_now_ms, now, rest, a);
                assert(set_options_from(sys_now_ms, now, x, 0, acc) == set_options_from(
                    sys_now_ms,
                    now,
                    x,
                    g.len() as int,
                    a,
                ));
            },
            Err(e) => {
                assert(set_options_from(sys_now_ms, now, x, 0, acc) == Err::<SetOptions, ReplyModel>(e));
            },
        }
    } else {
        assert(option_words(gs) =~= Seq::<Seq<u8>>::empty());
    }
}

/// Two options that both succeed, one after the other, give the same
/// result in the other order.
proof fn lemma_option_steps_commute(
    sys_now_ms: i64,
    now: Instant,
    g1: Seq<Seq<u8>>,
    g2: Seq<Seq<u8>>,
    acc: SetOptions,
)
    requires
        option_group(g1),
        option_group(g2),
        option_step(sys_now_ms, now, g1, acc) is Ok,
        option_step(sys_now_ms, now, g2, option_step(sys_now_ms, now, g1, acc)->Ok_0) is Ok,
    ensures
        option_step(sys_now_ms, now, g2, acc) is Ok,
        option_step(sys_now_ms, now, g1, option_step(sys_now_ms, now, g2, acc)->Ok_0)
            == option_step(sys_now_ms, now, g2, option_step(sys_now_ms, now, g1, acc)->Ok_0),
{
}

/// Option order: where SET's options, read in turn, succeed, swapping two
/// neighbouring options gives the same result; so any order of the same
/// options does.
pub proof fn lemma_set_options_order(
    sys_now_ms: i64,
    now: Instant,
    gs: Seq<Seq<Seq<u8>>>,
    i: int,
)
    requires
        forall|j: int| 0 <= j < gs.len() ==> option_group(#[trigger] gs[j]),
        0 <= i < gs.len() - 1,
        set_options_spec(sys_now_ms, now, option_words(gs)) is Ok,
    ensures
        set_options_spec(sys_now_ms, now, option_words(gs.update(i, gs[i + 1]).update(i + 1, gs[i])))
            == set_options_spec(sys_now_ms, now, option_words(gs)),
{
    let hs = gs.update(i, gs[i + 1]).update(i + 1, gs[i]);
    assert forall|j: int| 0 <= j < hs.len() implies option_group(#[trigger] hs[j]) by {
        if j == i {
            assert(hs[j] == gs[i + 1]);
        } else if j == i + 1 {
            assert(hs[j] == gs[i]);
        } else {
            assert(hs[j] == gs[j]);
        }
    }
    lemma_options_in_turn(sys_now_ms, now, gs, no_set_options());
    lemma_options_in_turn(sys_now_ms, now, hs, no_set_options());
    lemma_swap_in_turn(sys_now_ms, now, gs, i, no_set_options());
}

proof fn lemma_swap_in_turn(
    sys_now_ms: i64,
    now: Instant,
    gs: Seq<Seq<Seq<u8>>>,
    i: int,
    acc: SetOptions,
)
    requires
        forall|j: int| 0 <= j < gs.len() ==> option_group(#[trigger] gs[j]),
        0 <= i < gs.len() - 1,
        options_in_turn(sys_now_ms, now, gs, acc) is Ok,
    ensures
        options_in_turn(sys_now_ms, now, gs.update(i, gs[i + 1]).update(i + 1, gs[i]), acc)
            == options_in_turn(sys_now_ms, now, gs, acc),
    decreases i,
{
    let hs = gs.update(i, gs[i + 1]).update(i + 1, gs[i]);
    let s1 = option_step(sys_now_ms, now, gs[0], acc);
    assert(s1 is Ok);
    if i == 0 {
        let a1 = s1->Ok_0;
        let r1 = gs.drop_first();
        assert(option_group(gs[0]) && option_group(gs[1]));
        assert(r1[0] == gs[1]);
        let s12 = option_step(sys_now_ms, now, gs[1], a1);
        assert(s12 is Ok);
        lemma_option_steps_commute(sys_now_ms, now, gs[0], gs[1], acc);
        let a2 = option_step(sys_now_ms, now, gs[1], acc)->Ok_0;
        assert(hs[0] == gs[1]);
        assert(hs.drop_first()[0] == gs[0]);
        assert(hs.drop_first().drop_first() =~= gs.drop_first().drop_first());
        assert(options_in_turn(sys_now_ms, now, r1, a1) == options_in_turn(
            sys_now_ms,
            now,
            r1.drop_first(),
            s12->Ok_0,
        ));
        assert(options_in_turn(sys_now_ms, now, hs.drop_first(), a2) == options_in_turn(
            sys_now_ms,
            now,
            hs.drop_first().drop_first(),
            option_step(sys_now_ms, now, gs[0], a2)->Ok_0,
        ));
    } else {
        let a1 = s1->Ok_0;
        let r = gs.drop_first();
        assert(hs[0] == gs[0]);
        assert(hs.drop_first() =~= r.update(i - 1, r[i]).update(i, r[i - 1]));
        assert forall|j: int| 0 <= j < r.len() implies option_group(#[trigger] r[j]) by {
            assert(r[j] == gs[j + 1]);
        }
        lemma_swap_in_turn(sys_now_ms, now, r, i - 1, a1);
    }
}

pub open spec fn options_result_model(r: Result<SetOptions, Reply>) -> Result<SetOptions, ReplyModel> {
    match r {
        Ok(o) => Ok(o),
        Err(e) => Err(e@),
    }
}

pub fn parse_set_options(sys_now_ms: i64, mono_now: Instant, opts: &[Vec<u8>]) -> (r: Result<
    SetOptions,
    Reply,
>)
    ensures
        options_result_model(r) == set_options_spec(
            sys_now_ms,
            mono_now,
            crate::command::vec_args(opts@),
        ),
{
    let ghost os = crate::command::vec_args(opts@);
    let mut result = SetOptions { expiry: None, condition: Condition::Always, want_get: false };
    let mut i: usize = 0;
    while i < opts.len()
        invariant
            os == crate::command::vec_args(opts@),
            os.len() == opts.len(),
            i <= opts.len(),
            set_options_spec(sys_now_ms, mono_now, os) == set_options_from(
                sys_now_ms,
                mono_now,
                os,
                i as int,
                result,
            ),
        decreases opts.len() - i,
    {
        let token = upper(opts[i].as_slice());
        assert(os[i as int] == opts@[i as int]@);
        if is_word(&token, "NX") || is_word(&token, "XX") {
            if !matches!(result.condition, Condition::Always) {
                return Err(err_syntax());
            }
            result.condition = if is_word(&token, "NX") {
                Condition::IfNotExists
            } else {
                Condition::IfExists
            };
        } else if is_word(&token, "GET") {
            result.want_get = true;
        } else if is_word(&token, "KEEPTTL") {
            if result.expiry.is_some() {
                return Err(err_syntax());
            }
            result.expiry = Some(Expiry::KeepTtl);
        } else if is_word(&token, "EX") || is_word(&token, "PX") || is_word(&token, "EXAT")
            || is_word(&token, "PXAT") {
            if result.expiry.is_some() {
                return Err(err_syntax());
            }
            if i + 1 >= opts.len() {
                return Err(err_syntax());
            }
            assert(os[i + 1] == opts@[i + 1]@);
            let n = match parse_i64_bytes(opts[i + 1].as_slice()) {
                Some(n) => n,
                None => {
                    return Err(err_not_integer());
                },
            };
            if n <= 0 {
                return Err(err_invalid_expire("set"));
            }
            let deadline = deadline_for(&token, sys_now_ms, mono_now, n);
            result.expiry = Some(Expiry::At(deadline));
            i += 1;
        } else {
            return Err(err_syntax());
        }
        i += 1;
    }
    Ok(result)
}

pub open spec fn ping_reply(rest: Seq<Seq<u8>>) -> ReplyModel {
    if rest.len() == 0 {
        simple_text("PONG")
    } else if rest.len() == 1 {
        ReplyModel::Bulk(Some(rest[0]))
    } else {
        wrong_args("ping")
    }
}

fn cmd_ping(rest: &[Vec<u8>]) -> (r: Reply)
    ensures
        r@ == ping_reply(vec_args(rest@)),
{
    if rest.len() == 0 {
        Reply::simple("PONG".as_bytes())
    } else if rest.len() == 1 {
        Reply::bulk(rest[0].as_slice())
    } else {
        err_wrong_args("ping")
    }
}

pub open spec fn echo_reply(rest: Seq<Seq<u8>>) -> ReplyModel {
    if rest.len() == 1 {
        ReplyModel::Bulk(Some(rest[0]))
    } else {
        wrong_args("echo")
    }
}

fn cmd_echo(rest: &[Vec<u8>]) -> (r: Reply)
    ensures
        r@ == echo_reply(vec_args(rest@)),
{
    if rest.len() == 1 {
        Reply::bulk(rest[0].as_slice())
    } else {
        err_wrong_args("echo")
    }
}

pub open spec fn bulk_text(t: &str) -> ReplyModel {
    ReplyModel::Bulk(Some(text(t)))
}

/// The handshake answer for protocol version 2, as a flat RESP2 array.
pub open spec fn hello_reply() -> ReplyModel {
    ReplyModel::Array(
        Some(
            seq![
                bulk_text("server"),
                bulk_text("redis"),
                bulk_text("version"),
                bulk_text("7.0.0"),
                bulk_text("proto"),
                ReplyModel::Integer(2),
                bulk_text("id"),
                ReplyModel::Integer(1),
                bulk_text("mode"),
                bulk_text("standalone"),
                bulk_text("role"),
                bulk_text("master"),
                bulk_text("modules"),
                ReplyModel::Array(Some(Seq::empty())),
            ],
        ),
    )
}

/// HELLO succeeds for version 2 (or none given); any other version gets
/// the same error an unknown command would.
pub open spec fn hello_result(rest: Seq<Seq<u8>>) -> ReplyModel {
    let ver = if rest.len() == 0 {
        Some(2i64)
    } else {
        parse_i64_spec(rest[0])
    };
    if ver == Some(2i64) {
        hello_reply()
    } else {
        error_text("ERR unknown command 'HELLO'")
    }
}

fn bulk_str(t: &str) -> (r: Reply)
    ensures
        r@ == bulk_text(t),
{
    Reply::bulk(t.as_bytes())
}

fn cmd_hello(rest: &[Vec<u8>]) -> (r: Reply)
    ensures
        r@ == hello_result(vec_args(rest@)),
{
    let ver = if rest.len() == 0 {
        Some(2i64)
    } else {
        parse_i64_bytes(rest[0].as_slice())
    };
    match ver {
        Some(2) => {
            let mut items: Vec<Reply> = Vec::new();
            items.push(bulk_str("server"));
            items.push(bulk_str("redis"));
            items.push(bulk_str("version"));
            items.push(bulk_str("7.0.0"));
            items.push(bulk_str("proto"));
            items.push(Reply::Integer(2));
            items.push(bulk_str("id"));
            items.push(Reply::Integer(1));
            items.push(bulk_str("mode"));
            items.push(bulk_str("standalone"));
            items.push(bulk_str("role"));
            items.push(bulk_str("master"));
            items.push(bulk_str("modules"));
            items.push(Reply::Array(Some(Vec::new())));
            proof {
                crate::reply::lemma_reply_models(items@);
                assert(crate::reply::reply_models(Seq::<Reply>::empty()) =~= Seq::<ReplyModel>::empty());
                assert(crate::reply::reply_models(items@) =~= hello_reply()->Array_0->Some_0);
            }
            Reply::Array(Some(items))
        },
        _ => err_text("ERR unknown command 'HELLO'"),
    }
}

pub open spec fn select_reply(rest: Seq<Seq<u8>>) -> ReplyModel {
    if rest.len() == 1 && rest[0] == seq![48u8] {
        ok_reply()
    } else if rest.len() == 1 {
        error_text("ERR DB index is out of range")
    } else {
        wrong_args("select")
    }
}

fn cmd_select(rest: &[Vec<u8>]) -> (r: Reply)
    ensures
        r@ == select_reply(vec_args(rest@)),
{
    if rest.len() == 1 {
        assert(vec_args(rest@)[0] == rest@[0]@);
        if rest[0].len() == 1 && rest[0][0] == 48 {
            assert(rest@[0]@ =~= seq![48u8]);
            Reply::ok()
        } else {
            err_text("ERR DB index is out of range")
        }
    } else {
        err_wrong_args("select")
    }
}

pub open spec fn command_reply(rest: Seq<Seq<u8>>) -> ReplyModel {
    if rest.len() > 0 && word_of(rest[0]) == "COUNT"@ {
        ReplyModel::Integer(0)
    } else {
        ReplyModel::Array(Some(Seq::empty()))
    }
}

fn empty_array() -> (r: Reply)
    ensures
        r@ == ReplyModel::Array(Some(Seq::empty())),
{
    let v: Vec<Reply> = Vec::new();
    proof {
        assert(crate::reply::reply_models(v@) =~= Seq::<ReplyModel>::empty());
    }
    Reply::Array(Some(v))
}

fn cmd_command(rest: &[Vec<u8>]) -> (r: Reply)
    ensures
        r@ == command_reply(vec_args(rest@)),
{
    if rest.len() == 0 {
        return empty_array();
    }
    assert(vec_args(rest@)[0] == rest@[0]@);
    let w = upper(rest[0].as_slice());
    if is_word(&w, "COUNT") {
        Reply::Integer(0)
    } else {
        empty_array()
    }
}

pub open spec fn client_reply(rest: Seq<Seq<u8>>) -> ReplyModel {
    if rest.len() == 0 {
        wrong_args("client")
    } else {
        let w = word_of(rest[0]);
        if w == "SETINFO"@ || w == "SETNAME"@ {
            ok_reply()
        } else if w == "GETNAME"@ {
            ReplyModel::Bulk(Some(Seq::empty()))
        } else {
            ReplyModel::Error(
                text("ERR Unknown CLIENT subcommand or wrong number of arguments for '") + quoted(
                    rest[0],
                ) + text("'"),
            )
        }
    }
}

fn cmd_client(rest: &[Vec<u8>]) -> (r: Reply)
    ensures
        r@ == client_reply(vec_args(rest@)),
{
    if rest.len() == 0 {
        return err_wrong_args("client");
    }
    assert(vec_args(rest@)[0] == rest@[0]@);
    let w = upper(rest[0].as_slice());
    if is_word(&w, "SETINFO") || is_word(&w, "SETNAME") {
        Reply::ok()
    } else if is_word(&w, "GETNAME") {
        let e: Vec<u8> = Vec::new();
        assert(e@ =~= Seq::<u8>::empty());
        Reply::Bulk(Some(e))
    } else {
        let mut m: Vec<u8> = Vec::new();
        push_all(&mut m, "ERR Unknown CLIENT subcommand or wrong number of arguments for '".as_bytes());
        let q = lossy_bytes(rest[0].as_slice());
        push_all(&mut m, q.as_slice());
        push_all(&mut m, "'".as_bytes());
        Reply::Error(m)
    }
}

/// AUTH: with no password configured an error; with one, a match
/// authenticates the connection, a mismatch is refused and changes nothing.
pub open spec fn auth_post(
    rest: Seq<Seq<u8>>,
    password: Option<Seq<u8>>,
    c0: bool,
    c1: bool,
    r: ReplyModel,
) -> bool {
    if rest.len() != 1 {
        r == wrong_args("auth") && c1 == c0
    } else {
        match password {
            None => r == error_text(
                "ERR Client sent AUTH, but no password is set. Did you mean AUTH <username> <password>?",
            ) && c1 == c0,
            Some(p) => if p == rest[0] {
                r == ok_reply() && c1
            } else {
                r == error_text("WRONGPASS invalid username-password pair or user is disabled.")
                    && c1 == c0
            },
        }
    }
}

pub open spec fn password_view(p: Option<&[u8]>) -> Option<Seq<u8>> {
    match p {
        Some(b) => Some(b@),
        None => None,
    }
}

fn cmd_auth(rest: &[Vec<u8>], conn: &mut ConnState, required_password: Option<&[u8]>) -> (r: Reply)
    ensures
        auth_post(
            vec_args(rest@),
            password_view(required_password),
            old(conn).authenticated,
            final(conn).authenticated,
            r@,
        ),
{
    if rest.len() != 1 {
        return err_wrong_args("auth");
    }
    assert(vec_args(rest@)[0] == rest@[0]@);
    match required_password {
        None => err_text(
            "ERR Client sent AUTH, but no password is set. Did you mean AUTH <username> <password>?",
        ),
        Some(expected) => {
            if constant_time_eq(expected, rest[0].as_slice()) {
                conn.authenticated = true;
                Reply::ok()
            } else {
                err_text("WRONGPASS invalid username-password pair or user is disabled.")
            }
        },
    }
}

/// A budget of bytes that covers whatever a command with these arguments
/// may write: every argument's length plus a fixed allowance each.
pub open spec fn args_charge(args: Seq<Seq<u8>>) -> int
    decreases args.len(),
{
    if args.len() == 0 {
        0
    } else {
        args_charge(args.drop_last()) + args.last().len() + 116
    }
}

proof fn lemma_args_charge_front(args: Seq<Seq<u8>>)
    requires
        args.len() > 0,
    ensures
        args_charge(args) == args[0].len() + 116 + args_charge(args.drop_first()),
        args_charge(args.drop_first()) >= 0,
    decreases args.len(),
{
    if args.len() > 1 {
        lemma_args_charge_front(args.drop_last());
        assert(args.drop_last().drop_first() =~= args.drop_first().drop_last());
    } else {
        assert(args.drop_first() =~= Seq::<Seq<u8>>::empty());
        assert(args.drop_last() =~= Seq::<Seq<u8>>::empty());
    }
}

proof fn lemma_args_charge_nonneg(args: Seq<Seq<u8>>)
    ensures
        args_charge(args) >= 0,
    decreases args.len(),
{
    if args.len() > 0 {
        lemma_args_charge_nonneg(args.drop_last());
    }
}

proof fn lemma_charge_element(args: Seq<Seq<u8>>, j: int)
    requires
        0 <= j < args.len(),
    ensures
        args[j].len() + 116 <= args_charge(args),
    decreases args.len(),
{
    lemma_args_charge_nonneg(args.drop_last());
    if j < args.len() - 1 {
        lemma_charge_element(args.drop_last(), j);
    }
}

/// The charge covers writing `args[k]` under the key `args[0]`.
proof fn lemma_charge_covers_entry(args: Seq<Seq<u8>>, k: int)
    requires
        0 < k < args.len(),
    ensures
        entry_cost(args[0], args[k].len() as int) <= args_charge(args),
        entry_cost(args[0], 20) <= args_charge(args),
{
    lemma_args_charge_front(args);
    lemma_charge_element(args.drop_first(), k - 1);
}

/// The arguments taken two at a time as key-value pairs.
pub open spec fn pairs_of(args: Seq<Seq<u8>>) -> Seq<(Seq<u8>, Seq<u8>)> {
    Seq::new((args.len() / 2) as nat, |i: int| (args[2 * i], args[2 * i + 1]))
}

proof fn lemma_pairs_cost_covered(args: Seq<Seq<u8>>)
    requires
        args.len() % 2 == 0,
    ensures
        pairs_cost(pairs_of(args)) <= args_charge(args),
    decreases args.len(),
{
    if args.len() < 2 {
        assert(pairs_of(args).len() == 0);
    } else {
        let n = args.len();
        let shorter = args.take(n - 2);
        assert(args.drop_last().drop_last() =~= shorter);
        assert(pairs_of(args).drop_last() =~= pairs_of(shorter));
        assert(pairs_of(args).last() == (args[n - 2], args[n - 1]));
        assert(args.drop_last().last() == args[n - 2]);
        lemma_pairs_cost_covered(shorter);
        assert(args_charge(args) == args_charge(args.drop_last()) + args[n - 1].len() + 116);
        assert(args_charge(args.drop_last()) == args_charge(shorter) + args[n - 2].len() + 116);
        assert(pairs_cost(pairs_of(args)) == pairs_cost(pairs_of(shorter)) + entry_cost(
            args[n - 2],
            args[n - 1].len() as int,
        ));
    }
}

pub open spec fn int_reply(b: bool) -> ReplyModel {
    ReplyModel::Integer(if b {
        1
    } else {
        0
    })
}

/// GET.
pub open spec fn get_post(s0: Store, s1: Store, now: Instant, rest: Seq<Seq<u8>>, r: ReplyModel) -> bool {
    if rest.len() == 1 {
        &&& r == bulk_or_nil(lookup(s0.contents(), now, rest[0]))
        &&& s1.contents() == purge(s0.contents(), now, rest[0])
        &&& counted_read(s0, s1, now, rest[0])
    } else {
        r == wrong_args("get") && s1 == s0
    }
}

fn cmd_get(store: &mut Store, now: Instant, rest: &[Vec<u8>]) -> (r: Reply)
    requires
        old(store).wf(),
    ensures
        final(store).wf(),
        get_post(*old(store), *final(store), now, vec_args(rest@), r@),
{
    if rest.len() != 1 {
        return err_wrong_args("get");
    }
    assert(vec_args(rest@)[0] == rest@[0]@);
    match store.get(now, rest[0].as_slice()) {
        Some(v) => Reply::bulk(v),
        None => Reply::nil(),
    }
}

pub open spec fn or_never(e: Option<Expiry>) -> Expiry {
    match e {
        Some(x) => x,
        None => Expiry::Never,
    }
}

/// SET key value [options].
pub open spec fn set_cmd_post(
    s0: Store,
    s1: Store,
    sys_now_ms: i64,
    now: Instant,
    rest: Seq<Seq<u8>>,
    r: ReplyModel,
) -> bool {
    if rest.len() < 2 {
        r == wrong_args("set") && s1 == s0
    } else {
        match set_options_spec(sys_now_ms, now, rest.subrange(2, rest.len() as int)) {
            Err(e) => r == e && s1 == s0,
            Ok(o) => exists|out: SetOutcome|
                {
                    &&& set_post(
                        s0,
                        s1,
                        now,
                        rest[0],
                        rest[1],
                        or_never(o.expiry),
                        o.condition,
                        o.want_get,
                        out,
                    )
                    &&& r == (if o.want_get {
                        bulk_or_nil(opt_view(out.old_value))
                    } else if out.applied {
                        ok_reply()
                    } else {
                        ReplyModel::Bulk(None)
                    })
                },
        }
    }
}

fn cmd_set(store: &mut Store, sys_now_ms: i64, now: Instant, rest: &[Vec<u8>]) -> (r: Reply)
    requires
        old(store).wf(),
        old(store).used() + args_charge(vec_args(rest@)) <= usize::MAX,
    ensures
        final(store).wf(),
        set_cmd_post(*old(store), *final(store), sys_now_ms, now, vec_args(rest@), r@),
{
    if rest.len() < 2 {
        return err_wrong_args("set");
    }
    let ghost ra = vec_args(rest@);
    assert(ra[0] == rest@[0]@ && ra[1] == rest@[1]@);
    proof {
        lemma_charge_covers_entry(ra, 1);
    }
    let opts_slice = &rest[2..rest.len()];
    assert(vec_args(opts_slice@) =~= ra.subrange(2, ra.len() as int));
    let opts = match parse_set_options(sys_now_ms, now, opts_slice) {
        Ok(o) => o,
        Err(e) => {
            return e;
        },
    };
    let expiry = match opts.expiry {
        Some(e) => e,
        None => Expiry::Never,
    };
    let value = copy_bytes(rest[1].as_slice());
    let outcome = store.set(now, rest[0].as_slice(), value, expiry, opts.condition, opts.want_get);
    let ghost out = outcome;
    let r = if opts.want_get {
        bulk_opt(outcome.old_value)
    } else if outcome.applied {
        Reply::ok()
    } else {
        Reply::nil()
    };
    assert(set_post(*old(store), *store, now, ra[0], ra[1], or_never(opts.expiry), opts.condition, opts.want_get, out));
    r
}

pub open spec fn setex_post(s0: Store, s1: Store, now: Instant, rest: Seq<Seq<u8>>, r: ReplyModel) -> bool {
    if rest.len() != 3 {
        r == wrong_args("setex") && s1 == s0
    } else {
        match parse_i64_spec(rest[1]) {
            None => r == not_integer() && s1 == s0,
            Some(secs) => if secs <= 0 {
                r == invalid_expire("setex") && s1 == s0
            } else {
                r == ok_reply() && exists|out: SetOutcome|
                    set_post(
                        s0,
                        s1,
                        now,
                        rest[0],
                        rest[2],
                        Expiry::At(option_deadline("EX"@, 0, now, secs)),
                        Condition::Always,
                        false,
                        out,
                    )
            },
        }
    }
}

fn cmd_setex(store: &mut Store, now: Instant, rest: &[Vec<u8>]) -> (r: Reply)
    requires
        old(store).wf(),
        old(store).used() + args_charge(vec_args(rest@)) <= usize::MAX,
    ensures
        final(store).wf(),
        setex_post(*old(store), *final(store), now, vec_args(rest@), r@),
{
    if rest.len() != 3 {
        return err_wrong_args("setex");
    }
    let ghost ra = vec_args(rest@);
    assert(ra[0] == rest@[0]@ && ra[1] == rest@[1]@ && ra[2] == rest@[2]@);
    proof {
        lemma_charge_covers_entry(ra, 2);
    }
    let secs = match parse_i64_bytes(rest[1].as_slice()) {
        Some(n) => n,
        None => {
            return err_not_integer();
        },
    };
    if secs <= 0 {
        return err_invalid_expire("setex");
    }
    let deadline = now.plus_secs(secs as u64);
    let value = copy_bytes(rest[2].as_slice());
    let out = store.set(now, rest[0].as_slice(), value, Expiry::At(deadline), Condition::Always, false);
    assert(deadline == option_deadline("EX"@, 0, now, secs));
    assert(set_post(*old(store), *store, now, ra[0], ra[2], Expiry::At(option_deadline("EX"@, 0, now, secs)), Condition::Always, false, out));
    Reply::ok()
}

pub open spec fn setnx_post(s0: Store, s1: Store, now: Instant, rest: Seq<Seq<u8>>, r: ReplyModel) -> bool {
    if rest.len() != 2 {
        r == wrong_args("setnx") && s1 == s0
    } else {
        exists|out: SetOutcome|
            set_post(s0, s1, now, rest[0], rest[1], Expiry::Never, Condition::IfNotExists, false, out)
                && r == int_reply(out.applied)
    }
}

fn cmd_setnx(store: &mut Store, now: Instant, rest: &[Vec<u8>]) -> (r: Reply)
    requires
        old(store).wf(),
        old(store).used() + args_charge(vec_args(rest@)) <= usize::MAX,
    ensures
        final(store).wf(),
        setnx_post(*old(store), *final(store), now, vec_args(rest@), r@),
{
    if rest.len() != 2 {
        return err_wrong_args("setnx");
    }
    let ghost ra = vec_args(rest@);
    assert(ra[0] == rest@[0]@ && ra[1] == rest@[1]@);
    proof {
        lemma_charge_covers_entry(ra, 1);
    }
    let value = copy_bytes(rest[1].as_slice());
    let out = store.set(now, rest[0].as_slice(), value, Expiry::Never, Condition::IfNotExists, false);
    Reply::Integer(if out.applied {
        1
    } else {
        0
    })
}

fn key_slices(rest: &[Vec<u8>]) -> (r: Vec<&[u8]>)
    ensures
        slice_args(r@) == vec_args(rest@),
        r.len() == rest.len(),
{
    let mut out: Vec<&[u8]> = Vec::new();
    let mut i: usize = 0;
    while i < rest.len()
        invariant
            i <= rest.len(),
            out.len() == i,
            forall|j: int| 0 <= j < i ==> (#[trigger] out@[j])@ == rest@[j]@,
        decreases rest.len() - i,
    {
        out.push(rest[i].as_slice());
        i += 1;
    }
    assert(slice_args(out@) =~= vec_args(rest@));
    out
}

/// DEL key [key ...].
pub open spec fn del_post(s0: Store, s1: Store, now: Instant, rest: Seq<Seq<u8>>, r: ReplyModel) -> bool {
    if rest.len() == 0 {
        r == wrong_args("del") && s1 == s0
    } else {
        &&& r == ReplyModel::Integer(present_among(s0.contents(), now, rest).len() as i64)
        &&& s1.contents() == s0.contents().remove_keys(rest.to_set())
        &&& same_books(s0, s1)
    }
}

fn cmd_del(store: &mut Store, now: Instant, rest: &[Vec<u8>]) -> (r: Reply)
    requires
        old(store).wf(),
    ensures
        final(store).wf(),
        del_post(*old(store), *final(store), now, vec_args(rest@), r@),
{
    if rest.len() == 0 {
        return err_wrong_args("del");
    }
    let keys = key_slices(rest);
    let n = store.del(now, keys.as_slice());
    Reply::Integer(n as i64)
}

/// EXISTS key [key ...]: repeats counted.
pub open spec fn exists_post(s0: Store, s1: Store, now: Instant, rest: Seq<Seq<u8>>, r: ReplyModel) -> bool {
    if rest.len() == 0 {
        r == wrong_args("exists") && s1 == s0
    } else {
        &&& r == ReplyModel::Integer(count_present(s0.contents(), now, rest) as i64)
        &&& s1.contents() == purge_all(s0.contents(), now, rest)
        &&& same_books(s0, s1)
    }
}

fn cmd_exists(store: &mut Store, now: Instant, rest: &[Vec<u8>]) -> (r: Reply)
    requires
        old(store).wf(),
    ensures
        final(store).wf(),
        exists_post(*old(store), *final(store), now, vec_args(rest@), r@),
{
    if rest.len() == 0 {
        return err_wrong_args("exists");
    }
    let keys = key_slices(rest);
    let n = store.count_existing(now, keys.as_slice());
    Reply::Integer(n as i64)
}

/// TTL key / PTTL key.
pub open spec fn ttl_post(
    s0: Store,
    s1: Store,
    now: Instant,
    rest: Seq<Seq<u8>>,
    millis: bool,
    r: ReplyModel,
) -> bool {
    if rest.len() == 1 {
        &&& r == ReplyModel::Integer(
            if millis {
                crate::store::pttl_spec(s0.contents(), now, rest[0])
            } else {
                crate::store::ttl_spec(s0.contents(), now, rest[0])
            },
        )
        &&& s1.contents() == purge(s0.contents(), now, rest[0])
        &&& same_books(s0, s1)
    } else {
        r == wrong_args(if millis {
            "pttl"
        } else {
            "ttl"
        }) && s1 == s0
    }
}

fn cmd_ttl(store: &mut Store, now: Instant, rest: &[Vec<u8>], millis: bool) -> (r: Reply)
    requires
        old(store).wf(),
    ensures
        final(store).wf(),
        ttl_post(*old(store), *final(store), now, vec_args(rest@), millis, r@),
{
    if rest.len() != 1 {
        return if millis {
            err_wrong_args("pttl")
        } else {
            err_wrong_args("ttl")
        };
    }
    assert(vec_args(rest@)[0] == rest@[0]@);
    if millis {
        Reply::Integer(store.pttl_millis(now, rest[0].as_slice()))
    } else {
        Reply::Integer(store.ttl_seconds(now, rest[0].as_slice()))
    }
}

/// EXPIRE key seconds: a non-positive count expires the key at once.
pub open spec fn expire_cmd_post(s0: Store, s1: Store, now: Instant, rest: Seq<Seq<u8>>, r: ReplyModel) -> bool {
    if rest.len() != 2 {
        r == wrong_args("expire") && s1 == s0
    } else {
        match parse_i64_spec(rest[1]) {
            None => r == not_integer() && s1 == s0,
            Some(secs) => {
                let deadline = if secs <= 0 {
                    now
                } else {
                    option_deadline("EX"@, 0, now, secs)
                };
                exists|b: bool| expire_post(s0, s1, now, rest[0], deadline, b) && r == int_reply(b)
            },
        }
    }
}

fn cmd_expire(store: &mut Store, now: Instant, rest: &[Vec<u8>]) -> (r: Reply)
    requires
        old(store).wf(),
    ensures
        final(store).wf(),
        expire_cmd_post(*old(store), *final(store), now, vec_args(rest@), r@),
{
    if rest.len() != 2 {
        return err_wrong_args("expire");
    }
    let ghost ra = vec_args(rest@);
    assert(ra[0] == rest@[0]@ && ra[1] == rest@[1]@);
    let secs = match parse_i64_bytes(rest[1].as_slice()) {
        Some(n) => n,
        None => {
            return err_not_integer();
        },
    };
    let deadline = if secs <= 0 {
        now
    } else {
        now.plus_secs(secs as u64)
    };
    let b = store.expire(now, rest[0].as_slice(), deadline);
    assert(deadline == (if secs <= 0 {
        now
    } else {
        option_deadline("EX"@, 0, now, secs)
    }));
    assert(expire_post(*old(store), *store, now, ra[0], deadline, b));
    let r = Reply::Integer(if b {
        1
    } else {
        0
    });
    assert(r@ == int_reply(b));
    r
}

pub open spec fn incr_reply_model(r: Result<i64, IncrError>) -> ReplyModel {
    match r {
        Ok(n) => ReplyModel::Integer(n),
        Err(IncrError::NotAnInteger) => not_integer(),
        Err(IncrError::Overflow) => error_text("ERR increment or decrement would overflow"),
    }
}

/// An increment of `key` by `delta`, answered with the new value or an error.
pub open spec fn incr_cmd_post(s0: Store, s1: Store, now: Instant, key: Seq<u8>, delta: i64, r: ReplyModel) -> bool {
    exists|res: Result<i64, IncrError>| incr_post(s0, s1, now, key, delta, res) && r == incr_reply_model(res)
}

fn incr_reply(store: &mut Store, now: Instant, key: &[u8], delta: i64) -> (r: Reply)
    requires
        old(store).wf(),
        old(store).used() + entry_cost(key@, 20) <= usize::MAX,
    ensures
        final(store).wf(),
        incr_cmd_post(*old(store), *final(store), now, key@, delta, r@),
{
    let res = store.incr_by(now, key, delta);
    let r = match res {
        Ok(n) => Reply::Integer(n),
        Err(IncrError::NotAnInteger) => err_not_integer(),
        Err(IncrError::Overflow) => err_text("ERR increment or decrement would overflow"),
    };
    assert(incr_post(*old(store), *store, now, key@, delta, res));
    assert(r@ == incr_reply_model(res));
    r
}

/// INCR, DECR, INCRBY and DECRBY (`by` says whether a delta argument is
/// given, `down` whether it counts down).
pub open spec fn incr_family_post(
    s0: Store,
    s1: Store,
    now: Instant,
    rest: Seq<Seq<u8>>,
    by: bool,
    down: bool,
    name: &str,
    r: ReplyModel,
) -> bool {
    if rest.len() != (if by {
        2int
    } else {
        1int
    }) {
        r == wrong_args(name) && s1 == s0
    } else if !by {
        incr_cmd_post(s0, s1, now, rest[0], if down {
            -1i64
        } else {
            1i64
        }, r)
    } else {
        match parse_i64_spec(rest[1]) {
            None => r == not_integer() && s1 == s0,
            Some(d) => if !down {
                incr_cmd_post(s0, s1, now, rest[0], d, r)
            } else if d == i64::MIN {
                r == error_text("ERR decrement would overflow") && s1 == s0
            } else {
                incr_cmd_post(s0, s1, now, rest[0], (-d) as i64, r)
            },
        }
    }
}

fn cmd_incr(store: &mut Store, now: Instant, rest: &[Vec<u8>], by: bool, down: bool, name: &str) -> (r: Reply)
    requires
        old(store).wf(),
        old(store).used() + args_charge(vec_args(rest@)) <= usize::MAX,
    ensures
        final(store).wf(),
        incr_family_post(*old(store), *final(store), now, vec_args(rest@), by, down, name, r@),
{
    let want: usize = if by {
        2
    } else {
        1
    };
    if rest.len() != want {
        return err_wrong_args(name);
    }
    let ghost ra = vec_args(rest@);
    assert(ra[0] == rest@[0]@);
    proof {
        lemma_args_charge_front(ra);
        lemma_args_charge_nonneg(ra.drop_first());
    }
    if !by {
        return incr_reply(store, now, rest[0].as_slice(), if down {
            -1
        } else {
            1
        });
    }
    assert(ra[1] == rest@[1]@);
    let d = match parse_i64_bytes(rest[1].as_slice()) {
        Some(d) => d,
        None => {
            return err_not_integer();
        },
    };
    if !down {
        incr_reply(store, now, rest[0].as_slice(), d)
    } else if d == i64::MIN {
        err_text("ERR decrement would overflow")
    } else {
        incr_reply(store, now, rest[0].as_slice(), -d)
    }
}

/// MGET key [key ...].
pub open spec fn mget_post(s0: Store, s1: Store, now: Instant, rest: Seq<Seq<u8>>, r: ReplyModel) -> bool {
    if rest.len() == 0 {
        r == wrong_args("mget") && s1 == s0
    } else {
        let n = count_present(s0.contents(), now, rest);
        &&& r == ReplyModel::Array(
            Some(Seq::new(rest.len(), |i: int| bulk_or_nil(lookup(s0.contents(), now, rest[i])))),
        )
        &&& s1.contents() == purge_all(s0.contents(), now, rest)
        &&& s1.hits() == bump(s0.hits(), n)
        &&& s1.misses() == bump(s0.misses(), (rest.len() - n) as nat)
        &&& s1.budget() == s0.budget()
        &&& s1.evictions() == s0.evictions()
        &&& s1.cursors() == s0.cursors()
        &&& s1.last_cursor_id() == s0.last_cursor_id()
    }
}

fn cmd_mget(store: &mut Store, now: Instant, rest: &[Vec<u8>]) -> (r: Reply)
    requires
        old(store).wf(),
    ensures
        final(store).wf(),
        mget_post(*old(store), *final(store), now, vec_args(rest@), r@),
{
    if rest.len() == 0 {
        return err_wrong_args("mget");
    }
    let ghost m = store.contents();
    let keys = key_slices(rest);
    let values = store.mget(now, keys.as_slice());
    let mut items: Vec<Reply> = Vec::new();
    let mut i: usize = 0;
    while i < values.len()
        invariant
            i <= values.len() == rest.len() == keys.len(),
            items.len() == i,
            slice_args(keys@) == vec_args(rest@),
            forall|j: int|
                0 <= j < values.len() ==> crate::store::opt_view(#[trigger] values@[j]) == lookup(
                    m,
                    now,
                    keys@[j]@,
                ),
            forall|j: int|
                0 <= j < i ==> (#[trigger] items@[j])@ == bulk_or_nil(
                    lookup(m, now, vec_args(rest@)[j]),
                ),
        decreases values.len() - i,
    {
        let item = match &values[i] {
            Some(v) => Reply::bulk(v.as_slice()),
            None => Reply::nil(),
        };
        assert(slice_args(keys@)[i as int] == keys@[i as int]@);
        items.push(item);
        i += 1;
    }
    proof {
        crate::reply::lemma_reply_models(items@);
        assert(reply_models(items@) =~= Seq::new(
            vec_args(rest@).len(),
            |j: int| bulk_or_nil(lookup(m, now, vec_args(rest@)[j])),
        ));
    }
    Reply::Array(Some(items))
}

/// MSET key value [key value ...]: an even, nonzero number of arguments.
pub open spec fn mset_cmd_post(s0: Store, s1: Store, rest: Seq<Seq<u8>>, r: ReplyModel) -> bool {
    if rest.len() == 0 || rest.len() % 2 != 0 {
        r == wrong_args("mset") && s1 == s0
    } else {
        &&& r == ok_reply()
        &&& mset_post(s0, s1, pairs_of(rest))
        &&& exists|n: nat| s1.evictions() == bump(s0.evictions(), n)
        &&& s1.budget() == s0.budget()
        &&& s1.hits() == s0.hits()
        &&& s1.misses() == s0.misses()
        &&& s1.cursors() == s0.cursors()
        &&& s1.last_cursor_id() == s0.last_cursor_id()
    }
}

fn cmd_mset(store: &mut Store, rest: &[Vec<u8>]) -> (r: Reply)
    requires
        old(store).wf(),
        old(store).used() + args_charge(vec_args(rest@)) <= usize::MAX,
    ensures
        final(store).wf(),
        mset_cmd_post(*old(store), *final(store), vec_args(rest@), r@),
{
    if rest.len() == 0 || rest.len() % 2 != 0 {
        return err_wrong_args("mset");
    }
    let ghost ra = vec_args(rest@);
    let mut pairs: Vec<(&[u8], Vec<u8>)> = Vec::new();
    let mut i: usize = 0;
    while i < rest.len() / 2
        invariant
            rest.len() % 2 == 0,
            ra == vec_args(rest@),
            i <= rest.len() / 2,
            pairs.len() == i,
            forall|j: int|
                0 <= j < i ==> (#[trigger] pairs@[j]).0@ == ra[2 * j] && pairs@[j].1@ == ra[2 * j
                    + 1],
        decreases rest.len() / 2 - i,
    {
        let k: &[u8] = rest[2 * i].as_slice();
        let v = copy_bytes(rest[2 * i + 1].as_slice());
        pairs.push((k, v));
        i += 1;
    }
    proof {
        assert(crate::store::pairs_view(pairs@) =~= pairs_of(ra));
        lemma_pairs_cost_covered(ra);
    }
    store.mset(pairs.as_slice());
    Reply::ok()
}

/// DBSIZE.
pub open spec fn dbsize_reply(s0: Store, rest: Seq<Seq<u8>>) -> ReplyModel {
    if rest.len() != 0 {
        wrong_args("dbsize")
    } else {
        ReplyModel::Integer(s0.contents().dom().len() as i64)
    }
}

/// FLUSHDB / FLUSHALL [ASYNC | SYNC]: empties the keyspace.
pub open spec fn flush_post(s0: Store, s1: Store, rest: Seq<Seq<u8>>, name: &str, r: ReplyModel) -> bool {
    if rest.len() > 1 || (rest.len() == 1 && word_of(rest[0]) != "ASYNC"@ && word_of(rest[0])
        != "SYNC"@) {
        r == wrong_args(name) && s1 == s0
    } else {
        &&& r == ok_reply()
        &&& s1.contents() == Map::<Seq<u8>, EntryModel>::empty()
        &&& s1.used() == 0
        &&& same_books(s0, s1)
    }
}

fn cmd_flush(store: &mut Store, rest: &[Vec<u8>], name: &str) -> (r: Reply)
    requires
        old(store).wf(),
    ensures
        final(store).wf(),
        flush_post(*old(store), *final(store), vec_args(rest@), name, r@),
{
    if rest.len() > 1 {
        return err_wrong_args(name);
    }
    if rest.len() == 1 {
        assert(vec_args(rest@)[0] == rest@[0]@);
        let w = upper(rest[0].as_slice());
        if !(is_word(&w, "ASYNC") || is_word(&w, "SYNC")) {
            return err_wrong_args(name);
        }
    }
    store.clear();
    Reply::ok()
}

/// The version `INFO` reports for this server.
pub const SERVER_VERSION: &'static str = "0.1.0";

/// One line of `INFO` text: `s`, then CR LF.
pub open spec fn info_line(s: Seq<u8>) -> Seq<u8> {
    s + crlf()
}

/// One counter line of `INFO` text: the name with its separator, the
/// count's digits, then CR LF.
pub open spec fn info_count_line(name: &str, n: nat) -> Seq<u8> {
    info_line(text(name) + nat_text(n))
}

/// The body of the `INFO` reply, line by line.
pub open spec fn info_text(
    keys: nat,
    used: nat,
    max_memory: Option<usize>,
    hits: u64,
    misses: u64,
    evictions: u64,
    invalidations_lost: u64,
) -> Seq<u8> {
    info_line(text("# Server")) + info_line(text("redis_version:7.0.0")) + info_line(
        text("pg_resp_version:") + text(SERVER_VERSION),
    ) + info_line(text("# Memory")) + info_count_line("used_memory:", used) + info_count_line(
        "maxmemory:",
        match max_memory {
            Some(b) => b as nat,
            None => 0,
        },
    ) + info_line(text("# Stats")) + info_count_line("keyspace_hits:", hits as nat)
        + info_count_line("keyspace_misses:", misses as nat) + info_count_line(
        "evicted_keys:",
        evictions as nat,
    ) + info_count_line("invalidations_lost:", invalidations_lost as nat) + info_line(
        text("# Keyspace"),
    ) + info_count_line("db0:keys=", keys)
}

/// Appends `s` and CR LF.
fn push_info_line(b: &mut Vec<u8>, s: &str)
    ensures
        final(b)@ == old(b)@ + info_line(text(s)),
{
    push_all(b, s.as_bytes());
    b.push(CR);
    b.push(LF);
    proof {
        assert(final(b)@ =~= old(b)@ + info_line(text(s)));
    }
}

/// Appends `s`, then `t`, and CR LF.
fn push_info_line2(b: &mut Vec<u8>, s: &str, t: &str)
    ensures
        final(b)@ == old(b)@ + info_line(text(s) + text(t)),
{
    push_all(b, s.as_bytes());
    push_all(b, t.as_bytes());
    b.push(CR);
    b.push(LF);
    proof {
        assert(final(b)@ =~= old(b)@ + info_line(text(s) + text(t)));
    }
}

/// Appends a counter line: `name`, the digits of `n`, CR LF.
fn push_info_count(b: &mut Vec<u8>, name: &str, n: u64)
    ensures
        final(b)@ == old(b)@ + info_count_line(name, n as nat),
{
    push_all(b, name.as_bytes());
    push_u64_text(b, n);
    b.push(CR);
    b.push(LF);
    proof {
        assert(final(b)@ =~= old(b)@ + info_count_line(name, n as nat));
    }
}

/// The `INFO` reply for a store: a bulk string of its counters.
pub open spec fn info_reply(s0: Store, invalidations_lost: u64) -> ReplyModel {
    ReplyModel::Bulk(
        Some(
            info_text(
                s0.contents().dom().len(),
                s0.used(),
                s0.budget(),
                s0.hits(),
                s0.misses(),
                s0.evictions(),
                invalidations_lost,
            ),
        ),
    )
}

fn cmd_info(store: &Store, invalidations_lost: u64) -> (r: Reply)
    requires
        store.wf(),
    ensures
        r@ == info_reply(*store, invalidations_lost),
{
    let st = store.stats();
    let mut b: Vec<u8> = Vec::new();
    push_info_line(&mut b, "# Server");
    assert(b@ =~= info_line(text("# Server")));
    push_info_line(&mut b, "redis_version:7.0.0");
    push_info_line2(&mut b, "pg_resp_version:", SERVER_VERSION);
    push_info_line(&mut b, "# Memory");
    push_info_count(&mut b, "used_memory:", st.used_bytes as u64);
    let mm: u64 = match st.max_memory_bytes {
        Some(v) => v as u64,
        None => 0,
    };
    push_info_count(&mut b, "maxmemory:", mm);
    push_info_line(&mut b, "# Stats");
    push_info_count(&mut b, "keyspace_hits:", st.hits);
    push_info_count(&mut b, "keyspace_misses:", st.misses);
    push_info_count(&mut b, "evicted_keys:", st.evictions);
    push_info_count(&mut b, "invalidations_lost:", invalidations_lost);
    push_info_line(&mut b, "# Keyspace");
    push_info_count(&mut b, "db0:keys=", st.keys as u64);
    assert(mm as nat == match store.budget() {
        Some(v) => v as nat,
        None => 0,
    });
    Reply::Bulk(Some(b))
}

/// GETDEL key.
pub open spec fn getdel_post(s0: Store, s1: Store, now: Instant, rest: Seq<Seq<u8>>, r: ReplyModel) -> bool {
    if rest.len() == 1 {
        &&& r == bulk_or_nil(lookup(s0.contents(), now, rest[0]))
        &&& s1.contents() == s0.contents().remove(rest[0])
        &&& counted_read(s0, s1, now, rest[0])
    } else {
        r == wrong_args("getdel") && s1 == s0
    }
}

fn cmd_getdel(store: &mut Store, now: Instant, rest: &[Vec<u8>]) -> (r: Reply)
    requires
        old(store).wf(),
    ensures
        final(store).wf(),
        getdel_post(*old(store), *final(store), now, vec_args(rest@), r@),
{
    if rest.len() != 1 {
        return err_wrong_args("getdel");
    }
    assert(vec_args(rest@)[0] == rest@[0]@);
    bulk_opt(store.get_del(now, rest[0].as_slice()))
}

/// GETEX's option: none, PERSIST, or one expiry unit with a positive count.
pub open spec fn getex_option(sys_now_ms: i64, now: Instant, rest: Seq<Seq<u8>>) -> Result<
    Option<Expiry>,
    ReplyModel,
> {
    if rest.len() == 1 {
        Ok(None)
    } else {
        let w = word_of(rest[1]);
        if w == "PERSIST"@ && rest.len() == 2 {
            Ok(Some(Expiry::Never))
        } else if is_expiry_unit(w) && rest.len() == 3 {
            match parse_i64_spec(rest[2]) {
                None => Err(not_integer()),
                Some(n) => if n <= 0 {
                    Err(invalid_expire("getex"))
                } else {
                    Ok(Some(Expiry::At(option_deadline(w, sys_now_ms, now, n))))
                },
            }
        } else {
            Err(syntax_error())
        }
    }
}

/// GETEX key [option].
pub open spec fn getex_post(
    s0: Store,
    s1: Store,
    sys_now_ms: i64,
    now: Instant,
    rest: Seq<Seq<u8>>,
    r: ReplyModel,
) -> bool {
    if rest.len() == 0 {
        r == wrong_args("getex") && s1 == s0
    } else {
        match getex_option(sys_now_ms, now, rest) {
            Err(e) => r == e && s1 == s0,
            Ok(e) => {
                &&& r == bulk_or_nil(lookup(s0.contents(), now, rest[0]))
                &&& s1.contents() == get_ex_contents(purge(s0.contents(), now, rest[0]), rest[0], e)
                &&& counted_read(s0, s1, now, rest[0])
            },
        }
    }
}

fn cmd_getex(store: &mut Store, sys_now_ms: i64, now: Instant, rest: &[Vec<u8>]) -> (r: Reply)
    requires
        old(store).wf(),
    ensures
        final(store).wf(),
        getex_post(*old(store), *final(store), sys_now_ms, now, vec_args(rest@), r@),
{
    if rest.len() == 0 {
        return err_wrong_args("getex");
    }
    let ghost ra = vec_args(rest@);
    assert(ra[0] == rest@[0]@);
    let expiry = if rest.len() == 1 {
        None
    } else {
        assert(ra[1] == rest@[1]@);
        let w = upper(rest[1].as_slice());
        if is_word(&w, "PERSIST") && rest.len() == 2 {
            Some(Expiry::Never)
        } else if (is_word(&w, "EX") || is_word(&w, "PX") || is_word(&w, "EXAT") || is_word(
            &w,
            "PXAT",
        )) && rest.len() == 3 {
            assert(ra[2] == rest@[2]@);
            let n = match parse_i64_bytes(rest[2].as_slice()) {
                Some(n) => n,
                None => {
                    return err_not_integer();
                },
            };
            if n <= 0 {
                return err_invalid_expire("getex");
            }
            Some(Expiry::At(deadline_for(&w, sys_now_ms, now, n)))
        } else {
            return err_syntax();
        }
    };
    bulk_opt(store.get_ex(now, rest[0].as_slice(), expiry))
}

/// PERSIST key.
pub open spec fn persist_cmd_post(s0: Store, s1: Store, now: Instant, rest: Seq<Seq<u8>>, r: ReplyModel) -> bool {
    if rest.len() == 1 {
        exists|b: bool| persist_post(s0, s1, now, rest[0], b) && r == int_reply(b)
    } else {
        r == wrong_args("persist") && s1 == s0
    }
}

fn cmd_persist(store: &mut Store, now: Instant, rest: &[Vec<u8>]) -> (r: Reply)
    requires
        old(store).wf(),
    ensures
        final(store).wf(),
        persist_cmd_post(*old(store), *final(store), now, vec_args(rest@), r@),
{
    if rest.len() != 1 {
        return err_wrong_args("persist");
    }
    assert(vec_args(rest@)[0] == rest@[0]@);
    let b = store.persist(now, rest[0].as_slice());
    let r = Reply::Integer(if b {
        1
    } else {
        0
    });
    assert(persist_post(*old(store), *store, now, vec_args(rest@)[0], b));
    assert(r@ == int_reply(b));
    r
}

/// TYPE key: every value held is a string.
pub open spec fn type_post(s0: Store, s1: Store, now: Instant, rest: Seq<Seq<u8>>, r: ReplyModel) -> bool {
    if rest.len() == 1 {
        &&& r == simple_text(if present(s0.contents(), now, rest[0]) {
            "string"
        } else {
            "none"
        })
        &&& s1.contents() == purge(s0.contents(), now, rest[0])
        &&& same_books(s0, s1)
    } else {
        r == wrong_args("type") && s1 == s0
    }
}

fn cmd_type(store: &mut Store, now: Instant, rest: &[Vec<u8>]) -> (r: Reply)
    requires
        old(store).wf(),
    ensures
        final(store).wf(),
        type_post(*old(store), *final(store), now, vec_args(rest@), r@),
{
    if rest.len() != 1 {
        return err_wrong_args("type");
    }
    let ghost k = vec_args(rest@)[0];
    assert(k == rest@[0]@);
    let one: Vec<&[u8]> = vec![rest[0].as_slice()];
    let ghost m = store.contents();
    let n = store.count_existing(now, one.as_slice());
    proof {
        assert(slice_args(one@) =~= seq![k]);
        assert(seq![k].drop_last() =~= Seq::<Seq<u8>>::empty());
        assert(purge_all(m, now, seq![k]) =~= purge(m, now, k));
        assert(count_present(m, now, seq![k]) == count_present(m, now, Seq::<Seq<u8>>::empty()) + if present(m, now, k) {
            1nat
        } else {
            0nat
        });
    }
    if n > 0 {
        Reply::simple("string".as_bytes())
    } else {
        Reply::simple("none".as_bytes())
    }
}

/// RANDOMKEY.
pub open spec fn randomkey_post(s0: Store, s1: Store, now: Instant, rest: Seq<Seq<u8>>, r: ReplyModel) -> bool {
    if rest.len() != 0 {
        r == wrong_args("randomkey") && s1 == s0
    } else {
        exists|k: Option<Seq<u8>>| random_key_post(s0, s1, now, k) && r == bulk_or_nil(k)
    }
}

fn cmd_randomkey(store: &mut Store, now: Instant, rest: &[Vec<u8>]) -> (r: Reply)
    requires
        old(store).wf(),
    ensures
        final(store).wf(),
        randomkey_post(*old(store), *final(store), now, vec_args(rest@), r@),
{
    if rest.len() != 0 {
        return err_wrong_args("randomkey");
    }
    let k = store.random_key(now);
    let ghost kv = opt_view(k);
    let r = bulk_opt(k);
    assert(random_key_post(*old(store), *store, now, kv));
    r
}

/// Bulk replies for the keys that match `pattern`, in order.
pub open spec fn matching_bulks(pattern: Option<Seq<u8>>, keys: Seq<Seq<u8>>) -> Seq<ReplyModel>
    decreases keys.len(),
{
    if keys.len() == 0 {
        Seq::empty()
    } else {
        let rest = matching_bulks(pattern, keys.drop_last());
        let k = keys.last();
        let keep = match pattern {
            Some(p) => glob_spec(p, k),
            None => true,
        };
        if keep {
            rest.push(ReplyModel::Bulk(Some(k)))
        } else {
            rest
        }
    }
}

fn filter_bulks(pattern: Option<&[u8]>, keys: &Vec<Vec<u8>>) -> (r: Vec<Reply>)
    ensures
        reply_models(r@) == matching_bulks(password_view(pattern), vec_args(keys@)),
{
    let mut out: Vec<Reply> = Vec::new();
    let mut i: usize = 0;
    proof {
        assert(vec_args(keys@).take(0) =~= Seq::<Seq<u8>>::empty());
        assert(reply_models(out@) =~= Seq::<ReplyModel>::empty());
    }
    while i < keys.len()
        invariant
            i <= keys.len(),
            reply_models(out@) == matching_bulks(
                password_view(pattern),
                vec_args(keys@).take(i as int),
            ),
        decreases keys.len() - i,
    {
        let keep = match pattern {
            Some(p) => glob_match(p, keys[i].as_slice()),
            None => true,
        };
        proof {
            assert(vec_args(keys@).take(i + 1).drop_last() =~= vec_args(keys@).take(i as int));
            assert(vec_args(keys@).take(i + 1).last() == keys@[i as int]@);
        }
        if keep {
            let b = Reply::bulk(keys[i].as_slice());
            proof {
                crate::reply::lemma_reply_models_push(out@, b);
            }
            out.push(b);
        }
        i += 1;
    }
    proof {
        assert(vec_args(keys@).take(keys.len() as int) =~= vec_args(keys@));
    }
    out
}

/// KEYS pattern: every live key that matches, each once.
pub open spec fn keys_post(s0: Store, s1: Store, now: Instant, rest: Seq<Seq<u8>>, r: ReplyModel) -> bool {
    &&& s1 == s0
    &&& if rest.len() != 1 {
        r == wrong_args("keys")
    } else {
        exists|keys: Seq<Seq<u8>>|
            lists_live_keys(s0.contents(), now, keys) && r == ReplyModel::Array(
                Some(matching_bulks(Some(rest[0]), keys)),
            )
    }
}

fn cmd_keys(store: &mut Store, now: Instant, rest: &[Vec<u8>]) -> (r: Reply)
    requires
        old(store).wf(),
    ensures
        keys_post(*old(store), *final(store), now, vec_args(rest@), r@),
{
    if rest.len() != 1 {
        return err_wrong_args("keys");
    }
    assert(vec_args(rest@)[0] == rest@[0]@);
    let all = store.all_keys(now);
    let matched = filter_bulks(Some(rest[0].as_slice()), &all);
    let r = Reply::Array(Some(matched));
    assert(lists_live_keys(store.contents(), now, vec_args(all@)));
    r
}

/// SCAN's options from index `i` on: MATCH takes a pattern, COUNT a
/// positive integer; anything else is a syntax error.
pub open spec fn scan_options_from(
    rest: Seq<Seq<u8>>,
    i: int,
    pattern: Option<Seq<u8>>,
    count: usize,
) -> Result<(Option<Seq<u8>>, usize), ReplyModel>
    decreases rest.len() - i,
{
    if i < 0 || i >= rest.len() {
        Ok((pattern, count))
    } else {
        let w = word_of(rest[i]);
        if w == "MATCH"@ {
            if i + 1 >= rest.len() {
                Err(syntax_error())
            } else {
                scan_options_from(rest, i + 2, Some(rest[i + 1]), count)
            }
        } else if w == "COUNT"@ {
            if i + 1 >= rest.len() {
                Err(not_integer())
            } else {
                match parse_i64_spec(rest[i + 1]) {
                    None => Err(not_integer()),
                    Some(n) => if n <= 0 {
                        Err(syntax_error())
                    } else {
                        scan_options_from(rest, i + 2, pattern, n as usize)
                    },
                }
            }
        } else {
            Err(syntax_error())
        }
    }
}

/// SCAN cursor [MATCH pattern] [COUNT n]: the next cursor as a bulk string
/// and the keys of the page that match, in page order.
pub open spec fn scan_cmd_post(s0: Store, s1: Store, now: Instant, rest: Seq<Seq<u8>>, r: ReplyModel) -> bool {
    if rest.len() == 0 {
        r == wrong_args("scan") && s1 == s0
    } else {
        match parse_u64_spec(rest[0]) {
            None => r == error_text("ERR invalid cursor") && s1 == s0,
            Some(cursor) => match scan_options_from(rest, 1, None, 10) {
                Err(e) => r == e && s1 == s0,
                Ok(o) => exists|page: (u64, Seq<Seq<u8>>)|
                    scan_post(s0, s1, now, cursor, o.1 as int, page) && r == ReplyModel::Array(
                        Some(
                            seq![
                                ReplyModel::Bulk(Some(nat_text(page.0 as nat))),
                                ReplyModel::Array(Some(matching_bulks(o.0, page.1))),
                            ],
                        ),
                    ),
            },
        }
    }
}

fn cmd_scan(store: &mut Store, now: Instant, rest: &[Vec<u8>]) -> (r: Reply)
    requires
        old(store).wf(),
    ensures
        final(store).wf(),
        scan_cmd_post(*old(store), *final(store), now, vec_args(rest@), r@),
{
    if rest.len() == 0 {
        return err_wrong_args("scan");
    }
    let ghost ra = vec_args(rest@);
    assert(ra[0] == rest@[0]@);
    let cursor = match parse_u64_bytes(rest[0].as_slice()) {
        Some(c) => c,
        None => {
            return err_text("ERR invalid cursor");
        },
    };
    let mut pattern: Option<&[u8]> = None;
    let mut count: usize = 10;
    let mut i: usize = 1;
    while i < rest.len()
        invariant
            ra == vec_args(rest@),
            ra.len() == rest.len(),
            parse_u64_spec(ra[0]) == Some(cursor),
            1 <= i,
            old(store).wf(),
            *store == *old(store),
            scan_options_from(ra, 1, None, 10) == scan_options_from(
                ra,
                i as int,
                password_view(pattern),
                count,
            ),
        decreases rest.len() - i,
    {
        assert(ra[i as int] == rest@[i as int]@);
        let w = upper(rest[i].as_slice());
        if is_word(&w, "MATCH") {
            if i + 1 >= rest.len() {
                return err_syntax();
            }
            assert(ra[i + 1] == rest@[i + 1]@);
            pattern = Some(rest[i + 1].as_slice());
            i += 2;
        } else if is_word(&w, "COUNT") {
            if i + 1 >= rest.len() {
                return err_not_integer();
            }
            assert(ra[i + 1] == rest@[i + 1]@);
            let n = match parse_i64_bytes(rest[i + 1].as_slice()) {
                Some(n) => n,
                None => {
                    return err_not_integer();
                },
            };
            if n <= 0 {
                return err_syntax();
            }
            count = n as usize;
            i += 2;
        } else {
            return err_syntax();
        }
    }
    assert(scan_options_from(ra, 1, None, 10) == Ok::<(Option<Seq<u8>>, usize), ReplyModel>(
        (password_view(pattern), count),
    ));
    let (next, keys) = store.scan(now, cursor, count);
    let ghost page = (next, vec_args(keys@));
    let mut ctext: Vec<u8> = Vec::new();
    push_u64_text(&mut ctext, next);
    let matched = filter_bulks(pattern, &keys);
    let mut items: Vec<Reply> = Vec::new();
    items.push(Reply::Bulk(Some(ctext)));
    items.push(Reply::Array(Some(matched)));
    proof {
        crate::reply::lemma_reply_models(items@);
        assert(ctext@ =~= nat_text(next as nat));
        assert(reply_models(items@) =~= seq![
            ReplyModel::Bulk(Some(nat_text(page.0 as nat))),
            ReplyModel::Array(Some(matching_bulks(password_view(pattern), page.1))),
        ]);
    }
    let r = Reply::Array(Some(items));
    let ghost o = (password_view(pattern), count);
    assert(scan_post(*old(store), *store, now, cursor, o.1 as int, page));
    assert(parse_u64_spec(ra[0]) == Some(cursor));
    assert(scan_options_from(ra, 1, None, 10) == Ok::<(Option<Seq<u8>>, usize), ReplyModel>(o));
    assert(r@ == ReplyModel::Array(
        Some(
            seq![
                ReplyModel::Bulk(Some(nat_text(page.0 as nat))),
                ReplyModel::Array(Some(matching_bulks(password_view(pattern), page.1))),
            ],
        ),
    ));
    r
}

pub open spec fn unknown_command(arg0: Seq<u8>) -> ReplyModel {
    ReplyModel::Error(text("ERR unknown command '") + quoted(arg0) + text("'"))
}

/// What the command named `w` does, once it is past the authentication
/// gate (AUTH itself aside): `rest` are its arguments, `arg0` the name as
/// sent.
pub open spec fn command_post(
    w: Seq<char>,
    s0: Store,
    s1: Store,
    sys_now_ms: i64,
    now: Instant,
    rest: Seq<Seq<u8>>,
    arg0: Seq<u8>,
    invalidations_lost: u64,
    r: ReplyModel,
) -> bool {
    if w == "PING"@ {
        r == ping_reply(rest) && s1 == s0
    } else if w == "ECHO"@ {
        r == echo_reply(rest) && s1 == s0
    } else if w == "HELLO"@ {
        r == hello_result(rest) && s1 == s0
    } else if w == "GET"@ {
        get_post(s0, s1, now, rest, r)
    } else if w == "SET"@ {
        set_cmd_post(s0, s1, sys_now_ms, now, rest, r)
    } else if w == "DEL"@ {
        del_post(s0, s1, now, rest, r)
    } else if w == "EXISTS"@ {
        exists_post(s0, s1, now, rest, r)
    } else if w == "TTL"@ {
        ttl_post(s0, s1, now, rest, false, r)
    } else if w == "PTTL"@ {
        ttl_post(s0, s1, now, rest, true, r)
    } else if w == "EXPIRE"@ {
        expire_cmd_post(s0, s1, now, rest, r)
    } else if w == "INCR"@ {
        incr_family_post(s0, s1, now, rest, false, false, "incr", r)
    } else if w == "DECR"@ {
        incr_family_post(s0, s1, now, rest, false, true, "decr", r)
    } else if w == "INCRBY"@ {
        incr_family_post(s0, s1, now, rest, true, false, "incrby", r)
    } else if w == "DECRBY"@ {
        incr_family_post(s0, s1, now, rest, true, true, "decrby", r)
    } else if w == "MGET"@ {
        mget_post(s0, s1, now, rest, r)
    } else if w == "MSET"@ {
        mset_cmd_post(s0, s1, rest, r)
    } else if w == "SELECT"@ {
        r == select_reply(rest) && s1 == s0
    } else if w == "DBSIZE"@ {
        r == dbsize_reply(s0, rest) && s1 == s0
    } else if w == "FLUSHDB"@ {
        flush_post(s0, s1, rest, "flushdb", r)
    } else if w == "FLUSHALL"@ {
        flush_post(s0, s1, rest, "flushall", r)
    } else if w == "INFO"@ {
        r == info_reply(s0, invalidations_lost) && s1 == s0
    } else if w == "SCAN"@ {
        scan_cmd_post(s0, s1, now, rest, r)
    } else if w == "CLIENT"@ {
        r == client_reply(rest) && s1 == s0
    } else if w == "COMMAND"@ {
        r == command_reply(rest) && s1 == s0
    } else if w == "QUIT"@ {
        r == ok_reply() && s1 == s0
    } else if w == "SETEX"@ {
        setex_post(s0, s1, now, rest, r)
    } else if w == "SETNX"@ {
        setnx_post(s0, s1, now, rest, r)
    } else if w == "GETDEL"@ {
        getdel_post(s0, s1, now, rest, r)
    } else if w == "GETEX"@ {
        getex_post(s0, s1, sys_now_ms, now, rest, r)
    } else if w == "PERSIST"@ {
        persist_cmd_post(s0, s1, now, rest, r)
    } else if w == "TYPE"@ {
        type_post(s0, s1, now, rest, r)
    } else if w == "RANDOMKEY"@ {
        randomkey_post(s0, s1, now, rest, r)
    } else if w == "KEYS"@ {
        keys_post(s0, s1, now, rest, r)
    } else {
        r == unknown_command(arg0) && s1 == s0
    }
}

/// Whether the authentication gate turns the command `w` away: a password
/// is configured, the connection has not authenticated, and `w` is not one
/// of AUTH, HELLO and QUIT.
pub open spec fn gated(password: Option<Seq<u8>>, authenticated: bool, w: Seq<char>) -> bool {
    password is Some && !authenticated && w != "AUTH"@ && w != "HELLO"@ && w != "QUIT"@
}

/// What `dispatch` does with one command.
pub open spec fn dispatch_post(
    s0: Store,
    s1: Store,
    c0: bool,
    c1: bool,
    sys_now_ms: i64,
    now: Instant,
    args: Seq<Seq<u8>>,
    password: Option<Seq<u8>>,
    invalidations_lost: u64,
    r: ReplyModel,
) -> bool {
    if args.len() == 0 {
        r == ReplyModel::Array(Some(Seq::empty())) && s1 == s0 && c1 == c0
    } else {
        word_post(s0, s1, c0, c1, sys_now_ms, now, word_of(args[0]), args, password, invalidations_lost, r)
    }
}

/// What one command does once its name has been read as the word `w`
/// (`args` is the whole command, its name first).
pub open spec fn word_post(
    s0: Store,
    s1: Store,
    c0: bool,
    c1: bool,
    sys_now_ms: i64,
    now: Instant,
    w: Seq<char>,
    args: Seq<Seq<u8>>,
    password: Option<Seq<u8>>,
    invalidations_lost: u64,
    r: ReplyModel,
) -> bool {
    let rest = args.drop_first();
    if gated(password, c0, w) {
        r == error_text("NOAUTH Authentication required.") && s1 == s0 && c1 == c0
    } else if w == "AUTH"@ {
        s1 == s0 && auth_post(rest, password, c0, c1, r)
    } else {
        c1 == c0 && command_post(w, s0, s1, sys_now_ms, now, rest, args[0], invalidations_lost, r)
    }
}

/// Runs one command. `sys_now_ms` is the wall clock in milliseconds since
/// the Unix epoch and `mono_now` the monotonic clock, both read once for
/// the command; `required_password` is the configured password, if any;
/// `invalidations_lost` is the count `INFO` reports. An empty command gets
/// an empty array, which the caller does not send.
pub fn dispatch(
    store: &mut Store,
    sys_now_ms: i64,
    mono_now: Instant,
    args: &[Vec<u8>],
    conn: &mut ConnState,
    required_password: Option<&[u8]>,
    invalidations_lost: u64,
) -> (r: Reply)
    requires
        old(store).wf(),
        old(store).used() + args_charge(vec_args(args@)) <= usize::MAX,
    ensures
        final(store).wf(),
        dispatch_post(
            *old(store),
            *final(store),
            old(conn).authenticated,
            final(conn).authenticated,
            sys_now_ms,
            mono_now,
            vec_args(args@),
            password_view(required_password),
            invalidations_lost,
            r@,
        ),
{
    if args.len() == 0 {
        return empty_array();
    }
    let ghost aa = vec_args(args@);
    assert(aa[0] == args@[0]@);
    let cmd = upper(args[0].as_slice());
    dispatch_word(
        store,
        sys_now_ms,
        mono_now,
        &cmd,
        args,
        conn,
        required_password,
        invalidations_lost,
    )
}

/// Runs one command whose name has been read (upper-cased) as `word`;
/// `args` is the whole command, its name first. `dispatch` reads the name
/// and comes here.
pub fn dispatch_word(
    store: &mut Store,
    sys_now_ms: i64,
    mono_now: Instant,
    word: &String,
    args: &[Vec<u8>],
    conn: &mut ConnState,
    required_password: Option<&[u8]>,
    invalidations_lost: u64,
) -> (r: Reply)
    requires
        old(store).wf(),
        args.len() > 0,
        old(store).used() + args_charge(vec_args(args@)) <= usize::MAX,
    ensures
        final(store).wf(),
        word_post(
            *old(store),
            *final(store),
            old(conn).authenticated,
            final(conn).authenticated,
            sys_now_ms,
            mono_now,
            word@,
            vec_args(args@),
            password_view(required_password),
            invalidations_lost,
            r@,
        ),
{
    let ghost aa = vec_args(args@);
    assert(aa[0] == args@[0]@);
    let cmd = word;
    let rest = &args[1..args.len()];
    proof {
        assert(vec_args(rest@) =~= aa.drop_first());
        lemma_args_charge_front(aa);
    }
    if required_password.is_some() && !conn.authenticated && !is_word(cmd, "AUTH") && !is_word(
        cmd,
        "HELLO",
    ) && !is_word(cmd, "QUIT") {
        return err_text("NOAUTH Authentication required.");
    }
    if is_word(cmd, "AUTH") {
        cmd_auth(rest, conn, required_password)
    } else if is_word(cmd, "PING") {
        cmd_ping(rest)
    } else if is_word(cmd, "ECHO") {
        cmd_echo(rest)
    } else if is_word(cmd, "HELLO") {
        cmd_hello(rest)
    } else if is_word(cmd, "GET") {
        cmd_get(store, mono_now, rest)
    } else if is_word(cmd, "SET") {
        cmd_set(store, sys_now_ms, mono_now, rest)
    } else if is_word(cmd, "DEL") {
        cmd_del(store, mono_now, rest)
    } else if is_word(cmd, "EXISTS") {
        cmd_exists(store, mono_now, rest)
    } else if is_word(cmd, "TTL") {
        cmd_ttl(store, mono_now, rest, false)
    } else if is_word(cmd, "PTTL") {
        cmd_ttl(store, mono_now, rest, true)
    } else if is_word(cmd, "EXPIRE") {
        cmd_expire(store, mono_now, rest)
    } else if is_word(cmd, "INCR") {
        cmd_incr(store, mono_now, rest, false, false, "incr")
    } else if is_word(cmd, "DECR") {
        cmd_incr(store, mono_now, rest, false, true, "decr")
    } else if is_word(cmd, "INCRBY") {
        cmd_incr(store, mono_now, rest, true, false, "incrby")
    } else if is_word(cmd, "DECRBY") {
        cmd_incr(store, mono_now, rest, true, true, "decrby")
    } else if is_word(cmd, "MGET") {
        cmd_mget(store, mono_now, rest)
    } else if is_word(cmd, "MSET") {
        cmd_mset(store, rest)
    } else if is_word(cmd, "SELECT") {
        cmd_select(rest)
    } else if is_word(cmd, "DBSIZE") {
        if rest.len() != 0 {
            err_wrong_args("dbsize")
        } else {
            let n = store.len();
            Reply::Integer(n as i64)
        }
    } else if is_word(cmd, "FLUSHDB") {
        cmd_flush(store, rest, "flushdb")
    } else if is_word(cmd, "FLUSHALL") {
        cmd_flush(store, rest, "flushall")
    } else if is_word(cmd, "INFO") {
        cmd_info(store, invalidations_lost)
    } else if is_word(cmd, "SCAN") {
        cmd_scan(store, mono_now, rest)
    } else if is_word(cmd, "CLIENT") {
        cmd_client(rest)
    } else if is_word(cmd, "COMMAND") {
        cmd_command(rest)
    } else if is_word(cmd, "QUIT") {
        Reply::ok()
    } else if is_word(cmd, "SETEX") {
        cmd_setex(store, mono_now, rest)
    } else if is_word(cmd, "SETNX") {
        cmd_setnx(store, mono_now, rest)
    } else if is_word(cmd, "GETDEL") {
        cmd_getdel(store, mono_now, rest)
    } else if is_word(cmd, "GETEX") {
        cmd_getex(store, sys_now_ms, mono_now, rest)
    } else if is_word(cmd, "PERSIST") {
        cmd_persist(store, mono_now, rest)
    } else if is_word(cmd, "TYPE") {
        cmd_type(store, mono_now, rest)
    } else if is_word(cmd, "RANDOMKEY") {
        cmd_randomkey(store, mono_now, rest)
    } else if is_word(cmd, "KEYS") {
        cmd_keys(store, mono_now, rest)
    } else {
        let mut m: Vec<u8> = Vec::new();
        push_all(&mut m, "ERR unknown command '".as_bytes());
        let q = lossy_bytes(args[0].as_slice());
        push_all(&mut m, q.as_slice());
        push_all(&mut m, "'".as_bytes());
        Reply::Error(m)
    }
}

/// With a password configured, a connection that has not authenticated is
/// answered NOAUTH for every command but AUTH, HELLO and QUIT, and nothing
/// changes.
pub proof fn lemma_unauthenticated_commands_are_refused(
    s0: Store,
    s1: Store,
    c1: bool,
    sys_now_ms: i64,
    now: Instant,
    args: Seq<Seq<u8>>,
    password: Seq<u8>,
    invalidations_lost: u64,
    r: ReplyModel,
)
    requires
        dispatch_post(s0, s1, false, c1, sys_now_ms, now, args, Some(password), invalidations_lost, r),
        args.len() > 0,
        word_of(args[0]) != "AUTH"@,
        word_of(args[0]) != "HELLO"@,
        word_of(args[0]) != "QUIT"@,
    ensures
        r == error_text("NOAUTH Authentication required."),
        s1 == s0,
        !c1,
{
}

/// A connection becomes authenticated only by an AUTH whose single
/// argument is the configured password; and once authenticated it stays so.
pub proof fn lemma_only_auth_authenticates(
    s0: Store,
    s1: Store,
    c0: bool,
    c1: bool,
    sys_now_ms: i64,
    now: Instant,
    args: Seq<Seq<u8>>,
    password: Option<Seq<u8>>,
    invalidations_lost: u64,
    r: ReplyModel,
)
    requires
        dispatch_post(s0, s1, c0, c1, sys_now_ms, now, args, password, invalidations_lost, r),
    ensures
        c1 && !c0 ==> args.len() == 2 && word_of(args[0]) == "AUTH"@ && password == Some(args[1])
            && r == ok_reply(),
        c0 ==> c1,
{
    if args.len() > 0 {
        let rest = args.drop_first();
        if rest.len() == 1 {
            assert(rest[0] == args[1]);
        }
    }
}


/// The command words FLUSHALL and FLUSHDB are none of the words checked
/// before them.
proof fn lemma_flush_words()
    ensures
        "FLUSHALL"@ != "AUTH"@ && "FLUSHALL"@ != "HELLO"@ && "FLUSHALL"@ != "QUIT"@,
        "FLUSHALL"@ != "PING"@ && "FLUSHALL"@ != "ECHO"@ && "FLUSHALL"@ != "GET"@,
        "FLUSHALL"@ != "SET"@ && "FLUSHALL"@ != "DEL"@ && "FLUSHALL"@ != "EXISTS"@,
        "FLUSHALL"@ != "TTL"@ && "FLUSHALL"@ != "PTTL"@ && "FLUSHALL"@ != "EXPIRE"@,
        "FLUSHALL"@ != "INCR"@ && "FLUSHALL"@ != "DECR"@ && "FLUSHALL"@ != "INCRBY"@,
        "FLUSHALL"@ != "DECRBY"@ && "FLUSHALL"@ != "MGET"@ && "FLUSHALL"@ != "MSET"@,
        "FLUSHALL"@ != "SELECT"@ && "FLUSHALL"@ != "DBSIZE"@ && "FLUSHALL"@ != "FLUSHDB"@,
        "FLUSHDB"@ != "AUTH"@ && "FLUSHDB"@ != "HELLO"@ && "FLUSHDB"@ != "QUIT"@,
        "FLUSHDB"@ != "PING"@ && "FLUSHDB"@ != "ECHO"@ && "FLUSHDB"@ != "GET"@,
        "FLUSHDB"@ != "SET"@ && "FLUSHDB"@ != "DEL"@ && "FLUSHDB"@ != "EXISTS"@,
        "FLUSHDB"@ != "TTL"@ && "FLUSHDB"@ != "PTTL"@ && "FLUSHDB"@ != "EXPIRE"@,
        "FLUSHDB"@ != "INCR"@ && "FLUSHDB"@ != "DECR"@ && "FLUSHDB"@ != "INCRBY"@,
        "FLUSHDB"@ != "DECRBY"@ && "FLUSHDB"@ != "MGET"@ && "FLUSHDB"@ != "MSET"@,
        "FLUSHDB"@ != "SELECT"@ && "FLUSHDB"@ != "DBSIZE"@,
{
    reveal_strlit("FLUSHALL");
    reveal_strlit("FLUSHDB");
    reveal_strlit("AUTH");
    reveal_strlit("HELLO");
    reveal_strlit("QUIT");
    reveal_strlit("PING");
    reveal_strlit("ECHO");
    reveal_strlit("GET");
    reveal_strlit("SET");
    reveal_strlit("DEL");
    reveal_strlit("EXISTS");
    reveal_strlit("TTL");
    reveal_strlit("PTTL");
    reveal_strlit("EXPIRE");
    reveal_strlit("INCR");
    reveal_strlit("DECR");
    reveal_strlit("INCRBY");
    reveal_strlit("DECRBY");
    reveal_strlit("MGET");
    reveal_strlit("MSET");
    reveal_strlit("SELECT");
    reveal_strlit("DBSIZE");
    assert("FLUSHALL"@.len() == 8);
    assert("FLUSHDB"@.len() == 7);
    assert("AUTH"@.len() == 4);
    assert("HELLO"@.len() == 5);
    assert("QUIT"@.len() == 4);
    assert("PING"@.len() == 4);
    assert("ECHO"@.len() == 4);
    assert("GET"@.len() == 3);
    assert("SET"@.len() == 3);
    assert("DEL"@.len() == 3);
    assert("EXISTS"@.len() == 6);
    assert("TTL"@.len() == 3);
    assert("PTTL"@.len() == 4);
    assert("EXPIRE"@.len() == 6);
    assert("INCR"@.len() == 4);
    assert("DECR"@.len() == 4);
    assert("INCRBY"@.len() == 6);
    assert("DECRBY"@.len() == 6);
    assert("MGET"@.len() == 4);
    assert("MSET"@.len() == 4);
    assert("SELECT"@.len() == 6);
    assert("DBSIZE"@.len() == 6);
}

/// FLUSHALL and FLUSHDB, given no argument to a connection past the
/// password check, answer OK and leave no key in the store (and nothing
/// charged), whatever it held; the counters and scan cursors stay.
pub proof fn lemma_flush_empties_the_store(
    s0: Store,
    s1: Store,
    c0: bool,
    c1: bool,
    sys_now_ms: i64,
    now: Instant,
    w: Seq<char>,
    arg0: Seq<u8>,
    password: Option<Seq<u8>>,
    invalidations_lost: u64,
    r: ReplyModel,
)
    requires
        w == "FLUSHALL"@ || w == "FLUSHDB"@,
        password is None || c0,
        word_post(s0, s1, c0, c1, sys_now_ms, now, w, seq![arg0], password, invalidations_lost, r),
    ensures
        r == ok_reply(),
        s1.contents() == Map::<Seq<u8>, EntryModel>::empty(),
        s1.contents().dom().len() == 0,
        s1.used() == 0,
        same_books(s0, s1),
        c1 == c0,
{
    lemma_flush_words();
    assert(seq![arg0].drop_first() =~= Seq::<Seq<u8>>::empty());
}

/// The words SET is none of the words checked before it.
proof fn lemma_set_word()
    ensures
        "SET"@ != "AUTH"@ && "SET"@ != "HELLO"@ && "SET"@ != "QUIT"@,
        "SET"@ != "PING"@ && "SET"@ != "ECHO"@ && "SET"@ != "GET"@,
{
    reveal_strlit("SET");
    reveal_strlit("AUTH");
    reveal_strlit("HELLO");
    reveal_strlit("QUIT");
    reveal_strlit("PING");
    reveal_strlit("ECHO");
    reveal_strlit("GET");
    assert("SET"@[0] != "GET"@[0]);
}

/// A SET of `key` to `value` with no option words after the value writes
/// unconditionally: whatever the store held, afterwards `key` reads back as
/// `value` with no deadline, and the reply is OK.
pub proof fn lemma_plain_set_writes(
    s0: Store,
    s1: Store,
    c0: bool,
    c1: bool,
    sys_now_ms: i64,
    now: Instant,
    arg0: Seq<u8>,
    key: Seq<u8>,
    value: Seq<u8>,
    password: Option<Seq<u8>>,
    invalidations_lost: u64,
    r: ReplyModel,
)
    requires
        password is None || c0,
        word_post(
            s0,
            s1,
            c0,
            c1,
            sys_now_ms,
            now,
            "SET"@,
            seq![arg0, key, value],
            password,
            invalidations_lost,
            r,
        ),
    ensures
        r == ok_reply(),
        lookup(s1.contents(), now, key) == Some(value),
        s1.contents()[key].expires_at is None,
        c1 == c0,
{
    lemma_set_word();
    let rest = seq![arg0, key, value].drop_first();
    assert(rest =~= seq![key, value]);
    assert(rest.subrange(2, 2) =~= Seq::<Seq<u8>>::empty());
    assert(set_options_spec(sys_now_ms, now, rest.subrange(2, 2)) == Ok::<SetOptions, ReplyModel>(
        no_set_options(),
    ));
    let out = choose|out: SetOutcome|
        {
            &&& set_post(s0, s1, now, rest[0], rest[1], or_never(None), Condition::Always, false, out)
            &&& r == (if false {
                bulk_or_nil(opt_view(out.old_value))
            } else if out.applied {
                ok_reply()
            } else {
                ReplyModel::Bulk(None)
            })
        };
    assert(out.applied);
}

} // verus!
