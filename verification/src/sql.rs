//! The logic behind the SQL surface: the per-transaction queue of cache
//! writes (applied only after commit, dropped on rollback, savepoint-aware),
//! the commands it sends, and how replies are read back as SQL values.

use vstd::prelude::*;
use crate::text::{push_text, utf8_encode};
use crate::decimal::{int_text, parse_i64_spec, parse_i64_bytes, push_i64_text};
use crate::command::vec_args;
use vstd::string::StrSliceExecFns;
use crate::reply::{Reply, ReplyModel};
use crate::client::ClientError;
use crate::decimal::nat_text;
use crate::bytes::{crlf, text};
use crate::dispatch::{info_reply, info_text, SERVER_VERSION};
use crate::store::Store;
use crate::text::lossy_decode;
use vstd::utf8::{encode_scalar, encode_utf8};

verus! {

/// A cache write waiting for its transaction to commit.
#[derive(Debug, Clone)]
pub enum QueuedOp {
    Put { key: String, value: String, ttl_seconds: Option<i64> },
    Del { key: String },
}

/// A queued write and the (sub)transaction that made it.
#[derive(Debug, Clone)]
pub struct QueuedItem {
    pub subxid: u32,
    pub op: QueuedOp,
}

/// The writes of the current transaction, in the order they were made.
pub struct CommitQueue {
    items: Vec<QueuedItem>,
}

impl View for CommitQueue {
    type V = Seq<QueuedItem>;

    closed spec fn view(&self) -> Seq<QueuedItem> {
        self.items@
    }
}

/// `items` with every write made in subtransaction `sub` handed to `parent`.
pub open spec fn reparented(items: Seq<QueuedItem>, sub: u32, parent: u32) -> Seq<QueuedItem> {
    items.map_values(
        |it: QueuedItem|
            if it.subxid == sub {
                QueuedItem { subxid: parent, op: it.op }
            } else {
                it
            },
    )
}

/// The writes of `items` made before subtransaction `sub` began (ids grow
/// with nesting and time, so those are exactly the ones with a smaller id).
pub open spec fn kept_before(items: Seq<QueuedItem>, sub: u32) -> Seq<QueuedItem>
    decreases items.len(),
{
    if items.len() == 0 {
        Seq::empty()
    } else {
        let rest = kept_before(items.drop_last(), sub);
        if items.last().subxid < sub {
            rest.push(items.last())
        } else {
            rest
        }
    }
}

impl CommitQueue {
    pub fn new() -> (q: CommitQueue)
        ensures
            q@ == Seq::<QueuedItem>::empty(),
    {
        CommitQueue { items: Vec::new() }
    }

    pub fn len(&self) -> (n: usize)
        ensures
            n == self@.len(),
    {
        self.items.len()
    }

    /// Records a write made in subtransaction `subxid`.
    pub fn enqueue(&mut self, subxid: u32, op: QueuedOp)
        ensures
            final(self)@ == old(self)@.push(QueuedItem { subxid, op }),
    {
        self.items.push(QueuedItem { subxid, op });
    }

    /// The transaction rolled back: every queued write vanishes.
    pub fn abort(&mut self)
        ensures
            final(self)@ == Seq::<QueuedItem>::empty(),
    {
        self.items = Vec::new();
    }

    /// The transaction committed: hands over every queued write, in order,
    /// and leaves the queue empty.
    pub fn take_for_commit(&mut self) -> (ops: Vec<QueuedItem>)
        ensures
            ops@ == old(self)@,
            final(self)@ == Seq::<QueuedItem>::empty(),
    {
        let mut out: Vec<QueuedItem> = Vec::new();
        std::mem::swap(&mut out, &mut self.items);
        out
    }

    /// Subtransaction `sub` rolled back: its writes, and those of anything
    /// nested inside it, are dropped; earlier writes stay, in order.
    pub fn abort_sub(&mut self, sub: u32)
        ensures
            final(self)@ == kept_before(old(self)@, sub),
    {
        let ghost orig = self.items@;
        let mut kept: Vec<QueuedItem> = Vec::new();
        let mut i: usize = 0;
        while i < self.items.len()
            invariant
                orig == self.items@,
                i <= self.items.len(),
                kept@ == kept_before(orig.take(i as int), sub),
            decreases self.items.len() - i,
        {
            proof {
                assert(orig.take(i + 1).drop_last() =~= orig.take(i as int));
            }
            if self.items[i].subxid < sub {
                kept.push(self.items[i].clone_item());
            }
            i += 1;
        }
        proof {
            assert(orig.take(orig.len() as int) =~= orig);
        }
        self.items = kept;
    }

    /// Subtransaction `sub` committed into `parent`: its writes now belong
    /// to `parent`, so a later rollback of `parent` still drops them.
    pub fn commit_sub(&mut self, sub: u32, parent: u32)
        ensures
            final(self)@ == reparented(old(self)@, sub, parent),
    {
        let ghost orig = self.items@;
        let mut i: usize = 0;
        while i < self.items.len()
            invariant
                orig.len() == self.items@.len(),
                i <= self.items.len(),
                forall|j: int| 0 <= j < i ==> #[trigger] self.items@[j] == reparented(orig, sub, parent)[j],
                forall|j: int| i <= j < orig.len() ==> #[trigger] self.items@[j] == orig[j],
            decreases self.items.len() - i,
        {
            if self.items[i].subxid == sub {
                self.items[i].subxid = parent;
            }
            i += 1;
        }
        proof {
            assert(self.items@ =~= reparented(orig, sub, parent));
        }
    }
}

impl QueuedItem {
    /// A copy of this item.
    pub fn clone_item(&self) -> (c: QueuedItem)
        ensures
            c == *self,
    {
        let op = match &self.op {
            QueuedOp::Put { key, value, ttl_seconds } => QueuedOp::Put {
                key: key.clone(),
                value: value.clone(),
                ttl_seconds: *ttl_seconds,
            },
            QueuedOp::Del { key } => QueuedOp::Del { key: key.clone() },
        };
        QueuedItem { subxid: self.subxid, op }
    }
}

/// Rolling back a subtransaction leaves no write of it, or of anything
/// begun after it, in the queue; every earlier write stays.
pub proof fn lemma_abort_sub_drops_exactly(items: Seq<QueuedItem>, sub: u32)
    ensures
        forall|j: int|
            0 <= j < kept_before(items, sub).len() ==> #[trigger] kept_before(items, sub)[j].subxid
                < sub,
        forall|x: QueuedItem| #[trigger]
            items.contains(x) && x.subxid < sub ==> kept_before(items, sub).contains(x),
        forall|x: QueuedItem| #[trigger]
            kept_before(items, sub).contains(x) ==> items.contains(x),
    decreases items.len(),
{
    if items.len() > 0 {
        let init = items.drop_last();
        lemma_abort_sub_drops_exactly(init, sub);
        let k0 = kept_before(init, sub);
        assert forall|x: QueuedItem| #[trigger]
            items.contains(x) && x.subxid < sub implies kept_before(items, sub).contains(x) by {
            let j = choose|j: int| 0 <= j < items.len() && items[j] == x;
            if j < items.len() - 1 {
                assert(init[j] == x);
                assert(init.contains(x));
                let t = choose|t: int| 0 <= t < k0.len() && k0[t] == x;
                assert(kept_before(items, sub)[t] == x);
            } else {
                assert(kept_before(items, sub).last() == x);
            }
        }
        assert forall|x: QueuedItem| #[trigger]
            kept_before(items, sub).contains(x) implies items.contains(x) by {
            let t = choose|t: int| 0 <= t < kept_before(items, sub).len() && kept_before(items, sub)[t] == x;
            if t < k0.len() {
                assert(k0[t] == x);
                assert(k0.contains(x));
                let j = choose|j: int| 0 <= j < init.len() && init[j] == x;
                assert(items[j] == x);
            } else {
                assert(items.last() == x);
            }
        }
    }
}

/// A released savepoint's writes follow its parent: after committing
/// subtransaction `sub` into `parent` and then rolling back `parent`, none
/// of them is left.
pub proof fn lemma_released_writes_follow_parent(items: Seq<QueuedItem>, sub: u32, parent: u32)
    requires
        parent < sub,
    ensures
        forall|x: QueuedItem| #[trigger]
            kept_before(reparented(items, sub, parent), parent).contains(x) ==> x.subxid < parent,
        forall|j: int|
            0 <= j < items.len() && #[trigger] items[j].subxid == sub ==> !kept_before(
                reparented(items, sub, parent),
                parent,
            ).contains(QueuedItem { subxid: parent, op: items[j].op }),
{
    let r = reparented(items, sub, parent);
    lemma_abort_sub_drops_exactly(r, parent);
    assert forall|x: QueuedItem| #[trigger] kept_before(r, parent).contains(x) implies x.subxid
        < parent by {
        let t = choose|t: int| 0 <= t < kept_before(r, parent).len() && kept_before(r, parent)[t] == x;
    }
}

/// The command a queued write sends: `SET key value [EX ttl]` or
/// `DEL key`.
pub open spec fn op_command(op: QueuedOp) -> Seq<Seq<u8>> {
    match op {
        QueuedOp::Put { key, value, ttl_seconds } => {
            let base = seq![
                crate::bytes::text("SET"),
                crate::text::utf8_encode(key@),
                crate::text::utf8_encode(value@),
            ];
            match ttl_seconds {
                Some(t) => base + seq![
                    crate::bytes::text("EX"),
                    crate::decimal::int_text(t as int),
                ],
                None => base,
            }
        },
        QueuedOp::Del { key } => seq![crate::bytes::text("DEL"), crate::text::utf8_encode(key@)],
    }
}

/// A queued `resp.set` without a TTL, sent after commit to a connection
/// past the password check, writes unconditionally: whatever the cache
/// held, the key then reads back as the value, with no deadline, and the
/// reply is OK.
pub proof fn lemma_queued_put_writes(
    key: String,
    value: String,
    s0: Store,
    s1: Store,
    c0: bool,
    c1: bool,
    sys_now_ms: i64,
    now: crate::clock::Instant,
    password: Option<Seq<u8>>,
    invalidations_lost: u64,
    r: ReplyModel,
)
    requires
        password is None || c0,
        crate::dispatch::word_post(
            s0,
            s1,
            c0,
            c1,
            sys_now_ms,
            now,
            "SET"@,
            op_command(QueuedOp::Put { key, value, ttl_seconds: None }),
            password,
            invalidations_lost,
            r,
        ),
    ensures
        r == crate::dispatch::ok_reply(),
        crate::store::lookup(s1.contents(), now, utf8_encode(key@)) == Some(utf8_encode(value@)),
        s1.contents()[utf8_encode(key@)].expires_at is None,
{
    crate::dispatch::lemma_plain_set_writes(
        s0,
        s1,
        c0,
        c1,
        sys_now_ms,
        now,
        crate::bytes::text("SET"),
        utf8_encode(key@),
        utf8_encode(value@),
        password,
        invalidations_lost,
        r,
    );
}

/// The arguments of the command a queued write sends.
pub fn op_command_args(op: &QueuedOp) -> (r: Vec<Vec<u8>>)
    ensures
        vec_args(r@) == op_command(*op),
{
    let mut r: Vec<Vec<u8>> = Vec::new();
    match op {
        QueuedOp::Put { key, value, ttl_seconds } => {
            r.push(crate::bytes::text_bytes("SET"));
            r.push(crate::text::into_bytes(key.clone()));
            r.push(crate::text::into_bytes(value.clone()));
            match ttl_seconds {
                Some(t) => {
                    r.push(crate::bytes::text_bytes("EX"));
                    let mut tt: Vec<u8> = Vec::new();
                    push_i64_text(&mut tt, *t);
                    assert(tt@ =~= int_text(*t as int));
                    r.push(tt);
                },
                None => {},
            }
        },
        QueuedOp::Del { key } => {
            r.push(crate::bytes::text_bytes("DEL"));
            r.push(crate::text::into_bytes(key.clone()));
        },
    }
    assert(vec_args(r@) =~= op_command(*op));
    r
}

/// `char::is_whitespace`: the Unicode White_Space characters.
pub open spec fn is_space(c: char) -> bool {
    let n = c as u32;
    ||| 9 <= n <= 13
    ||| n == 32
    ||| n == 0x85
    ||| n == 0xA0
    ||| n == 0x1680
    ||| 0x2000 <= n <= 0x200A
    ||| n == 0x2028
    ||| n == 0x2029
    ||| n == 0x202F
    ||| n == 0x205F
    ||| n == 0x3000
}

/// `s` without its trailing carriage returns.
pub open spec fn trim_end_cr(s: Seq<char>) -> Seq<char>
    decreases s.len(),
{
    if s.len() > 0 && s.last() == '\r' {
        trim_end_cr(s.drop_last())
    } else {
        s
    }
}

/// `s` without its leading ':' and '=' characters.
pub open spec fn trim_start_sep(s: Seq<char>) -> Seq<char>
    decreases s.len(),
{
    if s.len() > 0 && (s[0] == ':' || s[0] == '=') {
        trim_start_sep(s.drop_first())
    } else {
        s
    }
}

pub open spec fn trim_start_space(s: Seq<char>) -> Seq<char>
    decreases s.len(),
{
    if s.len() > 0 && is_space(s[0]) {
        trim_start_space(s.drop_first())
    } else {
        s
    }
}

pub open spec fn trim_end_space(s: Seq<char>) -> Seq<char>
    decreases s.len(),
{
    if s.len() > 0 && is_space(s.last()) {
        trim_end_space(s.drop_last())
    } else {
        s
    }
}

/// `str::parse::<i64>` on characters: only ASCII text can be a number.
pub open spec fn parse_i64_chars(s: Seq<char>) -> Option<i64> {
    if forall|i: int| 0 <= i < s.len() ==> (s[i] as u32) < 128 {
        parse_i64_spec(s.map_values(|c: char| (c as u32) as u8))
    } else {
        None
    }
}

/// The value one line of INFO gives for `field`: the line (carriage
/// returns at its end dropped) must start with the field's name; then any
/// ':' and '=' are skipped, surrounding white space trimmed, and the rest
/// must be an integer.
pub open spec fn line_value(line: Seq<char>, field: Seq<char>) -> Option<i64> {
    let l = trim_end_cr(line);
    if field.is_prefix_of(l) {
        parse_i64_chars(trim_end_space(trim_start_space(trim_start_sep(l.skip(field.len() as int)))))
    } else {
        None
    }
}

/// Where the line starting at `start` ends: the next '\n', or the end.
pub open spec fn line_end(info: Seq<char>, start: int) -> int
    decreases info.len() - start,
{
    if start >= info.len() || info[start] == '\n' {
        start
    } else {
        line_end(info, start + 1)
    }
}

/// The first value for `field` among the lines from `start` on.
pub open spec fn info_field_from(info: Seq<char>, field: Seq<char>, start: int) -> Option<i64>
    decreases info.len() - start,
{
    if start < 0 || start > info.len() {
        None
    } else {
        let end = line_end(info, start);
        proof {
            lemma_line_end(info, start);
        }
        let v = line_value(info.subrange(start, end), field);
        if v is Some || end >= info.len() {
            v
        } else {
            info_field_from(info, field, end + 1)
        }
    }
}

pub proof fn lemma_line_end(info: Seq<char>, start: int)
    requires
        0 <= start <= info.len(),
    ensures
        start <= line_end(info, start) <= info.len(),
        line_end(info, start) < info.len() ==> info[line_end(info, start)] == '\n',
        forall|j: int| start <= j < line_end(info, start) ==> info[j] != '\n',
    decreases info.len() - start,
{
    if start < info.len() && info[start] != '\n' {
        lemma_line_end(info, start + 1);
    }
}

fn chars_of(s: &str) -> (v: Vec<char>)
    ensures
        v@ == s@,
{
    let n = s.unicode_len();
    let mut v: Vec<char> = Vec::new();
    let mut i: usize = 0;
    while i < n
        invariant
            n == s@.len(),
            i <= n,
            v@ == s@.take(i as int),
        decreases n - i,
    {
        v.push(s.get_char(i));
        i += 1;
        assert(v@ =~= s@.take(i as int));
    }
    assert(s@.take(n as int) =~= s@);
    v
}

fn is_space_char(c: char) -> (b: bool)
    ensures
        b == is_space(c),
{
    let n = c as u32;
    (9 <= n && n <= 13) || n == 32 || n == 0x85 || n == 0xA0 || n == 0x1680 || (0x2000 <= n && n
        <= 0x200A) || n == 0x2028 || n == 0x2029 || n == 0x202F || n == 0x205F || n == 0x3000
}

/// The value of the line `info[start..end]` for `field`.
fn value_in_line(info: &Vec<char>, start: usize, end: usize, field: &Vec<char>) -> (r: Option<i64>)
    requires
        start <= end <= info.len(),
    ensures
        r == line_value(info@.subrange(start as int, end as int), field@),
{
    let ghost line = info@.subrange(start as int, end as int);
    let mut e = end;
    while e > start && info[e - 1] == '\r'
        invariant
            start <= e <= end <= info.len(),
            line == info@.subrange(start as int, end as int),
            trim_end_cr(line) == trim_end_cr(info@.subrange(start as int, e as int)),
        decreases e,
    {
        assert(info@.subrange(start as int, e as int).drop_last() =~= info@.subrange(
            start as int,
            e - 1,
        ));
        e -= 1;
    }
    let ghost l = info@.subrange(start as int, e as int);
    assert(trim_end_cr(line) == l);
    if field.len() > e - start {
        assert(!field@.is_prefix_of(l));
        return None;
    }
    let mut k: usize = 0;
    while k < field.len()
        invariant
            start <= e <= info.len(),
            field.len() <= e - start,
            k <= field.len(),
            forall|j: int| 0 <= j < k ==> field@[j] == l[j],
            l == info@.subrange(start as int, e as int),
            trim_end_cr(line) == l,
            line == info@.subrange(start as int, end as int),
        decreases field.len() - k,
    {
        if field[k] != info[start + k] {
            assert(l[k as int] == info@[start + k]);
            assert(!field@.is_prefix_of(l));
            return None;
        }
        k += 1;
    }
    assert(field@.is_prefix_of(l)) by {
        assert(l.take(field.len() as int) =~= field@);
    }
    let ghost rest0 = l.skip(field.len() as int);
    assert(rest0 =~= info@.subrange((start + field.len()) as int, e as int));
    let mut a = start + field.len();
    while a < e && (info[a] == ':' || info[a] == '=')
        invariant
            start + field.len() <= a <= e <= info.len(),
            trim_start_sep(rest0) == trim_start_sep(info@.subrange(a as int, e as int)),
        decreases e - a,
    {
        assert(info@.subrange(a as int, e as int).drop_first() =~= info@.subrange(a + 1, e as int));
        a += 1;
    }
    let ghost sep_done = info@.subrange(a as int, e as int);
    assert(trim_start_sep(rest0) == sep_done);
    while a < e && is_space_char(info[a])
        invariant
            a <= e <= info.len(),
            trim_start_space(sep_done) == trim_start_space(info@.subrange(a as int, e as int)),
        decreases e - a,
    {
        assert(info@.subrange(a as int, e as int).drop_first() =~= info@.subrange(a + 1, e as int));
        a += 1;
    }
    let ghost space_done = info@.subrange(a as int, e as int);
    assert(trim_start_space(sep_done) == space_done);
    let mut b = e;
    while b > a && is_space_char(info[b - 1])
        invariant
            a <= b <= e <= info.len(),
            trim_end_space(space_done) == trim_end_space(info@.subrange(a as int, b as int)),
            space_done == info@.subrange(a as int, e as int),
        decreases b,
    {
        assert(info@.subrange(a as int, b as int).drop_last() =~= info@.subrange(a as int, b - 1));
        b -= 1;
    }
    let ghost t = info@.subrange(a as int, b as int);
    assert(trim_end_space(space_done) == t);
    assert(line_value(line, field@) == parse_i64_chars(t));
    let mut bytes: Vec<u8> = Vec::new();
    let mut j = a;
    while j < b
        invariant
            a <= j <= b <= info.len(),
            t == info@.subrange(a as int, b as int),
            bytes@.len() == j - a,
            forall|x: int| 0 <= x < j - a ==> (#[trigger] t[x] as u32) < 128,
            line_value(info@.subrange(start as int, end as int), field@) == parse_i64_chars(t),
            bytes@ == t.take(j - a).map_values(|c: char| (c as u32) as u8),
        decreases b - j,
    {
        let c = info[j];
        assert(t[j - a] == c);
        let n = c as u32;
        if n >= 128 {
            assert(!(forall|i: int| 0 <= i < t.len() ==> (t[i] as u32) < 128));
            return None;
        }
        let byte = n as u8;
        assert(n == (t[j - a] as u32));
        assert((t[j - a] as u32) < 128);
        assert(byte == (t[j - a] as u32) as u8);
        bytes.push(byte);
        assert(bytes@ =~= t.take(j + 1 - a).map_values(|c: char| (c as u32) as u8));
        j += 1;
    }
    assert(t.take(t.len() as int) =~= t);
    parse_i64_bytes(bytes.as_slice())
}

/// Reads an integer field out of an INFO payload: the first line that
/// starts with `field` and, after any ':' or '=' separators and white
/// space, holds an integer. Handles both `name:value` and `db0:keys=N`
/// lines, and LF as well as CRLF line ends.
pub fn parse_info_field(info: &str, field: &str) -> (r: Option<i64>)
    ensures
        r == info_field_from(info@, field@, 0),
{
    let cs = chars_of(info);
    let fs = chars_of(field);
    let mut start: usize = 0;
    while start <= cs.len()
        invariant
            cs@ == info@,
            fs@ == field@,
            start <= cs.len(),
            info_field_from(info@, field@, 0) == info_field_from(info@, field@, start as int),
        decreases cs.len() - start,
    {
        let mut end = start;
        while end < cs.len() && cs[end] != '\n'
            invariant
                start <= end <= cs.len(),
                line_end(cs@, start as int) == line_end(cs@, end as int),
            decreases cs.len() - end,
        {
            end += 1;
        }
        let v = value_in_line(&cs, start, end, &fs);
        if v.is_some() || end >= cs.len() {
            return v;
        }
        start = end + 1;
    }
    None
}

/// The two characters that end an INFO line.
pub open spec fn crlf_chars() -> Seq<char> {
    seq!['\r', '\n']
}

/// An empty line gives no value, whatever the field.
proof fn lemma_empty_line_value(f: Seq<char>)
    ensures
        line_value(Seq::<char>::empty(), f) is None,
{
    let e = Seq::<char>::empty();
    assert(trim_end_cr(e) == e);
    if f.is_prefix_of(e) {
        assert(e.skip(f.len() as int) =~= e);
        assert(trim_start_sep(e) == e);
        assert(trim_start_space(e) == e);
        assert(trim_end_space(e) == e);
        assert(e.map_values(|c: char| (c as u32) as u8) =~= Seq::<u8>::empty());
    }
}

/// Line ends are found the same way behind a prefix.
proof fn lemma_line_end_shift(p: Seq<char>, s: Seq<char>, k: int)
    requires
        0 <= k <= s.len(),
    ensures
        line_end(p + s, p.len() + k) == p.len() + line_end(s, k),
    decreases s.len() - k,
{
    if k < s.len() && s[k] != '\n' {
        assert((p + s)[p.len() + k] == s[k]);
        lemma_line_end_shift(p, s, k + 1);
    } else if k < s.len() {
        assert((p + s)[p.len() + k] == s[k]);
    }
}

/// Reading a field from the lines of `s` is unchanged by a prefix that ends
/// before them.
proof fn lemma_field_shift(p: Seq<char>, s: Seq<char>, f: Seq<char>, k: int)
    requires
        0 <= k <= s.len(),
    ensures
        info_field_from(p + s, f, p.len() + k) == info_field_from(s, f, k),
    decreases s.len() - k,
{
    let x = p + s;
    lemma_line_end_shift(p, s, k);
    lemma_line_end(s, k);
    let e = line_end(s, k);
    assert(x.subrange(p.len() + k, p.len() + e) =~= s.subrange(k, e));
    if e < s.len() {
        lemma_field_shift(p, s, f, e + 1);
    }
}

/// Inside `x`, which ends with a line feed, a line ends where it ends in `x`
/// alone, whatever follows `x`.
proof fn lemma_line_end_within(x: Seq<char>, y: Seq<char>, start: int)
    requires
        0 <= start < x.len(),
        x.last() == '\n',
    ensures
        line_end(x + y, start) == line_end(x, start),
        line_end(x, start) < x.len(),
    decreases x.len() - start,
{
    assert((x + y)[start] == x[start]);
    if x[start] != '\n' {
        lemma_line_end_within(x, y, start + 1);
    }
}

/// `lemma_field_concat`, from any line start inside `x`.
proof fn lemma_field_concat_from(x: Seq<char>, y: Seq<char>, f: Seq<char>, start: int)
    requires
        0 <= start <= x.len(),
        x.len() > 0,
        x.last() == '\n',
    ensures
        info_field_from(x + y, f, start) == (match info_field_from(x, f, start) {
            Some(v) => Some(v),
            None => info_field_from(y, f, 0),
        }),
    decreases x.len() - start,
{
    if start == x.len() {
        lemma_field_shift(x, y, f, 0);
        assert(line_end(x, start) == start);
        assert(x.subrange(start, start) =~= Seq::<char>::empty());
        lemma_empty_line_value(f);
    } else {
        lemma_line_end_within(x, y, start);
        lemma_line_end(x, start);
        let e = line_end(x, start);
        assert((x + y).subrange(start, e) =~= x.subrange(start, e));
        lemma_field_concat_from(x, y, f, e + 1);
    }
}

/// The field read from `x + y`, where `x` ends with a line feed: the value
/// from the lines of `x` if they give one, else the value from `y`.
pub broadcast proof fn lemma_field_concat(x: Seq<char>, y: Seq<char>, f: Seq<char>)
    requires
        x.len() > 0,
        x.last() == '\n',
    ensures
        #[trigger] info_field_from(x + y, f, 0) == (match info_field_from(x, f, 0) {
            Some(v) => Some(v),
            None => info_field_from(y, f, 0),
        }),
{
    lemma_field_concat_from(x, y, f, 0);
}

/// A single line `body` ended by CR LF gives the value of `body` itself.
proof fn lemma_field_one_line(body: Seq<char>, f: Seq<char>)
    requires
        body.len() > 0,
        body.last() != '\r',
        forall|i: int| 0 <= i < body.len() ==> body[i] != '\n',
    ensures
        info_field_from(body + crlf_chars(), f, 0) == line_value(body, f),
{
    let x = body + crlf_chars();
    let n = body.len() as int;
    assert(x[n] == '\r');
    assert(x[n + 1] == '\n');
    assert forall|j: int| 0 <= j <= n implies x[j] != '\n' by {
        if j < n {
            assert(x[j] == body[j]);
        }
    }
    assert(line_end(x, 0) == n + 1) by {
        lemma_line_end(x, 0);
        if line_end(x, 0) < n + 1 {
            assert(x[line_end(x, 0)] != '\n');
        }
    }
    let l = x.subrange(0, n + 1);
    assert(l.drop_last() =~= body);
    assert(trim_end_cr(l) == trim_end_cr(body));
    assert(trim_end_cr(body) == body);
    assert(line_value(l, f) == line_value(body, f));
    assert(line_end(x, n + 2) == n + 2);
    assert(x.subrange(n + 2, n + 2) =~= Seq::<char>::empty());
    lemma_empty_line_value(f);
    assert(info_field_from(x, f, n + 2) is None);
}

/// A line that differs from the field's name within the name gives no
/// value for it.
proof fn lemma_line_mismatch(body: Seq<char>, f: Seq<char>, k: int)
    requires
        0 <= k < f.len(),
        k < body.len(),
        f[k] != body[k],
        body.last() != '\r',
    ensures
        line_value(body, f) is None,
{
    assert(trim_end_cr(body) == body);
    if f.is_prefix_of(body) {
        assert(body.subrange(0, f.len() as int)[k] == body[k]);
    }
}

/// The characters of the decimal digits of `n`: at least one, each a digit,
/// and they encode (as UTF-8, and back to bytes) as those digits.
proof fn lemma_digit_chars(n: nat)
    ensures
        nat_chars(n).len() >= 1,
        forall|i: int|
            0 <= i < nat_chars(n).len() ==> 48 <= (#[trigger] nat_chars(n)[i] as u32) <= 57,
        vstd::utf8::encode_utf8(nat_chars(n)) == nat_text(n),
        nat_chars(n).map_values(|c: char| (c as u32) as u8) == nat_text(n),
{
    crate::decimal::lemma_nat_text(n);
    let t = nat_text(n);
    let d = nat_chars(n);
    assert forall|i: int| 0 <= i < d.len() implies 48 <= (#[trigger] d[i] as u32) <= 57 by {
        assert(crate::decimal::is_digit(t[i]));
    }
    assert(vstd::utf8::is_ascii_chars(d)) by {
        assert forall|i: int| 0 <= i < d.len() implies '\0' <= #[trigger] d[i] <= '\u{7f}' by {
            assert(crate::decimal::is_digit(t[i]));
        }
    }
    vstd::utf8::is_ascii_chars_encode_utf8(d);
    assert(vstd::utf8::encode_utf8(d) =~= t) by {
        assert forall|i: int| 0 <= i < t.len() implies vstd::utf8::encode_utf8(d)[i] == t[i] by {
            assert(crate::decimal::is_digit(t[i]));
            assert(d[i] as u8 == t[i]);
        }
    }
    assert(d.map_values(|c: char| (c as u32) as u8) =~= t);
}

/// A counter line `name` + digits of `n`, where `name` is the field followed
/// by its separator, gives `n` for that field.
proof fn lemma_count_value(name: Seq<char>, f: Seq<char>, sep: char, n: nat)
    requires
        name == f + seq![sep],
        sep == ':' || sep == '=',
        n <= i64::MAX,
    ensures
        line_value(name + nat_chars(n), f) == Some(n as i64),
{
    lemma_digit_chars(n);
    let d = nat_chars(n);
    let body = name + d;
    assert(body.last() == d.last());
    assert(48 <= (d[d.len() - 1] as u32) <= 57);
    assert(trim_end_cr(body) == body);
    assert(f.is_prefix_of(body)) by {
        assert(body.subrange(0, f.len() as int) =~= f);
    }
    let rest = body.skip(f.len() as int);
    assert(rest =~= seq![sep] + d);
    assert(rest.drop_first() =~= d);
    assert(48 <= (d[0] as u32) <= 57);
    assert(trim_start_sep(d) == d);
    assert(trim_start_sep(rest) == d);
    assert(trim_start_space(d) == d);
    assert(trim_end_space(d) == d);
    assert(forall|i: int| 0 <= i < d.len() ==> (d[i] as u32) < 128);
    crate::decimal::lemma_parse_nat_text(n as u64);
}

/// `String::from_utf8`: the text whose UTF-8 encoding is `b`, or nothing
/// when `b` is not valid UTF-8.
#[verifier::external_body]
fn string_from_utf8(b: Vec<u8>) -> (r: Option<String>)
    ensures
        match r {
            Some(s) => utf8_encode(s@) == b@,
            None => forall|s: Seq<char>| utf8_encode(s) != b@,
        },
{
    String::from_utf8(b).ok()
}

/// What a GET reply means as SQL text.
pub enum TextOutcome {
    /// The key is absent: SQL NULL.
    Null,
    /// The value, valid UTF-8 with no NUL byte.
    Text(String),
    /// The value is bytes SQL text cannot hold.
    NotText,
    /// Not a bulk reply at all.
    Unexpected,
}

/// Reads a GET reply as SQL text: a null bulk is NULL; a bulk that is
/// valid UTF-8 without NUL bytes is its text; any other bulk cannot be SQL
/// text; any other reply is unexpected.
pub fn bulk_to_text(reply: Reply) -> (r: TextOutcome)
    ensures
        match reply@ {
            ReplyModel::Bulk(None) => r is Null,
            ReplyModel::Bulk(Some(b)) => if (exists|s: Seq<char>| utf8_encode(s) == b) && !b.contains(0u8) {
                r matches TextOutcome::Text(t) && utf8_encode(t@) == b
            } else {
                r is NotText
            },
            _ => r is Unexpected,
        },
{
    match reply {
        Reply::Bulk(None) => TextOutcome::Null,
        Reply::Bulk(Some(bytes)) => {
            let ghost b = bytes@;
            let mut has_nul = false;
            let mut i: usize = 0;
            while i < bytes.len()
                invariant
                    i <= bytes.len(),
                    b == bytes@,
                    has_nul == exists|j: int| 0 <= j < i && bytes@[j] == 0u8,
                decreases bytes.len() - i,
            {
                if bytes[i] == 0 {
                    has_nul = true;
                }
                i += 1;
            }
            assert(has_nul == b.contains(0u8));
            match string_from_utf8(bytes) {
                Some(t) => if has_nul {
                    TextOutcome::NotText
                } else {
                    TextOutcome::Text(t)
                },
                None => TextOutcome::NotText,
            }
        },
        _ => TextOutcome::Unexpected,
    }
}

/// Reads an EXISTS reply: a positive count means present; `None` for a
/// reply that is not an integer.
pub fn interpret_exists(reply: &Reply) -> (r: Option<bool>)
    ensures
        match reply@ {
            ReplyModel::Integer(n) => r == Some(n > 0),
            _ => r is None,
        },
{
    match reply {
        Reply::Integer(n) => Some(*n > 0),
        _ => None,
    }
}

/// Reads a TTL reply: the integer as is; `None` for anything else.
pub fn interpret_ttl(reply: &Reply) -> (r: Option<i64>)
    ensures
        match reply@ {
            ReplyModel::Integer(n) => r == Some(n),
            _ => r is None,
        },
{
    match reply {
        Reply::Integer(n) => Some(*n),
        _ => None,
    }
}

/// The text a KEYS item becomes: a bulk string's bytes decoded lossily,
/// anything else the empty string.
pub open spec fn key_text(item: ReplyModel) -> Seq<char> {
    match item {
        ReplyModel::Bulk(Some(b)) => crate::text::lossy_text(b),
        _ => Seq::empty(),
    }
}

/// Reads a KEYS reply: one text per array element; a null array is empty;
/// `None` for a reply that is not an array.
pub fn interpret_keys(reply: &Reply) -> (r: Option<Vec<String>>)
    ensures
        match reply@ {
            ReplyModel::Array(Some(items)) => r matches Some(v) && v.len() == items.len() && forall|i: int|
                0 <= i < items.len() ==> (#[trigger] v@[i])@ == key_text(items[i]),
            ReplyModel::Array(None) => r matches Some(v) && v.len() == 0,
            _ => r is None,
        },
{
    match reply {
        Reply::Array(Some(items)) => {
            proof {
                crate::reply::lemma_reply_models(items@);
            }
            let mut out: Vec<String> = Vec::new();
            let mut i: usize = 0;
            while i < items.len()
                invariant
                    i <= items.len(),
                    out.len() == i,
                    forall|j: int|
                        0 <= j < i ==> (#[trigger] out@[j])@ == key_text(items@[j]@),
                decreases items.len() - i,
            {
                let t = match &items[i] {
                    Reply::Bulk(Some(b)) => crate::text::from_utf8_lossy(b.as_slice()),
                    _ => String::new(),
                };
                out.push(t);
                i += 1;
            }
            Some(out)
        },
        Reply::Array(None) => Some(Vec::new()),
        _ => None,
    }
}

/// The row `resp.stats()` returns.
pub struct StatsRow {
    pub keys: i64,
    pub used_bytes: i64,
    pub max_memory_bytes: i64,
    pub keyspace_hits: i64,
    pub keyspace_misses: i64,
    pub evicted_keys: i64,
    pub invalidations_lost: i64,
}

pub open spec fn field_or_zero(info: Seq<char>, name: &str) -> i64 {
    match info_field_from(info, name@, 0) {
        Some(v) => v,
        None => 0,
    }
}

fn field_value(info: &str, name: &str) -> (v: i64)
    ensures
        v == field_or_zero(info@, name),
{
    match parse_info_field(info, name) {
        Some(v) => v,
        None => 0,
    }
}

/// Reads an INFO reply as the stats row: each field parsed from the reply's
/// text (its bytes decoded as UTF-8, lossily), 0 where a field is missing;
/// `None` for a reply that is not a bulk string.
pub fn stats_from_info(reply: &Reply) -> (r: Option<StatsRow>)
    ensures
        match reply@ {
            ReplyModel::Bulk(Some(b)) => r matches Some(row) && {
                let t = lossy_decode(b);
                &&& row.keys == field_or_zero(t, "db0:keys")
                &&& row.used_bytes == field_or_zero(t, "used_memory")
                &&& row.max_memory_bytes == field_or_zero(t, "maxmemory")
                &&& row.keyspace_hits == field_or_zero(t, "keyspace_hits")
                &&& row.keyspace_misses == field_or_zero(t, "keyspace_misses")
                &&& row.evicted_keys == field_or_zero(t, "evicted_keys")
                &&& row.invalidations_lost == field_or_zero(t, "invalidations_lost")
            },
            _ => r is None,
        },
{
    match reply {
        Reply::Bulk(Some(bytes)) => {
            let text = crate::text::from_utf8_lossy(bytes.as_slice());
            let t = text.as_str();
            Some(
                StatsRow {
                    keys: field_value(t, "db0:keys"),
                    used_bytes: field_value(t, "used_memory"),
                    max_memory_bytes: field_value(t, "maxmemory"),
                    keyspace_hits: field_value(t, "keyspace_hits"),
                    keyspace_misses: field_value(t, "keyspace_misses"),
                    evicted_keys: field_value(t, "evicted_keys"),
                    invalidations_lost: field_value(t, "invalidations_lost"),
                },
            )
        },
        _ => None,
    }
}

/// The UTF-8 encoding of a concatenation is the concatenation of the
/// encodings.
pub broadcast proof fn lemma_encode_concat(a: Seq<char>, b: Seq<char>)
    ensures
        #[trigger] encode_utf8(a + b) == encode_utf8(a) + encode_utf8(b),
    decreases a.len(),
{
    if a.len() == 0 {
        assert(a + b =~= b);
        assert(encode_utf8(a) + encode_utf8(b) =~= encode_utf8(b));
    } else {
        assert((a + b).drop_first() =~= a.drop_first() + b);
        lemma_encode_concat(a.drop_first(), b);
        assert(encode_utf8(a + b) =~= encode_utf8(a) + encode_utf8(b));
    }
}

/// CR LF as characters encodes as the CR LF bytes.
proof fn lemma_encode_crlf()
    ensures
        encode_utf8(crlf_chars()) == crlf(),
{
    assert((13u32 & 0x7F) as u8 == 13u8) by (bit_vector);
    assert((10u32 & 0x7F) as u8 == 10u8) by (bit_vector);
    assert(encode_scalar(13) =~= seq![13u8]);
    assert(encode_scalar(10) =~= seq![10u8]);
    assert(crlf_chars().drop_first() =~= seq!['\n']);
    assert(seq!['\n'].drop_first() =~= Seq::<char>::empty());
    assert(encode_utf8(Seq::<char>::empty()) =~= Seq::<u8>::empty());
    assert(encode_utf8(seq!['\n']) =~= seq![10u8]);
    assert(encode_utf8(crlf_chars()) =~= crlf());
}

/// No line feed in `s`.
pub open spec fn no_line_feed(s: Seq<char>) -> bool {
    forall|i: int| 0 <= i < s.len() ==> s[i] != '\n'
}

/// A line of INFO that reads as itself: not empty, no line feed inside, not
/// ending in a carriage return.
pub open spec fn plain_body(s: Seq<char>) -> bool {
    s.len() > 0 && no_line_feed(s) && s.last() != '\r'
}

/// The value of a line `body` ended by CR LF, read on its own.
pub broadcast proof fn lemma_field_line(body: Seq<char>, f: Seq<char>)
    requires
        #[trigger] plain_body(body),
    ensures
        #[trigger] info_field_from(body + crlf_chars(), f, 0) == line_value(body, f),
{
    lemma_field_one_line(body, f);
}

/// A line whose first character is not the field's gives no value for it.
pub broadcast proof fn lemma_first_char_mismatch(body: Seq<char>, f: Seq<char>)
    requires
        f.len() > 0,
        body.len() > 0,
        f[0] != body[0],
        body.last() != '\r',
    ensures
        #[trigger] line_value(body, f) is None,
{
    lemma_line_mismatch(body, f, 0);
}

/// The characters of a counter line's body: the name with its separator,
/// then the count's digits.
pub open spec fn count_body(name: &str, n: nat) -> Seq<char> {
    name@ + nat_chars(n)
}

/// A counter line's body reads as a line of its own, starts with the
/// name, and encodes as the name's bytes and the digits.
proof fn lemma_count_body(name: &str, n: nat)
    requires
        name@.len() > 0,
        no_line_feed(name@),
    ensures
        plain_body(count_body(name, n)),
        count_body(name, n)[0] == name@[0],
        encode_utf8(count_body(name, n)) == text(name) + nat_text(n),
{
    lemma_digit_chars(n);
    let d = nat_chars(n);
    let b = count_body(name, n);
    assert(b.last() == d[d.len() - 1]);
    assert(48 <= (d[d.len() - 1] as u32) <= 57);
    assert forall|i: int| 0 <= i < b.len() implies b[i] != '\n' by {
        if i >= name@.len() {
            assert(b[i] == d[i - name@.len()]);
            assert(48 <= (d[i - name@.len()] as u32) <= 57);
        }
    }
    lemma_encode_concat(name@, d);
}

/// The characters of the INFO text, line by line, as `info_text` lays out
/// its bytes.
pub open spec fn info_chars(
    keys: nat,
    used: nat,
    max_memory: Option<usize>,
    hits: u64,
    misses: u64,
    evictions: u64,
    invalidations_lost: u64,
) -> Seq<char> {
    ("# Server"@ + crlf_chars()) + ("redis_version:7.0.0"@ + crlf_chars()) + (
    "pg_resp_version:"@ + SERVER_VERSION@ + crlf_chars()) + ("# Memory"@ + crlf_chars()) + (
    count_body("used_memory:", used) + crlf_chars()) + (count_body(
        "maxmemory:",
        match max_memory {
            Some(b) => b as nat,
            None => 0,
        },
    ) + crlf_chars()) + ("# Stats"@ + crlf_chars()) + (count_body("keyspace_hits:", hits as nat)
        + crlf_chars()) + (count_body("keyspace_misses:", misses as nat) + crlf_chars()) + (
    count_body("evicted_keys:", evictions as nat) + crlf_chars()) + (count_body(
        "invalidations_lost:",
        invalidations_lost as nat,
    ) + crlf_chars()) + ("# Keyspace"@ + crlf_chars()) + (count_body("db0:keys=", keys)
        + crlf_chars())
}

/// The INFO text is valid UTF-8, and decodes to `info_chars`.
proof fn lemma_info_decodes(
    keys: nat,
    used: nat,
    max_memory: Option<usize>,
    hits: u64,
    misses: u64,
    evictions: u64,
    lost: u64,
)
    ensures
        lossy_decode(info_text(keys, used, max_memory, hits, misses, evictions, lost))
            == info_chars(keys, used, max_memory, hits, misses, evictions, lost),
{
    reveal_strlit("used_memory:");
    reveal_strlit("maxmemory:");
    reveal_strlit("keyspace_hits:");
    reveal_strlit("keyspace_misses:");
    reveal_strlit("evicted_keys:");
    reveal_strlit("invalidations_lost:");
    reveal_strlit("db0:keys=");
    let mm: nat = match max_memory {
        Some(b) => b as nat,
        None => 0,
    };
    lemma_count_body("used_memory:", used);
    lemma_count_body("maxmemory:", mm);
    lemma_count_body("keyspace_hits:", hits as nat);
    lemma_count_body("keyspace_misses:", misses as nat);
    lemma_count_body("evicted_keys:", evictions as nat);
    lemma_count_body("invalidations_lost:", lost as nat);
    lemma_count_body("db0:keys=", keys);
    lemma_encode_crlf();
    broadcast use lemma_encode_concat;

    let c = info_chars(keys, used, max_memory, hits, misses, evictions, lost);
    let b = info_text(keys, used, max_memory, hits, misses, evictions, lost);
    assert(encode_utf8(c) == b);
    vstd::utf8::encode_utf8_valid_utf8(c);
    vstd::utf8::encode_utf8_decode_utf8(c);
}

/// Each field's value in the INFO text of the given counts: the count on
/// its own line, wherever it fits in an `i64`.
#[verifier::spinoff_prover]
#[verifier::rlimit(60)]
proof fn lemma_info_fields(
    keys: nat,
    used: nat,
    mm: nat,
    max_memory: Option<usize>,
    hits: u64,
    misses: u64,
    evictions: u64,
    lost: u64,
)
    requires
        mm == (match max_memory {
            Some(b) => b as nat,
            None => 0,
        }),
        keys <= i64::MAX,
        used <= i64::MAX,
        mm <= i64::MAX,
        hits <= i64::MAX,
        misses <= i64::MAX,
        evictions <= i64::MAX,
        lost <= i64::MAX,
    ensures
        ({
            let c = info_chars(keys, used, max_memory, hits, misses, evictions, lost);
            &&& field_or_zero(c, "db0:keys") == keys
            &&& field_or_zero(c, "used_memory") == used
            &&& field_or_zero(c, "maxmemory") == mm
            &&& field_or_zero(c, "keyspace_hits") == hits
            &&& field_or_zero(c, "keyspace_misses") == misses
            &&& field_or_zero(c, "evicted_keys") == evictions
            &&& field_or_zero(c, "invalidations_lost") == lost
        }),
{
    reveal_strlit("# Server");
    reveal_strlit("redis_version:7.0.0");
    reveal_strlit("pg_resp_version:");
    reveal_strlit("0.1.0");
    reveal_strlit("# Memory");
    reveal_strlit("# Stats");
    reveal_strlit("# Keyspace");
    reveal_strlit("used_memory:");
    reveal_strlit("maxmemory:");
    reveal_strlit("keyspace_hits:");
    reveal_strlit("keyspace_misses:");
    reveal_strlit("evicted_keys:");
    reveal_strlit("invalidations_lost:");
    reveal_strlit("db0:keys=");
    reveal_strlit("db0:keys");
    reveal_strlit("used_memory");
    reveal_strlit("maxmemory");
    reveal_strlit("keyspace_hits");
    reveal_strlit("keyspace_misses");
    reveal_strlit("evicted_keys");
    reveal_strlit("invalidations_lost");
    assert(plain_body("# Server"@));
    assert(plain_body("redis_version:7.0.0"@));
    assert(plain_body("pg_resp_version:"@ + SERVER_VERSION@)) by {
        let v = "pg_resp_version:"@ + SERVER_VERSION@;
        assert(v =~= "pg_resp_version:0.1.0"@) by {
            reveal_strlit("pg_resp_version:0.1.0");
        }
        reveal_strlit("pg_resp_version:0.1.0");
    }
    assert(plain_body("# Memory"@));
    assert(plain_body("# Stats"@));
    assert(plain_body("# Keyspace"@));
    lemma_count_body("used_memory:", used);
    lemma_count_body("maxmemory:", mm);
    lemma_count_body("keyspace_hits:", hits as nat);
    lemma_count_body("keyspace_misses:", misses as nat);
    lemma_count_body("evicted_keys:", evictions as nat);
    lemma_count_body("invalidations_lost:", lost as nat);
    lemma_count_body("db0:keys=", keys);
    assert("used_memory:"@ =~= "used_memory"@ + seq![':']);
    assert("maxmemory:"@ =~= "maxmemory"@ + seq![':']);
    assert("keyspace_hits:"@ =~= "keyspace_hits"@ + seq![':']);
    assert("keyspace_misses:"@ =~= "keyspace_misses"@ + seq![':']);
    assert("evicted_keys:"@ =~= "evicted_keys"@ + seq![':']);
    assert("invalidations_lost:"@ =~= "invalidations_lost"@ + seq![':']);
    assert("db0:keys="@ =~= "db0:keys"@ + seq!['=']);
    lemma_count_value("used_memory:"@, "used_memory"@, ':', used);
    lemma_count_value("maxmemory:"@, "maxmemory"@, ':', mm);
    lemma_count_value("keyspace_hits:"@, "keyspace_hits"@, ':', hits as nat);
    lemma_count_value("keyspace_misses:"@, "keyspace_misses"@, ':', misses as nat);
    lemma_count_value("evicted_keys:"@, "evicted_keys"@, ':', evictions as nat);
    lemma_count_value("invalidations_lost:"@, "invalidations_lost"@, ':', lost as nat);
    lemma_count_value("db0:keys="@, "db0:keys"@, '=', keys);
    lemma_line_mismatch(count_body("keyspace_hits:", hits as nat), "keyspace_misses"@, 9);
    broadcast use lemma_field_concat, lemma_field_line, lemma_first_char_mismatch;

}

/// Stats consistency: the `INFO` reply of a store, read back field by field
/// as `stats_from_info` reads it (decoded as text, each field taken from its
/// line), gives every counter exactly as the store holds it: the number of
/// keys, the bytes used, the budget (0 when there is none), hits, misses,
/// evictions and lost invalidations. This holds for every store whose
/// counters each fit in an `i64`, the type of the stats row.
pub proof fn lemma_stats_match_info(s: Store, lost: u64)
    requires
        s.contents().dom().len() <= i64::MAX,
        s.used() <= i64::MAX,
        match s.budget() {
            Some(b) => b <= i64::MAX,
            None => true,
        },
        s.hits() <= i64::MAX,
        s.misses() <= i64::MAX,
        s.evictions() <= i64::MAX,
        lost <= i64::MAX,
    ensures
        info_reply(s, lost) matches ReplyModel::Bulk(Some(b)) && {
            let t = lossy_decode(b);
            &&& field_or_zero(t, "db0:keys") == s.contents().dom().len()
            &&& field_or_zero(t, "used_memory") == s.used()
            &&& field_or_zero(t, "maxmemory") == (match s.budget() {
                Some(b) => b as int,
                None => 0,
            })
            &&& field_or_zero(t, "keyspace_hits") == s.hits()
            &&& field_or_zero(t, "keyspace_misses") == s.misses()
            &&& field_or_zero(t, "evicted_keys") == s.evictions()
            &&& field_or_zero(t, "invalidations_lost") == lost
        },
{
    let mm: nat = match s.budget() {
        Some(b) => b as nat,
        None => 0,
    };
    let keys = s.contents().dom().len();
    lemma_info_decodes(keys, s.used(), s.budget(), s.hits(), s.misses(), s.evictions(), lost);
    lemma_info_fields(keys, s.used(), mm, s.budget(), s.hits(), s.misses(), s.evictions(), lost);
}

/// The keys a row change evicts: the prefix followed by the key column's
/// text, for the old row and the new one where present, each once.
pub open spec fn evict_keys_spec(prefix: Seq<char>, old: Option<Seq<char>>, new: Option<Seq<char>>) -> Seq<Seq<char>> {
    match (old, new) {
        (Some(a), Some(b)) => if prefix + a == prefix + b {
            seq![prefix + a]
        } else {
            seq![prefix + a, prefix + b]
        },
        (Some(a), None) => seq![prefix + a],
        (None, Some(b)) => seq![prefix + b],
        (None, None) => Seq::empty(),
    }
}

/// The keys a row change evicts: the prefix followed by the key column of
/// each row present (so a DELETE evicts the old row's key, an INSERT the new
/// row's, an UPDATE both), and nothing else; each key once, and none when
/// no row is given.
pub proof fn lemma_evicted_keys(prefix: Seq<char>, old: Option<Seq<char>>, new: Option<Seq<char>>)
    ensures
        old matches Some(a) ==> evict_keys_spec(prefix, old, new).contains(prefix + a),
        new matches Some(b) ==> evict_keys_spec(prefix, old, new).contains(prefix + b),
        forall|i: int|
            0 <= i < evict_keys_spec(prefix, old, new).len() ==> (old matches Some(a) && #[trigger] evict_keys_spec(
                prefix,
                old,
                new,
            )[i] == prefix + a) || (new matches Some(b) && evict_keys_spec(prefix, old, new)[i]
                == prefix + b),
        evict_keys_spec(prefix, old, new).no_duplicates(),
        old is None && new is None ==> evict_keys_spec(prefix, old, new).len() == 0,
        new is None ==> (old matches Some(a) ==> evict_keys_spec(prefix, old, new) == seq![prefix + a]),
{
    let e = evict_keys_spec(prefix, old, new);
    match (old, new) {
        (Some(a), Some(b)) => {
            assert(e[0] == prefix + a);
            if prefix + a != prefix + b {
                assert(e[1] == prefix + b);
            }
        },
        (Some(a), None) => {
            assert(e[0] == prefix + a);
        },
        (None, Some(b)) => {
            assert(e[0] == prefix + b);
        },
        (None, None) => {},
    }
}

pub open spec fn opt_string_view(o: Option<String>) -> Option<Seq<char>> {
    match o {
        Some(s) => Some(s@),
        None => None,
    }
}

fn prefixed(prefix: &str, value: &String) -> (k: String)
    ensures
        k@ == prefix@ + value@,
{
    let mut k = crate::text::owned(prefix);
    push_text(&mut k, value.as_str());
    k
}

pub fn evict_keys(prefix: &str, old: Option<String>, new: Option<String>) -> (keys: Vec<String>)
    ensures
        keys@.map_values(|k: String| k@) == evict_keys_spec(prefix@, opt_string_view(old), opt_string_view(new)),
{
    let mut keys: Vec<String> = Vec::new();
    match &old {
        Some(v) => keys.push(prefixed(prefix, v)),
        None => {},
    }
    match &new {
        Some(v) => {
            let k = prefixed(prefix, v);
            let dup = keys.len() > 0 && keys[0] == k;
            if !dup {
                keys.push(k);
            }
        },
        None => {},
    }
    assert(keys@.map_values(|k: String| k@) =~= evict_keys_spec(prefix@, opt_string_view(old), opt_string_view(new)));
    keys
}

/// The decimal digits of `n` as characters.
pub open spec fn nat_chars(n: nat) -> Seq<char> {
    nat_text(n).map_values(|b: u8| b as char)
}

pub(crate) fn push_nat(s: &mut String, n: u64)
    ensures
        final(s)@ == old(s)@ + nat_chars(n as nat),
{
    let mut digits: Vec<u8> = Vec::new();
    crate::decimal::push_u64_text(&mut digits, n);
    let mut i: usize = 0;
    let ghost start = s@;
    while i < digits.len()
        invariant
            i <= digits.len(),
            digits@ == Seq::<u8>::empty() + nat_text(n as nat),
            s@ == start + nat_chars(n as nat).take(i as int),
        decreases digits.len() - i,
    {
        crate::text::push_char(s, digits[i] as char);
        i += 1;
        assert(s@ =~= start + nat_chars(n as nat).take(i as int));
    }
    assert(nat_chars(n as nat).take(digits.len() as int) =~= nat_chars(n as nat));
}

/// `resp.set()`'s TTL check: a given TTL must be positive.
pub fn check_set_ttl(ttl_seconds: Option<i64>) -> (r: Result<(), String>)
    ensures
        match ttl_seconds {
            Some(t) => if t <= 0 {
                r matches Err(m) && m@ == "invalid expire time in resp.set(): "@ + (if t < 0 {
                    seq!['-']
                } else {
                    Seq::empty()
                }) + nat_chars((if t < 0 { -t } else { t as int }) as nat)
            } else {
                r is Ok
            },
            None => r is Ok,
        },
{
    match ttl_seconds {
        Some(t) => {
            if t <= 0 {
                let mut m = crate::text::owned("invalid expire time in resp.set(): ");
                if t < 0 {
                    crate::text::push_char(&mut m, '-');
                }
                let mag: u64 = (0i128 - t as i128) as u64;
                push_nat(&mut m, mag);
                proof {
                    assert(m@ =~= "invalid expire time in resp.set(): "@ + (if t < 0 {
                        seq!['-']
                    } else {
                        Seq::empty()
                    }) + nat_chars((if t < 0 { -t } else { t as int }) as nat));
                }
                Err(m)
            } else {
                Ok(())
            }
        },
        None => Ok(()),
    }
}

/// `resp.evict()`'s argument check: exactly a prefix and a column name.
pub fn check_evict_args(n: usize) -> (r: Result<(), String>)
    ensures
        n == 2 ==> r is Ok,
        n != 2 ==> (r matches Err(m) && m@ == "resp.evict() requires exactly 2 trigger arguments, got "@
            + nat_chars(n as nat)),
{
    if n == 2 {
        Ok(())
    } else {
        let mut m = crate::text::owned("resp.evict() requires exactly 2 trigger arguments, got ");
        push_nat(&mut m, n as u64);
        Err(m)
    }
}

/// What kind of SQL error a failed read raises.
pub enum SqlErrorKind {
    /// The cache rejected the request: a bug in the SQL layer.
    Internal,
    /// AUTH was rejected.
    InsufficientPrivilege,
    /// The cache could not be reached.
    ConnectionFailure,
}

/// The error a failed read raises: the kind and the message.
pub fn read_error_report(err: &ClientError) -> (r: (SqlErrorKind, String))
    ensures
        match err {
            ClientError::Server(m) => r.0 is Internal && r.1@ == "pg_resp cache rejected the request: "@ + m@,
            ClientError::Auth(m) => r.0 is InsufficientPrivilege && r.1@ == "pg_resp authentication failed: "@ + m@,
            _ => r.0 is ConnectionFailure && "could not reach the pg_resp cache: "@.is_prefix_of(r.1@),
        },
{
    match err {
        ClientError::Server(m) => {
            let mut s = crate::text::owned("pg_resp cache rejected the request: ");
            push_text(&mut s, m.as_str());
            (SqlErrorKind::Internal, s)
        },
        ClientError::Auth(m) => {
            let mut s = crate::text::owned("pg_resp authentication failed: ");
            push_text(&mut s, m.as_str());
            (SqlErrorKind::InsufficientPrivilege, s)
        },
        _ => {
            let mut s = crate::text::owned("could not reach the pg_resp cache: ");
            let d = err.message();
            push_text(&mut s, d.as_str());
            (SqlErrorKind::ConnectionFailure, s)
        },
    }
}

/// How many of `os` failed.
pub open spec fn failures(os: Seq<Result<(), String>>) -> nat
    decreases os.len(),
{
    if os.len() == 0 {
        0
    } else {
        failures(os.drop_last()) + (if os.last() is Err {
            1nat
        } else {
            0nat
        })
    }
}

/// The message of the first failure among `os`, if any failed.
pub open spec fn first_failure(os: Seq<Result<(), String>>) -> Option<String>
    decreases os.len(),
{
    if os.len() == 0 {
        None
    } else {
        match first_failure(os.drop_last()) {
            Some(e) => Some(e),
            None => if os.last() is Err {
                Some(os.last()->Err_0)
            } else {
                None
            },
        }
    }
}

/// What recording one outcome does to a tally.
pub open spec fn record_step(a: ApplyTally, o: Result<(), String>, b: ApplyTally) -> bool {
    &&& b.failed == a.failed + (if o is Err {
        1int
    } else {
        0int
    })
    &&& b.first_error == (if a.first_error is None && o is Err {
        Some(o->Err_0)
    } else {
        a.first_error
    })
}

/// Whole-queue law: a fresh tally that records each outcome of a commit's
/// writes in turn ends with the number of failed writes and the message of
/// the first failure.
pub proof fn lemma_tally_counts_the_queue(ts: Seq<ApplyTally>, os: Seq<Result<(), String>>)
    requires
        ts.len() == os.len() + 1,
        ts[0].failed == 0,
        ts[0].first_error is None,
        forall|i: int| #![trigger os[i]] 0 <= i < os.len() ==> record_step(ts[i], os[i], ts[i + 1]),
    ensures
        ts.last().failed == failures(os),
        ts.last().first_error == first_failure(os),
    decreases os.len(),
{
    if os.len() > 0 {
        let n = os.len() as int;
        let ts0 = ts.drop_last();
        let os0 = os.drop_last();
        assert forall|i: int| #![trigger os0[i]] 0 <= i < os0.len() implies record_step(
            ts0[i],
            os0[i],
            ts0[i + 1],
        ) by {
            assert(os0[i] == os[i]);
        }
        lemma_tally_counts_the_queue(ts0, os0);
        assert(record_step(ts[n - 1], os[n - 1], ts[n]));
        assert(ts0.last() == ts[n - 1]);
    }
}

/// The tally of applying a commit's queued writes.
pub struct ApplyTally {
    pub failed: usize,
    pub first_error: Option<String>,
}

impl ApplyTally {
    pub fn new() -> (t: ApplyTally)
        ensures
            t.failed == 0,
            t.first_error is None,
    {
        ApplyTally { failed: 0, first_error: None }
    }

    /// Counts one write's outcome; the first failure's message is kept.
    pub fn record(&mut self, outcome: Result<(), String>)
        requires
            old(self).failed < usize::MAX,
        ensures
            final(self).failed == old(self).failed + (if outcome is Err {
                1int
            } else {
                0int
            }),
            final(self).first_error == (if old(self).first_error is None && outcome is Err {
                Some(outcome->Err_0)
            } else {
                old(self).first_error
            }),
            record_step(*old(self), outcome, *final(self)),
    {
        match outcome {
            Ok(()) => {},
            Err(m) => {
                self.failed = self.failed + 1;
                if self.first_error.is_none() {
                    self.first_error = Some(m);
                }
            },
        }
    }

    /// The warning for lost invalidations, when any were lost.
    pub fn lost_message(&self, total: usize) -> (m: Option<String>)
        ensures
            self.failed == 0 ==> m is None,
            self.failed > 0 ==> (m matches Some(t) && t@ == "pg_resp lost "@ + nat_chars(
                self.failed as nat,
            ) + " of "@ + nat_chars(total as nat) + " cache invalidation(s) at commit: "@
                + match self.first_error {
                Some(e) => e@,
                None => "unknown error"@,
            }),
    {
        if self.failed == 0 {
            return None;
        }
        let mut t = crate::text::owned("pg_resp lost ");
        push_nat(&mut t, self.failed as u64);
        push_text(&mut t, " of ");
        push_nat(&mut t, total as u64);
        push_text(&mut t, " cache invalidation(s) at commit: ");
        match &self.first_error {
            Some(e) => push_text(&mut t, e.as_str()),
            None => push_text(&mut t, "unknown error"),
        }
        Some(t)
    }
}

} // verus!
