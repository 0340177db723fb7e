//! The in-memory keyspace: byte-string keys and values, lazy and active TTL
//! expiry, and approximate CLOCK eviction under a byte budget. Time is
//! always handed in (`now`), so every operation is deterministic.

use vstd::prelude::*;
use crate::clock::Instant;
use crate::scan::{CursorModel, ScanRegistry, resumable, resume_post, start_post};
use crate::command::vec_args;
use crate::command::slice_args;
use crate::decimal::{int_text, parse_i64_spec, parse_i64_bytes, push_i64_text};

verus! {

/// Fixed per-entry bookkeeping charge added to key and value bytes.
pub const PER_ENTRY_OVERHEAD_BYTES: usize = 96;

/// How many entries one eviction or expiry pass samples.
pub const DEFAULT_SAMPLE_SIZE: usize = 20;

/// One stored value. `clock_bit` is set on every access and cleared when
/// the eviction sweep gives the entry a second chance.
#[derive(Debug, Clone)]
pub struct Entry {
    pub value: Vec<u8>,
    pub expires_at: Option<Instant>,
    pub clock_bit: bool,
}

/// What a key holds, as callers see it.
pub struct EntryModel {
    pub value: Seq<u8>,
    pub expires_at: Option<Instant>,
}

pub open spec fn entry_model(e: Entry) -> EntryModel {
    EntryModel { value: e.value@, expires_at: e.expires_at }
}

/// An entry is live at `now` unless its deadline is at or before `now`.
pub open spec fn live(e: EntryModel, now: Instant) -> bool {
    match e.expires_at {
        Some(d) => now.nanos < d.nanos,
        None => true,
    }
}

/// Bytes charged for one entry.
pub open spec fn entry_cost(key: Seq<u8>, value_len: int) -> int {
    key.len() + value_len + PER_ENTRY_OVERHEAD_BYTES
}

struct Slot {
    key: Vec<u8>,
    entry: Entry,
}

spec fn map_of(slots: Seq<Slot>) -> Map<Seq<u8>, EntryModel>
    decreases slots.len(),
{
    if slots.len() == 0 {
        Map::empty()
    } else {
        map_of(slots.drop_last()).insert(slots.last().key@, entry_model(slots.last().entry))
    }
}

spec fn distinct(slots: Seq<Slot>) -> bool {
    forall|i: int, j: int|
        0 <= i < slots.len() && 0 <= j < slots.len() && i != j ==> slots[i].key@
            != slots[j].key@
}

spec fn slot_cost(s: Slot) -> int {
    entry_cost(s.key@, s.entry.value@.len() as int)
}

spec fn total_cost(slots: Seq<Slot>) -> int
    decreases slots.len(),
{
    if slots.len() == 0 {
        0
    } else {
        total_cost(slots.drop_last()) + slot_cost(slots.last())
    }
}

proof fn lemma_map_of_dom(slots: Seq<Slot>, k: Seq<u8>)
    ensures
        map_of(slots).contains_key(k) <==> exists|i: int|
            0 <= i < slots.len() && #[trigger] slots[i].key@ == k,
    decreases slots.len(),
{
    if slots.len() > 0 {
        let init = slots.drop_last();
        lemma_map_of_dom(init, k);
        if map_of(slots).contains_key(k) {
            if slots.last().key@ != k {
                let i = choose|i: int| 0 <= i < init.len() && #[trigger] init[i].key@ == k;
                assert(slots[i] == init[i]);
            }
        }
        if exists|i: int| 0 <= i < slots.len() && #[trigger] slots[i].key@ == k {
            let i = choose|i: int| 0 <= i < slots.len() && #[trigger] slots[i].key@ == k;
            if i < slots.len() - 1 {
                assert(init[i] == slots[i]);
            }
        }
    }
}

proof fn lemma_map_of_value(slots: Seq<Slot>, i: int)
    requires
        distinct(slots),
        0 <= i < slots.len(),
    ensures
        map_of(slots).contains_key(slots[i].key@),
        map_of(slots)[slots[i].key@] == entry_model(slots[i].entry),
    decreases slots.len(),
{
    let init = slots.drop_last();
    if i < slots.len() - 1 {
        assert(distinct(init));
        assert(init[i] == slots[i]);
        lemma_map_of_value(init, i);
        assert(slots.last().key@ != slots[i].key@);
    }
}

proof fn lemma_total_nonneg(slots: Seq<Slot>)
    ensures
        total_cost(slots) >= 0,
    decreases slots.len(),
{
    if slots.len() > 0 {
        lemma_total_nonneg(slots.drop_last());
    }
}

proof fn lemma_remove_slot(slots: Seq<Slot>, i: int)
    requires
        distinct(slots),
        0 <= i < slots.len(),
    ensures
        distinct(slots.remove(i)),
        map_of(slots.remove(i)) == map_of(slots).remove(slots[i].key@),
        total_cost(slots.remove(i)) == total_cost(slots) - slot_cost(slots[i]),
    decreases slots.len(),
{
    let r = slots.remove(i);
    assert forall|a: int, b: int|
        0 <= a < r.len() && 0 <= b < r.len() && a != b implies r[a].key@ != r[b].key@ by {
        let a2 = if a < i {
            a
        } else {
            a + 1
        };
        let b2 = if b < i {
            b
        } else {
            b + 1
        };
        assert(r[a] == slots[a2]);
        assert(r[b] == slots[b2]);
    }
    if i == slots.len() - 1 {
        assert(r =~= slots.drop_last());
        lemma_map_of_dom(slots.drop_last(), slots[i].key@);
        assert(map_of(r) =~= map_of(slots).remove(slots[i].key@));
    } else {
        let init = slots.drop_last();
        assert(distinct(init));
        lemma_remove_slot(init, i);
        assert(r.drop_last() =~= init.remove(i));
        assert(r.last() == slots.last());
        assert(map_of(r) =~= map_of(slots).remove(slots[i].key@));
    }
}

proof fn lemma_update_slot(slots: Seq<Slot>, i: int, s: Slot)
    requires
        distinct(slots),
        0 <= i < slots.len(),
        s.key@ == slots[i].key@,
    ensures
        distinct(slots.update(i, s)),
        map_of(slots.update(i, s)) == map_of(slots).insert(s.key@, entry_model(s.entry)),
        total_cost(slots.update(i, s)) == total_cost(slots) - slot_cost(slots[i]) + slot_cost(s),
    decreases slots.len(),
{
    let u = slots.update(i, s);
    assert forall|a: int, b: int|
        0 <= a < u.len() && 0 <= b < u.len() && a != b implies u[a].key@ != u[b].key@ by {
        assert(u[a].key@ == slots[a].key@);
        assert(u[b].key@ == slots[b].key@);
    }
    if i == slots.len() - 1 {
        assert(u.drop_last() =~= slots.drop_last());
        assert(map_of(u) =~= map_of(slots).insert(s.key@, entry_model(s.entry)));
    } else {
        let init = slots.drop_last();
        assert(distinct(init));
        lemma_update_slot(init, i, s);
        assert(u.drop_last() =~= init.update(i, s));
        assert(map_of(u) =~= map_of(slots).insert(s.key@, entry_model(s.entry)));
    }
}

proof fn lemma_push_slot(slots: Seq<Slot>, s: Slot)
    requires
        distinct(slots),
        !map_of(slots).contains_key(s.key@),
    ensures
        distinct(slots.push(s)),
        map_of(slots.push(s)) == map_of(slots).insert(s.key@, entry_model(s.entry)),
        total_cost(slots.push(s)) == total_cost(slots) + slot_cost(s),
{
    let p = slots.push(s);
    lemma_map_of_dom(slots, s.key@);
    assert forall|a: int, b: int|
        0 <= a < p.len() && 0 <= b < p.len() && a != b implies p[a].key@ != p[b].key@ by {
        if a < slots.len() && b < slots.len() {
            assert(p[a] == slots[a] && p[b] == slots[b]);
        } else if a < slots.len() {
            assert(p[a] == slots[a]);
        } else {
            assert(p[b] == slots[b]);
        }
    }
    assert(p.drop_last() =~= slots);
}

/// Bytes charged for everything in `m`.
pub open spec fn map_cost(m: Map<Seq<u8>, EntryModel>) -> int
    decreases m.dom().len(),
{
    if m.dom().finite() && m.dom().len() > 0 {
        let k = m.dom().choose();
        entry_cost(k, m[k].value.len() as int) + map_cost(m.remove(k))
    } else {
        0
    }
}

/// The charge for a finite map splits into any one entry and the rest.
pub proof fn lemma_map_cost_remove(m: Map<Seq<u8>, EntryModel>, k: Seq<u8>)
    requires
        m.dom().finite(),
        m.contains_key(k),
    ensures
        map_cost(m) == entry_cost(k, m[k].value.len() as int) + map_cost(m.remove(k)),
    decreases m.dom().len(),
{
    let c = m.dom().choose();
    assert(m.dom().contains(c));
    if c != k {
        let mc = m.remove(c);
        let mk = m.remove(k);
        assert(mc.dom() =~= m.dom().remove(c));
        assert(mk.dom() =~= m.dom().remove(k));
        lemma_map_cost_remove(mc, k);
        lemma_map_cost_remove(mk, c);
        assert(mc.remove(k) =~= mk.remove(c));
    }
}

proof fn lemma_same_models(a: Seq<Slot>, b: Seq<Slot>)
    requires
        a.len() == b.len(),
        forall|j: int|
            0 <= j < a.len() ==> (#[trigger] a[j]).key@ == b[j].key@ && entry_model(a[j].entry)
                == entry_model(b[j].entry) && a[j].entry.value@.len() == b[j].entry.value@.len(),
    ensures
        map_of(a) == map_of(b),
        total_cost(a) == total_cost(b),
        distinct(a) == distinct(b),
    decreases a.len(),
{
    if a.len() > 0 {
        lemma_same_models(a.drop_last(), b.drop_last());
    }
    if distinct(a) {
        assert forall|i: int, j: int|
            0 <= i < b.len() && 0 <= j < b.len() && i != j implies b[i].key@ != b[j].key@ by {
            assert(a[i].key@ == b[i].key@ && a[j].key@ == b[j].key@);
        }
    }
    if distinct(b) {
        assert forall|i: int, j: int|
            0 <= i < a.len() && 0 <= j < a.len() && i != j implies a[i].key@ != a[j].key@ by {
            assert(a[i].key@ == b[i].key@ && a[j].key@ == b[j].key@);
        }
    }
}

proof fn lemma_map_of_len(slots: Seq<Slot>)
    requires
        distinct(slots),
    ensures
        map_of(slots).dom().finite(),
        map_of(slots).dom().len() == slots.len(),
        map_cost(map_of(slots)) == total_cost(slots),
    decreases slots.len(),
{
    if slots.len() > 0 {
        let init = slots.drop_last();
        assert(distinct(init));
        lemma_map_of_len(init);
        lemma_map_of_dom(init, slots.last().key@);
        assert forall|i: int| 0 <= i < init.len() implies #[trigger] init[i].key@
            != slots.last().key@ by {
            assert(init[i] == slots[i]);
        }
        let m = map_of(slots);
        let k = slots.last().key@;
        assert(m.remove(k) =~= map_of(init));
        lemma_map_cost_remove(m, k);
    }
}

/// Whether `k` holds a live entry at `now`.
pub open spec fn present(m: Map<Seq<u8>, EntryModel>, now: Instant, k: Seq<u8>) -> bool {
    m.contains_key(k) && live(m[k], now)
}

/// What a read of `k` at `now` sees.
pub open spec fn lookup(m: Map<Seq<u8>, EntryModel>, now: Instant, k: Seq<u8>) -> Option<Seq<u8>> {
    if present(m, now, k) {
        Some(m[k].value)
    } else {
        None
    }
}

/// Whether `k` holds an entry whose deadline has passed at `now`.
pub open spec fn expired(m: Map<Seq<u8>, EntryModel>, now: Instant, k: Seq<u8>) -> bool {
    m.contains_key(k) && !live(m[k], now)
}

/// The map after touching `k` at `now`: an expired entry there is dropped.
pub open spec fn purge(m: Map<Seq<u8>, EntryModel>, now: Instant, k: Seq<u8>) -> Map<
    Seq<u8>,
    EntryModel,
> {
    if expired(m, now, k) {
        m.remove(k)
    } else {
        m
    }
}

/// The map after touching every key of `ks` at `now`.
pub open spec fn purge_all(m: Map<Seq<u8>, EntryModel>, now: Instant, ks: Seq<Seq<u8>>) -> Map<
    Seq<u8>,
    EntryModel,
> {
    m.remove_keys(Set::new(|k: Seq<u8>| ks.contains(k) && expired(m, now, k)))
}

/// A counter bumped by `n`, wrapping at the top of `u64`.
pub open spec fn bump(c: u64, n: nat) -> u64 {
    ((c + n) % 0x1_0000_0000_0000_0000) as u64
}

pub proof fn lemma_bump_step(c: u64, n: nat)
    ensures
        bump(c, n + 1) == (if bump(c, n) == u64::MAX {
            0u64
        } else {
            (bump(c, n) + 1) as u64
        }),
        bump(c, 0) == c,
{
    let m: int = 0x1_0000_0000_0000_0000;
    let x: int = c + n;
    vstd::arithmetic::div_mod::lemma_mod_bound(x, m);
    vstd::arithmetic::div_mod::lemma_mod_bound(x + 1, m);
    assert((x + 1) % m == (if x % m == m - 1 { 0 } else { x % m + 1 })) by (nonlinear_arith)
        requires
            x >= 0,
            m == 0x1_0000_0000_0000_0000,
    ;
    assert((c as int) % m == c) by (nonlinear_arith)
        requires
            0 <= c < m,
    ;
}

/// An expiry decision for a write.
#[derive(Debug, Clone, Copy, PartialEq, Eq)]
pub enum Expiry {
    /// No deadline: clear any existing one.
    Never,
    /// Keep whatever deadline (or none) the key already has.
    KeepTtl,
    /// Expire at this instant.
    At(Instant),
}

/// When a write may happen.
#[derive(Debug, Clone, Copy, PartialEq, Eq, Default)]
pub enum Condition {
    #[default]
    Always,
    IfExists,
    IfNotExists,
}

/// What `set` did.
#[derive(Debug, Clone, PartialEq, Eq)]
pub struct SetOutcome {
    /// Whether the write happened (false when the condition failed).
    pub applied: bool,
    /// The value the key held before, when asked for.
    pub old_value: Option<Vec<u8>>,
}

/// Why an increment failed.
#[derive(Debug, Clone, Copy, PartialEq, Eq)]
pub enum IncrError {
    NotAnInteger,
    Overflow,
}

pub open spec fn opt_view(o: Option<Vec<u8>>) -> Option<Seq<u8>> {
    match o {
        Some(v) => Some(v@),
        None => None,
    }
}

/// The deadline a write of `k` leaves, given what `m` holds.
pub open spec fn resolve_expiry(e: Expiry, m: Map<Seq<u8>, EntryModel>, k: Seq<u8>) -> Option<
    Instant,
> {
    match e {
        Expiry::Never => None,
        Expiry::KeepTtl => if m.contains_key(k) {
            m[k].expires_at
        } else {
            None
        },
        Expiry::At(d) => Some(d),
    }
}

/// Whether a write under `c` may happen when the key exists or not.
pub open spec fn condition_holds(c: Condition, exists: bool) -> bool {
    match c {
        Condition::Always => true,
        Condition::IfExists => exists,
        Condition::IfNotExists => !exists,
    }
}

/// Whole milliseconds from `now` to `d`, zero once `d` has passed.
pub open spec fn remaining_millis(d: Instant, now: Instant) -> int {
    if d.nanos > now.nanos {
        (d.nanos - now.nanos) / 1_000_000
    } else {
        0
    }
}

/// `x` as an `i64`, held at `i64::MAX` where it is larger.
pub open spec fn clamp_i64(x: int) -> i64 {
    if x > i64::MAX {
        i64::MAX
    } else {
        x as i64
    }
}

/// TTL in whole seconds: -2 missing, -1 no deadline, otherwise the
/// milliseconds left plus 500, divided by 1000 (held at `i64::MAX` for a
/// deadline further away than an `i64` of seconds).
pub open spec fn ttl_spec(m: Map<Seq<u8>, EntryModel>, now: Instant, k: Seq<u8>) -> i64 {
    if !present(m, now, k) {
        -2i64
    } else {
        match m[k].expires_at {
            None => -1i64,
            Some(d) => clamp_i64((remaining_millis(d, now) + 500) / 1000),
        }
    }
}

/// PTTL in milliseconds: -2 missing, -1 no deadline, else the whole
/// milliseconds left (held at `i64::MAX`).
pub open spec fn pttl_spec(m: Map<Seq<u8>, EntryModel>, now: Instant, k: Seq<u8>) -> i64 {
    if !present(m, now, k) {
        -2i64
    } else {
        match m[k].expires_at {
            None => -1i64,
            Some(d) => clamp_i64(remaining_millis(d, now)),
        }
    }
}

/// `b` keeps `a`'s budget, counters and scan cursors.
pub open spec fn same_books(a: Store, b: Store) -> bool {
    &&& a.budget() == b.budget()
    &&& a.hits() == b.hits()
    &&& a.misses() == b.misses()
    &&& a.evictions() == b.evictions()
    &&& a.cursors() == b.cursors()
    &&& a.last_cursor_id() == b.last_cursor_id()
}

/// A read of `k` at `now` counted as a hit or a miss.
pub open spec fn counted_read(a: Store, b: Store, now: Instant, k: Seq<u8>) -> bool {
    &&& b.hits() == (if present(a.contents(), now, k) {
        bump(a.hits(), 1)
    } else {
        a.hits()
    })
    &&& b.misses() == (if present(a.contents(), now, k) {
        a.misses()
    } else {
        bump(a.misses(), 1)
    })
    &&& a.budget() == b.budget()
    &&& a.evictions() == b.evictions()
    &&& a.cursors() == b.cursors()
    &&& a.last_cursor_id() == b.last_cursor_id()
}

pub open spec fn slice_view(o: Option<&[u8]>) -> Option<Seq<u8>> {
    match o {
        Some(v) => Some(v@),
        None => None,
    }
}

/// What an increment by `delta` reads as the current number: the parsed
/// value, 0 for a missing key, nothing when the value is not an integer.
pub open spec fn incr_base(m1: Map<Seq<u8>, EntryModel>, k: Seq<u8>) -> Option<i64> {
    if m1.contains_key(k) {
        parse_i64_spec(m1[k].value)
    } else {
        Some(0)
    }
}

/// What `get_ex` leaves at `k` (already purged), given its expiry option.
pub open spec fn get_ex_contents(
    m1: Map<Seq<u8>, EntryModel>,
    k: Seq<u8>,
    expiry: Option<Expiry>,
) -> Map<Seq<u8>, EntryModel> {
    match expiry {
        Some(e) => if m1.contains_key(k) {
            m1.insert(k, EntryModel { value: m1[k].value, expires_at: resolve_expiry(e, m1, k) })
        } else {
            m1
        },
        None => m1,
    }
}

/// How many of `ks`, repeats counted, hold a live entry at `now`.
pub open spec fn count_present(m: Map<Seq<u8>, EntryModel>, now: Instant, ks: Seq<Seq<u8>>) -> nat
    decreases ks.len(),
{
    if ks.len() == 0 {
        0
    } else {
        count_present(m, now, ks.drop_last()) + if present(m, now, ks.last()) {
            1nat
        } else {
            0nat
        }
    }
}

/// The distinct keys of `ks` that hold a live entry at `now`.
pub open spec fn present_among(m: Map<Seq<u8>, EntryModel>, now: Instant, ks: Seq<Seq<u8>>) -> Set<
    Seq<u8>,
> {
    Set::new(|k: Seq<u8>| ks.contains(k) && present(m, now, k))
}

/// Dropping expired entries changes no read.
pub proof fn lemma_purge_keeps_reads(m: Map<Seq<u8>, EntryModel>, now: Instant, ks: Seq<Seq<u8>>)
    ensures
        forall|k: Seq<u8>| #[trigger]
            present(purge_all(m, now, ks), now, k) == present(m, now, k),
        forall|k: Seq<u8>| #[trigger]
            lookup(purge_all(m, now, ks), now, k) == lookup(m, now, k),
{
}

proof fn lemma_purge_all_step(m: Map<Seq<u8>, EntryModel>, now: Instant, ks: Seq<Seq<u8>>, i: int)
    requires
        0 <= i < ks.len(),
    ensures
        purge_all(m, now, ks.take(i + 1)) == purge(purge_all(m, now, ks.take(i)), now, ks[i]),
{
    let a = purge_all(m, now, ks.take(i));
    assert forall|k: Seq<u8>| ks.take(i + 1).contains(k) <==> ks.take(i).contains(k) || k == ks[i] by {
        if ks.take(i + 1).contains(k) {
            let j = choose|j: int| 0 <= j < i + 1 && #[trigger] ks.take(i + 1)[j] == k;
            if j < i {
                assert(ks.take(i)[j] == k);
            }
        }
        if ks.take(i).contains(k) {
            let j = choose|j: int| 0 <= j < i && #[trigger] ks.take(i)[j] == k;
            assert(ks.take(i + 1)[j] == k);
        }
        if k == ks[i] {
            assert(ks.take(i + 1)[i] == k);
        }
    }
    assert(purge_all(m, now, ks.take(i + 1)) =~= purge(a, now, ks[i]));
}

/// The charge for an entry or more never goes below zero.
pub proof fn lemma_map_cost_nonneg(m: Map<Seq<u8>, EntryModel>)
    ensures
        map_cost(m) >= 0,
    decreases m.dom().len(),
{
    if m.dom().finite() && m.dom().len() > 0 {
        let k = m.dom().choose();
        assert(m.remove(k).dom() =~= m.dom().remove(k));
        lemma_map_cost_nonneg(m.remove(k));
    }
}

/// Dropping entries never raises the charge.
pub proof fn lemma_map_cost_submap(small: Map<Seq<u8>, EntryModel>, big: Map<Seq<u8>, EntryModel>)
    requires
        big.dom().finite(),
        forall|k: Seq<u8>| #[trigger]
            small.contains_key(k) ==> big.contains_key(k) && small[k] == big[k],
    ensures
        small.dom().finite(),
        map_cost(small) <= map_cost(big),
    decreases big.dom().len(),
{
    assert(small.dom().subset_of(big.dom()));
    vstd::set_lib::lemma_set_subset_finite(big.dom(), small.dom());
    if small.dom() =~= big.dom() {
        assert(small =~= big);
    } else {
        let k = choose|k: Seq<u8>| big.contains_key(k) && !small.contains_key(k);
        assert(big.remove(k).dom() =~= big.dom().remove(k));
        lemma_map_cost_submap(small, big.remove(k));
        lemma_map_cost_remove(big, k);
    }
}

/// Writing one entry raises the charge by at most that entry's charge.
pub proof fn lemma_map_cost_insert(m: Map<Seq<u8>, EntryModel>, k: Seq<u8>, e: EntryModel)
    requires
        m.dom().finite(),
    ensures
        m.insert(k, e).dom().finite(),
        map_cost(m.insert(k, e)) <= map_cost(m) + entry_cost(k, e.value.len() as int),
        !m.contains_key(k) ==> map_cost(m.insert(k, e)) == map_cost(m) + entry_cost(
            k,
            e.value.len() as int,
        ),
{
    let mi = m.insert(k, e);
    lemma_map_cost_remove(mi, k);
    if m.contains_key(k) {
        assert(mi.remove(k) =~= m.remove(k));
        lemma_map_cost_remove(m, k);
        assert(m.remove(k).dom() =~= m.dom().remove(k));
        lemma_map_cost_nonneg(m.remove(k));
        assert(entry_cost(k, m[k].value.len() as int) >= 0);
    } else {
        assert(mi.remove(k) =~= m);
    }
}

pub open spec fn pairs_view(ps: Seq<(&[u8], Vec<u8>)>) -> Seq<(Seq<u8>, Seq<u8>)> {
    ps.map_values(|p: (&[u8], Vec<u8>)| (p.0@, p.1@))
}

/// `m` after writing each pair in order, with no deadline.
pub open spec fn write_pairs(m: Map<Seq<u8>, EntryModel>, ps: Seq<(Seq<u8>, Seq<u8>)>) -> Map<
    Seq<u8>,
    EntryModel,
>
    decreases ps.len(),
{
    if ps.len() == 0 {
        m
    } else {
        write_pairs(m, ps.drop_last()).insert(
            ps.last().0,
            EntryModel { value: ps.last().1, expires_at: None },
        )
    }
}

/// The charge for writing every pair as a new entry.
pub open spec fn pairs_cost(ps: Seq<(Seq<u8>, Seq<u8>)>) -> int
    decreases ps.len(),
{
    if ps.len() == 0 {
        0
    } else {
        pairs_cost(ps.drop_last()) + entry_cost(ps.last().0, ps.last().1.len() as int)
    }
}

proof fn lemma_pairs_cost_prefix(ps: Seq<(Seq<u8>, Seq<u8>)>, i: int)
    requires
        0 <= i <= ps.len(),
    ensures
        pairs_cost(ps.take(i)) <= pairs_cost(ps),
        i > 0 ==> pairs_cost(ps.take(i)) == pairs_cost(ps.take(i - 1)) + entry_cost(
            ps[i - 1].0,
            ps[i - 1].1.len() as int,
        ),
    decreases ps.len() - i,
{
    if i > 0 {
        assert(ps.take(i).drop_last() =~= ps.take(i - 1));
    }
    if i < ps.len() {
        lemma_pairs_cost_prefix(ps, i + 1);
        assert(ps.take(i + 1).drop_last() =~= ps.take(i));
        assert(entry_cost(ps[i].0, ps[i].1.len() as int) >= 0);
    } else {
        assert(ps.take(i) =~= ps);
    }
}

/// Bumping by `a` then by `b` is bumping by `a + b`.
#[verifier::spinoff_prover]
#[verifier::rlimit(30)]
pub proof fn lemma_bump_add(c: u64, a: nat, b: nat)
    ensures
        bump(bump(c, a), b) == bump(c, a + b),
{
    let m: int = 0x1_0000_0000_0000_0000;
    vstd::arithmetic::div_mod::lemma_mod_bound(c + a, m);
    vstd::arithmetic::div_mod::lemma_add_mod_noop(c + a, b as int, m);
    vstd::arithmetic::div_mod::lemma_mod_bound(b as int, m);
    assert(bump(c, a) == (c + a) % m);
}

/// `keys` lists each key live at `now` in `m` exactly once.
pub open spec fn lists_live_keys(m: Map<Seq<u8>, EntryModel>, now: Instant, keys: Seq<Seq<u8>>) -> bool {
    &&& keys.no_duplicates()
    &&& forall|k: Seq<u8>| #[trigger] keys.contains(k) <==> present(m, now, k)
}

/// Copies the keys of the slots live at `now`, in slot order.
fn live_keys(slots: &Vec<Slot>, now: Instant) -> (r: Vec<Vec<u8>>)
    requires
        distinct(slots@),
    ensures
        lists_live_keys(map_of(slots@), now, vec_args(r@)),
{
    let mut out: Vec<Vec<u8>> = Vec::new();
    let mut i: usize = 0;
    while i < slots.len()
        invariant
            distinct(slots@),
            i <= slots.len(),
            vec_args(out@).no_duplicates(),
            forall|k: Seq<u8>| #[trigger]
                vec_args(out@).contains(k) <==> exists|j: int|
                    0 <= j < i && slots@[j].key@ == k && live(
                        entry_model(#[trigger] slots@[j].entry),
                        now,
                    ),
        decreases slots.len() - i,
    {
        let is_live = Store::is_live(&slots[i].entry, now);
        if is_live {
            let k = crate::bytes::copy_bytes(slots[i].key.as_slice());
            let ghost before = vec_args(out@);
            proof {
                crate::command::lemma_vec_args_push(out@, k);
            }
            out.push(k);
            proof {
                assert(vec_args(out@) == before.push(k@));
                assert forall|k2: Seq<u8>| #[trigger] vec_args(out@).contains(k2) <==> exists|j: int|
                    0 <= j < i + 1 && slots@[j].key@ == k2 && live(
                        entry_model(#[trigger] slots@[j].entry),
                        now,
                    ) by {
                    if vec_args(out@).contains(k2) {
                        let t = choose|t: int| 0 <= t < vec_args(out@).len() && vec_args(out@)[t] == k2;
                        if t < before.len() {
                            assert(before[t] == k2);
                            assert(before.contains(k2));
                        } else {
                            assert(slots@[i as int].key@ == k2);
                        }
                    }
                    if exists|j: int| 0 <= j < i + 1 && slots@[j].key@ == k2 && live(
                        entry_model(#[trigger] slots@[j].entry),
                        now,
                    ) {
                        let j = choose|j: int| 0 <= j < i + 1 && slots@[j].key@ == k2 && live(
                            entry_model(#[trigger] slots@[j].entry),
                            now,
                        );
                        if j < i {
                            assert(before.contains(k2));
                            let t = choose|t: int| 0 <= t < before.len() && before[t] == k2;
                            assert(vec_args(out@)[t] == k2);
                        } else {
                            assert(vec_args(out@)[before.len() as int] == k2);
                        }
                    }
                }
                assert forall|a: int, b: int|
                    0 <= a < vec_args(out@).len() && 0 <= b < vec_args(out@).len() && a != b implies vec_args(out@)[a]
                    != vec_args(out@)[b] by {
                    if a < before.len() && b < before.len() {
                        assert(before[a] != before[b]);
                    } else if a < before.len() {
                        assert(before.contains(before[a]));
                        let j = choose|j: int| 0 <= j < i && slots@[j].key@ == before[a] && live(
                            entry_model(#[trigger] slots@[j].entry),
                            now,
                        );
                        assert(slots@[j].key@ != slots@[i as int].key@);
                    } else if b < before.len() {
                        assert(before.contains(before[b]));
                        let j = choose|j: int| 0 <= j < i && slots@[j].key@ == before[b] && live(
                            entry_model(#[trigger] slots@[j].entry),
                            now,
                        );
                        assert(slots@[j].key@ != slots@[i as int].key@);
                    }
                }
            }
        }
        i += 1;
    }
    proof {
        assert forall|k: Seq<u8>| #[trigger]
            vec_args(out@).contains(k) <==> present(map_of(slots@), now, k) by {
            lemma_map_of_dom(slots@, k);
            if vec_args(out@).contains(k) {
                let j = choose|j: int| 0 <= j < slots.len() && slots@[j].key@ == k && live(
                    entry_model(#[trigger] slots@[j].entry),
                    now,
                );
                lemma_map_of_value(slots@, j);
            }
            if present(map_of(slots@), now, k) {
                let j = choose|j: int| 0 <= j < slots.len() && #[trigger] slots@[j].key@ == k;
                lemma_map_of_value(slots@, j);
                assert(live(entry_model(slots@[j].entry), now));
            }
        }
    }
    out
}

/// What `set` does: the write happens when the condition holds against
/// the key as seen at `now` (an expired entry is dropped and counts as
/// absent); the old value is returned when asked for; a write is followed
/// by eviction.
pub open spec fn set_post(
    s0: Store,
    s1: Store,
    now: Instant,
    key: Seq<u8>,
    value: Seq<u8>,
    expiry: Expiry,
    condition: Condition,
    want_old: bool,
    r: SetOutcome,
) -> bool {
    let m1 = purge(s0.contents(), now, key);
    &&& r.applied == condition_holds(condition, m1.contains_key(key))
    &&& opt_view(r.old_value) == (if want_old {
        lookup(s0.contents(), now, key)
    } else {
        None
    })
    &&& !r.applied ==> s1.contents() == m1 && same_books(s0, s1)
    &&& r.applied ==> eviction_post(
        m1.insert(
            key,
            EntryModel { value: value, expires_at: resolve_expiry(expiry, m1, key) },
        ),
        s0.budget(),
        key,
        s1.contents(),
        s0.evictions(),
        s1.evictions(),
    ) && s1.budget() == s0.budget() && s1.hits() == s0.hits() && s1.misses() == s0.misses()
        && s1.cursors() == s0.cursors() && s1.last_cursor_id() == s0.last_cursor_id()
}

/// What `persist` does: clears a deadline the key has at `now`.
pub open spec fn persist_post(
    s0: Store,
    s1: Store,
    now: Instant,
    key: Seq<u8>,
    b: bool,
) -> bool {
    let m1 = purge(s0.contents(), now, key);
    &&& b == (m1.contains_key(key) && m1[key].expires_at is Some)
    &&& s1.contents() == (if b {
        m1.insert(key, EntryModel { value: m1[key].value, expires_at: None })
    } else {
        m1
    })
}

/// What `expire` does: sets the deadline of a key live at `now`.
pub open spec fn expire_post(
    s0: Store,
    s1: Store,
    now: Instant,
    key: Seq<u8>,
    deadline: Instant,
    b: bool,
) -> bool {
    let m1 = purge(s0.contents(), now, key);
    &&& b == m1.contains_key(key)
    &&& s1.contents() == (if b {
        m1.insert(key, EntryModel { value: m1[key].value, expires_at: Some(deadline) })
    } else {
        m1
    })
}

/// What `incr_by` does: reads the number (0 when missing), fails on a
/// non-integer or on overflow, otherwise writes the sum as decimal text,
/// keeping the deadline, and evicts.
pub open spec fn incr_post(
    s0: Store,
    s1: Store,
    now: Instant,
    key: Seq<u8>,
    delta: i64,
    r: Result<i64,
    IncrError>,
) -> bool {
    let m1 = purge(s0.contents(), now, key);
    match incr_base(m1, key) {
        None => r == Err::<i64, IncrError>(IncrError::NotAnInteger)
            && s1.contents() == m1 && same_books(s0, s1),
        Some(c) => if c + delta < i64::MIN || c + delta > i64::MAX {
            r == Err::<i64, IncrError>(IncrError::Overflow) && s1.contents()
                == m1 && same_books(s0, s1)
        } else {
            &&& r == Ok::<i64, IncrError>((c + delta) as i64)
            &&& eviction_post(
                m1.insert(
                    key,
                    EntryModel {
                        value: int_text(c + delta),
                        expires_at: if m1.contains_key(key) {
                            m1[key].expires_at
                        } else {
                            None
                        },
                    },
                ),
                s0.budget(),
                key,
                s1.contents(),
                s0.evictions(),
                s1.evictions(),
            )
            &&& s1.budget() == s0.budget()
            &&& s1.hits() == s0.hits()
            &&& s1.misses() == s0.misses()
            &&& s1.cursors() == s0.cursors()
            &&& s1.last_cursor_id() == s0.last_cursor_id()
        },
    }
}

/// The states of a run of plain writes: `ms[i]` and `evs[i]` are the
/// entries and the eviction counter before pair `i`; each pair is written
/// over `ms[i]` and swept under the budget `b`, giving `ms[i + 1]`.
pub open spec fn mset_steps(
    m0: Map<Seq<u8>, EntryModel>,
    b: Option<usize>,
    ps: Seq<(Seq<u8>, Seq<u8>)>,
    ms: Seq<Map<Seq<u8>, EntryModel>>,
    evs: Seq<u64>,
    ev0: u64,
) -> bool {
    &&& ms.len() == ps.len() + 1
    &&& evs.len() == ps.len() + 1
    &&& ms[0] == m0
    &&& evs[0] == ev0
    &&& forall|i: int|
        #![trigger ps[i]]
        0 <= i < ps.len() ==> eviction_post(
            ms[i].insert(ps[i].0, EntryModel { value: ps[i].1, expires_at: None }),
            b,
            ps[i].0,
            ms[i + 1],
            evs[i],
            evs[i + 1],
        )
}

/// The pairs written one by one from `m0`, each write followed by the
/// eviction sweep a plain write makes under the budget `b`, end in `m1`,
/// with the eviction counter gone from `ev0` to `ev1`.
pub open spec fn mset_run(
    m0: Map<Seq<u8>, EntryModel>,
    b: Option<usize>,
    ps: Seq<(Seq<u8>, Seq<u8>)>,
    m1: Map<Seq<u8>, EntryModel>,
    ev0: u64,
    ev1: u64,
) -> bool {
    exists|ms: Seq<Map<Seq<u8>, EntryModel>>, evs: Seq<u64>|
        #[trigger] mset_steps(m0, b, ps, ms, evs, ev0) && ms.last() == m1 && evs.last() == ev1
}

/// What `mset` leaves: the result of writing the pairs one by one, each
/// write followed by its own eviction sweep (`mset_run`); so entries from
/// the pairs written in order (or kept from before), the last pair's key
/// always among them; without a budget, exactly the pairs written over the
/// old contents.
pub open spec fn mset_post(
    s0: Store,
    s1: Store,
    ps: Seq<(Seq<u8>, Seq<u8>)>,
) -> bool {
    let w = write_pairs(s0.contents(), ps);
    &&& mset_run(s0.contents(), s0.budget(), ps, s1.contents(), s0.evictions(), s1.evictions())
    &&& forall|k: Seq<u8>| #[trigger]
        s1.contents().contains_key(k) ==> w.contains_key(k)
            && s1.contents()[k] == w[k]
    &&& ps.len() > 0 ==> s1.contents().contains_key(ps.last().0)
    &&& match s0.budget() {
        None => s1.contents() == w,
        Some(b) => ps.len() > 0 ==> map_cost(s1.contents()) <= b
            || s1.contents().dom() == set![ps.last().0],
    }
}

/// What a SCAN page does: the keyspace and counters stay; a live cursor
/// continues from its snapshot; otherwise a new scan starts from a snapshot
/// of the keys live at `now`.
pub open spec fn scan_post(
    s0: Store,
    s1: Store,
    now: Instant,
    cursor: u64,
    count: int,
    r: (u64, Seq<Seq<u8>>),
) -> bool {
    &&& s1.contents() == s0.contents()
    &&& s1.used() == s0.used()
    &&& s1.budget() == s0.budget()
    &&& s1.hits() == s0.hits()
    &&& s1.misses() == s0.misses()
    &&& s1.evictions() == s0.evictions()
    &&& resumable(s0.cursors(), now, cursor) ==> s1.last_cursor_id() == s0.last_cursor_id()
        && resume_post(s0.cursors(), now, cursor, count, r, s1.cursors())
    &&& !resumable(s0.cursors(), now, cursor) ==> exists|keys: Seq<Seq<u8>>|
        lists_live_keys(s0.contents(), now, keys) && start_post(
            s0.cursors(),
            s0.last_cursor_id(),
            now,
            keys,
            count,
            r,
            s1.cursors(),
            s1.last_cursor_id(),
        )
}

/// What `random_key` does: drops expired entries from the front until it
/// meets a live one, and names that key; nothing only when no key is live.
/// Only expired entries leave, and every other part of the store stays.
pub open spec fn random_key_post(s0: Store, s1: Store, now: Instant, r: Option<Seq<u8>>) -> bool {
    &&& forall|k: Seq<u8>| #[trigger]
        s1.contents().contains_key(k) ==> s0.contents().contains_key(k) && s1.contents()[k]
            == s0.contents()[k]
    &&& forall|k: Seq<u8>| #[trigger]
        s0.contents().contains_key(k) && !s1.contents().contains_key(k) ==> expired(
            s0.contents(),
            now,
            k,
        )
    &&& (r matches Some(k) ==> present(s0.contents(), now, k) && s1.contents().contains_key(k))
    &&& (r is None <==> forall|k: Seq<u8>| !#[trigger] present(s0.contents(), now, k))
    &&& same_books(s0, s1)
}

/// Counters `INFO` reports.
#[derive(Debug, Clone, Copy, PartialEq, Eq)]
pub struct Stats {
    pub keys: usize,
    pub used_bytes: usize,
    pub max_memory_bytes: Option<usize>,
    pub hits: u64,
    pub misses: u64,
    pub evictions: u64,
}

/// The keyspace.
pub struct Store {
    slots: Vec<Slot>,
    used_bytes: usize,
    max_memory_bytes: Option<usize>,
    scan_registry: ScanRegistry,
    hits: u64,
    misses: u64,
    evictions: u64,
}

/// What the eviction sweep after a write of `protect` leaves: a subset of
/// the entries, `protect` among them, each unchanged; one eviction counted
/// per entry dropped; nothing dropped without a budget or while within it;
/// the entries dropped can be ordered so that each went while the charge
/// was still over the budget (with the last one back, it is over); and
/// afterwards the charge is within the budget unless `protect` alone is
/// left.
pub open spec fn eviction_post(
    pre: Map<Seq<u8>, EntryModel>,
    budget: Option<usize>,
    protect: Seq<u8>,
    post: Map<Seq<u8>, EntryModel>,
    ev0: u64,
    ev1: u64,
) -> bool {
    &&& post.contains_key(protect) && post[protect] == pre[protect]
    &&& forall|k: Seq<u8>| #[trigger]
        post.contains_key(k) ==> pre.contains_key(k) && post[k] == pre[k]
    &&& ev1 == bump(ev0, (pre.dom().len() - post.dom().len()) as nat)
    &&& match budget {
        None => post == pre,
        Some(b) => {
            &&& map_cost(pre) <= b ==> post == pre
            &&& map_cost(post) <= b || post.dom() == set![protect]
            &&& post != pre ==> exists|e: Seq<u8>|
                #![trigger pre.contains_key(e), post.contains_key(e)]
                pre.contains_key(e) && !post.contains_key(e) && map_cost(post.insert(e, pre[e])) > b
        },
    }
}

impl Store {
    /// Every key and what it holds.
    pub closed spec fn contents(&self) -> Map<Seq<u8>, EntryModel> {
        map_of(self.slots@)
    }

    /// Bytes currently charged.
    pub closed spec fn used(&self) -> nat {
        self.used_bytes as nat
    }

    /// The byte budget, if any.
    pub closed spec fn budget(&self) -> Option<usize> {
        self.max_memory_bytes
    }

    pub closed spec fn hits(&self) -> u64 {
        self.hits
    }

    pub closed spec fn misses(&self) -> u64 {
        self.misses
    }

    pub closed spec fn evictions(&self) -> u64 {
        self.evictions
    }

    /// The live scan cursors.
    pub closed spec fn cursors(&self) -> Map<u64, CursorModel> {
        self.scan_registry.cursors()
    }

    /// The scan cursor id handed out most recently.
    pub closed spec fn last_cursor_id(&self) -> u64 {
        self.scan_registry.last_id()
    }

    pub closed spec fn wf(&self) -> bool {
        &&& distinct(self.slots@)
        &&& self.used_bytes == total_cost(self.slots@)
        &&& self.scan_registry.wf()
    }

    /// The bytes charged are exactly the charge for the contents, and the
    /// contents are finite.
    pub proof fn lemma_used_is_cost(&self)
        requires
            self.wf(),
        ensures
            self.contents().dom().finite(),
            self.used() == map_cost(self.contents()),
    {
        lemma_map_of_len(self.slots@);
    }

    pub fn new() -> (s: Store)
        ensures
            s.wf(),
            s.contents() == Map::<Seq<u8>, EntryModel>::empty(),
            s.used() == 0,
            s.budget() == None::<usize>,
            s.hits() == 0 && s.misses() == 0 && s.evictions() == 0,
            s.cursors() == Map::<u64, CursorModel>::empty(),
            s.last_cursor_id() == 0,
    {
        Store {
            slots: Vec::new(),
            used_bytes: 0,
            max_memory_bytes: None,
            scan_registry: ScanRegistry::new(),
            hits: 0,
            misses: 0,
            evictions: 0,
        }
    }

    /// A store that evicts to keep the bytes charged within `max_bytes`.
    pub fn with_max_memory(max_bytes: usize) -> (s: Store)
        ensures
            s.wf(),
            s.contents() == Map::<Seq<u8>, EntryModel>::empty(),
            s.used() == 0,
            s.budget() == Some(max_bytes),
            s.hits() == 0 && s.misses() == 0 && s.evictions() == 0,
            s.cursors() == Map::<u64, CursorModel>::empty(),
            s.last_cursor_id() == 0,
    {
        Store {
            slots: Vec::new(),
            used_bytes: 0,
            max_memory_bytes: Some(max_bytes),
            scan_registry: ScanRegistry::new(),
            hits: 0,
            misses: 0,
            evictions: 0,
        }
    }

    /// Number of keys held (expired ones not yet dropped included).
    pub fn len(&self) -> (n: usize)
        requires
            self.wf(),
        ensures
            n == self.contents().dom().len(),
    {
        proof {
            lemma_map_of_len(self.slots@);
        }
        self.slots.len()
    }

    pub fn is_empty(&self) -> (b: bool)
        requires
            self.wf(),
        ensures
            b == (self.contents().dom().len() == 0),
    {
        proof {
            lemma_map_of_len(self.slots@);
        }
        self.slots.len() == 0
    }

    pub fn used_bytes(&self) -> (n: usize)
        ensures
            n == self.used(),
    {
        self.used_bytes
    }

    pub fn max_memory_bytes(&self) -> (b: Option<usize>)
        ensures
            b == self.budget(),
    {
        self.max_memory_bytes
    }

    /// The counters `INFO` reports.
    pub fn stats(&self) -> (st: Stats)
        requires
            self.wf(),
        ensures
            st.keys == self.contents().dom().len(),
            st.used_bytes == self.used(),
            st.max_memory_bytes == self.budget(),
            st.hits == self.hits(),
            st.misses == self.misses(),
            st.evictions == self.evictions(),
    {
        proof {
            lemma_map_of_len(self.slots@);
        }
        Stats {
            keys: self.slots.len(),
            used_bytes: self.used_bytes,
            max_memory_bytes: self.max_memory_bytes,
            hits: self.hits,
            misses: self.misses,
            evictions: self.evictions,
        }
    }

    fn find(&self, key: &[u8]) -> (r: Option<usize>)
        ensures
            match r {
                Some(i) => i < self.slots.len() && self.slots@[i as int].key@ == key@,
                None => !self.contents().contains_key(key@),
            },
    {
        let mut i: usize = 0;
        while i < self.slots.len()
            invariant
                i <= self.slots.len(),
                forall|j: int| 0 <= j < i ==> self.slots@[j].key@ != key@,
            decreases self.slots.len() - i,
        {
            if crate::bytes::bytes_equal(self.slots[i].key.as_slice(), key) {
                return Some(i);
            }
            i += 1;
        }
        proof {
            lemma_map_of_dom(self.slots@, key@);
        }
        None
    }

    /// Drops the entry at index `i`, returning it.
    fn remove_at(&mut self, i: usize) -> (e: Entry)
        requires
            old(self).wf(),
            i < old(self).slots.len(),
        ensures
            final(self).wf(),
            entry_model(e) == old(self).contents()[old(self).slots@[i as int].key@],
            old(self).contents().contains_key(old(self).slots@[i as int].key@),
            final(self).contents() == old(self).contents().remove(old(self).slots@[i as int].key@),
            final(self).used() == old(self).used() - entry_cost(
                old(self).slots@[i as int].key@,
                e.value@.len() as int,
            ),
            final(self).budget() == old(self).budget(),
            final(self).hits() == old(self).hits(),
            final(self).misses() == old(self).misses(),
            final(self).evictions() == old(self).evictions(),
            final(self).scan_registry == old(self).scan_registry,
            final(self).slots@ == old(self).slots@.remove(i as int),
    {
        proof {
            lemma_remove_slot(self.slots@, i as int);
            lemma_map_of_value(self.slots@, i as int);
            lemma_total_nonneg(self.slots@.remove(i as int));
        }
        let slot = self.slots.remove(i);
        self.used_bytes = self.used_bytes - (slot.key.len() + slot.entry.value.len() + PER_ENTRY_OVERHEAD_BYTES);
        slot.entry
    }

    /// CLOCK eviction: while over budget, look at up to the first
    /// `DEFAULT_SAMPLE_SIZE` entries, skipping `protect`; evict the first
    /// one whose clock bit is clear, clearing set bits on the way (their
    /// second chance); when every entry looked at had its bit set, evict
    /// the first of them.
    fn evict_to_budget(&mut self, protect: &[u8])
        requires
            old(self).wf(),
            old(self).contents().contains_key(protect@),
        ensures
            final(self).wf(),
            eviction_post(
                old(self).contents(),
                old(self).budget(),
                protect@,
                final(self).contents(),
                old(self).evictions(),
                final(self).evictions(),
            ),
            final(self).budget() == old(self).budget(),
            final(self).hits() == old(self).hits(),
            final(self).misses() == old(self).misses(),
            final(self).cursors() == old(self).cursors(),
            final(self).last_cursor_id() == old(self).last_cursor_id(),
    {
        let ghost m0 = self.contents();
        let ghost ev0 = self.evictions;
        proof {
            lemma_map_of_len(self.slots@);
            lemma_bump_step(ev0, 0);
        }
        let budget = match self.max_memory_bytes {
            None => {
                return;
            },
            Some(b) => b,
        };
        let mut stuck = false;
        while self.used_bytes > budget && !stuck
            invariant
                self.wf(),
                m0.dom().finite(),
                self.max_memory_bytes == Some(budget),
                self.hits == old(self).hits,
                self.misses == old(self).misses,
                self.scan_registry == old(self).scan_registry,
                self.contents().contains_key(protect@),
                self.contents()[protect@] == m0[protect@],
                forall|k: Seq<u8>| #[trigger]
                    self.contents().contains_key(k) ==> m0.contains_key(k) && self.contents()[k]
                        == m0[k],
                self.contents().dom().finite(),
                self.contents().dom().len() <= m0.dom().len(),
                self.evictions == bump(ev0, (m0.dom().len() - self.contents().dom().len()) as nat),
                map_cost(m0) <= budget ==> self.contents() == m0,
                map_cost(m0) == old(self).used_bytes,
                self.used_bytes == map_cost(self.contents()),
                stuck ==> self.contents().dom() == set![protect@],
                self.contents() != m0 ==> exists|e: Seq<u8>|
                    #![trigger m0.contains_key(e), self.contents().contains_key(e)]
                    m0.contains_key(e) && !self.contents().contains_key(e) && map_cost(
                        self.contents().insert(e, m0[e]),
                    ) > budget,
            decreases self.slots.len() + (if stuck { 0int } else { 1int }),
        {
            proof {
                lemma_map_of_len(self.slots@);
            }
            let n = self.slots.len();
            let lim = if n < DEFAULT_SAMPLE_SIZE {
                n
            } else {
                DEFAULT_SAMPLE_SIZE
            };
            let ghost before = self.slots@;
            let ghost mb = self.contents();
            let ghost ub = self.used_bytes;
            let ghost eb = self.evictions;
            let mut fallback: Option<usize> = None;
            let mut victim: Option<usize> = None;
            let mut i: usize = 0;
            while i < lim && victim.is_none()
                invariant
                    lim <= n == self.slots.len(),
                    i <= lim,
                    distinct(self.slots@),
                    self.slots@.len() == before.len(),
                    self.max_memory_bytes == Some(budget),
                    self.hits == old(self).hits,
                    self.misses == old(self).misses,
                    self.scan_registry == old(self).scan_registry,
                    self.used_bytes == ub,
                    self.evictions == eb,
                    forall|j: int|
                        0 <= j < before.len() ==> (#[trigger] self.slots@[j]).key == before[j].key
                            && self.slots@[j].entry.value == before[j].entry.value
                            && self.slots@[j].entry.expires_at == before[j].entry.expires_at,
                    match victim {
                        Some(v) => v < i && self.slots@[v as int].key@ != protect@,
                        None => true,
                    },
                    match fallback {
                        Some(v) => v < i && self.slots@[v as int].key@ != protect@,
                        None => true,
                    },
                    fallback.is_none() && victim.is_none() ==> forall|j: int|
                        0 <= j < i ==> (#[trigger] self.slots@[j]).key@ == protect@,
                decreases lim - i,
            {
                if crate::bytes::bytes_equal(self.slots[i].key.as_slice(), protect) {
                    i += 1;
                } else if self.slots[i].entry.clock_bit {
                    self.slots[i].entry.clock_bit = false;
                    if fallback.is_none() {
                        fallback = Some(i);
                    }
                    i += 1;
                } else {
                    victim = Some(i);
                    i += 1;
                }
            }
            proof {
                assert(forall|j: int| 0 <= j < before.len() ==> self.slots@[j].key@ == before[j].key@);
                lemma_same_models(before, self.slots@);
            }
            let chosen = match victim {
                Some(v) => Some(v),
                None => fallback,
            };
            match chosen {
                Some(v) => {
                    let ghost k = self.slots@[v as int].key@;
                    proof {
                        lemma_map_of_len(self.slots@);
                    }
                    self.remove_at(v);
                    proof {
                        lemma_map_of_len(self.slots@);
                        lemma_bump_step(ev0, (m0.dom().len() - mb.dom().len()) as nat);
                        assert(mb.contains_key(k));
                        if map_cost(m0) <= budget {
                            assert(self.used_bytes > budget);
                        }
                        assert(self.contents().insert(k, m0[k]) =~= mb);
                        assert(m0.contains_key(k) && !self.contents().contains_key(k));
                    }
                    self.evictions = self.evictions.wrapping_add(1);
                },
                None => {
                    proof {
                        assert(self.slots@[0].key@ == protect@);
                        if n >= 2 {
                            assert(self.slots@[1].key@ == protect@);
                            assert(false);
                        }
                        lemma_map_of_dom(self.slots@, protect@);
                        assert forall|k: Seq<u8>| #[trigger]
                            self.contents().contains_key(k) implies k == protect@ by {
                            lemma_map_of_dom(self.slots@, k);
                        }
                        assert(self.contents().dom() =~= set![protect@]);
                    }
                    stuck = true;
                },
            }
        }
    }

    /// Writes `key`, charging its bytes, then evicts down to the budget
    /// (never `key` itself).
    fn insert_accounted(&mut self, key: &[u8], value: Vec<u8>, expires_at: Option<Instant>)
        requires
            old(self).wf(),
            old(self).used() + entry_cost(key@, value.len() as int) <= usize::MAX,
        ensures
            final(self).wf(),
            eviction_post(
                old(self).contents().insert(key@, EntryModel { value: value@, expires_at }),
                old(self).budget(),
                key@,
                final(self).contents(),
                old(self).evictions(),
                final(self).evictions(),
            ),
            final(self).budget() == old(self).budget(),
            final(self).hits() == old(self).hits(),
            final(self).misses() == old(self).misses(),
            final(self).cursors() == old(self).cursors(),
            final(self).last_cursor_id() == old(self).last_cursor_id(),
    {
        let ghost m = self.contents();
        let new_size = key.len() + value.len() + PER_ENTRY_OVERHEAD_BYTES;
        let slot = Slot {
            key: crate::bytes::copy_bytes(key),
            entry: Entry { value, expires_at, clock_bit: true },
        };
        match self.find(key) {
            Some(i) => {
                proof {
                    lemma_update_slot(self.slots@, i as int, slot);
                    lemma_remove_slot(self.slots@, i as int);
                    lemma_total_nonneg(self.slots@.remove(i as int));
                }
                let old_size = self.slots[i].key.len() + self.slots[i].entry.value.len()
                    + PER_ENTRY_OVERHEAD_BYTES;
                self.slots.set(i, slot);
                self.used_bytes = self.used_bytes - old_size + new_size;
            },
            None => {
                proof {
                    lemma_push_slot(self.slots@, slot);
                }
                self.slots.push(slot);
                self.used_bytes = self.used_bytes + new_size;
            },
        }
        proof {
            assert(self.contents() == m.insert(key@, EntryModel { value: value@, expires_at }));
        }
        self.evict_to_budget(key);
    }

    /// The value at `key`, if live at `now` (an expired entry there is
    /// dropped). Marks the entry as recently used and counts a hit or miss.
    pub fn get(&mut self, now: Instant, key: &[u8]) -> (r: Option<&[u8]>)
        requires
            old(self).wf(),
        ensures
            final(self).wf(),
            slice_view(r) == lookup(old(self).contents(), now, key@),
            final(self).contents() == purge(old(self).contents(), now, key@),
            counted_read(*old(self), *final(self), now, key@),
    {
        self.expire_if_needed(key, now);
        match self.find(key) {
            Some(i) => {
                proof {
                    lemma_map_of_value(self.slots@, i as int);
                    lemma_bump_step(self.hits, 0);
                }
                let ghost before = self.slots@;
                self.slots[i].entry.clock_bit = true;
                proof {
                    lemma_same_models(before, self.slots@);
                }
                self.hits = self.hits.wrapping_add(1);
                Some(self.slots[i].entry.value.as_slice())
            },
            None => {
                proof {
                    lemma_bump_step(self.misses, 0);
                }
                self.misses = self.misses.wrapping_add(1);
                None
            },
        }
    }

    /// Writes `value` at `key` when `condition` allows it (an expired entry
    /// counts as absent), with the deadline `expiry` resolves to; returns
    /// whether it wrote and, when `want_old`, the value the key held.
    pub fn set(
        &mut self,
        now: Instant,
        key: &[u8],
        value: Vec<u8>,
        expiry: Expiry,
        condition: Condition,
        want_old: bool,
    ) -> (r: SetOutcome)
        requires
            old(self).wf(),
            old(self).used() + entry_cost(key@, value.len() as int) <= usize::MAX,
        ensures
            final(self).wf(),
            set_post(*old(self), *final(self), now, key@, value@, expiry, condition, want_old, r),
    {
        self.expire_if_needed(key, now);
        let found = self.find(key);
        let exists = found.is_some();
        let condition_ok = match condition {
            Condition::Always => true,
            Condition::IfExists => exists,
            Condition::IfNotExists => !exists,
        };
        let mut current_deadline: Option<Instant> = None;
        let mut old_value: Option<Vec<u8>> = None;
        match found {
            Some(i) => {
                proof {
                    lemma_map_of_value(self.slots@, i as int);
                }
                current_deadline = self.slots[i].entry.expires_at;
                if want_old {
                    old_value = Some(crate::bytes::copy_bytes(self.slots[i].entry.value.as_slice()));
                }
            },
            None => {},
        }
        if !condition_ok {
            return SetOutcome { applied: false, old_value };
        }
        let expires_at = match expiry {
            Expiry::Never => None,
            Expiry::KeepTtl => current_deadline,
            Expiry::At(deadline) => Some(deadline),
        };
        self.insert_accounted(key, value, expires_at);
        SetOutcome { applied: true, old_value }
    }

    /// Clears the deadline of `key`; true when there was one to clear.
    pub fn persist(&mut self, now: Instant, key: &[u8]) -> (b: bool)
        requires
            old(self).wf(),
        ensures
            final(self).wf(),
            persist_post(*old(self), *final(self), now, key@, b),
            same_books(*old(self), *final(self)),
    {
        self.expire_if_needed(key, now);
        match self.find(key) {
            Some(i) => {
                proof {
                    lemma_map_of_value(self.slots@, i as int);
                }
                if self.slots[i].entry.expires_at.is_some() {
                    let ghost before = self.slots@;
                    self.slots[i].entry.expires_at = None;
                    proof {
                        lemma_update_slot(before, i as int, self.slots@[i as int]);
                        assert(self.slots@ == before.update(i as int, self.slots@[i as int]));
                    }
                    true
                } else {
                    false
                }
            },
            None => false,
        }
    }

    /// Sets the deadline of `key` to `deadline`; false when the key is
    /// missing (or expired at `now`).
    pub fn expire(&mut self, now: Instant, key: &[u8], deadline: Instant) -> (b: bool)
        requires
            old(self).wf(),
        ensures
            final(self).wf(),
            expire_post(*old(self), *final(self), now, key@, deadline, b),
            same_books(*old(self), *final(self)),
    {
        self.expire_if_needed(key, now);
        match self.find(key) {
            Some(i) => {
                proof {
                    lemma_map_of_value(self.slots@, i as int);
                }
                let ghost before = self.slots@;
                self.slots[i].entry.expires_at = Some(deadline);
                proof {
                    lemma_update_slot(before, i as int, self.slots@[i as int]);
                    assert(self.slots@ == before.update(i as int, self.slots@[i as int]));
                }
                true
            },
            None => false,
        }
    }

    /// Reads and removes `key`; counts a hit or a miss.
    pub fn get_del(&mut self, now: Instant, key: &[u8]) -> (r: Option<Vec<u8>>)
        requires
            old(self).wf(),
        ensures
            final(self).wf(),
            opt_view(r) == lookup(old(self).contents(), now, key@),
            final(self).contents() == old(self).contents().remove(key@),
            counted_read(*old(self), *final(self), now, key@),
    {
        self.expire_if_needed(key, now);
        match self.find(key) {
            Some(i) => {
                proof {
                    lemma_map_of_value(self.slots@, i as int);
                    lemma_bump_step(self.hits, 0);
                }
                let e = self.remove_at(i);
                self.hits = self.hits.wrapping_add(1);
                Some(e.value)
            },
            None => {
                proof {
                    lemma_bump_step(self.misses, 0);
                    assert(self.contents() =~= old(self).contents().remove(key@));
                }
                self.misses = self.misses.wrapping_add(1);
                None
            },
        }
    }

    /// Reads `key`, and when `expiry` is given also resets its deadline
    /// (`Some(Expiry::Never)` clears it); counts a hit or a miss.
    pub fn get_ex(&mut self, now: Instant, key: &[u8], expiry: Option<Expiry>) -> (r: Option<
        Vec<u8>,
    >)
        requires
            old(self).wf(),
        ensures
            final(self).wf(),
            opt_view(r) == lookup(old(self).contents(), now, key@),
            final(self).contents() == get_ex_contents(
                purge(old(self).contents(), now, key@),
                key@,
                expiry,
            ),
            counted_read(*old(self), *final(self), now, key@),
    {
        self.expire_if_needed(key, now);
        match self.find(key) {
            Some(i) => {
                proof {
                    lemma_map_of_value(self.slots@, i as int);
                    lemma_bump_step(self.hits, 0);
                }
                self.hits = self.hits.wrapping_add(1);
                let value = crate::bytes::copy_bytes(self.slots[i].entry.value.as_slice());
                match expiry {
                    Some(e) => {
                        let new_deadline = match e {
                            Expiry::Never => None,
                            Expiry::KeepTtl => self.slots[i].entry.expires_at,
                            Expiry::At(d) => Some(d),
                        };
                        let ghost before = self.slots@;
                        self.slots[i].entry.expires_at = new_deadline;
                        proof {
                            lemma_update_slot(before, i as int, self.slots@[i as int]);
                            assert(self.slots@ == before.update(i as int, self.slots@[i as int]));
                        }
                    },
                    None => {},
                }
                Some(value)
            },
            None => {
                proof {
                    lemma_bump_step(self.misses, 0);
                }
                self.misses = self.misses.wrapping_add(1);
                None
            },
        }
    }

    /// Seconds left on `key`: -2 when missing, -1 without a deadline, else
    /// the milliseconds left plus 500, divided by 1000.
    pub fn ttl_seconds(&mut self, now: Instant, key: &[u8]) -> (t: i64)
        requires
            old(self).wf(),
        ensures
            final(self).wf(),
            t == ttl_spec(old(self).contents(), now, key@),
            final(self).contents() == purge(old(self).contents(), now, key@),
            same_books(*old(self), *final(self)),
    {
        self.expire_if_needed(key, now);
        match self.find(key) {
            None => -2,
            Some(i) => {
                proof {
                    lemma_map_of_value(self.slots@, i as int);
                }
                match self.slots[i].entry.expires_at {
                    None => -1,
                    Some(d) => {
                        let ms: u128 = d.nanos_since(now) / 1_000_000;
                        let secs: u128 = (ms + 500) / 1000;
                        if secs > 9223372036854775807u128 {
                            i64::MAX
                        } else {
                            secs as i64
                        }
                    },
                }
            },
        }
    }

    /// Milliseconds left on `key`: -2 when missing, -1 without a deadline.
    pub fn pttl_millis(&mut self, now: Instant, key: &[u8]) -> (t: i64)
        requires
            old(self).wf(),
        ensures
            final(self).wf(),
            t == pttl_spec(old(self).contents(), now, key@),
            final(self).contents() == purge(old(self).contents(), now, key@),
            same_books(*old(self), *final(self)),
    {
        self.expire_if_needed(key, now);
        match self.find(key) {
            None => -2,
            Some(i) => {
                proof {
                    lemma_map_of_value(self.slots@, i as int);
                }
                match self.slots[i].entry.expires_at {
                    None => -1,
                    Some(d) => {
                        let ms: u128 = d.nanos_since(now) / 1_000_000;
                        if ms > 9223372036854775807u128 {
                            i64::MAX
                        } else {
                            ms as i64
                        }
                    },
                }
            },
        }
    }

    /// Adds `delta` to the integer at `key` (a missing key counts as 0),
    /// keeping its deadline; the new value is stored as decimal text.
    pub fn incr_by(&mut self, now: Instant, key: &[u8], delta: i64) -> (r: Result<i64, IncrError>)
        requires
            old(self).wf(),
            old(self).used() + entry_cost(key@, 20) <= usize::MAX,
        ensures
            final(self).wf(),
            incr_post(*old(self), *final(self), now, key@, delta, r),
    {
        self.expire_if_needed(key, now);
        let mut expires_at: Option<Instant> = None;
        let current: i64 = match self.find(key) {
            None => 0,
            Some(i) => {
                proof {
                    lemma_map_of_value(self.slots@, i as int);
                }
                expires_at = self.slots[i].entry.expires_at;
                match parse_i64_bytes(self.slots[i].entry.value.as_slice()) {
                    Some(v) => v,
                    None => {
                        return Err(IncrError::NotAnInteger);
                    },
                }
            },
        };
        let new_value = match current.checked_add(delta) {
            Some(v) => v,
            None => {
                return Err(IncrError::Overflow);
            },
        };
        let mut text: Vec<u8> = Vec::new();
        push_i64_text(&mut text, new_value);
        proof {
            crate::decimal::lemma_int_text_len(new_value);
            assert(text@ == int_text(new_value as int));
        }
        self.insert_accounted(key, text, expires_at);
        Ok(new_value)
    }

    /// Removes every key of `keys`; returns how many distinct ones held a
    /// live entry (expired ones count as already gone).
    pub fn del(&mut self, now: Instant, keys: &[&[u8]]) -> (n: u64)
        requires
            old(self).wf(),
        ensures
            final(self).wf(),
            final(self).contents() == old(self).contents().remove_keys(slice_args(keys@).to_set()),
            n == present_among(old(self).contents(), now, slice_args(keys@)).len(),
            same_books(*old(self), *final(self)),
    {
        let ghost m = self.contents();
        let ghost ks = slice_args(keys@);
        let mut count: u64 = 0;
        let mut i: usize = 0;
        proof {
            lemma_map_of_len(self.slots@);
            assert(present_among(m, now, ks.take(0)) =~= Set::empty());
            assert(m.remove_keys(ks.take(0).to_set()) =~= m);
        }
        while i < keys.len()
            invariant
                self.wf(),
                same_books(*old(self), *self),
                m == old(self).contents(),
                ks == slice_args(keys@),
                m.dom().finite(),
                i <= keys.len(),
                self.contents() == m.remove_keys(ks.take(i as int).to_set()),
                present_among(m, now, ks.take(i as int)).finite(),
                count == present_among(m, now, ks.take(i as int)).len(),
                count <= i,
            decreases keys.len() - i,
        {
            let key: &[u8] = keys[i];
            let ghost k = ks[i as int];
            assert(key@ == k);
            let ghost prior = ks.take(i as int);
            let ghost next = ks.take(i + 1);
            assert forall|x: Seq<u8>| next.contains(x) <==> prior.contains(x) || x == k by {
                if next.contains(x) {
                    let j = choose|j: int| 0 <= j < i + 1 && #[trigger] next[j] == x;
                    if j < i {
                        assert(prior[j] == x);
                    }
                }
                if prior.contains(x) {
                    let j = choose|j: int| 0 <= j < i && #[trigger] prior[j] == x;
                    assert(next[j] == x);
                }
                if x == k {
                    assert(next[i as int] == x);
                }
            }
            self.expire_if_needed(key, now);
            let found = self.find(key);
            proof {
                assert(m.remove_keys(next.to_set()) =~= self.contents().remove(k));
                if prior.contains(k) {
                    assert(present_among(m, now, next) =~= present_among(m, now, prior));
                } else if present(m, now, k) {
                    assert(present_among(m, now, next) =~= present_among(m, now, prior).insert(k));
                } else {
                    assert(present_among(m, now, next) =~= present_among(m, now, prior));
                }
            }
            match found {
                Some(j) => {
                    self.remove_at(j);
                    count = count + 1;
                },
                None => {},
            }
            i += 1;
        }
        proof {
            assert(ks.take(keys.len() as int) =~= ks);
        }
        count
    }

    /// How many of `keys`, repeats counted, hold a live entry; expired
    /// entries among them are dropped.
    pub fn count_existing(&mut self, now: Instant, keys: &[&[u8]]) -> (n: u64)
        requires
            old(self).wf(),
        ensures
            final(self).wf(),
            final(self).contents() == purge_all(old(self).contents(), now, slice_args(keys@)),
            n == count_present(old(self).contents(), now, slice_args(keys@)),
            same_books(*old(self), *final(self)),
    {
        let ghost m = self.contents();
        let ghost ks = slice_args(keys@);
        let mut count: u64 = 0;
        let mut i: usize = 0;
        proof {
            assert(purge_all(m, now, ks.take(0)) =~= m);
        }
        while i < keys.len()
            invariant
                self.wf(),
                same_books(*old(self), *self),
                m == old(self).contents(),
                ks == slice_args(keys@),
                i <= keys.len(),
                self.contents() == purge_all(m, now, ks.take(i as int)),
                count == count_present(m, now, ks.take(i as int)),
                count <= i,
            decreases keys.len() - i,
        {
            let key: &[u8] = keys[i];
            proof {
                lemma_purge_all_step(m, now, ks, i as int);
                lemma_purge_keeps_reads(m, now, ks.take(i as int));
                assert(ks.take(i + 1).drop_last() =~= ks.take(i as int));
                assert(present(self.contents(), now, ks[i as int]) == present(m, now, ks[i as int]));
            }
            let ghost cur = self.contents();
            self.expire_if_needed(key, now);
            let found = self.find(key);
            proof {
                assert(key@ == ks[i as int]);
                if let Some(j) = found {
                    lemma_map_of_value(self.slots@, j as int);
                }
                assert(present(cur, now, ks[i as int]) == present(m, now, ks[i as int]));
                assert(found.is_some() == present(m, now, ks[i as int]));
                assert(ks.take(i + 1).last() == ks[i as int]);
            }
            if found.is_some() {
                count = count + 1;
            }
            i += 1;
        }
        proof {
            assert(ks.take(keys.len() as int) =~= ks);
        }
        count
    }

    /// The values at `keys`, in order, `None` where a key is missing or
    /// expired; each read counts a hit or a miss and marks its entry used.
    pub fn mget(&mut self, now: Instant, keys: &[&[u8]]) -> (r: Vec<Option<Vec<u8>>>)
        requires
            old(self).wf(),
        ensures
            final(self).wf(),
            r.len() == keys.len(),
            forall|i: int|
                0 <= i < keys.len() ==> opt_view(#[trigger] r@[i]) == lookup(
                    old(self).contents(),
                    now,
                    keys@[i]@,
                ),
            final(self).contents() == purge_all(old(self).contents(), now, slice_args(keys@)),
            final(self).hits() == bump(
                old(self).hits(),
                count_present(old(self).contents(), now, slice_args(keys@)),
            ),
            final(self).misses() == bump(
                old(self).misses(),
                (keys.len() - count_present(old(self).contents(), now, slice_args(keys@))) as nat,
            ),
            final(self).budget() == old(self).budget(),
            final(self).evictions() == old(self).evictions(),
            final(self).cursors() == old(self).cursors(),
            final(self).last_cursor_id() == old(self).last_cursor_id(),
    {
        let ghost m = self.contents();
        let ghost ks = slice_args(keys@);
        let ghost h0 = self.hits;
        let ghost m0 = self.misses;
        let mut out: Vec<Option<Vec<u8>>> = Vec::new();
        let mut i: usize = 0;
        proof {
            assert(purge_all(m, now, ks.take(0)) =~= m);
            lemma_bump_step(h0, 0);
            lemma_bump_step(m0, 0);
        }
        while i < keys.len()
            invariant
                self.wf(),
                m == old(self).contents(),
                ks == slice_args(keys@),
                i <= keys.len(),
                out.len() == i,
                forall|j: int|
                    0 <= j < i ==> opt_view(#[trigger] out@[j]) == lookup(m, now, keys@[j]@),
                self.contents() == purge_all(m, now, ks.take(i as int)),
                count_present(m, now, ks.take(i as int)) <= i,
                self.hits == bump(h0, count_present(m, now, ks.take(i as int))),
                self.misses == bump(m0, (i - count_present(m, now, ks.take(i as int))) as nat),
                h0 == old(self).hits,
                m0 == old(self).misses,
                self.max_memory_bytes == old(self).max_memory_bytes,
                self.evictions == old(self).evictions,
                self.cursors() == old(self).cursors(),
                self.last_cursor_id() == old(self).last_cursor_id(),
            decreases keys.len() - i,
        {
            let key: &[u8] = keys[i];
            let ghost cur = self.contents();
            proof {
                lemma_purge_all_step(m, now, ks, i as int);
                lemma_purge_keeps_reads(m, now, ks.take(i as int));
                assert(ks.take(i + 1).drop_last() =~= ks.take(i as int));
                assert(lookup(cur, now, ks[i as int]) == lookup(m, now, ks[i as int]));
                lemma_bump_step(h0, count_present(m, now, ks.take(i as int)));
                lemma_bump_step(m0, (i - count_present(m, now, ks.take(i as int))) as nat);
            }
            let v = match self.get(now, key) {
                Some(v) => Some(crate::bytes::copy_bytes(v)),
                None => None,
            };
            out.push(v);
            i += 1;
        }
        proof {
            assert(ks.take(keys.len() as int) =~= ks);
        }
        out
    }

    /// Writes each pair in order as a plain write with no deadline; the
    /// eviction after each write spares only that write's key.
    pub fn mset(&mut self, pairs: &[(&[u8], Vec<u8>)])
        requires
            old(self).wf(),
            old(self).used() + pairs_cost(pairs_view(pairs@)) <= usize::MAX,
        ensures
            final(self).wf(),
            mset_post(*old(self), *final(self), pairs_view(pairs@)),
            pairs.len() == 0 ==> final(self).contents() == old(self).contents(),
            exists|n: nat| final(self).evictions() == bump(old(self).evictions(), n),
            final(self).budget() == old(self).budget(),
            final(self).hits() == old(self).hits(),
            final(self).misses() == old(self).misses(),
            final(self).cursors() == old(self).cursors(),
            final(self).last_cursor_id() == old(self).last_cursor_id(),
    {
        let ghost m = self.contents();
        let ghost ps = pairs_view(pairs@);
        let ghost ev0 = self.evictions;
        let ghost mut ms: Seq<Map<Seq<u8>, EntryModel>> = seq![m];
        let ghost mut evs: Seq<u64> = seq![ev0];
        let mut i: usize = 0;
        proof {
            lemma_map_of_len(self.slots@);
            lemma_bump_step(ev0, 0);
            assert(ps.take(0) =~= Seq::<(Seq<u8>, Seq<u8>)>::empty());
            lemma_pairs_cost_prefix(ps, 0);
        }
        while i < pairs.len()
            invariant
                self.wf(),
                m == old(self).contents(),
                ps == pairs_view(pairs@),
                i <= pairs.len(),
                m.dom().finite(),
                write_pairs(m, ps.take(i as int)).dom().finite(),
                forall|k: Seq<u8>| #[trigger]
                    self.contents().contains_key(k) ==> write_pairs(m, ps.take(i as int)).contains_key(k)
                        && self.contents()[k] == write_pairs(m, ps.take(i as int))[k],
                i > 0 ==> self.contents().contains_key(ps[i - 1].0),
                self.max_memory_bytes == old(self).max_memory_bytes,
                self.max_memory_bytes is None ==> self.contents() == write_pairs(m, ps.take(i as int)),
                i > 0 ==> (self.max_memory_bytes matches Some(b) ==> (map_cost(self.contents()) <= b
                    || self.contents().dom() == set![ps[i - 1].0])),
                i == 0 ==> self.contents() == m,
                self.used() <= old(self).used() + pairs_cost(ps.take(i as int)),
                old(self).used() + pairs_cost(ps) <= usize::MAX,
                pairs_cost(ps.take(i as int)) <= pairs_cost(ps),
                exists|n: nat| self.evictions == bump(ev0, n),
                mset_steps(m, old(self).budget(), ps.take(i as int), ms, evs, ev0),
                ms.last() == self.contents(),
                evs.last() == self.evictions,
                ev0 == old(self).evictions,
                self.hits == old(self).hits,
                self.misses == old(self).misses,
                self.cursors() == old(self).cursors(),
                self.last_cursor_id() == old(self).last_cursor_id(),
            decreases pairs.len() - i,
        {
            let ghost before = self.contents();
            let ghost nb = choose|n: nat| self.evictions == bump(ev0, n);
            let ghost p = ps[i as int];
            proof {
                assert(ps.take(i + 1).drop_last() =~= ps.take(i as int));
                assert(ps.take(i + 1).last() == p);
                lemma_pairs_cost_prefix(ps, i + 1);
                self.lemma_used_is_cost();
                lemma_map_cost_insert(before, p.0, EntryModel { value: p.1, expires_at: None });
                assert(pairs_view(pairs@)[i as int] == (pairs@[i as int].0@, pairs@[i as int].1@));
            }
            let key: &[u8] = pairs[i].0;
            let value = crate::bytes::copy_bytes(pairs[i].1.as_slice());
            let ghost evb = self.evictions;
            self.insert_accounted(key, value, None);
            proof {
                let lp = ps.take(i + 1).last();
                assert(lp == p);
                assert(key@ == p.0);
                assert(eviction_post(
                    before.insert(lp.0, EntryModel { value: lp.1, expires_at: None }),
                    old(self).budget(),
                    lp.0,
                    self.contents(),
                    evb,
                    self.evictions,
                ));
                let ms2 = ms.push(self.contents());
                let evs2 = evs.push(self.evictions);
                let t = ps.take(i + 1);
                assert forall|j: int| #![trigger t[j]] 0 <= j < t.len() implies eviction_post(
                    ms2[j].insert(t[j].0, EntryModel { value: t[j].1, expires_at: None }),
                    old(self).budget(),
                    t[j].0,
                    ms2[j + 1],
                    evs2[j],
                    evs2[j + 1],
                ) by {
                    if j < i {
                        assert(t[j] == ps.take(i as int)[j]);
                        assert(ms2[j] == ms[j] && ms2[j + 1] == ms[j + 1]);
                        assert(evs2[j] == evs[j] && evs2[j + 1] == evs[j + 1]);
                    } else {
                        assert(t[j] == p);
                    }
                }
                assert(mset_steps(m, old(self).budget(), t, ms2, evs2, ev0));
                ms = ms2;
                evs = evs2;
                let pre = before.insert(p.0, EntryModel { value: p.1, expires_at: None });
                let w = write_pairs(m, ps.take(i + 1));
                assert(w == write_pairs(m, ps.take(i as int)).insert(p.0, EntryModel { value: p.1, expires_at: None }));
                lemma_map_cost_submap(self.contents(), pre);
                self.lemma_used_is_cost();
                vstd::set_lib::lemma_set_insert_finite_iff(write_pairs(m, ps.take(i as int)).dom(), p.0);
                assert(w.dom() =~= write_pairs(m, ps.take(i as int)).dom().insert(p.0));
                let k0 = (pre.dom().len() - self.contents().dom().len()) as nat;
                lemma_bump_add(ev0, nb, k0);
                assert(self.evictions == bump(ev0, nb + k0));
            }
            i += 1;
        }
        proof {
            assert(ps.take(pairs.len() as int) =~= ps);
            if pairs.len() > 0 {
                assert(ps[pairs.len() - 1].0 == pairs@.last().0@);
            }
            let nb = choose|n: nat| self.evictions == bump(ev0, n);
            assert(self.evictions() == bump(old(self).evictions(), nb));
            assert(mset_steps(m, old(self).budget(), ps, ms, evs, ev0));
        }
    }

    /// Empties the keyspace. Counters and scan cursors are kept.
    pub fn clear(&mut self)
        requires
            old(self).wf(),
        ensures
            final(self).wf(),
            final(self).contents() == Map::<Seq<u8>, EntryModel>::empty(),
            final(self).used() == 0,
            same_books(*old(self), *final(self)),
    {
        self.slots = Vec::new();
        self.used_bytes = 0;
        assert(self.contents() =~= Map::<Seq<u8>, EntryModel>::empty());
    }

    /// Every key live at `now`, each once.
    pub fn all_keys(&mut self, now: Instant) -> (r: Vec<Vec<u8>>)
        requires
            old(self).wf(),
        ensures
            *final(self) == *old(self),
            lists_live_keys(old(self).contents(), now, vec_args(r@)),
    {
        live_keys(&self.slots, now)
    }

    /// One page of a SCAN: cursor 0, an unknown cursor or an idle one
    /// starts over from a snapshot of the keys live at `now`; a live cursor
    /// continues. Returns the next cursor (0 when done) and the page.
    pub fn scan(&mut self, now: Instant, cursor: u64, count: usize) -> (r: (u64, Vec<Vec<u8>>))
        requires
            old(self).wf(),
        ensures
            final(self).wf(),
            scan_post(*old(self), *final(self), now, cursor, count as int, (r.0, vec_args(r.1@))),
    {
        let ghost m = self.contents();
        let slots = &self.slots;
        let fresh = move || -> (r: Vec<Vec<u8>>)
            requires
                distinct(slots@),
            ensures
                lists_live_keys(map_of(slots@), now, vec_args(r@)),
            { live_keys(slots, now) };
        let r = self.scan_registry.scan(now, cursor, count, fresh);
        proof {
            if !resumable(old(self).cursors(), now, cursor) {
                let keys = choose|keys: Vec<Vec<u8>>| call_ensures(fresh, (), keys) && start_post(
                    old(self).cursors(),
                    old(self).last_cursor_id(),
                    now,
                    vec_args(keys@),
                    count as int,
                    (r.0, vec_args(r.1@)),
                    self.cursors(),
                    self.last_cursor_id(),
                );
                assert(lists_live_keys(m, now, vec_args(keys@)));
            }
        }
        r
    }

    /// Some key (the first held), after dropping the first entry if it has
    /// expired; `None` when nothing is left.
    pub fn random_key(&mut self, now: Instant) -> (r: Option<Vec<u8>>)
        requires
            old(self).wf(),
        ensures
            final(self).wf(),
            random_key_post(*old(self), *final(self), now, opt_view(r)),
    {
        let ghost m0 = self.contents();
        while self.slots.len() > 0 && !Store::is_live(&self.slots[0].entry, now)
            invariant
                self.wf(),
                m0 == old(self).contents(),
                forall|k: Seq<u8>| #[trigger]
                    self.contents().contains_key(k) ==> m0.contains_key(k) && self.contents()[k]
                        == m0[k],
                forall|k: Seq<u8>| #[trigger]
                    m0.contains_key(k) && !self.contents().contains_key(k) ==> expired(m0, now, k),
                same_books(*old(self), *self),
            decreases self.slots.len(),
        {
            proof {
                lemma_map_of_value(self.slots@, 0);
            }
            let ghost k0 = self.slots@[0].key@;
            self.remove_at(0);
            proof {
                assert(expired(m0, now, k0));
            }
        }
        proof {
            lemma_map_of_len(self.slots@);
        }
        if self.slots.len() > 0 {
            proof {
                lemma_map_of_value(self.slots@, 0);
            }
            let k = crate::bytes::copy_bytes(self.slots[0].key.as_slice());
            proof {
                let kk = self.slots@[0].key@;
                assert(k@ == kk);
                assert(live(entry_model(self.slots@[0].entry), now));
                assert(self.contents().contains_key(kk));
                assert(present(m0, now, kk));
            }
            Some(k)
        } else {
            proof {
                assert forall|k: Seq<u8>| !#[trigger] present(m0, now, k) by {
                    if m0.contains_key(k) {
                        if self.contents().contains_key(k) {
                            assert(self.contents().dom().contains(k));
                        }
                        assert(!self.contents().contains_key(k));
                    }
                }
            }
            None
        }
    }

    /// Looks at up to `sample_size` entries from the front and drops those
    /// expired at `now`; returns how many it dropped.
    pub fn active_expire_sweep(&mut self, now: Instant, sample_size: usize) -> (n: usize)
        requires
            old(self).wf(),
        ensures
            final(self).wf(),
            forall|k: Seq<u8>| #[trigger]
                final(self).contents().contains_key(k) ==> old(self).contents().contains_key(k)
                    && final(self).contents()[k] == old(self).contents()[k],
            forall|k: Seq<u8>| #[trigger]
                old(self).contents().contains_key(k) && !final(self).contents().contains_key(k)
                    ==> expired(old(self).contents(), now, k),
            n == old(self).contents().dom().len() - final(self).contents().dom().len(),
            n <= sample_size,
            sample_size >= old(self).contents().dom().len() ==> forall|k: Seq<u8>|
                expired(old(self).contents(), now, k) ==> !#[trigger] final(self).contents().contains_key(k),
            exists|sample: Set<Seq<u8>>|
                {
                    &&& sample.subset_of(old(self).contents().dom())
                    &&& sample.finite()
                    &&& sample.len() == (if sample_size < old(self).contents().dom().len() {
                        sample_size as int
                    } else {
                        old(self).contents().dom().len() as int
                    })
                    &&& forall|k: Seq<u8>| #[trigger]
                        sample.contains(k) ==> (!final(self).contents().contains_key(k)
                            <==> expired(old(self).contents(), now, k))
                    &&& forall|k: Seq<u8>| #[trigger]
                        old(self).contents().contains_key(k) && !final(self).contents().contains_key(k)
                            ==> sample.contains(k)
                },
            same_books(*old(self), *final(self)),
    {
        let ghost m = self.contents();
        let ghost mut sample: Set<Seq<u8>> = Set::empty();
        proof {
            lemma_map_of_len(self.slots@);
        }
        let lim = if sample_size < self.slots.len() {
            sample_size
        } else {
            self.slots.len()
        };
        let mut idx: usize = 0;
        let mut seen: usize = 0;
        let mut removed: usize = 0;
        while seen < lim
            invariant
                self.wf(),
                same_books(*old(self), *self),
                m == old(self).contents(),
                m.dom().finite(),
                lim <= sample_size,
                lim <= m.dom().len(),
                seen <= lim,
                idx + removed == seen,
                self.slots.len() + removed == m.dom().len(),
                self.contents().dom().len() == self.slots.len(),
                forall|k: Seq<u8>| #[trigger]
                    self.contents().contains_key(k) ==> m.contains_key(k) && self.contents()[k]
                        == m[k],
                forall|k: Seq<u8>| #[trigger]
                    m.contains_key(k) && !self.contents().contains_key(k) ==> expired(m, now, k),
                forall|j: int|
                    0 <= j < idx ==> live(entry_model(#[trigger] self.slots@[j].entry), now),
                idx <= self.slots.len(),
                sample.subset_of(m.dom()),
                sample.finite(),
                sample.len() == seen,
                forall|k: Seq<u8>| #[trigger]
                    sample.contains(k) ==> (!self.contents().contains_key(k) <==> expired(m, now, k)),
                forall|k: Seq<u8>| #[trigger]
                    m.contains_key(k) && !self.contents().contains_key(k) ==> sample.contains(k),
                forall|j: int|
                    idx <= j < self.slots.len() ==> !sample.contains(#[trigger] self.slots@[j].key@),
            decreases lim - seen,
        {
            proof {
                lemma_map_of_value(self.slots@, idx as int);
            }
            let ghost kk = self.slots@[idx as int].key@;
            let ghost s0 = self.slots@;
            let is_live = Store::is_live(&self.slots[idx].entry, now);
            proof {
                assert(!sample.contains(kk));
                assert(m.contains_key(kk) && m[kk] == entry_model(s0[idx as int].entry));
            }
            if is_live {
                proof {
                    sample = sample.insert(kk);
                    assert forall|j: int|
                        idx + 1 <= j < self.slots.len() implies !sample.contains(#[trigger] self.slots@[j].key@) by {
                        assert(self.slots@[j].key@ != kk);
                    }
                }
                idx += 1;
            } else {
                let ghost before = self.slots@;
                let ghost mb = self.contents();
                self.remove_at(idx);
                proof {
                    lemma_map_of_len(self.slots@);
                    assert forall|j: int| 0 <= j < idx implies live(
                        entry_model(#[trigger] self.slots@[j].entry),
                        now,
                    ) by {
                        assert(self.slots@[j] == before[j]);
                    }
                    assert forall|k: Seq<u8>| #[trigger]
                        self.contents().contains_key(k) implies mb.contains_key(k)
                        && self.contents()[k] == mb[k] by {}
                    assert forall|k: Seq<u8>| #[trigger]
                        m.contains_key(k) && !self.contents().contains_key(k) implies expired(m, now, k) by {
                        if mb.contains_key(k) {
                            assert(k == before[idx as int].key@);
                        }
                    }
                    sample = sample.insert(kk);
                    assert forall|j: int|
                        idx <= j < self.slots.len() implies !sample.contains(#[trigger] self.slots@[j].key@) by {
                        assert(self.slots@[j] == before[j + 1]);
                        assert(before[j + 1].key@ != kk);
                    }
                }
                removed += 1;
            }
            seen += 1;
        }
        proof {
            assert(sample.subset_of(m.dom()) && sample.finite());
            if sample_size >= m.dom().len() {
                assert forall|k: Seq<u8>|
                    expired(m, now, k) implies !#[trigger] self.contents().contains_key(k) by {
                    if self.contents().contains_key(k) {
                        lemma_map_of_dom(self.slots@, k);
                        let j = choose|j: int| 0 <= j < self.slots@.len() && #[trigger] self.slots@[j].key@ == k;
                        lemma_map_of_value(self.slots@, j);
                    }
                }
            }
        }
        removed
    }

    /// Whether `entry` is live at `now`.
    fn is_live(entry: &Entry, now: Instant) -> (b: bool)
        ensures
            b == live(entry_model(*entry), now),
    {
        match entry.expires_at {
            Some(deadline) => now.is_before(deadline),
            None => true,
        }
    }

    /// Drops `key` if its deadline has passed at `now`.
    fn expire_if_needed(&mut self, key: &[u8], now: Instant)
        requires
            old(self).wf(),
        ensures
            final(self).wf(),
            final(self).contents() == purge(old(self).contents(), now, key@),
            final(self).used() == old(self).used() - (if expired(old(self).contents(), now, key@) {
                entry_cost(key@, old(self).contents()[key@].value.len() as int)
            } else {
                0
            }),
            final(self).budget() == old(self).budget(),
            final(self).hits() == old(self).hits(),
            final(self).misses() == old(self).misses(),
            final(self).evictions() == old(self).evictions(),
            final(self).cursors() == old(self).cursors(),
            final(self).last_cursor_id() == old(self).last_cursor_id(),
    {
        match self.find(key) {
            None => {},
            Some(i) => {
                proof {
                    lemma_map_of_value(self.slots@, i as int);
                }
                let is_live = Store::is_live(&self.slots[i].entry, now);
                if !is_live {
                    self.remove_at(i);
                }
            },
        }
    }
}

impl Default for Store {
    fn default() -> (s: Store)
        ensures
            s.wf(),
            s.contents() == Map::<Seq<u8>, EntryModel>::empty(),
            s.budget() == None::<usize>,
    {
        Store::new()
    }
}

/// After a write under a byte budget, the bytes charged are within the
/// budget plus the charge of the entry just written.
pub proof fn lemma_write_stays_near_budget(
    pre: Map<Seq<u8>, EntryModel>,
    budget: usize,
    key: Seq<u8>,
    post: Map<Seq<u8>, EntryModel>,
    ev0: u64,
    ev1: u64,
)
    requires
        pre.dom().finite(),
        eviction_post(pre, Some(budget), key, post, ev0, ev1),
    ensures
        map_cost(post) <= budget + entry_cost(key, post[key].value.len() as int),
{
    lemma_map_cost_submap(post, pre);
    if post.dom() == set![key] {
        lemma_map_cost_remove(post, key);
        assert(post.remove(key).dom() =~= Set::<Seq<u8>>::empty());
        assert(post.remove(key).dom().len() == 0);
    }
}

/// A write with no deadline, or one still ahead, is read back as written
/// (eviction never drops the key just written).
pub proof fn lemma_read_after_write(
    pre: Map<Seq<u8>, EntryModel>,
    key: Seq<u8>,
    value: Seq<u8>,
    expires_at: Option<Instant>,
    budget: Option<usize>,
    post: Map<Seq<u8>, EntryModel>,
    ev0: u64,
    ev1: u64,
    now: Instant,
)
    requires
        eviction_post(
            pre.insert(key, EntryModel { value, expires_at }),
            budget,
            key,
            post,
            ev0,
            ev1,
        ),
        match expires_at {
            Some(d) => now.nanos < d.nanos,
            None => true,
        },
    ensures
        lookup(post, now, key) == Some(value),
{
}

/// An entry whose deadline is at or before `now` is never read.
pub proof fn lemma_expired_never_read(m: Map<Seq<u8>, EntryModel>, now: Instant, key: Seq<u8>)
    requires
        m.contains_key(key),
        m[key].expires_at matches Some(d) && d.nanos <= now.nanos,
    ensures
        lookup(m, now, key) == None::<Seq<u8>>,
        lookup(purge(m, now, key), now, key) == None::<Seq<u8>>,
        !purge(m, now, key).contains_key(key),
{
}

/// What an increment stores, the next increment reads back: successive
/// increments of a live key add up.
pub proof fn lemma_incr_reads_back(
    pre: Map<Seq<u8>, EntryModel>,
    key: Seq<u8>,
    v: i64,
    expires_at: Option<Instant>,
    budget: Option<usize>,
    post: Map<Seq<u8>, EntryModel>,
    ev0: u64,
    ev1: u64,
    now: Instant,
)
    requires
        eviction_post(
            pre.insert(key, EntryModel { value: int_text(v as int), expires_at }),
            budget,
            key,
            post,
            ev0,
            ev1,
        ),
        present(post, now, key),
    ensures
        incr_base(purge(post, now, key), key) == Some(v),
{
    crate::decimal::lemma_parse_int_text(v);
}

/// Without a byte budget, a write to one key leaves every other key as
/// it was.
pub proof fn lemma_set_elsewhere_keeps_key(
    s0: Store,
    s1: Store,
    now: Instant,
    key: Seq<u8>,
    value: Seq<u8>,
    expiry: Expiry,
    condition: Condition,
    want_old: bool,
    r: SetOutcome,
    other: Seq<u8>,
)
    requires
        set_post(s0, s1, now, key, value, expiry, condition, want_old, r),
        s0.budget() is None,
        other != key,
    ensures
        s1.contents().contains_key(other) == s0.contents().contains_key(other),
        s0.contents().contains_key(other) ==> s1.contents()[other] == s0.contents()[other],
{
}

/// A SCAN that starts a new scan returns only keys live at that moment.
pub proof fn lemma_new_scan_returns_live_keys(
    s0: Store,
    s1: Store,
    now: Instant,
    cursor: u64,
    count: int,
    r: (u64, Seq<Seq<u8>>),
)
    requires
        scan_post(s0, s1, now, cursor, count, r),
        !resumable(s0.cursors(), now, cursor),
    ensures
        forall|i: int| 0 <= i < r.1.len() ==> present(s0.contents(), now, #[trigger] r.1[i]),
{
    let keys = choose|keys: Seq<Seq<u8>>|
        lists_live_keys(s0.contents(), now, keys) && start_post(
            s0.cursors(),
            s0.last_cursor_id(),
            now,
            keys,
            count,
            r,
            s1.cursors(),
            s1.last_cursor_id(),
        );
    assert forall|i: int| 0 <= i < r.1.len() implies present(s0.contents(), now, #[trigger] r.1[i]) by {
        assert(r.1[i] == keys[i]);
        assert(keys.contains(keys[i]));
    }
}


/// A key in `a + b` is in `a` or in `b`.
proof fn lemma_contains_concat(a: Seq<Seq<u8>>, b: Seq<Seq<u8>>, k: Seq<u8>)
    requires
        (a + b).contains(k),
    ensures
        a.contains(k) || b.contains(k),
{
    let i = choose|i: int| 0 <= i < (a + b).len() && (a + b)[i] == k;
    if i < a.len() {
        assert(a[i] == k);
    } else {
        assert(b[i - a.len()] == k);
    }
}

/// After one SCAN call made with `cursor`, where `k` is live when the call
/// starts and, if the call continues a cursor, still owed by it: `k` is on
/// the page returned or still owed by the cursor returned.
proof fn lemma_scan_step_keeps_key(
    s0: Store,
    s1: Store,
    now: Instant,
    cursor: u64,
    count: int,
    r: (u64, Seq<Seq<u8>>),
    k: Seq<u8>,
)
    requires
        scan_post(s0, s1, now, cursor, count, r),
        present(s0.contents(), now, k),
        resumable(s0.cursors(), now, cursor) ==> s0.cursors()[cursor].remaining.contains(k),
    ensures
        r.1.contains(k) || (r.0 != 0 && s1.cursors().contains_key(r.0)
            && s1.cursors()[r.0].remaining.contains(k)),
{
    if resumable(s0.cursors(), now, cursor) {
        crate::scan::lemma_resume_loses_nothing(s0.cursors(), now, cursor, count, r, s1.cursors());
        if r.0 != 0 {
            lemma_contains_concat(r.1, s1.cursors()[cursor].remaining, k);
        }
    } else {
        let keys = choose|keys: Seq<Seq<u8>>|
            lists_live_keys(s0.contents(), now, keys) && start_post(
                s0.cursors(),
                s0.last_cursor_id(),
                now,
                keys,
                count,
                r,
                s1.cursors(),
                s1.last_cursor_id(),
            );
        assert(keys.contains(k));
        crate::scan::lemma_start_loses_nothing(
            s0.cursors(),
            s0.last_cursor_id(),
            now,
            keys,
            count,
            r,
            s1.cursors(),
            s1.last_cursor_id(),
        );
        if r.0 != 0 {
            lemma_contains_concat(r.1, s1.cursors()[r.0].remaining, k);
        }
    }
}

/// A run of SCAN calls by one client: call `i` is made on `before[i]` at
/// `nows[i]` with the cursor the previous call returned (0 for the first)
/// and leaves `after[i]`; between calls the store may change in any way,
/// but no one else advances the client's cursor.
pub open spec fn scan_run(
    before: Seq<Store>,
    after: Seq<Store>,
    nows: Seq<Instant>,
    counts: Seq<int>,
    rs: Seq<(u64, Seq<Seq<u8>>)>,
) -> bool {
    &&& before.len() == rs.len() && after.len() == rs.len()
    &&& nows.len() == rs.len() && counts.len() == rs.len()
    &&& forall|i: int|
        #![trigger rs[i]]
        0 <= i < rs.len() ==> scan_post(
            before[i],
            after[i],
            nows[i],
            if i == 0 {
                0u64
            } else {
                rs[i - 1].0
            },
            counts[i],
            rs[i],
        )
    &&& forall|i: int|
        #![trigger rs[i]]
        0 <= i < rs.len() - 1 ==> rs[i].0 != 0 && (before[i + 1].cursors().contains_key(rs[i].0)
            ==> before[i + 1].cursors()[rs[i].0].remaining == after[i].cursors()[rs[i].0].remaining)
}

proof fn lemma_scan_run_prefix(
    before: Seq<Store>,
    after: Seq<Store>,
    nows: Seq<Instant>,
    counts: Seq<int>,
    rs: Seq<(u64, Seq<Seq<u8>>)>,
    k: Seq<u8>,
    i: int,
)
    requires
        scan_run(before, after, nows, counts, rs),
        forall|j: int| 0 <= j < rs.len() ==> present(#[trigger] before[j].contents(), nows[j], k),
        1 <= i <= rs.len(),
    ensures
        (exists|j: int| 0 <= j < i && (#[trigger] rs[j]).1.contains(k)) || (rs[i - 1].0 != 0
            && after[i - 1].cursors().contains_key(rs[i - 1].0) && after[i - 1].cursors()[rs[i
            - 1].0].remaining.contains(k)),
    decreases i,
{
    let p = i - 1;
    assert(scan_post(before[p], after[p], nows[p], if p == 0 { 0u64 } else { rs[p - 1].0 }, counts[p], rs[p]));
    assert(present(before[p].contents(), nows[p], k));
    if p == 0 {
        lemma_scan_step_keeps_key(before[0], after[0], nows[0], 0u64, counts[0], rs[0], k);
        if rs[0].1.contains(k) {
            assert(0 <= 0 < i && rs[0].1.contains(k));
        }
    } else {
        lemma_scan_run_prefix(before, after, nows, counts, rs, k, p);
        if exists|j: int| 0 <= j < p && (#[trigger] rs[j]).1.contains(k) {
            let j = choose|j: int| 0 <= j < p && (#[trigger] rs[j]).1.contains(k);
            assert(0 <= j < i && rs[j].1.contains(k));
        } else {
            let c = rs[p - 1].0;
            assert(rs[p - 1].0 != 0);
            if before[p].cursors().contains_key(c) {
                assert(before[p].cursors()[c].remaining == after[p - 1].cursors()[c].remaining);
            }
            lemma_scan_step_keeps_key(before[p], after[p], nows[p], c, counts[p], rs[p], k);
            if rs[p].1.contains(k) {
                assert(0 <= p < i && rs[p].1.contains(k));
            }
        }
    }
}

/// SCAN misses no stable key: over a whole scan by one client, ending when
/// a call returns cursor 0, a key that is live at every call is returned on
/// some page, whatever writes happen between the calls and whether or not
/// the cursor had to restart from a fresh snapshot (a key may come back
/// more than once).
pub proof fn lemma_scan_misses_no_stable_key(
    before: Seq<Store>,
    after: Seq<Store>,
    nows: Seq<Instant>,
    counts: Seq<int>,
    rs: Seq<(u64, Seq<Seq<u8>>)>,
    k: Seq<u8>,
)
    requires
        rs.len() >= 1,
        scan_run(before, after, nows, counts, rs),
        rs.last().0 == 0,
        forall|j: int| 0 <= j < rs.len() ==> present(#[trigger] before[j].contents(), nows[j], k),
    ensures
        exists|j: int| 0 <= j < rs.len() && (#[trigger] rs[j]).1.contains(k),
{
    lemma_scan_run_prefix(before, after, nows, counts, rs, k, rs.len() as int);
}

} // verus!
