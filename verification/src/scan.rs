//! SCAN cursors: a bounded, store-level registry keyed by opaque cursor ids.
//! A cursor holds a snapshot of the keys taken when its scan started and a
//! position in it. An unknown or idle cursor restarts the scan from a fresh
//! snapshot, so a scan may repeat keys but never misses one that stayed
//! present throughout.

use vstd::prelude::*;
use crate::bytes::copy_bytes;
use crate::clock::{Instant, NANOS_PER_SEC};
use crate::command::vec_args;

verus! {

/// Most cursors the registry holds at once.
pub const MAX_LIVE_CURSORS: usize = 64;
/// Seconds a cursor may sit unused before it is forgotten.
pub const CURSOR_IDLE_EXPIRY_SECS: u64 = 60;

pub open spec fn idle_limit() -> int {
    CURSOR_IDLE_EXPIRY_SECS * NANOS_PER_SEC
}

/// Time from `then` to `now`, zero if `now` is earlier.
pub open spec fn elapsed(now: Instant, then: Instant) -> int {
    if now.nanos > then.nanos {
        now.nanos - then.nanos
    } else {
        0
    }
}

/// What a live cursor still owes its client, and when it was last used.
pub struct CursorModel {
    pub remaining: Seq<Seq<u8>>,
    pub last_used: Instant,
}

/// A cursor that has not sat idle for the whole expiry period.
pub open spec fn fresh(c: CursorModel, now: Instant) -> bool {
    elapsed(now, c.last_used) < idle_limit()
}

/// Keys one page returns: `count` (at least one) or what is left.
pub open spec fn page_len(left: int, count: int) -> int {
    let c = if count < 1 {
        1
    } else {
        count
    };
    if c < left {
        c
    } else {
        left
    }
}

/// The id after `id`, skipping 0 (which always means "start a new scan").
pub open spec fn bump_id(id: u64) -> u64 {
    if id == u64::MAX {
        1
    } else {
        (id + 1) as u64
    }
}

struct ScanState {
    id: u64,
    snapshot: Vec<Vec<u8>>,
    position: usize,
    last_used: Instant,
}

spec fn state_model(s: ScanState) -> CursorModel {
    CursorModel {
        remaining: vec_args(s.snapshot@).skip(s.position as int),
        last_used: s.last_used,
    }
}

spec fn states_map(s: Seq<ScanState>) -> Map<u64, CursorModel>
    decreases s.len(),
{
    if s.len() == 0 {
        Map::empty()
    } else {
        states_map(s.drop_last()).insert(s.last().id, state_model(s.last()))
    }
}

spec fn ids_distinct(s: Seq<ScanState>) -> bool {
    forall|i: int, j: int| 0 <= i < s.len() && 0 <= j < s.len() && i != j ==> s[i].id != s[j].id
}

proof fn lemma_states_dom(s: Seq<ScanState>, id: u64)
    ensures
        states_map(s).contains_key(id) <==> exists|i: int| 0 <= i < s.len() && #[trigger] s[i].id == id,
    decreases s.len(),
{
    if s.len() > 0 {
        let init = s.drop_last();
        lemma_states_dom(init, id);
        if states_map(s).contains_key(id) && s.last().id != id {
            let i = choose|i: int| 0 <= i < init.len() && #[trigger] init[i].id == id;
            assert(s[i] == init[i]);
        }
        if exists|i: int| 0 <= i < s.len() && #[trigger] s[i].id == id {
            let i = choose|i: int| 0 <= i < s.len() && #[trigger] s[i].id == id;
            if i < s.len() - 1 {
                assert(init[i] == s[i]);
            }
        }
    }
}

proof fn lemma_states_value(s: Seq<ScanState>, i: int)
    requires
        ids_distinct(s),
        0 <= i < s.len(),
    ensures
        states_map(s).contains_key(s[i].id),
        states_map(s)[s[i].id] == state_model(s[i]),
    decreases s.len(),
{
    let init = s.drop_last();
    if i < s.len() - 1 {
        assert(ids_distinct(init));
        assert(init[i] == s[i]);
        lemma_states_value(init, i);
    }
}

proof fn lemma_states_remove(s: Seq<ScanState>, i: int)
    requires
        ids_distinct(s),
        0 <= i < s.len(),
    ensures
        ids_distinct(s.remove(i)),
        states_map(s.remove(i)) == states_map(s).remove(s[i].id),
    decreases s.len(),
{
    let r = s.remove(i);
    assert forall|a: int, b: int| 0 <= a < r.len() && 0 <= b < r.len() && a != b implies r[a].id
        != r[b].id by {
        let a2 = if a < i {
            a
        } else {
            a + 1
        };
        let b2 = if b < i {
            b
        } else {
            b + 1
        };
        assert(r[a] == s[a2]);
        assert(r[b] == s[b2]);
    }
    if i == s.len() - 1 {
        assert(r =~= s.drop_last());
        lemma_states_dom(s.drop_last(), s[i].id);
        assert(states_map(r) =~= states_map(s).remove(s[i].id));
    } else {
        let init = s.drop_last();
        assert(ids_distinct(init));
        lemma_states_remove(init, i);
        assert(r.drop_last() =~= init.remove(i));
        assert(states_map(r) =~= states_map(s).remove(s[i].id));
    }
}

proof fn lemma_states_update(s: Seq<ScanState>, i: int, st: ScanState)
    requires
        ids_distinct(s),
        0 <= i < s.len(),
        st.id == s[i].id,
    ensures
        ids_distinct(s.update(i, st)),
        states_map(s.update(i, st)) == states_map(s).insert(st.id, state_model(st)),
    decreases s.len(),
{
    let u = s.update(i, st);
    assert forall|a: int, b: int| 0 <= a < u.len() && 0 <= b < u.len() && a != b implies u[a].id
        != u[b].id by {
        assert(u[a].id == s[a].id);
        assert(u[b].id == s[b].id);
    }
    if i == s.len() - 1 {
        assert(u.drop_last() =~= s.drop_last());
        assert(states_map(u) =~= states_map(s).insert(st.id, state_model(st)));
    } else {
        let init = s.drop_last();
        assert(ids_distinct(init));
        lemma_states_update(init, i, st);
        assert(u.drop_last() =~= init.update(i, st));
        assert(states_map(u) =~= states_map(s).insert(st.id, state_model(st)));
    }
}

proof fn lemma_states_push(s: Seq<ScanState>, st: ScanState)
    requires
        ids_distinct(s),
        !states_map(s).contains_key(st.id),
    ensures
        ids_distinct(s.push(st)),
        states_map(s.push(st)) == states_map(s).insert(st.id, state_model(st)),
{
    let p = s.push(st);
    lemma_states_dom(s, st.id);
    assert forall|a: int, b: int| 0 <= a < p.len() && 0 <= b < p.len() && a != b implies p[a].id
        != p[b].id by {
        if a < s.len() {
            assert(p[a] == s[a]);
        }
        if b < s.len() {
            assert(p[b] == s[b]);
        }
    }
    assert(p.drop_last() =~= s);
}

proof fn lemma_states_len(s: Seq<ScanState>)
    requires
        ids_distinct(s),
    ensures
        states_map(s).dom().finite(),
        states_map(s).dom().len() == s.len(),
    decreases s.len(),
{
    if s.len() > 0 {
        let init = s.drop_last();
        assert(ids_distinct(init));
        lemma_states_len(init);
        lemma_states_dom(init, s.last().id);
        assert forall|i: int| 0 <= i < init.len() implies #[trigger] init[i].id != s.last().id by {
            assert(init[i] == s[i]);
        }
        assert(!states_map(init).contains_key(s.last().id));
    }
}

/// The result of continuing a live cursor: the next page from its
/// snapshot, and the cursor either advanced or (when exhausted) forgotten.
pub open spec fn resume_post(
    m: Map<u64, CursorModel>,
    now: Instant,
    cursor: u64,
    count: int,
    r: (u64, Seq<Seq<u8>>),
    m2: Map<u64, CursorModel>,
) -> bool {
    let c = m[cursor];
    let n = page_len(c.remaining.len() as int, count);
    &&& r.1 == c.remaining.take(n)
    &&& if n == c.remaining.len() {
        r.0 == 0 && m2 == m.remove(cursor)
    } else {
        r.0 == cursor && m2 == m.insert(
            cursor,
            CursorModel { remaining: c.remaining.skip(n), last_used: now },
        )
    }
}

/// The result of starting a scan over `keys`: the first page; a new cursor
/// (the next id) when more pages remain; idle cursors dropped, and when the
/// registry is full, the least recently used ones.
pub open spec fn start_post(
    m: Map<u64, CursorModel>,
    last_id: u64,
    now: Instant,
    keys: Seq<Seq<u8>>,
    count: int,
    r: (u64, Seq<Seq<u8>>),
    m2: Map<u64, CursorModel>,
    last_id2: u64,
) -> bool {
    let id = bump_id(last_id);
    let n = page_len(keys.len() as int, count);
    &&& last_id2 == id
    &&& r.1 == keys.take(n)
    &&& if n == keys.len() {
        r.0 == 0
    } else {
        r.0 == id && m2.contains_key(id) && m2[id] == CursorModel {
            remaining: keys.skip(n),
            last_used: now,
        }
    }
    &&& m2.dom().finite()
    &&& m2.dom().len() <= MAX_LIVE_CURSORS
    &&& forall|k: u64|
        #![trigger m2.contains_key(k)]
        m2.contains_key(k) && k != r.0 ==> m.contains_key(k) && m2[k] == m[k] && fresh(m[k], now)
    &&& forall|d: u64, k: u64|
        #![trigger m.contains_key(d), m2.contains_key(k)]
        m.contains_key(d) && fresh(m[d], now) && !m2.contains_key(d) && d != id
            && m2.contains_key(k) && k != r.0 ==> m[d].last_used.nanos <= m2[k].last_used.nanos
    &&& m.dom().finite() && m.dom().len() < MAX_LIVE_CURSORS ==> forall|d: u64|
        #![trigger m.contains_key(d)]
        m.contains_key(d) && fresh(m[d], now) && d != id ==> m2.contains_key(d)
}

/// Whether `cursor` names a cursor that can continue at `now`.
pub open spec fn resumable(m: Map<u64, CursorModel>, now: Instant, cursor: u64) -> bool {
    cursor != 0 && m.contains_key(cursor) && fresh(m[cursor], now)
}

/// What a continued cursor returns, followed by what it still owes, is
/// exactly what it owed before: no key of a snapshot is skipped. A page
/// that leaves the cursor open returns at least one key, so every scan
/// ends.
pub proof fn lemma_resume_loses_nothing(
    m: Map<u64, CursorModel>,
    now: Instant,
    cursor: u64,
    count: int,
    r: (u64, Seq<Seq<u8>>),
    m2: Map<u64, CursorModel>,
)
    requires
        cursor != 0,
        resume_post(m, now, cursor, count, r, m2),
    ensures
        r.0 == 0 ==> r.1 == m[cursor].remaining,
        r.0 != 0 ==> r.0 == cursor && m2.contains_key(cursor) && r.1 + m2[cursor].remaining
            == m[cursor].remaining,
        r.0 != 0 ==> r.1.len() >= 1,
{
    let c = m[cursor];
    let n = page_len(c.remaining.len() as int, count);
    if n == c.remaining.len() {
        assert(c.remaining.take(n) =~= c.remaining);
    } else {
        assert(c.remaining.take(n) + c.remaining.skip(n) =~= c.remaining);
    }
}

/// A new scan returns its first page and keeps the rest of the snapshot
/// under the new cursor: together they are the whole snapshot. A first page
/// that leaves a cursor open returns at least one key.
pub proof fn lemma_start_loses_nothing(
    m: Map<u64, CursorModel>,
    last_id: u64,
    now: Instant,
    keys: Seq<Seq<u8>>,
    count: int,
    r: (u64, Seq<Seq<u8>>),
    m2: Map<u64, CursorModel>,
    last_id2: u64,
)
    requires
        start_post(m, last_id, now, keys, count, r, m2, last_id2),
    ensures
        r.0 == 0 ==> r.1 == keys,
        r.0 != 0 ==> m2.contains_key(r.0) && r.1 + m2[r.0].remaining == keys,
        r.0 != 0 ==> r.1.len() >= 1,
{
    let n = page_len(keys.len() as int, count);
    if n == keys.len() {
        assert(keys.take(n) =~= keys);
    } else {
        assert(bump_id(last_id) != 0);
        assert(keys.take(n) + keys.skip(n) =~= keys);
    }
}

/// The pages of a run of replies, joined in order.
pub open spec fn joined_pages(rs: Seq<(u64, Seq<Seq<u8>>)>) -> Seq<Seq<u8>>
    decreases rs.len(),
{
    if rs.len() == 0 {
        Seq::empty()
    } else {
        joined_pages(rs.drop_last()) + rs.last().1
    }
}

/// A run of `rs.len()` pages of one cursor: step `i` continues the cursor
/// from `befores[i]` to `afters[i]`, and between steps the cursor's snapshot
/// is left as the previous step left it.
pub open spec fn cursor_run(
    befores: Seq<Map<u64, CursorModel>>,
    afters: Seq<Map<u64, CursorModel>>,
    nows: Seq<Instant>,
    counts: Seq<int>,
    rs: Seq<(u64, Seq<Seq<u8>>)>,
    cursor: u64,
) -> bool {
    &&& befores.len() == rs.len() && afters.len() == rs.len()
    &&& nows.len() == rs.len() && counts.len() == rs.len()
    &&& forall|i: int|
        #![trigger rs[i]]
        0 <= i < rs.len() ==> resume_post(befores[i], nows[i], cursor, counts[i], rs[i], afters[i])
    &&& forall|i: int|
        #![trigger rs[i]]
        0 <= i < rs.len() - 1 ==> rs[i].0 != 0 && befores[i + 1].contains_key(cursor)
            && befores[i + 1][cursor].remaining == afters[i][cursor].remaining
}

proof fn lemma_cursor_run_prefix(
    befores: Seq<Map<u64, CursorModel>>,
    afters: Seq<Map<u64, CursorModel>>,
    nows: Seq<Instant>,
    counts: Seq<int>,
    rs: Seq<(u64, Seq<Seq<u8>>)>,
    cursor: u64,
    k: int,
)
    requires
        cursor != 0,
        cursor_run(befores, afters, nows, counts, rs, cursor),
        0 <= k < rs.len(),
    ensures
        joined_pages(rs.take(k)) + befores[k][cursor].remaining == befores[0][cursor].remaining,
        joined_pages(rs.take(k)).len() >= k,
    decreases k,
{
    if k == 0 {
        assert(rs.take(0) =~= Seq::<(u64, Seq<Seq<u8>>)>::empty());
        assert(joined_pages(rs.take(0)) + befores[0][cursor].remaining =~= befores[0][cursor].remaining);
    } else {
        lemma_cursor_run_prefix(befores, afters, nows, counts, rs, cursor, k - 1);
        let r = rs[k - 1];
        assert(resume_post(befores[k - 1], nows[k - 1], cursor, counts[k - 1], r, afters[k - 1]));
        assert(r.0 != 0);
        lemma_resume_loses_nothing(befores[k - 1], nows[k - 1], cursor, counts[k - 1], r, afters[k - 1]);
        assert(rs.take(k).drop_last() =~= rs.take(k - 1));
        assert(rs.take(k).last() == r);
        let a = joined_pages(rs.take(k - 1));
        assert(joined_pages(rs.take(k)) == a + r.1);
        assert(a + r.1 + befores[k][cursor].remaining =~= a + (r.1 + afters[k - 1][cursor].remaining));
    }
}

/// Whole-scan law for one cursor: continued page after page until it
/// answers cursor 0, with nothing else touching its snapshot in between,
/// the pages joined are exactly the snapshot it held at the start, and the
/// run takes at most one page more than the snapshot has keys.
pub proof fn lemma_cursor_pages_join(
    befores: Seq<Map<u64, CursorModel>>,
    afters: Seq<Map<u64, CursorModel>>,
    nows: Seq<Instant>,
    counts: Seq<int>,
    rs: Seq<(u64, Seq<Seq<u8>>)>,
    cursor: u64,
)
    requires
        cursor != 0,
        rs.len() >= 1,
        cursor_run(befores, afters, nows, counts, rs, cursor),
        rs.last().0 == 0,
    ensures
        joined_pages(rs) == befores[0][cursor].remaining,
        rs.len() <= befores[0][cursor].remaining.len() + 1,
{
    let n = rs.len() as int;
    lemma_cursor_run_prefix(befores, afters, nows, counts, rs, cursor, n - 1);
    let r = rs[n - 1];
    assert(resume_post(befores[n - 1], nows[n - 1], cursor, counts[n - 1], r, afters[n - 1]));
    lemma_resume_loses_nothing(befores[n - 1], nows[n - 1], cursor, counts[n - 1], r, afters[n - 1]);
    assert(rs.drop_last() =~= rs.take(n - 1));
    assert(rs.last() == r);
}

/// The live SCAN cursors, by id. They are held in a vector whose ids are
/// distinct (the model is the map `cursors()`): dropping idle cursors and
/// advancing one in place need `HashMap::retain` and `HashMap::get_mut`,
/// which vstd gives no specification for.
pub struct ScanRegistry {
    cursors: Vec<ScanState>,
    next_id: u64,
}

impl ScanRegistry {
    /// The live cursors by id.
    pub closed spec fn cursors(&self) -> Map<u64, CursorModel> {
        states_map(self.cursors@)
    }

    /// The id handed out most recently (0 before the first).
    pub closed spec fn last_id(&self) -> u64 {
        self.next_id
    }

    pub closed spec fn wf(&self) -> bool {
        &&& ids_distinct(self.cursors@)
        &&& self.cursors.len() <= MAX_LIVE_CURSORS
        &&& forall|i: int|
            0 <= i < self.cursors.len() ==> (#[trigger] self.cursors@[i]).id != 0
                && self.cursors@[i].position < self.cursors@[i].snapshot.len()
    }

    /// Every live cursor has a nonzero id and something left to return.
    pub proof fn lemma_wf_cursors(&self)
        requires
            self.wf(),
        ensures
            self.cursors().dom().finite(),
            self.cursors().dom().len() <= MAX_LIVE_CURSORS,
            !self.cursors().contains_key(0),
            forall|k: u64| #[trigger]
                self.cursors().contains_key(k) ==> self.cursors()[k].remaining.len() > 0,
    {
        lemma_states_len(self.cursors@);
        lemma_states_dom(self.cursors@, 0);
        assert forall|k: u64| #[trigger]
            self.cursors().contains_key(k) implies self.cursors()[k].remaining.len() > 0 by {
            lemma_states_dom(self.cursors@, k);
            let i = choose|i: int| 0 <= i < self.cursors@.len() && #[trigger] self.cursors@[i].id == k;
            lemma_states_value(self.cursors@, i);
        }
    }

    /// An empty registry.
    pub fn new() -> (r: ScanRegistry)
        ensures
            r.wf(),
            r.cursors() == Map::<u64, CursorModel>::empty(),
            r.last_id() == 0,
    {
        ScanRegistry { cursors: Vec::new(), next_id: 0 }
    }

    /// How many cursors are live.
    pub fn live_cursor_count(&self) -> (n: usize)
        requires
            self.wf(),
        ensures
            n == self.cursors().dom().len(),
    {
        proof {
            lemma_states_len(self.cursors@);
        }
        self.cursors.len()
    }

    fn find(&self, id: u64) -> (r: Option<usize>)
        ensures
            match r {
                Some(i) => i < self.cursors.len() && self.cursors@[i as int].id == id,
                None => !self.cursors().contains_key(id),
            },
    {
        let mut i: usize = 0;
        while i < self.cursors.len()
            invariant
                i <= self.cursors.len(),
                forall|j: int| 0 <= j < i ==> self.cursors@[j].id != id,
            decreases self.cursors.len() - i,
        {
            if self.cursors[i].id == id {
                return Some(i);
            }
            i += 1;
        }
        proof {
            lemma_states_dom(self.cursors@, id);
        }
        None
    }
}


impl ScanRegistry {
    /// Drops every idle cursor, then the least recently used ones until
    /// there is room for one more.
    fn evict_stale_and_over_capacity(&mut self, now: Instant)
        requires
            old(self).wf(),
        ensures
            final(self).wf(),
            final(self).last_id() == old(self).last_id(),
            final(self).cursors().dom().len() < MAX_LIVE_CURSORS,
            forall|k: u64|
                #![trigger final(self).cursors().contains_key(k)]
                final(self).cursors().contains_key(k) ==> old(self).cursors().contains_key(k)
                    && final(self).cursors()[k] == old(self).cursors()[k] && fresh(
                    old(self).cursors()[k],
                    now,
                ),
            forall|d: u64, k: u64|
                #![trigger old(self).cursors().contains_key(d), final(self).cursors().contains_key(k)]
                old(self).cursors().contains_key(d) && fresh(old(self).cursors()[d], now)
                    && !final(self).cursors().contains_key(d) && final(self).cursors().contains_key(
                    k,
                ) ==> old(self).cursors()[d].last_used.nanos
                    <= final(self).cursors()[k].last_used.nanos,
            old(self).cursors().dom().len() < MAX_LIVE_CURSORS ==> forall|d: u64|
                #![trigger old(self).cursors().contains_key(d)]
                old(self).cursors().contains_key(d) && fresh(old(self).cursors()[d], now)
                    ==> final(self).cursors().contains_key(d),
    {
        let ghost om = old(self).cursors();
        let ghost olen = old(self).cursors@.len();
        proof {
            lemma_states_len(self.cursors@);
        }
        let mut i: usize = 0;
        while i < self.cursors.len()
            invariant
                self.wf(),
                self.next_id == old(self).next_id,
                om == old(self).cursors(),
                i <= self.cursors.len() <= olen,
                olen == om.dom().len(),
                forall|k: u64|
                    #![trigger self.cursors().contains_key(k)]
                    self.cursors().contains_key(k) ==> om.contains_key(k) && self.cursors()[k]
                        == om[k],
                forall|d: u64|
                    #![trigger om.contains_key(d)]
                    om.contains_key(d) && fresh(om[d], now) ==> self.cursors().contains_key(d),
                forall|j: int|
                    0 <= j < i ==> fresh(state_model(#[trigger] self.cursors@[j]), now),
            decreases self.cursors.len() - i,
        {
            if is_fresh(now, self.cursors[i].last_used) {
                i += 1;
            } else {
                let ghost before = self.cursors@;
                let ghost mb = self.cursors();
                proof {
                    lemma_states_value(before, i as int);
                    lemma_states_remove(before, i as int);
                }
                self.cursors.remove(i);
                proof {
                    assert(self.cursors@ == before.remove(i as int));
                    assert(self.cursors() == states_map(before).remove(before[i as int].id));
                    assert forall|k: u64| #[trigger]
                        self.cursors().contains_key(k) implies mb.contains_key(k)
                        && self.cursors()[k] == mb[k] by {}
                    assert forall|j: int| 0 <= j < i implies fresh(
                        state_model(#[trigger] self.cursors@[j]),
                        now,
                    ) by {
                        assert(self.cursors@[j] == before[j]);
                    }
                }
            }
        }
        proof {
            assert forall|k: u64| #[trigger] self.cursors().contains_key(k) implies fresh(
                om[k],
                now,
            ) by {
                lemma_states_dom(self.cursors@, k);
                let t = choose|t: int|
                    0 <= t < self.cursors@.len() && #[trigger] self.cursors@[t].id == k;
                lemma_states_value(self.cursors@, t);
            }
        }
        while self.cursors.len() >= MAX_LIVE_CURSORS
            invariant
                self.wf(),
                self.next_id == old(self).next_id,
                om == old(self).cursors(),
                self.cursors.len() <= olen,
                olen == om.dom().len(),
                forall|k: u64|
                    #![trigger self.cursors().contains_key(k)]
                    self.cursors().contains_key(k) ==> om.contains_key(k) && self.cursors()[k]
                        == om[k] && fresh(om[k], now),
                olen < MAX_LIVE_CURSORS ==> forall|d: u64|
                    #![trigger om.contains_key(d)]
                    om.contains_key(d) && fresh(om[d], now) ==> self.cursors().contains_key(d),
                forall|d: u64, k: u64|
                    #![trigger om.contains_key(d), self.cursors().contains_key(k)]
                    om.contains_key(d) && fresh(om[d], now) && !self.cursors().contains_key(d)
                        && self.cursors().contains_key(k) ==> om[d].last_used.nanos
                        <= self.cursors()[k].last_used.nanos,
            decreases self.cursors.len(),
        {
            let mut best: usize = 0;
            let mut j: usize = 1;
            while j < self.cursors.len()
                invariant
                    1 <= self.cursors.len(),
                    best < j <= self.cursors.len(),
                    forall|t: int|
                        0 <= t < j ==> self.cursors@[best as int].last_used.nanos
                            <= (#[trigger] self.cursors@[t]).last_used.nanos,
                decreases self.cursors.len() - j,
            {
                if self.cursors[j].last_used.nanos < self.cursors[best].last_used.nanos {
                    best = j;
                }
                j += 1;
            }
            let ghost before = self.cursors@;
            let ghost mb = self.cursors();
            let ghost victim = before[best as int];
            proof {
                lemma_states_value(before, best as int);
                lemma_states_remove(before, best as int);
                assert forall|k: u64| #[trigger]
                    states_map(before).contains_key(k) implies victim.last_used.nanos
                    <= states_map(before)[k].last_used.nanos by {
                    lemma_states_dom(before, k);
                    let t = choose|t: int| 0 <= t < before.len() && #[trigger] before[t].id == k;
                    lemma_states_value(before, t);
                }
            }
            self.cursors.remove(best);
            proof {
                assert(self.cursors@ == before.remove(best as int));
                assert(self.cursors() == states_map(before).remove(victim.id));
                assert forall|k: u64| #[trigger]
                    self.cursors().contains_key(k) implies mb.contains_key(k)
                    && self.cursors()[k] == mb[k] by {}
                assert forall|d: u64, k: u64|
                    om.contains_key(d) && fresh(om[d], now) && !#[trigger] self.cursors().contains_key(d)
                        && #[trigger] self.cursors().contains_key(k) implies om[d].last_used.nanos
                        <= self.cursors()[k].last_used.nanos by {
                    assert(mb.contains_key(k));
                    if d != victim.id {
                        assert(!mb.contains_key(d));
                    }
                }
            }
        }
        proof {
            lemma_states_len(self.cursors@);
        }
    }

    /// Continues the live cursor at index `i`.
    fn resume(&mut self, i: usize, now: Instant, count: usize) -> (r: (u64, Vec<Vec<u8>>))
        requires
            old(self).wf(),
            i < old(self).cursors.len(),
        ensures
            final(self).wf(),
            final(self).last_id() == old(self).last_id(),
            resume_post(
                old(self).cursors(),
                now,
                old(self).cursors@[i as int].id,
                count as int,
                (r.0, vec_args(r.1@)),
                final(self).cursors(),
            ),
    {
        let ghost before = self.cursors@;
        let ghost m = self.cursors();
        proof {
            lemma_states_value(before, i as int);
            lemma_states_remove(before, i as int);
        }
        let mut st = self.cursors.remove(i);
        let id = st.id;
        let ghost c = state_model(st);
        let (page, end) = take_page(&st.snapshot, st.position, count);
        let ghost n = page_len(st.snapshot.len() - st.position, count as int);
        assert(vec_args(st.snapshot@).skip(end as int) =~= c.remaining.skip(n));
        st.position = end;
        st.last_used = now;
        if end >= st.snapshot.len() {
            assert(self.cursors() == m.remove(id));
            (0, page)
        } else {
            let ghost mid = self.cursors@;
            proof {
                lemma_states_dom(mid, id);
                lemma_states_push(mid, st);
                assert(m.remove(id).insert(id, state_model(st)) =~= m.insert(id, state_model(st)));
            }
            self.cursors.push(st);
            proof {
                assert forall|t: int|
                    0 <= t < self.cursors.len() implies (#[trigger] self.cursors@[t]).id != 0
                    && self.cursors@[t].position < self.cursors@[t].snapshot.len() by {
                    if t < mid.len() {
                        assert(self.cursors@[t] == mid[t]);
                    }
                }
            }
            (id, page)
        }
    }
}

impl ScanRegistry {
    /// Starts a scan over `keys`: makes room, hands out the next id, and
    /// keeps the cursor only when more than one page is needed.
    fn start(&mut self, now: Instant, keys: Vec<Vec<u8>>, count: usize) -> (r: (u64, Vec<Vec<u8>>))
        requires
            old(self).wf(),
        ensures
            final(self).wf(),
            start_post(
                old(self).cursors(),
                old(self).last_id(),
                now,
                vec_args(keys@),
                count as int,
                (r.0, vec_args(r.1@)),
                final(self).cursors(),
                final(self).last_id(),
            ),
    {
        let ghost m = self.cursors();
        self.evict_stale_and_over_capacity(now);
        let ghost e = self.cursors();
        self.next_id = if self.next_id == u64::MAX {
            1
        } else {
            self.next_id + 1
        };
        let id = self.next_id;
        let (page, end) = take_page(&keys, 0, count);
        let ghost n = page_len(keys.len() as int, count as int);
        proof {
            lemma_states_len(self.cursors@);
            assert(vec_args(keys@).skip(0) =~= vec_args(keys@));
        }
        if end < keys.len() {
            match self.find(id) {
                Some(i) => {
                    let ghost before = self.cursors@;
                    proof {
                        lemma_states_remove(before, i as int);
                    }
                    self.cursors.remove(i);
                    proof {
                        assert(self.cursors@ == before.remove(i as int));
                    }
                },
                None => {},
            }
            let ghost mid = self.cursors@;
            let ghost mm = self.cursors();
            assert(mm == e.remove(id));
            let st = ScanState { id, snapshot: keys, position: end, last_used: now };
            proof {
                lemma_states_dom(mid, id);
                lemma_states_push(mid, st);
                lemma_states_len(mid);
                assert(mid.len() <= self.cursors@.len());
            }
            self.cursors.push(st);
            proof {
                assert(self.cursors() == e.remove(id).insert(id, state_model(st)));
                assert forall|t: int|
                    0 <= t < self.cursors.len() implies (#[trigger] self.cursors@[t]).id != 0
                    && self.cursors@[t].position < self.cursors@[t].snapshot.len() by {
                    if t < mid.len() {
                        assert(self.cursors@[t] == mid[t]);
                    }
                }
                lemma_states_len(self.cursors@);
                assert(state_model(st).remaining == vec_args(keys@).skip(n));
            }
            (id, page)
        } else {
            (0, page)
        }
    }

    /// Continues `cursor` when it is live, otherwise starts a new scan over
    /// what `fresh_keys` returns; `fresh_keys` runs only in that case.
    /// The result is the next cursor (0 once the scan is complete) and the
    /// keys of this page.
    pub fn scan<F: FnOnce() -> Vec<Vec<u8>>>(
        &mut self,
        now: Instant,
        cursor: u64,
        count: usize,
        fresh_keys: F,
    ) -> (r: (u64, Vec<Vec<u8>>))
        requires
            old(self).wf(),
            call_requires(fresh_keys, ()),
        ensures
            final(self).wf(),
            resumable(old(self).cursors(), now, cursor) ==> final(self).last_id()
                == old(self).last_id() && resume_post(
                old(self).cursors(),
                now,
                cursor,
                count as int,
                (r.0, vec_args(r.1@)),
                final(self).cursors(),
            ),
            !resumable(old(self).cursors(), now, cursor) ==> exists|keys: Vec<Vec<u8>>|
                call_ensures(fresh_keys, (), keys) && start_post(
                    old(self).cursors(),
                    old(self).last_id(),
                    now,
                    vec_args(keys@),
                    count as int,
                    (r.0, vec_args(r.1@)),
                    final(self).cursors(),
                    final(self).last_id(),
                ),
    {
        if cursor != 0 {
            match self.find(cursor) {
                Some(i) => {
                    proof {
                        lemma_states_value(self.cursors@, i as int);
                    }
                    if is_fresh(now, self.cursors[i].last_used) {
                        return self.resume(i, now, count);
                    }
                },
                None => {},
            }
        }
        let keys = fresh_keys();
        self.start(now, keys, count)
    }
}

impl Default for ScanRegistry {
    fn default() -> (r: ScanRegistry)
        ensures
            r.wf(),
            r.cursors() == Map::<u64, CursorModel>::empty(),
            r.last_id() == 0,
    {
        ScanRegistry::new()
    }
}

fn is_fresh(now: Instant, last_used: Instant) -> (b: bool)
    ensures
        b == (elapsed(now, last_used) < idle_limit()),
{
    now.nanos_since(last_used) < CURSOR_IDLE_EXPIRY_SECS as u128 * NANOS_PER_SEC
}

/// Copies the next page out of `snapshot` from `position`.
fn take_page(snapshot: &Vec<Vec<u8>>, position: usize, count: usize) -> (r: (Vec<Vec<u8>>, usize))
    requires
        position <= snapshot.len(),
    ensures
        r.1 == position + page_len(snapshot.len() - position, count as int),
        vec_args(r.0@) == vec_args(snapshot@).skip(position as int).take(
            page_len(snapshot.len() - position, count as int),
        ),
{
    let c = if count < 1 {
        1
    } else {
        count
    };
    let end = if c < snapshot.len() - position {
        position + c
    } else {
        snapshot.len()
    };
    let mut page: Vec<Vec<u8>> = Vec::new();
    let mut i = position;
    while i < end
        invariant
            position <= i <= end <= snapshot.len(),
            vec_args(page@) == vec_args(snapshot@).subrange(position as int, i as int),
        decreases end - i,
    {
        let k = copy_bytes(snapshot[i].as_slice());
        proof {
            crate::command::lemma_vec_args_push(page@, k);
            assert(k@ == snapshot@[i as int]@);
            assert(vec_args(snapshot@)[i as int] == snapshot@[i as int]@);
            assert(vec_args(page@).push(k@) =~= vec_args(snapshot@).subrange(
                position as int,
                i + 1,
            ));
        }
        page.push(k);
        i += 1;
    }
    assert(vec_args(snapshot@).skip(position as int).take(end - position) =~= vec_args(
        snapshot@,
    ).subrange(position as int, end as int));
    (page, end)
}

} // verus!
