//! Glob-style pattern matching for KEYS and SCAN's MATCH option: `*` any
//! sequence, `?` one byte, `[abc]` class, `[^abc]` negated class, `[a-z]`
//! range (either order), `\x` escape. Case-sensitive.

use vstd::prelude::*;

verus! {

/// ASCII '*'.
pub const GLOB_STAR: u8 = 42;
/// ASCII '?'.
pub const QUESTION: u8 = 63;
/// ASCII '['.
pub const LBRACKET: u8 = 91;
/// ASCII ']'.
pub const RBRACKET: u8 = 93;
/// ASCII '\'.
pub const BACKSLASH: u8 = 92;
/// ASCII '^'.
pub const CARET: u8 = 94;
/// ASCII '-'.
pub const DASH: u8 = 45;

/// Scans the items of a `[...]` class (after any `^`): whether one of them
/// matches `c`, and how many pattern bytes the class body takes, closing
/// `]` included. An unterminated class runs to the end of the pattern.
pub open spec fn class_scan(p: Seq<u8>, c: Option<u8>) -> (bool, int)
    decreases p.len(),
{
    if p.len() == 0 {
        (false, 0)
    } else if p[0] == RBRACKET {
        (false, 1)
    } else if p[0] == BACKSLASH && p.len() >= 2 {
        let (m, k) = class_scan(p.skip(2), c);
        (m || c == Some(p[1]), k + 2)
    } else if p.len() >= 3 && p[1] == DASH && p[2] != RBRACKET {
        let lo = if p[0] <= p[2] {
            p[0]
        } else {
            p[2]
        };
        let hi = if p[0] <= p[2] {
            p[2]
        } else {
            p[0]
        };
        let (m, k) = class_scan(p.skip(3), c);
        (m || (c is Some && lo <= c->0 <= hi), k + 3)
    } else {
        let (m, k) = class_scan(p.drop_first(), c);
        (m || c == Some(p[0]), k + 1)
    }
}

pub proof fn lemma_class_scan_len(p: Seq<u8>, c: Option<u8>)
    ensures
        0 <= class_scan(p, c).1 <= p.len(),
    decreases p.len(),
{
    if p.len() == 0 {
    } else if p[0] == RBRACKET {
    } else if p[0] == BACKSLASH && p.len() >= 2 {
        lemma_class_scan_len(p.skip(2), c);
    } else if p.len() >= 3 && p[1] == DASH && p[2] != RBRACKET {
        lemma_class_scan_len(p.skip(3), c);
    } else {
        lemma_class_scan_len(p.drop_first(), c);
    }
}

/// Where a class opened at `p[0] == '['` ends, and whether the byte `c`
/// belongs to it: `(matched, bytes of pattern taken by the whole class)`.
pub open spec fn class_match(p: Seq<u8>, c: Option<u8>) -> (bool, int) {
    let body = p.drop_first();
    let negate = body.len() > 0 && body[0] == CARET;
    let items = if negate {
        body.drop_first()
    } else {
        body
    };
    let (m, k) = class_scan(items, c);
    (
        if negate {
            !m
        } else {
            m
        },
        1 + (if negate {
            1int
        } else {
            0int
        }) + k,
    )
}

pub proof fn lemma_class_match_len(p: Seq<u8>, c: Option<u8>)
    requires
        p.len() >= 1,
    ensures
        1 <= class_match(p, c).1 <= p.len(),
{
    let body = p.drop_first();
    let negate = body.len() > 0 && body[0] == CARET;
    let items = if negate {
        body.drop_first()
    } else {
        body
    };
    lemma_class_scan_len(items, c);
}

/// Pattern `p` with its leading run of `*` removed.
pub open spec fn skip_stars(p: Seq<u8>) -> Seq<u8>
    decreases p.len(),
{
    if p.len() > 0 && p[0] == GLOB_STAR {
        skip_stars(p.drop_first())
    } else {
        p
    }
}

pub proof fn lemma_skip_stars(p: Seq<u8>)
    ensures
        skip_stars(p).len() <= p.len(),
        p.len() > 0 && p[0] == GLOB_STAR ==> skip_stars(p).len() < p.len(),
        skip_stars(p).len() == 0 || skip_stars(p)[0] != GLOB_STAR,
        exists|k: int| 0 <= k <= p.len() && skip_stars(p) == p.skip(k),
    decreases p.len(),
{
    if p.len() > 0 && p[0] == GLOB_STAR {
        lemma_skip_stars(p.drop_first());
        let k = choose|k: int|
            0 <= k <= p.drop_first().len() && skip_stars(p.drop_first()) == p.drop_first().skip(
                k,
            );
        assert(p.drop_first().skip(k) =~= p.skip(k + 1));
    } else {
        assert(p.skip(0) =~= p);
    }
}

/// Whether `s` matches the pattern `p`.
pub open spec fn glob_spec(p: Seq<u8>, s: Seq<u8>) -> bool
    decreases p.len(), s.len() + 1,
{
    if p.len() == 0 {
        s.len() == 0
    } else if p[0] == GLOB_STAR {
        skip_stars(p).len() == 0 || star_from(p, s, 0)
    } else if p[0] == QUESTION {
        s.len() > 0 && glob_spec(p.drop_first(), s.drop_first())
    } else if p[0] == LBRACKET {
        let c = if s.len() > 0 {
            Some(s[0])
        } else {
            None
        };
        let (m, k) = class_match(p, c);
        proof {
            lemma_class_match_len(p, c);
        }
        s.len() > 0 && m && glob_spec(p.skip(k), s.drop_first())
    } else if p[0] == BACKSLASH && p.len() >= 2 {
        s.len() > 0 && p[1] == s[0] && glob_spec(p.skip(2), s.drop_first())
    } else {
        s.len() > 0 && p[0] == s[0] && glob_spec(p.drop_first(), s.drop_first())
    }
}

/// For a pattern starting with `*`: whether what follows the stars matches
/// some suffix `s[j..]` with `i <= j`.
pub open spec fn star_from(p: Seq<u8>, s: Seq<u8>, i: int) -> bool
    decreases p.len(), s.len() - i,
{
    if !(p.len() > 0 && p[0] == GLOB_STAR) || i < 0 || i > s.len() {
        false
    } else {
        proof {
            lemma_skip_stars(p);
        }
        glob_spec(skip_stars(p), s.skip(i)) || (i < s.len() && star_from(p, s, i + 1))
    }
}

/// `star_from` is the existence of a matching suffix.
pub proof fn lemma_star_from(p: Seq<u8>, s: Seq<u8>, i: int)
    requires
        p.len() > 0 && p[0] == GLOB_STAR,
        0 <= i <= s.len(),
    ensures
        star_from(p, s, i) == exists|j: int|
            i <= j <= s.len() && #[trigger] glob_spec(skip_stars(p), s.skip(j)),
    decreases s.len() - i,
{
    if i < s.len() {
        lemma_star_from(p, s, i + 1);
    }
    if star_from(p, s, i) {
        if glob_spec(skip_stars(p), s.skip(i)) {
        } else {
            let j = choose|j: int|
                i + 1 <= j <= s.len() && #[trigger] glob_spec(skip_stars(p), s.skip(j));
        }
    } else {
        assert forall|j: int| i <= j <= s.len() implies !#[trigger] glob_spec(
            skip_stars(p),
            s.skip(j),
        ) by {
            if j > i {
            }
        }
    }
}

/// The class items from `p[i0..]`: whether one matches `c`, and where the
/// class ends.
pub fn class_items(p: &[u8], i0: usize, c: Option<u8>) -> (r: (bool, usize))
    requires
        i0 <= p.len(),
    ensures
        i0 <= r.1 <= p.len(),
        (r.0, r.1 - i0) == class_scan(p@.skip(i0 as int), c),
{
    let mut i = i0;
    let mut matched = false;
    loop
        invariant
            i0 <= i <= p.len(),
            class_scan(p@.skip(i0 as int), c) == (
                matched || class_scan(p@.skip(i as int), c).0,
                (i - i0) + class_scan(p@.skip(i as int), c).1,
            ),
        decreases p.len() - i,
    {
        let ghost t = p@.skip(i as int);
        if i == p.len() {
            return (matched, i);
        }
        let b = p[i];
        if b == RBRACKET {
            return (matched, i + 1);
        }
        if b == BACKSLASH && p.len() - i >= 2 {
            if c == Some(p[i + 1]) {
                matched = true;
            }
            assert(t.skip(2) =~= p@.skip(i + 2));
            i = i + 2;
        } else if p.len() - i >= 3 && p[i + 1] == DASH && p[i + 2] != RBRACKET {
            let (lo, hi) = if b <= p[i + 2] {
                (b, p[i + 2])
            } else {
                (p[i + 2], b)
            };
            match c {
                Some(x) => {
                    if lo <= x && x <= hi {
                        matched = true;
                    }
                },
                None => {},
            }
            assert(t.skip(3) =~= p@.skip(i + 3));
            i = i + 3;
        } else {
            if c == Some(b) {
                matched = true;
            }
            assert(t.drop_first() =~= p@.skip(i + 1));
            i = i + 1;
        }
    }
}

/// Whether `text` matches `pattern` (see the module docs for the syntax).
pub fn glob_match(pattern: &[u8], text: &[u8]) -> (r: bool)
    ensures
        r == glob_spec(pattern@, text@),
{
    assert(pattern@.skip(0) =~= pattern@);
    assert(text@.skip(0) =~= text@);
    glob_from(pattern, 0, text, 0)
}

fn glob_from(p: &[u8], pi0: usize, s: &[u8], si0: usize) -> (r: bool)
    requires
        pi0 <= p.len(),
        si0 <= s.len(),
    ensures
        r == glob_spec(p@.skip(pi0 as int), s@.skip(si0 as int)),
    decreases p.len() - pi0,
{
    let mut pi = pi0;
    let mut si = si0;
    loop
        invariant
            pi0 <= pi <= p.len(),
            si0 <= si <= s.len(),
            glob_spec(p@.skip(pi as int), s@.skip(si as int)) == glob_spec(
                p@.skip(pi0 as int),
                s@.skip(si0 as int),
            ),
        decreases p.len() - pi,
    {
        let ghost ps = p@.skip(pi as int);
        let ghost ss = s@.skip(si as int);
        if pi == p.len() {
            return si == s.len();
        }
        let pc = p[pi];
        if pc == GLOB_STAR {
            let mut k = pi;
            while k + 1 < p.len() && p[k + 1] == GLOB_STAR
                invariant
                    pi <= k < p.len(),
                    p@[k as int] == GLOB_STAR,
                    skip_stars(ps) == skip_stars(p@.skip(k as int)),
                decreases p.len() - k,
            {
                assert(p@.skip(k as int).drop_first() =~= p@.skip(k + 1));
                k = k + 1;
            }
            assert(p@.skip(k as int).drop_first() =~= p@.skip(k + 1));
            let rest = k + 1;
            proof {
                assert(p@.skip(k as int)[0] == GLOB_STAR);
                assert(skip_stars(p@.skip(k as int)) == skip_stars(p@.skip(k + 1)));
                if rest < p.len() {
                    assert(p@.skip(rest as int)[0] == p@[rest as int]);
                }
                assert(skip_stars(p@.skip(rest as int)) == p@.skip(rest as int));
            }
            assert(skip_stars(ps) == p@.skip(rest as int));
            if rest == p.len() {
                assert(skip_stars(ps).len() == 0);
                return true;
            }
            assert(ps.len() > 0 && ps[0] == GLOB_STAR);
            assert(skip_stars(ps).len() > 0);
            let mut i = si;
            loop
                invariant
                    si <= i <= s.len(),
                    pi0 < rest <= p.len(),
                    ps == p@.skip(pi as int),
                    ss == s@.skip(si as int),
                    ps.len() > 0,
                    ps[0] == GLOB_STAR,
                    skip_stars(ps) == p@.skip(rest as int),
                    glob_spec(ps, ss) == glob_spec(p@.skip(pi0 as int), s@.skip(si0 as int)),
                    glob_spec(ps, ss) == star_from(ps, ss, i - si),
                decreases s.len() - i,
            {
                assert(ss.skip(i - si) =~= s@.skip(i as int));
                if glob_from(p, rest, s, i) {
                    return true;
                }
                if i == s.len() {
                    assert(!star_from(ps, ss, i - si + 1));
                    return false;
                }
                i = i + 1;
            }
        } else if pc == QUESTION {
            if si == s.len() {
                return false;
            }
            assert(ps.drop_first() =~= p@.skip(pi + 1));
            assert(ss.drop_first() =~= s@.skip(si + 1));
            pi = pi + 1;
            si = si + 1;
        } else if pc == LBRACKET {
            let c = if si < s.len() {
                Some(s[si])
            } else {
                None
            };
            let negate = pi + 1 < p.len() && p[pi + 1] == CARET;
            let items_start = if negate {
                pi + 2
            } else {
                pi + 1
            };
            proof {
                assert(ps.drop_first() =~= p@.skip(pi + 1));
                if pi + 1 < p.len() {
                    assert(p@.skip(pi + 1).drop_first() =~= p@.skip(pi + 2));
                }
                assert(c == (if ss.len() > 0 {
                    Some(ss[0])
                } else {
                    None
                }));
            }
            let (m, end) = class_items(p, items_start, c);
            let matched = if negate {
                !m
            } else {
                m
            };
            if si == s.len() || !matched {
                return false;
            }
            assert(ps.skip(end - pi) =~= p@.skip(end as int));
            assert(ss.drop_first() =~= s@.skip(si + 1));
            pi = end;
            si = si + 1;
        } else if pc == BACKSLASH && p.len() - pi >= 2 {
            if si == s.len() || p[pi + 1] != s[si] {
                return false;
            }
            assert(ps.skip(2) =~= p@.skip(pi + 2));
            assert(ss.drop_first() =~= s@.skip(si + 1));
            pi = pi + 2;
            si = si + 1;
        } else {
            if si == s.len() || pc != s[si] {
                return false;
            }
            assert(ps.drop_first() =~= p@.skip(pi + 1));
            assert(ss.drop_first() =~= s@.skip(si + 1));
            pi = pi + 1;
            si = si + 1;
        }
    }
}

/// A byte with no special meaning in a pattern.
pub open spec fn is_plain(b: u8) -> bool {
    b != GLOB_STAR && b != QUESTION && b != LBRACKET && b != BACKSLASH
}

/// Class items with no `]` or `\` among them.
pub open spec fn plain_items(body: Seq<u8>) -> bool {
    forall|i: int| 0 <= i < body.len() ==> #[trigger] body[i] != RBRACKET && body[i] != BACKSLASH
}

/// A class body free of `]` and `\` is read whole up to the closing `]`.
proof fn lemma_plain_items_len(body: Seq<u8>, c: Option<u8>)
    requires
        plain_items(body),
    ensures
        class_scan(body + seq![RBRACKET], c).1 == body.len() + 1,
    decreases body.len(),
{
    let p = body + seq![RBRACKET];
    if body.len() == 0 {
        assert(p[0] == RBRACKET);
    } else {
        assert(p[0] == body[0]);
        if p.len() >= 3 && p[1] == DASH && p[2] != RBRACKET {
            assert(body.len() >= 3) by {
                if body.len() < 3 {
                    assert(p[2] == RBRACKET) by {
                        if body.len() == 2 {
                            assert(p[2] == seq![RBRACKET][0]);
                        } else {
                            assert(p[1] == RBRACKET);
                        }
                    }
                }
            }
            let rest = body.skip(3);
            assert(p.skip(3) =~= rest + seq![RBRACKET]);
            assert forall|i: int| 0 <= i < rest.len() implies #[trigger] rest[i] != RBRACKET
                && rest[i] != BACKSLASH by {
                assert(rest[i] == body[i + 3]);
            }
            lemma_plain_items_len(rest, c);
        } else {
            let rest = body.drop_first();
            assert(p.drop_first() =~= rest + seq![RBRACKET]);
            assert forall|i: int| 0 <= i < rest.len() implies #[trigger] rest[i] != RBRACKET
                && rest[i] != BACKSLASH by {
                assert(rest[i] == body[i + 1]);
            }
            lemma_plain_items_len(rest, c);
        }
    }
}

/// The one-byte text `c` against the class `[` + body + `]`: the class's
/// verdict on `c`, read whole.
proof fn lemma_class_on_byte(body: Seq<u8>, c: u8)
    requires
        plain_items(body),
        body.len() == 0 || body[0] != CARET,
    ensures
        glob_spec(seq![LBRACKET] + body + seq![RBRACKET], seq![c]) == class_scan(
            body + seq![RBRACKET],
            Some(c),
        ).0,
{
    let p = seq![LBRACKET] + body + seq![RBRACKET];
    let items = body + seq![RBRACKET];
    assert(p.drop_first() =~= items);
    assert(p[0] == LBRACKET);
    if body.len() == 0 {
        assert(items[0] == RBRACKET);
    } else {
        assert(items[0] == body[0]);
    }
    lemma_plain_items_len(body, Some(c));
    assert(p.skip(p.len() as int) =~= Seq::<u8>::empty());
    assert(seq![c].drop_first() =~= Seq::<u8>::empty());
    assert(seq![c][0] == c);
    assert(!(items.len() > 0 && items[0] == CARET));
    assert(class_match(p, Some(c)) == (class_scan(items, Some(c)).0, p.len() as int));
    assert(glob_spec(Seq::<u8>::empty(), Seq::<u8>::empty()));
    assert(glob_spec(p, seq![c]) == (class_scan(items, Some(c)).0 && glob_spec(
        p.skip(p.len() as int),
        seq![c].drop_first(),
    )));
}

/// A class holds a byte when any one of its items does: a range item
/// `a-b` (in either order) followed by more items matches `c` exactly when
/// `c` lies between `a` and `b` or the remaining items match it.
pub proof fn lemma_class_range_or_rest(a: u8, b: u8, rest: Seq<u8>, c: u8)
    requires
        a != RBRACKET && a != BACKSLASH && a != CARET,
        b != RBRACKET && b != BACKSLASH,
        plain_items(rest),
        rest.len() == 0 || rest[0] != CARET,
    ensures
        glob_spec(seq![LBRACKET, a, DASH, b] + rest + seq![RBRACKET], seq![c]) == ((if a <= b {
            a <= c <= b
        } else {
            b <= c <= a
        }) || glob_spec(seq![LBRACKET] + rest + seq![RBRACKET], seq![c])),
{
    let body = seq![a, DASH, b] + rest;
    assert(seq![LBRACKET, a, DASH, b] + rest + seq![RBRACKET] =~= seq![LBRACKET] + body + seq![RBRACKET]);
    assert forall|i: int| 0 <= i < body.len() implies #[trigger] body[i] != RBRACKET && body[i]
        != BACKSLASH by {
        if i >= 3 {
            assert(body[i] == rest[i - 3]);
        }
    }
    lemma_class_on_byte(body, c);
    lemma_class_on_byte(rest, c);
    let items = body + seq![RBRACKET];
    assert(items[0] == a && items[1] == DASH && items[2] == b);
    assert(items.skip(3) =~= rest + seq![RBRACKET]);
}

/// A single byte item `x` followed by more items matches `c` exactly when
/// `c` is `x` or the remaining items match it.
pub proof fn lemma_class_byte_or_rest(x: u8, rest: Seq<u8>, c: u8)
    requires
        x != RBRACKET && x != BACKSLASH && x != CARET,
        plain_items(rest),
        rest.len() == 0 || rest[0] != CARET,
        !(rest.len() >= 2 && rest[0] == DASH),
    ensures
        glob_spec(seq![LBRACKET, x] + rest + seq![RBRACKET], seq![c]) == (c == x || glob_spec(
            seq![LBRACKET] + rest + seq![RBRACKET],
            seq![c],
        )),
{
    let body = seq![x] + rest;
    assert(seq![LBRACKET, x] + rest + seq![RBRACKET] =~= seq![LBRACKET] + body + seq![RBRACKET]);
    assert forall|i: int| 0 <= i < body.len() implies #[trigger] body[i] != RBRACKET && body[i]
        != BACKSLASH by {
        if i >= 1 {
            assert(body[i] == rest[i - 1]);
        }
    }
    lemma_class_on_byte(body, c);
    lemma_class_on_byte(rest, c);
    let items = body + seq![RBRACKET];
    assert(items[0] == x);
    if rest.len() == 0 {
        assert(items[1] == RBRACKET);
    } else if rest.len() == 1 {
        assert(items[2] == RBRACKET);
    } else {
        assert(items[1] == rest[0]);
    }
    assert(items.drop_first() =~= rest + seq![RBRACKET]);
}

/// `[^...]` matches exactly the bytes that `[...]` does not.
pub proof fn lemma_class_negation(body: Seq<u8>, c: u8)
    requires
        plain_items(body),
        body.len() == 0 || body[0] != CARET,
    ensures
        glob_spec(seq![LBRACKET, CARET] + body + seq![RBRACKET], seq![c]) == !glob_spec(
            seq![LBRACKET] + body + seq![RBRACKET],
            seq![c],
        ),
{
    lemma_class_on_byte(body, c);
    let p = seq![LBRACKET, CARET] + body + seq![RBRACKET];
    let items = body + seq![RBRACKET];
    assert(p.drop_first() =~= seq![CARET] + items);
    assert((seq![CARET] + items).drop_first() =~= items);
    assert(p[0] == LBRACKET);
    lemma_plain_items_len(body, Some(c));
    assert(p.skip(p.len() as int) =~= Seq::<u8>::empty());
    assert(seq![c].drop_first() =~= Seq::<u8>::empty());
    assert(seq![c][0] == c);
    assert(class_match(p, Some(c)) == (!class_scan(items, Some(c)).0, p.len() as int));
    assert(glob_spec(Seq::<u8>::empty(), Seq::<u8>::empty()));
    assert(glob_spec(p, seq![c]) == (!class_scan(items, Some(c)).0 && glob_spec(
        p.skip(p.len() as int),
        seq![c].drop_first(),
    )));
}

/// A lone `*` matches every text.
pub proof fn lemma_star_matches_everything(s: Seq<u8>)
    ensures
        glob_spec(seq![GLOB_STAR], s),
{
    let p = seq![GLOB_STAR];
    assert(p.drop_first() =~= Seq::<u8>::empty());
    assert(skip_stars(p.drop_first()) =~= Seq::<u8>::empty());
}

/// A pattern of plain bytes matches exactly the text equal to it.
pub proof fn lemma_plain_pattern_matches_itself_only(p: Seq<u8>, s: Seq<u8>)
    requires
        forall|i: int| 0 <= i < p.len() ==> is_plain(#[trigger] p[i]),
    ensures
        glob_spec(p, s) == (p == s),
    decreases p.len(),
{
    if p.len() == 0 {
        if s.len() == 0 {
            assert(p =~= s);
        }
    } else {
        assert(is_plain(p[0]));
        assert forall|i: int| 0 <= i < p.drop_first().len() implies is_plain(
            #[trigger] p.drop_first()[i],
        ) by {
            assert(p.drop_first()[i] == p[i + 1]);
        }
        lemma_plain_pattern_matches_itself_only(p.drop_first(), s.drop_first());
        if s.len() > 0 && p[0] == s[0] && p.drop_first() == s.drop_first() {
            assert forall|i: int| 0 <= i < p.len() implies p[i] == s[i] by {
                if i > 0 {
                    assert(p[i] == p.drop_first()[i - 1]);
                    assert(s[i] == s.drop_first()[i - 1]);
                }
            }
            assert(p =~= s);
        }
        if p == s {
            assert(p.drop_first() =~= s.drop_first());
        }
    }
}

/// A run of several `*` behaves as one.
pub proof fn lemma_stars_collapse(rest: Seq<u8>, s: Seq<u8>)
    ensures
        glob_spec(seq![GLOB_STAR, GLOB_STAR] + rest, s) == glob_spec(seq![GLOB_STAR] + rest, s),
{
    let p2 = seq![GLOB_STAR, GLOB_STAR] + rest;
    let p1 = seq![GLOB_STAR] + rest;
    assert(p2.drop_first() =~= p1);
    assert(skip_stars(p2) == skip_stars(p1));
    lemma_skip_stars(p1);
    if skip_stars(p1).len() > 0 {
        lemma_star_from(p2, s, 0);
        lemma_star_from(p1, s, 0);
    }
}

} // verus!
