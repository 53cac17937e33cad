//! Glob patterns for channel names.
//!
//! `*` stands for any run of bytes, `?` for any one byte, `[abc]` for one of
//! the bytes between the brackets and `[^abc]` for any other one. A `[` that no
//! `]` follows stands for itself.

use vstd::prelude::*;
use vstd::string::*;

verus! {

/// `*`.
pub const STAR: u8 = 42;

/// `?`.
pub const ANY_ONE: u8 = 63;

/// `[`.
pub const OPEN: u8 = 91;

/// `]`.
pub const CLOSE: u8 = 93;

/// `^`.
pub const CARET: u8 = 94;

/// Position of the first `]` of `p` from `i` on; the length where there is
/// none.
pub open spec fn close_from(p: Seq<u8>, i: int) -> int
    decreases p.len() - i,
{
    if 0 <= i < p.len() && p[i] != CLOSE {
        close_from(p, i + 1)
    } else {
        i
    }
}

/// Whether a class of bytes starts at position `i` of `p`.
pub open spec fn is_class(p: Seq<u8>, i: int) -> bool {
    p[i] == OPEN && close_from(p, i + 1) < p.len()
}

/// Position behind the element that starts at `i`.
pub open spec fn element_end(p: Seq<u8>, i: int) -> int {
    if is_class(p, i) {
        close_from(p, i + 1) + 1
    } else {
        i + 1
    }
}

/// Whether `s` holds `b`.
pub open spec fn holds(s: Seq<u8>, b: u8) -> bool {
    exists|k: int| 0 <= k < s.len() && #[trigger] s[k] == b
}

/// Whether the element that starts at `i`, which is no `*`, stands for `b`.
pub open spec fn element_matches(p: Seq<u8>, i: int, b: u8) -> bool {
    if is_class(p, i) {
        let set = p.subrange(i + 1, close_from(p, i + 1));
        if set.len() > 0 && set[0] == CARET {
            !holds(set.skip(1), b)
        } else {
            holds(set, b)
        }
    } else {
        p[i] == ANY_ONE || p[i] == b
    }
}

/// Whether the pattern `p`, from position `i` on, stands for `c` from position
/// `j` on.
pub open spec fn glob_at(p: Seq<u8>, i: int, c: Seq<u8>, j: int) -> bool
    decreases p.len() - i, c.len() - j,
{
    if !(0 <= i <= p.len() && 0 <= j <= c.len()) {
        false
    } else if i == p.len() {
        j == c.len()
    } else if p[i] == STAR {
        glob_at(p, i + 1, c, j) || (j < c.len() && glob_at(p, i, c, j + 1))
    } else if j == c.len() || element_end(p, i) <= i {
        false
    } else {
        element_matches(p, i, c[j]) && glob_at(p, element_end(p, i), c, j + 1)
    }
}

/// Whether the pattern `p` stands for `c`.
pub open spec fn glob(p: Seq<u8>, c: Seq<u8>) -> bool {
    glob_at(p, 0, c, 0)
}

proof fn lemma_close(p: Seq<u8>, i: int)
    requires
        0 <= i <= p.len(),
    ensures
        i <= close_from(p, i) <= p.len(),
        close_from(p, i) < p.len() ==> p[close_from(p, i)] == CLOSE,
    decreases p.len() - i,
{
    if i < p.len() && p[i] != CLOSE {
        lemma_close(p, i + 1);
    }
}

/// `n` elements, none of them a `*`, lead from position `i` of `p` to `to`.
spec fn leads(p: Seq<u8>, i: int, n: int, to: int) -> bool
    decreases n,
{
    if n <= 0 {
        n == 0 && i == to
    } else {
        &&& 0 <= i < p.len()
        &&& p[i] != STAR
        &&& leads(p, element_end(p, i), n - 1, to)
    }
}

proof fn lemma_leads_one_more(p: Seq<u8>, i: int, n: int, to: int)
    requires
        0 <= n,
        leads(p, i, n, to),
        0 <= to < p.len(),
        p[to] != STAR,
    ensures
        leads(p, i, n + 1, element_end(p, to)),
    decreases n,
{
    if n > 0 {
        lemma_leads_one_more(p, element_end(p, i), n - 1, to);
    } else {
        assert(leads(p, element_end(p, i), 0, element_end(p, to)));
    }
}

/// Elements without a `*` take one byte each.
proof fn lemma_segment(p: Seq<u8>, i: int, n: int, to: int, c: Seq<u8>, j: int)
    requires
        0 <= n,
        leads(p, i, n, to),
        glob_at(p, i, c, j),
    ensures
        j + n <= c.len(),
        glob_at(p, to, c, j + n),
    decreases n,
{
    if n > 0 {
        lemma_segment(p, element_end(p, i), n - 1, to, c, j + 1);
    }
}

/// A `*` stands for any run: the rest of the pattern matches somewhere later.
proof fn lemma_star(p: Seq<u8>, i: int, c: Seq<u8>, j: int)
    requires
        0 <= i < p.len(),
        p[i] == STAR,
        0 <= j <= c.len(),
    ensures
        glob_at(p, i, c, j) <==> exists|k: int| j <= k <= c.len() && #[trigger] glob_at(p, i + 1, c, k),
    decreases c.len() - j,
{
    if j < c.len() {
        lemma_star(p, i, c, j + 1);
    }
    if glob_at(p, i, c, j) {
        if glob_at(p, i + 1, c, j) {
        } else {
            let k = choose|k: int| j + 1 <= k <= c.len() && #[trigger] glob_at(p, i + 1, c, k);
            assert(j <= k <= c.len() && glob_at(p, i + 1, c, k));
        }
    }
    if exists|k: int| j <= k <= c.len() && #[trigger] glob_at(p, i + 1, c, k) {
        let k = choose|k: int| j <= k <= c.len() && #[trigger] glob_at(p, i + 1, c, k);
        if k > j {
            assert(j + 1 <= k <= c.len() && glob_at(p, i + 1, c, k));
        }
    }
}

/// Whether some later attempt behind the `*` at `s` succeeds.
spec fn later(p: Seq<u8>, s: int, c: Seq<u8>, from: int) -> bool {
    exists|k: int| from < k <= c.len() && #[trigger] glob_at(p, s + 1, c, k)
}

fn find_close(p: &[u8], from: usize) -> (r: usize)
    requires
        from <= p@.len(),
    ensures
        r == close_from(p@, from as int),
        from <= r <= p@.len(),
{
    let mut i: usize = from;
    while i < p.len() && p[i] != CLOSE
        invariant
            from <= i <= p@.len(),
            close_from(p@, from as int) == close_from(p@, i as int),
        decreases p@.len() - i,
    {
        i = i + 1;
    }
    i
}

fn slice_holds(p: &[u8], from: usize, to: usize, b: u8) -> (r: bool)
    requires
        from <= to <= p@.len(),
    ensures
        r == holds(p@.subrange(from as int, to as int), b),
{
    let ghost s = p@.subrange(from as int, to as int);
    let mut i: usize = from;
    while i < to
        invariant
            from <= i <= to <= p@.len(),
            s == p@.subrange(from as int, to as int),
            forall|k: int| 0 <= k < i - from ==> #[trigger] s[k] != b,
        decreases to - i,
    {
        assert(s[i - from] == p@[i as int]);
        if p[i] == b {
            return true;
        }
        i = i + 1;
    }
    false
}

/// Whether the element at `i`, which is no `*`, stands for `b`, and where the
/// next one starts.
fn match_element(p: &[u8], i: usize, b: u8) -> (r: (bool, usize))
    requires
        i < p@.len(),
    ensures
        r.0 == element_matches(p@, i as int, b),
        r.1 == element_end(p@, i as int),
        i < r.1 <= p@.len(),
{
    proof {
        lemma_close(p@, i + 1);
    }
    if p[i] == OPEN {
        let close: usize = find_close(p, i + 1);
        if close < p.len() {
            let ghost set = p@.subrange(i + 1, close as int);
            if i + 1 < close && p[i + 1] == CARET {
                assert(set.skip(1) =~= p@.subrange(i + 2, close as int));
                return (!slice_holds(p, i + 2, close, b), close + 1);
            }
            return (slice_holds(p, i + 1, close, b), close + 1);
        }
    }
    (p[i] == ANY_ONE || p[i] == b, i + 1)
}

/// Whether the glob `pattern` stands for `candidate`. Works without recursion:
/// on a mismatch it resumes behind the last `*`, one byte further on.
pub fn pattern_matches(pattern: &str, candidate: &str) -> (r: bool)
    ensures
        r == glob(pattern.spec_bytes(), candidate.spec_bytes()),
{
    let p: &[u8] = pattern.as_bytes();
    let c: &[u8] = candidate.as_bytes();
    let mut pi: usize = 0;
    let mut ci: usize = 0;
    let mut star: Option<usize> = None;
    let mut after: usize = 0;
    while ci < c.len()
        invariant
            pi <= p@.len(),
            ci <= c@.len(),
            p@ == pattern.spec_bytes(),
            c@ == candidate.spec_bytes(),
            match star {
                None => glob(p@, c@) == glob_at(p@, pi as int, c@, ci as int),
                Some(s) => {
                    &&& s < p@.len()
                    &&& s < pi
                    &&& p@[s as int] == STAR
                    &&& after <= ci
                    &&& leads(p@, s + 1, ci - after, pi as int)
                    &&& glob(p@, c@) == (glob_at(p@, pi as int, c@, ci as int) || later(
                        p@,
                        s as int,
                        c@,
                        after as int,
                    ))
                },
            },
        decreases
                (match star {
                    None => p@.len() + 1,
                    Some(s) => (p@.len() - s) as nat,
                }),
                c@.len() - after,
                p@.len() - pi,
    {
        if pi < p.len() && p[pi] == STAR {
            proof {
                lemma_star(p@, pi as int, c@, ci as int);
                if let Some(s) = star {
                    if later(p@, s as int, c@, after as int) {
                        let k = choose|k: int|
                            after < k <= c@.len() && #[trigger] glob_at(p@, s + 1, c@, k);
                        lemma_segment(p@, s + 1, ci - after, pi as int, c@, k);
                        lemma_star(p@, pi as int, c@, k + (ci - after));
                        let q = choose|q: int|
                            k + (ci - after) <= q <= c@.len() && #[trigger] glob_at(
                                p@,
                                pi + 1,
                                c@,
                                q,
                            );
                        assert(ci <= q <= c@.len() && glob_at(p@, pi + 1, c@, q));
                    }
                }
                if exists|k: int| ci <= k <= c@.len() && #[trigger] glob_at(p@, pi + 1, c@, k) {
                    let k = choose|k: int|
                        ci <= k <= c@.len() && #[trigger] glob_at(p@, pi + 1, c@, k);
                    if k > ci {
                        assert(later(p@, pi as int, c@, ci as int));
                    }
                }
                if later(p@, pi as int, c@, ci as int) {
                    let k = choose|k: int|
                        ci < k <= c@.len() && #[trigger] glob_at(p@, pi + 1, c@, k);
                    assert(ci <= k <= c@.len() && glob_at(p@, pi + 1, c@, k));
                }
                assert(leads(p@, pi + 1, 0, pi + 1));
            }
            star = Some(pi);
            after = ci;
            pi = pi + 1;
        } else {
            let mut matched: bool = false;
            if pi < p.len() {
                let (ok, next): (bool, usize) = match_element(p, pi, c[ci]);
                matched = ok;
                if ok {
                    proof {
                        if let Some(s) = star {
                            lemma_leads_one_more(p@, s + 1, ci - after, pi as int);
                        }
                    }
                    pi = next;
                    ci = ci + 1;
                }
            }
            if !matched {
                assert(!glob_at(p@, pi as int, c@, ci as int));
                match star {
                    None => {
                        return false;
                    },
                    Some(s) => {
                        proof {
                            let next = after + 1;
                            assert(leads(p@, s + 1, 0, s + 1));
                            if later(p@, s as int, c@, after as int) {
                                let k = choose|k: int|
                                    after < k <= c@.len() && #[trigger] glob_at(p@, s + 1, c@, k);
                                if k > next {
                                    assert(later(p@, s as int, c@, next));
                                }
                            }
                            if glob_at(p@, s + 1, c@, next) {
                                assert(later(p@, s as int, c@, after as int));
                            }
                            if later(p@, s as int, c@, next) {
                                let k = choose|k: int|
                                    next < k <= c@.len() && #[trigger] glob_at(p@, s + 1, c@, k);
                                assert(after < k <= c@.len() && glob_at(p@, s + 1, c@, k));
                            }
                        }
                        pi = s + 1;
                        after = after + 1;
                        ci = after;
                    },
                }
            }
        }
    }
    proof {
        if let Some(s) = star {
            if later(p@, s as int, c@, after as int) {
                let k = choose|k: int|
                    after < k <= c@.len() && #[trigger] glob_at(p@, s + 1, c@, k);
                lemma_segment(p@, s + 1, ci - after, pi as int, c@, k);
                assert(false);
            }
        }
        assert(glob(p@, c@) == glob_at(p@, pi as int, c@, c@.len() as int));
    }
    while pi < p.len() && p[pi] == STAR
        invariant
            pi <= p@.len(),
            glob(p@, c@) == glob_at(p@, pi as int, c@, c@.len() as int),
        decreases p@.len() - pi,
    {
        pi = pi + 1;
    }
    pi == p.len()
}

} // verus!
