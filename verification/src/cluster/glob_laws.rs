//! What each piece of a glob stands for.

use vstd::prelude::*;

use crate::cluster::glob::{close_from, element_end, element_matches, glob, glob_at, holds};

verus! {

proof fn lemma_close_shift(p: Seq<u8>, d: int, i: int)
    requires
        0 <= d <= i <= p.len(),
    ensures
        close_from(p, i) == d + close_from(p.skip(d), i - d),
        i <= close_from(p, i) <= p.len(),
    decreases p.len() - i,
{
    if i < p.len() && p[i] != 93 {
        lemma_close_shift(p, d, i + 1);
    }
}

proof fn lemma_shift(p: Seq<u8>, d: int, i: int, c: Seq<u8>, e: int, j: int)
    requires
        0 <= d <= i <= p.len(),
        0 <= e <= j <= c.len(),
    ensures
        glob_at(p, i, c, j) == glob_at(p.skip(d), i - d, c.skip(e), j - e),
    decreases p.len() - i, c.len() - j,
{
    let q = p.skip(d);
    let b = c.skip(e);
    if i < p.len() {
        assert(q[i - d] == p[i]);
        lemma_close_shift(p, d, i + 1);
        if p[i] == 42 {
            lemma_shift(p, d, i + 1, c, e, j);
            if j < c.len() {
                lemma_shift(p, d, i, c, e, j + 1);
            }
        } else if j < c.len() {
            assert(b[j - e] == c[j]);
            assert(element_end(p, i) == d + element_end(q, i - d));
            if close_from(p, i + 1) < p.len() {
                assert(p.subrange(i + 1, close_from(p, i + 1)) =~= q.subrange(
                    i - d + 1,
                    close_from(q, i - d + 1),
                ));
            }
            assert(element_matches(p, i, c[j]) == element_matches(q, i - d, b[j - e]));
            lemma_shift(p, d, element_end(p, i), c, e, j + 1);
        }
    }
}

/// Nothing stands for nothing, and for nothing else.
pub proof fn law_empty_glob_is_empty(c: Seq<u8>)
    ensures
        glob(Seq::empty(), c) <==> c.len() == 0,
{
}

/// A star stands for any run of bytes, also an empty one.
pub proof fn law_star_is_any_run(p: Seq<u8>, c: Seq<u8>)
    ensures
        glob(seq![0x2au8] + p, c) <==> exists|k: int|
            0 <= k <= c.len() && #[trigger] glob(p, c.skip(k)),
{
    lemma_star_from(p, c, 0);
    if glob(seq![0x2au8] + p, c) {
        let k = choose|k: int| 0 <= k <= c.len() && #[trigger] glob(p, c.skip(k));
        assert(glob(p, c.skip(k)));
    }
}

proof fn lemma_star_from(p: Seq<u8>, c: Seq<u8>, j: int)
    requires
        0 <= j <= c.len(),
    ensures
        glob_at(seq![0x2au8] + p, 0, c, j) <==> exists|k: int|
            j <= k <= c.len() && #[trigger] glob(p, c.skip(k)),
    decreases c.len() - j,
{
    let q = seq![0x2au8] + p;
    lemma_shift(q, 1, 1, c, j, j);
    assert(q.skip(1) =~= p);
    assert(glob_at(q, 1, c, j) == glob(p, c.skip(j)));
    if j < c.len() {
        lemma_star_from(p, c, j + 1);
        if glob_at(q, 0, c, j) && !glob(p, c.skip(j)) {
            let k = choose|k: int| j + 1 <= k <= c.len() && #[trigger] glob(p, c.skip(k));
            assert(glob(p, c.skip(k)));
        }
        if exists|k: int| j <= k <= c.len() && #[trigger] glob(p, c.skip(k)) {
            let k = choose|k: int| j <= k <= c.len() && #[trigger] glob(p, c.skip(k));
            if k > j {
                assert(j + 1 <= k <= c.len() && glob(p, c.skip(k)));
            }
        }
    }
}

/// A question mark stands for any one byte, and a byte without a meaning of its own
/// for itself.
pub proof fn law_bytes_stand_for_themselves(b: u8, p: Seq<u8>, c: Seq<u8>)
    requires
        b != 0x2a && b != 0x5b,
    ensures
        glob(seq![b] + p, c) <==> c.len() > 0 && (b == 0x3f || c[0] == b) && glob(p, c.skip(1)),
{
    let q = seq![b] + p;
    if c.len() > 0 {
        lemma_shift(q, 1, 1, c, 1, 1);
        assert(q.skip(1) =~= p);
    }
}

/// A class in brackets stands for any one of its bytes, or, behind a caret, for any
/// one byte that is not among them.
pub proof fn law_class_is_one_of_its_bytes(set: Seq<u8>, p: Seq<u8>, c: Seq<u8>)
    requires
        !set.contains(0x5d),
    ensures
        ({
            let q = seq![0x5bu8] + set + seq![0x5du8] + p;
            let negated = set.len() > 0 && set[0] == 0x5e;
            glob(q, c) <==> c.len() > 0 && (if negated {
                !set.skip(1).contains(c[0])
            } else {
                set.contains(c[0])
            }) && glob(p, c.skip(1))
        }),
{
    let q = seq![0x5bu8] + set + seq![0x5du8] + p;
    lemma_close_at(q, 1, set.len() as int);
    assert forall|k: int| 1 <= k < 1 + set.len() implies q[k] != 93 by {
        assert(q[k] == set[k - 1]);
        assert(set.contains(set[k - 1]));
    }
    lemma_close_at(q, 1, 1 + set.len() as int);
    assert(q.subrange(1, 1 + set.len() as int) =~= set);
    if c.len() > 0 {
        let end = set.len() + 2;
        lemma_shift(q, end as int, end as int, c, 1, 1);
        assert(q.skip(end as int) =~= p);
        lemma_holds(set, c[0]);
        if set.len() > 0 {
            lemma_holds(set.skip(1), c[0]);
        }
    }
}

proof fn lemma_holds(s: Seq<u8>, b: u8)
    ensures
        holds(s, b) <==> s.contains(b),
{
    if s.contains(b) {
        let k = choose|k: int| 0 <= k < s.len() && s[k] == b;
        assert(s[k] == b);
    }
}

proof fn lemma_close_at(q: Seq<u8>, i: int, at: int)
    ensures
        0 <= i <= at < q.len() && q[at] == 93 && (forall|k: int|
            i <= k < at ==> #[trigger] q[k] != 93) ==> close_from(q, i) == at,
    decreases at - i,
{
    if i < at {
        lemma_close_at(q, i + 1, at);
    }
}

/// An opening bracket that is never closed stands for itself.
pub proof fn law_unclosed_bracket_is_a_bracket(p: Seq<u8>, c: Seq<u8>)
    requires
        !p.contains(0x5d),
    ensures
        glob(seq![0x5bu8] + p, c) <==> c.len() > 0 && c[0] == 0x5b && glob(p, c.skip(1)),
{
    let q = seq![0x5bu8] + p;
    assert forall|k: int| 1 <= k < q.len() implies q[k] != 93 by {
        assert(q[k] == p[k - 1]);
        assert(p.contains(p[k - 1]));
    }
    lemma_no_close(q, 1);
    if c.len() > 0 {
        lemma_shift(q, 1, 1, c, 1, 1);
        assert(q.skip(1) =~= p);
    }
}

proof fn lemma_no_close(q: Seq<u8>, i: int)
    requires
        0 <= i <= q.len(),
        forall|k: int| i <= k < q.len() ==> #[trigger] q[k] != 93,
    ensures
        close_from(q, i) == q.len(),
    decreases q.len() - i,
{
    if i < q.len() {
        lemma_no_close(q, i + 1);
    }
}

/// A glob without stars, question marks and brackets stands for itself alone.
pub proof fn law_plain_glob_is_itself(p: Seq<u8>, c: Seq<u8>)
    requires
        !p.contains(0x2a) && !p.contains(0x3f) && !p.contains(0x5b),
    ensures
        glob(p, c) <==> p == c,
    decreases p.len(),
{
    if p.len() == 0 {
        assert(p =~= Seq::empty());
        if c.len() == 0 {
            assert(c =~= p);
        }
    } else {
        let rest = p.skip(1);
        assert(p.contains(p[0]));
        assert(seq![p[0]] + rest =~= p);
        law_bytes_stand_for_themselves(p[0], rest, c);
        assert forall|b: u8| !p.contains(b) implies !#[trigger] rest.contains(b) by {
            if rest.contains(b) {
                let k = choose|k: int| 0 <= k < rest.len() && rest[k] == b;
                assert(p[k + 1] == b);
            }
        }
        if c.len() > 0 {
            law_plain_glob_is_itself(rest, c.skip(1));
            if glob(p, c) {
                assert(seq![c[0]] + c.skip(1) =~= c);
            }
        }
    }
}

} // verus!
