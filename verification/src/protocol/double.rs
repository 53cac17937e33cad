//! Literals of floating-point numbers.

use vstd::prelude::*;
use vstd::string::*;

use crate::text::{all_digits, bytes_to_vec, is_digit, lower, to_lower};

verus! {

/// `s` spells `word` (given in lower case), in any letter case.
pub open spec fn spells(s: Seq<u8>, word: Seq<u8>) -> bool {
    s.len() == word.len() && forall|i: int| 0 <= i < s.len() ==> lower(#[trigger] s[i]) == word[i]
}

/// Index of the first byte of `s`, from `from` on, that is no digit.
pub open spec fn digits_end(s: Seq<u8>, from: int) -> int
    decreases s.len() - from,
{
    if 0 <= from < s.len() && is_digit(s[from]) {
        digits_end(s, from + 1)
    } else {
        from
    }
}

/// An exponent: `e`, an optional sign, at least one digit.
pub open spec fn is_exponent(s: Seq<u8>) -> bool {
    &&& s.len() >= 2
    &&& lower(s[0]) == 101
    &&& ({
        let body = if s[1] == 43 || s[1] == 45 {
            s.skip(2)
        } else {
            s.skip(1)
        };
        body.len() > 0 && all_digits(body)
    })
}

/// What may follow the mantissa: nothing, or an exponent.
pub open spec fn is_tail(s: Seq<u8>) -> bool {
    s.len() == 0 || is_exponent(s)
}

/// An unsigned decimal number: digits with an optional point (at least one
/// digit in all) and an optional exponent.
pub open spec fn is_number(s: Seq<u8>) -> bool {
    let a = digits_end(s, 0);
    if a < s.len() && s[a] == 46 {
        let b = digits_end(s, a + 1);
        (a > 0 || b > a + 1) && is_tail(s.skip(b))
    } else {
        a > 0 && is_tail(s.skip(a))
    }
}

/// A floating-point literal: an optional sign before a number, `inf`,
/// `infinity` or `nan`.
pub open spec fn is_double(s: Seq<u8>) -> bool {
    let body = if s.len() > 0 && (s[0] == 43 || s[0] == 45) {
        s.skip(1)
    } else {
        s
    };
    ||| spells(body, seq![105u8, 110u8, 102u8])
    ||| spells(body, seq![105u8, 110u8, 102u8, 105u8, 110u8, 105u8, 116u8, 121u8])
    ||| spells(body, seq![110u8, 97u8, 110u8])
    ||| is_number(body)
}

/// A floating-point literal, kept as it is written: `1.5` and `1.50` are two
/// literals of one number. Which number a literal stands for is not looked at.
#[derive(Debug, PartialEq, Eq)]
pub struct DoubleText {
    text: Vec<u8>,
}

impl View for DoubleText {
    type V = Seq<u8>;

    closed spec fn view(&self) -> Seq<u8> {
        self.text@
    }
}

impl DoubleText {
    #[verifier::type_invariant]
    spec fn well_formed(self) -> bool {
        is_double(self.text@)
    }

    /// Accepts `s` exactly when it is a floating-point literal.
    pub fn parse(s: &[u8]) -> (r: Option<DoubleText>)
        ensures
            r is Some <==> is_double(s@),
            r matches Some(d) ==> d@ == s@,
    {
        if double_literal(s) {
            Some(DoubleText { text: bytes_to_vec(s) })
        } else {
            None
        }
    }

    /// The literal.
    pub fn as_bytes(&self) -> (r: &[u8])
        ensures
            r@ == self@,
            is_double(r@),
    {
        proof {
            use_type_invariant(self);
        }
        self.text.as_slice()
    }
}

impl Clone for DoubleText {
    fn clone(&self) -> (r: Self)
        ensures
            r@ == self@,
    {
        proof {
            use_type_invariant(self);
        }
        DoubleText { text: bytes_to_vec(self.text.as_slice()) }
    }
}

/// Whether `s` spells `word`, in any letter case.
pub fn spells_word(s: &[u8], word: &[u8]) -> (r: bool)
    ensures
        r == spells(s@, word@),
{
    if s.len() != word.len() {
        return false;
    }
    let mut i: usize = 0;
    while i < s.len()
        invariant
            i <= s@.len(),
            s@.len() == word@.len(),
            forall|j: int| 0 <= j < i ==> lower(#[trigger] s@[j]) == word@[j],
        decreases s@.len() - i,
    {
        if to_lower(s[i]) != word[i] {
            assert(lower(s@[i as int]) != word@[i as int]);
            return false;
        }
        i = i + 1;
    }
    true
}

fn scan_digits(s: &[u8], from: usize) -> (r: usize)
    requires
        from <= s@.len(),
    ensures
        r == digits_end(s@, from as int),
        from <= r <= s@.len(),
{
    let mut i: usize = from;
    while i < s.len() && 48 <= s[i] && s[i] <= 57
        invariant
            from <= i <= s@.len(),
            digits_end(s@, from as int) == digits_end(s@, i as int),
        decreases s@.len() - i,
    {
        i = i + 1;
    }
    i
}

proof fn lemma_digits_end_all(s: Seq<u8>, from: int)
    requires
        0 <= from <= s.len(),
    ensures
        digits_end(s, from) == s.len() <==> all_digits(s.skip(from)),
        from <= digits_end(s, from) <= s.len(),
    decreases s.len() - from,
{
    if from < s.len() {
        assert(s.skip(from)[0] == s[from]);
        if is_digit(s[from]) {
            lemma_digits_end_all(s, from + 1);
            assert forall|i: int| 0 <= i < s.len() - from && all_digits(s.skip(from + 1)) implies is_digit(
            #[trigger] s.skip(from)[i]) by {
                if i > 0 {
                    assert(s.skip(from + 1)[i - 1] == s.skip(from)[i]);
                }
            }
            if all_digits(s.skip(from)) {
                assert forall|i: int| 0 <= i < s.len() - from - 1 implies is_digit(
                #[trigger] s.skip(from + 1)[i]) by {
                    assert(s.skip(from + 1)[i] == s.skip(from)[i + 1]);
                }
            }
        }
    }
}

fn tail_literal(s: &[u8], from: usize) -> (r: bool)
    requires
        from <= s@.len(),
    ensures
        r == is_tail(s@.skip(from as int)),
{
    let n: usize = s.len();
    let ghost t = s@.skip(from as int);
    if from == n {
        return true;
    }
    if n - from < 2 || (s[from] != 101 && s[from] != 69) {
        return false;
    }
    let start: usize = if s[from + 1] == 43 || s[from + 1] == 45 {
        from + 2
    } else {
        from + 1
    };
    proof {
        lemma_digits_end_all(s@, start as int);
        assert(t.skip(start - from) =~= s@.skip(start as int));
    }
    start < n && scan_digits(s, start) == n
}

fn number_literal(s: &[u8], from: usize) -> (r: bool)
    requires
        from <= s@.len(),
    ensures
        r == is_number(s@.skip(from as int)),
{
    let n: usize = s.len();
    let body: &[u8] = vstd::slice::slice_subrange(s, from, n);
    let m: usize = body.len();
    assert(body@ =~= s@.skip(from as int));
    let a: usize = scan_digits(body, 0);
    if a < m && body[a] == 46 {
        let b: usize = scan_digits(body, a + 1);
        (a > 0 || b > a + 1) && tail_literal(body, b)
    } else {
        a > 0 && tail_literal(body, a)
    }
}

fn double_literal(s: &[u8]) -> (r: bool)
    ensures
        r == is_double(s@),
{
    let start: usize = if s.len() > 0 && (s[0] == 43 || s[0] == 45) {
        1
    } else {
        0
    };
    let body: &[u8] = vstd::slice::slice_subrange(s, start, s.len());
    proof {
        assert(s@.skip(0) =~= s@);
        assert(body@ =~= s@.skip(start as int));
        assert([105u8, 110u8, 102u8]@ =~= seq![105u8, 110u8, 102u8]);
        assert([105u8, 110u8, 102u8, 105u8, 110u8, 105u8, 116u8, 121u8]@ =~= seq![
            105u8,
            110u8,
            102u8,
            105u8,
            110u8,
            105u8,
            116u8,
            121u8,
        ]);
        assert([110u8, 97u8, 110u8]@ =~= seq![110u8, 97u8, 110u8]);
    }
    spells_word(body, &[105u8, 110u8, 102u8]) || spells_word(
        body,
        &[105u8, 110u8, 102u8, 105u8, 110u8, 105u8, 116u8, 121u8],
    ) || spells_word(body, &[110u8, 97u8, 110u8]) || number_literal(s, start)
}

/// A literal holds no line break, so it fits on one protocol line.
pub proof fn lemma_double_is_one_line(s: Seq<u8>)
    requires
        is_double(s),
    ensures
        forall|i: int| 0 <= i < s.len() ==> #[trigger] s[i] != 13 && s[i] != 10 && s[i] < 128,
{
    let start: int = if s.len() > 0 && (s[0] == 43 || s[0] == 45) {
        1
    } else {
        0
    };
    let body = s.skip(start);
    assert(s.skip(0) =~= s);
    assert forall|j: int| 0 <= j < body.len() implies #[trigger] body[j] != 13 && body[j] != 10
        && body[j] < 128 by {
        if spells(body, seq![105u8, 110u8, 102u8]) {
            assert(lower(body[j]) == seq![105u8, 110u8, 102u8][j]);
        } else if spells(body, seq![105u8, 110u8, 102u8, 105u8, 110u8, 105u8, 116u8, 121u8]) {
            assert(lower(body[j]) == seq![
                105u8,
                110u8,
                102u8,
                105u8,
                110u8,
                105u8,
                116u8,
                121u8,
            ][j]);
        } else if spells(body, seq![110u8, 97u8, 110u8]) {
            assert(lower(body[j]) == seq![110u8, 97u8, 110u8][j]);
        } else {
            lemma_number_bytes(body, j);
        }
    }
    assert forall|i: int| 0 <= i < s.len() implies #[trigger] s[i] != 13 && s[i] != 10 && s[i]
        < 128 by {
        if i >= start {
            assert(body[i - start] == s[i]);
        }
    }
}

proof fn lemma_digits_before_end(s: Seq<u8>, from: int, j: int)
    requires
        0 <= from <= s.len(),
        from <= j < digits_end(s, from),
    ensures
        j < s.len(),
        is_digit(s[j]),
    decreases s.len() - from,
{
    if from < s.len() && is_digit(s[from]) && j > from {
        lemma_digits_before_end(s, from + 1, j);
    }
}

proof fn lemma_number_bytes(s: Seq<u8>, j: int)
    requires
        is_number(s),
        0 <= j < s.len(),
    ensures
        s[j] != 13 && s[j] != 10 && s[j] < 128,
{
    let a = digits_end(s, 0);
    lemma_digits_end_all(s, 0);
    if j < a {
        lemma_digits_before_end(s, 0, j);
    } else {
        let t: int = if a < s.len() && s[a] == 46 {
            lemma_digits_end_all(s, a + 1);
            digits_end(s, a + 1)
        } else {
            a
        };
        if j < t {
            if j > a {
                lemma_digits_before_end(s, a + 1, j);
            }
        } else {
            let tail = s.skip(t);
            assert(tail[j - t] == s[j]);
            let from: int = if tail[1] == 43 || tail[1] == 45 {
                2
            } else {
                1
            };
            if j - t >= from {
                assert(tail.skip(from)[j - t - from] == s[j]);
            }
        }
    }
}

/// Digits are a number, also with a point before, among or behind them, with an
/// exponent behind them, and with a sign before them.
pub proof fn law_digits_are_doubles(a: Seq<u8>, b: Seq<u8>, e: Seq<u8>)
    requires
        all_digits(a),
        all_digits(b),
        all_digits(e),
    ensures
        a.len() > 0 ==> is_double(a),
        a.len() > 0 ==> is_double(seq![0x2du8] + a) && is_double(seq![0x2bu8] + a),
        a.len() + b.len() > 0 ==> is_double(a + seq![0x2eu8] + b),
        a.len() > 0 && e.len() > 0 ==> is_double(a + seq![0x65u8] + e) && is_double(
            a + seq![0x45u8, 0x2du8] + e,
        ),
        !is_double(seq![0x2eu8]),
        !is_double(Seq::empty()),
        a.len() > 0 ==> !is_double(a + seq![0x65u8]),
{
    let none = Seq::<u8>::empty();
    if a.len() > 0 {
        assert(is_digit(a[0]));
        lemma_digits_end(a, none, 0);
        assert(a + none =~= a);
        assert(a.skip(a.len() as int) =~= none);
        assert((seq![0x2du8] + a).skip(1) =~= a);
        assert((seq![0x2bu8] + a).skip(1) =~= a);
        let cut = a + seq![0x65u8];
        lemma_digits_end(a, seq![0x65u8], 0);
        assert(cut.skip(a.len() as int) =~= seq![0x65u8]);
        assert(cut[0] == a[0]);
        assert(lower(cut[0]) == a[0]);
        assert(!spells(cut, seq![105u8, 110u8, 102u8]));
        assert(!spells(cut, seq![105u8, 110u8, 102u8, 105u8, 110u8, 105u8, 116u8, 121u8]));
        assert(!spells(cut, seq![110u8, 97u8, 110u8]));
        if e.len() > 0 {
            assert(is_digit(e[0]));
            let plain = a + seq![0x65u8] + e;
            lemma_digits_end(a, seq![0x65u8] + e, 0);
            assert(plain =~= a + (seq![0x65u8] + e));
            let tail = plain.skip(a.len() as int);
            assert(tail =~= seq![0x65u8] + e);
            assert(tail[1] == e[0]);
            assert(tail.skip(1) =~= e);
            let minus = a + seq![0x45u8, 0x2du8] + e;
            lemma_digits_end(a, seq![0x45u8, 0x2du8] + e, 0);
            assert(minus =~= a + (seq![0x45u8, 0x2du8] + e));
            let end = minus.skip(a.len() as int);
            assert(end =~= seq![0x45u8, 0x2du8] + e);
            assert(end[1] == 45);
            assert(end.skip(2) =~= e);
            assert(plain[0] == a[0] && minus[0] == a[0]);
        }
    }
    if a.len() + b.len() > 0 {
        let s = a + seq![0x2eu8] + b;
        assert(s =~= a + (seq![0x2eu8] + b));
        lemma_digits_end(a, seq![0x2eu8] + b, 0);
        let head = a + seq![0x2eu8];
        assert(s.skip(head.len() as int) =~= b);
        lemma_digits_from(head, b, 0);
        assert(head + b =~= s);
        assert(s.skip(s.len() as int) =~= none);
        if a.len() > 0 {
            assert(is_digit(a[0]));
            assert(s[0] == a[0]);
        } else {
            assert(s[0] == 0x2e);
        }
    }
    let dot = seq![0x2eu8];
    assert(dot[0] == 46);
    assert(digits_end(dot, 0) == 0);
    assert(digits_end(dot, 1) == 1);
    assert(!spells(dot, seq![105u8, 110u8, 102u8]));
}

proof fn lemma_digits_end(a: Seq<u8>, rest: Seq<u8>, i: int)
    requires
        0 <= i <= a.len(),
        all_digits(a),
        rest.len() > 0 ==> !is_digit(rest[0]),
    ensures
        digits_end(a + rest, i) == a.len(),
    decreases a.len() - i,
{
    let s = a + rest;
    if i < a.len() {
        assert(s[i] == a[i]);
        lemma_digits_end(a, rest, i + 1);
    } else if rest.len() > 0 {
        assert(s[i] == rest[0]);
    }
}

proof fn lemma_digits_from(head: Seq<u8>, b: Seq<u8>, i: int)
    requires
        0 <= i <= b.len(),
        all_digits(b),
    ensures
        digits_end(head + b, head.len() + i) == head.len() + b.len(),
    decreases b.len() - i,
{
    let s = head + b;
    if i < b.len() {
        assert(s[head.len() + i] == b[i]);
        lemma_digits_from(head, b, i + 1);
    }
}

} // verus!
