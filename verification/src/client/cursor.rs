//! Scanning a map.

use vstd::prelude::*;
use vstd::string::*;

use crate::client::error::Error;
use crate::text::{bytes_to_vec, chars_of, find_char, position_of};

verus! {

/// Options of a scan.
#[derive(Debug)]
pub struct ScanOptions {
    /// About how many keys come with one round trip.
    pub count: Option<usize>,
    /// Pattern that the keys have to match.
    pub match_pattern: Option<String>,
}

impl Default for ScanOptions {
    fn default() -> (r: Self)
        ensures
            r.count is None,
            r.match_pattern is None,
    {
        ScanOptions { count: None, match_pattern: None }
    }
}

/// A key and its value.
pub ghost struct PairView {
    pub key: Seq<char>,
    pub value: Seq<u8>,
}

/// Values of a list of pairs.
pub open spec fn found_view(s: Seq<(String, Vec<u8>)>) -> Seq<PairView> {
    Seq::new(s.len(), |i: int| PairView { key: s[i].0@, value: s[i].1@ })
}

/// What a scan hands out, pair by pair.
pub trait ScanCursor {
    /// What is still to come.
    spec fn left(&self) -> Seq<PairView>;

    /// The next pair; `None` once all have been handed out.
    fn next(&mut self) -> (r: Result<Option<(String, Vec<u8>)>, Error>)
        ensures
            match r {
                Ok(None) => old(self).left().len() == 0 && final(self).left() == old(self).left(),
                Ok(Some(p)) => {
                    &&& old(self).left().len() > 0
                    &&& p.0@ == old(self).left()[0].key
                    &&& p.1@ == old(self).left()[0].value
                    &&& final(self).left() == old(self).left().skip(1)
                },
                Err(_) => true,
            },
    ;

    /// Lets go of what the scan holds elsewhere.
    fn close(&mut self) -> Result<(), Error>;
}

/// The outcome of a scan that is all here.
#[derive(Debug)]
pub struct BufferedCursor {
    rest: Vec<(String, Vec<u8>)>,
}

impl View for BufferedCursor {
    type V = Seq<PairView>;

    /// What is still to come.
    closed spec fn view(&self) -> Seq<PairView> {
        found_view(self.rest@)
    }
}

impl BufferedCursor {
    /// A cursor over these pairs.
    pub fn new(items: Vec<(String, Vec<u8>)>) -> (r: Self)
        ensures
            r@ == found_view(items@),
    {
        BufferedCursor { rest: items }
    }
}

impl ScanCursor for BufferedCursor {
    open spec fn left(&self) -> Seq<PairView> {
        self@
    }

    fn next(&mut self) -> (r: Result<Option<(String, Vec<u8>)>, Error>)
        ensures
            r is Ok,
    {
        if self.rest.len() == 0 {
            return Ok(None);
        }
        let ghost before = self@;
        assert(before[0] == (PairView { key: self.rest@[0].0@, value: self.rest@[0].1@ }));
        let p: (String, Vec<u8>) = self.rest.remove(0);
        assert(self@ =~= before.skip(1));
        Ok(Some(p))
    }

    fn close(&mut self) -> (r: Result<(), Error>)
        ensures
            r is Ok,
            final(self)@ == old(self)@,
    {
        Ok(())
    }
}

/// Of the first `n` pairs, those that were found, in order.
pub open spec fn kept(pairs: Seq<PairView>, hits: Seq<bool>, n: int) -> Seq<PairView>
    decreases n,
{
    if n <= 0 {
        Seq::empty()
    } else {
        let front = kept(pairs, hits, n - 1);
        if hits[n - 1] {
            front.push(pairs[n - 1])
        } else {
            front
        }
    }
}

/// Keeps the pairs that were found. `hits[i]` says so of the `i`-th.
pub fn keep_found(pairs: &Vec<(String, Vec<u8>)>, hits: &Vec<bool>) -> (r: Vec<(String, Vec<u8>)>)
    requires
        hits@.len() == pairs@.len(),
    ensures
        found_view(r@) == kept(found_view(pairs@), hits@, pairs@.len() as int),
{
    let ghost all = found_view(pairs@);
    let mut out: Vec<(String, Vec<u8>)> = Vec::new();
    let mut i: usize = 0;
    assert(found_view(out@) =~= Seq::empty());
    while i < pairs.len()
        invariant
            i <= pairs@.len(),
            hits@.len() == pairs@.len(),
            all == found_view(pairs@),
            found_view(out@) == kept(all, hits@, i as int),
        decreases pairs@.len() - i,
    {
        if hits[i] {
            let ghost before = found_view(out@);
            out.push((pairs[i].0.clone(), bytes_to_vec(pairs[i].1.as_slice())));
            assert(found_view(out@) =~= before.push(all[i as int]));
        }
        i = i + 1;
    }
    out
}

/// What is kept of the first `n` pairs depends on these alone.
pub proof fn lemma_kept(a: Seq<PairView>, b: Seq<PairView>, x: Seq<bool>, y: Seq<bool>, n: int)
    requires
        n <= a.len(),
        n <= b.len(),
        n <= x.len(),
        n <= y.len(),
        forall|i: int| 0 <= i < n ==> #[trigger] a[i] == b[i],
        forall|i: int| 0 <= i < n ==> #[trigger] x[i] == y[i],
    ensures
        kept(a, x, n) == kept(b, y, n),
    decreases n,
{
    if n > 0 {
        lemma_kept(a, b, x, y, n - 1);
        assert(a[n - 1] == b[n - 1]);
        assert(x[n - 1] == y[n - 1]);
    }
}

/// The character has a meaning in regular expressions, and none in patterns.
pub open spec fn is_meta(c: char) -> bool {
    c == '.' || c == '+' || c == '(' || c == ')' || c == '|' || c == '^' || c == '$' || c == '{'
        || c == '}' || c == '\\'
}

/// A pattern as a regular expression, without the anchors: a star becomes any
/// run of characters, a question mark any one of them, a class is taken over as
/// it is, and what has a meaning in regular expressions alone is escaped.
pub open spec fn regex_body(p: Seq<char>) -> Seq<char>
    decreases p.len(),
{
    if p.len() == 0 {
        Seq::empty()
    } else if p[0] == '*' {
        ".*"@ + regex_body(p.skip(1))
    } else if p[0] == '?' {
        "."@ + regex_body(p.skip(1))
    } else if p[0] == '[' {
        let close = find_char(p, ']', 1);
        if 1 <= close < p.len() {
            p.take(close + 1) + regex_body(p.skip(close + 1))
        } else {
            p
        }
    } else if is_meta(p[0]) {
        seq!['\\', p[0]] + regex_body(p.skip(1))
    } else {
        seq![p[0]] + regex_body(p.skip(1))
    }
}

/// A pattern as a regular expression.
pub open spec fn regex_of(p: Seq<char>) -> Seq<char> {
    seq!['^'] + regex_body(p) + seq!['$']
}

proof fn lemma_find_char_skip(s: Seq<char>, x: char, i: int, k: int)
    requires
        0 <= i,
        0 <= k,
        i + k <= s.len(),
    ensures
        find_char(s, x, i + k) == i + find_char(s.skip(i), x, k),
    decreases s.len() - i - k,
{
    if i + k < s.len() && s[i + k] != x {
        lemma_find_char_skip(s, x, i, k + 1);
    }
}

/// Turns a pattern (`*`, `?`, `[abc]`) into a regular expression that is
/// anchored at both ends.
pub fn glob_to_regex(pattern: &str) -> (r: String)
    ensures
        r@ == regex_of(pattern@),
{
    let c: Vec<char> = chars_of(pattern);
    let n: usize = c.len();
    let mut out: String = String::new();
    out.push('^');
    let mut i: usize = 0;
    assert(c@.skip(0) =~= c@);
    assert(out@ + regex_body(c@.skip(0)) =~= seq!['^'] + regex_body(c@));
    while i < n
        invariant
            i <= n,
            n == c@.len(),
            c@ == pattern@,
            out@ + regex_body(c@.skip(i as int)) == seq!['^'] + regex_body(c@),
        decreases n - i,
    {
        let ghost rest = c@.skip(i as int);
        let ghost before = out@;
        let x: char = c[i];
        assert(rest[0] == x);
        assert(rest.skip(1) =~= c@.skip(i + 1));
        if x == '*' {
            out.append(".*");
            assert(before + regex_body(rest) =~= out@ + regex_body(c@.skip(i + 1)));
            i = i + 1;
        } else if x == '?' {
            out.append(".");
            assert(before + regex_body(rest) =~= out@ + regex_body(c@.skip(i + 1)));
            i = i + 1;
        } else if x == '[' {
            let close: usize = position_of(&c, ']', i + 1);
            proof {
                lemma_find_char_skip(c@, ']', i as int, 1);
            }
            let end: usize = if close < n {
                close + 1
            } else {
                n
            };
            let mut k: usize = i;
            assert(c@.subrange(i as int, i as int) =~= Seq::empty());
            while k < end
                invariant
                    i <= k <= end <= n,
                    n == c@.len(),
                    out@ == before + c@.subrange(i as int, k as int),
                decreases end - k,
            {
                out.push(c[k]);
                assert(c@.subrange(i as int, k + 1) =~= c@.subrange(i as int, k as int).push(
                    c@[k as int],
                ));
                k = k + 1;
            }
            proof {
                assert(rest.skip(end - i) =~= c@.skip(end as int));
                assert(rest.take(end - i) =~= c@.subrange(i as int, end as int));
                if close >= n {
                    assert(rest.take(end - i) =~= rest);
                    assert(c@.skip(end as int) =~= Seq::empty());
                }
                assert(before + regex_body(rest) =~= out@ + regex_body(c@.skip(end as int)));
            }
            i = end;
        } else if x == '.' || x == '+' || x == '(' || x == ')' || x == '|' || x == '^' || x == '$'
            || x == '{' || x == '}' || x == '\\' {
            out.push('\\');
            out.push(x);
            assert(before + regex_body(rest) =~= out@ + regex_body(c@.skip(i + 1)));
            i = i + 1;
        } else {
            out.push(x);
            assert(before + regex_body(rest) =~= out@ + regex_body(c@.skip(i + 1)));
            i = i + 1;
        }
    }
    assert(c@.skip(n as int) =~= Seq::empty());
    assert(out@ =~= seq!['^'] + regex_body(c@));
    out.push('$');
    assert(out@ =~= regex_of(pattern@));
    out
}

/// What `regex::Regex::new` says of a regular expression that it refuses; `None`
/// where it takes it.
pub uninterp spec fn regex_fault(pattern: Seq<char>) -> Option<Seq<char>>;

/// `regex::Regex::new`: whether it takes a regular expression, and the words in
/// which it refuses one, depend on the expression alone.
#[verifier::external_body]
pub(crate) fn regex_refusal(pattern: &str) -> (r: Option<String>)
    ensures
        r is Some <==> regex_fault(pattern@) is Some,
        r matches Some(m) ==> Some(m@) == regex_fault(pattern@),
{
    regex::Regex::new(pattern).err().map(|e| e.to_string())
}

/// Whether `regex::Regex::is_match` finds the regular expression in the text.
pub uninterp spec fn regex_matches(pattern: Seq<char>, text: Seq<char>) -> bool;

/// `regex::Regex::is_match`: whether a regular expression occurs in a text
/// depends on the two alone.
#[verifier::external_body]
pub(crate) fn regex_found(pattern: &str, text: &str) -> (r: bool)
    requires
        regex_fault(pattern@) is None,
    ensures
        r == regex_matches(pattern@, text@),
{
    regex::Regex::new(pattern).is_ok_and(|re| re.is_match(text))
}

} // verus!
