//! Verbs of the command set, and how many arguments each takes.

use vstd::prelude::*;
use vstd::string::*;
use vstd::utf8::{encode_utf8, is_ascii_chars, is_ascii_chars_encode_utf8};

use crate::protocol::error::ArityHint;
use crate::text::{is_same_word, lower, same_word};

verus! {

/// The first word of a command.
#[derive(Debug, Clone, Copy, PartialEq, Eq, Structural)]
pub enum Verb {
    /// `PING`.
    Ping,
    /// `AUTH`.
    Auth,
    /// `HELLO`.
    Hello,
    /// `QUIT`.
    Quit,
    /// `STATS`.
    Stats,
    /// `DM.PUT`.
    DmPut,
    /// `DM.GET`.
    DmGet,
    /// `DM.DEL`.
    DmDel,
    /// `DM.EXPIRE`.
    DmExpire,
    /// `DM.PEXPIRE`.
    DmPexpire,
    /// `DM.INCR`.
    DmIncr,
    /// `DM.DECR`.
    DmDecr,
    /// `DM.GETPUT`.
    DmGetPut,
    /// `DM.INCRBYFLOAT`.
    DmIncrByFloat,
    /// `DM.DESTROY`.
    DmDestroy,
    /// `DM.SCAN`.
    DmScan,
    /// `INTERNAL.NODE.UPDATEROUTING`.
    NodeUpdateRouting,
    /// `INTERNAL.NODE.PUBLISH`.
    NodePublish,
    /// `INTERNAL.NODE.MOVEFRAGMENT`.
    NodeMoveFragment,
}

/// Bytes of an ASCII word.
pub open spec fn word(w: Seq<char>) -> Seq<u8> {
    encode_utf8(w)
}

/// Canonical spelling of a verb.
pub open spec fn verb_name(v: Verb) -> Seq<char> {
    match v {
        Verb::Ping => "PING"@,
        Verb::Auth => "AUTH"@,
        Verb::Hello => "HELLO"@,
        Verb::Quit => "QUIT"@,
        Verb::Stats => "STATS"@,
        Verb::DmPut => "DM.PUT"@,
        Verb::DmGet => "DM.GET"@,
        Verb::DmDel => "DM.DEL"@,
        Verb::DmExpire => "DM.EXPIRE"@,
        Verb::DmPexpire => "DM.PEXPIRE"@,
        Verb::DmIncr => "DM.INCR"@,
        Verb::DmDecr => "DM.DECR"@,
        Verb::DmGetPut => "DM.GETPUT"@,
        Verb::DmIncrByFloat => "DM.INCRBYFLOAT"@,
        Verb::DmDestroy => "DM.DESTROY"@,
        Verb::DmScan => "DM.SCAN"@,
        Verb::NodeUpdateRouting => "INTERNAL.NODE.UPDATEROUTING"@,
        Verb::NodePublish => "INTERNAL.NODE.PUBLISH"@,
        Verb::NodeMoveFragment => "INTERNAL.NODE.MOVEFRAGMENT"@,
    }
}

/// How many arguments a verb takes.
pub open spec fn verb_arity(v: Verb) -> ArityHint {
    match v {
        Verb::Ping => ArityHint::Range { min: 0, max: 1 },
        Verb::Auth => ArityHint::Range { min: 1, max: 2 },
        Verb::Hello => ArityHint::AtLeast(0),
        Verb::Quit => ArityHint::Exactly(0),
        Verb::Stats => ArityHint::Exactly(0),
        Verb::DmPut => ArityHint::AtLeast(3),
        Verb::DmGet => ArityHint::Exactly(2),
        Verb::DmDel => ArityHint::AtLeast(2),
        Verb::DmExpire => ArityHint::Exactly(3),
        Verb::DmPexpire => ArityHint::Exactly(3),
        Verb::DmIncr => ArityHint::Exactly(3),
        Verb::DmDecr => ArityHint::Exactly(3),
        Verb::DmGetPut => ArityHint::Exactly(3),
        Verb::DmIncrByFloat => ArityHint::Exactly(3),
        Verb::DmDestroy => ArityHint::Exactly(1),
        Verb::DmScan => ArityHint::AtLeast(3),
        Verb::NodeUpdateRouting => ArityHint::Exactly(1),
        Verb::NodePublish => ArityHint::Exactly(2),
        Verb::NodeMoveFragment => ArityHint::Exactly(4),
    }
}

/// The verb that `b` spells, in any letter case.
pub open spec fn verb_of(b: Seq<u8>) -> Option<Verb> {
    if same_word(b, word("PING"@)) {
        Some(Verb::Ping)
    } else if same_word(b, word("AUTH"@)) {
        Some(Verb::Auth)
    } else if same_word(b, word("HELLO"@)) {
        Some(Verb::Hello)
    } else if same_word(b, word("QUIT"@)) {
        Some(Verb::Quit)
    } else if same_word(b, word("STATS"@)) {
        Some(Verb::Stats)
    } else if same_word(b, word("DM.PUT"@)) {
        Some(Verb::DmPut)
    } else if same_word(b, word("DM.GET"@)) {
        Some(Verb::DmGet)
    } else if same_word(b, word("DM.DEL"@)) {
        Some(Verb::DmDel)
    } else if same_word(b, word("DM.EXPIRE"@)) {
        Some(Verb::DmExpire)
    } else if same_word(b, word("DM.PEXPIRE"@)) {
        Some(Verb::DmPexpire)
    } else if same_word(b, word("DM.INCR"@)) {
        Some(Verb::DmIncr)
    } else if same_word(b, word("DM.DECR"@)) {
        Some(Verb::DmDecr)
    } else if same_word(b, word("DM.GETPUT"@)) {
        Some(Verb::DmGetPut)
    } else if same_word(b, word("DM.INCRBYFLOAT"@)) {
        Some(Verb::DmIncrByFloat)
    } else if same_word(b, word("DM.DESTROY"@)) {
        Some(Verb::DmDestroy)
    } else if same_word(b, word("DM.SCAN"@)) {
        Some(Verb::DmScan)
    } else if same_word(b, word("INTERNAL.NODE.UPDATEROUTING"@)) {
        Some(Verb::NodeUpdateRouting)
    } else if same_word(b, word("INTERNAL.NODE.PUBLISH"@)) {
        Some(Verb::NodePublish)
    } else if same_word(b, word("INTERNAL.NODE.MOVEFRAGMENT"@)) {
        Some(Verb::NodeMoveFragment)
    } else {
        None
    }
}

/// Whether `n` arguments meet an arity.
pub open spec fn arity_met(a: ArityHint, n: int) -> bool {
    match a {
        ArityHint::Exactly(k) => n == k,
        ArityHint::AtLeast(k) => n >= k,
        ArityHint::Range { min, max } => min <= n <= max,
    }
}

impl Verb {
    /// Canonical spelling.
    pub fn name(self) -> (r: &'static str)
        ensures
            r@ == verb_name(self),
    {
        match self {
            Verb::Ping => "PING",
            Verb::Auth => "AUTH",
            Verb::Hello => "HELLO",
            Verb::Quit => "QUIT",
            Verb::Stats => "STATS",
            Verb::DmPut => "DM.PUT",
            Verb::DmGet => "DM.GET",
            Verb::DmDel => "DM.DEL",
            Verb::DmExpire => "DM.EXPIRE",
            Verb::DmPexpire => "DM.PEXPIRE",
            Verb::DmIncr => "DM.INCR",
            Verb::DmDecr => "DM.DECR",
            Verb::DmGetPut => "DM.GETPUT",
            Verb::DmIncrByFloat => "DM.INCRBYFLOAT",
            Verb::DmDestroy => "DM.DESTROY",
            Verb::DmScan => "DM.SCAN",
            Verb::NodeUpdateRouting => "INTERNAL.NODE.UPDATEROUTING",
            Verb::NodePublish => "INTERNAL.NODE.PUBLISH",
            Verb::NodeMoveFragment => "INTERNAL.NODE.MOVEFRAGMENT",
        }
    }

    /// How many arguments the verb takes.
    pub fn arity(self) -> (r: ArityHint)
        ensures
            r == verb_arity(self),
    {
        match self {
            Verb::Ping => ArityHint::Range { min: 0, max: 1 },
            Verb::Auth => ArityHint::Range { min: 1, max: 2 },
            Verb::Hello => ArityHint::AtLeast(0),
            Verb::Quit => ArityHint::Exactly(0),
            Verb::Stats => ArityHint::Exactly(0),
            Verb::DmPut => ArityHint::AtLeast(3),
            Verb::DmGet => ArityHint::Exactly(2),
            Verb::DmDel => ArityHint::AtLeast(2),
            Verb::DmExpire => ArityHint::Exactly(3),
            Verb::DmPexpire => ArityHint::Exactly(3),
            Verb::DmIncr => ArityHint::Exactly(3),
            Verb::DmDecr => ArityHint::Exactly(3),
            Verb::DmGetPut => ArityHint::Exactly(3),
            Verb::DmIncrByFloat => ArityHint::Exactly(3),
            Verb::DmDestroy => ArityHint::Exactly(1),
            Verb::DmScan => ArityHint::AtLeast(3),
            Verb::NodeUpdateRouting => ArityHint::Exactly(1),
            Verb::NodePublish => ArityHint::Exactly(2),
            Verb::NodeMoveFragment => ArityHint::Exactly(4),
        }
    }

    /// Whether the verb takes `n` arguments.
    pub fn takes(self, n: usize) -> (r: bool)
        ensures
            r == arity_met(verb_arity(self), n as int),
    {
        match self.arity() {
            ArityHint::Exactly(k) => n == k,
            ArityHint::AtLeast(k) => n >= k,
            ArityHint::Range { min, max } => min <= n && n <= max,
        }
    }

    /// Recognises a verb in any letter case.
    pub fn recognise(b: &[u8]) -> (r: Option<Verb>)
        ensures
            r == verb_of(b@),
    {
        if is_same_word(b, "PING".as_bytes()) {
            Some(Verb::Ping)
        } else if is_same_word(b, "AUTH".as_bytes()) {
            Some(Verb::Auth)
        } else if is_same_word(b, "HELLO".as_bytes()) {
            Some(Verb::Hello)
        } else if is_same_word(b, "QUIT".as_bytes()) {
            Some(Verb::Quit)
        } else if is_same_word(b, "STATS".as_bytes()) {
            Some(Verb::Stats)
        } else if is_same_word(b, "DM.PUT".as_bytes()) {
            Some(Verb::DmPut)
        } else if is_same_word(b, "DM.GET".as_bytes()) {
            Some(Verb::DmGet)
        } else if is_same_word(b, "DM.DEL".as_bytes()) {
            Some(Verb::DmDel)
        } else if is_same_word(b, "DM.EXPIRE".as_bytes()) {
            Some(Verb::DmExpire)
        } else if is_same_word(b, "DM.PEXPIRE".as_bytes()) {
            Some(Verb::DmPexpire)
        } else if is_same_word(b, "DM.INCR".as_bytes()) {
            Some(Verb::DmIncr)
        } else if is_same_word(b, "DM.DECR".as_bytes()) {
            Some(Verb::DmDecr)
        } else if is_same_word(b, "DM.GETPUT".as_bytes()) {
            Some(Verb::DmGetPut)
        } else if is_same_word(b, "DM.INCRBYFLOAT".as_bytes()) {
            Some(Verb::DmIncrByFloat)
        } else if is_same_word(b, "DM.DESTROY".as_bytes()) {
            Some(Verb::DmDestroy)
        } else if is_same_word(b, "DM.SCAN".as_bytes()) {
            Some(Verb::DmScan)
        } else if is_same_word(b, "INTERNAL.NODE.UPDATEROUTING".as_bytes()) {
            Some(Verb::NodeUpdateRouting)
        } else if is_same_word(b, "INTERNAL.NODE.PUBLISH".as_bytes()) {
            Some(Verb::NodePublish)
        } else if is_same_word(b, "INTERNAL.NODE.MOVEFRAGMENT".as_bytes()) {
            Some(Verb::NodeMoveFragment)
        } else {
            None
        }
    }
}

/// The first `n` characters of `w` are ASCII.
pub open spec fn ascii_upto(w: Seq<char>, n: int) -> bool
    decreases n,
{
    n <= 0 || ('\0' <= w[n - 1] <= '\u{7f}' && ascii_upto(w, n - 1))
}

pub proof fn lemma_ascii_upto(w: Seq<char>, n: int)
    requires
        ascii_upto(w, n),
    ensures
        forall|i: int| 0 <= i < n ==> '\0' <= #[trigger] w[i] <= '\u{7f}',
    decreases n,
{
    if n > 0 {
        lemma_ascii_upto(w, n - 1);
    }
}

/// The bytes of an ASCII word are its characters.
pub proof fn lemma_word(w: Seq<char>)
    requires
        is_ascii_chars(w),
    ensures
        word(w).len() == w.len(),
        forall|i: int| 0 <= i < w.len() ==> #[trigger] word(w)[i] == w[i] as u8,
{
    is_ascii_chars_encode_utf8(w);
    assert forall|i: int| 0 <= i < w.len() implies #[trigger] word(w)[i] == w[i] as u8 by {
        assert(w[i] as u8 == encode_utf8(w)[i]);
    }
}

/// Length, first byte and fourth byte of a verb: no two verbs share them.
spec fn shape(b: Seq<u8>) -> (int, u8, u8) {
    (b.len() as int, b[0], b[3])
}

proof fn lemma_verb_shapes()
    ensures
        shape(word("PING"@)) == (4int, 80u8, 71u8),
        shape(word("AUTH"@)) == (4int, 65u8, 72u8),
        shape(word("HELLO"@)) == (5int, 72u8, 76u8),
        shape(word("QUIT"@)) == (4int, 81u8, 84u8),
        shape(word("STATS"@)) == (5int, 83u8, 84u8),
        shape(word("DM.PUT"@)) == (6int, 68u8, 80u8),
        shape(word("DM.GET"@)) == (6int, 68u8, 71u8),
        shape(word("DM.DEL"@)) == (6int, 68u8, 68u8),
        shape(word("DM.EXPIRE"@)) == (9int, 68u8, 69u8),
        shape(word("DM.PEXPIRE"@)) == (10int, 68u8, 80u8),
        shape(word("DM.INCR"@)) == (7int, 68u8, 73u8),
        shape(word("DM.DECR"@)) == (7int, 68u8, 68u8),
        shape(word("DM.GETPUT"@)) == (9int, 68u8, 71u8),
        shape(word("DM.INCRBYFLOAT"@)) == (14int, 68u8, 73u8),
        shape(word("DM.DESTROY"@)) == (10int, 68u8, 68u8),
        shape(word("DM.SCAN"@)) == (7int, 68u8, 83u8),
        shape(word("INTERNAL.NODE.UPDATEROUTING"@)) == (27int, 73u8, 69u8),
        shape(word("INTERNAL.NODE.PUBLISH"@)) == (21int, 73u8, 69u8),
        shape(word("INTERNAL.NODE.MOVEFRAGMENT"@)) == (26int, 73u8, 69u8),
{
    assert(word("PING"@).len() == 4 && word("PING"@)[0] == 80 && word("PING"@)[3] == 71) by {
        reveal_strlit("PING");
        reveal_with_fuel(ascii_upto, 5);
        assert(ascii_upto("PING"@, 4));
        lemma_ascii_upto("PING"@, 4);
        lemma_word("PING"@);
    }
    assert(word("AUTH"@).len() == 4 && word("AUTH"@)[0] == 65 && word("AUTH"@)[3] == 72) by {
        reveal_strlit("AUTH");
        reveal_with_fuel(ascii_upto, 5);
        assert(ascii_upto("AUTH"@, 4));
        lemma_ascii_upto("AUTH"@, 4);
        lemma_word("AUTH"@);
    }
    assert(word("HELLO"@).len() == 5 && word("HELLO"@)[0] == 72 && word("HELLO"@)[3] == 76) by {
        reveal_strlit("HELLO");
        reveal_with_fuel(ascii_upto, 6);
        assert(ascii_upto("HELLO"@, 5));
        lemma_ascii_upto("HELLO"@, 5);
        lemma_word("HELLO"@);
    }
    assert(word("QUIT"@).len() == 4 && word("QUIT"@)[0] == 81 && word("QUIT"@)[3] == 84) by {
        reveal_strlit("QUIT");
        reveal_with_fuel(ascii_upto, 5);
        assert(ascii_upto("QUIT"@, 4));
        lemma_ascii_upto("QUIT"@, 4);
        lemma_word("QUIT"@);
    }
    assert(word("STATS"@).len() == 5 && word("STATS"@)[0] == 83 && word("STATS"@)[3] == 84) by {
        reveal_strlit("STATS");
        reveal_with_fuel(ascii_upto, 6);
        assert(ascii_upto("STATS"@, 5));
        lemma_ascii_upto("STATS"@, 5);
        lemma_word("STATS"@);
    }
    assert(word("DM.PUT"@).len() == 6 && word("DM.PUT"@)[0] == 68 && word("DM.PUT"@)[3] == 80) by {
        reveal_strlit("DM.PUT");
        reveal_with_fuel(ascii_upto, 7);
        assert(ascii_upto("DM.PUT"@, 6));
        lemma_ascii_upto("DM.PUT"@, 6);
        lemma_word("DM.PUT"@);
    }
    assert(word("DM.GET"@).len() == 6 && word("DM.GET"@)[0] == 68 && word("DM.GET"@)[3] == 71) by {
        reveal_strlit("DM.GET");
        reveal_with_fuel(ascii_upto, 7);
        assert(ascii_upto("DM.GET"@, 6));
        lemma_ascii_upto("DM.GET"@, 6);
        lemma_word("DM.GET"@);
    }
    assert(word("DM.DEL"@).len() == 6 && word("DM.DEL"@)[0] == 68 && word("DM.DEL"@)[3] == 68) by {
        reveal_strlit("DM.DEL");
        reveal_with_fuel(ascii_upto, 7);
        assert(ascii_upto("DM.DEL"@, 6));
        lemma_ascii_upto("DM.DEL"@, 6);
        lemma_word("DM.DEL"@);
    }
    assert({
        &&& word("DM.EXPIRE"@).len() == 9
        &&& word("DM.EXPIRE"@)[0] == 68
        &&& word("DM.EXPIRE"@)[3] == 69
    }) by {
        reveal_strlit("DM.EXPIRE");
        reveal_with_fuel(ascii_upto, 10);
        assert(ascii_upto("DM.EXPIRE"@, 9));
        lemma_ascii_upto("DM.EXPIRE"@, 9);
        lemma_word("DM.EXPIRE"@);
    }
    assert({
        &&& word("DM.PEXPIRE"@).len() == 10
        &&& word("DM.PEXPIRE"@)[0] == 68
        &&& word("DM.PEXPIRE"@)[3] == 80
    }) by {
        reveal_strlit("DM.PEXPIRE");
        reveal_with_fuel(ascii_upto, 11);
        assert(ascii_upto("DM.PEXPIRE"@, 10));
        lemma_ascii_upto("DM.PEXPIRE"@, 10);
        lemma_word("DM.PEXPIRE"@);
    }
    assert({
        &&& word("DM.INCR"@).len() == 7
        &&& word("DM.INCR"@)[0] == 68
        &&& word("DM.INCR"@)[3] == 73
    }) by {
        reveal_strlit("DM.INCR");
        reveal_with_fuel(ascii_upto, 8);
        assert(ascii_upto("DM.INCR"@, 7));
        lemma_ascii_upto("DM.INCR"@, 7);
        lemma_word("DM.INCR"@);
    }
    assert({
        &&& word("DM.DECR"@).len() == 7
        &&& word("DM.DECR"@)[0] == 68
        &&& word("DM.DECR"@)[3] == 68
    }) by {
        reveal_strlit("DM.DECR");
        reveal_with_fuel(ascii_upto, 8);
        assert(ascii_upto("DM.DECR"@, 7));
        lemma_ascii_upto("DM.DECR"@, 7);
        lemma_word("DM.DECR"@);
    }
    assert({
        &&& word("DM.GETPUT"@).len() == 9
        &&& word("DM.GETPUT"@)[0] == 68
        &&& word("DM.GETPUT"@)[3] == 71
    }) by {
        reveal_strlit("DM.GETPUT");
        reveal_with_fuel(ascii_upto, 10);
        assert(ascii_upto("DM.GETPUT"@, 9));
        lemma_ascii_upto("DM.GETPUT"@, 9);
        lemma_word("DM.GETPUT"@);
    }
    assert({
        &&& word("DM.INCRBYFLOAT"@).len() == 14
        &&& word("DM.INCRBYFLOAT"@)[0] == 68
        &&& word("DM.INCRBYFLOAT"@)[3] == 73
    }) by {
        reveal_strlit("DM.INCRBYFLOAT");
        reveal_with_fuel(ascii_upto, 15);
        assert(ascii_upto("DM.INCRBYFLOAT"@, 14));
        lemma_ascii_upto("DM.INCRBYFLOAT"@, 14);
        lemma_word("DM.INCRBYFLOAT"@);
    }
    assert({
        &&& word("DM.DESTROY"@).len() == 10
        &&& word("DM.DESTROY"@)[0] == 68
        &&& word("DM.DESTROY"@)[3] == 68
    }) by {
        reveal_strlit("DM.DESTROY");
        reveal_with_fuel(ascii_upto, 11);
        assert(ascii_upto("DM.DESTROY"@, 10));
        lemma_ascii_upto("DM.DESTROY"@, 10);
        lemma_word("DM.DESTROY"@);
    }
    assert({
        &&& word("DM.SCAN"@).len() == 7
        &&& word("DM.SCAN"@)[0] == 68
        &&& word("DM.SCAN"@)[3] == 83
    }) by {
        reveal_strlit("DM.SCAN");
        reveal_with_fuel(ascii_upto, 8);
        assert(ascii_upto("DM.SCAN"@, 7));
        lemma_ascii_upto("DM.SCAN"@, 7);
        lemma_word("DM.SCAN"@);
    }
    assert({
        &&& word("INTERNAL.NODE.UPDATEROUTING"@).len() == 27
        &&& word("INTERNAL.NODE.UPDATEROUTING"@)[0] == 73
        &&& word("INTERNAL.NODE.UPDATEROUTING"@)[3] == 69
    }) by {
        reveal_strlit("INTERNAL.NODE.UPDATEROUTING");
        reveal_with_fuel(ascii_upto, 28);
        assert(ascii_upto("INTERNAL.NODE.UPDATEROUTING"@, 27));
        lemma_ascii_upto("INTERNAL.NODE.UPDATEROUTING"@, 27);
        lemma_word("INTERNAL.NODE.UPDATEROUTING"@);
    }
    assert({
        &&& word("INTERNAL.NODE.PUBLISH"@).len() == 21
        &&& word("INTERNAL.NODE.PUBLISH"@)[0] == 73
        &&& word("INTERNAL.NODE.PUBLISH"@)[3] == 69
    }) by {
        reveal_strlit("INTERNAL.NODE.PUBLISH");
        reveal_with_fuel(ascii_upto, 22);
        assert(ascii_upto("INTERNAL.NODE.PUBLISH"@, 21));
        lemma_ascii_upto("INTERNAL.NODE.PUBLISH"@, 21);
        lemma_word("INTERNAL.NODE.PUBLISH"@);
    }
    assert({
        &&& word("INTERNAL.NODE.MOVEFRAGMENT"@).len() == 26
        &&& word("INTERNAL.NODE.MOVEFRAGMENT"@)[0] == 73
        &&& word("INTERNAL.NODE.MOVEFRAGMENT"@)[3] == 69
    }) by {
        reveal_strlit("INTERNAL.NODE.MOVEFRAGMENT");
        reveal_with_fuel(ascii_upto, 27);
        assert(ascii_upto("INTERNAL.NODE.MOVEFRAGMENT"@, 26));
        lemma_ascii_upto("INTERNAL.NODE.MOVEFRAGMENT"@, 26);
        lemma_word("INTERNAL.NODE.MOVEFRAGMENT"@);
    }
}

proof fn lemma_shapes_differ(a: Seq<u8>, b: Seq<u8>)
    requires
        a.len() >= 4,
        b.len() >= 4,
        shape(a).0 != shape(b).0 || lower(shape(a).1) != lower(shape(b).1) || lower(shape(a).2)
            != lower(shape(b).2),
    ensures
        !same_word(a, b),
{
    if a.len() == b.len() {
        assert(lower(a[0]) != lower(b[0]) || lower(a[3]) != lower(b[3]));
    }
}

/// A verb in its canonical spelling is recognised as itself.
pub proof fn lemma_verb_recognised(v: Verb)
    ensures
        verb_of(word(verb_name(v))) == Some(v),
{
    lemma_verb_shapes();
    let b = word(verb_name(v));
    assert forall|c: Seq<u8>|
        c.len() >= 4 && (shape(b).0 != shape(c).0 || lower(shape(b).1) != lower(shape(c).1)
            || lower(shape(b).2) != lower(shape(c).2)) implies !(#[trigger] same_word(b, c)) by {
        lemma_shapes_differ(b, c);
    }
}

} // verus!
