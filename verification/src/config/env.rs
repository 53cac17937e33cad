//! Environment variables over a configuration.
//!
//! A variable `KAMINO_<SECTION>__<FIELD>` sets one field of one section;
//! `KAMINO_MODE` and `KAMINO_PROFILE` set the mode and the profile. The
//! variables are written out as a TOML fragment, whose values overlay those of
//! the configuration. Variables of unknown sections, and paths deeper than one
//! field, are left out.

use vstd::prelude::*;
use vstd::string::*;

use crate::config::node::{config_fault, Config};
use crate::config::sections::{
    option_text, AuthConfig, BalancerConfig, CoreConfig, DiscoveryConfig, EventsConfig,
    EvictionConfig, EvictionPolicy, HashConfig, NetworkConfig, ReplicationMode, RoutingConfig,
    StorageConfig, SwimConfig,
};
use crate::config::size::ByteSize;
use crate::error::{reports, Error};
use crate::mode::Mode;
use crate::net::IpAddr;
use crate::profile::Profile;
use crate::text::{
    ascii_chars, chars_of, lower_text, parse_signed, push_signed_decimal, signed_decimal,
    signed_numeral, starts_with, str_equal, strip_prefix, text_between, to_lower_text, trim,
    trimmed,
};

verus! {

/// An environment variable.
#[derive(Debug)]
pub struct EnvVar {
    pub key: String,
    pub value: String,
    /// The value as the text of a finite decimal number, where it is one.
    pub float: Option<String>,
}

/// Mathematical value of an [`EnvVar`].
pub ghost struct EnvView {
    pub key: Seq<char>,
    pub value: Seq<char>,
    pub float: Option<Seq<char>>,
}

impl View for EnvVar {
    type V = EnvView;

    open spec fn view(&self) -> EnvView {
        EnvView { key: self.key@, value: self.value@, float: option_text(self.float) }
    }
}

/// Values of a list of variables.
pub open spec fn vars_view(v: Seq<EnvVar>) -> Seq<EnvView> {
    Seq::new(v.len(), |i: int| v[i]@)
}

// ---------------------------------------------------------------------------
// Keys
// ---------------------------------------------------------------------------

/// Prefix of the variables that count.
pub open spec fn prefix() -> Seq<char> {
    "KAMINO_"@
}

/// The variables whose key has the prefix, without it.
pub open spec fn relevant(vars: Seq<EnvView>) -> Seq<EnvView>
    decreases vars.len(),
{
    if vars.len() == 0 {
        Seq::empty()
    } else {
        let front = relevant(vars.drop_last());
        let v = vars.last();
        if starts_with(v.key, prefix()) {
            front.push(EnvView { key: v.key.skip(prefix().len() as int), ..v })
        } else {
            front
        }
    }
}

/// Keeps the variables whose key has the prefix, and takes it off.
pub fn relevant_vars(vars: Vec<EnvVar>) -> (r: Vec<EnvVar>)
    ensures
        vars_view(r@) == relevant(vars_view(vars@)),
{
    let ghost all = vars_view(vars@);
    let mut out: Vec<EnvVar> = Vec::new();
    let mut i: usize = 0;
    assert(vars_view(out@) =~= relevant(all.take(0)));
    while i < vars.len()
        invariant
            i <= vars@.len(),
            all == vars_view(vars@),
            vars_view(out@) == relevant(all.take(i as int)),
        decreases vars@.len() - i,
    {
        proof {
            assert(all.take(i + 1).drop_last() =~= all.take(i as int));
            assert(all.take(i + 1).last() == all[i as int]);
        }
        match strip_prefix(vars[i].key.as_str(), "KAMINO_") {
            Some(key) => {
                let float: Option<String> = match &vars[i].float {
                    Some(f) => Some(f.clone()),
                    None => None,
                };
                let ghost before = vars_view(out@);
                let v: EnvVar = EnvVar { key, value: vars[i].value.clone(), float };
                let ghost added = v@;
                out.push(v);
                assert(vars_view(out@) =~= before.push(added));
            },
            None => {},
        }
        i = i + 1;
    }
    assert(all.take(i as int) =~= all);
    out
}

/// Position of the first double underscore; the length where there is none.
pub open spec fn separator(s: Seq<char>) -> int
    decreases s.len(),
{
    if s.len() < 2 {
        s.len() as int
    } else if s[0] == '_' && s[1] == '_' {
        0
    } else {
        1 + separator(s.skip(1))
    }
}

/// What a key names below its section.
pub ghost enum PathView {
    /// Nothing: the key is a section name.
    Nothing,
    /// A field.
    Field(Seq<char>),
    /// Something deeper.
    Deeper,
}

/// The section that a key names, in lower case.
pub open spec fn section_of(key: Seq<char>) -> Seq<char> {
    lower_text(key.take(separator(key)))
}

/// What a key names below its section.
pub open spec fn path_of(key: Seq<char>) -> PathView {
    let at = separator(key);
    if at >= key.len() {
        PathView::Nothing
    } else {
        let rest = key.skip(at + 2);
        if separator(rest) < rest.len() {
            PathView::Deeper
        } else {
            PathView::Field(lower_text(rest))
        }
    }
}

/// What a key names below its section.
#[derive(Debug)]
enum Path {
    Nothing,
    Field(String),
    Deeper,
}

spec fn path_view(p: Path) -> PathView {
    match p {
        Path::Nothing => PathView::Nothing,
        Path::Field(f) => PathView::Field(f@),
        Path::Deeper => PathView::Deeper,
    }
}

proof fn lemma_separator(s: Seq<char>)
    ensures
        0 <= separator(s) <= s.len(),
        separator(s) < s.len() ==> separator(s) + 2 <= s.len(),
        s.len() == 1 ==> separator(s) == 1,
    decreases s.len(),
{
    if s.len() >= 2 {
        lemma_separator(s.skip(1));
    }
}

fn find_separator(c: &Vec<char>, from: usize) -> (r: usize)
    requires
        from <= c@.len(),
    ensures
        r == from + separator(c@.skip(from as int)),
        from <= r <= c@.len(),
        r < c@.len() ==> r + 2 <= c@.len(),
{
    let n: usize = c.len();
    let mut i: usize = from;
    proof {
        lemma_separator(c@.skip(from as int));
    }
    while n - i >= 2 && !(c[i] == '_' && c[i + 1] == '_')
        invariant
            from <= i <= n,
            n == c@.len(),
            from + separator(c@.skip(from as int)) == i + separator(c@.skip(i as int)),
        decreases n - i,
    {
        assert(c@.skip(i as int).skip(1) =~= c@.skip(i + 1));
        i = i + 1;
    }
    if n - i >= 2 {
        i
    } else {
        n
    }
}

fn split_key(key: &str) -> (r: (String, Path))
    ensures
        r.0@ == section_of(key@),
        path_view(r.1) == path_of(key@),
{
    let c: Vec<char> = chars_of(key);
    assert(c@.skip(0) =~= c@);
    let at: usize = find_separator(&c, 0);
    let head: String = text_between(&c, 0, at);
    assert(head@ =~= key@.take(at as int));
    let section: String = to_lower_text(head.as_str());
    if at >= c.len() {
        return (section, Path::Nothing);
    }
    let next: usize = find_separator(&c, at + 2);
    proof {
        lemma_separator(c@.skip(at + 2));
    }
    if next < c.len() {
        return (section, Path::Deeper);
    }
    let tail: String = text_between(&c, at + 2, c.len());
    assert(tail@ =~= key@.skip(at + 2));
    (section, Path::Field(to_lower_text(tail.as_str())))
}

// ---------------------------------------------------------------------------
// Values
// ---------------------------------------------------------------------------

/// Text of a string as a TOML literal.
pub uninterp spec fn toml_string(s: Seq<char>) -> Seq<char>;

/// `toml::Value::String` and its `to_string`: the string as a TOML literal. A
/// string in which nothing needs an escape stands between double quotes. How
/// others are quoted and escaped is left open, but depends on the string alone.
/// The outside function counts quotes in a row in eight bits; with overflow
/// checks it panics where there are more.
#[verifier::external_body]
fn toml_literal(s: &str) -> (r: String)
    requires
        short_runs(s@),
    ensures
        r@ == toml_string(s@),
        plain(s@) ==> r@ == "\""@ + s@ + "\""@,
{
    toml::Value::String(s.to_string()).to_string()
}

/// Nothing in the text needs an escape in a TOML string: it holds no control
/// character, no double quote and no backslash.
pub open spec fn plain(s: Seq<char>) -> bool {
    forall|i: int|
        0 <= i < s.len() ==> (#[trigger] s[i]) as u32 >= 0x20 && s[i] as u32 != 0x7f && s[i] != '"'
            && s[i] != '\\'
}

/// The text as a TOML string.
pub open spec fn quoted(s: Seq<char>) -> Seq<char> {
    if plain(s) {
        "\""@ + s + "\""@
    } else {
        toml_string(s)
    }
}

/// Number of quotes in a row that is too large for a TOML string.
pub const LONG_RUN: usize = 256;

/// A long run of `c` starts at `i`.
pub open spec fn run_at(s: Seq<char>, c: char, i: int) -> bool {
    &&& 0 <= i
    &&& i + LONG_RUN <= s.len()
    &&& forall|j: int| i <= j < i + LONG_RUN ==> #[trigger] s[j] == c
}

/// The text has no long run of `c`.
pub open spec fn without_run(s: Seq<char>, c: char) -> bool {
    forall|i: int| !#[trigger] run_at(s, c, i)
}

/// The text has no long run of single quotes, and none of double quotes.
pub open spec fn short_runs(s: Seq<char>) -> bool {
    without_run(s, '\'') && without_run(s, '"')
}

fn has_no_run(c: &Vec<char>, q: char) -> (r: bool)
    ensures
        r == without_run(c@, q),
{
    let mut run: usize = 0;
    let mut i: usize = 0;
    while i < c.len()
        invariant
            i <= c@.len(),
            run <= i,
            run < LONG_RUN,
            forall|j: int| i - run <= j < i ==> #[trigger] c@[j] == q,
            run < i ==> c@[i - run - 1] != q,
            forall|k: int| k + LONG_RUN <= i ==> !#[trigger] run_at(c@, q, k),
        decreases c@.len() - i,
    {
        if c[i] == q {
            run = run + 1;
        } else {
            run = 0;
        }
        i = i + 1;
        if run == LONG_RUN {
            assert(run_at(c@, q, i - LONG_RUN));
            return false;
        }
        assert forall|k: int| k + LONG_RUN <= i implies !#[trigger] run_at(c@, q, k) by {
            if k + LONG_RUN == i && k >= 0 {
                assert(c@[i - run - 1] != q);
            }
        }
    }
    true
}

fn has_short_runs(s: &str) -> (r: bool)
    ensures
        r == short_runs(s@),
{
    let c: Vec<char> = chars_of(s);
    has_no_run(&c, '\'') && has_no_run(&c, '"')
}

/// `c` occurs in `s`.
pub open spec fn has_char(s: Seq<char>, c: char) -> bool {
    s.contains(c)
}

/// The value of a variable that reads as a boolean, an integer or a number with
/// a fraction or an exponent.
pub open spec fn bare(v: EnvView) -> Option<Seq<char>> {
    let t = trimmed(v.value);
    let number = signed_numeral(vstd::utf8::encode_utf8(t));
    if lower_text(t) == "true"@ {
        Some("true"@)
    } else if lower_text(t) == "false"@ {
        Some("false"@)
    } else if number is Some && i64::MIN <= number->0 <= i64::MAX {
        Some(ascii_chars(signed_decimal(number->0)))
    } else if has_char(t, '.') || has_char(t, 'e') || has_char(t, 'E') {
        v.float
    } else {
        None
    }
}

/// The value of a variable in TOML: a string where it does not read as a
/// boolean or a number.
pub open spec fn scalar(v: EnvView) -> Seq<char> {
    match bare(v) {
        Some(t) => t,
        None => quoted(v.value),
    }
}

/// The value of a variable can be written: one that becomes a string has no
/// long run of quotes.
pub open spec fn writable(v: EnvView) -> bool {
    bare(v) is None ==> short_runs(v.value)
}

fn bare_value(v: &EnvVar) -> (r: Option<String>)
    ensures
        option_text(r) == bare(v@),
{
    let t: String = trim(v.value.as_str());
    let l: String = to_lower_text(t.as_str());
    if str_equal(l.as_str(), "true") {
        return Some("true".to_owned());
    }
    if str_equal(l.as_str(), "false") {
        return Some("false".to_owned());
    }
    match parse_signed(t.as_str().as_bytes()) {
        Some(n) => {
            let mut out: String = String::new();
            push_signed_decimal(&mut out, n);
            assert(out@ =~= ascii_chars(signed_decimal(n as int)));
            return Some(out);
        },
        None => {},
    }
    let c: Vec<char> = chars_of(t.as_str());
    let mut fraction: bool = false;
    let mut i: usize = 0;
    while i < c.len()
        invariant
            i <= c@.len(),
            fraction == exists|j: int| 0 <= j < i && (c@[j] == '.' || c@[j] == 'e' || c@[j] == 'E'),
        decreases c@.len() - i,
    {
        if c[i] == '.' || c[i] == 'e' || c[i] == 'E' {
            fraction = true;
        }
        i = i + 1;
    }
    proof {
        let s = t@;
        if fraction {
            let j = choose|j: int|
                0 <= j < i && (c@[j] == '.' || c@[j] == 'e' || c@[j] == 'E');
            assert(has_char(s, c@[j]));
        }
        assert(fraction == (has_char(s, '.') || has_char(s, 'e') || has_char(s, 'E')));
    }
    if fraction {
        match &v.float {
            Some(f) => {
                return Some(f.clone());
            },
            None => {},
        }
    }
    None
}

/// The value of a variable in TOML.
pub fn toml_scalar(v: &EnvVar) -> (r: String)
    requires
        writable(v@),
    ensures
        r@ == scalar(v@),
{
    match bare_value(v) {
        Some(t) => t,
        None => toml_literal(v.value.as_str()),
    }
}

/// Whether the value of a variable can be written in TOML.
pub fn is_writable(v: &EnvVar) -> (r: bool)
    ensures
        r == writable(v@),
{
    match bare_value(v) {
        Some(_) => true,
        None => has_short_runs(v.value.as_str()),
    }
}

// ---------------------------------------------------------------------------
// The fragment
// ---------------------------------------------------------------------------

/// How many variables name the section.
pub open spec fn hits(vars: Seq<EnvView>, section: Seq<char>) -> nat
    decreases vars.len(),
{
    if vars.len() == 0 {
        0
    } else {
        hits(vars.drop_last(), section) + if section_of(vars.last().key) == section {
            1nat
        } else {
            0nat
        }
    }
}

/// The last variable that names the section.
pub open spec fn last_hit(vars: Seq<EnvView>, section: Seq<char>) -> EnvView
    decreases vars.len(),
{
    if vars.len() <= 1 || section_of(vars.last().key) == section {
        vars.last()
    } else {
        last_hit(vars.drop_last(), section)
    }
}

/// Line of a top-level value: there is one where exactly one variable names it.
pub open spec fn top_line(vars: Seq<EnvView>, name: Seq<char>) -> Option<Seq<char>> {
    if hits(vars, name) == 1 && path_of(last_hit(vars, name).key) is Nothing {
        Some(name + " = "@ + scalar(last_hit(vars, name)))
    } else {
        None
    }
}

/// Lines of a section, in the order of the variables.
pub open spec fn section_lines(vars: Seq<EnvView>, section: Seq<char>) -> Seq<Seq<char>>
    decreases vars.len(),
{
    if vars.len() == 0 {
        Seq::empty()
    } else {
        let front = section_lines(vars.drop_last(), section);
        let v = vars.last();
        match path_of(v.key) {
            PathView::Field(f) => if section_of(v.key) == section && f.len() > 0 {
                front.push(f + " = "@ + scalar(v))
            } else {
                front
            },
            _ => front,
        }
    }
}

/// The variable gives the line of a top-level value.
pub open spec fn gives_top_line(vars: Seq<EnvView>, v: EnvView, name: Seq<char>) -> bool {
    section_of(v.key) == name && path_of(v.key) is Nothing && hits(vars, name) == 1
}

/// The variable gives a line of a section.
pub open spec fn gives_line(v: EnvView, section: Seq<char>) -> bool {
    &&& section_of(v.key) == section
    &&& path_of(v.key) matches PathView::Field(f)
    &&& f.len() > 0
}

/// The variable gives a line of the fragment.
pub open spec fn written_out(vars: Seq<EnvView>, v: EnvView) -> bool {
    ||| gives_top_line(vars, v, "mode"@)
    ||| gives_top_line(vars, v, "profile"@)
    ||| exists|k: int| 0 <= k < section_names().len() && #[trigger] gives_line(v, section_names()[k])
}

/// Whatever goes into the fragment can be written.
pub open spec fn all_writable(vars: Seq<EnvView>) -> bool {
    forall|i: int|
        0 <= i < vars.len() && written_out(vars, vars[i]) ==> writable(#[trigger] vars[i])
}

/// The pieces, with `sep` between each two.
pub open spec fn joined(pieces: Seq<Seq<char>>, sep: Seq<char>) -> Seq<char>
    decreases pieces.len(),
{
    if pieces.len() == 0 {
        Seq::empty()
    } else if pieces.len() == 1 {
        pieces[0]
    } else {
        joined(pieces.drop_last(), sep) + sep + pieces.last()
    }
}

/// The sections, in the order in which they are written.
pub open spec fn section_names() -> Seq<Seq<char>> {
    seq![
        "auth"@,
        "balancer"@,
        "core"@,
        "discovery"@,
        "events"@,
        "eviction"@,
        "hash"@,
        "network"@,
        "routing"@,
        "storage"@,
        "swim"@,
    ]
}

/// Blocks of the first `n` sections, those without a line left out.
pub open spec fn blocks(vars: Seq<EnvView>, n: int) -> Seq<Seq<char>>
    decreases n,
{
    if n <= 0 {
        Seq::empty()
    } else {
        let front = blocks(vars, n - 1);
        let name = section_names()[n - 1];
        let lines = section_lines(vars, name);
        if lines.len() > 0 {
            front.push("["@ + name + "]\n"@ + joined(lines, "\n"@))
        } else {
            front
        }
    }
}

/// Lines in front of the sections.
pub open spec fn top_lines(vars: Seq<EnvView>) -> Seq<Seq<char>> {
    let mode = match top_line(vars, "mode"@) {
        Some(l) => seq![l],
        None => Seq::empty(),
    };
    match top_line(vars, "profile"@) {
        Some(l) => mode.push(l),
        None => mode,
    }
}

/// The variables as a TOML fragment.
pub open spec fn fragment(vars: Seq<EnvView>) -> Seq<char> {
    let top = top_lines(vars);
    let front = if top.len() > 0 {
        joined(top, "\n"@) + "\n"@
    } else {
        Seq::empty()
    };
    front + joined(blocks(vars, section_names().len() as int), "\n\n"@)
}

spec fn lines_view(v: Seq<String>) -> Seq<Seq<char>> {
    Seq::new(v.len(), |i: int| v[i]@)
}

fn join(pieces: &Vec<String>, sep: &str) -> (r: String)
    ensures
        r@ == joined(lines_view(pieces@), sep@),
{
    let ghost all = lines_view(pieces@);
    let mut out: String = String::new();
    let mut i: usize = 0;
    assert(out@ =~= joined(all.take(0), sep@));
    while i < pieces.len()
        invariant
            i <= pieces@.len(),
            all == lines_view(pieces@),
            out@ == joined(all.take(i as int), sep@),
        decreases pieces@.len() - i,
    {
        proof {
            assert(all.take(i + 1).drop_last() =~= all.take(i as int));
            assert(all.take(i + 1).last() == all[i as int]);
        }
        if i > 0 {
            out.append(sep);
        }
        out.append(pieces[i].as_str());
        proof {
            if i == 0 {
                assert(all.take(1)[0] == all[0]);
                assert(out@ =~= all[0]);
            } else {
                assert(out@ =~= joined(all.take(i as int), sep@) + sep@ + all[i as int]);
            }
        }
        i = i + 1;
    }
    assert(all.take(i as int) =~= all);
    out
}

fn assignment(name: &str, value: &str) -> (r: String)
    ensures
        r@ == name@ + " = "@ + value@,
{
    let mut s: String = name.to_owned();
    s.append(" = ");
    s.append(value);
    s
}

fn find_top_line(vars: &Vec<EnvVar>, name: &str) -> (r: Option<String>)
    requires
        forall|i: int|
            0 <= i < vars@.len() && gives_top_line(
                vars_view(vars@),
                vars@[i]@,
                name@,
            ) ==> writable((#[trigger] vars@[i])@),
    ensures
        option_text(r) == top_line(vars_view(vars@), name@),
{
    let ghost all = vars_view(vars@);
    let mut count: usize = 0;
    let mut at: usize = 0;
    let mut i: usize = 0;
    while i < vars.len()
        invariant
            i <= vars@.len(),
            count <= i,
            all == vars_view(vars@),
            count == hits(all.take(i as int), name@),
            count > 0 ==> at < i && last_hit(all.take(i as int), name@) == all[at as int]
                && section_of(all[at as int].key) == name@,
        decreases vars@.len() - i,
    {
        proof {
            assert(all.take(i + 1).drop_last() =~= all.take(i as int));
            assert(all.take(i + 1).last() == all[i as int]);
        }
        let parts: (String, Path) = split_key(vars[i].key.as_str());
        if str_equal(parts.0.as_str(), name) {
            count = count + 1;
            at = i;
        }
        i = i + 1;
    }
    assert(all.take(i as int) =~= all);
    if count != 1 {
        return None;
    }
    let parts: (String, Path) = split_key(vars[at].key.as_str());
    match parts.1 {
        Path::Nothing => {
            assert(gives_top_line(all, vars@[at as int]@, name@));
            let value: String = toml_scalar(&vars[at]);
            Some(assignment(name, value.as_str()))
        },
        _ => None,
    }
}

fn find_section_lines(vars: &Vec<EnvVar>, section: &str) -> (r: Vec<String>)
    requires
        forall|i: int|
            0 <= i < vars@.len() && gives_line(vars@[i]@, section@) ==> writable(
                (#[trigger] vars@[i])@,
            ),
    ensures
        lines_view(r@) == section_lines(vars_view(vars@), section@),
{
    let ghost all = vars_view(vars@);
    let mut out: Vec<String> = Vec::new();
    let mut i: usize = 0;
    assert(lines_view(out@) =~= section_lines(all.take(0), section@));
    while i < vars.len()
        invariant
            i <= vars@.len(),
            all == vars_view(vars@),
            forall|i: int|
                0 <= i < vars@.len() && gives_line(vars@[i]@, section@) ==> writable(
                    (#[trigger] vars@[i])@,
                ),
            lines_view(out@) == section_lines(all.take(i as int), section@),
        decreases vars@.len() - i,
    {
        proof {
            assert(all.take(i + 1).drop_last() =~= all.take(i as int));
            assert(all.take(i + 1).last() == all[i as int]);
        }
        let parts: (String, Path) = split_key(vars[i].key.as_str());
        match &parts.1 {
            Path::Field(f) => {
                if str_equal(parts.0.as_str(), section) && f.as_str().unicode_len() > 0 {
                    assert(gives_line(vars@[i as int]@, section@));
                    let value: String = toml_scalar(&vars[i]);
                    let line: String = assignment(f.as_str(), value.as_str());
                    let ghost before = lines_view(out@);
                    let ghost added = line@;
                    out.push(line);
                    assert(lines_view(out@) =~= before.push(added));
                }
            },
            _ => {},
        }
        i = i + 1;
    }
    assert(all.take(i as int) =~= all);
    out
}

fn section_name(i: usize) -> (r: &'static str)
    requires
        i < 11,
    ensures
        r@ == section_names()[i as int],
{
    if i == 0 {
        "auth"
    } else if i == 1 {
        "balancer"
    } else if i == 2 {
        "core"
    } else if i == 3 {
        "discovery"
    } else if i == 4 {
        "events"
    } else if i == 5 {
        "eviction"
    } else if i == 6 {
        "hash"
    } else if i == 7 {
        "network"
    } else if i == 8 {
        "routing"
    } else if i == 9 {
        "storage"
    } else {
        "swim"
    }
}

/// Whether a section has this name.
fn is_section(name: &str) -> (r: bool)
    ensures
        r == exists|k: int| 0 <= k < section_names().len() && section_names()[k] == name@,
{
    let mut i: usize = 0;
    while i < 11
        invariant
            i <= 11,
            forall|k: int| 0 <= k < i ==> #[trigger] section_names()[k] != name@,
        decreases 11 - i,
    {
        if str_equal(section_name(i), name) {
            assert(section_names()[i as int] == name@);
            return true;
        }
        i = i + 1;
    }
    assert(section_names().len() == 11);
    false
}

fn count_hits(vars: &Vec<EnvVar>, name: &str) -> (r: usize)
    ensures
        r == hits(vars_view(vars@), name@),
{
    let ghost all = vars_view(vars@);
    let mut count: usize = 0;
    let mut i: usize = 0;
    while i < vars.len()
        invariant
            i <= vars@.len(),
            count <= i,
            all == vars_view(vars@),
            count == hits(all.take(i as int), name@),
        decreases vars@.len() - i,
    {
        proof {
            assert(all.take(i + 1).drop_last() =~= all.take(i as int));
            assert(all.take(i + 1).last() == all[i as int]);
        }
        let parts: (String, Path) = split_key(vars[i].key.as_str());
        if str_equal(parts.0.as_str(), name) {
            count = count + 1;
        }
        i = i + 1;
    }
    assert(all.take(i as int) =~= all);
    count
}

fn is_written_out(vars: &Vec<EnvVar>, v: &EnvVar) -> (r: bool)
    ensures
        r == written_out(vars_view(vars@), v@),
{
    let ghost all = vars_view(vars@);
    let parts: (String, Path) = split_key(v.key.as_str());
    let name: &str = parts.0.as_str();
    match &parts.1 {
        Path::Nothing => (str_equal(name, "mode") || str_equal(name, "profile")) && count_hits(
            vars,
            name,
        ) == 1,
        Path::Field(f) => {
            let r: bool = f.as_str().unicode_len() > 0 && is_section(name);
            proof {
                if r {
                    let k = choose|k: int|
                        0 <= k < section_names().len() && section_names()[k] == name@;
                    assert(gives_line(v@, section_names()[k]));
                }
            }
            r
        },
        Path::Deeper => false,
    }
}

/// Whether the variables can be written out as a TOML fragment.
pub fn can_build_toml(vars: &Vec<EnvVar>) -> (r: bool)
    ensures
        r == all_writable(vars_view(vars@)),
{
    let ghost all = vars_view(vars@);
    let mut i: usize = 0;
    while i < vars.len()
        invariant
            i <= vars@.len(),
            all == vars_view(vars@),
            forall|k: int| 0 <= k < i && written_out(all, all[k]) ==> writable(#[trigger] all[k]),
        decreases vars@.len() - i,
    {
        assert(all[i as int] == vars@[i as int]@);
        if is_written_out(vars, &vars[i]) && !is_writable(&vars[i]) {
            return false;
        }
        i = i + 1;
    }
    true
}

/// Writes the variables out as a TOML fragment.
pub fn build_toml(vars: &Vec<EnvVar>) -> (r: String)
    requires
        all_writable(vars_view(vars@)),
    ensures
        r@ == fragment(vars_view(vars@)),
{
    let ghost all = vars_view(vars@);
    proof {
        assert forall|i: int|
            0 <= i < vars@.len() && written_out(all, vars@[i]@) implies writable(
            (#[trigger] vars@[i])@,
        ) by {
            assert(all[i] == vars@[i]@);
        }
    }
    let mut top: Vec<String> = Vec::new();
    match find_top_line(vars, "mode") {
        Some(l) => {
            top.push(l);
        },
        None => {},
    }
    match find_top_line(vars, "profile") {
        Some(l) => {
            top.push(l);
        },
        None => {},
    }
    assert(lines_view(top@) =~= top_lines(all));
    let mut written: Vec<String> = Vec::new();
    let mut i: usize = 0;
    assert(lines_view(written@) =~= blocks(all, 0));
    while i < 11
        invariant
            i <= 11,
            all == vars_view(vars@),
            forall|i: int|
                0 <= i < vars@.len() && written_out(all, vars@[i]@) ==> writable(
                    (#[trigger] vars@[i])@,
                ),
            lines_view(written@) == blocks(all, i as int),
        decreases 11 - i,
    {
        let name: &'static str = section_name(i);
        proof {
            assert(section_names().len() == 11);
            assert forall|k: int|
                0 <= k < vars@.len() && gives_line(vars@[k]@, name@) implies writable(
                (#[trigger] vars@[k])@,
            ) by {
                assert(gives_line(vars@[k]@, section_names()[i as int]));
            }
        }
        let lines: Vec<String> = find_section_lines(vars, name);
        assert(lines_view(lines@).len() == lines@.len());
        if lines.len() > 0 {
            let mut block: String = "[".to_owned();
            block.append(name);
            block.append("]\n");
            let body: String = join(&lines, "\n");
            block.append(body.as_str());
            let ghost before = lines_view(written@);
            let ghost added = block@;
            written.push(block);
            assert(lines_view(written@) =~= before.push(added));
        }
        i = i + 1;
    }
    let mut out: String = String::new();
    if top.len() > 0 {
        out = join(&top, "\n");
        out.append("\n");
    }
    let rest: String = join(&written, "\n\n");
    let ghost front = out@;
    out.append(rest.as_str());
    assert(section_names().len() == 11);
    assert(out@ =~= fragment(all));
    out
}

// ---------------------------------------------------------------------------
// Overlays
// ---------------------------------------------------------------------------

/// Values that overlay the section [core]; what is `None` stays.
#[derive(Debug)]
pub struct CoreOverlay {
    pub partition_count: Option<u32>,
    pub replica_count: Option<u32>,
    pub write_quorum: Option<u32>,
    pub read_quorum: Option<u32>,
    pub member_count_quorum: Option<u32>,
    pub replication_mode: Option<ReplicationMode>,
    pub read_repair: Option<bool>,
    pub load_factor: Option<u64>,
}

impl CoreOverlay {
    /// An overlay that changes nothing.
    pub fn new() -> (r: Self)
        ensures
            r.partition_count is None,
            r.replica_count is None,
            r.write_quorum is None,
            r.read_quorum is None,
            r.member_count_quorum is None,
            r.replication_mode is None,
            r.read_repair is None,
            r.load_factor is None,
    {
        CoreOverlay {
            partition_count: None,
            replica_count: None,
            write_quorum: None,
            read_quorum: None,
            member_count_quorum: None,
            replication_mode: None,
            read_repair: None,
            load_factor: None,
        }
    }

    /// Puts the values that are there over those of `dst`.
    pub fn merge_into(self, dst: &mut CoreConfig)
        ensures
            coreconfig_merged(self, *old(dst), *final(dst)),
    {
        if let Some(v) = self.partition_count {
            dst.partition_count = v;
        }
        if let Some(v) = self.replica_count {
            dst.replica_count = v;
        }
        if let Some(v) = self.write_quorum {
            dst.write_quorum = v;
        }
        if let Some(v) = self.read_quorum {
            dst.read_quorum = v;
        }
        if let Some(v) = self.member_count_quorum {
            dst.member_count_quorum = v;
        }
        if let Some(v) = self.replication_mode {
            dst.replication_mode = v;
        }
        if let Some(v) = self.read_repair {
            dst.read_repair = v;
        }
        if let Some(v) = self.load_factor {
            dst.load_factor = v;
        }
    }
}

/// `b` is `a` under the overlay, where there is one.
pub open spec fn core_overlaid(o: Option<CoreOverlay>, a: CoreConfig, b: CoreConfig) -> bool {
    match o {
        Some(v) => coreconfig_merged(v, a, b),
        None => b == a,
    }
}

impl CoreOverlay {
    fn merge_optional(overlay: Option<Self>, dst: &mut CoreConfig)
        ensures
            core_overlaid(overlay, *old(dst), *final(dst)),
    {
        if let Some(v) = overlay {
            v.merge_into(dst);
        }
    }
}

/// `b` is `a` under the overlay.
pub open spec fn coreconfig_merged(o: CoreOverlay, a: CoreConfig, b: CoreConfig) -> bool {
    &&& b.partition_count == (match o.partition_count {
        Some(v) => v,
        None => a.partition_count,
    })
    &&& b.replica_count == (match o.replica_count {
        Some(v) => v,
        None => a.replica_count,
    })
    &&& b.write_quorum == (match o.write_quorum {
        Some(v) => v,
        None => a.write_quorum,
    })
    &&& b.read_quorum == (match o.read_quorum {
        Some(v) => v,
        None => a.read_quorum,
    })
    &&& b.member_count_quorum == (match o.member_count_quorum {
        Some(v) => v,
        None => a.member_count_quorum,
    })
    &&& b.replication_mode == (match o.replication_mode {
        Some(v) => v,
        None => a.replication_mode,
    })
    &&& b.read_repair == (match o.read_repair {
        Some(v) => v,
        None => a.read_repair,
    })
    &&& b.load_factor == (match o.load_factor {
        Some(v) => v,
        None => a.load_factor,
    })
    &&& b.virtual_nodes_per_member == a.virtual_nodes_per_member
}

/// Values that overlay the section [network]; what is `None` stays.
#[derive(Debug)]
pub struct NetworkOverlay {
    pub bind_addr: Option<IpAddr>,
    pub bind_port: Option<u16>,
    pub keep_alive_period: Option<u64>,
    pub idle_close: Option<u64>,
}

impl NetworkOverlay {
    /// An overlay that changes nothing.
    pub fn new() -> (r: Self)
        ensures
            r.bind_addr is None,
            r.bind_port is None,
            r.keep_alive_period is None,
            r.idle_close is None,
    {
        NetworkOverlay {
            bind_addr: None,
            bind_port: None,
            keep_alive_period: None,
            idle_close: None,
        }
    }

    /// Puts the values that are there over those of `dst`.
    pub fn merge_into(self, dst: &mut NetworkConfig)
        ensures
            networkconfig_merged(self, *old(dst), *final(dst)),
    {
        if let Some(v) = self.bind_addr {
            dst.bind_addr = v;
        }
        if let Some(v) = self.bind_port {
            dst.bind_port = v;
        }
        if let Some(v) = self.keep_alive_period {
            dst.keep_alive_period = v;
        }
        if let Some(v) = self.idle_close {
            dst.idle_close = v;
        }
    }
}

/// `b` is `a` under the overlay, where there is one.
pub open spec fn network_overlaid(
    o: Option<NetworkOverlay>,
    a: NetworkConfig,
    b: NetworkConfig,
) -> bool {
    match o {
        Some(v) => networkconfig_merged(v, a, b),
        None => b == a,
    }
}

impl NetworkOverlay {
    fn merge_optional(overlay: Option<Self>, dst: &mut NetworkConfig)
        ensures
            network_overlaid(overlay, *old(dst), *final(dst)),
    {
        if let Some(v) = overlay {
            v.merge_into(dst);
        }
    }
}

/// `b` is `a` under the overlay.
pub open spec fn networkconfig_merged(
    o: NetworkOverlay,
    a: NetworkConfig,
    b: NetworkConfig,
) -> bool {
    &&& b.bind_addr == (match o.bind_addr {
        Some(v) => v,
        None => a.bind_addr,
    })
    &&& b.bind_port == (match o.bind_port {
        Some(v) => v,
        None => a.bind_port,
    })
    &&& b.keep_alive_period == (match o.keep_alive_period {
        Some(v) => v,
        None => a.keep_alive_period,
    })
    &&& b.idle_close == (match o.idle_close {
        Some(v) => v,
        None => a.idle_close,
    })
    &&& b.internode_pool_size == a.internode_pool_size
    &&& b.internode_inflight_per_conn == a.internode_inflight_per_conn
    &&& b.internode_connect_timeout == a.internode_connect_timeout
    &&& b.internode_request_timeout == a.internode_request_timeout
    &&& b.internode_reconnect_backoff_min == a.internode_reconnect_backoff_min
    &&& b.internode_reconnect_backoff_max == a.internode_reconnect_backoff_max
    &&& b.multi_key_strict == a.multi_key_strict
}

/// Values that overlay the section [auth]; what is `None` stays.
#[derive(Debug)]
pub struct AuthOverlay {
    pub password: Option<String>,
    pub cluster_secret: Option<String>,
}

impl AuthOverlay {
    /// An overlay that changes nothing.
    pub fn new() -> (r: Self)
        ensures
            r.password is None,
            r.cluster_secret is None,
    {
        AuthOverlay { password: None, cluster_secret: None }
    }

    /// Puts the values that are there over those of `dst`.
    pub fn merge_into(self, dst: &mut AuthConfig)
        ensures
            authconfig_merged(self, *old(dst), *final(dst)),
    {
        if let Some(v) = self.password {
            dst.password = v;
        }
        if let Some(v) = self.cluster_secret {
            dst.cluster_secret = v;
        }
    }
}

/// `b` is `a` under the overlay, where there is one.
pub open spec fn auth_overlaid(o: Option<AuthOverlay>, a: AuthConfig, b: AuthConfig) -> bool {
    match o {
        Some(v) => authconfig_merged(v, a, b),
        None => b == a,
    }
}

impl AuthOverlay {
    fn merge_optional(overlay: Option<Self>, dst: &mut AuthConfig)
        ensures
            auth_overlaid(overlay, *old(dst), *final(dst)),
    {
        if let Some(v) = overlay {
            v.merge_into(dst);
        }
    }
}

/// `b` is `a` under the overlay.
pub open spec fn authconfig_merged(o: AuthOverlay, a: AuthConfig, b: AuthConfig) -> bool {
    &&& b.password == (match o.password {
        Some(v) => v,
        None => a.password,
    })
    &&& b.cluster_secret == (match o.cluster_secret {
        Some(v) => v,
        None => a.cluster_secret,
    })
}

/// Values that overlay the section [discovery]; what is `None` stays.
#[derive(Debug)]
pub struct DiscoveryOverlay {
    pub bind_addr: Option<IpAddr>,
    pub bind_port: Option<u16>,
    pub max_join_attempts: Option<u32>,
    pub join_retry_interval: Option<u64>,
    pub bootstrap_timeout: Option<u64>,
    pub leave_timeout: Option<u64>,
    pub plugin: Option<String>,
    pub include_not_ready: Option<bool>,
}

impl DiscoveryOverlay {
    /// An overlay that changes nothing.
    pub fn new() -> (r: Self)
        ensures
            r.bind_addr is None,
            r.bind_port is None,
            r.max_join_attempts is None,
            r.join_retry_interval is None,
            r.bootstrap_timeout is None,
            r.leave_timeout is None,
            r.plugin is None,
            r.include_not_ready is None,
    {
        DiscoveryOverlay {
            bind_addr: None,
            bind_port: None,
            max_join_attempts: None,
            join_retry_interval: None,
            bootstrap_timeout: None,
            leave_timeout: None,
            plugin: None,
            include_not_ready: None,
        }
    }

    /// Puts the values that are there over those of `dst`.
    pub fn merge_into(self, dst: &mut DiscoveryConfig)
        ensures
            discoveryconfig_merged(self, *old(dst), *final(dst)),
    {
        if let Some(v) = self.bind_addr {
            dst.bind_addr = v;
        }
        if let Some(v) = self.bind_port {
            dst.bind_port = v;
        }
        if let Some(v) = self.max_join_attempts {
            dst.max_join_attempts = v;
        }
        if let Some(v) = self.join_retry_interval {
            dst.join_retry_interval = v;
        }
        if let Some(v) = self.bootstrap_timeout {
            dst.bootstrap_timeout = v;
        }
        if let Some(v) = self.leave_timeout {
            dst.leave_timeout = v;
        }
        if let Some(v) = self.plugin {
            dst.plugin = Some(v);
        }
        if let Some(v) = self.include_not_ready {
            dst.include_not_ready = v;
        }
    }
}

/// `b` is `a` under the overlay, where there is one.
pub open spec fn discovery_overlaid(
    o: Option<DiscoveryOverlay>,
    a: DiscoveryConfig,
    b: DiscoveryConfig,
) -> bool {
    match o {
        Some(v) => discoveryconfig_merged(v, a, b),
        None => b == a,
    }
}

impl DiscoveryOverlay {
    fn merge_optional(overlay: Option<Self>, dst: &mut DiscoveryConfig)
        ensures
            discovery_overlaid(overlay, *old(dst), *final(dst)),
    {
        if let Some(v) = overlay {
            v.merge_into(dst);
        }
    }
}

/// `b` is `a` under the overlay.
pub open spec fn discoveryconfig_merged(
    o: DiscoveryOverlay,
    a: DiscoveryConfig,
    b: DiscoveryConfig,
) -> bool {
    &&& b.bind_addr == (match o.bind_addr {
        Some(v) => v,
        None => a.bind_addr,
    })
    &&& b.bind_port == (match o.bind_port {
        Some(v) => v,
        None => a.bind_port,
    })
    &&& b.peers == a.peers
    &&& b.max_join_attempts == (match o.max_join_attempts {
        Some(v) => v,
        None => a.max_join_attempts,
    })
    &&& b.join_retry_interval == (match o.join_retry_interval {
        Some(v) => v,
        None => a.join_retry_interval,
    })
    &&& b.bootstrap_timeout == (match o.bootstrap_timeout {
        Some(v) => v,
        None => a.bootstrap_timeout,
    })
    &&& b.leave_timeout == (match o.leave_timeout {
        Some(v) => v,
        None => a.leave_timeout,
    })
    &&& b.plugin == (match o.plugin {
        Some(v) => Some(v),
        None => a.plugin,
    })
    &&& b.include_not_ready == (match o.include_not_ready {
        Some(v) => v,
        None => a.include_not_ready,
    })
}

/// Values that overlay the section [swim]; what is `None` stays.
#[derive(Debug)]
pub struct SwimOverlay {
    pub probe_interval: Option<u64>,
    pub probe_timeout: Option<u64>,
    pub indirect_probes: Option<u32>,
    pub suspicion_multiplier: Option<u32>,
}

impl SwimOverlay {
    /// An overlay that changes nothing.
    pub fn new() -> (r: Self)
        ensures
            r.probe_interval is None,
            r.probe_timeout is None,
            r.indirect_probes is None,
            r.suspicion_multiplier is None,
    {
        SwimOverlay {
            probe_interval: None,
            probe_timeout: None,
            indirect_probes: None,
            suspicion_multiplier: None,
        }
    }

    /// Puts the values that are there over those of `dst`.
    pub fn merge_into(self, dst: &mut SwimConfig)
        ensures
            swimconfig_merged(self, *old(dst), *final(dst)),
    {
        if let Some(v) = self.probe_interval {
            dst.probe_interval = v;
        }
        if let Some(v) = self.probe_timeout {
            dst.probe_timeout = v;
        }
        if let Some(v) = self.indirect_probes {
            dst.indirect_probes = v;
        }
        if let Some(v) = self.suspicion_multiplier {
            dst.suspicion_multiplier = v;
        }
    }
}

/// `b` is `a` under the overlay, where there is one.
pub open spec fn swim_overlaid(o: Option<SwimOverlay>, a: SwimConfig, b: SwimConfig) -> bool {
    match o {
        Some(v) => swimconfig_merged(v, a, b),
        None => b == a,
    }
}

impl SwimOverlay {
    fn merge_optional(overlay: Option<Self>, dst: &mut SwimConfig)
        ensures
            swim_overlaid(overlay, *old(dst), *final(dst)),
    {
        if let Some(v) = overlay {
            v.merge_into(dst);
        }
    }
}

/// `b` is `a` under the overlay.
pub open spec fn swimconfig_merged(o: SwimOverlay, a: SwimConfig, b: SwimConfig) -> bool {
    &&& b.probe_interval == (match o.probe_interval {
        Some(v) => v,
        None => a.probe_interval,
    })
    &&& b.probe_timeout == (match o.probe_timeout {
        Some(v) => v,
        None => a.probe_timeout,
    })
    &&& b.indirect_probes == (match o.indirect_probes {
        Some(v) => v,
        None => a.indirect_probes,
    })
    &&& b.suspicion_multiplier == (match o.suspicion_multiplier {
        Some(v) => v,
        None => a.suspicion_multiplier,
    })
}

/// Values that overlay the section [storage]; what is `None` stays.
#[derive(Debug)]
pub struct StorageOverlay {
    pub engine: Option<String>,
    pub table_size: Option<ByteSize>,
    pub max_garbage_ratio: Option<u64>,
    pub trigger_compaction_interval: Option<u64>,
}

impl StorageOverlay {
    /// An overlay that changes nothing.
    pub fn new() -> (r: Self)
        ensures
            r.engine is None,
            r.table_size is None,
            r.max_garbage_ratio is None,
            r.trigger_compaction_interval is None,
    {
        StorageOverlay {
            engine: None,
            table_size: None,
            max_garbage_ratio: None,
            trigger_compaction_interval: None,
        }
    }

    /// Puts the values that are there over those of `dst`.
    pub fn merge_into(self, dst: &mut StorageConfig)
        ensures
            storageconfig_merged(self, *old(dst), *final(dst)),
    {
        if let Some(v) = self.engine {
            dst.engine = v;
        }
        if let Some(v) = self.table_size {
            dst.table_size = v;
        }
        if let Some(v) = self.max_garbage_ratio {
            dst.max_garbage_ratio = v;
        }
        if let Some(v) = self.trigger_compaction_interval {
            dst.trigger_compaction_interval = v;
        }
    }
}

/// `b` is `a` under the overlay, where there is one.
pub open spec fn storage_overlaid(
    o: Option<StorageOverlay>,
    a: StorageConfig,
    b: StorageConfig,
) -> bool {
    match o {
        Some(v) => storageconfig_merged(v, a, b),
        None => b == a,
    }
}

impl StorageOverlay {
    fn merge_optional(overlay: Option<Self>, dst: &mut StorageConfig)
        ensures
            storage_overlaid(overlay, *old(dst), *final(dst)),
    {
        if let Some(v) = overlay {
            v.merge_into(dst);
        }
    }
}

/// `b` is `a` under the overlay.
pub open spec fn storageconfig_merged(
    o: StorageOverlay,
    a: StorageConfig,
    b: StorageConfig,
) -> bool {
    &&& b.engine == (match o.engine {
        Some(v) => v,
        None => a.engine,
    })
    &&& b.table_size == (match o.table_size {
        Some(v) => v,
        None => a.table_size,
    })
    &&& b.max_garbage_ratio == (match o.max_garbage_ratio {
        Some(v) => v,
        None => a.max_garbage_ratio,
    })
    &&& b.trigger_compaction_interval == (match o.trigger_compaction_interval {
        Some(v) => v,
        None => a.trigger_compaction_interval,
    })
}

/// Values that overlay the section [eviction]; what is `None` stays.
#[derive(Debug)]
pub struct EvictionOverlay {
    pub num_workers: Option<u32>,
    pub policy: Option<EvictionPolicy>,
    pub lru_samples: Option<u32>,
}

impl EvictionOverlay {
    /// An overlay that changes nothing.
    pub fn new() -> (r: Self)
        ensures
            r.num_workers is None,
            r.policy is None,
            r.lru_samples is None,
    {
        EvictionOverlay { num_workers: None, policy: None, lru_samples: None }
    }

    /// Puts the values that are there over those of `dst`.
    pub fn merge_into(self, dst: &mut EvictionConfig)
        ensures
            evictionconfig_merged(self, *old(dst), *final(dst)),
    {
        if let Some(v) = self.num_workers {
            dst.num_workers = v;
        }
        if let Some(v) = self.policy {
            dst.policy = v;
        }
        if let Some(v) = self.lru_samples {
            dst.lru_samples = v;
        }
    }
}

/// `b` is `a` under the overlay, where there is one.
pub open spec fn eviction_overlaid(
    o: Option<EvictionOverlay>,
    a: EvictionConfig,
    b: EvictionConfig,
) -> bool {
    match o {
        Some(v) => evictionconfig_merged(v, a, b),
        None => b == a,
    }
}

impl EvictionOverlay {
    fn merge_optional(overlay: Option<Self>, dst: &mut EvictionConfig)
        ensures
            eviction_overlaid(overlay, *old(dst), *final(dst)),
    {
        if let Some(v) = overlay {
            v.merge_into(dst);
        }
    }
}

/// `b` is `a` under the overlay.
pub open spec fn evictionconfig_merged(
    o: EvictionOverlay,
    a: EvictionConfig,
    b: EvictionConfig,
) -> bool {
    &&& b.num_workers == (match o.num_workers {
        Some(v) => v,
        None => a.num_workers,
    })
    &&& b.policy == (match o.policy {
        Some(v) => v,
        None => a.policy,
    })
    &&& b.lru_samples == (match o.lru_samples {
        Some(v) => v,
        None => a.lru_samples,
    })
}

/// Values that overlay the section [balancer]; what is `None` stays.
#[derive(Debug)]
pub struct BalancerOverlay {
    pub trigger_interval: Option<u64>,
}

impl BalancerOverlay {
    /// An overlay that changes nothing.
    pub fn new() -> (r: Self)
        ensures
            r.trigger_interval is None,
    {
        BalancerOverlay { trigger_interval: None }
    }

    /// Puts the values that are there over those of `dst`.
    pub fn merge_into(self, dst: &mut BalancerConfig)
        ensures
            balancerconfig_merged(self, *old(dst), *final(dst)),
    {
        if let Some(v) = self.trigger_interval {
            dst.trigger_interval = v;
        }
    }
}

/// `b` is `a` under the overlay, where there is one.
pub open spec fn balancer_overlaid(
    o: Option<BalancerOverlay>,
    a: BalancerConfig,
    b: BalancerConfig,
) -> bool {
    match o {
        Some(v) => balancerconfig_merged(v, a, b),
        None => b == a,
    }
}

impl BalancerOverlay {
    fn merge_optional(overlay: Option<Self>, dst: &mut BalancerConfig)
        ensures
            balancer_overlaid(overlay, *old(dst), *final(dst)),
    {
        if let Some(v) = overlay {
            v.merge_into(dst);
        }
    }
}

/// `b` is `a` under the overlay.
pub open spec fn balancerconfig_merged(
    o: BalancerOverlay,
    a: BalancerConfig,
    b: BalancerConfig,
) -> bool {
    &&& b.trigger_interval == (match o.trigger_interval {
        Some(v) => v,
        None => a.trigger_interval,
    })
}

/// Values that overlay the section [routing]; what is `None` stays.
#[derive(Debug)]
pub struct RoutingOverlay {
    pub push_interval: Option<u64>,
    pub check_empty_fragments_interval: Option<u64>,
}

impl RoutingOverlay {
    /// An overlay that changes nothing.
    pub fn new() -> (r: Self)
        ensures
            r.push_interval is None,
            r.check_empty_fragments_interval is None,
    {
        RoutingOverlay { push_interval: None, check_empty_fragments_interval: None }
    }

    /// Puts the values that are there over those of `dst`.
    pub fn merge_into(self, dst: &mut RoutingConfig)
        ensures
            routingconfig_merged(self, *old(dst), *final(dst)),
    {
        if let Some(v) = self.push_interval {
            dst.push_interval = v;
        }
        if let Some(v) = self.check_empty_fragments_interval {
            dst.check_empty_fragments_interval = v;
        }
    }
}

/// `b` is `a` under the overlay, where there is one.
pub open spec fn routing_overlaid(
    o: Option<RoutingOverlay>,
    a: RoutingConfig,
    b: RoutingConfig,
) -> bool {
    match o {
        Some(v) => routingconfig_merged(v, a, b),
        None => b == a,
    }
}

impl RoutingOverlay {
    fn merge_optional(overlay: Option<Self>, dst: &mut RoutingConfig)
        ensures
            routing_overlaid(overlay, *old(dst), *final(dst)),
    {
        if let Some(v) = overlay {
            v.merge_into(dst);
        }
    }
}

/// `b` is `a` under the overlay.
pub open spec fn routingconfig_merged(
    o: RoutingOverlay,
    a: RoutingConfig,
    b: RoutingConfig,
) -> bool {
    &&& b.push_interval == (match o.push_interval {
        Some(v) => v,
        None => a.push_interval,
    })
    &&& b.check_empty_fragments_interval == (match o.check_empty_fragments_interval {
        Some(v) => v,
        None => a.check_empty_fragments_interval,
    })
}

/// Values that overlay the section [events]; what is `None` stays.
#[derive(Debug)]
pub struct EventsOverlay {
    pub enable_cluster_events_channel: Option<bool>,
}

impl EventsOverlay {
    /// An overlay that changes nothing.
    pub fn new() -> (r: Self)
        ensures
            r.enable_cluster_events_channel is None,
    {
        EventsOverlay { enable_cluster_events_channel: None }
    }

    /// Puts the values that are there over those of `dst`.
    pub fn merge_into(self, dst: &mut EventsConfig)
        ensures
            eventsconfig_merged(self, *old(dst), *final(dst)),
    {
        if let Some(v) = self.enable_cluster_events_channel {
            dst.enable_cluster_events_channel = v;
        }
    }
}

/// `b` is `a` under the overlay, where there is one.
pub open spec fn events_overlaid(
    o: Option<EventsOverlay>,
    a: EventsConfig,
    b: EventsConfig,
) -> bool {
    match o {
        Some(v) => eventsconfig_merged(v, a, b),
        None => b == a,
    }
}

impl EventsOverlay {
    fn merge_optional(overlay: Option<Self>, dst: &mut EventsConfig)
        ensures
            events_overlaid(overlay, *old(dst), *final(dst)),
    {
        if let Some(v) = overlay {
            v.merge_into(dst);
        }
    }
}

/// `b` is `a` under the overlay.
pub open spec fn eventsconfig_merged(o: EventsOverlay, a: EventsConfig, b: EventsConfig) -> bool {
    &&& b.enable_cluster_events_channel == (match o.enable_cluster_events_channel {
        Some(v) => v,
        None => a.enable_cluster_events_channel,
    })
}

/// Values that overlay the section [hash]; what is `None` stays.
#[derive(Debug)]
pub struct HashOverlay {
    pub function: Option<String>,
}

impl HashOverlay {
    /// An overlay that changes nothing.
    pub fn new() -> (r: Self)
        ensures
            r.function is None,
    {
        HashOverlay { function: None }
    }

    /// Puts the values that are there over those of `dst`.
    pub fn merge_into(self, dst: &mut HashConfig)
        ensures
            hashconfig_merged(self, *old(dst), *final(dst)),
    {
        if let Some(v) = self.function {
            dst.function = v;
        }
    }
}

/// `b` is `a` under the overlay, where there is one.
pub open spec fn hash_overlaid(o: Option<HashOverlay>, a: HashConfig, b: HashConfig) -> bool {
    match o {
        Some(v) => hashconfig_merged(v, a, b),
        None => b == a,
    }
}

impl HashOverlay {
    fn merge_optional(overlay: Option<Self>, dst: &mut HashConfig)
        ensures
            hash_overlaid(overlay, *old(dst), *final(dst)),
    {
        if let Some(v) = overlay {
            v.merge_into(dst);
        }
    }
}

/// `b` is `a` under the overlay.
pub open spec fn hashconfig_merged(o: HashOverlay, a: HashConfig, b: HashConfig) -> bool {
    &&& b.function == (match o.function {
        Some(v) => v,
        None => a.function,
    })
}

/// Values that overlay a configuration; what is `None` stays.
#[derive(Debug)]
pub struct ConfigOverlay {
    pub mode: Option<Mode>,
    pub profile: Option<Profile>,
    pub core: Option<CoreOverlay>,
    pub network: Option<NetworkOverlay>,
    pub auth: Option<AuthOverlay>,
    pub discovery: Option<DiscoveryOverlay>,
    pub swim: Option<SwimOverlay>,
    pub storage: Option<StorageOverlay>,
    pub eviction: Option<EvictionOverlay>,
    pub balancer: Option<BalancerOverlay>,
    pub routing: Option<RoutingOverlay>,
    pub events: Option<EventsOverlay>,
    pub hash: Option<HashOverlay>,
}

/// `b` is `a` under the overlay.
pub open spec fn config_merged(o: ConfigOverlay, a: Config, b: Config) -> bool {
    &&& b.mode == (match o.mode {
        Some(v) => v,
        None => a.mode,
    })
    &&& b.profile == (match o.profile {
        Some(v) => v,
        None => a.profile,
    })
    &&& core_overlaid(o.core, a.core, b.core)
    &&& network_overlaid(o.network, a.network, b.network)
    &&& auth_overlaid(o.auth, a.auth, b.auth)
    &&& discovery_overlaid(o.discovery, a.discovery, b.discovery)
    &&& swim_overlaid(o.swim, a.swim, b.swim)
    &&& storage_overlaid(o.storage, a.storage, b.storage)
    &&& eviction_overlaid(o.eviction, a.eviction, b.eviction)
    &&& balancer_overlaid(o.balancer, a.balancer, b.balancer)
    &&& routing_overlaid(o.routing, a.routing, b.routing)
    &&& events_overlaid(o.events, a.events, b.events)
    &&& hash_overlaid(o.hash, a.hash, b.hash)
    &&& b.dmaps == a.dmaps
}

impl ConfigOverlay {
    /// An overlay that changes nothing.
    pub fn new() -> (r: Self)
        ensures
            r.mode is None,
            r.profile is None,
            r.core is None,
            r.network is None,
            r.auth is None,
            r.discovery is None,
            r.swim is None,
            r.storage is None,
            r.eviction is None,
            r.balancer is None,
            r.routing is None,
            r.events is None,
            r.hash is None,
    {
        ConfigOverlay {
            mode: None,
            profile: None,
            core: None,
            network: None,
            auth: None,
            discovery: None,
            swim: None,
            storage: None,
            eviction: None,
            balancer: None,
            routing: None,
            events: None,
            hash: None,
        }
    }

    /// Puts the values that are there over those of `cfg`.
    pub fn merge_into(self, cfg: &mut Config)
        ensures
            config_merged(self, *old(cfg), *final(cfg)),
    {
        cfg.mode = match self.mode {
            Some(v) => v,
            None => cfg.mode,
        };
        cfg.profile = match self.profile {
            Some(v) => v,
            None => cfg.profile,
        };
        CoreOverlay::merge_optional(self.core, &mut cfg.core);
        NetworkOverlay::merge_optional(self.network, &mut cfg.network);
        AuthOverlay::merge_optional(self.auth, &mut cfg.auth);
        DiscoveryOverlay::merge_optional(self.discovery, &mut cfg.discovery);
        SwimOverlay::merge_optional(self.swim, &mut cfg.swim);
        StorageOverlay::merge_optional(self.storage, &mut cfg.storage);
        EvictionOverlay::merge_optional(self.eviction, &mut cfg.eviction);
        BalancerOverlay::merge_optional(self.balancer, &mut cfg.balancer);
        RoutingOverlay::merge_optional(self.routing, &mut cfg.routing);
        EventsOverlay::merge_optional(self.events, &mut cfg.events);
        HashOverlay::merge_optional(self.hash, &mut cfg.hash);
    }
}

impl Config {
    /// Puts an overlay over the configuration and checks the outcome.
    pub fn apply_overlay(&mut self, overlay: ConfigOverlay) -> (r: Result<(), Error>)
        ensures
            config_merged(overlay, *old(self), *final(self)),
            reports(r, config_fault(*final(self))),
    {
        overlay.merge_into(self);
        self.validate()
    }
}

/// An overlay that changes nothing leaves a configuration as it is.
pub proof fn law_empty_overlay_changes_nothing(o: ConfigOverlay, a: Config, b: Config)
    requires
        o.mode is None,
        o.profile is None,
        o.core is None,
        o.network is None,
        o.auth is None,
        o.discovery is None,
        o.swim is None,
        o.storage is None,
        o.eviction is None,
        o.balancer is None,
        o.routing is None,
        o.events is None,
        o.hash is None,
        config_merged(o, a, b),
    ensures
        b == a,
{
}

} // verus!
