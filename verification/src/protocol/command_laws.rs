//! Parsing is the inverse of encoding on every command that can be sent.

use vstd::prelude::*;
use vstd::string::*;

use crate::protocol::command::{
    arguments, body_of, command_of, command_words, expiry_count, flag_words, frame_of, hello_of,
    hello_options, hello_words, is_word, no_put_options, opt_int, option_words, partition_type_of,
    put_options, put_words, scan_options, scan_words, signed_at, unsigned_at, verb_for, words_of,
    CommandView, PartitionType, PutCommandOptions, ScanView,
};
use crate::protocol::double::is_double;
use crate::protocol::error::CommandErrorView;
use crate::protocol::frame::FrameView;
use crate::protocol::hello::HelloView;
use crate::protocol::verb::{
    arity_met, ascii_upto, lemma_ascii_upto, lemma_verb_recognised, lemma_word, verb_arity,
    verb_name, verb_of, word, Verb,
};
use crate::text::{
    decimal, is_digit, lemma_decimal, lemma_signed_decimal, lower, same_word, signed_decimal,
};

verus! {

/// A command that can be sent: its options do not exclude each other, there is
/// a key to delete, and a float delta is a literal.
pub open spec fn sendable(c: CommandView) -> bool {
    match c {
        CommandView::DmPut { options, .. } => !(options.nx && options.xx) && expiry_count(options)
            <= 1,
        CommandView::DmDel { keys, .. } => keys.len() >= 1,
        CommandView::DmIncrByFloat { delta, .. } => is_double(delta),
        _ => true,
    }
}

proof fn lemma_keywords()
    ensures
        word("NX"@).len() == 2 && word("NX"@)[0] == 78,
        word("XX"@).len() == 2 && word("XX"@)[0] == 88,
        word("EX"@).len() == 2 && word("EX"@)[0] == 69,
        word("PX"@).len() == 2 && word("PX"@)[0] == 80,
        word("TS"@).len() == 2 && word("TS"@)[0] == 84,
        word("EXAT"@).len() == 4 && word("EXAT"@)[0] == 69,
        word("PXAT"@).len() == 4 && word("PXAT"@)[0] == 80,
        word("MATCH"@).len() == 5 && word("MATCH"@)[0] == 77,
        word("COUNT"@).len() == 5 && word("COUNT"@)[0] == 67,
        word("AUTH"@).len() == 4 && word("AUTH"@)[0] == 65,
        word("SETNAME"@).len() == 7 && word("SETNAME"@)[0] == 83,
        word("PRIMARY"@).len() == 7 && word("PRIMARY"@)[0] == 80,
        word("BACKUP"@).len() == 6 && word("BACKUP"@)[0] == 66,
{
    assert(word("NX"@).len() == 2 && word("NX"@)[0] == 78) by {
        reveal_strlit("NX");
        reveal_with_fuel(ascii_upto, 3);
        assert(ascii_upto("NX"@, 2));
        lemma_ascii_upto("NX"@, 2);
        lemma_word("NX"@);
    }
    assert(word("XX"@).len() == 2 && word("XX"@)[0] == 88) by {
        reveal_strlit("XX");
        reveal_with_fuel(ascii_upto, 3);
        assert(ascii_upto("XX"@, 2));
        lemma_ascii_upto("XX"@, 2);
        lemma_word("XX"@);
    }
    assert(word("EX"@).len() == 2 && word("EX"@)[0] == 69) by {
        reveal_strlit("EX");
        reveal_with_fuel(ascii_upto, 3);
        assert(ascii_upto("EX"@, 2));
        lemma_ascii_upto("EX"@, 2);
        lemma_word("EX"@);
    }
    assert(word("PX"@).len() == 2 && word("PX"@)[0] == 80) by {
        reveal_strlit("PX");
        reveal_with_fuel(ascii_upto, 3);
        assert(ascii_upto("PX"@, 2));
        lemma_ascii_upto("PX"@, 2);
        lemma_word("PX"@);
    }
    assert(word("TS"@).len() == 2 && word("TS"@)[0] == 84) by {
        reveal_strlit("TS");
        reveal_with_fuel(ascii_upto, 3);
        assert(ascii_upto("TS"@, 2));
        lemma_ascii_upto("TS"@, 2);
        lemma_word("TS"@);
    }
    assert(word("EXAT"@).len() == 4 && word("EXAT"@)[0] == 69) by {
        reveal_strlit("EXAT");
        reveal_with_fuel(ascii_upto, 5);
        assert(ascii_upto("EXAT"@, 4));
        lemma_ascii_upto("EXAT"@, 4);
        lemma_word("EXAT"@);
    }
    assert(word("PXAT"@).len() == 4 && word("PXAT"@)[0] == 80) by {
        reveal_strlit("PXAT");
        reveal_with_fuel(ascii_upto, 5);
        assert(ascii_upto("PXAT"@, 4));
        lemma_ascii_upto("PXAT"@, 4);
        lemma_word("PXAT"@);
    }
    assert(word("MATCH"@).len() == 5 && word("MATCH"@)[0] == 77) by {
        reveal_strlit("MATCH");
        reveal_with_fuel(ascii_upto, 6);
        assert(ascii_upto("MATCH"@, 5));
        lemma_ascii_upto("MATCH"@, 5);
        lemma_word("MATCH"@);
    }
    assert(word("COUNT"@).len() == 5 && word("COUNT"@)[0] == 67) by {
        reveal_strlit("COUNT");
        reveal_with_fuel(ascii_upto, 6);
        assert(ascii_upto("COUNT"@, 5));
        lemma_ascii_upto("COUNT"@, 5);
        lemma_word("COUNT"@);
    }
    assert(word("AUTH"@).len() == 4 && word("AUTH"@)[0] == 65) by {
        reveal_strlit("AUTH");
        reveal_with_fuel(ascii_upto, 5);
        assert(ascii_upto("AUTH"@, 4));
        lemma_ascii_upto("AUTH"@, 4);
        lemma_word("AUTH"@);
    }
    assert(word("SETNAME"@).len() == 7 && word("SETNAME"@)[0] == 83) by {
        reveal_strlit("SETNAME");
        reveal_with_fuel(ascii_upto, 8);
        assert(ascii_upto("SETNAME"@, 7));
        lemma_ascii_upto("SETNAME"@, 7);
        lemma_word("SETNAME"@);
    }
    assert(word("PRIMARY"@).len() == 7 && word("PRIMARY"@)[0] == 80) by {
        reveal_strlit("PRIMARY");
        reveal_with_fuel(ascii_upto, 8);
        assert(ascii_upto("PRIMARY"@, 7));
        lemma_ascii_upto("PRIMARY"@, 7);
        lemma_word("PRIMARY"@);
    }
    assert(word("BACKUP"@).len() == 6 && word("BACKUP"@)[0] == 66) by {
        reveal_strlit("BACKUP");
        reveal_with_fuel(ascii_upto, 7);
        assert(ascii_upto("BACKUP"@, 6));
        lemma_ascii_upto("BACKUP"@, 6);
        lemma_word("BACKUP"@);
    }
}

proof fn lemma_different(a: Seq<u8>, b: Seq<u8>)
    requires
        a.len() > 0,
        b.len() > 0,
        a.len() != b.len() || lower(a[0]) != lower(b[0]),
    ensures
        !same_word(a, b),
{
    if a.len() == b.len() {
        assert(lower(a[0]) != lower(b[0]));
    }
}

/// Words of one option, put before `rest`, are read first.
proof fn lemma_numbered_option(w: Seq<char>, v: int, rest: Seq<Seq<u8>>)
    ensures
        ({
            let a = option_words(w, Some(v)) + rest;
            &&& a.len() == rest.len() + 2
            &&& a[0] == word(w)
            &&& a[1] == signed_decimal(v)
            &&& a.skip(2) == rest
            &&& i64::MIN <= v <= i64::MAX ==> signed_at(a, 1) == Some(v)
            &&& forall|max: int| 0 <= v <= max ==> #[trigger] unsigned_at(a, 1, max) == Some(v)
        }),
{
    let a = option_words(w, Some(v)) + rest;
    assert(a.skip(2) =~= rest);
    lemma_signed_decimal(v);
}

proof fn lemma_no_option(w: Seq<char>, rest: Seq<Seq<u8>>)
    ensures
        option_words(w, None) + rest == rest,
        flag_words(w, false) + rest == rest,
{
    assert(option_words(w, None) + rest =~= rest);
    assert(flag_words(w, false) + rest =~= rest);
}

proof fn lemma_flag(w: Seq<char>, rest: Seq<Seq<u8>>)
    ensures
        (flag_words(w, true) + rest)[0] == word(w),
        (flag_words(w, true) + rest).skip(1) == rest,
{
    assert((flag_words(w, true) + rest).skip(1) =~= rest);
}

/// The options of a put read back as written.
#[verifier::rlimit(60)]
proof fn lemma_put_options(o: PutCommandOptions)
    ensures
        put_options(put_words(o), no_put_options()) == Ok::<PutCommandOptions, CommandErrorView>(o),
{
    lemma_keywords();
    assert forall|a: Seq<u8>, b: Seq<u8>|
        a.len() > 0 && b.len() > 0 && (a.len() != b.len() || lower(a[0]) != lower(
            b[0],
        )) implies !(#[trigger] same_word(a, b)) by {
        lemma_different(a, b);
    }
    let ts = option_words(
        "TS"@,
        match o.timestamp {
            Some(v) => Some(v as int),
            None => None,
        },
    );
    let xx = flag_words("XX"@, o.xx) + ts;
    let nx = flag_words("NX"@, o.nx) + xx;
    let pxat = option_words("PXAT"@, opt_int(o.pxat)) + nx;
    let exat = option_words("EXAT"@, opt_int(o.exat)) + pxat;
    let px = option_words("PX"@, opt_int(o.px)) + exat;
    let ex = option_words("EX"@, opt_int(o.ex)) + px;
    let o0 = no_put_options();
    let o1 = PutCommandOptions { ex: o.ex, ..o0 };
    let o2 = PutCommandOptions { px: o.px, ..o1 };
    let o3 = PutCommandOptions { exat: o.exat, ..o2 };
    let o4 = PutCommandOptions { pxat: o.pxat, ..o3 };
    let o5 = PutCommandOptions { nx: o.nx, ..o4 };
    let o6 = PutCommandOptions { xx: o.xx, ..o5 };
    assert(put_options(ts, o6) == Ok::<PutCommandOptions, CommandErrorView>(o)) by {
        match o.timestamp {
            Some(v) => {
                let none = Seq::<Seq<u8>>::empty();
                assert(ts + none =~= ts);
                lemma_numbered_option("TS"@, v as int, none);
                assert(put_options(none, o) == Ok::<PutCommandOptions, CommandErrorView>(o));
            },
            None => {},
        }
    }
    assert(put_options(xx, o5) == put_options(ts, o6)) by {
        if o.xx {
            lemma_flag("XX"@, ts);
        } else {
            lemma_no_option("XX"@, ts);
        }
    }
    assert(put_options(nx, o4) == put_options(xx, o5)) by {
        if o.nx {
            lemma_flag("NX"@, xx);
        } else {
            lemma_no_option("NX"@, xx);
        }
    }
    assert(put_options(pxat, o3) == put_options(nx, o4)) by {
        match o.pxat {
            Some(v) => {
                lemma_numbered_option("PXAT"@, v as int, nx);
                assert(unsigned_at(pxat, 1, u64::MAX as int) == Some(v as int));
            },
            None => {
                lemma_no_option("PXAT"@, nx);
            },
        }
    }
    assert(put_options(exat, o2) == put_options(pxat, o3)) by {
        match o.exat {
            Some(v) => {
                lemma_numbered_option("EXAT"@, v as int, pxat);
                assert(unsigned_at(exat, 1, u64::MAX as int) == Some(v as int));
            },
            None => {
                lemma_no_option("EXAT"@, pxat);
            },
        }
    }
    assert(put_options(px, o1) == put_options(exat, o2)) by {
        match o.px {
            Some(v) => {
                lemma_numbered_option("PX"@, v as int, exat);
                assert(unsigned_at(px, 1, u64::MAX as int) == Some(v as int));
            },
            None => {
                lemma_no_option("PX"@, exat);
            },
        }
    }
    assert(put_options(ex, o0) == put_options(px, o1)) by {
        match o.ex {
            Some(v) => {
                lemma_numbered_option("EX"@, v as int, px);
                assert(unsigned_at(ex, 1, u64::MAX as int) == Some(v as int));
            },
            None => {
                lemma_no_option("EX"@, px);
            },
        }
    }
}

proof fn lemma_scan_options(o: ScanView)
    ensures
        scan_options(scan_words(o), ScanView { match_pattern: None, count: None }) == Ok::<
            ScanView,
            CommandErrorView,
        >(o),
{
    lemma_keywords();
    lemma_different(word("COUNT"@), word("MATCH"@));
    let none = Seq::<Seq<u8>>::empty();
    let empty = ScanView { match_pattern: None, count: None };
    let mid = ScanView { match_pattern: o.match_pattern, count: None };
    let count = option_words(
        "COUNT"@,
        match o.count {
            Some(v) => Some(v as int),
            None => None,
        },
    );
    assert(scan_options(none, o) == Ok::<ScanView, CommandErrorView>(o));
    assert(scan_options(count, mid) == Ok::<ScanView, CommandErrorView>(o)) by {
        match o.count {
            Some(v) => {
                assert(count + none =~= count);
                lemma_numbered_option("COUNT"@, v as int, none);
                assert(unsigned_at(count, 1, u32::MAX as int) == Some(v as int));
            },
            None => {},
        }
    }
    match o.match_pattern {
        Some(p) => {
            let a = seq![word("MATCH"@), p] + count;
            assert(a.skip(2) =~= count);
            assert(a[0] == word("MATCH"@) && a[1] == p);
            assert(scan_words(o) == a);
        },
        None => {
            assert(scan_words(o) =~= count);
        },
    }
}

proof fn lemma_hello(h: HelloView)
    ensures
        hello_of(arguments(CommandView::Hello(h))) == Ok::<HelloView, CommandErrorView>(h),
{
    lemma_keywords();
    lemma_different(word("SETNAME"@), word("AUTH"@));
    let none = Seq::<Seq<u8>>::empty();
    let h0 = HelloView { protocol_version: h.protocol_version, auth: None, client_name: None };
    let h1 = HelloView { auth: h.auth, ..h0 };
    let name = match h.client_name {
        Some(n) => seq![word("SETNAME"@), n],
        None => none,
    };
    assert(hello_options(none, h) == Ok::<HelloView, CommandErrorView>(h));
    assert(hello_options(name, h1) == Ok::<HelloView, CommandErrorView>(h)) by {
        if h.client_name is Some {
            assert(name.skip(2) =~= none);
        }
    }
    let words = hello_words(h);
    assert(hello_options(words, h0) == Ok::<HelloView, CommandErrorView>(h)) by {
        match h.auth {
            Some((None, p)) => {
                assert(words.skip(2) =~= name);
                assert(words[0] == word("AUTH"@) && words[1] == p);
            },
            Some((Some(u), p)) => {
                assert(words.skip(3) =~= name);
                assert(words[0] == word("AUTH"@) && words[1] == u && words[2] == p);
            },
            None => {
                assert(words =~= name);
            },
        }
    }
    let a = arguments(CommandView::Hello(h));
    match h.protocol_version {
        Some(v) => {
            assert(a.skip(1) =~= words);
            assert(a[0] == decimal(v as nat));
            lemma_decimal(v as nat);
            assert(is_digit(decimal(v as nat)[0]));
            lemma_different(a[0], word("AUTH"@));
            lemma_different(a[0], word("SETNAME"@));
            lemma_signed_decimal(v as int);
            assert(unsigned_at(a, 0, u32::MAX as int) == Some(v as int));
        },
        None => {
            assert(a =~= words);
            assert(a.len() == 0 || a[0] == word("AUTH"@) || a[0] == word("SETNAME"@));
        },
    }
}

proof fn lemma_number_word(a: Seq<Seq<u8>>, i: int, n: int)
    requires
        0 <= i < a.len(),
        a[i] == signed_decimal(n),
    ensures
        i64::MIN <= n <= i64::MAX ==> signed_at(a, i) == Some(n),
        forall|max: int| 0 <= n <= max ==> #[trigger] unsigned_at(a, i, max) == Some(n),
{
    lemma_signed_decimal(n);
}

/// The arguments of a command are read back as that command.
#[verifier::rlimit(60)]
proof fn lemma_body(c: CommandView)
    requires
        sendable(c),
    ensures
        body_of(verb_for(c), arguments(c)) == Ok::<CommandView, CommandErrorView>(c),
{
    let a = arguments(c);
    match c {
        CommandView::Hello(h) => {
            lemma_hello(h);
        },
        CommandView::DmPut { dmap, key, value, options } => {
            lemma_put_options(options);
            assert(a.skip(3) =~= put_words(options));
            assert(a[0] == dmap && a[1] == key && a[2] == value);
        },
        CommandView::DmDel { dmap, keys } => {
            assert(a.skip(1) =~= keys);
        },
        CommandView::DmExpire { dmap, key, seconds } => {
            lemma_number_word(a, 2, seconds as int);
            assert(unsigned_at(a, 2, u64::MAX as int) == Some(seconds as int));
        },
        CommandView::DmPexpire { dmap, key, milliseconds } => {
            lemma_number_word(a, 2, milliseconds as int);
            assert(unsigned_at(a, 2, u64::MAX as int) == Some(milliseconds as int));
        },
        CommandView::DmIncr { dmap, key, delta } => {
            lemma_number_word(a, 2, delta as int);
        },
        CommandView::DmDecr { dmap, key, delta } => {
            lemma_number_word(a, 2, delta as int);
        },
        CommandView::DmScan { partition_id, dmap, cursor, options } => {
            lemma_scan_options(options);
            assert(a.skip(3) =~= scan_words(options));
            assert(a[0] == decimal(partition_id as nat) && a[1] == dmap && a[2] == decimal(
                cursor as nat,
            ));
            lemma_number_word(a, 0, partition_id as int);
            lemma_number_word(a, 2, cursor as int);
            assert(unsigned_at(a, 0, u32::MAX as int) == Some(partition_id as int));
            assert(unsigned_at(a, 2, u64::MAX as int) == Some(cursor as int));
        },
        CommandView::InternalNodeMoveFragment { partition_id, partition_type, dmap, payload } => {
            lemma_keywords();
            lemma_different(word("BACKUP"@), word("PRIMARY"@));
            lemma_number_word(a, 0, partition_id as int);
            assert(unsigned_at(a, 0, u32::MAX as int) == Some(partition_id as int));
            assert(partition_type_of(a[1]) == Some(partition_type));
        },
        _ => {},
    }
}

proof fn lemma_arity(c: CommandView)
    requires
        sendable(c),
    ensures
        arity_met(verb_arity(verb_for(c)), arguments(c).len() as int),
{
}

proof fn lemma_words(words: Seq<Seq<u8>>)
    ensures
        words_of(frame_of(words)) == Some(words),
{
    let f = frame_of(words);
    let items = Seq::new(words.len(), |i: int| FrameView::Bulk(Some(words[i])));
    assert(f == FrameView::Array(Some(items)));
    assert forall|i: int| 0 <= i < items.len() implies is_word(#[trigger] items[i]) by {}
    assert(words_of(f)->0 =~= words);
}

/// Parsing inverts encoding: the frame of a command that can be sent parses to
/// that command.
pub proof fn law_parse_inverts_to_frame(c: CommandView)
    requires
        sendable(c),
    ensures
        words_of(frame_of(command_words(c))) == Some(command_words(c)),
        command_of(command_words(c)) == Ok::<CommandView, CommandErrorView>(c),
{
    let words = command_words(c);
    let v = verb_for(c);
    lemma_words(words);
    lemma_verb_recognised(v);
    lemma_arity(c);
    lemma_body(c);
    assert(words.len() == arguments(c).len() + 1);
    assert(words[0] == word(verb_name(v)));
    assert(words.skip(1) =~= arguments(c));
    assert(command_of(words) == body_of(v, arguments(c)));
}

// ---------------------------------------------------------------------------
// Spelling and refusals
// ---------------------------------------------------------------------------

/// How each command is spelled: its verb, then its arguments in their order.
/// Numbers are decimal.
pub proof fn law_commands_are_spelled(c: CommandView)
    ensures
        match c {
            CommandView::Ping(None) => command_words(c) == seq![word("PING"@)],
            CommandView::Ping(Some(m)) => command_words(c) == seq![word("PING"@), m],
            CommandView::Auth { username: None, password } => command_words(c) == seq![
                word("AUTH"@),
                password,
            ],
            CommandView::Auth { username: Some(u), password } => command_words(c) == seq![
                word("AUTH"@),
                u,
                password,
            ],
            CommandView::Hello(h) => command_words(c)[0] == word("HELLO"@),
            CommandView::Quit => command_words(c) == seq![word("QUIT"@)],
            CommandView::Stats => command_words(c) == seq![word("STATS"@)],
            CommandView::DmPut { dmap, key, value, .. } => command_words(c).take(4) == seq![
                word("DM.PUT"@),
                dmap,
                key,
                value,
            ],
            CommandView::DmGet { dmap, key } => command_words(c) == seq![
                word("DM.GET"@),
                dmap,
                key,
            ],
            CommandView::DmDel { dmap, keys } => command_words(c) == seq![word("DM.DEL"@), dmap]
                + keys,
            CommandView::DmExpire { dmap, key, seconds } => command_words(c) == seq![
                word("DM.EXPIRE"@),
                dmap,
                key,
                decimal(seconds as nat),
            ],
            CommandView::DmPexpire { dmap, key, milliseconds } => command_words(c) == seq![
                word("DM.PEXPIRE"@),
                dmap,
                key,
                decimal(milliseconds as nat),
            ],
            CommandView::DmIncr { dmap, key, delta } => command_words(c) == seq![
                word("DM.INCR"@),
                dmap,
                key,
                signed_decimal(delta as int),
            ],
            CommandView::DmDecr { dmap, key, delta } => command_words(c) == seq![
                word("DM.DECR"@),
                dmap,
                key,
                signed_decimal(delta as int),
            ],
            CommandView::DmGetPut { dmap, key, value } => command_words(c) == seq![
                word("DM.GETPUT"@),
                dmap,
                key,
                value,
            ],
            CommandView::DmIncrByFloat { dmap, key, delta } => command_words(c) == seq![
                word("DM.INCRBYFLOAT"@),
                dmap,
                key,
                delta,
            ],
            CommandView::DmDestroy { dmap } => command_words(c) == seq![word("DM.DESTROY"@), dmap],
            CommandView::DmScan { partition_id, dmap, cursor, options } => command_words(c)
                == seq![
                word("DM.SCAN"@),
                decimal(partition_id as nat),
                dmap,
                decimal(cursor as nat),
            ] + (match options.match_pattern {
                Some(p) => seq![word("MATCH"@), p],
                None => Seq::empty(),
            }) + (match options.count {
                Some(n) => seq![word("COUNT"@), signed_decimal(n as int)],
                None => Seq::empty(),
            }),
            CommandView::InternalNodeUpdateRouting { table } => command_words(c) == seq![
                word("INTERNAL.NODE.UPDATEROUTING"@),
                table,
            ],
            CommandView::InternalNodePublish { channel, message } => command_words(c) == seq![
                word("INTERNAL.NODE.PUBLISH"@),
                channel,
                message,
            ],
            CommandView::InternalNodeMoveFragment { partition_id, partition_type, dmap, payload } =>
                command_words(c) == seq![
                word("INTERNAL.NODE.MOVEFRAGMENT"@),
                decimal(partition_id as nat),
                match partition_type {
                    PartitionType::Primary => word("PRIMARY"@),
                    PartitionType::Backup => word("BACKUP"@),
                },
                dmap,
                payload,
            ],
        },
{
    match c {
        CommandView::DmPut { dmap, key, value, options } => {
            assert(command_words(c).take(4) =~= seq![word("DM.PUT"@), dmap, key, value]);
        },
        CommandView::DmDel { dmap, keys } => {
            assert(command_words(c) =~= seq![word("DM.DEL"@), dmap] + keys);
        },
        CommandView::DmScan { partition_id, dmap, cursor, options } => {
            assert(command_words(c) =~= seq![
                word("DM.SCAN"@),
                decimal(partition_id as nat),
                dmap,
                decimal(cursor as nat),
            ] + (match options.match_pattern {
                Some(p) => seq![word("MATCH"@), p],
                None => Seq::empty(),
            }) + (match options.count {
                Some(n) => seq![word("COUNT"@), signed_decimal(n as int)],
                None => Seq::empty(),
            }));
        },
        _ => {},
    }
}

/// How an option of a put is spelled, given alone: the word that names its unit
/// or its meaning, and its number.
pub proof fn law_put_options_are_spelled(n: u64, ts: i64)
    ensures
        put_words(PutCommandOptions { ex: Some(n), ..no_put_options() }) == seq![
            word("EX"@),
            signed_decimal(n as int),
        ],
        put_words(PutCommandOptions { px: Some(n), ..no_put_options() }) == seq![
            word("PX"@),
            signed_decimal(n as int),
        ],
        put_words(PutCommandOptions { exat: Some(n), ..no_put_options() }) == seq![
            word("EXAT"@),
            signed_decimal(n as int),
        ],
        put_words(PutCommandOptions { pxat: Some(n), ..no_put_options() }) == seq![
            word("PXAT"@),
            signed_decimal(n as int),
        ],
        put_words(PutCommandOptions { nx: true, ..no_put_options() }) == seq![word("NX"@)],
        put_words(PutCommandOptions { xx: true, ..no_put_options() }) == seq![word("XX"@)],
        put_words(PutCommandOptions { timestamp: Some(ts), ..no_put_options() }) == seq![
            word("TS"@),
            signed_decimal(ts as int),
        ],
        put_words(no_put_options()).len() == 0,
{
    let none = no_put_options();
    assert(put_words(PutCommandOptions { ex: Some(n), ..none }) =~= seq![
        word("EX"@),
        signed_decimal(n as int),
    ]);
    assert(put_words(PutCommandOptions { px: Some(n), ..none }) =~= seq![
        word("PX"@),
        signed_decimal(n as int),
    ]);
    assert(put_words(PutCommandOptions { exat: Some(n), ..none }) =~= seq![
        word("EXAT"@),
        signed_decimal(n as int),
    ]);
    assert(put_words(PutCommandOptions { pxat: Some(n), ..none }) =~= seq![
        word("PXAT"@),
        signed_decimal(n as int),
    ]);
    assert(put_words(PutCommandOptions { nx: true, ..none }) =~= seq![word("NX"@)]);
    assert(put_words(PutCommandOptions { xx: true, ..none }) =~= seq![word("XX"@)]);
    assert(put_words(PutCommandOptions { timestamp: Some(ts), ..none }) =~= seq![
        word("TS"@),
        signed_decimal(ts as int),
    ]);
}

/// A put that asks for a key both to exist and not to exist is refused, and so is
/// one that gives more than one expiry.
pub proof fn law_conflicting_options_are_refused(
    dmap: Seq<u8>,
    key: Seq<u8>,
    value: Seq<u8>,
    o: PutCommandOptions,
)
    ensures
        ({
            let r = command_of(
                seq![word("DM.PUT"@), dmap, key, value] + put_words(o),
            );
            let conflict = (o.nx && o.xx) || (o.ex is Some && (o.px is Some || o.exat is Some
                || o.pxat is Some)) || (o.px is Some && (o.exat is Some || o.pxat is Some)) || (
            o.exat is Some && o.pxat is Some);
            &&& conflict <==> (r matches Err(e) && e is ConflictingOptions)
            &&& !conflict <==> r == Ok::<CommandView, CommandErrorView>(
                CommandView::DmPut { dmap, key, value, options: o },
            )
        }),
{
    let words = seq![word("DM.PUT"@), dmap, key, value] + put_words(o);
    lemma_put_options(o);
    lemma_verb_recognised(Verb::DmPut);
    assert(words[0] == word("DM.PUT"@));
    let a = words.skip(1);
    assert(a.skip(3) =~= put_words(o));
    assert(a[0] == dmap && a[1] == key && a[2] == value);
    assert(a.len() == words.len() - 1);
}

/// A verb is understood in any letter case.
pub proof fn law_verbs_in_any_case(b: Seq<u8>, v: Verb)
    requires
        same_word(b, word(verb_name(v))),
    ensures
        verb_of(b) == Some(v),
{
    let w = word(verb_name(v));
    lemma_verb_recognised(v);
    assert forall|x: Seq<u8>| #[trigger] same_word(b, x) == same_word(w, x) by {
        if same_word(b, x) {
            assert forall|i: int| 0 <= i < w.len() implies lower(#[trigger] w[i]) == lower(
                x[i],
            ) by {
                assert(lower(b[i]) == lower(w[i]));
                assert(lower(b[i]) == lower(x[i]));
            }
        }
        if same_word(w, x) {
            assert forall|i: int| 0 <= i < b.len() implies lower(#[trigger] b[i]) == lower(
                x[i],
            ) by {
                assert(lower(w[i]) == lower(x[i]));
                assert(lower(b[i]) == lower(w[i]));
            }
        }
    }
}

/// How many arguments each command takes. Any other number is refused.
pub proof fn law_arguments_are_counted(args: Seq<Seq<u8>>, v: Verb)
    requires
        args.len() > 0,
        args[0] == word(verb_name(v)),
    ensures
        ({
            let n = args.len() - 1;
            let right = match v {
                Verb::Quit | Verb::Stats => n == 0,
                Verb::Ping => n <= 1,
                Verb::Auth => n == 1 || n == 2,
                Verb::Hello => true,
                Verb::DmDestroy | Verb::NodeUpdateRouting => n == 1,
                Verb::DmGet | Verb::NodePublish => n == 2,
                Verb::DmExpire
                | Verb::DmPexpire
                | Verb::DmIncr
                | Verb::DmDecr
                | Verb::DmGetPut
                | Verb::DmIncrByFloat => n == 3,
                Verb::NodeMoveFragment => n == 4,
                Verb::DmDel => n >= 2,
                Verb::DmPut | Verb::DmScan => n >= 3,
            };
            !right <==> (command_of(args) matches Err(e) && e is WrongArity)
        }),
{
    lemma_verb_recognised(v);
    let a = args.skip(1);
    if arity_met(verb_arity(v), args.len() - 1) {
        match v {
            Verb::DmPut => {
                lemma_put_errors(a.skip(3), no_put_options());
            },
            Verb::DmScan => {
                lemma_scan_errors(a.skip(3), ScanView { match_pattern: None, count: None });
            },
            Verb::Hello => {
                let query = HelloView { protocol_version: None, auth: None, client_name: None };
                lemma_hello_errors(a, query);
                if a.len() > 0 && unsigned_at(a, 0, u32::MAX as int) is Some {
                    lemma_hello_errors(
                        a.skip(1),
                        HelloView {
                            protocol_version: Some(
                                unsigned_at(a, 0, u32::MAX as int)->0 as u32,
                            ),
                            ..query
                        },
                    );
                }
            },
            _ => {},
        }
    }
}

proof fn lemma_put_errors(a: Seq<Seq<u8>>, acc: PutCommandOptions)
    ensures
        put_options(a, acc) matches Err(e) ==> e is InvalidArgument,
    decreases a.len(),
{
    if a.len() > 0 {
        let one = a.skip(1);
        lemma_put_errors(one, PutCommandOptions { nx: true, ..acc });
        lemma_put_errors(one, PutCommandOptions { xx: true, ..acc });
        if a.len() > 1 {
            let two = a.skip(2);
            match unsigned_at(a, 1, u64::MAX as int) {
                Some(v) => {
                    lemma_put_errors(two, PutCommandOptions { ex: Some(v as u64), ..acc });
                    lemma_put_errors(two, PutCommandOptions { px: Some(v as u64), ..acc });
                    lemma_put_errors(two, PutCommandOptions { exat: Some(v as u64), ..acc });
                    lemma_put_errors(two, PutCommandOptions { pxat: Some(v as u64), ..acc });
                },
                None => {},
            }
            match signed_at(a, 1) {
                Some(v) => {
                    lemma_put_errors(two, PutCommandOptions { timestamp: Some(v as i64), ..acc });
                },
                None => {},
            }
        }
    }
}

proof fn lemma_scan_errors(a: Seq<Seq<u8>>, acc: ScanView)
    ensures
        scan_options(a, acc) matches Err(e) ==> e is InvalidArgument,
    decreases a.len(),
{
    if a.len() > 1 {
        let two = a.skip(2);
        lemma_scan_errors(two, ScanView { match_pattern: Some(a[1]), ..acc });
        match unsigned_at(a, 1, u32::MAX as int) {
            Some(v) => {
                lemma_scan_errors(two, ScanView { count: Some(v as u32), ..acc });
            },
            None => {},
        }
    }
}

proof fn lemma_hello_errors(a: Seq<Seq<u8>>, acc: HelloView)
    ensures
        hello_options(a, acc) matches Err(e) ==> e is InvalidArgument,
    decreases a.len(),
{
    if a.len() > 1 {
        lemma_hello_errors(a.skip(2), HelloView { auth: Some((None, a[1])), ..acc });
        lemma_hello_errors(a.skip(2), HelloView { client_name: Some(a[1]), ..acc });
        if a.len() > 2 {
            lemma_hello_errors(a.skip(3), HelloView { auth: Some((Some(a[1]), a[2])), ..acc });
        }
    }
}

} // verus!
