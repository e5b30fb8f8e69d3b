//! Round-trip laws of the message codec: a well-formed event, written to
//! the wire by [`crate::codec::encode_spec`], is read back unchanged by
//! [`crate::codec::decode_spec`].

use vstd::prelude::*;

use crate::codec::{
    apply_field, apply_fields, dec_digits, dec_value, decode_spec, digit_prefix_len, empty_event,
    enc_body, enc_field, enc_retry, encode_spec, esc1, esc_code, escape, fields_of, hex_digit,
    hex_val, is_digit, is_hex, is_ws, key_data, key_event, key_id, key_nanos, key_retry,
    key_secs, lemma_dpl_exact, p_colon, p_num_member, p_pair, p_pairs, p_retry, p_retry_end,
    p_string_body, p_u64, p_val_string, prepend_parsed, quoted, skip_ws, spec_emits_frame,
    wf_event, EventV, FieldD, RetryHint,
};
use crate::seq_facts::lemma_skip_whole_append;

verus! {

/// The position a part occupies in an event, used to say that a member
/// list names four different parts.
pub open spec fn field_kind(fd: FieldD) -> int {
    match fd {
        FieldD::FieldId(_) => 0,
        FieldD::FieldData(_) => 1,
        FieldD::FieldEvent(_) => 2,
        FieldD::FieldRetry(_) => 3,
    }
}

/// The part named by a member is still absent from the event.
pub open spec fn field_unset(e: EventV, fd: FieldD) -> bool {
    match fd {
        FieldD::FieldId(_) => e.id is None,
        FieldD::FieldData(_) => e.data is None,
        FieldD::FieldEvent(_) => e.event is None,
        FieldD::FieldRetry(_) => e.retry is None,
    }
}

/// A member carries a well-formed value.
pub open spec fn field_wf(fd: FieldD) -> bool {
    match fd {
        FieldD::FieldRetry(r) => r.wf(),
        _ => true,
    }
}

/// The escaped form of a payload can also be peeled off the front.
proof fn lemma_escape_front(v: Seq<u8>)
    requires
        v.len() > 0,
    ensures
        escape(v) == esc1(v[0]) + escape(v.drop_first()),
    decreases v.len(),
{
    if v.len() == 1 {
        assert(v.drop_last() =~= Seq::<u8>::empty());
        assert(v.drop_first() =~= Seq::<u8>::empty());
        assert(Seq::<u8>::empty() + esc1(v[0]) =~= esc1(v[0]) + Seq::<u8>::empty());
    } else {
        lemma_escape_front(v.drop_last());
        assert(v.drop_last()[0] == v[0]);
        assert(v.drop_last().drop_first() =~= v.drop_first().drop_last());
        assert(v.drop_first().last() == v.last());
        assert(escape(v) =~= esc1(v[0]) + escape(v.drop_first()));
    }
}

/// A hexadecimal digit we wrote is one we can read back.
proof fn lemma_hex_digit_rt(x: u8)
    requires
        x < 16,
    ensures
        is_hex(hex_digit(x)),
        hex_val(hex_digit(x)) == x,
{
}

/// Unescaping consumes exactly the escape of one byte and yields that
/// byte.
proof fn lemma_esc1_rt(b: u8, tail: Seq<u8>)
    ensures
        p_string_body(esc1(b) + tail) == prepend_parsed(b, p_string_body(tail)),
{
    let s = esc1(b) + tail;
    if b == 0x22 || b == 0x5c || b == 0x08 || b == 0x09 || b == 0x0a || b == 0x0c || b == 0x0d {
        assert(s[0] == 0x5c);
        assert(esc_code(s[1]) == Some(b));
        assert(s.skip(2) =~= tail);
    } else if b < 0x20 {
        assert(s[0] == 0x5c);
        assert(s[1] == 0x75);
        assert(s[2] == 0x30);
        assert(s[3] == 0x30);
        assert(s[4] == hex_digit((b / 16) as u8));
        assert(s[5] == hex_digit((b % 16) as u8));
        lemma_hex_digit_rt((b / 16) as u8);
        lemma_hex_digit_rt((b % 16) as u8);
        assert(esc_code(s[1]) is None);
        assert(s.skip(6) =~= tail);
        assert((hex_val(s[4]) * 16 + hex_val(s[5])) as u8 == b);
    } else {
        assert(s[0] == b);
        assert(s.drop_first() =~= tail);
    }
}

/// Parsing a string body inverts escaping: the escaped payload followed
/// by the closing quote is consumed exactly, yielding the payload.
proof fn lemma_escape_rt(v: Seq<u8>, rest: Seq<u8>)
    ensures
        p_string_body(escape(v) + seq![0x22u8] + rest) == Some((v, rest)),
    decreases v.len(),
{
    if v.len() == 0 {
        let s = escape(v) + seq![0x22u8] + rest;
        assert(s =~= seq![0x22u8] + rest);
        assert(s[0] == 0x22);
        assert(s.drop_first() =~= rest);
        assert(p_string_body(s) == Some((Seq::<u8>::empty(), rest)));
        assert(Seq::<u8>::empty() =~= v);
    } else {
        lemma_escape_front(v);
        lemma_escape_rt(v.drop_first(), rest);
        lemma_esc1_rt(v[0], escape(v.drop_first()) + seq![0x22u8] + rest);
        assert(escape(v) + seq![0x22u8] + rest =~= esc1(v[0]) + (escape(v.drop_first())
            + seq![0x22u8] + rest));
        assert(seq![v[0]] + v.drop_first() =~= v);
    }
}

/// The decimal digits we write are digits, denote the number written,
/// and never start with a superfluous zero.
proof fn lemma_dec_digits_props(n: u64)
    ensures
        dec_digits(n).len() >= 1,
        forall|i: int| 0 <= i < dec_digits(n).len() ==> is_digit(#[trigger] dec_digits(n)[i]),
        dec_value(dec_digits(n)) == n,
        dec_digits(n).len() >= 2 ==> n >= 10,
        dec_digits(n)[0] == 0x30 ==> n == 0,
    decreases n,
{
    if n < 10 {
        let d = dec_digits(n);
        assert(d =~= seq![(0x30 + n) as u8]);
        assert(d.drop_last() =~= Seq::<u8>::empty());
        assert(dec_value(Seq::<u8>::empty()) == 0);
        assert(dec_value(d) == n);
    } else {
        lemma_dec_digits_props(n / 10);
        let d = dec_digits(n);
        let p = dec_digits(n / 10);
        assert(d == p + seq![(0x30 + n % 10) as u8]);
        assert(d.drop_last() =~= p);
        assert(d.last() == (0x30 + n % 10) as u8);
        assert(dec_value(d) == dec_value(p) * 10 + n % 10);
        assert((n / 10) * 10 + n % 10 == n) by {
            vstd::arithmetic::div_mod::lemma_fundamental_div_mod(n as int, 10);
        }
        assert forall|i: int| 0 <= i < d.len() implies is_digit(#[trigger] d[i]) by {
            if i < p.len() {
                assert(d[i] == p[i]);
            }
        }
        assert(d[0] == p[0]);
        assert(n / 10 >= 1);
    }
}

/// Parsing a number inverts writing it, provided what follows does not
/// begin with another digit.
proof fn lemma_dec_rt(n: u64, rest: Seq<u8>)
    requires
        rest.len() == 0 || !is_digit(rest[0]),
    ensures
        p_u64(dec_digits(n) + rest) == Some((n, rest)),
{
    lemma_dec_digits_props(n);
    let d = dec_digits(n);
    let s = d + rest;
    assert forall|i: int| 0 <= i < d.len() implies is_digit(s[i]) by {
        assert(s[i] == d[i]);
    }
    if rest.len() > 0 {
        assert(s[d.len() as int] == rest[0]);
    }
    lemma_dpl_exact(s, d.len() as int);
    assert(s.take(d.len() as int) =~= d);
    lemma_skip_whole_append(d, rest);
    assert(digit_prefix_len(s) > 1 ==> s[0] != 0x30);
}

/// Consuming a colon and then a quoted value inverts writing them, when
/// no whitespace was written.
proof fn lemma_colon_quoted(v: Seq<u8>, rest: Seq<u8>)
    ensures
        p_colon(seq![0x3au8] + quoted(v) + rest) == Some(quoted(v) + rest),
        p_val_string(quoted(v) + rest) == Some((v, rest)),
{
    let c = seq![0x3au8] + (quoted(v) + rest);
    assert(seq![0x3au8] + quoted(v) + rest =~= c);
    assert(c[0] == 0x3a);
    assert(skip_ws(c) == c);
    assert(c.skip(1) =~= quoted(v) + rest);
    assert((quoted(v) + rest)[0] == 0x22);
    assert(skip_ws(quoted(v) + rest) == quoted(v) + rest);
    assert((quoted(v) + rest).drop_first() =~= escape(v) + seq![0x22u8] + rest);
    lemma_escape_rt(v, rest);
}

/// Parsing a reconnect hint inverts writing it.
proof fn lemma_retry_rt(r: RetryHint, rest: Seq<u8>)
    requires
        r.wf(),
    ensures
        p_retry(enc_retry(r) + rest) == Some((r, rest)),
{
    let a1 = dec_digits(r.secs);
    let a2 = dec_digits(r.nanos as u64);
    lemma_dec_digits_props(r.secs);
    lemma_dec_digits_props(r.nanos as u64);
    let s = enc_retry(r) + rest;
    let tail2 = seq![0x7du8] + rest;
    let u = key_nanos() + seq![0x3au8] + a2 + tail2;
    let tail1 = seq![0x2cu8] + key_nanos() + seq![0x3au8] + a2 + seq![0x7du8] + rest;
    let t = key_secs() + seq![0x3au8] + a1 + tail1;
    assert(s[0] == 0x7b);
    assert(s.drop_first() =~= t);
    assert(t[0] == 0x22);
    assert(skip_ws(t) == t);
    assert(t.subrange(0, 6) =~= key_secs());
    assert(t.skip(6) =~= seq![0x3au8] + (a1 + tail1));
    assert((seq![0x3au8] + (a1 + tail1))[0] == 0x3a);
    assert(skip_ws(seq![0x3au8] + (a1 + tail1)) == seq![0x3au8] + (a1 + tail1));
    assert((seq![0x3au8] + (a1 + tail1)).skip(1) =~= a1 + tail1);
    assert((a1 + tail1)[0] == a1[0]);
    assert(is_digit(a1[0]) && !is_ws(a1[0]));
    assert(skip_ws(a1 + tail1) == a1 + tail1);
    assert(tail1[0] == 0x2c);
    assert(!is_digit(tail1[0]));
    lemma_dec_rt(r.secs, tail1);
    assert(p_num_member(t, key_secs()) == Some((r.secs, tail1)));
    assert(skip_ws(tail1) == tail1);
    assert(tail1.skip(1) =~= u);
    assert(u[0] == 0x22);
    assert(skip_ws(u) == u);
    assert(u.subrange(0, 7) =~= key_nanos());
    assert(u.skip(7) =~= seq![0x3au8] + (a2 + tail2));
    assert((seq![0x3au8] + (a2 + tail2))[0] == 0x3a);
    assert(skip_ws(seq![0x3au8] + (a2 + tail2)) == seq![0x3au8] + (a2 + tail2));
    assert((seq![0x3au8] + (a2 + tail2)).skip(1) =~= a2 + tail2);
    assert((a2 + tail2)[0] == a2[0]);
    assert(is_digit(a2[0]) && !is_ws(a2[0]));
    assert(skip_ws(a2 + tail2) == a2 + tail2);
    assert(tail2[0] == 0x7d);
    assert(!is_digit(tail2[0]));
    lemma_dec_rt(r.nanos as u64, tail2);
    assert(p_num_member(u, key_nanos()) == Some((r.nanos as u64, tail2)));
    assert(skip_ws(tail2) == tail2);
    assert(tail2.drop_first() =~= rest);
    assert(p_retry_end(r.secs, r.nanos as u64, tail2) == Some((r, rest)));
}

/// Parsing one member inverts writing one present part, and sets exactly
/// that part.
#[verifier::rlimit(100)]
proof fn lemma_pair_rt(fd: FieldD, rest: Seq<u8>, acc: EventV)
    requires
        field_unset(acc, fd),
        field_wf(fd),
    ensures
        p_pair(enc_field(fd) + rest, acc) == Some((apply_field(acc, fd), rest)),
{
    let s = enc_field(fd) + rest;
    match fd {
        FieldD::FieldId(v) => {
            assert(s =~= key_id() + (seq![0x3au8] + quoted(v) + rest));
            assert(s.subrange(0, 4) =~= key_id());
            assert(s.skip(4) =~= seq![0x3au8] + quoted(v) + rest);
            lemma_colon_quoted(v, rest);
        },
        FieldD::FieldData(v) => {
            assert(s[1] == 0x64);
            if s.len() >= 4 && s.subrange(0, 4) == key_id() {
                assert(s.subrange(0, 4)[1] == s[1]);
            }
            assert(s =~= key_data() + (seq![0x3au8] + quoted(v) + rest));
            assert(s.subrange(0, 6) =~= key_data());
            assert(s.skip(6) =~= seq![0x3au8] + quoted(v) + rest);
            lemma_colon_quoted(v, rest);
        },
        FieldD::FieldEvent(v) => {
            assert(s[1] == 0x65);
            if s.len() >= 4 && s.subrange(0, 4) == key_id() {
                assert(s.subrange(0, 4)[1] == s[1]);
            }
            if s.len() >= 6 && s.subrange(0, 6) == key_data() {
                assert(s.subrange(0, 6)[1] == s[1]);
            }
            assert(s =~= key_event() + (seq![0x3au8] + quoted(v) + rest));
            assert(s.subrange(0, 7) =~= key_event());
            assert(s.skip(7) =~= seq![0x3au8] + quoted(v) + rest);
            lemma_colon_quoted(v, rest);
        },
        FieldD::FieldRetry(r) => {
            assert(s[1] == 0x72);
            if s.len() >= 4 && s.subrange(0, 4) == key_id() {
                assert(s.subrange(0, 4)[1] == s[1]);
            }
            if s.len() >= 6 && s.subrange(0, 6) == key_data() {
                assert(s.subrange(0, 6)[1] == s[1]);
            }
            if s.len() >= 7 && s.subrange(0, 7) == key_event() {
                assert(s.subrange(0, 7)[1] == s[1]);
            }
            assert(s.subrange(0, 7) =~= key_retry());
            let c = seq![0x3au8] + (enc_retry(r) + rest);
            assert(s.skip(7) =~= c);
            assert(c[0] == 0x3a);
            assert(skip_ws(c) == c);
            assert(c.skip(1) =~= enc_retry(r) + rest);
            assert((enc_retry(r) + rest)[0] == 0x7b);
            assert(skip_ws(enc_retry(r) + rest) == enc_retry(r) + rest);
            lemma_retry_rt(r, rest);
        },
    }
}

/// Parsing a member list inverts writing the present parts of an event,
/// provided the members name distinct parts that are still absent.
proof fn lemma_members_rt(fds: Seq<FieldD>, acc: EventV)
    requires
        fds.len() >= 1,
        forall|i: int| 0 <= i < fds.len() ==> field_wf(#[trigger] fds[i]),
        forall|i: int| 0 <= i < fds.len() ==> field_unset(acc, #[trigger] fds[i]),
        forall|i: int, j: int|
            0 <= i < j < fds.len() ==> field_kind(fds[i]) != field_kind(fds[j]),
    ensures
        p_pairs(enc_body(fds) + seq![0x7du8], acc) == Some(
            (apply_fields(acc, fds), Seq::<u8>::empty()),
        ),
    decreases fds.len(),
{
    let f0 = fds[0];
    let acc1 = apply_field(acc, f0);
    if fds.len() == 1 {
        let s = enc_body(fds) + seq![0x7du8];
        assert(s == enc_field(f0) + seq![0x7du8]);
        lemma_pair_rt(f0, seq![0x7du8], acc);
        assert(seq![0x7du8][0] == 0x7d);
        assert(skip_ws(seq![0x7du8]) == seq![0x7du8]);
        assert(seq![0x7du8].drop_first() =~= Seq::<u8>::empty());
        assert(fds.drop_first().len() == 0);
        assert(apply_fields(acc, fds) == apply_fields(acc1, fds.drop_first()));
        assert(apply_fields(acc1, fds.drop_first()) == acc1);
    } else {
        let rest = fds.drop_first();
        let tail = seq![0x2cu8] + enc_body(rest) + seq![0x7du8];
        let s = enc_body(fds) + seq![0x7du8];
        assert(s =~= enc_field(f0) + tail);
        lemma_pair_rt(f0, tail, acc);
        assert(tail[0] == 0x2c);
        assert(skip_ws(tail) == tail);
        assert(enc_field(f0).len() > 0);
        let nxt = enc_body(rest) + seq![0x7du8];
        assert(tail.skip(1) =~= nxt);
        assert(enc_body(rest)[0] == enc_field(rest[0])[0]);
        assert(enc_field(rest[0])[0] == 0x22);
        assert(nxt[0] == 0x22);
        assert(skip_ws(nxt) == nxt);
        assert(nxt.len() < s.len());
        assert forall|i: int| 0 <= i < rest.len() implies field_unset(
            acc1,
            #[trigger] rest[i],
        ) by {
            assert(rest[i] == fds[i + 1]);
            assert(field_kind(fds[i + 1]) != field_kind(f0));
        }
        assert forall|i: int| 0 <= i < rest.len() implies field_wf(#[trigger] rest[i]) by {
            assert(rest[i] == fds[i + 1]);
        }
        assert forall|i: int, j: int|
            0 <= i < j < rest.len() implies field_kind(rest[i]) != field_kind(rest[j]) by {
            assert(rest[i] == fds[i + 1]);
            assert(rest[j] == fds[j + 1]);
        }
        lemma_members_rt(rest, acc1);
        assert(apply_fields(acc, fds) == apply_fields(acc1, rest));
    }
}

/// Setting a concatenation of part lists is setting one list after the
/// other.
proof fn lemma_apply_fields_append(acc: EventV, a: Seq<FieldD>, b: Seq<FieldD>)
    ensures
        apply_fields(acc, a + b) == apply_fields(apply_fields(acc, a), b),
    decreases a.len(),
{
    if a.len() == 0 {
        assert(a + b =~= b);
    } else {
        assert((a + b)[0] == a[0]);
        assert((a + b).drop_first() =~= a.drop_first() + b);
        lemma_apply_fields_append(apply_field(acc, a[0]), a.drop_first(), b);
    }
}

/// Setting a one-part list is setting that part.
proof fn lemma_apply_singleton(acc: EventV, fd: FieldD)
    ensures
        apply_fields(acc, seq![fd]) == apply_field(acc, fd),
{
    assert(seq![fd][0] == fd);
    assert(seq![fd].drop_first() =~= Seq::<FieldD>::empty());
    assert(apply_fields(apply_field(acc, fd), Seq::<FieldD>::empty()) == apply_field(acc, fd));
}

/// Setting, onto the all-absent event, exactly the parts present in an
/// event rebuilds that event.
proof fn lemma_apply_fields_of(e: EventV)
    ensures
        apply_fields(empty_event(), fields_of(e)) == e,
{
    let e0 = empty_event();
    let p1: Seq<FieldD> = if e.id is Some {
        seq![FieldD::FieldId(e.id->0)]
    } else {
        Seq::empty()
    };
    let p2: Seq<FieldD> = if e.data is Some {
        seq![FieldD::FieldData(e.data->0)]
    } else {
        Seq::empty()
    };
    let p3: Seq<FieldD> = if e.event is Some {
        seq![FieldD::FieldEvent(e.event->0)]
    } else {
        Seq::empty()
    };
    let p4: Seq<FieldD> = if e.retry is Some {
        seq![FieldD::FieldRetry(e.retry->0)]
    } else {
        Seq::empty()
    };
    assert(fields_of(e) == p1 + p2 + p3 + p4);
    lemma_apply_fields_append(e0, p1 + p2 + p3, p4);
    lemma_apply_fields_append(e0, p1 + p2, p3);
    lemma_apply_fields_append(e0, p1, p2);
    let a1 = apply_fields(e0, p1);
    if e.id is Some {
        lemma_apply_singleton(e0, FieldD::FieldId(e.id->0));
    }
    let a2 = apply_fields(a1, p2);
    if e.data is Some {
        lemma_apply_singleton(a1, FieldD::FieldData(e.data->0));
    }
    let a3 = apply_fields(a2, p3);
    if e.event is Some {
        lemma_apply_singleton(a2, FieldD::FieldEvent(e.event->0));
    }
    let a4 = apply_fields(a3, p4);
    if e.retry is Some {
        lemma_apply_singleton(a3, FieldD::FieldRetry(e.retry->0));
    }
    assert(a4 =~= e);
}

/// The round-trip law: every well-formed event, written to the wire, is
/// read back as exactly the same event. This holds whether or not any
/// part is present.
#[verifier::rlimit(100)]
pub proof fn lemma_decode_encode(e: EventV)
    requires
        wf_event(e),
    ensures
        decode_spec(encode_spec(e)) == Some(e),
{
    let fds = fields_of(e);
    let s = encode_spec(e);
    assert(s[0] == 0x7b);
    assert(skip_ws(s) == s);
    if fds.len() == 0 {
        assert(e.id is None && e.data is None && e.event is None && e.retry is None);
        assert(enc_body(fds) =~= Seq::<u8>::empty());
        assert(s =~= seq![0x7bu8, 0x7du8]);
        assert(s.drop_first() =~= seq![0x7du8]);
        assert(skip_ws(seq![0x7du8]) == seq![0x7du8]);
        assert(seq![0x7du8].drop_first() =~= Seq::<u8>::empty());
        assert(skip_ws(Seq::<u8>::empty()).len() == 0);
        assert(e =~= empty_event());
    } else {
        let body = enc_body(fds) + seq![0x7du8];
        assert(enc_body(fds)[0] == enc_field(fds[0])[0]);
        assert(enc_field(fds[0])[0] == 0x22);
        assert(s.drop_first() =~= body);
        assert(body[0] == 0x22);
        assert(skip_ws(body) == body);
        assert(skip_ws(Seq::<u8>::empty()).len() == 0);
        assert forall|i: int| 0 <= i < fds.len() implies field_wf(#[trigger] fds[i])
            && field_unset(empty_event(), #[trigger] fds[i]) by {
        }
        assert forall|i: int, j: int|
            0 <= i < j < fds.len() implies field_kind(fds[i]) != field_kind(fds[j]) by {
        }
        lemma_members_rt(fds, empty_event());
        lemma_apply_fields_of(e);
    }
}

/// The all-absent event still round-trips, and what it decodes to emits
/// no output frame: it is dropped silently rather than sent as an empty
/// frame.
pub proof fn lemma_empty_event_no_frame()
    ensures
        decode_spec(encode_spec(empty_event())) == Some(empty_event()),
        !spec_emits_frame(empty_event()),
{
    lemma_decode_encode(empty_event());
}

} // verus!
