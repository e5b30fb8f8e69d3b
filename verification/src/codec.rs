//! The message codec: the wire form of an event, as exchanged on the
//! pub/sub channel and posted by HTTP clients.
//!
//! An event carries four optional parts: an identifier, a payload, an
//! event-type tag and a client reconnect hint. On the wire it is a
//! textual record: a brace-delimited list of `"key":value` members, with
//! string values quoted and escaped, the reconnect hint written as a
//! nested record of whole seconds and a nanosecond remainder (in either
//! member order), and insignificant whitespace allowed between tokens.
//! Only the four known members are accepted, each at most once. The
//! grammar is fixed by the specification functions in this module;
//! [`encode`] produces its canonical, whitespace-free form, [`decode`]
//! accepts exactly the grammar, and the round-trip laws are proved in
//! [`crate::codec_laws`].

use vstd::prelude::*;

verus! {

// ---------------------------------------------------------------------
// Data model
// ---------------------------------------------------------------------

/// A client reconnect hint: a duration of `secs` whole seconds plus
/// `nanos` nanoseconds, with `nanos` kept below one second.
#[derive(Clone, Copy, Debug, PartialEq, Eq, Structural)]
pub struct RetryHint {
    pub secs: u64,
    pub nanos: u32,
}

impl RetryHint {
    /// A hint is well formed when the nanosecond part is a true
    /// sub-second remainder.
    pub open spec fn wf(self) -> bool {
        self.nanos < 1_000_000_000
    }
}

/// The unit exchanged on both the pub/sub channel and the HTTP stream.
/// Every part is optional; text parts are byte strings handed through
/// opaquely.
#[derive(Debug, PartialEq, Eq)]
pub struct SseMessage {
    pub id: Option<Vec<u8>>,
    pub data: Option<Vec<u8>>,
    pub event: Option<Vec<u8>>,
    pub retry: Option<RetryHint>,
}

/// The mathematical shape of an event: each text part as a sequence of
/// bytes.
#[verifier::ext_equal]
pub struct EventV {
    pub id: Option<Seq<u8>>,
    pub data: Option<Seq<u8>>,
    pub event: Option<Seq<u8>>,
    pub retry: Option<RetryHint>,
}

impl View for SseMessage {
    type V = EventV;

    open spec fn view(&self) -> EventV {
        EventV {
            id: match self.id {
                Some(v) => Some(v@),
                None => None,
            },
            data: match self.data {
                Some(v) => Some(v@),
                None => None,
            },
            event: match self.event {
                Some(v) => Some(v@),
                None => None,
            },
            retry: self.retry,
        }
    }
}

/// The event with every part absent.
pub open spec fn empty_event() -> EventV {
    EventV { id: None, data: None, event: None, retry: None }
}

/// A well-formed event: if a reconnect hint is present, it is well formed.
pub open spec fn wf_event(e: EventV) -> bool {
    match e.retry {
        Some(r) => r.wf(),
        None => true,
    }
}

/// An event produces an output frame exactly when at least one part is
/// present; an all-absent event is dropped silently rather than sent as an
/// empty frame.
pub open spec fn spec_emits_frame(e: EventV) -> bool {
    e.id is Some || e.data is Some || e.event is Some || e.retry is Some
}

impl SseMessage {
    /// Whether this event produces an output frame.
    pub fn emits_frame(&self) -> (b: bool)
        ensures
            b == spec_emits_frame(self@),
    {
        self.id.is_some() || self.data.is_some() || self.event.is_some() || self.retry.is_some()
    }
}

// ---------------------------------------------------------------------
// The wire grammar: encoding side
// ---------------------------------------------------------------------

/// The hexadecimal digit for a value below sixteen, lower case.
pub open spec fn hex_digit(n: u8) -> u8
    recommends
        n < 16,
{
    if n < 10 {
        (0x30 + n) as u8
    } else {
        (0x57 + n) as u8
    }
}

/// The escaped wire form of one payload byte inside a quoted string:
/// quote and backslash get a two-byte escape, the common control bytes get
/// their short escapes, the remaining control bytes a four-digit hex
/// escape, and everything else passes through unchanged.
pub open spec fn esc1(b: u8) -> Seq<u8> {
    if b == 0x22 {
        seq![0x5c, 0x22]
    } else if b == 0x5c {
        seq![0x5c, 0x5c]
    } else if b == 0x08 {
        seq![0x5c, 0x62]
    } else if b == 0x09 {
        seq![0x5c, 0x74]
    } else if b == 0x0a {
        seq![0x5c, 0x6e]
    } else if b == 0x0c {
        seq![0x5c, 0x66]
    } else if b == 0x0d {
        seq![0x5c, 0x72]
    } else if b < 0x20 {
        seq![0x5c, 0x75, 0x30, 0x30, hex_digit((b / 16) as u8), hex_digit((b % 16) as u8)]
    } else {
        seq![b]
    }
}

/// The escaped wire form of a whole payload.
pub open spec fn escape(s: Seq<u8>) -> Seq<u8>
    decreases s.len(),
{
    if s.len() == 0 {
        Seq::empty()
    } else {
        escape(s.drop_last()) + esc1(s.last())
    }
}

/// A payload quoted and escaped.
pub open spec fn quoted(s: Seq<u8>) -> Seq<u8> {
    seq![0x22] + escape(s) + seq![0x22]
}

/// The decimal digits of a number, most significant first, with no
/// leading zeros.
pub open spec fn dec_digits(n: u64) -> Seq<u8>
    decreases n,
{
    if n < 10 {
        seq![(0x30 + n) as u8]
    } else {
        dec_digits(n / 10) + seq![(0x30 + n % 10) as u8]
    }
}

/// The quoted key of the identifier member.
pub open spec fn key_id() -> Seq<u8> {
    seq![0x22, 0x69, 0x64, 0x22]
}

/// The quoted key of the payload member.
pub open spec fn key_data() -> Seq<u8> {
    seq![0x22, 0x64, 0x61, 0x74, 0x61, 0x22]
}

/// The quoted key of the event-type member.
pub open spec fn key_event() -> Seq<u8> {
    seq![0x22, 0x65, 0x76, 0x65, 0x6e, 0x74, 0x22]
}

/// The quoted key of the reconnect-hint member.
pub open spec fn key_retry() -> Seq<u8> {
    seq![0x22, 0x72, 0x65, 0x74, 0x72, 0x79, 0x22]
}

/// The quoted key of the seconds member of a reconnect hint.
pub open spec fn key_secs() -> Seq<u8> {
    seq![0x22, 0x73, 0x65, 0x63, 0x73, 0x22]
}

/// The quoted key of the nanoseconds member of a reconnect
/// hint.
pub open spec fn key_nanos() -> Seq<u8> {
    seq![0x22, 0x6e, 0x61, 0x6e, 0x6f, 0x73, 0x22]
}

/// The wire form of a reconnect hint: a nested record of seconds and
/// nanoseconds.
pub open spec fn enc_retry(r: RetryHint) -> Seq<u8> {
    seq![0x7b] + key_secs() + seq![0x3a] + dec_digits(r.secs) + seq![0x2c] + key_nanos() + seq![
        0x3a,
    ] + dec_digits(r.nanos as u64) + seq![0x7d]
}

/// One present part of an event, at the specification level.
pub enum FieldD {
    FieldId(Seq<u8>),
    FieldData(Seq<u8>),
    FieldEvent(Seq<u8>),
    FieldRetry(RetryHint),
}

/// The wire form of one member.
pub open spec fn enc_field(fd: FieldD) -> Seq<u8> {
    match fd {
        FieldD::FieldId(v) => key_id() + seq![0x3a] + quoted(v),
        FieldD::FieldData(v) => key_data() + seq![0x3a] + quoted(v),
        FieldD::FieldEvent(v) => key_event() + seq![0x3a] + quoted(v),
        FieldD::FieldRetry(r) => key_retry() + seq![0x3a] + enc_retry(r),
    }
}

/// Setting one part of an event.
pub open spec fn apply_field(e: EventV, fd: FieldD) -> EventV {
    match fd {
        FieldD::FieldId(v) => EventV { id: Some(v), ..e },
        FieldD::FieldData(v) => EventV { data: Some(v), ..e },
        FieldD::FieldEvent(v) => EventV { event: Some(v), ..e },
        FieldD::FieldRetry(r) => EventV { retry: Some(r), ..e },
    }
}

/// Setting a list of parts, left to right.
pub open spec fn apply_fields(e: EventV, fds: Seq<FieldD>) -> EventV
    decreases fds.len(),
{
    if fds.len() == 0 {
        e
    } else {
        apply_fields(apply_field(e, fds[0]), fds.drop_first())
    }
}

/// The present parts of an event, in wire order.
pub open spec fn fields_of(e: EventV) -> Seq<FieldD> {
    (if e.id is Some {
        seq![FieldD::FieldId(e.id->0)]
    } else {
        Seq::empty()
    }) + (if e.data is Some {
        seq![FieldD::FieldData(e.data->0)]
    } else {
        Seq::empty()
    }) + (if e.event is Some {
        seq![FieldD::FieldEvent(e.event->0)]
    } else {
        Seq::empty()
    }) + (if e.retry is Some {
        seq![FieldD::FieldRetry(e.retry->0)]
    } else {
        Seq::empty()
    })
}

/// The members of a record joined with commas, without the surrounding
/// braces.
pub open spec fn enc_body(fds: Seq<FieldD>) -> Seq<u8>
    decreases fds.len(),
{
    if fds.len() == 0 {
        Seq::empty()
    } else if fds.len() == 1 {
        enc_field(fds[0])
    } else {
        enc_field(fds[0]) + seq![0x2c] + enc_body(fds.drop_first())
    }
}

/// The full wire form of an event.
pub open spec fn encode_spec(e: EventV) -> Seq<u8> {
    seq![0x7b] + enc_body(fields_of(e)) + seq![0x7d]
}

// ---------------------------------------------------------------------
// The wire grammar: decoding side
// ---------------------------------------------------------------------

/// An ASCII decimal digit.
pub open spec fn is_digit(b: u8) -> bool {
    0x30 <= b && b <= 0x39
}

/// An ASCII hexadecimal digit, either case.
pub open spec fn is_hex(b: u8) -> bool {
    is_digit(b) || (0x61 <= b && b <= 0x66) || (0x41 <= b && b <= 0x46)
}

/// The value of a hexadecimal digit.
pub open spec fn hex_val(b: u8) -> u8
    recommends
        is_hex(b),
{
    if is_digit(b) {
        (b - 0x30) as u8
    } else if 0x61 <= b && b <= 0x66 {
        (b - 0x57) as u8
    } else {
        (b - 0x37) as u8
    }
}

/// The byte named by a two-character short escape, if the character is
/// one of the eight escape letters.
pub open spec fn esc_code(c: u8) -> Option<u8> {
    if c == 0x22 {
        Some(0x22)
    } else if c == 0x5c {
        Some(0x5c)
    } else if c == 0x2f {
        Some(0x2f)
    } else if c == 0x62 {
        Some(0x08)
    } else if c == 0x74 {
        Some(0x09)
    } else if c == 0x6e {
        Some(0x0a)
    } else if c == 0x66 {
        Some(0x0c)
    } else if c == 0x72 {
        Some(0x0d)
    } else {
        None
    }
}

/// Prefix one decoded byte onto the outcome of parsing the remainder of a
/// string.
pub open spec fn prepend_parsed(b: u8, r: Option<(Seq<u8>, Seq<u8>)>) -> Option<
    (Seq<u8>, Seq<u8>),
> {
    match r {
        Some(p) => Some((seq![b] + p.0, p.1)),
        None => None,
    }
}

/// Parse the inside of a quoted string, starting just after the opening
/// quote: unescape byte by byte up to the closing quote, and also return
/// what follows it. Raw control bytes are refused; escapes are the eight
/// short ones and the four-digit hex escape of a single byte.
pub open spec fn p_string_body(s: Seq<u8>) -> Option<(Seq<u8>, Seq<u8>)>
    decreases s.len(),
{
    if s.len() == 0 {
        None
    } else if s[0] == 0x22 {
        Some((Seq::empty(), s.drop_first()))
    } else if s[0] == 0x5c {
        if s.len() >= 2 && esc_code(s[1]) is Some {
            prepend_parsed(esc_code(s[1])->0, p_string_body(s.skip(2)))
        } else if s.len() >= 6 && s[1] == 0x75 && s[2] == 0x30 && s[3] == 0x30 && is_hex(s[4])
            && is_hex(s[5]) {
            prepend_parsed((hex_val(s[4]) * 16 + hex_val(s[5])) as u8, p_string_body(s.skip(6)))
        } else {
            None
        }
    } else if s[0] < 0x20 {
        None
    } else {
        prepend_parsed(s[0], p_string_body(s.drop_first()))
    }
}

/// How many leading bytes of a sequence are decimal digits.
pub open spec fn digit_prefix_len(s: Seq<u8>) -> int
    decreases s.len(),
{
    if s.len() == 0 || !is_digit(s[0]) {
        0
    } else {
        1 + digit_prefix_len(s.drop_first())
    }
}

/// The number denoted by a sequence of decimal digits, most significant
/// first.
pub open spec fn dec_value(s: Seq<u8>) -> int
    decreases s.len(),
{
    if s.len() == 0 {
        0
    } else {
        dec_value(s.drop_last()) * 10 + (s.last() - 0x30)
    }
}

/// Parse an unsigned decimal number: the maximal digit prefix, refused if
/// empty, if it has a leading zero, or if its value does not fit.
pub open spec fn p_u64(s: Seq<u8>) -> Option<(u64, Seq<u8>)> {
    let k = digit_prefix_len(s);
    if k == 0 {
        None
    } else if k > 1 && s[0] == 0x30 {
        None
    } else if dec_value(s.take(k)) > u64::MAX {
        None
    } else {
        Some((dec_value(s.take(k)) as u64, s.skip(k)))
    }
}

/// Insignificant whitespace, allowed between the tokens of a record.
pub open spec fn is_ws(b: u8) -> bool {
    b == 0x20 || b == 0x09 || b == 0x0a || b == 0x0d
}

/// A sequence with its leading whitespace removed.
pub open spec fn skip_ws(s: Seq<u8>) -> Seq<u8>
    decreases s.len(),
{
    if s.len() == 0 || !is_ws(s[0]) {
        s
    } else {
        skip_ws(s.drop_first())
    }
}

/// Consume the colon between a key and its value, with whitespace
/// allowed on both sides.
pub open spec fn p_colon(s: Seq<u8>) -> Option<Seq<u8>> {
    let a = skip_ws(s);
    if a.len() >= 1 && a[0] == 0x3a {
        Some(skip_ws(a.skip(1)))
    } else {
        None
    }
}

/// Parse a quoted string value.
pub open spec fn p_val_string(s: Seq<u8>) -> Option<(Seq<u8>, Seq<u8>)> {
    if s.len() >= 1 && s[0] == 0x22 {
        p_string_body(s.drop_first())
    } else {
        None
    }
}

/// Parse one `key:number` member of a reconnect-hint record.
pub open spec fn p_num_member(s: Seq<u8>, key: Seq<u8>) -> Option<(u64, Seq<u8>)> {
    if s.len() >= key.len() && s.subrange(0, key.len() as int) == key {
        match p_colon(s.skip(key.len() as int)) {
            Some(v) => p_u64(v),
            None => None,
        }
    } else {
        None
    }
}

/// The closing steps of a reconnect-hint record: the nanoseconds must be
/// a true sub-second remainder, and the record ends with a brace.
pub open spec fn p_retry_end(secs: u64, nanos: u64, rest: Seq<u8>) -> Option<
    (RetryHint, Seq<u8>),
> {
    let r = skip_ws(rest);
    if nanos < 1_000_000_000 && r.len() >= 1 && r[0] == 0x7d {
        Some((RetryHint { secs, nanos: nanos as u32 }, r.drop_first()))
    } else {
        None
    }
}

/// Parse the wire form of a reconnect hint: a record of the seconds and
/// nanoseconds members, in either order.
pub open spec fn p_retry(s: Seq<u8>) -> Option<(RetryHint, Seq<u8>)> {
    if s.len() >= 1 && s[0] == 0x7b {
        let t = skip_ws(s.drop_first());
        if t.len() >= 6 && t.subrange(0, 6) == key_secs() {
            match p_num_member(t, key_secs()) {
                Some(p1) => {
                    let r1 = skip_ws(p1.1);
                    if r1.len() >= 1 && r1[0] == 0x2c {
                        match p_num_member(skip_ws(r1.skip(1)), key_nanos()) {
                            Some(p2) => p_retry_end(p1.0, p2.0, p2.1),
                            None => None,
                        }
                    } else {
                        None
                    }
                },
                None => None,
            }
        } else if t.len() >= 7 && t.subrange(0, 7) == key_nanos() {
            match p_num_member(t, key_nanos()) {
                Some(p1) => {
                    let r1 = skip_ws(p1.1);
                    if r1.len() >= 1 && r1[0] == 0x2c {
                        match p_num_member(skip_ws(r1.skip(1)), key_secs()) {
                            Some(p2) => p_retry_end(p2.0, p1.0, p2.1),
                            None => None,
                        }
                    } else {
                        None
                    }
                },
                None => None,
            }
        } else {
            None
        }
    } else {
        None
    }
}

/// Parse one `"key":value` member and set the named part of the event.
/// A key that is unknown, or already set, is refused.
pub open spec fn p_pair(s: Seq<u8>, acc: EventV) -> Option<(EventV, Seq<u8>)> {
    if s.len() >= 4 && s.subrange(0, 4) == key_id() {
        if acc.id is Some {
            None
        } else {
            match p_colon(s.skip(4)) {
                Some(v) => match p_val_string(v) {
                    Some(p) => Some((EventV { id: Some(p.0), ..acc }, p.1)),
                    None => None,
                },
                None => None,
            }
        }
    } else if s.len() >= 6 && s.subrange(0, 6) == key_data() {
        if acc.data is Some {
            None
        } else {
            match p_colon(s.skip(6)) {
                Some(v) => match p_val_string(v) {
                    Some(p) => Some((EventV { data: Some(p.0), ..acc }, p.1)),
                    None => None,
                },
                None => None,
            }
        }
    } else if s.len() >= 7 && s.subrange(0, 7) == key_event() {
        if acc.event is Some {
            None
        } else {
            match p_colon(s.skip(7)) {
                Some(v) => match p_val_string(v) {
                    Some(p) => Some((EventV { event: Some(p.0), ..acc }, p.1)),
                    None => None,
                },
                None => None,
            }
        }
    } else if s.len() >= 7 && s.subrange(0, 7) == key_retry() {
        if acc.retry is Some {
            None
        } else {
            match p_colon(s.skip(7)) {
                Some(v) => match p_retry(v) {
                    Some(p) => Some((EventV { retry: Some(p.0), ..acc }, p.1)),
                    None => None,
                },
                None => None,
            }
        }
    } else {
        None
    }
}

/// Parse a non-empty member list up to and including the closing brace.
pub open spec fn p_pairs(s: Seq<u8>, acc: EventV) -> Option<(EventV, Seq<u8>)>
    decreases s.len(),
{
    match p_pair(s, acc) {
        Some(p) => {
            let r = skip_ws(p.1);
            if r.len() >= 1 && r[0] == 0x2c {
                let nxt = skip_ws(r.skip(1));
                if nxt.len() < s.len() {
                    p_pairs(nxt, p.0)
                } else {
                    None
                }
            } else if r.len() >= 1 && r[0] == 0x7d {
                Some((p.0, r.drop_first()))
            } else {
                None
            }
        },
        None => None,
    }
}

/// The event denoted by a whole wire record, if it is one: braces around
/// an empty or comma-joined member list, with whitespace allowed around
/// tokens and nothing but whitespace before or after the record.
pub open spec fn decode_spec(s: Seq<u8>) -> Option<EventV> {
    let t0 = skip_ws(s);
    if t0.len() < 1 || t0[0] != 0x7b {
        None
    } else {
        let t1 = skip_ws(t0.drop_first());
        if t1.len() >= 1 && t1[0] == 0x7d {
            if skip_ws(t1.drop_first()).len() == 0 {
                Some(empty_event())
            } else {
                None
            }
        } else {
            match p_pairs(t1, empty_event()) {
                Some(p) => if skip_ws(p.1).len() == 0 {
                    Some(p.0)
                } else {
                    None
                },
                None => None,
            }
        }
    }
}

/// Why a wire record was refused. Transport failures are a different
/// matter entirely and are never reported through this type.
#[derive(Clone, Copy, Debug, PartialEq, Eq, Structural)]
pub enum DecodeError {
    /// The bytes are not a well-formed wire record.
    Malformed,
}

// ---------------------------------------------------------------------
// Encoding, executable side
// ---------------------------------------------------------------------

/// Appending one member to a comma-joined body extends it with a comma
/// (unless it is the first member) and the member itself.
pub proof fn lemma_enc_body_snoc(fds: Seq<FieldD>, fd: FieldD)
    ensures
        enc_body(fds.push(fd)) == if fds.len() == 0 {
            enc_field(fd)
        } else {
            (enc_body(fds) + seq![0x2c] + enc_field(fd))
        },
    decreases fds.len(),
{
    if fds.len() == 0 {
        assert(fds.push(fd).len() == 1);
        assert(fds.push(fd)[0] == fd);
    } else if fds.len() == 1 {
        assert(fds.push(fd)[0] == fds[0]);
        assert(fds.push(fd).drop_first() =~= seq![fd]);
        assert(enc_body(seq![fd]) == enc_field(fd));
    } else {
        assert(fds.push(fd)[0] == fds[0]);
        assert(fds.push(fd).drop_first() =~= fds.drop_first().push(fd));
        lemma_enc_body_snoc(fds.drop_first(), fd);
        assert(enc_body(fds.push(fd)) =~= enc_body(fds) + seq![0x2c] + enc_field(fd));
    }
}

fn hex_digit_of(n: u8) -> (r: u8)
    requires
        n < 16,
    ensures
        r == hex_digit(n),
{
    if n < 10 {
        0x30 + n
    } else {
        0x57 + n
    }
}

fn push_escaped_byte(out: &mut Vec<u8>, b: u8)
    ensures
        final(out)@ == old(out)@ + esc1(b),
{
    if b == 0x22 {
        out.push(0x5c);
        out.push(0x22);
    } else if b == 0x5c {
        out.push(0x5c);
        out.push(0x5c);
    } else if b == 0x08 {
        out.push(0x5c);
        out.push(0x62);
    } else if b == 0x09 {
        out.push(0x5c);
        out.push(0x74);
    } else if b == 0x0a {
        out.push(0x5c);
        out.push(0x6e);
    } else if b == 0x0c {
        out.push(0x5c);
        out.push(0x66);
    } else if b == 0x0d {
        out.push(0x5c);
        out.push(0x72);
    } else if b < 0x20 {
        out.push(0x5c);
        out.push(0x75);
        out.push(0x30);
        out.push(0x30);
        out.push(hex_digit_of(b / 16));
        out.push(hex_digit_of(b % 16));
    } else {
        out.push(b);
    }
    proof {
        assert(out@ =~= old(out)@ + esc1(b));
    }
}

fn push_escaped(out: &mut Vec<u8>, v: &Vec<u8>)
    ensures
        final(out)@ == old(out)@ + escape(v@),
{
    let ghost base = out@;
    let mut i: usize = 0;
    while i < v.len()
        invariant
            i <= v.len(),
            out@ == base + escape(v@.take(i as int)),
        decreases v.len() - i,
    {
        proof {
            assert(v@.take(i + 1 as int).drop_last() =~= v@.take(i as int));
            assert(v@.take(i + 1 as int).last() == v@[i as int]);
        }
        push_escaped_byte(out, v[i]);
        proof {
            assert(out@ =~= base + escape(v@.take(i + 1 as int)));
        }
        i = i + 1;
    }
    proof {
        assert(v@.take(v@.len() as int) =~= v@);
    }
}

fn push_quoted(out: &mut Vec<u8>, v: &Vec<u8>)
    ensures
        final(out)@ == old(out)@ + quoted(v@),
{
    out.push(0x22);
    push_escaped(out, v);
    out.push(0x22);
    proof {
        assert(out@ =~= old(out)@ + quoted(v@));
    }
}

fn push_dec(out: &mut Vec<u8>, n: u64)
    ensures
        final(out)@ == old(out)@ + dec_digits(n),
    decreases n,
{
    if n < 10 {
        out.push(0x30 + (n as u8));
        proof {
            assert(out@ =~= old(out)@ + dec_digits(n));
        }
    } else {
        push_dec(out, n / 10);
        out.push(0x30 + ((n % 10) as u8));
        proof {
            assert(out@ =~= old(out)@ + dec_digits(n));
        }
    }
}

fn push_key_id(out: &mut Vec<u8>)
    ensures
        final(out)@ == old(out)@ + key_id() + seq![0x3au8],
{
    out.push(0x22);
    out.push(0x69);
    out.push(0x64);
    out.push(0x22);
    out.push(0x3a);
    proof {
        assert(out@ =~= old(out)@ + key_id() + seq![0x3au8]);
    }
}

fn push_key_data(out: &mut Vec<u8>)
    ensures
        final(out)@ == old(out)@ + key_data() + seq![0x3au8],
{
    out.push(0x22);
    out.push(0x64);
    out.push(0x61);
    out.push(0x74);
    out.push(0x61);
    out.push(0x22);
    out.push(0x3a);
    proof {
        assert(out@ =~= old(out)@ + key_data() + seq![0x3au8]);
    }
}

fn push_key_event(out: &mut Vec<u8>)
    ensures
        final(out)@ == old(out)@ + key_event() + seq![0x3au8],
{
    out.push(0x22);
    out.push(0x65);
    out.push(0x76);
    out.push(0x65);
    out.push(0x6e);
    out.push(0x74);
    out.push(0x22);
    out.push(0x3a);
    proof {
        assert(out@ =~= old(out)@ + key_event() + seq![0x3au8]);
    }
}

fn push_key_retry(out: &mut Vec<u8>)
    ensures
        final(out)@ == old(out)@ + key_retry() + seq![0x3au8],
{
    out.push(0x22);
    out.push(0x72);
    out.push(0x65);
    out.push(0x74);
    out.push(0x72);
    out.push(0x79);
    out.push(0x22);
    out.push(0x3a);
    proof {
        assert(out@ =~= old(out)@ + key_retry() + seq![0x3au8]);
    }
}

fn push_key_secs(out: &mut Vec<u8>)
    ensures
        final(out)@ == old(out)@ + key_secs() + seq![0x3au8],
{
    out.push(0x22);
    out.push(0x73);
    out.push(0x65);
    out.push(0x63);
    out.push(0x73);
    out.push(0x22);
    out.push(0x3a);
    proof {
        assert(out@ =~= old(out)@ + key_secs() + seq![0x3au8]);
    }
}

fn push_key_nanos(out: &mut Vec<u8>)
    ensures
        final(out)@ == old(out)@ + key_nanos() + seq![0x3au8],
{
    out.push(0x22);
    out.push(0x6e);
    out.push(0x61);
    out.push(0x6e);
    out.push(0x6f);
    out.push(0x73);
    out.push(0x22);
    out.push(0x3a);
    proof {
        assert(out@ =~= old(out)@ + key_nanos() + seq![0x3au8]);
    }
}

fn push_retry(out: &mut Vec<u8>, r: &RetryHint)
    ensures
        final(out)@ == old(out)@ + enc_retry(*r),
{
    out.push(0x7b);
    push_key_secs(out);
    push_dec(out, r.secs);
    out.push(0x2c);
    push_key_nanos(out);
    push_dec(out, r.nanos as u64);
    out.push(0x7d);
    proof {
        assert(out@ =~= old(out)@ + enc_retry(*r));
    }
}

/// Serialize an event to its wire form.
#[verifier::rlimit(100)]
pub fn encode(e: &SseMessage) -> (out: Vec<u8>)
    ensures
        out@ == encode_spec(e@),
{
    let mut out: Vec<u8> = Vec::new();
    out.push(0x7b);
    let mut first: bool = true;
    let ghost mut fds: Seq<FieldD> = Seq::empty();
    proof {
        assert(out@ =~= seq![0x7bu8] + enc_body(fds));
    }
    match &e.id {
        Some(v) => {
            push_key_id(&mut out);
            push_quoted(&mut out, v);
            first = false;
            proof {
                lemma_enc_body_snoc(fds, FieldD::FieldId(v@));
                fds = fds.push(FieldD::FieldId(v@));
                assert(out@ =~= seq![0x7bu8] + enc_body(fds));
            }
        },
        None => {},
    }
    proof {
        assert(out@ == seq![0x7bu8] + enc_body(fds));
        assert(first == (fds.len() == 0));
    }
    match &e.data {
        Some(v) => {
            if !first {
                out.push(0x2c);
            }
            push_key_data(&mut out);
            push_quoted(&mut out, v);
            first = false;
            proof {
                lemma_enc_body_snoc(fds, FieldD::FieldData(v@));
                fds = fds.push(FieldD::FieldData(v@));
                assert(out@ =~= seq![0x7bu8] + enc_body(fds));
            }
        },
        None => {},
    }
    proof {
        assert(out@ == seq![0x7bu8] + enc_body(fds));
        assert(first == (fds.len() == 0));
    }
    match &e.event {
        Some(v) => {
            if !first {
                out.push(0x2c);
            }
            push_key_event(&mut out);
            push_quoted(&mut out, v);
            first = false;
            proof {
                lemma_enc_body_snoc(fds, FieldD::FieldEvent(v@));
                fds = fds.push(FieldD::FieldEvent(v@));
                assert(out@ =~= seq![0x7bu8] + enc_body(fds));
            }
        },
        None => {},
    }
    proof {
        assert(out@ == seq![0x7bu8] + enc_body(fds));
        assert(first == (fds.len() == 0));
    }
    match &e.retry {
        Some(r) => {
            if !first {
                out.push(0x2c);
            }
            push_key_retry(&mut out);
            push_retry(&mut out, r);
            proof {
                lemma_enc_body_snoc(fds, FieldD::FieldRetry(*r));
                fds = fds.push(FieldD::FieldRetry(*r));
                assert(out@ =~= seq![0x7bu8] + enc_body(fds));
            }
        },
        None => {},
    }
    out.push(0x7d);
    proof {
        assert(fds =~= fields_of(e@));
        assert(out@ =~= seq![0x7bu8] + enc_body(fields_of(e@)) + seq![0x7du8]);
    }
    out
}

// ---------------------------------------------------------------------
// Facts about digit prefixes and decimal values
// ---------------------------------------------------------------------

/// The digit prefix never runs past the end.
pub proof fn lemma_dpl_bounds(s: Seq<u8>)
    ensures
        0 <= digit_prefix_len(s) <= s.len(),
    decreases s.len(),
{
    if s.len() == 0 || !is_digit(s[0]) {
    } else {
        lemma_dpl_bounds(s.drop_first());
    }
}

/// A stretch of digits ending at the end or at a non-digit is exactly the
/// digit prefix.
pub proof fn lemma_dpl_exact(s: Seq<u8>, m: int)
    requires
        0 <= m <= s.len(),
        forall|i: int| 0 <= i < m ==> is_digit(s[i]),
        m == s.len() || !is_digit(s[m]),
    ensures
        digit_prefix_len(s) == m,
    decreases m,
{
    if m == 0 {
    } else {
        assert(is_digit(s[0]));
        assert forall|i: int| 0 <= i < m - 1 implies is_digit(s.drop_first()[i]) by {
            assert(s.drop_first()[i] == s[i + 1]);
        }
        if m < s.len() {
            assert(s.drop_first()[m - 1] == s[m]);
        }
        lemma_dpl_exact(s.drop_first(), m - 1);
    }
}

/// A stretch of digits from the start bounds the digit prefix from below.
pub proof fn lemma_dpl_min(s: Seq<u8>, m: int)
    requires
        0 <= m <= s.len(),
        forall|i: int| 0 <= i < m ==> is_digit(s[i]),
    ensures
        digit_prefix_len(s) >= m,
    decreases m,
{
    lemma_dpl_bounds(s);
    if m == 0 {
    } else {
        assert(is_digit(s[0]));
        assert forall|i: int| 0 <= i < m - 1 implies is_digit(s.drop_first()[i]) by {
            assert(s.drop_first()[i] == s[i + 1]);
        }
        lemma_dpl_min(s.drop_first(), m - 1);
        assert(s.len() >= 1);
        assert(digit_prefix_len(s) == 1 + digit_prefix_len(s.drop_first()));
    }
}

/// Everything inside the digit prefix is a digit.
pub proof fn lemma_dpl_digits(s: Seq<u8>)
    ensures
        forall|i: int| 0 <= i < digit_prefix_len(s) ==> is_digit(s[i]),
    decreases s.len(),
{
    if s.len() == 0 || !is_digit(s[0]) {
    } else {
        lemma_dpl_bounds(s);
        lemma_dpl_bounds(s.drop_first());
        lemma_dpl_digits(s.drop_first());
        assert forall|i: int| 0 <= i < digit_prefix_len(s) implies is_digit(s[i]) by {
            if i > 0 {
                assert(s.drop_first()[i - 1] == s[i]);
            }
        }
    }
}

/// The value of a digit string is never negative.
pub proof fn lemma_dec_value_nonneg(s: Seq<u8>)
    requires
        forall|i: int| 0 <= i < s.len() ==> is_digit(s[i]),
    ensures
        dec_value(s) >= 0,
    decreases s.len(),
{
    if s.len() == 0 {
    } else {
        assert forall|i: int| 0 <= i < s.drop_last().len() implies is_digit(
            s.drop_last()[i],
        ) by {
            assert(s.drop_last()[i] == s[i]);
        }
        lemma_dec_value_nonneg(s.drop_last());
    }
}

/// Appending further digits can only grow the value.
pub proof fn lemma_dec_value_extend(p: Seq<u8>, q: Seq<u8>)
    requires
        dec_value(p) >= 0,
        forall|i: int| 0 <= i < q.len() ==> is_digit(q[i]),
    ensures
        dec_value(p + q) >= dec_value(p),
    decreases q.len(),
{
    if q.len() == 0 {
        assert(p + q =~= p);
    } else {
        assert forall|i: int| 0 <= i < q.drop_last().len() implies is_digit(
            q.drop_last()[i],
        ) by {
            assert(q.drop_last()[i] == q[i]);
        }
        lemma_dec_value_extend(p, q.drop_last());
        assert((p + q).drop_last() =~= p + q.drop_last());
        assert((p + q).last() == q.last());
        assert(is_digit(q[q.len() - 1]));
    }
}

// ---------------------------------------------------------------------
// Decoding, executable side
// ---------------------------------------------------------------------

/// Splice an already-unescaped prefix onto the outcome of parsing the
/// rest of a string body.
pub open spec fn graft(pre: Seq<u8>, r: Option<(Seq<u8>, Seq<u8>)>) -> Option<
    (Seq<u8>, Seq<u8>),
> {
    match r {
        Some(p) => Some((pre + p.0, p.1)),
        None => None,
    }
}

proof fn lemma_graft_step(pre: Seq<u8>, b: u8, r: Option<(Seq<u8>, Seq<u8>)>)
    ensures
        graft(pre, prepend_parsed(b, r)) == graft(pre.push(b), r),
{
    match r {
        Some(p) => {
            assert(pre + (seq![b] + p.0) =~= pre.push(b) + p.0);
        },
        None => {},
    }
}

fn is_digit_of(b: u8) -> (r: bool)
    ensures
        r == is_digit(b),
{
    0x30 <= b && b <= 0x39
}

fn is_hex_of(b: u8) -> (r: bool)
    ensures
        r == is_hex(b),
{
    (0x30 <= b && b <= 0x39) || (0x61 <= b && b <= 0x66) || (0x41 <= b && b <= 0x46)
}

fn hex_val_of(b: u8) -> (r: u8)
    requires
        is_hex(b),
    ensures
        r == hex_val(b),
{
    if b <= 0x39 {
        b - 0x30
    } else if b >= 0x61 {
        b - 0x57
    } else {
        b - 0x37
    }
}

fn esc_code_of(c: u8) -> (r: Option<u8>)
    ensures
        r == esc_code(c),
{
    if c == 0x22 {
        Some(0x22)
    } else if c == 0x5c {
        Some(0x5c)
    } else if c == 0x2f {
        Some(0x2f)
    } else if c == 0x62 {
        Some(0x08)
    } else if c == 0x74 {
        Some(0x09)
    } else if c == 0x6e {
        Some(0x0a)
    } else if c == 0x66 {
        Some(0x0c)
    } else if c == 0x72 {
        Some(0x0d)
    } else {
        None
    }
}

/// Scan the inside of a quoted string starting at `from`, unescaping into
/// a fresh buffer, mirroring [`p_string_body`].
fn scan_string(s: &Vec<u8>, from: usize) -> (r: Option<(Vec<u8>, usize)>)
    requires
        from <= s@.len(),
    ensures
        match r {
            Some(p) => from < p.1 <= s@.len() && p_string_body(s@.skip(from as int)) == Some(
                (p.0@, s@.skip(p.1 as int)),
            ),
            None => p_string_body(s@.skip(from as int)) is None,
        },
{
    let mut out: Vec<u8> = Vec::new();
    let mut k = from;
    loop
        invariant
            from <= k <= s@.len(),
            p_string_body(s@.skip(from as int)) == graft(out@, p_string_body(s@.skip(k as int))),
        decreases s@.len() - k,
    {
        let ghost t = s@.skip(k as int);
        if k == s.len() {
            return None;
        }
        let b = s[k];
        proof {
            assert(t[0] == s@[k as int]);
        }
        if b == 0x22 {
            proof {
                assert(t.drop_first() =~= s@.skip(k + 1));
                assert(out@ + Seq::<u8>::empty() =~= out@);
            }
            return Some((out, k + 1));
        } else if b == 0x5c {
            if k + 1 == s.len() {
                return None;
            }
            let c = s[k + 1];
            proof {
                assert(t[1] == s@[k + 1]);
            }
            match esc_code_of(c) {
                Some(d) => {
                    proof {
                        crate::seq_facts::lemma_skip_skip(s@, k as int, 2);
                        lemma_graft_step(out@, d, p_string_body(s@.skip(k + 2)));
                    }
                    out.push(d);
                    k = k + 2;
                },
                None => {
                    if c == 0x75 && s.len() - k > 5 {
                        let h1 = s[k + 4];
                        let h2 = s[k + 5];
                        proof {
                            assert(t[2] == s@[k + 2]);
                            assert(t[3] == s@[k + 3]);
                            assert(t[4] == s@[k + 4]);
                            assert(t[5] == s@[k + 5]);
                        }
                        if s[k + 2] == 0x30 && s[k + 3] == 0x30 && is_hex_of(h1) && is_hex_of(
                            h2,
                        ) {
                            let d = hex_val_of(h1) * 16 + hex_val_of(h2);
                            proof {
                                crate::seq_facts::lemma_skip_skip(s@, k as int, 6);
                                lemma_graft_step(out@, d, p_string_body(s@.skip(k + 6)));
                            }
                            out.push(d);
                            k = k + 6;
                        } else {
                            return None;
                        }
                    } else {
                        return None;
                    }
                },
            }
        } else if b < 0x20 {
            return None;
        } else {
            proof {
                assert(t.drop_first() =~= s@.skip(k + 1));
                lemma_graft_step(out@, b, p_string_body(s@.skip(k + 1)));
            }
            out.push(b);
            k = k + 1;
        }
    }
}

/// Scan an unsigned decimal number starting at `from`, mirroring
/// [`p_u64`].
fn scan_u64(s: &Vec<u8>, from: usize) -> (r: Option<(u64, usize)>)
    requires
        from <= s@.len(),
    ensures
        match r {
            Some(p) => from < p.1 <= s@.len() && p_u64(s@.skip(from as int)) == Some(
                (p.0, s@.skip(p.1 as int)),
            ),
            None => p_u64(s@.skip(from as int)) is None,
        },
{
    let ghost t = s@.skip(from as int);
    if from == s.len() || !is_digit_of(s[from]) {
        proof {
            if t.len() > 0 {
                assert(t[0] == s@[from as int]);
            }
        }
        return None;
    }
    proof {
        assert(t[0] == s@[from as int]);
    }
    if s[from] == 0x30 && from + 1 < s.len() && is_digit_of(s[from + 1]) {
        proof {
            assert(t[0] == s@[from as int]);
            assert(t[1] == s@[from + 1]);
            lemma_dpl_min(t, 2);
        }
        return None;
    }
    let mut val: u64 = (s[from] - 0x30) as u64;
    let mut j = from + 1;
    proof {
        reveal_with_fuel(dec_value, 2);
        assert(s@.subrange(from as int, j as int) =~= seq![s@[from as int]]);
        assert(s@.subrange(from as int, j as int).drop_last() =~= Seq::<u8>::empty());
        assert(dec_value(Seq::<u8>::empty()) == 0);
        assert(dec_value(s@.subrange(from as int, j as int)) == val);
    }
    loop
        invariant
            from < j <= s@.len(),
            forall|i: int| from <= i < j ==> is_digit(s@[i]),
            val == dec_value(s@.subrange(from as int, j as int)),
            j > from + 1 ==> s@[from as int] != 0x30,
            s@[from as int] == 0x30 ==> j == from + 1,
            s@[from as int] == 0x30 ==> from + 1 == s@.len() || !is_digit(s@[from + 1]),
            is_digit(s@[from as int]),
        decreases s@.len() - j,
    {
        let ghost t = s@.skip(from as int);
        if j == s.len() || !is_digit_of(s[j]) {
            // the digit prefix ends exactly at j
            proof {
                assert forall|i: int| 0 <= i < j - from implies is_digit(t[i]) by {
                    assert(t[i] == s@[from + i]);
                }
                if j < s.len() {
                    assert(t[j - from] == s@[j as int]);
                }
                lemma_dpl_exact(t, j - from);
                assert(t.take(j - from) =~= s@.subrange(from as int, j as int));
                crate::seq_facts::lemma_skip_skip(s@, from as int, j - from);
                assert(t.skip(j - from) == s@.skip(j as int));
                if j - from > 1 {
                    assert(t[0] != 0x30);
                }
            }
            return Some((val, j));
        }
        let d = (s[j] - 0x30) as u64;
        proof {
            assert(s@.subrange(from as int, j + 1).drop_last() =~= s@.subrange(
                from as int,
                j as int,
            ));
            assert(s@.subrange(from as int, j + 1).last() == s@[j as int]);
        }
        if val > (u64::MAX - d) / 10 {
            // the full digit prefix denotes a value beyond u64
            proof {
                assert(val * 10 + d > u64::MAX) by (nonlinear_arith)
                    requires
                        val > (u64::MAX - d) / 10,
                        d <= 9,
                ;
                let k = digit_prefix_len(t);
                lemma_dpl_bounds(t);
                lemma_dpl_digits(t);
                assert forall|i: int| 0 <= i < j + 1 - from implies is_digit(t[i]) by {
                    assert(t[i] == s@[from + i]);
                }
                lemma_dpl_min(t, j + 1 - from);
                let p = s@.subrange(from as int, j + 1);
                let q = t.subrange(j + 1 - from, k);
                assert(p =~= t.subrange(0, j + 1 - from));
                assert(t.take(k) =~= p + q);
                assert(dec_value(p) == val * 10 + d);
                assert forall|i: int| 0 <= i < q.len() implies is_digit(q[i]) by {
                    assert(q[i] == t[j + 1 - from + i]);
                }
                lemma_dec_value_extend(p, q);
                assert(dec_value(t.take(k)) > u64::MAX);
            }
            return None;
        }
        val = val * 10 + d;
        j = j + 1;
    }
}

fn is_ws_of(b: u8) -> (r: bool)
    ensures
        r == is_ws(b),
{
    b == 0x20 || b == 0x09 || b == 0x0a || b == 0x0d
}

/// Advance past insignificant whitespace, mirroring [`skip_ws`].
fn scan_ws(s: &Vec<u8>, from: usize) -> (j: usize)
    requires
        from <= s@.len(),
    ensures
        from <= j <= s@.len(),
        skip_ws(s@.skip(from as int)) == s@.skip(j as int),
{
    let mut k = from;
    loop
        invariant
            from <= k <= s@.len(),
            skip_ws(s@.skip(from as int)) == skip_ws(s@.skip(k as int)),
        decreases s@.len() - k,
    {
        if k == s.len() {
            return k;
        }
        let b = s[k];
        proof {
            assert(s@.skip(k as int)[0] == s@[k as int]);
        }
        if is_ws_of(b) {
            proof {
                assert(s@.skip(k as int).drop_first() =~= s@.skip(k + 1));
            }
            k = k + 1;
        } else {
            return k;
        }
    }
}

/// Consume `whitespace, colon, whitespace`, mirroring [`p_colon`].
fn scan_colon(s: &Vec<u8>, from: usize) -> (r: Option<usize>)
    requires
        from <= s@.len(),
    ensures
        match r {
            Some(j) => from < j <= s@.len() && p_colon(s@.skip(from as int)) == Some(
                s@.skip(j as int),
            ),
            None => p_colon(s@.skip(from as int)) is None,
        },
{
    let a = scan_ws(s, from);
    proof {
        if s@.skip(a as int).len() > 0 {
            assert(s@.skip(a as int)[0] == s@[a as int]);
        }
    }
    if a < s.len() && s[a] == 0x3a {
        proof {
            assert(s@.skip(a as int).skip(1) =~= s@.skip(a + 1));
        }
        let j = scan_ws(s, a + 1);
        Some(j)
    } else {
        None
    }
}

fn match_key_id(s: &Vec<u8>, from: usize) -> (b: bool)
    requires
        from <= s@.len(),
    ensures
        b == (s@.len() - from >= 4 && s@.subrange(from as int, from + 4) == key_id()),
{
    if s.len() - from >= 4 && s[from] == 0x22 && s[from + 1] == 0x69 && s[from + 2] == 0x64 && s[
        from + 3] == 0x22 {
        proof {
            assert(s@.subrange(from as int, from + 4) =~= key_id());
        }
        true
    } else {
        false
    }
}

fn match_key_data(s: &Vec<u8>, from: usize) -> (b: bool)
    requires
        from <= s@.len(),
    ensures
        b == (s@.len() - from >= 6 && s@.subrange(from as int, from + 6) == key_data()),
{
    if s.len() - from >= 6 && s[from] == 0x22 && s[from + 1] == 0x64 && s[from + 2] == 0x61 && s[
        from + 3] == 0x74 && s[from + 4] == 0x61 && s[from + 5] == 0x22 {
        proof {
            assert(s@.subrange(from as int, from + 6) =~= key_data());
        }
        true
    } else {
        false
    }
}

fn match_key_event(s: &Vec<u8>, from: usize) -> (b: bool)
    requires
        from <= s@.len(),
    ensures
        b == (s@.len() - from >= 7 && s@.subrange(from as int, from + 7) == key_event()),
{
    if s.len() - from >= 7 && s[from] == 0x22 && s[from + 1] == 0x65 && s[from + 2] == 0x76 && s[
        from + 3] == 0x65 && s[from + 4] == 0x6e && s[from + 5] == 0x74 && s[from + 6] == 0x22 {
        proof {
            assert(s@.subrange(from as int, from + 7) =~= key_event());
        }
        true
    } else {
        false
    }
}

fn match_key_retry(s: &Vec<u8>, from: usize) -> (b: bool)
    requires
        from <= s@.len(),
    ensures
        b == (s@.len() - from >= 7 && s@.subrange(from as int, from + 7) == key_retry()),
{
    if s.len() - from >= 7 && s[from] == 0x22 && s[from + 1] == 0x72 && s[from + 2] == 0x65 && s[
        from + 3] == 0x74 && s[from + 4] == 0x72 && s[from + 5] == 0x79 && s[from + 6] == 0x22 {
        proof {
            assert(s@.subrange(from as int, from + 7) =~= key_retry());
        }
        true
    } else {
        false
    }
}

fn match_key_secs(s: &Vec<u8>, from: usize) -> (b: bool)
    requires
        from <= s@.len(),
    ensures
        b == (s@.len() - from >= 6 && s@.subrange(from as int, from + 6) == key_secs()),
{
    if s.len() - from >= 6 && s[from] == 0x22 && s[from + 1] == 0x73 && s[from + 2] == 0x65 && s[
        from + 3] == 0x63 && s[from + 4] == 0x73 && s[from + 5] == 0x22 {
        proof {
            assert(s@.subrange(from as int, from + 6) =~= key_secs());
        }
        true
    } else {
        false
    }
}

fn match_key_nanos(s: &Vec<u8>, from: usize) -> (b: bool)
    requires
        from <= s@.len(),
    ensures
        b == (s@.len() - from >= 7 && s@.subrange(from as int, from + 7) == key_nanos()),
{
    if s.len() - from >= 7 && s[from] == 0x22 && s[from + 1] == 0x6e && s[from + 2] == 0x61 && s[
        from + 3] == 0x6e && s[from + 4] == 0x6f && s[from + 5] == 0x73 && s[from + 6] == 0x22 {
        proof {
            assert(s@.subrange(from as int, from + 7) =~= key_nanos());
        }
        true
    } else {
        false
    }
}

/// Scan one seconds member of a reconnect-hint record, mirroring
/// [`p_num_member`] applied to its key.
fn scan_secs_member(s: &Vec<u8>, from: usize) -> (r: Option<(u64, usize)>)
    requires
        from <= s@.len(),
    ensures
        match r {
            Some(p) => from < p.1 <= s@.len() && p_num_member(s@.skip(from as int), key_secs())
                == Some((p.0, s@.skip(p.1 as int))),
            None => p_num_member(s@.skip(from as int), key_secs()) is None,
        },
{
    let ghost t = s@.skip(from as int);
    proof {
        if t.len() >= 6 {
            assert(t.subrange(0, 6) =~= s@.subrange(from as int, from + 6));
        }
    }
    if !(s.len() - from >= 6 && match_key_secs(s, from)) {
        return None;
    }
    proof {
        crate::seq_facts::lemma_skip_skip(s@, from as int, 6);
    }
    match scan_colon(s, from + 6) {
        Some(v) => scan_u64(s, v),
        None => None,
    }
}

/// Scan one nanoseconds member of a reconnect-hint record, mirroring
/// [`p_num_member`] applied to its key.
fn scan_nanos_member(s: &Vec<u8>, from: usize) -> (r: Option<(u64, usize)>)
    requires
        from <= s@.len(),
    ensures
        match r {
            Some(p) => from < p.1 <= s@.len() && p_num_member(s@.skip(from as int), key_nanos())
                == Some((p.0, s@.skip(p.1 as int))),
            None => p_num_member(s@.skip(from as int), key_nanos()) is None,
        },
{
    let ghost t = s@.skip(from as int);
    proof {
        if t.len() >= 7 {
            assert(t.subrange(0, 7) =~= s@.subrange(from as int, from + 7));
        }
    }
    if !(s.len() - from >= 7 && match_key_nanos(s, from)) {
        return None;
    }
    proof {
        crate::seq_facts::lemma_skip_skip(s@, from as int, 7);
    }
    match scan_colon(s, from + 7) {
        Some(v) => scan_u64(s, v),
        None => None,
    }
}

/// Scan the closing brace of a reconnect-hint record, mirroring
/// [`p_retry_end`].
fn scan_retry_end(s: &Vec<u8>, secs: u64, nanos: u64, from: usize) -> (r: Option<
    (RetryHint, usize),
>)
    requires
        from <= s@.len(),
    ensures
        match r {
            Some(p) => from < p.1 <= s@.len() && p_retry_end(secs, nanos, s@.skip(from as int))
                == Some((p.0, s@.skip(p.1 as int))) && p.0.wf(),
            None => p_retry_end(secs, nanos, s@.skip(from as int)) is None,
        },
{
    let w = scan_ws(s, from);
    proof {
        if s@.skip(w as int).len() > 0 {
            assert(s@.skip(w as int)[0] == s@[w as int]);
        }
    }
    if nanos < 1_000_000_000 && w < s.len() && s[w] == 0x7d {
        proof {
            assert(s@.skip(w as int).drop_first() =~= s@.skip(w + 1));
        }
        Some((RetryHint { secs, nanos: nanos as u32 }, w + 1))
    } else {
        None
    }
}

/// Scan the wire form of a reconnect hint starting at `from`, mirroring
/// [`p_retry`].
fn scan_retry(s: &Vec<u8>, from: usize) -> (r: Option<(RetryHint, usize)>)
    requires
        from <= s@.len(),
    ensures
        match r {
            Some(p) => from < p.1 <= s@.len() && p_retry(s@.skip(from as int)) == Some(
                (p.0, s@.skip(p.1 as int)),
            ) && p.0.wf(),
            None => p_retry(s@.skip(from as int)) is None,
        },
{
    let ghost t = s@.skip(from as int);
    proof {
        if t.len() > 0 {
            assert(t[0] == s@[from as int]);
        }
    }
    if !(from < s.len() && s[from] == 0x7b) {
        return None;
    }
    proof {
        assert(t.drop_first() =~= s@.skip(from + 1));
    }
    let k = scan_ws(s, from + 1);
    let ghost tk = s@.skip(k as int);
    proof {
        if tk.len() >= 6 {
            assert(tk.subrange(0, 6) =~= s@.subrange(k as int, k + 6));
        }
        if tk.len() >= 7 {
            assert(tk.subrange(0, 7) =~= s@.subrange(k as int, k + 7));
        }
    }
    if s.len() - k >= 6 && match_key_secs(s, k) {
        match scan_secs_member(s, k) {
            Some((secs, j1)) => {
                let w1 = scan_ws(s, j1);
                proof {
                    if s@.skip(w1 as int).len() > 0 {
                        assert(s@.skip(w1 as int)[0] == s@[w1 as int]);
                    }
                }
                if !(w1 < s.len() && s[w1] == 0x2c) {
                    return None;
                }
                proof {
                    assert(s@.skip(w1 as int).skip(1) =~= s@.skip(w1 + 1));
                }
                let v2 = scan_ws(s, w1 + 1);
                match scan_nanos_member(s, v2) {
                    Some((nanos, j2)) => scan_retry_end(s, secs, nanos, j2),
                    None => None,
                }
            },
            None => None,
        }
    } else if s.len() - k >= 7 && match_key_nanos(s, k) {
        match scan_nanos_member(s, k) {
            Some((nanos, j1)) => {
                let w1 = scan_ws(s, j1);
                proof {
                    if s@.skip(w1 as int).len() > 0 {
                        assert(s@.skip(w1 as int)[0] == s@[w1 as int]);
                    }
                }
                if !(w1 < s.len() && s[w1] == 0x2c) {
                    return None;
                }
                proof {
                    assert(s@.skip(w1 as int).skip(1) =~= s@.skip(w1 + 1));
                }
                let v2 = scan_ws(s, w1 + 1);
                match scan_secs_member(s, v2) {
                    Some((secs, j2)) => scan_retry_end(s, secs, nanos, j2),
                    None => None,
                }
            },
            None => None,
        }
    } else {
        None
    }
}

/// Scan one member starting at `from`, mirroring [`p_pair`].
fn scan_pair(s: &Vec<u8>, from: usize, acc: SseMessage) -> (r: Option<(SseMessage, usize)>)
    requires
        from <= s@.len(),
    ensures
        match r {
            Some(p) => from < p.1 <= s@.len() && p_pair(s@.skip(from as int), acc@) == Some(
                (p.0@, s@.skip(p.1 as int)),
            ) && (wf_event(acc@) ==> wf_event(p.0@)),
            None => p_pair(s@.skip(from as int), acc@) is None,
        },
{
    let ghost t = s@.skip(from as int);
    proof {
        if t.len() >= 4 {
            assert(t.subrange(0, 4) =~= s@.subrange(from as int, from + 4));
        }
        if t.len() >= 6 {
            assert(t.subrange(0, 6) =~= s@.subrange(from as int, from + 6));
        }
        if t.len() >= 7 {
            assert(t.subrange(0, 7) =~= s@.subrange(from as int, from + 7));
        }
    }
    if s.len() - from >= 4 && match_key_id(s, from) {
        if acc.id.is_some() {
            return None;
        }
        proof {
            crate::seq_facts::lemma_skip_skip(s@, from as int, 4);
        }
        match scan_colon(s, from + 4) {
            Some(v) => {
                proof {
                    if s@.skip(v as int).len() > 0 {
                        assert(s@.skip(v as int)[0] == s@[v as int]);
                    }
                }
                if !(v < s.len() && s[v] == 0x22) {
                    return None;
                }
                proof {
                    assert(s@.skip(v as int).drop_first() =~= s@.skip(v + 1));
                }
                match scan_string(s, v + 1) {
                    Some((val, j)) => Some(
                        (
                            SseMessage {
                                id: Some(val),
                                data: acc.data,
                                event: acc.event,
                                retry: acc.retry,
                            },
                            j,
                        ),
                    ),
                    None => None,
                }
            },
            None => None,
        }
    } else if s.len() - from >= 6 && match_key_data(s, from) {
        if acc.data.is_some() {
            return None;
        }
        proof {
            crate::seq_facts::lemma_skip_skip(s@, from as int, 6);
        }
        match scan_colon(s, from + 6) {
            Some(v) => {
                proof {
                    if s@.skip(v as int).len() > 0 {
                        assert(s@.skip(v as int)[0] == s@[v as int]);
                    }
                }
                if !(v < s.len() && s[v] == 0x22) {
                    return None;
                }
                proof {
                    assert(s@.skip(v as int).drop_first() =~= s@.skip(v + 1));
                }
                match scan_string(s, v + 1) {
                    Some((val, j)) => Some(
                        (
                            SseMessage {
                                id: acc.id,
                                data: Some(val),
                                event: acc.event,
                                retry: acc.retry,
                            },
                            j,
                        ),
                    ),
                    None => None,
                }
            },
            None => None,
        }
    } else if s.len() - from >= 7 && match_key_event(s, from) {
        if acc.event.is_some() {
            return None;
        }
        proof {
            crate::seq_facts::lemma_skip_skip(s@, from as int, 7);
        }
        match scan_colon(s, from + 7) {
            Some(v) => {
                proof {
                    if s@.skip(v as int).len() > 0 {
                        assert(s@.skip(v as int)[0] == s@[v as int]);
                    }
                }
                if !(v < s.len() && s[v] == 0x22) {
                    return None;
                }
                proof {
                    assert(s@.skip(v as int).drop_first() =~= s@.skip(v + 1));
                }
                match scan_string(s, v + 1) {
                    Some((val, j)) => Some(
                        (
                            SseMessage {
                                id: acc.id,
                                data: acc.data,
                                event: Some(val),
                                retry: acc.retry,
                            },
                            j,
                        ),
                    ),
                    None => None,
                }
            },
            None => None,
        }
    } else if s.len() - from >= 7 && match_key_retry(s, from) {
        if acc.retry.is_some() {
            return None;
        }
        proof {
            crate::seq_facts::lemma_skip_skip(s@, from as int, 7);
        }
        match scan_colon(s, from + 7) {
            Some(v) => match scan_retry(s, v) {
                Some((rh, j)) => Some(
                    (
                        SseMessage {
                            id: acc.id,
                            data: acc.data,
                            event: acc.event,
                            retry: Some(rh),
                        },
                        j,
                    ),
                ),
                None => None,
            },
            None => None,
        }
    } else {
        None
    }
}

/// Scan a non-empty member list up to and including the closing brace,
/// mirroring [`p_pairs`].
fn scan_pairs(s: &Vec<u8>, from: usize, acc: SseMessage) -> (r: Option<(SseMessage, usize)>)
    requires
        from <= s@.len(),
    ensures
        match r {
            Some(p) => from < p.1 <= s@.len() && p_pairs(s@.skip(from as int), acc@) == Some(
                (p.0@, s@.skip(p.1 as int)),
            ) && (wf_event(acc@) ==> wf_event(p.0@)),
            None => p_pairs(s@.skip(from as int), acc@) is None,
        },
    decreases s@.len() - from,
{
    match scan_pair(s, from, acc) {
        None => None,
        Some((acc2, j)) => {
            let w = scan_ws(s, j);
            proof {
                if s@.skip(w as int).len() > 0 {
                    assert(s@.skip(w as int)[0] == s@[w as int]);
                }
            }
            if w < s.len() && s[w] == 0x2c {
                proof {
                    assert(s@.skip(w as int).skip(1) =~= s@.skip(w + 1));
                }
                let nf = scan_ws(s, w + 1);
                scan_pairs(s, nf, acc2)
            } else if w < s.len() && s[w] == 0x7d {
                proof {
                    assert(s@.skip(w as int).drop_first() =~= s@.skip(w + 1));
                }
                Some((acc2, w + 1))
            } else {
                None
            }
        },
    }
}

/// Parse an event from its wire form. Success and failure are exact: the
/// bytes decode to an event exactly when they are a record of the wire
/// grammar, and any other input is refused as malformed.
pub fn decode(s: &Vec<u8>) -> (r: Result<SseMessage, DecodeError>)
    ensures
        match r {
            Ok(e) => decode_spec(s@) == Some(e@) && wf_event(e@),
            Err(_) => decode_spec(s@) is None,
        },
{
    proof {
        assert(s@.skip(0) =~= s@);
    }
    let i0 = scan_ws(s, 0);
    proof {
        if s@.skip(i0 as int).len() > 0 {
            assert(s@.skip(i0 as int)[0] == s@[i0 as int]);
        }
    }
    if !(i0 < s.len() && s[i0] == 0x7b) {
        return Err(DecodeError::Malformed);
    }
    proof {
        assert(s@.skip(i0 as int).drop_first() =~= s@.skip(i0 + 1));
    }
    let i1 = scan_ws(s, i0 + 1);
    proof {
        if s@.skip(i1 as int).len() > 0 {
            assert(s@.skip(i1 as int)[0] == s@[i1 as int]);
        }
    }
    if i1 < s.len() && s[i1] == 0x7d {
        proof {
            assert(s@.skip(i1 as int).drop_first() =~= s@.skip(i1 + 1));
        }
        let j = scan_ws(s, i1 + 1);
        if j == s.len() {
            let e = SseMessage { id: None, data: None, event: None, retry: None };
            proof {
                assert(e@ =~= empty_event());
            }
            return Ok(e);
        } else {
            return Err(DecodeError::Malformed);
        }
    }
    let acc = SseMessage { id: None, data: None, event: None, retry: None };
    proof {
        assert(acc@ =~= empty_event());
    }
    match scan_pairs(s, i1, acc) {
        Some((e, j)) => {
            let j2 = scan_ws(s, j);
            if j2 == s.len() {
                Ok(e)
            } else {
                Err(DecodeError::Malformed)
            }
        },
        None => Err(DecodeError::Malformed),
    }
}

} // verus!
