use vstd::prelude::*;
use vstd::string::StringSliceAdditionalSpecFns;
use crate::types::{Message, Packet, ResetCommand, SensorDataPacket, BUFFER_SIZE};

verus! {

// ---------------------------------------------------------------------------
// The frame buffer: a fixed-capacity string of the `heapless` crate.
// ---------------------------------------------------------------------------

#[verifier::external_type_specification]
#[verifier::external_body]
pub struct ExHeaplessString<const N: usize>(heapless::String<N>);

/// The bytes held by a frame buffer.
pub uninterp spec fn frame_bytes(s: heapless::String<128>) -> Seq<u8>;

/// Relies on heapless::String::new: the new string is empty.
#[verifier::external_body]
fn frame_new() -> (r: heapless::String<BUFFER_SIZE>)
    ensures
        frame_bytes(r) == Seq::<u8>::empty(),
{
    heapless::String::new()
}

/// Relies on heapless::String::push: an ASCII character is appended as one
/// byte when the capacity allows it; otherwise the string is left as it was.
#[verifier::external_body]
fn frame_push(s: &mut heapless::String<BUFFER_SIZE>, c: char) -> (r: Result<(), ()>)
    ensures
        (c as u32) < 128 ==> if frame_bytes(*old(s)).len() < 128 {
            r is Ok && frame_bytes(*final(s)) == frame_bytes(*old(s)).push((c as u32) as u8)
        } else {
            r is Err && frame_bytes(*final(s)) == frame_bytes(*old(s))
        },
{
    s.push(c)
}

/// Relies on heapless::String::push_str: the bytes of `t` are appended when
/// they fit; otherwise the string is left as it was.
#[verifier::external_body]
fn frame_push_str(s: &mut heapless::String<BUFFER_SIZE>, t: &str) -> (r: Result<(), ()>)
    ensures
        if frame_bytes(*old(s)).len() + t.spec_bytes().len() <= 128 {
            r is Ok && frame_bytes(*final(s)) == frame_bytes(*old(s)) + t.spec_bytes()
        } else {
            r is Err && frame_bytes(*final(s)) == frame_bytes(*old(s))
        },
{
    s.push_str(t)
}

/// Relies on heapless::String::as_str: a view of the bytes held.
#[verifier::external_body]
fn frame_as_str(s: &heapless::String<BUFFER_SIZE>) -> (r: &str)
    ensures
        r.spec_bytes() == frame_bytes(*s),
{
    s.as_str()
}

// ---------------------------------------------------------------------------
// Wire format
// ---------------------------------------------------------------------------

/// XOR of all bytes of `s`.
pub open spec fn xor_fold(s: Seq<u8>) -> u8
    decreases s.len(),
{
    if s.len() == 0 {
        0
    } else {
        xor_fold(s.drop_last()) ^ s.last()
    }
}

/// ASCII decimal digits of `n`, most significant first, without leading zeros.
pub open spec fn decimal(n: nat) -> Seq<u8>
    decreases n,
{
    if n < 10 {
        seq![(48 + n) as u8]
    } else {
        decimal(n / 10).push((48 + n % 10) as u8)
    }
}

/// ASCII decimal form of a signed integer, with a leading `-` when negative.
pub open spec fn signed_decimal(v: int) -> Seq<u8> {
    if v < 0 {
        seq![45u8] + decimal((-v) as nat)
    } else {
        decimal(v as nat)
    }
}

/// The values of `e` in signed decimal, separated by commas.
pub open spec fn csv(e: Seq<i32>) -> Seq<u8>
    decreases e.len(),
{
    if e.len() == 0 {
        Seq::empty()
    } else if e.len() == 1 {
        signed_decimal(e[0] as int)
    } else {
        signed_decimal(e[0] as int) + seq![44u8] + csv(e.drop_first())
    }
}

/// The ASCII bytes of a string literal made of the given characters.
pub open spec fn ascii(s: Seq<char>) -> Seq<u8> {
    Seq::new(s.len(), |i: int| s[i] as u8)
}

/// Payload of a message, the text between `$` and `*`.
pub open spec fn payload_of(m: Message) -> Seq<u8> {
    match m {
        Message::SensorData { seq, encoders } => decimal(seq as nat) + seq![58u8] + csv(encoders),
        Message::Reset { encoder_id } => seq![82u8, 83u8, 84u8, 58u8] + decimal(encoder_id as nat),
        Message::Ping { timestamp } => seq![80u8, 73u8, 78u8, 71u8, 58u8] + decimal(timestamp as nat),
        Message::Pong { timestamp } => seq![80u8, 79u8, 78u8, 71u8, 58u8] + decimal(timestamp as nat),
    }
}

/// Upper-case ASCII hex digit of a value below 16.
pub open spec fn hex_digit(n: u8) -> u8 {
    if n < 10 {
        (48 + n) as u8
    } else {
        (55 + n) as u8
    }
}

/// A complete frame: `$`, the payload, `*`, the checksum as two upper-case
/// hex digits, and a newline.
pub open spec fn frame_of(m: Message) -> Seq<u8> {
    let p = payload_of(m);
    let c = xor_fold(p);
    seq![36u8] + p + seq![42u8, hex_digit(c / 16), hex_digit(c % 16), 10u8]
}

// ---------------------------------------------------------------------------
// Encoding
// ---------------------------------------------------------------------------

/// Computes the XOR checksum of the bytes of an ASCII payload.
pub fn compute_checksum(payload: &str) -> (r: u8)
    ensures
        r == xor_fold(payload.spec_bytes()),
{
    let b = payload.as_bytes();
    assert(b@.subrange(0, b@.len() as int) == b@);
    xor_range(b, 0, b.len())
}

proof fn lemma_decimal_len(n: nat, k: nat, p: nat)
    requires
        n < p,
        p == pow10(k),
        k >= 1,
    ensures
        decimal(n).len() <= k,
    decreases n,
{
    if n >= 10 {
        assert(k >= 2) by {
            if k == 1 {
                assert(pow10(1) == 10 * pow10(0));
            }
        };
        let q = pow10((k - 1) as nat);
        assert(p == 10 * q);
        assert(n / 10 < q) by (nonlinear_arith)
            requires
                n < p,
                p == 10 * q,
        ;
        lemma_decimal_len(n / 10, (k - 1) as nat, q);
    }
}

pub open spec fn pow10(k: nat) -> nat
    decreases k,
{
    if k == 0 {
        1
    } else {
        10 * pow10((k - 1) as nat)
    }
}

proof fn lemma_u32_decimal_len(n: nat)
    requires
        n <= u32::MAX,
    ensures
        decimal(n).len() <= 10,
{
    reveal_with_fuel(pow10, 11);
    lemma_decimal_len(n, 10, pow10(10));
}

proof fn lemma_csv_len(e: Seq<i32>)
    ensures
        csv(e).len() <= 12 * e.len(),
    decreases e.len(),
{
    if e.len() > 0 {
        let v = e[0] as int;
        if v < 0 {
            lemma_u32_decimal_len((-v) as nat);
        } else {
            lemma_u32_decimal_len(v as nat);
        }
        if e.len() > 1 {
            lemma_csv_len(e.drop_first());
        }
    }
}

/// Appends the decimal digits of `n`.
fn push_decimal(out: &mut heapless::String<BUFFER_SIZE>, n: u32)
    requires
        frame_bytes(*old(out)).len() + decimal(n as nat).len() <= 128,
    ensures
        frame_bytes(*final(out)) == frame_bytes(*old(out)) + decimal(n as nat),
    decreases n,
{
    if n >= 10 {
        push_decimal(out, n / 10);
    }
    let d: u8 = (n % 10) as u8;
    let _ = frame_push(out, (48u8 + d) as char);
    assert(frame_bytes(*out) == frame_bytes(*old(out)) + decimal(n as nat));
}

/// Appends the signed decimal form of `v`.
fn push_signed(out: &mut heapless::String<BUFFER_SIZE>, v: i32)
    requires
        frame_bytes(*old(out)).len() + signed_decimal(v as int).len() <= 128,
    ensures
        frame_bytes(*final(out)) == frame_bytes(*old(out)) + signed_decimal(v as int),
{
    if v < 0 {
        let _ = frame_push(out, '-');
        let m: u32 = (-(v as i64)) as u32;
        push_decimal(out, m);
        assert(frame_bytes(*out) == frame_bytes(*old(out)) + signed_decimal(v as int));
    } else {
        push_decimal(out, v as u32);
    }
}

/// Appends the comma-separated values `e[i..8]`.
fn push_csv(out: &mut heapless::String<BUFFER_SIZE>, e: &[i32; 8], i: usize)
    requires
        i < 8,
        frame_bytes(*old(out)).len() + csv(e@.subrange(i as int, 8)).len() <= 128,
    ensures
        frame_bytes(*final(out)) == frame_bytes(*old(out)) + csv(e@.subrange(i as int, 8)),
    decreases 8 - i,
{
    let ghost s = e@.subrange(i as int, 8);
    assert(s[0] == e@[i as int]);
    if i + 1 < 8 {
        assert(s.drop_first() == e@.subrange(i + 1, 8));
        push_signed(out, e[i]);
        let _ = frame_push(out, ',');
        push_csv(out, e, i + 1);
        assert(frame_bytes(*out) == frame_bytes(*old(out)) + csv(s));
    } else {
        push_signed(out, e[i]);
    }
}

/// Appends `tag` and then the decimal digits of `n`.
fn push_tagged(out: &mut heapless::String<BUFFER_SIZE>, tag: &str, n: u32)
    requires
        frame_bytes(*old(out)).len() == 0,
        tag.spec_bytes().len() <= 5,
    ensures
        frame_bytes(*final(out)) == tag.spec_bytes() + decimal(n as nat),
{
    proof {
        lemma_u32_decimal_len(n as nat);
    }
    let _ = frame_push_str(out, tag);
    push_decimal(out, n);
}

proof fn lemma_payload_len(m: Message)
    requires
        m is SensorData ==> m->SensorData_encoders.len() == 8,
    ensures
        payload_of(m).len() <= 107,
{
    match m {
        Message::SensorData { seq, encoders } => {
            lemma_u32_decimal_len(seq as nat);
            lemma_csv_len(encoders);
        },
        Message::Reset { encoder_id } => lemma_u32_decimal_len(encoder_id as nat),
        Message::Ping { timestamp } => lemma_u32_decimal_len(timestamp as nat),
        Message::Pong { timestamp } => lemma_u32_decimal_len(timestamp as nat),
    }
}

proof fn lemma_ascii_literal(s: &str)
    requires
        vstd::string::is_ascii(s),
    ensures
        s.spec_bytes() == ascii(s@),
{
    vstd::string::is_ascii_spec_bytes(s);
}

/// Writes the payload of `packet`.
fn write_payload(packet: &Packet) -> (r: heapless::String<BUFFER_SIZE>)
    ensures
        frame_bytes(r) == payload_of(packet@),
{
    let mut payload = frame_new();
    proof {
        lemma_payload_len(packet@);
    }
    match packet {
        Packet::SensorData(data) => {
            proof {
                lemma_u32_decimal_len(data.seq as nat);
            }
            push_decimal(&mut payload, data.seq);
            let _ = frame_push(&mut payload, ':');
            assert(data.encoders@.subrange(0, 8) == data.encoders@);
            push_csv(&mut payload, &data.encoders, 0);
        },
        Packet::Reset(cmd) => {
            proof {
                reveal_strlit("RST:");
                lemma_ascii_literal("RST:");
                assert(ascii("RST:"@) == payload_of(packet@).take(4));
            }
            push_tagged(&mut payload, "RST:", cmd.encoder_id as u32);
        },
        Packet::Ping { timestamp } => {
            proof {
                reveal_strlit("PING:");
                lemma_ascii_literal("PING:");
                assert(ascii("PING:"@) == payload_of(packet@).take(5));
            }
            push_tagged(&mut payload, "PING:", *timestamp);
        },
        Packet::Pong { timestamp } => {
            proof {
                reveal_strlit("PONG:");
                lemma_ascii_literal("PONG:");
                assert(ascii("PONG:"@) == payload_of(packet@).take(5));
            }
            push_tagged(&mut payload, "PONG:", *timestamp);
        },
    }
    payload
}

/// Upper-case ASCII hex digit of a value below 16.
fn hex_char(n: u8) -> (r: char)
    requires
        n < 16,
    ensures
        (r as u32) < 128,
        (r as u32) as u8 == hex_digit(n),
{
    if n < 10 {
        (48u8 + n) as char
    } else {
        (55u8 + n) as char
    }
}

/// Encodes a packet as a frame `$<payload>*<checksum>\n`.
pub fn serialize_packet(packet: &Packet) -> (r: heapless::String<BUFFER_SIZE>)
    ensures
        frame_bytes(r) == frame_of(packet@),
{
    let payload = write_payload(packet);
    let text = frame_as_str(&payload);
    let checksum = compute_checksum(text);
    proof {
        lemma_payload_len(packet@);
    }
    let mut buf = frame_new();
    let _ = frame_push(&mut buf, '$');
    let _ = frame_push_str(&mut buf, text);
    let _ = frame_push(&mut buf, '*');
    let _ = frame_push(&mut buf, hex_char(checksum / 16));
    let _ = frame_push(&mut buf, hex_char(checksum % 16));
    let _ = frame_push(&mut buf, '\n');
    assert(frame_bytes(buf) == frame_of(packet@));
    buf
}

/// Builds a sensor data packet.
pub fn create_sensor_packet(seq: u32, encoders: [i32; 8]) -> (r: Packet)
    ensures
        r@ == (Message::SensorData { seq, encoders: encoders@ }),
{
    Packet::SensorData(SensorDataPacket::new(seq, encoders))
}

/// Builds a reset packet.
pub fn create_reset_packet(encoder_id: u8) -> (r: Packet)
    ensures
        r@ == (Message::Reset { encoder_id }),
{
    Packet::Reset(ResetCommand { encoder_id })
}


// ---------------------------------------------------------------------------
// Decoding
// ---------------------------------------------------------------------------

/// Why a received line was not accepted as a frame.
#[derive(Debug, Clone, Copy, PartialEq, Eq, Structural)]
pub enum DecodeError {
    /// No `$` start marker, or no `*` checksum marker after it.
    MalformedFrame,
    /// The two characters after `*` are missing or not hex digits.
    MalformedChecksum,
    /// The checksum does not match the payload.
    ChecksumMismatch,
    /// The payload does not follow the grammar of any message.
    MalformedPayload,
}

/// `i` is the position of the first `c` in `s`.
pub open spec fn is_first(s: Seq<u8>, c: u8, i: int) -> bool {
    0 <= i < s.len() && s[i] == c && forall|j: int| 0 <= j < i ==> s[j] != c
}

/// Position of the first `c` in `s`, if any.
pub open spec fn find_byte(s: Seq<u8>, c: u8) -> Option<int> {
    if exists|i: int| is_first(s, c, i) {
        Some(choose|i: int| is_first(s, c, i))
    } else {
        None
    }
}

pub open spec fn is_digit(b: u8) -> bool {
    48 <= b <= 57
}

/// `s` is a non-empty run of decimal digits.
pub open spec fn all_digits(s: Seq<u8>) -> bool {
    s.len() > 0 && forall|i: int| 0 <= i < s.len() ==> is_digit(#[trigger] s[i])
}

/// Value of a run of decimal digits.
pub open spec fn digits_value(s: Seq<u8>) -> nat
    decreases s.len(),
{
    if s.len() == 0 {
        0
    } else {
        digits_value(s.drop_last()) * 10 + (s.last() - 48) as nat
    }
}

/// Value of an unsigned decimal integer with an optional `+` sign.
pub open spec fn unsigned_value(s: Seq<u8>) -> Option<nat> {
    let d = if s.len() > 0 && s[0] == 43 { s.drop_first() } else { s };
    if all_digits(d) {
        Some(digits_value(d))
    } else {
        None
    }
}

/// Value of a decimal integer with an optional `+` or `-` sign.
pub open spec fn signed_value(s: Seq<u8>) -> Option<int> {
    if s.len() > 0 && s[0] == 45 {
        if all_digits(s.drop_first()) {
            Some(-digits_value(s.drop_first()))
        } else {
            None
        }
    } else {
        match unsigned_value(s) {
            Some(v) => Some(v as int),
            None => None,
        }
    }
}

pub open spec fn parse_u8(s: Seq<u8>) -> Option<u8> {
    match unsigned_value(s) {
        Some(v) => if v <= u8::MAX { Some(v as u8) } else { None },
        None => None,
    }
}

pub open spec fn parse_u32(s: Seq<u8>) -> Option<u32> {
    match unsigned_value(s) {
        Some(v) => if v <= u32::MAX { Some(v as u32) } else { None },
        None => None,
    }
}

pub open spec fn parse_i32(s: Seq<u8>) -> Option<i32> {
    match signed_value(s) {
        Some(v) => if i32::MIN <= v <= i32::MAX { Some(v as i32) } else { None },
        None => None,
    }
}

/// The first `n` comma-separated signed integers of `s`; whatever follows
/// the `n`-th field is ignored.
pub open spec fn parse_fields(s: Seq<u8>, n: nat) -> Option<Seq<i32>>
    decreases n,
{
    if n == 0 {
        Some(Seq::empty())
    } else {
        match find_byte(s, 44) {
            Some(i) => match parse_i32(s.take(i)) {
                Some(v) => if n == 1 {
                    Some(seq![v])
                } else {
                    match parse_fields(s.skip(i + 1), (n - 1) as nat) {
                        Some(r) => Some(seq![v] + r),
                        None => None,
                    }
                },
                None => None,
            },
            None => if n == 1 {
                match parse_i32(s) {
                    Some(v) => Some(seq![v]),
                    None => None,
                }
            } else {
                None
            },
        }
    }
}

/// Value of an ASCII hex digit of either case.
pub open spec fn hex_value(b: u8) -> Option<u8> {
    if 48 <= b <= 57 {
        Some((b - 48) as u8)
    } else if 65 <= b <= 70 {
        Some((b - 55) as u8)
    } else if 97 <= b <= 102 {
        Some((b - 87) as u8)
    } else {
        None
    }
}

/// The message that a checked payload holds.
pub open spec fn decode_payload(p: Seq<u8>) -> Result<Message, DecodeError> {
    match find_byte(p, 58) {
        None => Err(DecodeError::MalformedPayload),
        Some(c) => {
            let tag = p.take(c);
            let body = p.skip(c + 1);
            if tag == seq![82u8, 83u8, 84u8] {
                match parse_u8(body) {
                    Some(v) => Ok(Message::Reset { encoder_id: v }),
                    None => Err(DecodeError::MalformedPayload),
                }
            } else if tag == seq![80u8, 73u8, 78u8, 71u8] {
                match parse_u32(body) {
                    Some(v) => Ok(Message::Ping { timestamp: v }),
                    None => Err(DecodeError::MalformedPayload),
                }
            } else if tag == seq![80u8, 79u8, 78u8, 71u8] {
                match parse_u32(body) {
                    Some(v) => Ok(Message::Pong { timestamp: v }),
                    None => Err(DecodeError::MalformedPayload),
                }
            } else {
                match (parse_u32(tag), parse_fields(body, 8)) {
                    (Some(seq), Some(e)) => Ok(Message::SensorData { seq, encoders: e }),
                    _ => Err(DecodeError::MalformedPayload),
                }
            }
        },
    }
}

/// The message that a received line holds: the text after the first `$` up
/// to the next `*` is the payload, the two characters after that `*` its
/// checksum in hex; the checksum is verified before the payload is read.
pub open spec fn decode_line(line: Seq<u8>) -> Result<Message, DecodeError> {
    match find_byte(line, 36) {
        None => Err(DecodeError::MalformedFrame),
        Some(d) => {
            let rest = line.skip(d + 1);
            match find_byte(rest, 42) {
                None => Err(DecodeError::MalformedFrame),
                Some(st) => {
                    let payload = rest.take(st);
                    if st + 3 > rest.len() {
                        Err(DecodeError::MalformedChecksum)
                    } else {
                        match (hex_value(rest[st + 1]), hex_value(rest[st + 2])) {
                            (Some(hi), Some(lo)) => if xor_fold(payload) == hi * 16 + lo {
                                decode_payload(payload)
                            } else {
                                Err(DecodeError::ChecksumMismatch)
                            },
                            _ => Err(DecodeError::MalformedChecksum),
                        }
                    }
                },
            }
        },
    }
}

proof fn lemma_find_byte(s: Seq<u8>, c: u8, i: int)
    requires
        is_first(s, c, i),
    ensures
        find_byte(s, c) == Some(i),
{
    let k = choose|k: int| is_first(s, c, k);
    assert(is_first(s, c, k));
    if k < i {
        assert(s[k] != c);
    } else if k > i {
        assert(s[i] != c);
    }
}

/// Position of the first `c` in `b[lo..hi]`.
fn find_in(b: &[u8], lo: usize, hi: usize, c: u8) -> (r: Option<usize>)
    requires
        lo <= hi <= b@.len(),
    ensures
        match r {
            Some(i) => lo <= i < hi && find_byte(b@.subrange(lo as int, hi as int), c) == Some(
                i - lo,
            ),
            None => find_byte(b@.subrange(lo as int, hi as int), c) is None,
        },
{
    let ghost s = b@.subrange(lo as int, hi as int);
    let mut i: usize = lo;
    while i < hi
        invariant
            lo <= i <= hi <= b@.len(),
            s == b@.subrange(lo as int, hi as int),
            forall|j: int| 0 <= j < i - lo ==> s[j] != c,
        decreases hi - i,
    {
        if b[i] == c {
            proof {
                assert(is_first(s, c, i - lo));
                lemma_find_byte(s, c, i - lo);
            }
            return Some(i);
        }
        i = i + 1;
    }
    proof {
        assert forall|k: int| !is_first(s, c, k) by {
            if 0 <= k < s.len() {
                assert(s[k] != c);
            }
        }
    }
    None
}

proof fn lemma_digits_prefix(s: Seq<u8>, k: int)
    requires
        0 <= k <= s.len(),
    ensures
        digits_value(s.take(k)) <= digits_value(s),
    decreases s.len(),
{
    if k < s.len() {
        assert(s.drop_last().take(k) == s.take(k));
        lemma_digits_prefix(s.drop_last(), k);
    } else {
        assert(s.take(k) == s);
    }
}

/// Value of the digits `b[lo..hi]` when they are all decimal digits and the
/// value is at most `limit`.
fn parse_digits(b: &[u8], lo: usize, hi: usize, limit: u64) -> (r: Option<u64>)
    requires
        lo <= hi <= b@.len(),
        limit <= 0x1_0000_0000,
    ensures
        match r {
            Some(v) => all_digits(b@.subrange(lo as int, hi as int)) && v == digits_value(
                b@.subrange(lo as int, hi as int),
            ) && v <= limit,
            None => !all_digits(b@.subrange(lo as int, hi as int)) || digits_value(
                b@.subrange(lo as int, hi as int),
            ) > limit,
        },
{
    let ghost s = b@.subrange(lo as int, hi as int);
    if lo == hi {
        return None;
    }
    let mut acc: u64 = 0;
    let mut i: usize = lo;
    while i < hi
        invariant
            lo <= i <= hi <= b@.len(),
            limit <= 0x1_0000_0000,
            s == b@.subrange(lo as int, hi as int),
            forall|j: int| 0 <= j < i - lo ==> is_digit(#[trigger] s[j]),
            acc == digits_value(s.take(i - lo)),
            acc <= limit,
        decreases hi - i,
    {
        let d = b[i];
        if d < 48 || d > 57 {
            assert(!is_digit(s[i - lo]));
            return None;
        }
        assert(s.take(i - lo + 1).drop_last() == s.take(i - lo));
        acc = acc * 10 + (d - 48) as u64;
        if acc > limit {
            proof {
                lemma_digits_prefix(s, i - lo + 1);
            }
            return None;
        }
        i = i + 1;
    }
    assert(s.take(i - lo) == s);
    Some(acc)
}

/// Value of an unsigned decimal integer `b[lo..hi]` with an optional `+`,
/// when it is at most `limit`.
fn parse_unsigned(b: &[u8], lo: usize, hi: usize, limit: u64) -> (r: Option<u64>)
    requires
        lo <= hi <= b@.len(),
        limit <= 0x1_0000_0000,
    ensures
        match r {
            Some(v) => unsigned_value(b@.subrange(lo as int, hi as int)) == Some(v as nat) && v
                <= limit,
            None => match unsigned_value(b@.subrange(lo as int, hi as int)) {
                Some(v) => v > limit,
                None => true,
            },
        },
{
    let ghost s = b@.subrange(lo as int, hi as int);
    if lo < hi && b[lo] == 43 {
        assert(s.drop_first() == b@.subrange(lo + 1, hi as int));
        parse_digits(b, lo + 1, hi, limit)
    } else {
        parse_digits(b, lo, hi, limit)
    }
}

fn parse_u8_at(b: &[u8], lo: usize, hi: usize) -> (r: Option<u8>)
    requires
        lo <= hi <= b@.len(),
    ensures
        r == parse_u8(b@.subrange(lo as int, hi as int)),
{
    match parse_unsigned(b, lo, hi, 255) {
        Some(v) => Some(v as u8),
        None => None,
    }
}

fn parse_u32_at(b: &[u8], lo: usize, hi: usize) -> (r: Option<u32>)
    requires
        lo <= hi <= b@.len(),
    ensures
        r == parse_u32(b@.subrange(lo as int, hi as int)),
{
    match parse_unsigned(b, lo, hi, 0xffff_ffff) {
        Some(v) => Some(v as u32),
        None => None,
    }
}

fn parse_i32_at(b: &[u8], lo: usize, hi: usize) -> (r: Option<i32>)
    requires
        lo <= hi <= b@.len(),
    ensures
        r == parse_i32(b@.subrange(lo as int, hi as int)),
{
    let ghost s = b@.subrange(lo as int, hi as int);
    if lo < hi && b[lo] == 45 {
        assert(s.drop_first() == b@.subrange(lo + 1, hi as int));
        match parse_digits(b, lo + 1, hi, 0x8000_0000) {
            Some(v) => Some((-(v as i64)) as i32),
            None => None,
        }
    } else {
        match parse_unsigned(b, lo, hi, 0x7fff_ffff) {
            Some(v) => Some(v as i32),
            None => None,
        }
    }
}


/// Reads the first `n` comma-separated signed integers of `b[lo..hi]` into
/// `out[8 - n..8]`.
fn parse_fields_at(b: &[u8], lo: usize, hi: usize, n: usize, out: &mut [i32; 8]) -> (r: bool)
    requires
        lo <= hi <= b@.len(),
        1 <= n <= 8,
    ensures
        r == parse_fields(b@.subrange(lo as int, hi as int), n as nat) is Some,
        r ==> final(out)@.subrange(8 - n, 8) == parse_fields(
            b@.subrange(lo as int, hi as int),
            n as nat,
        )->0,
        final(out)@.subrange(0, 8 - n) == old(out)@.subrange(0, 8 - n),
    decreases n,
{
    let ghost s = b@.subrange(lo as int, hi as int);
    let k: usize = 8 - n;
    match find_in(b, lo, hi, 44) {
        Some(i) => {
            assert(s.take(i - lo) == b@.subrange(lo as int, i as int));
            assert(s.skip(i - lo + 1) == b@.subrange(i + 1, hi as int));
            match parse_i32_at(b, lo, i) {
                Some(v) => {
                    out[k] = v;
                    if n == 1 {
                        assert(out@.subrange(7, 8) == seq![v]);
                        true
                    } else {
                        let ghost mid = *out;
                        let ok = parse_fields_at(b, i + 1, hi, n - 1, out);
                        proof {
                            assert(out@.subrange(0, k as int) == mid@.subrange(0, k as int));
                            assert(out@.subrange(0, k as int) == old(out)@.subrange(
                                0,
                                k as int,
                            ));
                            assert(out@[k as int] == mid@.subrange(0, k + 1)[k as int]);
                            if ok {
                                assert(out@.subrange(k as int, 8) == seq![v] + out@.subrange(
                                    k + 1,
                                    8,
                                ));
                            }
                        }
                        ok
                    }
                },
                None => false,
            }
        },
        None => {
            if n == 1 {
                match parse_i32_at(b, lo, hi) {
                    Some(v) => {
                        out[k] = v;
                        assert(out@.subrange(7, 8) == seq![v]);
                        true
                    },
                    None => false,
                }
            } else {
                false
            }
        },
    }
}

/// Whether `b[lo..hi]` is the three bytes `c0 c1 c2`.
fn tag3(b: &[u8], lo: usize, hi: usize, c0: u8, c1: u8, c2: u8) -> (r: bool)
    requires
        lo <= hi <= b@.len(),
    ensures
        r == (b@.subrange(lo as int, hi as int) == seq![c0, c1, c2]),
{
    let ghost s = b@.subrange(lo as int, hi as int);
    let r = hi - lo == 3 && b[lo] == c0 && b[lo + 1] == c1 && b[lo + 2] == c2;
    proof {
        if r {
            assert(s =~= seq![c0, c1, c2]);
        } else if s == seq![c0, c1, c2] {
            assert(seq![c0, c1, c2].len() == 3);
            assert(s[0] == c0 && s[1] == c1 && s[2] == c2);
            assert(b@[lo as int] == s[0] && b@[lo + 1] == s[1] && b@[lo + 2] == s[2]);
        }
    }
    r
}

/// Whether `b[lo..hi]` is the four bytes `c0 c1 c2 c3`.
fn tag4(b: &[u8], lo: usize, hi: usize, c0: u8, c1: u8, c2: u8, c3: u8) -> (r: bool)
    requires
        lo <= hi <= b@.len(),
    ensures
        r == (b@.subrange(lo as int, hi as int) == seq![c0, c1, c2, c3]),
{
    let ghost s = b@.subrange(lo as int, hi as int);
    let r = hi - lo == 4 && b[lo] == c0 && b[lo + 1] == c1 && b[lo + 2] == c2 && b[lo + 3] == c3;
    proof {
        if r {
            assert(s =~= seq![c0, c1, c2, c3]);
        } else if s == seq![c0, c1, c2, c3] {
            assert(seq![c0, c1, c2, c3].len() == 4);
            assert(s[0] == c0 && s[1] == c1 && s[2] == c2 && s[3] == c3);
            assert(b@[lo as int] == s[0] && b@[lo + 1] == s[1] && b@[lo + 2] == s[2]);
            assert(b@[lo + 3] == s[3]);
        }
    }
    r
}

/// Decodes the checked payload `b[lo..hi]`.
fn decode_payload_at(b: &[u8], lo: usize, hi: usize) -> (r: Result<Packet, DecodeError>)
    requires
        lo <= hi <= b@.len(),
    ensures
        match r {
            Ok(p) => decode_payload(b@.subrange(lo as int, hi as int)) == Ok::<
                Message,
                DecodeError,
            >(p@),
            Err(e) => decode_payload(b@.subrange(lo as int, hi as int)) == Err::<
                Message,
                DecodeError,
            >(e),
        },
{
    let ghost s = b@.subrange(lo as int, hi as int);
    let c = match find_in(b, lo, hi, 58) {
        Some(c) => c,
        None => return Err(DecodeError::MalformedPayload),
    };
    assert(s.take(c - lo) == b@.subrange(lo as int, c as int));
    assert(s.skip(c - lo + 1) == b@.subrange(c + 1, hi as int));
    if tag3(b, lo, c, 82, 83, 84) {
        match parse_u8_at(b, c + 1, hi) {
            Some(v) => Ok(Packet::Reset(ResetCommand { encoder_id: v })),
            None => Err(DecodeError::MalformedPayload),
        }
    } else if tag4(b, lo, c, 80, 73, 78, 71) {
        match parse_u32_at(b, c + 1, hi) {
            Some(v) => Ok(Packet::Ping { timestamp: v }),
            None => Err(DecodeError::MalformedPayload),
        }
    } else if tag4(b, lo, c, 80, 79, 78, 71) {
        match parse_u32_at(b, c + 1, hi) {
            Some(v) => Ok(Packet::Pong { timestamp: v }),
            None => Err(DecodeError::MalformedPayload),
        }
    } else {
        let seq = match parse_u32_at(b, lo, c) {
            Some(v) => v,
            None => return Err(DecodeError::MalformedPayload),
        };
        let mut encoders: [i32; 8] = [0i32; 8];
        if parse_fields_at(b, c + 1, hi, 8, &mut encoders) {
            assert(encoders@.subrange(0, 8) == encoders@);
            Ok(Packet::SensorData(SensorDataPacket { seq, encoders }))
        } else {
            Err(DecodeError::MalformedPayload)
        }
    }
}

/// XOR of the bytes `b[lo..hi]`.
fn xor_range(b: &[u8], lo: usize, hi: usize) -> (r: u8)
    requires
        lo <= hi <= b@.len(),
    ensures
        r == xor_fold(b@.subrange(lo as int, hi as int)),
{
    let mut acc: u8 = 0;
    let mut i: usize = lo;
    while i < hi
        invariant
            lo <= i <= hi <= b@.len(),
            acc == xor_fold(b@.subrange(lo as int, i as int)),
        decreases hi - i,
    {
        assert(b@.subrange(lo as int, i + 1).drop_last() == b@.subrange(lo as int, i as int));
        acc = acc ^ b[i];
        i = i + 1;
    }
    acc
}

/// Value of an ASCII hex digit of either case.
fn hex_val(c: u8) -> (r: Option<u8>)
    ensures
        r == hex_value(c),
{
    if 48 <= c && c <= 57 {
        Some(c - 48)
    } else if 65 <= c && c <= 70 {
        Some(c - 55)
    } else if 97 <= c && c <= 102 {
        Some(c - 87)
    } else {
        None
    }
}

/// Decodes one received line into a message. Text before the first `$` and
/// after the two checksum digits is ignored.
pub fn decode_packet(line: &str) -> (r: Result<Packet, DecodeError>)
    ensures
        match r {
            Ok(p) => decode_line(line.spec_bytes()) == Ok::<Message, DecodeError>(p@),
            Err(e) => decode_line(line.spec_bytes()) == Err::<Message, DecodeError>(e),
        },
{
    let b = line.as_bytes();
    let len = b.len();
    let d = match find_in(b, 0, len, 36) {
        Some(d) => d,
        None => {
            assert(b@.subrange(0, len as int) == b@);
            return Err(DecodeError::MalformedFrame);
        },
    };
    assert(b@.subrange(0, len as int) == b@);
    let ghost rest = b@.skip(d + 1);
    assert(rest == b@.subrange(d + 1, len as int));
    let st = match find_in(b, d + 1, len, 42) {
        Some(st) => st,
        None => return Err(DecodeError::MalformedFrame),
    };
    assert(rest.take(st - d - 1) == b@.subrange(d + 1, st as int));
    if len - st < 3 {
        return Err(DecodeError::MalformedChecksum);
    }
    assert(rest[st - d - 1 + 1] == b@[st + 1]);
    assert(rest[st - d - 1 + 2] == b@[st + 2]);
    let hi = match hex_val(b[st + 1]) {
        Some(v) => v,
        None => return Err(DecodeError::MalformedChecksum),
    };
    let lo = match hex_val(b[st + 2]) {
        Some(v) => v,
        None => return Err(DecodeError::MalformedChecksum),
    };
    if xor_range(b, d + 1, st) != hi * 16 + lo {
        return Err(DecodeError::ChecksumMismatch);
    }
    decode_payload_at(b, d + 1, st)
}


// ---------------------------------------------------------------------------
// Laws of the codec
// ---------------------------------------------------------------------------

proof fn lemma_decimal(n: nat)
    ensures
        all_digits(decimal(n)),
        digits_value(decimal(n)) == n,
    decreases n,
{
    let s = decimal(n);
    if n < 10 {
        assert(s.drop_last() == Seq::<u8>::empty());
        assert(s.last() == (48 + n) as u8);
        assert(digits_value(s) == digits_value(s.drop_last()) * 10 + (s.last() - 48) as nat);
    } else {
        lemma_decimal(n / 10);
        assert(s.drop_last() == decimal(n / 10));
        assert(s.last() == (48 + n % 10) as u8);
        assert((n / 10) * 10 + n % 10 == n);
        assert(digits_value(s) == digits_value(s.drop_last()) * 10 + (s.last() - 48) as nat);
        assert forall|i: int| 0 <= i < s.len() implies is_digit(#[trigger] s[i]) by {
            if i < s.len() - 1 {
                assert(s[i] == decimal(n / 10)[i]);
            }
        }
    }
}

/// Bytes of a signed decimal are digits or `-`.
proof fn lemma_signed_decimal(v: int)
    requires
        i32::MIN <= v <= i32::MAX,
    ensures
        parse_i32(signed_decimal(v)) == Some(v as i32),
        forall|i: int|
            0 <= i < signed_decimal(v).len() ==> is_digit(#[trigger] signed_decimal(v)[i])
                || signed_decimal(v)[i] == 45,
{
    let s = signed_decimal(v);
    if v < 0 {
        lemma_decimal((-v) as nat);
        assert(s.drop_first() == decimal((-v) as nat));
        assert forall|i: int| 0 <= i < s.len() implies is_digit(#[trigger] s[i]) || s[i]
            == 45 by {
            if i > 0 {
                assert(s[i] == decimal((-v) as nat)[i - 1]);
            }
        }
    } else {
        lemma_decimal(v as nat);
        assert(is_digit(s[0]));
    }
}

/// Bytes of a comma-separated list are digits, `-` or `,`; it reads back as
/// the list.
proof fn lemma_csv(e: Seq<i32>)
    requires
        e.len() >= 1,
    ensures
        parse_fields(csv(e), e.len()) == Some(e),
        forall|i: int|
            0 <= i < csv(e).len() ==> is_digit(#[trigger] csv(e)[i]) || csv(e)[i] == 45 || csv(
                e,
            )[i] == 44,
    decreases e.len(),
{
    let v = e[0] as int;
    let f = signed_decimal(v);
    lemma_signed_decimal(v);
    let s = csv(e);
    if e.len() == 1 {
        assert forall|k: int| !is_first(s, 44, k) by {
            if 0 <= k < s.len() {
                assert(is_digit(s[k]) || s[k] == 45);
            }
        }
        assert(seq![e[0]] == e);
    } else {
        let rest = e.drop_first();
        lemma_csv(rest);
        assert(s == f + seq![44u8] + csv(rest));
        assert(is_first(s, 44, f.len() as int)) by {
            assert forall|j: int| 0 <= j < f.len() implies s[j] != 44 by {
                assert(s[j] == f[j]);
            }
        }
        lemma_find_byte(s, 44, f.len() as int);
        assert(s.take(f.len() as int) == f);
        assert(s.skip(f.len() as int + 1) == csv(rest));
        assert(seq![e[0]] + rest == e);
        assert forall|i: int|
            0 <= i < s.len() implies is_digit(#[trigger] s[i]) || s[i] == 45 || s[i] == 44 by {
            if i < f.len() {
                assert(s[i] == f[i]);
            } else if i > f.len() {
                assert(s[i] == csv(rest)[i - f.len() - 1]);
            }
        }
    }
}

proof fn lemma_unsigned_decimal(n: nat)
    ensures
        unsigned_value(decimal(n)) == Some(n),
{
    lemma_decimal(n);
    assert(is_digit(decimal(n)[0]));
}

/// The payload of a well-formed message reads back as the message, and holds
/// no `*`.
proof fn lemma_payload_round_trip(m: Message)
    requires
        m is SensorData ==> m->SensorData_encoders.len() == 8,
    ensures
        decode_payload(payload_of(m)) == Ok::<Message, DecodeError>(m),
        forall|i: int| 0 <= i < payload_of(m).len() ==> #[trigger] payload_of(m)[i] != 42,
{
    let p = payload_of(m);
    match m {
        Message::SensorData { seq, encoders } => {
            let d = decimal(seq as nat);
            lemma_decimal(seq as nat);
            lemma_unsigned_decimal(seq as nat);
            lemma_csv(encoders);
            assert(p == d + seq![58u8] + csv(encoders));
            assert(is_first(p, 58, d.len() as int)) by {
                assert forall|j: int| 0 <= j < d.len() implies p[j] != 58 by {
                    assert(p[j] == d[j]);
                }
            }
            lemma_find_byte(p, 58, d.len() as int);
            assert(p.take(d.len() as int) == d);
            assert(p.skip(d.len() as int + 1) == csv(encoders));
            assert(is_digit(d[0]));
            assert(d != seq![82u8, 83u8, 84u8]);
            assert(d != seq![80u8, 73u8, 78u8, 71u8]);
            assert(d != seq![80u8, 79u8, 78u8, 71u8]);
            assert(parse_u32(d) == Some(seq));
            assert(parse_fields(csv(encoders), 8) == Some(encoders));
            assert forall|i: int| 0 <= i < p.len() implies #[trigger] p[i] != 42 by {
                if i < d.len() {
                    assert(p[i] == d[i]);
                } else if i > d.len() {
                    assert(p[i] == csv(encoders)[i - d.len() - 1]);
                }
            }
        },
        Message::Reset { encoder_id } => {
            let d = decimal(encoder_id as nat);
            let t = seq![82u8, 83u8, 84u8];
            lemma_decimal(encoder_id as nat);
            lemma_unsigned_decimal(encoder_id as nat);
            lemma_tagged(t, d);
            assert(p == t + seq![58u8] + d);
        },
        Message::Ping { timestamp } => {
            let d = decimal(timestamp as nat);
            let t = seq![80u8, 73u8, 78u8, 71u8];
            lemma_decimal(timestamp as nat);
            lemma_unsigned_decimal(timestamp as nat);
            lemma_tagged(t, d);
            assert(p == t + seq![58u8] + d);
        },
        Message::Pong { timestamp } => {
            let d = decimal(timestamp as nat);
            let t = seq![80u8, 79u8, 78u8, 71u8];
            lemma_decimal(timestamp as nat);
            lemma_unsigned_decimal(timestamp as nat);
            lemma_tagged(t, d);
            assert(p == t + seq![58u8] + d);
        },
    }
}

/// A tag of letters, `:` and a run of digits splits back into tag and digits.
proof fn lemma_tagged(t: Seq<u8>, d: Seq<u8>)
    requires
        forall|i: int| 0 <= i < t.len() ==> 65 <= #[trigger] t[i] <= 90,
        all_digits(d),
    ensures
        find_byte(t + seq![58u8] + d, 58) == Some(t.len() as int),
        (t + seq![58u8] + d).take(t.len() as int) == t,
        (t + seq![58u8] + d).skip(t.len() as int + 1) == d,
        forall|i: int|
            0 <= i < (t + seq![58u8] + d).len() ==> #[trigger] (t + seq![58u8] + d)[i] != 42,
{
    let p = t + seq![58u8] + d;
    assert(is_first(p, 58, t.len() as int)) by {
        assert forall|j: int| 0 <= j < t.len() implies p[j] != 58 by {
            assert(p[j] == t[j]);
        }
    }
    lemma_find_byte(p, 58, t.len() as int);
    assert(p.take(t.len() as int) == t);
    assert(p.skip(t.len() as int + 1) == d);
    assert forall|i: int| 0 <= i < p.len() implies #[trigger] p[i] != 42 by {
        if i < t.len() {
            assert(p[i] == t[i]);
        } else if i > t.len() {
            assert(p[i] == d[i - t.len() - 1]);
        }
    }
}

/// Decoding the frame of a message gives the message back: every sensor
/// reading with its eight counts, every reset, ping and pong survives a trip
/// over the wire unchanged.
pub proof fn lemma_round_trip(m: Message)
    requires
        m is SensorData ==> m->SensorData_encoders.len() == 8,
    ensures
        decode_line(frame_of(m)) == Ok::<Message, DecodeError>(m),
{
    let p = payload_of(m);
    let c = xor_fold(p);
    let f = frame_of(m);
    lemma_payload_round_trip(m);
    assert(is_first(f, 36, 0));
    lemma_find_byte(f, 36, 0);
    let rest = f.skip(1);
    assert(rest == p + seq![42u8, hex_digit(c / 16), hex_digit(c % 16), 10u8]);
    assert(is_first(rest, 42, p.len() as int)) by {
        assert forall|j: int| 0 <= j < p.len() implies rest[j] != 42 by {
            assert(rest[j] == p[j]);
        }
    }
    lemma_find_byte(rest, 42, p.len() as int);
    assert(rest.take(p.len() as int) == p);
    assert(rest[p.len() as int + 1] == hex_digit(c / 16));
    assert(rest[p.len() as int + 2] == hex_digit(c % 16));
    assert(hex_value(hex_digit(c / 16)) == Some((c / 16) as u8));
    assert(hex_value(hex_digit(c % 16)) == Some((c % 16) as u8));
    assert((c / 16) as u8 * 16 + (c % 16) as u8 == c);
}

/// A line is rejected when it has no `$`, no `*` after the first `$`, fewer
/// than two characters after that `*`, a checksum field that is not two hex
/// digits, or a checksum that differs from the XOR of the payload.
pub proof fn lemma_malformed_rejected(line: Seq<u8>)
    requires
        match find_byte(line, 36) {
            None => true,
            Some(d) => match find_byte(line.skip(d + 1), 42) {
                None => true,
                Some(st) => {
                    let rest = line.skip(d + 1);
                    st + 3 > rest.len() || hex_value(rest[st + 1]) is None || hex_value(
                        rest[st + 2],
                    ) is None || xor_fold(rest.take(st)) != (hex_value(rest[st + 1])->0) * 16
                        + hex_value(rest[st + 2])->0
                },
            },
        },
    ensures
        decode_line(line) is Err,
{
}

} // verus!
