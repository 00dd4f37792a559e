//! The line protocol spoken with the front panel over the serial port.
//!
//! The panel sends one event per line: `r<n>` for a turn of the volume knob
//! and `w<n>` for the position of the wiper, `<n>` being a decimal integer
//! that may be surrounded by white space; the line ends with `\n`. The
//! controller answers with `b<n>\n` and `a<n>\n` to set the left and the
//! right light to level `<n>`.
use vstd::prelude::*;
use vstd::string::StringSliceAdditionalSpecFns;
use vstd::utf8::*;
use bytes::BytesMut;
use crate::buffer::{buffer_bytes, buffer_as_slice, buffer_clear, buffer_split_to, buffer_write_str};
use crate::text::{digits_value, is_white_space, trim_start, trim_end, all_decimal_digits, is_decimal_digit, parsed_i32, trimmed, str_from_utf8, str_trim, str_parse_i32};

verus! {

broadcast use {encode_utf8_valid_utf8, encode_utf8_decode_utf8};

/// The byte that ends every line.
pub const NEWLINE: u8 = 10;

/// How many bytes may wait without a line end before they are dropped as
/// corrupted input.
pub const MAX_PENDING: usize = 20;

/// The states of the volume knob's button. The panel reports none yet: the
/// type has no public constructor and this library makes no value of it.
#[derive(Debug)]
pub struct AdvButtonState {
    none_reported: (),
}

/// An event reported by the front panel.
#[derive(Debug)]
pub enum PanelInputEvent {
    VolumeTurn(i32),
    VolumeButton(AdvButtonState),
    Wiper(i32),
}

impl PanelInputEvent {
    /// The wiper's position, for the one event that retunes the radio.
    pub fn wiper_position(&self) -> (r: Option<i32>)
        ensures
            r == (match *self {
                PanelInputEvent::Wiper(v) => Some(v),
                _ => None,
            }),
    {
        match self {
            PanelInputEvent::Wiper(v) => Some(*v),
            _ => None,
        }
    }
}

/// One of the two lights of the panel.
#[derive(Debug)]
pub enum Light {
    Left,
    Right,
}

/// A command sent to the front panel.
#[derive(Debug)]
pub enum PanelOutputEvent {
    SetLight(Light, u8),
}

/// A line of input that is not valid UTF-8.
#[derive(Debug)]
pub enum DecodeError {
    InvalidString,
}

/// The output buffer had no room left for a command.
#[derive(Debug)]
pub enum EncodeError {
    BufferFull,
}

/// Frames panel events out of the bytes read from the serial port, and
/// commands into the bytes written to it.
pub struct EventsCodec;

/* What a single line means */

/// The number that follows the event letter, white space around it ignored.
pub open spec fn reading(tail: Seq<char>) -> Option<i32> {
    parsed_i32(trimmed(tail))
}

/// The event that a received line (its line end included) stands for.
pub open spec fn message_event(msg: Seq<char>) -> Option<PanelInputEvent> {
    if msg[0] == 'r' {
        Some(PanelInputEvent::VolumeTurn(reading(msg.drop_first()).unwrap()))
    } else if msg[0] == 'w' {
        Some(PanelInputEvent::Wiper(reading(msg.drop_first()).unwrap()))
    } else {
        None
    }
}

/// The lines that can be decoded: they start with an ASCII character, and
/// an `r` or `w` line carries a number that fits in an `i32`. On any other
/// line decoding stops the program.
pub open spec fn message_decodable(msg: Seq<char>) -> bool {
    &&& msg.len() > 0
    &&& (msg[0] as u32) < 0x80
    &&& (msg[0] == 'r' || msg[0] == 'w') ==> reading(msg.drop_first()) is Some
}

/* Where the first line of a buffer ends */

pub open spec fn has_newline(s: Seq<u8>) -> bool {
    exists|i: int| 0 <= i < s.len() && s[i] == NEWLINE
}

pub open spec fn is_first_newline(s: Seq<u8>, i: int) -> bool {
    &&& 0 <= i < s.len()
    &&& s[i] == NEWLINE
    &&& forall|j: int| 0 <= j < i ==> s[j] != NEWLINE
}

/// The length of the first line of `s`, line end included, where `s` holds
/// a line end.
pub open spec fn first_line_len(s: Seq<u8>) -> int {
    (choose|i: int| is_first_newline(s, i)) + 1
}

/// What decoding a buffer holding `s` returns.
pub open spec fn decode_result(s: Seq<u8>) -> Result<Option<PanelInputEvent>, DecodeError> {
    if has_newline(s) {
        let line = s.take(first_line_len(s));
        if valid_utf8(line) {
            Ok(message_event(decode_utf8(line)))
        } else {
            Err(DecodeError::InvalidString)
        }
    } else {
        Ok(None)
    }
}

/// What is left in a buffer holding `s` after decoding: the bytes after the
/// first line; or, with no complete line, nothing if more than
/// `MAX_PENDING` bytes wait and all of them otherwise.
pub open spec fn decode_rest(s: Seq<u8>) -> Seq<u8> {
    if has_newline(s) {
        s.skip(first_line_len(s))
    } else if s.len() > MAX_PENDING {
        Seq::empty()
    } else {
        s
    }
}

/// The buffers on which decoding returns: the first line, if complete and
/// valid UTF-8, is decodable.
pub open spec fn decode_defined(s: Seq<u8>) -> bool {
    has_newline(s) && valid_utf8(s.take(first_line_len(s)))
        ==> message_decodable(decode_utf8(s.take(first_line_len(s))))
}

/// The lines that name no event: they start with an ASCII character other
/// than `r` and `w`. Decoding gives no event for them.
pub open spec fn is_unrecognized(msg: Seq<char>) -> bool {
    &&& msg.len() > 0
    &&& (msg[0] as u32) < 0x80
    &&& msg[0] != 'r'
    &&& msg[0] != 'w'
}

/// The first line of `s`, where it is complete, valid UTF-8 and names no
/// event.
pub open spec fn unrecognized_message(s: Seq<u8>) -> Option<Seq<char>> {
    if has_newline(s) && valid_utf8(s.take(first_line_len(s))) && is_unrecognized(
        decode_utf8(s.take(first_line_len(s))),
    ) {
        Some(decode_utf8(s.take(first_line_len(s))))
    } else {
        None
    }
}

/// Whether decoding a buffer holding `s` drops its bytes as corrupted input.
pub open spec fn discards_input(s: Seq<u8>) -> bool {
    !has_newline(s) && s.len() > MAX_PENDING
}

/* What a command looks like on the wire */

/// The decimal digit character of `d`, for `d < 10`.
pub open spec fn digit_char(d: nat) -> char {
    ((d + 48) as u32) as char
}

/// The decimal notation of `n`, without leading zeros.
pub open spec fn decimal(n: nat) -> Seq<char>
    decreases n,
{
    if n < 10 {
        seq![digit_char(n)]
    } else {
        decimal(n / 10).push(digit_char(n % 10))
    }
}

/// The letter that addresses a light: `b` for the left one, `a` for the
/// right one.
pub open spec fn light_letter(light: Light) -> char {
    match light {
        Light::Left => 'b',
        Light::Right => 'a',
    }
}

/// The text of a command: the light's letter, the level in decimal, and
/// a line end.
pub open spec fn command_text(item: PanelOutputEvent) -> Seq<char> {
    match item {
        PanelOutputEvent::SetLight(light, level) => seq![light_letter(light)] + decimal(
            level as nat,
        ) + seq!['\n'],
    }
}

/// The decimal notation of an integer, with a leading `-` when negative.
pub open spec fn signed_decimal(n: int) -> Seq<char> {
    if n < 0 {
        seq!['-'] + decimal((-n) as nat)
    } else {
        decimal(n as nat)
    }
}

/// The line the panel sends for a reading `n` under the event letter
/// `letter`.
pub open spec fn reading_line(letter: char, n: i32) -> Seq<char> {
    seq![letter] + signed_decimal(n as int) + seq!['\n']
}

/* Lemmas */

/// Two first line ends of one sequence are the same.
pub proof fn lemma_first_newline_unique(s: Seq<u8>, i: int, k: int)
    requires
        is_first_newline(s, i),
        is_first_newline(s, k),
    ensures
        i == k,
{
    if i < k {
        assert(s[i] != NEWLINE);
    } else if k < i {
        assert(s[k] != NEWLINE);
    }
}

/// `first_line_len` is one past the first line end.
pub proof fn lemma_first_line_len(s: Seq<u8>, i: int)
    requires
        is_first_newline(s, i),
    ensures
        first_line_len(s) == i + 1,
{
    let k = choose|j: int| is_first_newline(s, j);
    lemma_first_newline_unique(s, i, k);
}

/// Decimal notation is a non-empty string of decimal digits.
pub proof fn lemma_decimal_digits(n: nat)
    ensures
        decimal(n).len() > 0,
        all_decimal_digits(decimal(n)),
    decreases n,
{
    if n >= 10 {
        lemma_decimal_digits(n / 10);
    }
}

/// Decimal notation denotes the number it was made from.
pub proof fn lemma_decimal_value(n: nat)
    ensures
        digits_value(decimal(n)) == n,
    decreases n,
{
    let d = decimal(n);
    assert(digit_char(n % 10) as u32 == n % 10 + 48);
    assert('0' as u32 == 48);
    if n >= 10 {
        lemma_decimal_value(n / 10);
        assert(d.drop_last() =~= decimal(n / 10));
        assert(d.last() == digit_char(n % 10));
    } else {
        assert(d.drop_last() =~= Seq::<char>::empty());
        assert(d.last() == digit_char(n % 10));
        assert(digits_value(Seq::<char>::empty()) == 0);
        assert(digits_value(d) == 10 * digits_value(d.drop_last()) + ((d.last() as u32) - ('0' as u32)) as nat);
    }
}

/// Signed decimal notation is parsed back to the number it was made from.
pub proof fn lemma_signed_decimal_parses(n: i32)
    ensures
        parsed_i32(signed_decimal(n as int)) == Some(n),
        signed_decimal(n as int).len() > 0,
        !is_white_space(signed_decimal(n as int)[0]),
        !is_white_space(signed_decimal(n as int).last()),
        forall|i: int|
            0 <= i < signed_decimal(n as int).len() ==> #[trigger] signed_decimal(n as int)[i]
                != '\n' && '\0' <= signed_decimal(n as int)[i] <= '\u{7f}',
{
    let m: nat = if n < 0 {
        (-n) as nat
    } else {
        n as nat
    };
    let d = decimal(m);
    lemma_decimal_digits(m);
    lemma_decimal_value(m);
    let sd = signed_decimal(n as int);
    if n < 0 {
        assert(sd.drop_first() =~= d);
        assert(sd.last() == d.last());
        assert(forall|i: int| 0 < i < sd.len() ==> sd[i] == d[i - 1]);
    } else {
        assert(sd == d);
        assert(is_decimal_digit(d[0]));
    }
}

/// A command is ASCII text.
proof fn lemma_command_ascii(item: PanelOutputEvent)
    ensures
        is_ascii_chars(command_text(item)),
{
    match item {
        PanelOutputEvent::SetLight(light, level) => {
            lemma_decimal_digits(level as nat);
        },
    }
}

/// The UTF-8 encoding of text whose first character is ASCII starts with
/// that character's byte, and that byte is a whole character.
proof fn lemma_ascii_head(msg: Seq<char>)
    requires
        msg.len() > 0,
        (msg[0] as u32) < 0x80,
    ensures
        encode_utf8(msg) == seq![(msg[0] as u32) as u8] + encode_utf8(msg.drop_first()),
        is_char_boundary(encode_utf8(msg), 1),
{
    let v = msg[0] as u32;
    assert(leading_byte_width_1(v) == v as u8) by (bit_vector)
        requires
            v < 0x80,
    ;
    assert(encode_utf8(msg) == encode_scalar(v) + encode_utf8(msg.drop_first()));
    encode_utf8_first_scalar(msg);
    let bytes = encode_utf8(msg);
    assert(pop_first_scalar(bytes) =~= encode_utf8(msg.drop_first()));
    reveal_with_fuel(is_char_boundary, 2);
}

/* Executable code */

/// Decodes one received line, line end included.
pub fn decode_message(msg: &str) -> (r: Option<PanelInputEvent>)
    requires
        message_decodable(msg@),
    ensures
        r == message_event(msg@),
{
    proof {
        lemma_ascii_head(msg@);
    }
    let (_, rest) = msg.split_at(1);
    proof {
        assert(encode_utf8(rest@) == encode_utf8(msg@.drop_first()));
        assert(rest@ == decode_utf8(encode_utf8(rest@)));
    }
    let tail = str_trim(rest);
    let bytes = msg.as_bytes();
    let first = bytes[0];
    proof {
        let v = msg@[0] as u32;
        assert(first == v as u8);
        assert((v as u8) as u32 == v) by (bit_vector)
            requires
                v < 0x80,
        ;
    }
    if first == 114u8 {
        proof {
            char_u32_cast(msg@[0], msg@[0] as u32);
            char_u32_cast('r', 'r' as u32);
        }
        assert(msg@[0] == 'r');
        let n = str_parse_i32(tail);
        Some(PanelInputEvent::VolumeTurn(n.unwrap()))
    } else if first == 119u8 {
        proof {
            char_u32_cast(msg@[0], msg@[0] as u32);
            char_u32_cast('w', 'w' as u32);
        }
        assert(msg@[0] == 'w');
        let n = str_parse_i32(tail);
        Some(PanelInputEvent::Wiper(n.unwrap()))
    } else {
        assert(msg@[0] != 'r' && msg@[0] != 'w');
        None
    }
}

/// Whether `decode_message` can decode `msg`.
pub fn message_is_decodable(msg: &str) -> (b: bool)
    ensures
        b == message_decodable(msg@),
{
    if msg.is_empty() {
        return false;
    }
    let c = msg.get_char(0);
    if (c as u32) >= 0x80 {
        return false;
    }
    if c != 'r' && c != 'w' {
        return true;
    }
    proof {
        lemma_ascii_head(msg@);
    }
    let (_, rest) = msg.split_at(1);
    proof {
        assert(encode_utf8(rest@) == encode_utf8(msg@.drop_first()));
        assert(rest@ == decode_utf8(encode_utf8(rest@)));
    }
    let tail = str_trim(rest);
    str_parse_i32(tail).is_some()
}

/// The index of the first line end in `s`, if there is one.
pub fn find_newline(s: &[u8]) -> (r: Option<usize>)
    ensures
        r is None <==> !has_newline(s@),
        r matches Some(i) ==> is_first_newline(s@, i as int),
{
    let mut i: usize = 0;
    while i < s.len()
        invariant
            i <= s@.len(),
            forall|j: int| 0 <= j < i ==> s@[j] != NEWLINE,
        decreases s@.len() - i,
    {
        if s[i] == NEWLINE {
            return Some(i);
        }
        i = i + 1;
    }
    None
}

impl EventsCodec {
    /// Takes the first complete line out of `src` and decodes it. Without a
    /// complete line nothing is taken, unless more than `MAX_PENDING` bytes
    /// wait: those are dropped as corrupted input.
    pub fn decode(&mut self, src: &mut BytesMut) -> (r: Result<Option<PanelInputEvent>, DecodeError>)
        requires
            decode_defined(buffer_bytes(*old(src))),
        ensures
            r == decode_result(buffer_bytes(*old(src))),
            buffer_bytes(*final(src)) == decode_rest(buffer_bytes(*old(src))),
    {
        let ghost s = buffer_bytes(*src);
        let newline = find_newline(buffer_as_slice(src));
        let len = buffer_as_slice(src).len();
        if len > MAX_PENDING && newline.is_none() {
            buffer_clear(src);
            return Ok(None);
        }
        match newline {
            Some(n) => {
                proof {
                    lemma_first_line_len(s, n as int);
                }
                let line = buffer_split_to(src, n + 1);
                match str_from_utf8(buffer_as_slice(&line)) {
                    Some(text) => {
                        proof {
                            assert(text@ == decode_utf8(encode_utf8(text@)));
                        }
                        Ok(decode_message(text))
                    },
                    None => Err(DecodeError::InvalidString),
                }
            },
            None => Ok(None),
        }
    }

    /// Whether `decode` can be called on `src`: false exactly where the first
    /// line is complete, valid UTF-8, and not decodable.
    pub fn can_decode(&self, src: &BytesMut) -> (b: bool)
        ensures
            b == decode_defined(buffer_bytes(*src)),
    {
        let bytes = buffer_as_slice(src);
        let len = bytes.len();
        match find_newline(bytes) {
            Some(n) => {
                assert(n < len);
                proof {
                    lemma_first_line_len(bytes@, n as int);
                }
                let line = vstd::slice::slice_subrange(bytes, 0, n + 1);
                assert(line@ == bytes@.take(n + 1));
                match str_from_utf8(line) {
                    Some(text) => {
                        proof {
                            assert(text@ == decode_utf8(encode_utf8(text@)));
                        }
                        message_is_decodable(text)
                    },
                    None => true,
                }
            },
            None => true,
        }
    }

    /// Whether `decode` would drop the bytes of `src` as corrupted input:
    /// no line end among more than `MAX_PENDING` waiting bytes.
    pub fn will_discard(&self, src: &BytesMut) -> (b: bool)
        ensures
            b == discards_input(buffer_bytes(*src)),
    {
        let bytes = buffer_as_slice(src);
        bytes.len() > MAX_PENDING && find_newline(bytes).is_none()
    }

    /// The first line of `src`, line end included, where it is complete and
    /// names no event, so that decoding it gives nothing.
    pub fn unrecognized_line(&self, src: &BytesMut) -> (r: Option<String>)
        ensures
            r is Some <==> unrecognized_message(buffer_bytes(*src)) is Some,
            r matches Some(text) ==> text@ == unrecognized_message(buffer_bytes(*src))->0,
    {
        let bytes = buffer_as_slice(src);
        let len = bytes.len();
        match find_newline(bytes) {
            Some(n) => {
                assert(n < len);
                proof {
                    lemma_first_line_len(bytes@, n as int);
                }
                let line = vstd::slice::slice_subrange(bytes, 0, n + 1);
                assert(line@ == bytes@.take(n + 1));
                match str_from_utf8(line) {
                    Some(text) => {
                        proof {
                            assert(text@ == decode_utf8(encode_utf8(text@)));
                        }
                        if text.is_empty() {
                            return None;
                        }
                        let c = text.get_char(0);
                        if (c as u32) < 0x80 && c != 'r' && c != 'w' {
                            Some(text.to_owned())
                        } else {
                            None
                        }
                    },
                    None => None,
                }
            },
            None => None,
        }
    }

    /// Appends the text of `item` to `dst`. Fails, leaving `dst` as it was,
    /// when `dst` has no room left for it.
    pub fn encode(&mut self, item: PanelOutputEvent, dst: &mut BytesMut) -> (r: Result<(), EncodeError>)
        ensures
            r is Ok ==> buffer_bytes(*final(dst)) == buffer_bytes(*old(dst)) + encode_utf8(
                command_text(item),
            ),
            r is Err ==> buffer_bytes(*final(dst)) == buffer_bytes(*old(dst)),
    {
        let line = command_bytes(&item);
        match str_from_utf8(line.as_slice()) {
            Some(text) => {
                if buffer_write_str(dst, text) {
                    Ok(())
                } else {
                    Err(EncodeError::BufferFull)
                }
            },
            None => {
                proof {
                    assert(valid_utf8(line@));
                }
                Err(EncodeError::BufferFull)
            },
        }
    }
}

/// The decimal digits of `n`, as bytes.
fn push_decimal(out: &mut Vec<u8>, n: u8)
    ensures
        final(out)@ == old(out)@ + decimal(n as nat).map_values(|c: char| c as u8),
{
    reveal_with_fuel(decimal, 3);
    if n >= 100 {
        out.push(48 + n / 100);
        out.push(48 + (n / 10) % 10);
        out.push(48 + n % 10);
    } else if n >= 10 {
        out.push(48 + n / 10);
        out.push(48 + n % 10);
    } else {
        out.push(48 + n);
    }
    assert(final(out)@ =~= old(out)@ + decimal(n as nat).map_values(|c: char| c as u8));
}

/// The bytes of the command `item`, as they go on the wire.
pub fn command_bytes(item: &PanelOutputEvent) -> (v: Vec<u8>)
    ensures
        v@ == encode_utf8(command_text(*item)),
{
    let mut v: Vec<u8> = Vec::new();
    match item {
        PanelOutputEvent::SetLight(light, level) => {
            match light {
                Light::Left => v.push(98u8),
                Light::Right => v.push(97u8),
            }
            push_decimal(&mut v, *level);
            v.push(NEWLINE);
        },
    }
    proof {
        lemma_command_ascii(*item);
        let t = command_text(*item);
        is_ascii_chars_encode_utf8(t);
        assert(v@.len() == t.len());
        assert forall|i: int| 0 <= i < t.len() implies v@[i] == #[trigger] t[i] as u8 by {
        }
        assert(v@ =~= encode_utf8(t));
    }
    v
}

/* Laws of the line protocol */

/// A complete line is decoded the same whatever bytes follow it, and
/// exactly that line is taken from the buffer.
pub proof fn law_line_decoded_whatever_follows(line: Seq<u8>, rest: Seq<u8>)
    requires
        line.len() > 0,
        is_first_newline(line, line.len() - 1),
    ensures
        decode_result(line + rest) == decode_result(line),
        decode_defined(line + rest) == decode_defined(line),
        decode_rest(line + rest) == rest,
        decode_rest(line) == Seq::<u8>::empty(),
{
    let s = line + rest;
    let k = line.len() - 1;
    assert(is_first_newline(s, k));
    lemma_first_line_len(s, k);
    lemma_first_line_len(line, k);
    assert(s.take(k + 1) =~= line);
    assert(line.take(k + 1) =~= line);
    assert(s.skip(k + 1) =~= rest);
    assert(line.skip(k + 1) =~= Seq::<u8>::empty());
}

/// Every reading the panel can send is decoded to exactly that reading:
/// the line `w<n>\n` gives `Wiper(n)` and `r<n>\n` gives `VolumeTurn(n)`
/// for every `i32` value `n`, whatever follows the line, and the line is
/// taken from the buffer.
pub proof fn law_every_reading_is_decoded(n: i32, rest: Seq<u8>)
    ensures
        decode_defined(encode_utf8(reading_line('w', n)) + rest),
        decode_result(encode_utf8(reading_line('w', n)) + rest) == Ok::<
            Option<PanelInputEvent>,
            DecodeError,
        >(Some(PanelInputEvent::Wiper(n))),
        decode_rest(encode_utf8(reading_line('w', n)) + rest) == rest,
        decode_defined(encode_utf8(reading_line('r', n)) + rest),
        decode_result(encode_utf8(reading_line('r', n)) + rest) == Ok::<
            Option<PanelInputEvent>,
            DecodeError,
        >(Some(PanelInputEvent::VolumeTurn(n))),
        decode_rest(encode_utf8(reading_line('r', n)) + rest) == rest,
{
    lemma_reading_line('w', n, rest);
    lemma_reading_line('r', n, rest);
}

proof fn lemma_reading_line(letter: char, n: i32, rest: Seq<u8>)
    requires
        letter == 'w' || letter == 'r',
    ensures
        decode_defined(encode_utf8(reading_line(letter, n)) + rest),
        decode_result(encode_utf8(reading_line(letter, n)) + rest) == Ok::<
            Option<PanelInputEvent>,
            DecodeError,
        >(message_event(reading_line(letter, n))),
        decode_rest(encode_utf8(reading_line(letter, n)) + rest) == rest,
        reading(reading_line(letter, n).drop_first()) == Some(n),
{
    let sd = signed_decimal(n as int);
    let c = reading_line(letter, n);
    lemma_signed_decimal_parses(n);
    assert(c.len() == sd.len() + 2);
    assert forall|i: int| 0 <= i < c.len() implies '\0' <= #[trigger] c[i] <= '\u{7f}' && (i
        < c.len() - 1 ==> c[i] != '\n') by {
        if i == 0 {
            assert(c[i] == letter);
            assert('\0' <= letter <= '\u{7f}');
        } else if i == c.len() - 1 {
            assert(c[i] == '\n');
        } else {
            assert(c[i] == sd[i - 1]);
        }
    }
    assert(is_ascii_chars(c));
    is_ascii_chars_encode_utf8(c);
    let line = encode_utf8(c);
    assert forall|j: int| 0 <= j < line.len() - 1 implies line[j] != NEWLINE by {
        assert(line[j] == c[j] as u8);
    }
    assert(line[line.len() - 1] == c[c.len() - 1] as u8);
    assert(is_first_newline(line, line.len() - 1));
    law_line_decoded_whatever_follows(line, rest);
    lemma_first_line_len(line, line.len() - 1);
    assert(line.take(first_line_len(line)) =~= line);
    // The text after the letter trims to the number's notation.
    let tail = c.drop_first();
    assert(tail =~= sd + seq!['\n']);
    assert(trim_start(tail) == tail);
    assert(tail.drop_last() =~= sd);
    assert(trim_end(tail) == trim_end(sd));
    assert(trim_end(sd) == sd);
    assert(trimmed(tail) == sd);
}

/// Every command is a single line: its one line end is its last byte, and
/// it is ASCII text.
pub proof fn law_command_is_one_line(item: PanelOutputEvent)
    ensures
        is_ascii_chars(command_text(item)),
        is_first_newline(encode_utf8(command_text(item)), encode_utf8(command_text(item)).len() - 1),
{
    lemma_command_ascii(item);
    let c = command_text(item);
    is_ascii_chars_encode_utf8(c);
    let line = encode_utf8(c);
    match item {
        PanelOutputEvent::SetLight(light, level) => {
            let d = decimal(level as nat);
            lemma_decimal_digits(level as nat);
            assert forall|j: int| 0 <= j < line.len() - 1 implies line[j] != NEWLINE by {
                assert(line[j] == c[j] as u8);
                if j > 0 {
                    assert(c[j] == d[j - 1]);
                    assert(is_decimal_digit(d[j - 1]));
                }
            }
            assert(line[line.len() - 1] == c[c.len() - 1] as u8);
        },
    }
}


/* White space around a reading */

/// The characters that may stand around a reading on its line: white space
/// other than the line end.
pub open spec fn is_padding(pad: Seq<char>) -> bool {
    forall|i: int| 0 <= i < pad.len() ==> is_white_space(#[trigger] pad[i]) && pad[i] != '\n'
}

/// The line `<letter><before><n><after>\n`.
pub open spec fn padded_reading_line(letter: char, before: Seq<char>, n: i32, after: Seq<char>) -> Seq<char> {
    seq![letter] + before + signed_decimal(n as int) + after + seq!['\n']
}

proof fn lemma_encode_utf8_concat(x: Seq<char>, y: Seq<char>)
    ensures
        encode_utf8(x + y) == encode_utf8(x) + encode_utf8(y),
    decreases x.len(),
{
    if x.len() == 0 {
        assert(x + y =~= y);
    } else {
        lemma_encode_utf8_concat(x.drop_first(), y);
        assert((x + y).drop_first() =~= x.drop_first() + y);
        assert((x + y)[0] == x[0]);
    }
}

/// Only the line end itself is encoded with the line-end byte.
proof fn lemma_scalar_newline(c: char)
    ensures
        forall|j: int|
            0 <= j < encode_scalar(c as u32).len() ==> (#[trigger] encode_scalar(c as u32)[j]
                == NEWLINE <==> c == '\n'),
{
    char_is_scalar(c);
    char_u32_cast(c, c as u32);
    char_u32_cast('\n', '\n' as u32);
    let v = c as u32;
    if has_width_1_encoding(v) {
        assert((leading_byte_width_1(v) == 10) <==> (v == 10)) by (bit_vector)
            requires
                v <= 0x7f,
        ;
    } else if has_width_2_encoding(v) {
        assert(leading_byte_width_2(v) >= 0x80 && last_continuation_byte(v) >= 0x80) by (bit_vector);
    } else if has_width_3_encoding(v) {
        assert(leading_byte_width_3(v) >= 0x80 && second_last_continuation_byte(v) >= 0x80
            && last_continuation_byte(v) >= 0x80) by (bit_vector);
    } else {
        assert(leading_byte_width_4(v) >= 0x80 && third_last_continuation_byte(v) >= 0x80
            && second_last_continuation_byte(v) >= 0x80 && last_continuation_byte(v) >= 0x80)
            by (bit_vector);
    }
}

/// Text without a line end encodes to bytes without a line end.
proof fn lemma_no_newline_encoded(x: Seq<char>)
    requires
        forall|i: int| 0 <= i < x.len() ==> #[trigger] x[i] != '\n',
    ensures
        !has_newline(encode_utf8(x)),
    decreases x.len(),
{
    if x.len() > 0 {
        lemma_no_newline_encoded(x.drop_first());
        lemma_scalar_newline(x[0]);
        let head = encode_scalar(x[0] as u32);
        let tail = encode_utf8(x.drop_first());
        assert(encode_utf8(x) == head + tail);
        assert forall|j: int| 0 <= j < encode_utf8(x).len() implies encode_utf8(x)[j] != NEWLINE by {
            if j < head.len() {
                assert(encode_utf8(x)[j] == head[j]);
            } else {
                assert(encode_utf8(x)[j] == tail[j - head.len()]);
            }
        }
    }
}

proof fn lemma_trim_start_padding(pad: Seq<char>, y: Seq<char>)
    requires
        forall|i: int| 0 <= i < pad.len() ==> is_white_space(#[trigger] pad[i]),
    ensures
        trim_start(pad + y) == trim_start(y),
    decreases pad.len(),
{
    if pad.len() == 0 {
        assert(pad + y =~= y);
    } else {
        assert((pad + y)[0] == pad[0]);
        assert((pad + y).drop_first() =~= pad.drop_first() + y);
        lemma_trim_start_padding(pad.drop_first(), y);
    }
}

proof fn lemma_trim_end_padding(z: Seq<char>, pad: Seq<char>)
    requires
        forall|i: int| 0 <= i < pad.len() ==> is_white_space(#[trigger] pad[i]),
    ensures
        trim_end(z + pad) == trim_end(z),
    decreases pad.len(),
{
    if pad.len() == 0 {
        assert(z + pad =~= z);
    } else {
        assert((z + pad).last() == pad.last());
        assert((z + pad).drop_last() =~= z + pad.drop_last());
        lemma_trim_end_padding(z, pad.drop_last());
    }
}

/// White space around a reading is ignored: for every `i32` value `n` and
/// any white space (other than a line end) before and after it, the line
/// `r<before><n><after>\n` decodes to `VolumeTurn(n)` and
/// `w<before><n><after>\n` to `Wiper(n)`, whatever follows the line, and
/// the line is taken from the buffer.
pub proof fn law_white_space_around_reading_ignored(
    before: Seq<char>,
    n: i32,
    after: Seq<char>,
    rest: Seq<u8>,
)
    requires
        is_padding(before),
        is_padding(after),
    ensures
        decode_defined(encode_utf8(padded_reading_line('r', before, n, after)) + rest),
        decode_result(encode_utf8(padded_reading_line('r', before, n, after)) + rest) == Ok::<
            Option<PanelInputEvent>,
            DecodeError,
        >(Some(PanelInputEvent::VolumeTurn(n))),
        decode_rest(encode_utf8(padded_reading_line('r', before, n, after)) + rest) == rest,
        decode_defined(encode_utf8(padded_reading_line('w', before, n, after)) + rest),
        decode_result(encode_utf8(padded_reading_line('w', before, n, after)) + rest) == Ok::<
            Option<PanelInputEvent>,
            DecodeError,
        >(Some(PanelInputEvent::Wiper(n))),
        decode_rest(encode_utf8(padded_reading_line('w', before, n, after)) + rest) == rest,
{
    lemma_padded_reading_line('r', before, n, after, rest);
    lemma_padded_reading_line('w', before, n, after, rest);
}

proof fn lemma_padded_reading_line(
    letter: char,
    before: Seq<char>,
    n: i32,
    after: Seq<char>,
    rest: Seq<u8>,
)
    requires
        letter == 'w' || letter == 'r',
        is_padding(before),
        is_padding(after),
    ensures
        decode_defined(encode_utf8(padded_reading_line(letter, before, n, after)) + rest),
        decode_result(encode_utf8(padded_reading_line(letter, before, n, after)) + rest) == Ok::<
            Option<PanelInputEvent>,
            DecodeError,
        >(message_event(padded_reading_line(letter, before, n, after))),
        decode_rest(encode_utf8(padded_reading_line(letter, before, n, after)) + rest) == rest,
        reading(padded_reading_line(letter, before, n, after).drop_first()) == Some(n),
{
    let sd = signed_decimal(n as int);
    lemma_signed_decimal_parses(n);
    let body = seq![letter] + before + sd + after;
    let c = padded_reading_line(letter, before, n, after);
    assert(c == body + seq!['\n']);
    // The line's bytes: the body's bytes, none a line end, then the line end.
    assert forall|i: int| 0 <= i < body.len() implies #[trigger] body[i] != '\n' by {
        if i == 0 {
        } else if i < 1 + before.len() {
            assert(body[i] == before[i - 1]);
        } else if i < 1 + before.len() + sd.len() {
            assert(body[i] == sd[i - 1 - before.len()]);
        } else {
            assert(body[i] == after[i - 1 - before.len() - sd.len()]);
        }
    }
    lemma_no_newline_encoded(body);
    lemma_encode_utf8_concat(body, seq!['\n']);
    let nl = encode_utf8(seq!['\n']);
    assert(seq!['\n'].drop_first() =~= Seq::<char>::empty());
    assert(nl == encode_scalar('\n' as u32) + encode_utf8(Seq::<char>::empty()));
    assert(leading_byte_width_1(10) == 10) by (bit_vector);
    assert(nl =~= seq![NEWLINE]);
    let line = encode_utf8(c);
    let b = encode_utf8(body);
    assert(line == b + nl);
    assert forall|j: int| 0 <= j < line.len() - 1 implies line[j] != NEWLINE by {
        assert(line[j] == b[j]);
    }
    assert(line[line.len() - 1] == NEWLINE);
    assert(is_first_newline(line, line.len() - 1));
    law_line_decoded_whatever_follows(line, rest);
    lemma_first_line_len(line, line.len() - 1);
    assert(line.take(first_line_len(line)) =~= line);
    // The text after the letter trims to the number's notation.
    let tail = c.drop_first();
    let pad_after = after + seq!['\n'];
    assert(tail =~= before + (sd + pad_after));
    lemma_trim_start_padding(before, sd + pad_after);
    assert((sd + pad_after)[0] == sd[0]);
    assert(trim_start(sd + pad_after) == sd + pad_after);
    assert forall|i: int| 0 <= i < pad_after.len() implies is_white_space(#[trigger] pad_after[i]) by {
        if i < after.len() {
            assert(pad_after[i] == after[i]);
        } else {
            assert(pad_after[i] == '\n');
        }
    }
    lemma_trim_end_padding(sd, pad_after);
    assert(sd.drop_last() + seq![sd.last()] =~= sd);
    assert(trim_end(sd) == sd);
    assert(trimmed(tail) == sd);
    assert(c[0] == letter);
}

/* Partial input */

/// Without a line end, up to `MAX_PENDING` bytes are kept as they are and
/// give no event, so a line that arrives in two parts decodes as the whole
/// line does; more bytes than that without a line end are all dropped.
pub proof fn law_partial_line_kept(s: Seq<u8>, more: Seq<u8>)
    requires
        !has_newline(s),
    ensures
        decode_result(s) == Ok::<Option<PanelInputEvent>, DecodeError>(None),
        s.len() <= MAX_PENDING ==> decode_rest(s) == s,
        s.len() <= MAX_PENDING ==> decode_result(decode_rest(s) + more) == decode_result(s + more),
        s.len() <= MAX_PENDING ==> decode_rest(decode_rest(s) + more) == decode_rest(s + more),
        s.len() > MAX_PENDING ==> decode_rest(s).len() == 0,
{
}

/* What a command says */

/// The text of a command is its light's letter (`b` for the left light, `a`
/// for the right one), then its level in decimal digits, without leading
/// zeros, that denote exactly the level and parse back to it, then a line
/// end.
pub proof fn law_command_denotes_level(light: Light, level: u8)
    ensures
        command_text(PanelOutputEvent::SetLight(light, level)).len() >= 3,
        command_text(PanelOutputEvent::SetLight(light, level))[0] == (match light {
            Light::Left => 'b',
            Light::Right => 'a',
        }),
        command_text(PanelOutputEvent::SetLight(light, level)).last() == '\n',
        all_decimal_digits(command_digits(light, level)),
        digits_value(command_digits(light, level)) == level,
        parsed_i32(command_digits(light, level)) == Some(level as i32),
        command_digits(light, level).len() == 1 || command_digits(light, level)[0] != '0',
{
    let t = command_text(PanelOutputEvent::SetLight(light, level));
    let d = decimal(level as nat);
    assert(t == seq![light_letter(light)] + d + seq!['\n']);
    lemma_decimal_digits(level as nat);
    lemma_decimal_value(level as nat);
    lemma_decimal_leading(level as nat);
    assert(command_digits(light, level) =~= d);
    lemma_signed_decimal_parses(level as i32);
    assert(signed_decimal(level as int) == d);
}

/// The text of a command between its letter and its line end.
pub open spec fn command_digits(light: Light, level: u8) -> Seq<char> {
    let t = command_text(PanelOutputEvent::SetLight(light, level));
    t.subrange(1, t.len() - 1)
}

/// Decimal notation has no leading zero, unless it is `0` itself.
proof fn lemma_decimal_leading(n: nat)
    ensures
        n >= 1 ==> decimal(n)[0] != '0',
        n == 0 ==> decimal(n).len() == 1,
    decreases n,
{
    lemma_decimal_digits(n);
    if n >= 10 {
        lemma_decimal_leading(n / 10);
        lemma_decimal_digits(n / 10);
        assert(decimal(n)[0] == decimal(n / 10)[0]);
    } else {
        assert(decimal(n)[0] == digit_char(n));
        assert(digit_char(n) as u32 == n + 48);
        assert('0' as u32 == 48);
    }
}

} // verus!
