//! Rendering of broadcast payloads.
//!
//! A chat line from an authorized user fans out as
//! `YYYY:MM:DD HH:MM:SS - <username>: <line>`, where the line keeps its
//! terminator. The payload is built once as a byte buffer and shared by
//! every recipient queue.

use vstd::prelude::*;
use vstd::string::StringSliceAdditionalSpecFns;
use vstd::utf8::encode_utf8;

use crate::clock::TimeParts;

verus! {

/// The ASCII digit for `n`, a single decimal digit.
pub open spec fn digit_byte(n: int) -> u8 {
    (0x30 + n % 10) as u8
}

/// `n` rendered as exactly two decimal digits.
pub open spec fn two_digit_bytes(n: int) -> Seq<u8> {
    seq![digit_byte(n / 10), digit_byte(n)]
}

/// `n` rendered as exactly four decimal digits.
pub open spec fn four_digit_bytes(n: int) -> Seq<u8> {
    seq![digit_byte(n / 1000), digit_byte(n / 100), digit_byte(n / 10), digit_byte(n)]
}

/// The stamp `YYYY:MM:DD HH:MM:SS` for one clock reading.
pub open spec fn timestamp_bytes(ts: TimeParts) -> Seq<u8> {
    four_digit_bytes(ts.year as int) + seq![0x3au8] + two_digit_bytes(ts.month as int) + seq![
        0x3au8,
    ] + two_digit_bytes(ts.day as int) + seq![0x20u8] + two_digit_bytes(ts.hour as int) + seq![
        0x3au8,
    ] + two_digit_bytes(ts.minute as int) + seq![0x3au8] + two_digit_bytes(ts.second as int)
}

/// The full fan-out payload: stamp, sender name, and the message line with
/// its terminator.
pub open spec fn broadcast_payload(ts: TimeParts, name: Seq<char>, msg: Seq<char>) -> Seq<u8> {
    timestamp_bytes(ts) + encode_utf8(" - "@) + encode_utf8(name) + encode_utf8(": "@)
        + encode_utf8(msg)
}

fn push_two_digits(v: &mut Vec<u8>, n: u8)
    requires
        n < 100,
    ensures
        final(v)@ == old(v)@ + two_digit_bytes(n as int),
{
    v.push(0x30 + n / 10);
    v.push(0x30 + n % 10);
    assert(v@ =~= old(v)@ + two_digit_bytes(n as int));
}

fn push_four_digits(v: &mut Vec<u8>, n: u16)
    requires
        n <= 9999,
    ensures
        final(v)@ == old(v)@ + four_digit_bytes(n as int),
{
    v.push(0x30 + (n / 1000) as u8);
    v.push(0x30 + ((n / 100) % 10) as u8);
    v.push(0x30 + ((n / 10) % 10) as u8);
    v.push(0x30 + (n % 10) as u8);
    assert(v@ =~= old(v)@ + four_digit_bytes(n as int));
}

/// Render the stamp for one clock reading.
pub fn format_timestamp(ts: &TimeParts) -> (v: Vec<u8>)
    requires
        ts.wf(),
    ensures
        v@ == timestamp_bytes(*ts),
{
    let mut v: Vec<u8> = Vec::new();
    push_four_digits(&mut v, ts.year);
    v.push(0x3a);
    push_two_digits(&mut v, ts.month);
    v.push(0x3a);
    push_two_digits(&mut v, ts.day);
    v.push(0x20);
    push_two_digits(&mut v, ts.hour);
    v.push(0x3a);
    push_two_digits(&mut v, ts.minute);
    v.push(0x3a);
    push_two_digits(&mut v, ts.second);
    assert(v@ =~= timestamp_bytes(*ts));
    v
}

/// Build the fan-out payload for one message line.
pub fn build_broadcast_payload(ts: &TimeParts, name: &String, msg: &String) -> (v: Vec<u8>)
    requires
        ts.wf(),
    ensures
        v@ == broadcast_payload(*ts, name@, msg@),
{
    let mut v = format_timestamp(ts);
    v.extend_from_slice(" - ".as_bytes());
    v.extend_from_slice(name.as_str().as_bytes());
    v.extend_from_slice(": ".as_bytes());
    v.extend_from_slice(msg.as_str().as_bytes());
    assert(v@ =~= broadcast_payload(*ts, name@, msg@));
    v
}

} // verus!
