use crate::utils::{
    decimal_bytes, find_byte_from, find_from, is_digit, lemma_decimal_bytes,
    lemma_decimal_bytes_parse, lemma_find_from, lemma_find_from_at, parse_unsigned,
    parse_unsigned_at,
};
use vstd::prelude::*;
use vstd::string::StringSliceAdditionalSpecFns;

verus! {

/// A mouse location.
#[derive(Debug, Clone, Copy, PartialEq, Eq, Structural)]
pub struct Event {
    pub x: u16,
    pub y: u16,
}

/// The coordinate in a field such as `x:1254`: the number after its first
/// two bytes.
pub open spec fn coordinate(field: Seq<u8>) -> Option<nat> {
    if field.len() >= 2 {
        parse_unsigned(field.subrange(2, field.len() as int), 65535)
    } else {
        None
    }
}

/// The location that `xdotool getmouselocation` reports in `output`
/// (`x:X y:Y screen:S window:W`): the coordinates in the first two
/// space-separated fields; `None` where there is no second field or a field
/// holds no coordinate in range.
pub open spec fn location(output: Seq<u8>) -> Option<Event> {
    let first_end = find_from(output, 0, 32);
    if first_end >= output.len() {
        None
    } else {
        let second_end = find_from(output, first_end + 1, 32);
        match (
            coordinate(output.subrange(0, first_end)),
            coordinate(output.subrange(first_end + 1, second_end)),
        ) {
            (Some(x), Some(y)) => Some(Event { x: x as u16, y: y as u16 }),
            _ => None,
        }
    }
}

fn coordinate_at(bytes: &[u8], start: usize, end: usize) -> (r: Option<u16>)
    requires
        start <= end <= bytes@.len(),
    ensures
        match r {
            Some(v) => coordinate(bytes@.subrange(start as int, end as int)) == Some(v as nat),
            None => coordinate(bytes@.subrange(start as int, end as int)) is None,
        },
{
    let ghost field = bytes@.subrange(start as int, end as int);
    if end - start < 2 {
        return None;
    }
    assert(field.subrange(2, field.len() as int) =~= bytes@.subrange(start + 2, end as int));
    match parse_unsigned_at(bytes, start + 2, end, 65535) {
        Some(v) => Some(v as u16),
        None => None,
    }
}

/// Reads the mouse location in the output of `xdotool getmouselocation`.
pub fn parse_location(output: &str) -> (r: Option<Event>)
    ensures
        r == location(output.spec_bytes()),
{
    let bytes = output.as_bytes();
    proof {
        lemma_find_from(bytes@, 0, 32);
    }
    let first_end = find_byte_from(bytes, 0, 32);
    if first_end >= bytes.len() {
        return None;
    }
    proof {
        lemma_find_from(bytes@, first_end + 1, 32);
    }
    let second_end = find_byte_from(bytes, first_end + 1, 32);
    let x = coordinate_at(bytes, 0, first_end);
    let y = coordinate_at(bytes, first_end + 1, second_end);
    match (x, y) {
        (Some(x), Some(y)) => Some(Event { x, y }),
        _ => None,
    }
}

/// The location is the pair of numbers written in the first two fields:
/// for every `x` and `y`, the output `"x:X y:Y"` followed by nothing or by
/// further space-separated fields (`" screen:S window:W"`) is read as
/// (`x`, `y`).
pub proof fn lemma_location_round_trip(x: u16, y: u16, rest: Seq<u8>)
    requires
        rest.len() == 0 || rest[0] == 32,
    ensures
        location(
            seq![120u8, 58] + decimal_bytes(x as nat) + seq![32u8, 121, 58] + decimal_bytes(y as nat)
                + rest,
        ) == Some(Event { x, y }),
{
    let dx = decimal_bytes(x as nat);
    let dy = decimal_bytes(y as nat);
    let f1 = seq![120u8, 58] + dx;
    let f2 = seq![121u8, 58] + dy;
    let out = f1 + seq![32u8] + f2 + rest;
    assert(out =~= seq![120u8, 58] + dx + seq![32u8, 121, 58] + dy + rest);
    lemma_decimal_bytes(x as nat);
    lemma_decimal_bytes(y as nat);
    let e1 = f1.len() as int;
    let e2 = e1 + 1 + f2.len();
    assert forall|j: int| 0 <= j < e1 implies out[j] != 32 by {
        assert(out[j] == f1[j]);
        if j >= 2 {
            assert(f1[j] == dx[j - 2]);
            assert(is_digit(dx[j - 2]));
        }
    }
    assert(out[e1] == 32);
    lemma_find_from_at(out, 0, e1, 32);
    assert forall|j: int| e1 + 1 <= j < e2 implies out[j] != 32 by {
        assert(out[j] == f2[j - e1 - 1]);
        if j - e1 - 1 >= 2 {
            assert(f2[j - e1 - 1] == dy[j - e1 - 3]);
            assert(is_digit(dy[j - e1 - 3]));
        }
    }
    assert(e2 == out.len() || out[e2] == 32);
    lemma_find_from_at(out, e1 + 1, e2, 32);
    assert(out.subrange(0, e1) =~= f1);
    assert(out.subrange(e1 + 1, e2) =~= f2);
    assert(f1.subrange(2, f1.len() as int) =~= dx);
    assert(f2.subrange(2, f2.len() as int) =~= dy);
    lemma_decimal_bytes_parse(x as nat, 65535);
    lemma_decimal_bytes_parse(y as nat, 65535);
}

} // verus!
