use crate::utils::{
    all_digits, decimal_bytes, find_byte_from, find_from, is_digit, lemma_decimal_bytes,
    lemma_decimal_bytes_parse, lemma_find_from, lemma_find_from_at, parse_unsigned,
    parse_unsigned_at,
};
use vstd::prelude::*;
use vstd::string::StringSliceAdditionalSpecFns;

verus! {

/// What happened to a key or a mouse button.
#[derive(Debug, Clone, Copy, PartialEq, Eq, Structural)]
pub enum EventKind {
    KeyDown,
    KeyUp,
    MouseDown,
    MouseUp,
}

/// A key or mouse button event.
#[derive(Debug, Clone, Copy, PartialEq, Eq, Structural)]
pub struct Event {
    pub kind: EventKind,
    /// Keyboard button ID or mouse button ID.
    pub code: u8,
    /// Mouse position X, or 0 in case of keyboard event.
    pub x: u16,
    /// Mouse position Y, or 0 in case of keyboard event.
    pub y: u16,
}

/// What one line of `xinput test-xi2` output tells about the event being read.
#[derive(Debug, PartialEq, Eq)]
pub enum Parsed<T> {
    /// The line does not complete the event: keep reading it in this mode.
    Pending(EventKind),
    /// The line completes the event.
    Ready(T),
    /// The line names the button, but not as a number in range.
    Invalid,
}

/// What reading the output asks to be done.
#[derive(Debug, Clone, Copy, PartialEq, Eq)]
pub enum Action {
    /// Report this keyboard event.
    Key(Event),
    /// Report a mouse button event, at the mouse location of the moment.
    Click { kind: EventKind, code: u8 },
}

/// Whether `line` begins with `prefix`.
pub open spec fn starts_with(line: Seq<u8>, prefix: Seq<u8>) -> bool {
    line.len() >= prefix.len() && line.subrange(0, prefix.len() as int) == prefix
}

/// The bytes of `"    detail: "`, which begins the line that names the button.
pub open spec fn detail_prefix() -> Seq<u8> {
    seq![32u8, 32, 32, 32, 100, 101, 116, 97, 105, 108, 58, 32]
}

/// The bytes of `"EVENT type "`, which begins the line that starts an event.
pub open spec fn event_type_prefix() -> Seq<u8> {
    seq![69u8, 86, 69, 78, 84, 32, 116, 121, 112, 101, 32]
}

/// The kind of event whose first line `line` is: types 2, 3, 15 and 16 of
/// `xinput test-xi2` (as prefixes of the line, as `str::starts_with` tests).
pub open spec fn event_start(line: Seq<u8>) -> Option<EventKind> {
    let p = event_type_prefix();
    if starts_with(line, p.push(50)) {
        Some(EventKind::KeyDown)
    } else if starts_with(line, p.push(51)) {
        Some(EventKind::KeyUp)
    } else if starts_with(line, p.push(49).push(53)) {
        Some(EventKind::MouseDown)
    } else if starts_with(line, p.push(49).push(54)) {
        Some(EventKind::MouseUp)
    } else {
        None
    }
}

/// The button number that a detail line names, if it names one in range.
pub open spec fn detail_code(line: Seq<u8>) -> Option<nat> {
    parse_unsigned(line.subrange(12, line.len() as int), 255)
}

/// What a line tells about a keyboard event of kind `mode`.
pub open spec fn keyboard_line(line: Seq<u8>, mode: EventKind) -> Parsed<Event> {
    if starts_with(line, detail_prefix()) {
        match detail_code(line) {
            Some(code) => Parsed::Ready(Event { kind: mode, code: code as u8, x: 0, y: 0 }),
            None => Parsed::Invalid,
        }
    } else {
        Parsed::Pending(mode)
    }
}

/// What a line tells about a mouse button event of kind `mode`: the button.
pub open spec fn click_line(line: Seq<u8>, mode: EventKind) -> Parsed<u8> {
    if starts_with(line, detail_prefix()) {
        match detail_code(line) {
            Some(code) => Parsed::Ready(code as u8),
            None => Parsed::Invalid,
        }
    } else {
        Parsed::Pending(mode)
    }
}

/// What reading one line in `mode` gives: the next mode and an action, or
/// `None` for a malformed line.
pub open spec fn read_line(mode: Option<EventKind>, line: Seq<u8>) -> Option<
    (Option<EventKind>, Option<Action>),
> {
    match mode {
        None => Some((event_start(line), None)),
        Some(kind) => if kind == EventKind::KeyDown || kind == EventKind::KeyUp {
            match keyboard_line(line, kind) {
                Parsed::Pending(m) => Some((Some(m), None)),
                Parsed::Ready(e) => Some((None, Some(Action::Key(e)))),
                Parsed::Invalid => None,
            }
        } else {
            match click_line(line, kind) {
                Parsed::Pending(m) => Some((Some(m), None)),
                Parsed::Ready(code) => Some((None, Some(Action::Click { kind, code }))),
                Parsed::Invalid => None,
            }
        },
    }
}

/// What reading the lines of `bytes` from `start` on (separated by newlines,
/// as `str::split('\n')` separates them) in `mode` gives: the mode after the
/// last line, the actions in order, and whether a malformed line stopped the
/// reading (then the actions are those before it).
pub open spec fn read_lines(mode: Option<EventKind>, bytes: Seq<u8>, start: int) -> (
    Option<EventKind>,
    Seq<Action>,
    bool,
)
    decreases bytes.len() - start,
{
    let end = find_from(bytes, start, 10);
    match read_line(mode, bytes.subrange(start, end)) {
        None => (None, Seq::empty(), true),
        Some((next, action)) => {
            let acts = match action {
                Some(a) => seq![a],
                None => Seq::empty(),
            };
            if end >= bytes.len() {
                (next, acts, false)
            } else {
                proof {
                    lemma_find_from(bytes, start, 10);
                }
                let rest = read_lines(next, bytes, end + 1);
                (rest.0, acts + rest.1, rest.2)
            }
        },
    }
}

/// The result of reading a chunk of `xinput test-xi2` output.
pub struct Reading {
    /// The mode in which to read the next chunk.
    pub mode: Option<EventKind>,
    /// The events read, in order.
    pub actions: Vec<Action>,
    /// Whether a line that should name a button did not; reading stopped
    /// there.
    pub malformed: bool,
}

fn detail_prefix_bytes() -> (p: [u8; 12])
    ensures
        p@ == detail_prefix(),
{
    let p = [32u8, 32, 32, 32, 100, 101, 116, 97, 105, 108, 58, 32];
    assert(p@ =~= detail_prefix());
    p
}

fn event_type_bytes(last: u8) -> (p: [u8; 12])
    ensures
        p@ == event_type_prefix().push(last),
{
    let p = [69u8, 86, 69, 78, 84, 32, 116, 121, 112, 101, 32, last];
    assert(p@ =~= event_type_prefix().push(last));
    p
}

fn event_type_bytes_2(tens: u8, ones: u8) -> (p: [u8; 13])
    ensures
        p@ == event_type_prefix().push(tens).push(ones),
{
    let p = [69u8, 86, 69, 78, 84, 32, 116, 121, 112, 101, 32, tens, ones];
    assert(p@ =~= event_type_prefix().push(tens).push(ones));
    p
}

fn starts_with_at(bytes: &[u8], start: usize, end: usize, prefix: &[u8]) -> (b: bool)
    requires
        start <= end <= bytes@.len(),
    ensures
        b == starts_with(bytes@.subrange(start as int, end as int), prefix@),
{
    let ghost line = bytes@.subrange(start as int, end as int);
    if end - start < prefix.len() {
        return false;
    }
    let mut i: usize = 0;
    while i < prefix.len()
        invariant
            start <= end <= bytes@.len(),
            line == bytes@.subrange(start as int, end as int),
            prefix@.len() <= end - start,
            i <= prefix@.len(),
            forall|j: int| 0 <= j < i ==> bytes@[start + j] == prefix@[j],
        decreases prefix@.len() - i,
    {
        if bytes[start + i] != prefix[i] {
            assert(line.subrange(0, prefix@.len() as int)[i as int] != prefix@[i as int]);
            return false;
        }
        i = i + 1;
    }
    assert(line.subrange(0, prefix@.len() as int) =~= prefix@);
    true
}

fn event_start_at(bytes: &[u8], start: usize, end: usize) -> (r: Option<EventKind>)
    requires
        start <= end <= bytes@.len(),
    ensures
        r == event_start(bytes@.subrange(start as int, end as int)),
{
    if starts_with_at(bytes, start, end, event_type_bytes(50).as_slice()) {
        Some(EventKind::KeyDown)
    } else if starts_with_at(bytes, start, end, event_type_bytes(51).as_slice()) {
        Some(EventKind::KeyUp)
    } else if starts_with_at(bytes, start, end, event_type_bytes_2(49, 53).as_slice()) {
        Some(EventKind::MouseDown)
    } else if starts_with_at(bytes, start, end, event_type_bytes_2(49, 54).as_slice()) {
        Some(EventKind::MouseUp)
    } else {
        None
    }
}

/// The button that the line names, if it is a detail line: `Ok(None)` for
/// another line, `Err(())` for a detail line without a number in range.
fn detail_code_at(bytes: &[u8], start: usize, end: usize) -> (r: Result<Option<u8>, ()>)
    requires
        start <= end <= bytes@.len(),
    ensures
        ({
            let line = bytes@.subrange(start as int, end as int);
            match r {
                Ok(None) => !starts_with(line, detail_prefix()),
                Ok(Some(code)) => starts_with(line, detail_prefix()) && detail_code(line) == Some(
                    code as nat,
                ),
                Err(()) => starts_with(line, detail_prefix()) && detail_code(line) is None,
            }
        }),
{
    let ghost line = bytes@.subrange(start as int, end as int);
    if !starts_with_at(bytes, start, end, detail_prefix_bytes().as_slice()) {
        return Ok(None);
    }
    assert(line.subrange(12, line.len() as int) =~= bytes@.subrange(start + 12, end as int));
    match parse_unsigned_at(bytes, start + 12, end, 255) {
        Some(v) => Ok(Some(v as u8)),
        None => Err(()),
    }
}

fn keyboard_line_at(bytes: &[u8], start: usize, end: usize, mode: EventKind) -> (r: Parsed<Event>)
    requires
        start <= end <= bytes@.len(),
    ensures
        r == keyboard_line(bytes@.subrange(start as int, end as int), mode),
{
    match detail_code_at(bytes, start, end) {
        Ok(None) => Parsed::Pending(mode),
        Ok(Some(code)) => Parsed::Ready(Event { kind: mode, code, x: 0, y: 0 }),
        Err(()) => Parsed::Invalid,
    }
}

fn click_line_at(bytes: &[u8], start: usize, end: usize, mode: EventKind) -> (r: Parsed<u8>)
    requires
        start <= end <= bytes@.len(),
    ensures
        r == click_line(bytes@.subrange(start as int, end as int), mode),
{
    match detail_code_at(bytes, start, end) {
        Ok(None) => Parsed::Pending(mode),
        Ok(Some(code)) => Parsed::Ready(code),
        Err(()) => Parsed::Invalid,
    }
}

/// Reads one line of a keyboard event of kind `mode`: a line
/// `"    detail: N"` completes the event with key `N` (at position 0, 0);
/// any other line leaves it pending.
pub fn parse_keyboard(line: &str, mode: EventKind) -> (r: Parsed<Event>)
    ensures
        r == keyboard_line(line.spec_bytes(), mode),
{
    let bytes = line.as_bytes();
    assert(bytes@.subrange(0, bytes@.len() as int) =~= bytes@);
    keyboard_line_at(bytes, 0, bytes.len(), mode)
}

/// Reads one line of a mouse button event of kind `mode`: a line
/// `"    detail: N"` completes the event with button `N`, whose location is
/// still to be looked up; any other line leaves it pending.
pub fn parse_click(line: &str, mode: EventKind) -> (r: Parsed<u8>)
    ensures
        r == click_line(line.spec_bytes(), mode),
{
    let bytes = line.as_bytes();
    assert(bytes@.subrange(0, bytes@.len() as int) =~= bytes@);
    click_line_at(bytes, 0, bytes.len(), mode)
}

fn read_line_at(mode: Option<EventKind>, bytes: &[u8], start: usize, end: usize) -> (r: Option<
    (Option<EventKind>, Option<Action>),
>)
    requires
        start <= end <= bytes@.len(),
    ensures
        r == read_line(mode, bytes@.subrange(start as int, end as int)),
{
    match mode {
        None => Some((event_start_at(bytes, start, end), None)),
        Some(kind) => {
            if kind == EventKind::KeyDown || kind == EventKind::KeyUp {
                match keyboard_line_at(bytes, start, end, kind) {
                    Parsed::Pending(m) => Some((Some(m), None)),
                    Parsed::Ready(e) => Some((None, Some(Action::Key(e)))),
                    Parsed::Invalid => None,
                }
            } else {
                match click_line_at(bytes, start, end, kind) {
                    Parsed::Pending(m) => Some((Some(m), None)),
                    Parsed::Ready(code) => Some((None, Some(Action::Click { kind, code }))),
                    Parsed::Invalid => None,
                }
            }
        },
    }
}

/// Reads a chunk of `xinput test-xi2 --root` output, line by line, starting
/// in `mode`: a line of event type 2, 3, 15 or 16 starts a key press, key
/// release, button press or button release, whose detail line then gives the
/// key or button.
pub fn process_output(mode: Option<EventKind>, text: &str) -> (r: Reading)
    ensures
        (r.mode, r.actions@, r.malformed) == read_lines(mode, text.spec_bytes(), 0),
{
    let bytes = text.as_bytes();
    let ghost all = read_lines(mode, bytes@, 0);
    let mut cur = mode;
    let mut actions: Vec<Action> = Vec::new();
    let mut start: usize = 0;
    loop
        invariant
            0 <= start <= bytes@.len(),
            bytes@ == text.spec_bytes(),
            all == read_lines(mode, text.spec_bytes(), 0),
            all.0 == read_lines(cur, bytes@, start as int).0,
            all.1 == actions@ + read_lines(cur, bytes@, start as int).1,
            all.2 == read_lines(cur, bytes@, start as int).2,
        decreases bytes@.len() - start,
    {
        let end = find_byte_from(bytes, start, 10);
        proof {
            lemma_find_from(bytes@, start as int, 10);
        }
        match read_line_at(cur, bytes, start, end) {
            None => {
                assert(actions@ + Seq::<Action>::empty() =~= actions@);
                return Reading { mode: None, actions, malformed: true };
            },
            Some((next, action)) => {
                let ghost acts = match action {
                    Some(a) => seq![a],
                    None => Seq::<Action>::empty(),
                };
                let ghost before = actions@;
                match action {
                    Some(a) => actions.push(a),
                    None => {},
                }
                assert(actions@ =~= before + acts);
                if end == bytes.len() {
                    return Reading { mode: next, actions, malformed: false };
                }
                let ghost rest = read_lines(next, bytes@, end + 1);
                assert(before + (acts + rest.1) =~= actions@ + rest.1);
                cur = next;
                start = end + 1;
            },
        }
    }
}

/// The bytes of the text `"    detail: "`.
pub open spec fn detail_text() -> Seq<u8> {
    seq![32u8, 32, 32, 32, 100, 101, 116, 97, 105, 108, 58, 32]
}

/// On a line that begins with `"    detail: "`, the button or key is the
/// number that the rest of the line denotes as `str::parse::<u8>` reads it,
/// whatever that number is; a rest that is no such number makes the line
/// malformed.
pub proof fn lemma_detail_line(line: Seq<u8>, mode: EventKind)
    requires
        line.len() >= 12,
        line.subrange(0, 12) == detail_text(),
    ensures
        click_line(line, mode) == match parse_unsigned(line.subrange(12, line.len() as int), 255) {
            Some(v) => Parsed::Ready(v as u8),
            None => Parsed::<u8>::Invalid,
        },
        keyboard_line(line, mode) == match parse_unsigned(
            line.subrange(12, line.len() as int),
            255,
        ) {
            Some(v) => Parsed::Ready(Event { kind: mode, code: v as u8, x: 0, y: 0 }),
            None => Parsed::<Event>::Invalid,
        },
{
    assert(detail_prefix() =~= detail_text());
}

/// A detail line names any button or key from 0 to 255: `"    detail: "`
/// followed by the decimal digits of `n` completes the event with `n`.
pub proof fn lemma_detail_line_names_any_code(n: nat, mode: EventKind)
    requires
        n <= 255,
    ensures
        click_line(detail_text() + decimal_bytes(n), mode) == Parsed::Ready(n as u8),
        keyboard_line(detail_text() + decimal_bytes(n), mode) == Parsed::Ready(
            Event { kind: mode, code: n as u8, x: 0, y: 0 },
        ),
{
    let line = detail_text() + decimal_bytes(n);
    lemma_decimal_bytes(n);
    assert(line.subrange(0, 12) =~= detail_text());
    assert(line.subrange(12, line.len() as int) =~= decimal_bytes(n));
    lemma_decimal_bytes_parse(n, 255);
    lemma_detail_line(line, mode);
}

/// The bytes of the text `"EVENT type "`.
pub open spec fn event_type_text() -> Seq<u8> {
    seq![69u8, 86, 69, 78, 84, 32, 116, 121, 112, 101, 32]
}

/// A line that begins with `"EVENT type 2"`, `"EVENT type 3"`,
/// `"EVENT type 15"` or `"EVENT type 16"` starts a key press, a key release, a
/// button press or a button release, whatever follows.
pub proof fn lemma_event_start_kinds(rest: Seq<u8>)
    ensures
        event_start(event_type_text() + seq![50u8] + rest) == Some(EventKind::KeyDown),
        event_start(event_type_text() + seq![51u8] + rest) == Some(EventKind::KeyUp),
        event_start(event_type_text() + seq![49u8, 53] + rest) == Some(EventKind::MouseDown),
        event_start(event_type_text() + seq![49u8, 54] + rest) == Some(EventKind::MouseUp),
{
    let p = event_type_prefix();
    assert(p =~= event_type_text());
    let a = event_type_text() + seq![50u8] + rest;
    assert(a.subrange(0, 12) =~= p.push(50));
    let b = event_type_text() + seq![51u8] + rest;
    assert(b.subrange(0, 12) =~= p.push(51));
    assert(b.subrange(0, 12) != p.push(50)) by {
        assert(b.subrange(0, 12)[11] != p.push(50)[11]);
    }
    let c = event_type_text() + seq![49u8, 53] + rest;
    assert(c.subrange(0, 13) =~= p.push(49).push(53));
    assert(c.subrange(0, 12) != p.push(50)) by {
        assert(c.subrange(0, 12)[11] != p.push(50)[11]);
    }
    assert(c.subrange(0, 12) != p.push(51)) by {
        assert(c.subrange(0, 12)[11] != p.push(51)[11]);
    }
    let d = event_type_text() + seq![49u8, 54] + rest;
    assert(d.subrange(0, 13) =~= p.push(49).push(54));
    assert(d.subrange(0, 12) != p.push(50)) by {
        assert(d.subrange(0, 12)[11] != p.push(50)[11]);
    }
    assert(d.subrange(0, 12) != p.push(51)) by {
        assert(d.subrange(0, 12)[11] != p.push(51)[11]);
    }
    assert(d.subrange(0, 13) != p.push(49).push(53)) by {
        assert(d.subrange(0, 13)[12] != p.push(49).push(53)[12]);
    }
}

/// A button press whose first line is `head` (`"EVENT type 15 ..."`, without
/// a newline), followed on the next line by `"    detail: "` and the digits of
/// `n`, is read as the press of button `n`, and the reading ends with no event
/// pending.
pub proof fn lemma_button_press_read(head: Seq<u8>, n: nat)
    requires
        n <= 255,
        head.len() >= 13,
        head.subrange(0, 13) == event_type_text() + seq![49u8, 53],
        forall|j: int| 0 <= j < head.len() ==> head[j] != 10,
    ensures
        read_lines(None, head + seq![10u8] + detail_text() + decimal_bytes(n), 0) == (
            None::<EventKind>,
            seq![Action::Click { kind: EventKind::MouseDown, code: n as u8 }],
            false,
        ),
{
    let line = detail_text() + decimal_bytes(n);
    let bytes = head + seq![10u8] + line;
    assert(bytes =~= head + (seq![10u8] + line));
    let hl = head.len() as int;
    lemma_decimal_bytes(n);
    assert forall|j: int| 0 <= j < hl implies bytes[j] != 10 by {
        assert(bytes[j] == head[j]);
    }
    lemma_find_from_at(bytes, 0, hl, 10);
    assert forall|j: int| hl + 1 <= j < bytes.len() implies bytes[j] != 10 by {
        assert(bytes[j] == line[j - hl - 1]);
        if j - hl - 1 >= 12 {
            assert(line[j - hl - 1] == decimal_bytes(n)[j - hl - 13]);
            assert(is_digit(decimal_bytes(n)[j - hl - 13]));
        }
    }
    lemma_find_from_at(bytes, hl + 1, bytes.len() as int, 10);
    assert(bytes.subrange(0, hl) =~= head);
    lemma_event_start_kinds(head.subrange(13, hl));
    assert(head =~= event_type_text() + seq![49u8, 53] + head.subrange(13, hl));
    assert(bytes.subrange(hl + 1, bytes.len() as int) =~= line);
    lemma_detail_line_names_any_code(n, EventKind::MouseDown);
    let rest = read_lines(Some(EventKind::MouseDown), bytes, hl + 1);
    assert(rest == (None::<EventKind>, seq![Action::Click { kind: EventKind::MouseDown, code: n as u8 }], false));
    assert(Seq::<Action>::empty() + rest.1 =~= rest.1);
    assert(read_lines(None, bytes, 0) == rest);
    assert(bytes =~= head + seq![10u8] + detail_text() + decimal_bytes(n));
}

} // verus!
