//! Events as JSON.

use vstd::prelude::*;

use crate::events::{Event, EventKind, SourceRef};
use crate::events;

verus! {

/// The hexadecimal digit of a value below 16.
pub open spec fn digit_of(value: int) -> char {
    if value == 0 {
        '0'
    } else if value == 1 {
        '1'
    } else if value == 2 {
        '2'
    } else if value == 3 {
        '3'
    } else if value == 4 {
        '4'
    } else if value == 5 {
        '5'
    } else if value == 6 {
        '6'
    } else if value == 7 {
        '7'
    } else if value == 8 {
        '8'
    } else if value == 9 {
        '9'
    } else if value == 10 {
        'a'
    } else if value == 11 {
        'b'
    } else if value == 12 {
        'c'
    } else if value == 13 {
        'd'
    } else if value == 14 {
        'e'
    } else {
        'f'
    }
}

fn digit(value: u32) -> (ch: char)
    requires
        value < 16,
    ensures
        ch == digit_of(value as int),
{
    match value {
        0 => '0',
        1 => '1',
        2 => '2',
        3 => '3',
        4 => '4',
        5 => '5',
        6 => '6',
        7 => '7',
        8 => '8',
        9 => '9',
        10 => 'a',
        11 => 'b',
        12 => 'c',
        13 => 'd',
        14 => 'e',
        _ => 'f',
    }
}

/// A number in decimal, without leading zeros.
pub open spec fn decimal(n: nat) -> Seq<char>
    decreases n,
{
    if n < 10 {
        seq![digit_of(n as int)]
    } else {
        decimal(n / 10).push(digit_of((n % 10) as int))
    }
}

/// Appends a number in decimal.
fn push_decimal(out: &mut String, n: usize)
    ensures
        final(out)@ == old(out)@ + decimal(n as nat),
    decreases n,
{
    if n >= 10 {
        push_decimal(out, n / 10);
    }
    out.push(digit((n % 10) as u32));
    assert(out@ =~= old(out)@ + decimal(n as nat));
}

/// Whether a character is a control code.
pub open spec fn is_control_code(ch: char) -> bool {
    ch as u32 <= 0x1f || 0x7f <= ch as u32 <= 0x9f
}

/// A character within a JSON string.
pub open spec fn json_char(ch: char) -> Seq<char> {
    if ch == '"' {
        seq!['\\', '"']
    } else if ch == '\\' {
        seq!['\\', '\\']
    } else if ch == '\n' {
        seq!['\\', 'n']
    } else if ch == '\r' {
        seq!['\\', 'r']
    } else if ch == '\t' {
        seq!['\\', 't']
    } else if is_control_code(ch) {
        seq!['\\', 'u', '0', '0', digit_of(ch as int / 16), digit_of(ch as int % 16)]
    } else {
        seq![ch]
    }
}

/// A text within a JSON string.
pub open spec fn json_chars(text: Seq<char>) -> Seq<char>
    decreases text.len(),
{
    if text.len() == 0 {
        Seq::empty()
    } else {
        json_chars(text.drop_last()) + json_char(text.last())
    }
}

/// A text as a JSON string.
pub open spec fn json_string(text: Seq<char>) -> Seq<char> {
    seq!['"'] + json_chars(text) + seq!['"']
}

fn push_json_char(out: &mut String, ch: char)
    ensures
        final(out)@ == old(out)@ + json_char(ch),
{
    match ch {
        '"' => {
            out.push('\\');
            out.push('"');
        },
        '\\' => {
            out.push('\\');
            out.push('\\');
        },
        '\n' => {
            out.push('\\');
            out.push('n');
        },
        '\r' => {
            out.push('\\');
            out.push('r');
        },
        '\t' => {
            out.push('\\');
            out.push('t');
        },
        _ => {
            let code = ch as u32;
            if code <= 0x1f || (0x7f <= code && code <= 0x9f) {
                out.push('\\');
                out.push('u');
                out.push('0');
                out.push('0');
                out.push(digit(code / 16));
                out.push(digit(code % 16));
            } else {
                out.push(ch);
            }
        },
    }
    assert(out@ =~= old(out)@ + json_char(ch));
}

/// A text as a JSON string: quoted, with quotes, backslashes and control codes
/// escaped.
pub fn json_str(s: &str) -> (out: String)
    ensures
        out@ == json_string(s@),
{
    let mut out = String::new();
    out.push('"');
    assert(out@ =~= seq!['"'] + json_chars(s@.take(0)));
    for ch in iter: s.chars()
        invariant
            iter.seq() == s@,
            out@ == seq!['"'] + json_chars(s@.take(iter.index() as int)),
    {
        push_json_char(&mut out, ch);
        proof {
            let next = s@.take(iter.index() as int + 1);
            assert(next.drop_last() =~= s@.take(iter.index() as int));
            assert(out@ =~= seq!['"'] + json_chars(next));
        }
    }
    assert(s@.take(s@.len() as int) =~= s@);
    out.push('"');
    assert(out@ =~= json_string(s@));
    out
}

/// The name of an event kind.
pub open spec fn kind_text(kind: EventKind) -> Seq<char> {
    match kind {
        EventKind::Title => "title"@,
        EventKind::Text => "text"@,
        EventKind::Origin => "origin"@,
        EventKind::LineNumber => "line_number"@,
        EventKind::Sidebar { .. } => "sidebar"@,
        EventKind::Source => "source"@,
        EventKind::Underline => "underline"@,
        EventKind::Label => "label"@,
        EventKind::Fold => "fold"@,
        EventKind::Addition => "addition"@,
        EventKind::Removal => "removal"@,
        EventKind::Separator => "separator"@,
    }
}

/// The name of an event kind.
pub fn kind_name(kind: EventKind) -> (name: &'static str)
    ensures
        name@ == kind_text(kind),
{
    match kind {
        EventKind::Title => "title",
        EventKind::Text => "text",
        EventKind::Origin => "origin",
        EventKind::LineNumber => "line_number",
        EventKind::Sidebar { .. } => "sidebar",
        EventKind::Source => "source",
        EventKind::Underline => "underline",
        EventKind::Label => "label",
        EventKind::Fold => "fold",
        EventKind::Addition => "addition",
        EventKind::Removal => "removal",
        EventKind::Separator => "separator",
    }
}

/// A source location as a JSON object.
pub open spec fn source_text(source: events::SourceRefView) -> Seq<char> {
    "{"@ + match source.path {
        Some(path) => "\"path\":"@ + json_string(path) + ","@,
        None => Seq::empty(),
    } + "\"line\":"@ + decimal(source.line) + ",\"bytes\":["@ + decimal(source.byte_start) + ","@
        + decimal(source.byte_end) + "],\"columns\":["@ + decimal(source.column_start) + ","@
        + decimal(source.column_end) + "]"@ + "}"@
}

/// A source location as a JSON object.
pub fn source_json(source: &SourceRef) -> (out: String)
    ensures
        out@ == source_text(source@),
{
    let mut out = String::new();
    out.push_str("{");
    if let Some(path) = &source.path {
        out.push_str("\"path\":");
        let quoted = json_str(path.as_str());
        out.push_str(quoted.as_str());
        out.push_str(",");
    }
    out.push_str("\"line\":");
    push_decimal(&mut out, source.line);
    out.push_str(",\"bytes\":[");
    push_decimal(&mut out, source.byte_range.start);
    out.push_str(",");
    push_decimal(&mut out, source.byte_range.end);
    out.push_str("],\"columns\":[");
    push_decimal(&mut out, source.column_range.start);
    out.push_str(",");
    push_decimal(&mut out, source.column_range.end);
    out.push_str("]");
    out.push_str("}");
    assert(out@ =~= source_text(source@));
    out
}

/// An event as a JSON object, without its style.
pub open spec fn event_text(event: events::EventView) -> Seq<char> {
    "{"@ + "\"line\":"@ + decimal(event.line) + ",\"column\":"@ + decimal(event.column)
        + ",\"text\":"@ + json_string(event.text) + ",\"kind\":\""@ + kind_text(event.kind)
        + "\""@ + match event.source {
        Some(source) => ",\"source\":"@ + source_text(source),
        None => Seq::empty(),
    } + "}"@
}

/// An event as a JSON object, without its style.
pub fn event_json(event: &Event) -> (out: String)
    ensures
        out@ == event_text(event@),
{
    let mut out = String::new();
    out.push_str("{");
    out.push_str("\"line\":");
    push_decimal(&mut out, event.line);
    out.push_str(",\"column\":");
    push_decimal(&mut out, event.column);
    out.push_str(",\"text\":");
    let quoted = json_str(event.text.as_str());
    out.push_str(quoted.as_str());
    out.push_str(",\"kind\":\"");
    out.push_str(kind_name(event.kind));
    out.push_str("\"");
    if let Some(source) = &event.source {
        out.push_str(",\"source\":");
        let source = source_json(source);
        out.push_str(source.as_str());
    }
    out.push_str("}");
    assert(out@ =~= event_text(event@));
    out
}

/// The elements of a JSON array, one to a line.
pub open spec fn elements_text(all: Seq<events::EventView>) -> Seq<char>
    decreases all.len(),
{
    if all.len() == 0 {
        Seq::empty()
    } else {
        elements_text(all.drop_last()) + if all.len() == 1 {
            Seq::empty()
        } else {
            ",\n"@
        } + "  "@ + event_text(all.last())
    }
}

/// Events as a JSON array.
pub open spec fn events_text(all: Seq<events::EventView>) -> Seq<char> {
    "[\n"@ + elements_text(all) + "\n]\n"@
}

/// Events as a JSON array.
pub fn events_json(all: &[Event]) -> (out: String)
    ensures
        out@ == events_text(all@.map_values(|event: Event| event@)),
{
    let ghost views = all@.map_values(|event: Event| event@);
    let mut out = String::new();
    out.push_str("[\n");
    assert(out@ =~= "[\n"@ + elements_text(views.take(0)));
    let mut i: usize = 0;
    while i < all.len()
        invariant
            i <= all.len(),
            views == all@.map_values(|event: Event| event@),
            out@ == "[\n"@ + elements_text(views.take(i as int)),
        decreases all.len() - i,
    {
        if i > 0 {
            out.push_str(",\n");
        }
        out.push_str("  ");
        let event = event_json(&all[i]);
        out.push_str(event.as_str());
        proof {
            let next = views.take(i + 1);
            assert(next.drop_last() =~= views.take(i as int));
            assert(next.last() == all@[i as int]@);
            assert(out@ =~= "[\n"@ + elements_text(next));
        }
        i = i + 1;
    }
    assert(views.take(i as int) =~= views);
    out.push_str("\n]\n");
    out
}

/// The value of a hexadecimal digit; `-1` for any other character.
pub open spec fn digit_value(ch: char) -> int {
    if '0' <= ch <= '9' {
        ch as int - '0' as int
    } else if 'a' <= ch <= 'f' {
        ch as int - 'a' as int + 10
    } else {
        -1
    }
}

/// Reads back the inside of a JSON string.
pub open spec fn json_decode(chars: Seq<char>) -> Seq<char>
    decreases chars.len(),
{
    if chars.len() == 0 {
        Seq::empty()
    } else if chars[0] != '\\' || chars.len() < 2 {
        seq![chars[0]] + json_decode(chars.skip(1))
    } else if chars[1] == 'n' {
        seq!['\n'] + json_decode(chars.skip(2))
    } else if chars[1] == 'r' {
        seq!['\r'] + json_decode(chars.skip(2))
    } else if chars[1] == 't' {
        seq!['\t'] + json_decode(chars.skip(2))
    } else if chars[1] == 'u' && chars.len() >= 6 {
        let code = digit_value(chars[2]) * 0x1000 + digit_value(chars[3]) * 0x100 + digit_value(
            chars[4],
        ) * 0x10 + digit_value(chars[5]);
        seq![code as char] + json_decode(chars.skip(6))
    } else {
        seq![chars[1]] + json_decode(chars.skip(2))
    }
}

/// `json_chars` takes the first character apart as well as the last.
proof fn lemma_json_chars_first(text: Seq<char>)
    requires
        text.len() > 0,
    ensures
        json_chars(text) == json_char(text[0]) + json_chars(text.skip(1)),
    decreases text.len(),
{
    if text.len() == 1 {
        assert(text.drop_last() =~= Seq::empty());
        assert(text.skip(1) =~= Seq::empty());
        assert(json_chars(text) =~= json_char(text[0]) + json_chars(text.skip(1)));
    } else {
        lemma_json_chars_first(text.drop_last());
        assert(text.drop_last().skip(1) =~= text.skip(1).drop_last());
        assert(json_chars(text) =~= json_char(text[0]) + json_chars(text.skip(1)));
    }
}

/// The characters of an escape sequence are no control codes themselves.
proof fn lemma_json_char_is_printable(ch: char)
    ensures
        forall|i: int| 0 <= i < json_char(ch).len() ==> !is_control_code(#[trigger] json_char(ch)[i]),
{
}

/// An escaped character is read back as itself.
proof fn lemma_json_decode_first(ch: char, rest: Seq<char>)
    ensures
        json_decode(json_char(ch) + rest) == seq![ch] + json_decode(rest),
{
    let first = json_char(ch);
    let chars = first + rest;
    assert(chars.skip(first.len() as int) =~= rest);
    assert forall|i: int| 0 <= i < first.len() implies chars[i] == first[i] by {}
    assert(chars[0] == first[0]);
    if first.len() > 1 {
        assert(chars[1] == first[1]);
    }
    if first.len() > 2 {
        let code = ch as int;
        assert(digit_value(digit_of(code / 16)) == code / 16);
        assert(digit_value(digit_of(code % 16)) == code % 16);
        assert(chars[2] == '0' && chars[3] == '0');
        assert(chars[4] == digit_of(code / 16) && chars[5] == digit_of(code % 16));
    }
}

/// A JSON string loses nothing: reading it back gives the text.
pub proof fn law_json_is_lossless(text: Seq<char>)
    ensures
        json_decode(json_chars(text)) == text,
    decreases text.len(),
{
    if text.len() > 0 {
        let rest = json_chars(text.skip(1));
        let chars = json_chars(text);
        let first = json_char(text[0]);
        lemma_json_chars_first(text);
        law_json_is_lossless(text.skip(1));
        assert(chars =~= first + rest);
        lemma_json_decode_first(text[0], rest);
        assert(seq![text[0]] + text.skip(1) =~= text);
    }
}

/// A JSON string holds no control code, whatever the text: neither one of the
/// first 32 characters nor any from U+007F to U+009F.
pub proof fn law_json_has_no_control_codes(text: Seq<char>)
    ensures
        forall|i: int|
            0 <= i < json_string(text).len() ==> {
                let code = #[trigger] json_string(text)[i] as u32;
                0x20 <= code < 0x7f || 0x9f < code
            },
    decreases text.len(),
{
    if text.len() > 0 {
        let before = json_chars(text.drop_last());
        law_json_has_no_control_codes(text.drop_last());
        lemma_json_char_is_printable(text.last());
        assert forall|i: int| 0 <= i < before.len() implies !is_control_code(
            #[trigger] before[i],
        ) by {
            assert(json_string(text.drop_last())[i + 1] == before[i]);
        }
    }
}

/// A character is escaped only if it has to be, and as briefly as can be: a
/// quote, a backslash, a line break, a carriage return and a tab by two
/// characters, any other control code by six, and everything else is written as
/// it is.
pub proof fn law_json_escapes_no_more_than_needed(ch: char)
    ensures
        ({
            let code = ch as u32;
            let short = ch == '"' || ch == '\\' || ch == '\n' || ch == '\r' || ch == '\t';
            let control = code < 0x20 || 0x7f <= code <= 0x9f;
            let written = json_chars(seq![ch]);
            &&& short ==> written.len() == 2
            &&& control && !short ==> written.len() == 6
            &&& !control && !short ==> written == seq![ch]
        }),
{
    reveal_with_fuel(json_chars, 2);
    assert(seq![ch].drop_last() =~= Seq::empty());
    assert(json_chars(seq![ch]) =~= json_char(ch));
}

/// A value that JSON text stands for, of the kinds that events need.
pub ghost enum JsonValue {
    Number(nat),
    Text(Seq<char>),
    Array(Seq<JsonValue>),
    /// The members, in the order in which they are written.
    Object(Seq<(Seq<char>, JsonValue)>),
}

/// Whether a character is a decimal digit.
pub open spec fn is_digit(ch: char) -> bool {
    '0' <= ch <= '9'
}

/// Reads the digits at the start of `chars`, behind digits of the given value;
/// gives the value of all, and what follows them.
pub open spec fn read_digits(chars: Seq<char>, value: nat) -> (nat, Seq<char>)
    decreases chars.len(),
{
    if chars.len() > 0 && is_digit(chars[0]) {
        read_digits(chars.skip(1), (value * 10 + (chars[0] as int - '0' as int)) as nat)
    } else {
        (value, chars)
    }
}

/// Reads the number at the start of `chars`, which has no leading zeros.
pub open spec fn read_number(chars: Seq<char>) -> Option<(nat, Seq<char>)> {
    if chars.len() == 0 || !is_digit(chars[0]) {
        None
    } else if chars[0] == '0' {
        Some((0, chars.skip(1)))
    } else {
        Some(read_digits(chars, 0))
    }
}

/// Reads what a backslash escapes at the start of `chars`.
pub open spec fn read_escape(chars: Seq<char>) -> Option<(char, Seq<char>)> {
    if chars.len() == 0 {
        None
    } else if chars[0] == '"' || chars[0] == '\\' || chars[0] == '/' {
        Some((chars[0], chars.skip(1)))
    } else if chars[0] == 'n' {
        Some(('\n', chars.skip(1)))
    } else if chars[0] == 'r' {
        Some(('\r', chars.skip(1)))
    } else if chars[0] == 't' {
        Some(('\t', chars.skip(1)))
    } else if chars[0] == 'u' && chars.len() >= 5 && digit_value(chars[1]) >= 0 && digit_value(
        chars[2],
    ) >= 0 && digit_value(chars[3]) >= 0 && digit_value(chars[4]) >= 0 {
        let code = digit_value(chars[1]) * 0x1000 + digit_value(chars[2]) * 0x100 + digit_value(
            chars[3],
        ) * 0x10 + digit_value(chars[4]);
        Some((code as char, chars.skip(5)))
    } else {
        None
    }
}

/// What was read, with a character before it.
pub open spec fn with_first(
    ch: char,
    read: Option<(Seq<char>, Seq<char>)>,
) -> Option<(Seq<char>, Seq<char>)> {
    match read {
        Some((text, rest)) => Some((seq![ch] + text, rest)),
        None => None,
    }
}

/// Reads a string up to its closing quote; gives its text, and what follows the
/// quote.
pub open spec fn read_string(chars: Seq<char>) -> Option<(Seq<char>, Seq<char>)>
    decreases chars.len(),
{
    if chars.len() == 0 || (chars[0] as u32) < 0x20 {
        None
    } else if chars[0] == '"' {
        Some((Seq::empty(), chars.skip(1)))
    } else if chars[0] != '\\' {
        with_first(chars[0], read_string(chars.skip(1)))
    } else {
        match read_escape(chars.skip(1)) {
            Some((ch, rest)) => if rest.len() < chars.len() {
                with_first(ch, read_string(rest))
            } else {
                None
            },
            None => None,
        }
    }
}

/// Reads the value at the start of `chars`, which has no blanks between its
/// parts; gives the value, and what follows it.
pub open spec fn read_value(chars: Seq<char>) -> Option<(JsonValue, Seq<char>)>
    decreases chars.len(), 0int,
{
    if chars.len() == 0 {
        None
    } else if chars[0] == '"' {
        match read_string(chars.skip(1)) {
            Some((text, rest)) => Some((JsonValue::Text(text), rest)),
            None => None,
        }
    } else if chars[0] == '[' {
        match read_items(chars.skip(1)) {
            Some((items, rest)) => Some((JsonValue::Array(items), rest)),
            None => None,
        }
    } else if chars[0] == '{' {
        match read_members(chars.skip(1)) {
            Some((members, rest)) => Some((JsonValue::Object(members), rest)),
            None => None,
        }
    } else {
        match read_number(chars) {
            Some((value, rest)) => Some((JsonValue::Number(value), rest)),
            None => None,
        }
    }
}

/// Reads the items of an array up to its closing bracket, at least one.
pub open spec fn read_items(chars: Seq<char>) -> Option<(Seq<JsonValue>, Seq<char>)>
    decreases chars.len(), 1int,
{
    match read_value(chars) {
        Some((value, rest)) => if rest.len() == 0 || rest.len() > chars.len() {
            None
        } else if rest[0] == ']' {
            Some((seq![value], rest.skip(1)))
        } else if rest[0] == ',' {
            match read_items(rest.skip(1)) {
                Some((more, end)) => Some((seq![value] + more, end)),
                None => None,
            }
        } else {
            None
        },
        None => None,
    }
}

/// Reads the members of an object up to its closing brace, at least one.
pub open spec fn read_members(chars: Seq<char>) -> Option<
    (Seq<(Seq<char>, JsonValue)>, Seq<char>),
>
    decreases chars.len(), 1int,
{
    if chars.len() == 0 || chars[0] != '"' {
        None
    } else {
        match read_string(chars.skip(1)) {
            Some((key, rest)) => if rest.len() == 0 || rest.len() > chars.len() || rest[0] != ':' {
                None
            } else {
                match read_value(rest.skip(1)) {
                    Some((value, rest)) => if rest.len() == 0 || rest.len() > chars.len() {
                        None
                    } else if rest[0] == '}' {
                        Some((seq![(key, value)], rest.skip(1)))
                    } else if rest[0] == ',' {
                        match read_members(rest.skip(1)) {
                            Some((more, end)) => Some((seq![(key, value)] + more, end)),
                            None => None,
                        }
                    } else {
                        None
                    },
                    None => None,
                }
            },
            None => None,
        }
    }
}

/// The digits of a number are read as the number.
proof fn lemma_read_digits(n: nat, rest: Seq<char>)
    ensures
        read_digits(decimal(n) + rest, 0) == read_digits(rest, n),
        is_digit(decimal(n)[0]),
        decimal(n)[0] == '0' <==> n == 0,
        decimal(n).len() > 0,
        n < 10 ==> decimal(n).len() == 1,
    decreases n,
{
    let last = digit_of((n % 10) as int);
    assert(is_digit(last) && last as int - '0' as int == n % 10);
    if n < 10 {
        assert((decimal(n) + rest).skip(1) =~= rest);
    } else {
        lemma_read_digits(n / 10, seq![last] + rest);
        assert(decimal(n) + rest =~= decimal(n / 10) + (seq![last] + rest));
        assert((seq![last] + rest).skip(1) =~= rest);
        assert((n / 10) * 10 + n % 10 == n);
    }
}

/// A number in decimal is read as the number.
proof fn lemma_read_decimal(n: nat, rest: Seq<char>)
    requires
        rest.len() == 0 || !is_digit(rest[0]),
    ensures
        read_value(decimal(n) + rest) == Some((JsonValue::Number(n), rest)),
{
    let chars = decimal(n) + rest;
    lemma_read_digits(n, rest);
    assert(chars[0] == decimal(n)[0]);
    if n == 0 {
        assert(chars.skip(1) =~= rest);
    }
}

/// An escaped character is read as itself.
proof fn lemma_read_json_char(ch: char, rest: Seq<char>)
    ensures
        read_string(json_char(ch) + rest) == with_first(ch, read_string(rest)),
{
    let first = json_char(ch);
    let chars = first + rest;
    assert forall|i: int| 0 <= i < first.len() implies chars[i] == first[i] by {}
    assert(chars[0] == first[0]);
    if first.len() == 1 {
        assert(chars.skip(1) =~= rest);
    } else {
        let behind = chars.skip(1);
        assert(behind[0] == first[1]);
        assert(behind.skip(first.len() - 1) =~= rest);
        if first.len() > 2 {
            let code = ch as int;
            assert(digit_value(digit_of(code / 16)) == code / 16);
            assert(digit_value(digit_of(code % 16)) == code % 16);
            assert(behind[1] == '0' && behind[2] == '0');
            assert(behind[3] == digit_of(code / 16) && behind[4] == digit_of(code % 16));
        }
    }
}

/// A text within a JSON string is read as the text.
proof fn lemma_read_json_chars(text: Seq<char>, rest: Seq<char>)
    ensures
        read_string(json_chars(text) + seq!['"'] + rest) == Some((text, rest)),
    decreases text.len(),
{
    let all = json_chars(text) + seq!['"'] + rest;
    if text.len() == 0 {
        assert(all.skip(1) =~= rest);
        assert(text =~= Seq::empty());
    } else {
        let behind = json_chars(text.skip(1)) + seq!['"'] + rest;
        lemma_json_chars_first(text);
        lemma_read_json_chars(text.skip(1), rest);
        lemma_read_json_char(text[0], behind);
        assert(all =~= json_char(text[0]) + behind);
        assert(seq![text[0]] + text.skip(1) =~= text);
    }
}

/// A text as a JSON string is read as the text.
proof fn lemma_read_json_string(text: Seq<char>, rest: Seq<char>)
    ensures
        read_value(json_string(text) + rest) == Some((JsonValue::Text(text), rest)),
{
    lemma_read_json_chars(text, rest);
    assert((json_string(text) + rest).skip(1) =~= json_chars(text) + seq!['"'] + rest);
}

/// Whether a text can stand within a JSON string as it is.
pub open spec fn is_unescaped(text: Seq<char>) -> bool {
    forall|i: int|
        0 <= i < text.len() ==> {
            let ch = #[trigger] text[i];
            ch as u32 >= 0x20 && ch != '"' && ch != '\\'
        }
}

/// A text that needs no escapes is read as it is.
proof fn lemma_read_unescaped(text: Seq<char>, rest: Seq<char>)
    requires
        is_unescaped(text),
    ensures
        read_string(text + seq!['"'] + rest) == Some((text, rest)),
    decreases text.len(),
{
    let all = text + seq!['"'] + rest;
    if text.len() == 0 {
        assert(all.skip(1) =~= rest);
        assert(text =~= Seq::empty());
    } else {
        assert(all[0] == text[0]);
        assert(is_unescaped(text.skip(1))) by {
            assert forall|i: int| 0 <= i < text.skip(1).len() implies ({
                let ch = #[trigger] text.skip(1)[i];
                ch as u32 >= 0x20 && ch != '"' && ch != '\\'
            }) by {
                assert(text.skip(1)[i] == text[i + 1]);
            }
        }
        lemma_read_unescaped(text.skip(1), rest);
        assert(all.skip(1) =~= text.skip(1) + seq!['"'] + rest);
        assert(seq![text[0]] + text.skip(1) =~= text);
    }
}

/// A member and what follows it.
spec fn member_text(key: Seq<char>, written: Seq<char>, next: char, rest: Seq<char>) -> Seq<char> {
    seq!['"'] + key + seq!['"', ':'] + written + seq![next] + rest
}

/// The last member of an object is read as its key and value.
proof fn lemma_read_last_member(
    key: Seq<char>,
    written: Seq<char>,
    value: JsonValue,
    rest: Seq<char>,
)
    requires
        is_unescaped(key),
        read_value(written + (seq!['}'] + rest)) == Some((value, seq!['}'] + rest)),
    ensures
        read_members(member_text(key, written, '}', rest)) == Some((seq![(key, value)], rest)),
{
    let chars = member_text(key, written, '}', rest);
    let behind = seq![':'] + written + seq!['}'] + rest;
    lemma_read_unescaped(key, behind);
    assert(chars.skip(1) =~= key + seq!['"'] + behind);
    assert(behind.skip(1) =~= written + (seq!['}'] + rest));
    assert((seq!['}'] + rest).skip(1) =~= rest);
}

/// A member of an object is read as its key and value, before the others.
proof fn lemma_read_member(
    key: Seq<char>,
    written: Seq<char>,
    value: JsonValue,
    rest: Seq<char>,
    more: Seq<(Seq<char>, JsonValue)>,
    end: Seq<char>,
)
    requires
        is_unescaped(key),
        read_value(written + (seq![','] + rest)) == Some((value, seq![','] + rest)),
        read_members(rest) == Some((more, end)),
    ensures
        read_members(member_text(key, written, ',', rest)) == Some(
            (seq![(key, value)] + more, end),
        ),
{
    let chars = member_text(key, written, ',', rest);
    let behind = seq![':'] + written + seq![','] + rest;
    lemma_read_unescaped(key, behind);
    assert(chars.skip(1) =~= key + seq!['"'] + behind);
    assert(behind.skip(1) =~= written + (seq![','] + rest));
    assert((seq![','] + rest).skip(1) =~= rest);
}

/// Two numbers as a JSON array.
spec fn pair_text(a: nat, b: nat) -> Seq<char> {
    seq!['['] + decimal(a) + seq![','] + decimal(b) + seq![']']
}

/// Two numbers in an array are read as the numbers.
proof fn lemma_read_pair(a: nat, b: nat, rest: Seq<char>)
    ensures
        read_value(pair_text(a, b) + rest) == Some(
            (JsonValue::Array(seq![JsonValue::Number(a), JsonValue::Number(b)]), rest),
        ),
{
    let last = decimal(b) + (seq![']'] + rest);
    let both = decimal(a) + (seq![','] + last);
    lemma_read_decimal(b, seq![']'] + rest);
    assert((seq![']'] + rest).skip(1) =~= rest);
    assert(read_items(last) == Some((seq![JsonValue::Number(b)], rest)));
    lemma_read_decimal(a, seq![','] + last);
    assert((seq![','] + last).skip(1) =~= last);
    assert(seq![JsonValue::Number(a)] + seq![JsonValue::Number(b)] =~= seq![
        JsonValue::Number(a),
        JsonValue::Number(b),
    ]);
    assert(read_items(both) == Some((seq![JsonValue::Number(a), JsonValue::Number(b)], rest)));
    assert((pair_text(a, b) + rest).skip(1) =~= both);
}

/// The member with the columns of a source location, as the last.
proof fn lemma_columns_text(a: nat, b: nat, rest: Seq<char>)
    ensures
        "],\"columns\":["@ + decimal(a) + ","@ + decimal(b) + "]"@ + "}"@ + rest == seq![']', ',']
            + member_text("columns"@, pair_text(a, b), '}', rest),
{
    reveal_strlit("],\"columns\":[");
    reveal_strlit(",");
    reveal_strlit("]");
    reveal_strlit("}");
    reveal_strlit("columns");
    assert("],\"columns\":["@ =~= seq![']', ','] + seq!['"'] + "columns"@ + seq!['"', ':'] + seq![
        '[',
    ]);
    assert(","@ =~= seq![',']);
    assert("]"@ =~= seq![']']);
    assert("}"@ =~= seq!['}']);
    assert("],\"columns\":["@ + decimal(a) + ","@ + decimal(b) + "]"@ + "}"@ + rest =~= seq![
        ']',
        ',',
    ] + member_text("columns"@, pair_text(a, b), '}', rest));
}

/// The member with the offsets of a source location, before others.
proof fn lemma_bytes_text(a: nat, b: nat, rest: Seq<char>)
    ensures
        ",\"bytes\":["@ + decimal(a) + ","@ + decimal(b) + (seq![']', ','] + rest) == seq![',']
            + member_text("bytes"@, pair_text(a, b), ',', rest),
{
    reveal_strlit(",\"bytes\":[");
    reveal_strlit(",");
    reveal_strlit("bytes");
    assert(",\"bytes\":["@ =~= seq![','] + seq!['"'] + "bytes"@ + seq!['"', ':'] + seq!['[']);
    assert(","@ =~= seq![',']);
    assert(",\"bytes\":["@ + decimal(a) + ","@ + decimal(b) + (seq![']', ','] + rest) =~= seq![',']
        + member_text("bytes"@, pair_text(a, b), ',', rest));
}

/// The member with a line, before others.
proof fn lemma_line_text(n: nat, rest: Seq<char>)
    ensures
        "\"line\":"@ + decimal(n) + (seq![','] + rest) == member_text(
            "line"@,
            decimal(n),
            ',',
            rest,
        ),
{
    reveal_strlit("\"line\":");
    reveal_strlit("line");
    assert("\"line\":"@ =~= seq!['"'] + "line"@ + seq!['"', ':']);
    assert("\"line\":"@ + decimal(n) + (seq![','] + rest) =~= member_text(
        "line"@,
        decimal(n),
        ',',
        rest,
    ));
}

/// The member with a path, before others.
proof fn lemma_path_text(path: Seq<char>, rest: Seq<char>)
    ensures
        "\"path\":"@ + json_string(path) + ","@ + rest == member_text(
            "path"@,
            json_string(path),
            ',',
            rest,
        ),
{
    reveal_strlit("\"path\":");
    reveal_strlit("path");
    reveal_strlit(",");
    let quoted = json_string(path);
    assert("\"path\":"@ =~= seq!['"'] + "path"@ + seq!['"', ':']);
    assert(","@ =~= seq![',']);
    assert("\"path\":"@ + quoted + ","@ + rest =~= member_text("path"@, quoted, ',', rest));
}

/// Texts in a row are the same however they are grouped.
proof fn lemma_regroup(a: Seq<char>, b: Seq<char>, c: Seq<char>, d: Seq<char>)
    ensures
        a + b + c + d == a + (b + c + d),
{
    assert(a + b + c + d =~= a + (b + c + d));
}

/// The parts of a source location, one behind the other.
#[verifier::rlimit(40)]
proof fn lemma_source_text_parts(source: events::SourceRefView, rest: Seq<char>)
    ensures
        ({
            let columns = "],\"columns\":["@ + decimal(source.column_start) + ","@ + decimal(
                source.column_end,
            ) + "]"@ + "}"@ + rest;
            let bytes = ",\"bytes\":["@ + decimal(source.byte_start) + ","@ + decimal(
                source.byte_end,
            ) + columns;
            let line = "\"line\":"@ + decimal(source.line) + bytes;
            source_text(source) + rest == "{"@ + match source.path {
                Some(path) => "\"path\":"@ + json_string(path) + ","@ + line,
                None => line,
            }
        }),
{
    let columns = "],\"columns\":["@ + decimal(source.column_start) + ","@ + decimal(
        source.column_end,
    ) + "]"@ + "}"@ + rest;
    let bytes = ",\"bytes\":["@ + decimal(source.byte_start) + ","@ + decimal(source.byte_end)
        + columns;
    let line = "\"line\":"@ + decimal(source.line) + bytes;
    let path = match source.path {
        Some(path) => "\"path\":"@ + json_string(path) + ","@,
        None => Seq::empty(),
    };
    let upto_path = "{"@ + path;
    let upto_line = upto_path + "\"line\":"@ + decimal(source.line);
    let upto_start = upto_line + ",\"bytes\":["@ + decimal(source.byte_start);
    let upto_bytes = upto_start + ","@ + decimal(source.byte_end);
    let upto_column = upto_bytes + "],\"columns\":["@ + decimal(source.column_start);
    let upto_columns = upto_column + ","@ + decimal(source.column_end);
    assert(source_text(source) == upto_columns + "]"@ + "}"@);
    let end = "]"@ + "}"@ + rest;
    let last_column = ","@ + decimal(source.column_end) + end;
    let last_byte = ","@ + decimal(source.byte_end) + columns;
    lemma_regroup(upto_columns, "]"@, "}"@, rest);
    lemma_regroup(upto_column, ","@, decimal(source.column_end), end);
    lemma_regroup(upto_bytes, "],\"columns\":["@, decimal(source.column_start), last_column);
    assert(columns == "],\"columns\":["@ + decimal(source.column_start) + last_column) by {
        lemma_regroup(
            "],\"columns\":["@ + decimal(source.column_start),
            ","@,
            decimal(source.column_end),
            end,
        );
        lemma_regroup(
            "],\"columns\":["@ + decimal(source.column_start) + ","@ + decimal(source.column_end),
            "]"@,
            "}"@,
            rest,
        );
    }
    lemma_regroup(upto_start, ","@, decimal(source.byte_end), columns);
    lemma_regroup(upto_line, ",\"bytes\":["@, decimal(source.byte_start), last_byte);
    assert(bytes == ",\"bytes\":["@ + decimal(source.byte_start) + last_byte) by {
        lemma_regroup(
            ",\"bytes\":["@ + decimal(source.byte_start),
            ","@,
            decimal(source.byte_end),
            columns,
        );
    }
    lemma_regroup(upto_path, "\"line\":"@, decimal(source.line), bytes);
    assert(upto_path + line =~= "{"@ + (path + line));
    if source.path is None {
        assert(path + line =~= line);
    }
}

/// The keys of a source location and of an event need no escapes.
proof fn lemma_keys_are_unescaped()
    ensures
        is_unescaped("path"@),
        is_unescaped("line"@),
        is_unescaped("bytes"@),
        is_unescaped("columns"@),
        is_unescaped("column"@),
        is_unescaped("text"@),
        is_unescaped("kind"@),
        is_unescaped("source"@),
{
    reveal_strlit("path");
    reveal_strlit("line");
    reveal_strlit("bytes");
    reveal_strlit("columns");
    reveal_strlit("column");
    reveal_strlit("text");
    reveal_strlit("kind");
    reveal_strlit("source");
}

/// The members of a source location behind its path are read as such.
proof fn lemma_read_location(source: events::SourceRefView, rest: Seq<char>)
    ensures
        ({
            let columns = member_text(
                "columns"@,
                pair_text(source.column_start, source.column_end),
                '}',
                rest,
            );
            let bytes = member_text(
                "bytes"@,
                pair_text(source.byte_start, source.byte_end),
                ',',
                columns,
            );
            read_members(member_text("line"@, decimal(source.line), ',', bytes)) == Some(
                (location_members(source), rest),
            )
        }),
{
    lemma_keys_are_unescaped();
    let byte_value = JsonValue::Array(
        seq![JsonValue::Number(source.byte_start), JsonValue::Number(source.byte_end)],
    );
    let column_value = JsonValue::Array(
        seq![JsonValue::Number(source.column_start), JsonValue::Number(source.column_end)],
    );
    let byte_text = pair_text(source.byte_start, source.byte_end);
    let column_text = pair_text(source.column_start, source.column_end);
    lemma_read_pair(source.column_start, source.column_end, seq!['}'] + rest);
    lemma_read_last_member("columns"@, column_text, column_value, rest);
    let columns = member_text("columns"@, column_text, '}', rest);
    let last = seq![("columns"@, column_value)];
    lemma_read_pair(source.byte_start, source.byte_end, seq![','] + columns);
    lemma_read_member("bytes"@, byte_text, byte_value, columns, last, rest);
    let bytes = member_text("bytes"@, byte_text, ',', columns);
    let both = seq![("bytes"@, byte_value)] + last;
    lemma_read_decimal(source.line, seq![','] + bytes);
    lemma_read_member(
        "line"@,
        decimal(source.line),
        JsonValue::Number(source.line),
        bytes,
        both,
        rest,
    );
    assert(seq![("line"@, JsonValue::Number(source.line))] + both =~= location_members(source));
}

/// The members of a source location behind its path.
spec fn location_members(source: events::SourceRefView) -> Seq<(Seq<char>, JsonValue)> {
    seq![
        ("line"@, JsonValue::Number(source.line)),
        (
            "bytes"@,
            JsonValue::Array(
                seq![JsonValue::Number(source.byte_start), JsonValue::Number(source.byte_end)],
            ),
        ),
        (
            "columns"@,
            JsonValue::Array(
                seq![JsonValue::Number(source.column_start), JsonValue::Number(source.column_end)],
            ),
        ),
    ]
}

/// A source location loses nothing as JSON: the text is read as an object that
/// holds its path, if it has one, its line, and its offsets and columns, from
/// start to end, each under its name.
pub proof fn law_source_json_reads_back(source: events::SourceRefView, rest: Seq<char>)
    ensures
        read_value(source_text(source) + rest) == Some(
            (
                JsonValue::Object(
                    match source.path {
                        Some(path) => seq![("path"@, JsonValue::Text(path))],
                        None => Seq::empty(),
                    } + seq![
                        ("line"@, JsonValue::Number(source.line)),
                        (
                            "bytes"@,
                            JsonValue::Array(
                                seq![
                                    JsonValue::Number(source.byte_start),
                                    JsonValue::Number(source.byte_end),
                                ],
                            ),
                        ),
                        (
                            "columns"@,
                            JsonValue::Array(
                                seq![
                                    JsonValue::Number(source.column_start),
                                    JsonValue::Number(source.column_end),
                                ],
                            ),
                        ),
                    ],
                ),
                rest,
            ),
        ),
{
    lemma_source_text_parts(source, rest);
    lemma_columns_text(source.column_start, source.column_end, rest);
    let columns = member_text(
        "columns"@,
        pair_text(source.column_start, source.column_end),
        '}',
        rest,
    );
    lemma_bytes_text(source.byte_start, source.byte_end, columns);
    let bytes = member_text("bytes"@, pair_text(source.byte_start, source.byte_end), ',', columns);
    lemma_line_text(source.line, bytes);
    let line = member_text("line"@, decimal(source.line), ',', bytes);
    lemma_read_location(source, rest);
    lemma_keys_are_unescaped();
    reveal_strlit("{");
    match source.path {
        Some(path) => {
            lemma_path_text(path, line);
            lemma_read_json_string(path, seq![','] + line);
            lemma_read_member(
                "path"@,
                json_string(path),
                JsonValue::Text(path),
                line,
                location_members(source),
                rest,
            );
            assert((source_text(source) + rest).skip(1) =~= member_text(
                "path"@,
                json_string(path),
                ',',
                line,
            ));
        },
        None => {
            assert((source_text(source) + rest).skip(1) =~= line);
            assert(Seq::<(Seq<char>, JsonValue)>::empty() + location_members(source)
                =~= location_members(source));
        },
    }
}

/// The members of a source location.
spec fn path_members(source: events::SourceRefView) -> Seq<(Seq<char>, JsonValue)> {
    let path = match source.path {
        Some(path) => seq![("path"@, JsonValue::Text(path))],
        None => Seq::empty(),
    };
    path + location_members(source)
}

/// Source locations with the same members are the same.
proof fn lemma_same_members_same_source(
    one: events::SourceRefView,
    other: events::SourceRefView,
)
    requires
        path_members(one) == path_members(other),
    ensures
        one == other,
{
    let a = path_members(one);
    let b = path_members(other);
    assert(a.len() == if one.path is Some { 4int } else { 3int });
    assert(b.len() == if other.path is Some { 4int } else { 3int });
    let n = a.len() as int;
    assert(a[n - 3].1 == JsonValue::Number(one.line));
    assert(b[n - 3].1 == JsonValue::Number(other.line));
    let bytes = a[n - 2].1->Array_0;
    assert(bytes == b[n - 2].1->Array_0);
    assert(bytes[0] == JsonValue::Number(one.byte_start));
    assert(bytes[0] == JsonValue::Number(other.byte_start));
    assert(bytes[1] == JsonValue::Number(one.byte_end));
    assert(bytes[1] == JsonValue::Number(other.byte_end));
    let columns = a[n - 1].1->Array_0;
    assert(columns == b[n - 1].1->Array_0);
    assert(columns[0] == JsonValue::Number(one.column_start));
    assert(columns[0] == JsonValue::Number(other.column_start));
    assert(columns[1] == JsonValue::Number(one.column_end));
    assert(columns[1] == JsonValue::Number(other.column_end));
    if one.path is Some {
        assert(a[0].1 == JsonValue::Text(one.path->0));
        assert(b[0].1 == JsonValue::Text(other.path->0));
    }
}

/// A source location is read as its members.
proof fn lemma_source_value(source: events::SourceRefView)
    ensures
        read_value(source_text(source)) == Some(
            (JsonValue::Object(path_members(source)), Seq::<char>::empty()),
        ),
{
    law_source_json_reads_back(source, Seq::empty());
    assert(source_text(source) + Seq::<char>::empty() =~= source_text(source));
}

/// Source locations that are read as the same value are the same.
proof fn lemma_same_value_same_source(
    one: events::SourceRefView,
    other: events::SourceRefView,
)
    requires
        (read_value(source_text(one))->0).0 == (read_value(source_text(other))->0).0,
    ensures
        one == other,
{
    lemma_source_value(one);
    lemma_source_value(other);
    lemma_same_members_same_source(one, other);
}

/// A source location can be told from its JSON: two with the same text are the
/// same.
pub proof fn law_source_json_tells_sources_apart(
    one: events::SourceRefView,
    other: events::SourceRefView,
)
    requires
        source_text(one) == source_text(other),
    ensures
        one == other,
{
    lemma_same_value_same_source(one, other);
}

/// The kind that a name stands for; the depth of a sidebar is not part of its
/// name.
pub open spec fn named_kind(name: Seq<char>) -> Option<EventKind> {
    if name == "title"@ {
        Some(EventKind::Title)
    } else if name == "text"@ {
        Some(EventKind::Text)
    } else if name == "origin"@ {
        Some(EventKind::Origin)
    } else if name == "line_number"@ {
        Some(EventKind::LineNumber)
    } else if name == "sidebar"@ {
        Some(EventKind::Sidebar { depth: 0 })
    } else if name == "source"@ {
        Some(EventKind::Source)
    } else if name == "underline"@ {
        Some(EventKind::Underline)
    } else if name == "label"@ {
        Some(EventKind::Label)
    } else if name == "fold"@ {
        Some(EventKind::Fold)
    } else if name == "addition"@ {
        Some(EventKind::Addition)
    } else if name == "removal"@ {
        Some(EventKind::Removal)
    } else if name == "separator"@ {
        Some(EventKind::Separator)
    } else {
        None
    }
}

/// The name of a kind stands for that kind, up to the depth of a sidebar, and
/// needs no escapes.
pub proof fn law_kind_can_be_told_from_its_name(kind: EventKind)
    ensures
        kind is Sidebar ==> named_kind(kind_text(kind)) == Some(EventKind::Sidebar { depth: 0 }),
        !(kind is Sidebar) ==> named_kind(kind_text(kind)) == Some(kind),
        is_unescaped(kind_text(kind)),
{
    reveal_strlit("title");
    reveal_strlit("text");
    reveal_strlit("origin");
    reveal_strlit("line_number");
    reveal_strlit("sidebar");
    reveal_strlit("source");
    reveal_strlit("underline");
    reveal_strlit("label");
    reveal_strlit("fold");
    reveal_strlit("addition");
    reveal_strlit("removal");
    reveal_strlit("separator");
    assert("title"@[0] == 't' && "title"@[1] == 'i');
    assert("text"@[0] == 't' && "text"@[1] == 'e');
    assert("origin"@[0] == 'o');
    assert("line_number"@[0] == 'l' && "line_number"@[1] == 'i');
    assert("sidebar"@[0] == 's' && "sidebar"@[1] == 'i');
    assert("source"@[0] == 's' && "source"@[1] == 'o');
    assert("underline"@[0] == 'u');
    assert("label"@[0] == 'l' && "label"@[1] == 'a');
    assert("fold"@[0] == 'f');
    assert("addition"@[0] == 'a');
    assert("removal"@[0] == 'r');
    assert("separator"@[0] == 's' && "separator"@[1] == 'e');
}

/// A member behind a comma.
proof fn lemma_next_member_text(
    label: Seq<char>,
    key: Seq<char>,
    written: Seq<char>,
    next: char,
    rest: Seq<char>,
)
    requires
        label == seq![','] + seq!['"'] + key + seq!['"', ':'],
    ensures
        label + written + (seq![next] + rest) == seq![','] + member_text(key, written, next, rest),
{
    assert(label + written + (seq![next] + rest) =~= seq![','] + member_text(
        key,
        written,
        next,
        rest,
    ));
}

/// The labels of the members of an event.
proof fn lemma_event_labels()
    ensures
        ",\"column\":"@ == seq![','] + seq!['"'] + "column"@ + seq!['"', ':'],
        ",\"text\":"@ == seq![','] + seq!['"'] + "text"@ + seq!['"', ':'],
        ",\"kind\":\""@ == seq![','] + seq!['"'] + "kind"@ + seq!['"', ':'] + seq!['"'],
        ",\"source\":"@ == seq![','] + seq!['"'] + "source"@ + seq!['"', ':'],
        "\""@ == seq!['"'],
        "{"@ == seq!['{'],
        "}"@ == seq!['}'],
{
    reveal_strlit(",\"column\":");
    reveal_strlit(",\"text\":");
    reveal_strlit(",\"kind\":\"");
    reveal_strlit(",\"source\":");
    reveal_strlit("column");
    reveal_strlit("text");
    reveal_strlit("kind");
    reveal_strlit("source");
    reveal_strlit("\"");
    reveal_strlit("{");
    reveal_strlit("}");
    assert(",\"column\":"@ =~= seq![','] + seq!['"'] + "column"@ + seq!['"', ':']);
    assert(",\"text\":"@ =~= seq![','] + seq!['"'] + "text"@ + seq!['"', ':']);
    assert(",\"kind\":\""@ =~= seq![','] + seq!['"'] + "kind"@ + seq!['"', ':'] + seq!['"']);
    assert(",\"source\":"@ =~= seq![','] + seq!['"'] + "source"@ + seq!['"', ':']);
    assert("\""@ =~= seq!['"']);
    assert("{"@ =~= seq!['{']);
    assert("}"@ =~= seq!['}']);
}

/// A kind as a JSON string.
spec fn quoted_kind(kind: EventKind) -> Seq<char> {
    seq!['"'] + kind_text(kind) + seq!['"']
}

/// What follows the kind of an event, with the comma or brace behind the kind.
spec fn event_end(event: events::EventView, rest: Seq<char>) -> Seq<char> {
    match event.source {
        Some(source) => seq![','] + member_text("source"@, source_text(source), '}', rest),
        None => seq!['}'] + rest,
    }
}

/// The parts of an event, one behind the other.
#[verifier::rlimit(40)]
proof fn lemma_event_text_parts(event: events::EventView, rest: Seq<char>)
    ensures
        ({
            let end = event_end(event, rest);
            let kind = member_text("kind"@, quoted_kind(event.kind), end[0], end.skip(1));
            let text = member_text("text"@, json_string(event.text), ',', kind);
            let column = member_text("column"@, decimal(event.column), ',', text);
            event_text(event) + rest == seq!['{'] + member_text(
                "line"@,
                decimal(event.line),
                ',',
                column,
            )
        }),
{
    lemma_event_labels();
    let source = match event.source {
        Some(source) => ",\"source\":"@ + source_text(source),
        None => Seq::empty(),
    };
    let end = event_end(event, rest);
    match event.source {
        Some(location) => {
            lemma_next_member_text(
                ",\"source\":"@,
                "source"@,
                source_text(location),
                '}',
                rest,
            );
            assert(source + "}"@ + rest =~= source + (seq!['}'] + rest));
        },
        None => {
            assert(source + "}"@ + rest =~= end);
        },
    }
    assert(source + "}"@ + rest == end);
    assert(seq![end[0]] + end.skip(1) =~= end);
    let kind = member_text("kind"@, quoted_kind(event.kind), end[0], end.skip(1));
    let kind_label = seq![','] + seq!['"'] + "kind"@ + seq!['"', ':'];
    lemma_next_member_text(
        kind_label,
        "kind"@,
        quoted_kind(event.kind),
        end[0],
        end.skip(1),
    );
    assert(",\"kind\":\""@ + kind_text(event.kind) + ("\""@ + end) =~= kind_label + quoted_kind(
        event.kind,
    ) + end);
    let quoted = json_string(event.text);
    let text = member_text("text"@, quoted, ',', kind);
    lemma_next_member_text(",\"text\":"@, "text"@, quoted, ',', kind);
    let column = member_text("column"@, decimal(event.column), ',', text);
    lemma_next_member_text(",\"column\":"@, "column"@, decimal(event.column), ',', text);
    lemma_line_text(event.line, column);
    let upto_line = "{"@ + "\"line\":"@ + decimal(event.line);
    let upto_column = upto_line + ",\"column\":"@ + decimal(event.column);
    let upto_text = upto_column + ",\"text\":"@ + quoted;
    let upto_kind = upto_text + ",\"kind\":\""@ + kind_text(event.kind);
    assert(event_text(event) == upto_kind + "\""@ + source + "}"@);
    lemma_regroup(upto_kind + "\""@, source, "}"@, rest);
    assert(upto_kind + "\""@ + end =~= upto_kind + ("\""@ + end));
    lemma_regroup(upto_text, ",\"kind\":\""@, kind_text(event.kind), "\""@ + end);
    lemma_regroup(upto_column, ",\"text\":"@, quoted, seq![','] + kind);
    lemma_regroup(upto_line, ",\"column\":"@, decimal(event.column), seq![','] + text);
    lemma_regroup("{"@, "\"line\":"@, decimal(event.line), seq![','] + column);
}

/// The source of an event as the members that it makes.
spec fn source_members(source: Option<events::SourceRefView>) -> Seq<(Seq<char>, JsonValue)> {
    match source {
        Some(source) => seq![("source"@, (read_value(source_text(source))->0).0)],
        None => Seq::empty(),
    }
}

/// A source location is read as the same value whatever follows it.
proof fn lemma_read_source(source: events::SourceRefView, rest: Seq<char>)
    ensures
        read_value(source_text(source) + rest) == Some(
            ((read_value(source_text(source))->0).0, rest),
        ),
{
    law_source_json_reads_back(source, Seq::empty());
    law_source_json_reads_back(source, rest);
    assert(source_text(source) + Seq::<char>::empty() =~= source_text(source));
}

/// The kind of an event and its source are read as such.
proof fn lemma_read_kind(event: events::EventView, rest: Seq<char>)
    ensures
        ({
            let end = event_end(event, rest);
            read_members(member_text("kind"@, quoted_kind(event.kind), end[0], end.skip(1)))
                == Some(
                (
                    seq![("kind"@, JsonValue::Text(kind_text(event.kind)))] + source_members(
                        event.source,
                    ),
                    rest,
                ),
            )
        }),
{
    lemma_keys_are_unescaped();
    law_kind_can_be_told_from_its_name(event.kind);
    let end = event_end(event, rest);
    let last = end.skip(1);
    let quoted = quoted_kind(event.kind);
    let value = JsonValue::Text(kind_text(event.kind));
    assert(seq![end[0]] + last =~= end);
    lemma_read_unescaped(kind_text(event.kind), end);
    assert((quoted + end).skip(1) =~= kind_text(event.kind) + seq!['"'] + end);
    assert(read_value(quoted + end) == Some((value, end)));
    match event.source {
        Some(source) => {
            let location = (read_value(source_text(source))->0).0;
            lemma_read_source(source, seq!['}'] + rest);
            lemma_read_last_member("source"@, source_text(source), location, rest);
            assert(last =~= member_text("source"@, source_text(source), '}', rest));
            lemma_read_member("kind"@, quoted, value, last, source_members(event.source), rest);
        },
        None => {
            assert(last =~= rest);
            lemma_read_last_member("kind"@, quoted, value, rest);
            assert(seq![("kind"@, value)] + source_members(event.source) =~= seq![
                ("kind"@, value),
            ]);
        },
    }
}

/// The position and the text of an event are read as such, before its kind.
proof fn lemma_read_position(
    line: nat,
    column: nat,
    text: Seq<char>,
    kind: Seq<char>,
    kinds: Seq<(Seq<char>, JsonValue)>,
    rest: Seq<char>,
)
    requires
        read_members(kind) == Some((kinds, rest)),
    ensures
        read_members(
            member_text(
                "line"@,
                decimal(line),
                ',',
                member_text(
                    "column"@,
                    decimal(column),
                    ',',
                    member_text("text"@, json_string(text), ',', kind),
                ),
            ),
        ) == Some(
            (
                seq![
                    ("line"@, JsonValue::Number(line)),
                    ("column"@, JsonValue::Number(column)),
                    ("text"@, JsonValue::Text(text)),
                ] + kinds,
                rest,
            ),
        ),
{
    lemma_keys_are_unescaped();
    let quoted = json_string(text);
    let text_chars = member_text("text"@, quoted, ',', kind);
    let texts = seq![("text"@, JsonValue::Text(text))] + kinds;
    lemma_read_json_string(text, seq![','] + kind);
    lemma_read_member("text"@, quoted, JsonValue::Text(text), kind, kinds, rest);
    let column_chars = member_text("column"@, decimal(column), ',', text_chars);
    let columns = seq![("column"@, JsonValue::Number(column))] + texts;
    lemma_read_decimal(column, seq![','] + text_chars);
    lemma_read_member(
        "column"@,
        decimal(column),
        JsonValue::Number(column),
        text_chars,
        texts,
        rest,
    );
    lemma_read_decimal(line, seq![','] + column_chars);
    lemma_read_member(
        "line"@,
        decimal(line),
        JsonValue::Number(line),
        column_chars,
        columns,
        rest,
    );
    assert(seq![("line"@, JsonValue::Number(line))] + columns =~= seq![
        ("line"@, JsonValue::Number(line)),
        ("column"@, JsonValue::Number(column)),
        ("text"@, JsonValue::Text(text)),
    ] + kinds);
}

/// An object is read as its members.
proof fn lemma_read_object(
    chars: Seq<char>,
    members: Seq<(Seq<char>, JsonValue)>,
    rest: Seq<char>,
)
    requires
        read_members(chars) == Some((members, rest)),
    ensures
        read_value(seq!['{'] + chars) == Some((JsonValue::Object(members), rest)),
{
    assert((seq!['{'] + chars).skip(1) =~= chars);
}

/// An event loses nothing as JSON but its style and the depth of a sidebar: the
/// text is read as an object that holds its line, its column, its text, the name
/// of its kind, and its source, if it has one, each under its name.
pub proof fn law_event_json_reads_back(event: events::EventView, rest: Seq<char>)
    ensures
        read_value(event_text(event) + rest) == Some(
            (
                JsonValue::Object(
                    seq![
                        ("line"@, JsonValue::Number(event.line)),
                        ("column"@, JsonValue::Number(event.column)),
                        ("text"@, JsonValue::Text(event.text)),
                        ("kind"@, JsonValue::Text(kind_text(event.kind))),
                    ] + match event.source {
                        Some(source) => seq![("source"@, (read_value(source_text(source))->0).0)],
                        None => Seq::empty(),
                    },
                ),
                rest,
            ),
        ),
{
    let end = event_end(event, rest);
    let kind = member_text("kind"@, quoted_kind(event.kind), end[0], end.skip(1));
    let kind_value = JsonValue::Text(kind_text(event.kind));
    let kinds = seq![("kind"@, kind_value)] + source_members(event.source);
    lemma_event_text_parts(event, rest);
    lemma_read_kind(event, rest);
    lemma_read_position(event.line, event.column, event.text, kind, kinds, rest);
    let line = member_text(
        "line"@,
        decimal(event.line),
        ',',
        member_text(
            "column"@,
            decimal(event.column),
            ',',
            member_text("text"@, json_string(event.text), ',', kind),
        ),
    );
    let first = seq![
        ("line"@, JsonValue::Number(event.line)),
        ("column"@, JsonValue::Number(event.column)),
        ("text"@, JsonValue::Text(event.text)),
    ];
    lemma_read_object(line, first + kinds, rest);
    assert(first + kinds =~= seq![
        ("line"@, JsonValue::Number(event.line)),
        ("column"@, JsonValue::Number(event.column)),
        ("text"@, JsonValue::Text(event.text)),
        ("kind"@, kind_value),
    ] + source_members(event.source));
}

/// An event can be told from its JSON: two with the same text differ in nothing
/// but their styles and the depths of sidebars.
pub proof fn law_event_json_tells_events_apart(one: events::EventView, other: events::EventView)
    requires
        event_text(one) == event_text(other),
    ensures
        one.line == other.line,
        one.column == other.column,
        one.text == other.text,
        one.kind == other.kind || (one.kind is Sidebar && other.kind is Sidebar),
        one.source == other.source,
{
    let empty: Seq<char> = Seq::empty();
    law_event_json_reads_back(one, empty);
    law_event_json_reads_back(other, empty);
    law_kind_can_be_told_from_its_name(one.kind);
    law_kind_can_be_told_from_its_name(other.kind);
    let a = (read_value(event_text(one) + empty)->0).0->Object_0;
    let b = (read_value(event_text(other) + empty)->0).0->Object_0;
    assert(a == b);
    assert(a.len() == if one.source is Some { 5int } else { 4int });
    assert(b.len() == if other.source is Some { 5int } else { 4int });
    assert(a[0].1 == JsonValue::Number(one.line) && b[0].1 == JsonValue::Number(other.line));
    assert(a[1].1 == JsonValue::Number(one.column) && b[1].1 == JsonValue::Number(other.column));
    assert(a[2].1 == JsonValue::Text(one.text) && b[2].1 == JsonValue::Text(other.text));
    assert(a[3].1 == JsonValue::Text(kind_text(one.kind)));
    assert(b[3].1 == JsonValue::Text(kind_text(other.kind)));
    if one.source is Some {
        let first = one.source->0;
        let second = other.source->0;
        assert(a[4].1 == (read_value(source_text(first))->0).0);
        assert(b[4].1 == (read_value(source_text(second))->0).0);
        lemma_same_value_same_source(first, second);
    }
}

/// Whether `chars` start with `start`.
pub open spec fn starts_with(chars: Seq<char>, start: Seq<char>) -> bool {
    start.len() <= chars.len() && chars.take(start.len() as int) == start
}

/// Reads values, each indented by two blanks on a line of its own, with commas
/// between them, up to the bracket and line break that end the text.
pub open spec fn read_indented(chars: Seq<char>) -> Option<Seq<JsonValue>>
    decreases chars.len(),
{
    if !starts_with(chars, seq![' ', ' ']) {
        None
    } else {
        match read_value(chars.skip(2)) {
            Some((value, rest)) => if rest == seq!['\n', ']', '\n'] {
                Some(seq![value])
            } else if starts_with(rest, seq![',', '\n']) && rest.len() <= chars.len() {
                match read_indented(rest.skip(2)) {
                    Some(more) => Some(seq![value] + more),
                    None => None,
                }
            } else {
                None
            },
            None => None,
        }
    }
}

/// Reads an array whose items stand on lines of their own.
pub open spec fn read_document(chars: Seq<char>) -> Option<Seq<JsonValue>> {
    if !starts_with(chars, seq!['[', '\n']) {
        None
    } else if chars.skip(2) == seq!['\n', ']', '\n'] {
        Some(Seq::empty())
    } else {
        read_indented(chars.skip(2))
    }
}

/// `elements_text` takes the first event apart as well as the last.
#[verifier::rlimit(40)]
proof fn lemma_elements_first(all: Seq<events::EventView>)
    requires
        all.len() > 0,
    ensures
        elements_text(all) == "  "@ + event_text(all[0]) + if all.len() == 1 {
            Seq::empty()
        } else {
            ",\n"@ + elements_text(all.skip(1))
        },
    decreases all.len(),
{
    let before = all.drop_last();
    let first = "  "@ + event_text(all[0]);
    let last = "  "@ + event_text(all.last());
    if all.len() == 1 {
        assert(before =~= Seq::empty());
        assert(elements_text(all) =~= first + Seq::empty());
    } else {
        lemma_elements_first(before);
        let rest = all.skip(1);
        assert(rest.drop_last() =~= before.skip(1));
        assert(rest.last() == all.last());
        assert(elements_text(all) =~= elements_text(before) + ",\n"@ + last);
        if all.len() == 2 {
            assert(rest.drop_last() =~= Seq::empty());
            assert(elements_text(rest) =~= last);
        } else {
            assert(elements_text(rest) =~= elements_text(before.skip(1)) + ",\n"@ + last);
        }
        assert(elements_text(all) =~= first + (",\n"@ + elements_text(rest)));
    }
}

/// What is written for an event in an array.
#[verifier::opaque]
spec fn written(event: events::EventView) -> Seq<char> {
    event_text(event)
}

/// The lines of an array, up to the bracket and line break that end it.
#[verifier::opaque]
spec fn written_lines(all: Seq<events::EventView>) -> Seq<char> {
    elements_text(all) + seq!['\n', ']', '\n']
}

/// An event is read as the same value whatever follows it.
proof fn lemma_read_event(event: events::EventView, rest: Seq<char>)
    ensures
        read_value(written(event)) == Some(
            ((read_value(written(event))->0).0, Seq::<char>::empty()),
        ),
        read_value(written(event) + rest) == Some(((read_value(written(event))->0).0, rest)),
{
    reveal(written);
    law_event_json_reads_back(event, Seq::empty());
    law_event_json_reads_back(event, rest);
    assert(event_text(event) + Seq::<char>::empty() =~= event_text(event));
}

/// The last line of an array is read as its value.
proof fn lemma_read_last_line(written: Seq<char>, value: JsonValue)
    requires
        read_value(written + seq!['\n', ']', '\n']) == Some((value, seq!['\n', ']', '\n'])),
    ensures
        read_indented(seq![' ', ' '] + written + seq!['\n', ']', '\n']) == Some(seq![value]),
{
    let chars = seq![' ', ' '] + written + seq!['\n', ']', '\n'];
    assert(chars.take(2) =~= seq![' ', ' ']);
    assert(chars.skip(2) =~= written + seq!['\n', ']', '\n']);
}

/// A line of an array is read as its value, before the others.
proof fn lemma_read_line(
    written: Seq<char>,
    value: JsonValue,
    lines: Seq<char>,
    more: Seq<JsonValue>,
)
    requires
        read_value(written + (seq![',', '\n'] + lines)) == Some((value, seq![',', '\n'] + lines)),
        read_indented(lines) == Some(more),
    ensures
        read_indented(seq![' ', ' '] + written + (seq![',', '\n'] + lines)) == Some(
            seq![value] + more,
        ),
{
    let rest = seq![',', '\n'] + lines;
    let chars = seq![' ', ' '] + written + rest;
    assert(chars.take(2) =~= seq![' ', ' ']);
    assert(chars.skip(2) =~= written + rest);
    assert(rest.take(2) =~= seq![',', '\n']);
    assert(rest.skip(2) =~= lines);
    assert(rest[0] == ',' && seq!['\n', ']', '\n'][0] == '\n');
}

/// Whether each of `values` is what the event at its place is read as.
spec fn are_values_of(values: Seq<JsonValue>, all: Seq<events::EventView>) -> bool {
    &&& values.len() == all.len()
    &&& forall|i: int|
        0 <= i < all.len() ==> read_value(written(all[i])) == Some(
            (#[trigger] values[i], Seq::<char>::empty()),
        )
}

/// One more value before others.
proof fn lemma_first_value(
    value: JsonValue,
    more: Seq<JsonValue>,
    all: Seq<events::EventView>,
)
    requires
        all.len() > 0,
        read_value(written(all[0])) == Some((value, Seq::<char>::empty())),
        are_values_of(more, all.skip(1)),
    ensures
        are_values_of(seq![value] + more, all),
{
    let values = seq![value] + more;
    assert forall|i: int| 0 <= i < all.len() implies read_value(written(all[i])) == Some(
        (#[trigger] values[i], Seq::<char>::empty()),
    ) by {
        if i > 0 {
            assert(values[i] == more[i - 1]);
            assert(all.skip(1)[i - 1] == all[i]);
        }
    }
}

/// The lines of an array, from its first event on.
proof fn lemma_lines_first(all: Seq<events::EventView>)
    requires
        all.len() > 0,
    ensures
        written_lines(all) == seq![' ', ' '] + written(all[0]) + if all.len() == 1 {
            seq!['\n', ']', '\n']
        } else {
            seq![',', '\n'] + written_lines(all.skip(1))
        },
{
    reveal(written_lines);
    lemma_elements_first(all);
    lemma_indentation();
    let end = seq!['\n', ']', '\n'];
    let first = seq![' ', ' '] + written(all[0]);
    assert(first == "  "@ + event_text(all[0])) by {
        reveal(written);
    }
    if all.len() == 1 {
        assert(first + Seq::<char>::empty() =~= first);
    } else {
        let rest = elements_text(all.skip(1));
        lemma_regroup(first, seq![',', '\n'], rest, end);
        assert(first + (seq![',', '\n'] + rest) =~= first + seq![',', '\n'] + rest);
        assert(seq![',', '\n'] + rest + end =~= seq![',', '\n'] + (rest + end));
    }
}

/// The lines of an array are read as its events.
proof fn lemma_read_elements(all: Seq<events::EventView>)
    requires
        all.len() > 0,
    ensures
        read_indented(written_lines(all)) matches Some(values) && are_values_of(values, all),
    decreases all.len(),
{
    let end = seq!['\n', ']', '\n'];
    let first = written(all[0]);
    let value = (read_value(first)->0).0;
    lemma_lines_first(all);
    if all.len() == 1 {
        lemma_read_event(all[0], end);
        lemma_read_last_line(first, value);
    } else {
        let lines = written_lines(all.skip(1));
        lemma_read_elements(all.skip(1));
        let more = read_indented(lines)->0;
        lemma_read_event(all[0], seq![',', '\n'] + lines);
        lemma_read_line(first, value, lines, more);
        lemma_first_value(value, more, all);
    }
}

/// What stands between the events of an array.
proof fn lemma_indentation()
    ensures
        "  "@ == seq![' ', ' '],
        ",\n"@ == seq![',', '\n'],
        "[\n"@ == seq!['[', '\n'],
        "\n]\n"@ == seq!['\n', ']', '\n'],
{
    reveal_strlit("  ");
    reveal_strlit(",\n");
    reveal_strlit("[\n");
    reveal_strlit("\n]\n");
    assert("  "@ =~= seq![' ', ' ']);
    assert(",\n"@ =~= seq![',', '\n']);
    assert("[\n"@ =~= seq!['[', '\n']);
    assert("\n]\n"@ =~= seq!['\n', ']', '\n']);
}

/// Events lose nothing in an array either: it is read as one value for each, in
/// their order, which is what the event by itself is read as.
pub proof fn law_events_json_reads_back(all: Seq<events::EventView>)
    ensures
        read_document(events_text(all)) matches Some(values) && {
            &&& values.len() == all.len()
            &&& forall|i: int|
                0 <= i < all.len() ==> read_value(event_text(all[i])) == Some(
                    (#[trigger] values[i], Seq::<char>::empty()),
                )
        },
{
    lemma_indentation();
    let chars = events_text(all);
    let end = seq!['\n', ']', '\n'];
    assert(chars.take(2) =~= seq!['[', '\n']);
    assert(chars.skip(2) =~= elements_text(all) + end);
    if all.len() == 0 {
        assert(chars.skip(2) =~= end);
    } else {
        lemma_read_elements(all);
        lemma_lines_first(all);
        assert(chars.skip(2) == written_lines(all)) by {
            reveal(written_lines);
        }
        assert(written_lines(all)[0] == ' ');
        assert(end[0] == '\n');
        reveal(written);
    }
}

} // verus!
