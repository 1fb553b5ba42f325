//! The persisted document format.
//!
//! A store is written as one pretty-printed JSON document with a single
//! `tasks` object that maps each decimal identifier, as a string key, to a
//! task object with `description`, `status`, `created` and `updated`
//! fields; the timestamps are RFC 3339 texts with an explicit offset. The
//! writer produces one canonical text per store. The reader accepts the
//! writer's layout -- tolerating only equivalent spellings of values, such
//! as either letter case in a hexadecimal escape -- returns the store a
//! text denotes, and reports every other text as `DocumentCorrupt`; it is
//! proved to succeed on exactly the texts the spec-level reader
//! [`parse_doc`] accepts, so reloading a written document always yields
//! the written store.

use vstd::prelude::*;

use crate::num::char_of_digit;
use crate::num::dec_of;
use crate::num::digit_val;
use crate::num::four_digits;
use crate::num::is_digit;
use crate::num::two_digits;
use crate::status::StatusView;
use crate::store::Entries;
use crate::store::TaskStore;
use crate::store::ids_unique;
use crate::store::pairs_view;
use crate::store::tasks_wf;
use crate::task::TaskView;
use crate::timestamp::Timestamp;

verus! {

/// The reader's error: the text is not a document this library writes.
#[derive(Clone, Copy, PartialEq, Eq, Structural, Debug)]
pub struct DocumentCorrupt;

// ---------------------------------------------------------------------
// The serialized text, as spec functions.
// ---------------------------------------------------------------------
/// The hexadecimal digit character for `d < 16`, lower case.
pub open spec fn char_of_hex(d: nat) -> char {
    if d < 10 {
        char_of_digit(d)
    } else if d == 10 {
        'a'
    } else if d == 11 {
        'b'
    } else if d == 12 {
        'c'
    } else if d == 13 {
        'd'
    } else if d == 14 {
        'e'
    } else {
        'f'
    }
}

/// How one character appears inside a quoted string: quotes and
/// backslashes are escaped, the named control characters take their short
/// escapes, the remaining control characters a four-digit hexadecimal
/// escape, and everything else stands for itself.
pub open spec fn esc_char(c: char) -> Seq<char> {
    if c == '"' {
        seq!['\\', '"']
    } else if c == '\\' {
        seq!['\\', '\\']
    } else if c == '\n' {
        seq!['\\', 'n']
    } else if c == '\r' {
        seq!['\\', 'r']
    } else if c == '\t' {
        seq!['\\', 't']
    } else if c == '\u{8}' {
        seq!['\\', 'b']
    } else if c == '\u{c}' {
        seq!['\\', 'f']
    } else if (c as u32) < 0x20 {
        seq![
            '\\',
            'u',
            '0',
            '0',
            char_of_hex(((c as u32) / 16) as nat),
            char_of_hex(((c as u32) % 16) as nat),
        ]
    } else {
        seq![c]
    }
}

/// A string's characters, each escaped.
pub open spec fn escape(s: Seq<char>) -> Seq<char>
    decreases s.len(),
{
    if s.len() == 0 {
        Seq::empty()
    } else {
        esc_char(s[0]) + escape(s.skip(1))
    }
}

/// A quoted, escaped string.
pub open spec fn ser_string(s: Seq<char>) -> Seq<char> {
    seq!['"'] + escape(s) + seq!['"']
}

/// A timestamp as an RFC 3339 text in quotes, with an explicit offset.
pub open spec fn ser_time(t: Timestamp) -> Seq<char> {
    let off = if t.offset_minutes >= 0 {
        t.offset_minutes as nat
    } else {
        (-t.offset_minutes) as nat
    };
    seq!['"'] + four_digits(t.year as nat) + seq!['-'] + two_digits(t.month as nat) + seq!['-']
        + two_digits(t.day as nat) + seq!['T'] + two_digits(t.hour as nat) + seq![':'] + two_digits(
        t.minute as nat,
    ) + seq![':'] + two_digits(t.second as nat) + seq![if t.offset_minutes >= 0 {
        '+'
    } else {
        '-'
    }] + two_digits(off / 60) + seq![':'] + two_digits(off % 60) + seq!['"']
}

/// A status value: the recognized variants as plain strings, the
/// free-text variant as an object with one `Other` field.
pub open spec fn ser_status(st: StatusView) -> Seq<char> {
    match st {
        StatusView::Todo => "\"Todo\""@,
        StatusView::Complete => "\"Complete\""@,
        StatusView::Other(label) => "{ \"Other\": "@ + ser_string(label) + " }"@,
    }
}

/// A task object, with its four fields in a fixed order.
pub open spec fn ser_task(t: TaskView) -> Seq<char> {
    "{\n      \"description\": "@ + ser_string(t.description) + ",\n      \"status\": "@
        + ser_status(t.status) + ",\n      \"created\": "@ + ser_time(t.created)
        + ",\n      \"updated\": "@ + ser_time(t.updated) + "\n    }"@
}

/// One entry of the `tasks` object: the identifier as a string key, then
/// the task object.
#[verifier::opaque]
pub open spec fn ser_entry(e: (u64, TaskView)) -> Seq<char> {
    "    \""@ + dec_of(e.0 as nat) + "\": "@ + ser_entry_task(e)
}

/// The task part of an entry (split out to keep the triggers small).
pub open spec fn ser_entry_task(e: (u64, TaskView)) -> Seq<char> {
    ser_task(e.1)
}

/// The entries after the first, each preceded by a separator.
pub open spec fn ser_entries_rest(m: Entries) -> Seq<char>
    decreases m.len(),
{
    if m.len() == 0 {
        Seq::empty()
    } else {
        ",\n"@ + ser_entry(m[0]) + ser_entries_rest(m.skip(1))
    }
}

/// The `tasks` object: empty braces, or the entries one per line.
pub open spec fn ser_entries(m: Entries) -> Seq<char> {
    if m.len() == 0 {
        "{}"@
    } else {
        "{\n"@ + ser_entry(m[0]) + ser_entries_rest(m.skip(1)) + "\n  }"@
    }
}

/// The whole document.
pub open spec fn ser_doc(m: Entries) -> Seq<char> {
    "{\n  \"tasks\": "@ + ser_entries(m) + "\n}"@
}

// ---------------------------------------------------------------------
// The writer.
// ---------------------------------------------------------------------
/// The hexadecimal digit character for `d`.
fn hex_char(d: u32) -> (c: char)
    requires
        d < 16,
    ensures
        c == char_of_hex(d as nat),
{
    if d == 0 {
        '0'
    } else if d == 1 {
        '1'
    } else if d == 2 {
        '2'
    } else if d == 3 {
        '3'
    } else if d == 4 {
        '4'
    } else if d == 5 {
        '5'
    } else if d == 6 {
        '6'
    } else if d == 7 {
        '7'
    } else if d == 8 {
        '8'
    } else if d == 9 {
        '9'
    } else if d == 10 {
        'a'
    } else if d == 11 {
        'b'
    } else if d == 12 {
        'c'
    } else if d == 13 {
        'd'
    } else if d == 14 {
        'e'
    } else {
        'f'
    }
}

/// Append the characters of a literal piece of the format.
pub(crate) fn push_lit(out: &mut Vec<char>, lit: &str)
    ensures
        final (out)@ == old(out)@ + lit@,
{
    let ghost pre = out@;
    let n = lit.unicode_len();
    let mut i: usize = 0;
    while i < n
        invariant
            n == lit@.len(),
            i <= n,
            out@ == pre + lit@.take(i as int),
        decreases n - i,
    {
        let c = lit.get_char(i);
        out.push(c);
        proof {
            assert(out@ =~= pre + lit@.take(i + 1));
        }
        i += 1;
    }
    proof {
        assert(lit@.take(n as int) =~= lit@);
    }
}

/// Append one character in its escaped form.
fn push_esc_char(out: &mut Vec<char>, c: char)
    ensures
        final (out)@ == old(out)@ + esc_char(c),
{
    let ghost pre = out@;
    if c == '"' {
        out.push('\\');
        out.push('"');
    } else if c == '\\' {
        out.push('\\');
        out.push('\\');
    } else if c == '\n' {
        out.push('\\');
        out.push('n');
    } else if c == '\r' {
        out.push('\\');
        out.push('r');
    } else if c == '\t' {
        out.push('\\');
        out.push('t');
    } else if c == '\u{8}' {
        out.push('\\');
        out.push('b');
    } else if c == '\u{c}' {
        out.push('\\');
        out.push('f');
    } else if (c as u32) < 0x20 {
        out.push('\\');
        out.push('u');
        out.push('0');
        out.push('0');
        out.push(hex_char((c as u32) / 16));
        out.push(hex_char((c as u32) % 16));
    } else {
        out.push(c);
    }
    proof {
        assert(out@ =~= pre + esc_char(c));
    }
}

/// Append a string value in quotes, escaping its characters.
fn push_string(out: &mut Vec<char>, s: &Vec<char>)
    ensures
        final (out)@ == old(out)@ + ser_string(s@),
{
    let ghost pre = out@;
    out.push('"');
    let mut i: usize = 0;
    while i < s.len()
        invariant
            i <= s@.len(),
            out@ == pre + seq!['"'] + escape(s@.take(i as int)),
        decreases s@.len() - i,
    {
        proof {
            assert(out@ =~= pre + seq!['"'] + escape(s@.take(i as int)));
        }
        push_esc_char(out, s[i]);
        proof {
            lemma_escape_snoc(s@.take(i as int), s@[i as int]);
            assert(s@.take(i + 1) =~= s@.take(i as int).push(s@[i as int]));
        }
        i += 1;
    }
    out.push('"');
    proof {
        assert(s@.take(s@.len() as int) =~= s@);
        assert(out@ =~= pre + ser_string(s@));
    }
}

/// Escaping one more character appends its escape.
proof fn lemma_escape_snoc(s: Seq<char>, c: char)
    ensures
        escape(s.push(c)) == escape(s) + esc_char(c),
    decreases s.len(),
{
    if s.len() == 0 {
        assert(s.push(c).skip(1) =~= Seq::<char>::empty());
        assert(escape(s.push(c)) == esc_char(c) + escape(Seq::<char>::empty()));
        assert(esc_char(c) + Seq::<char>::empty() =~= Seq::<char>::empty() + esc_char(c));
    } else {
        assert(s.push(c)[0] == s[0]);
        assert(s.push(c).skip(1) =~= s.skip(1).push(c));
        lemma_escape_snoc(s.skip(1), c);
        let a = esc_char(s[0]);
        let b = escape(s.skip(1));
        let d = esc_char(c);
        assert(escape(s.push(c)) == a + (b + d));
        assert(escape(s) == a + b);
        assert(a + (b + d) =~= (a + b) + d);
    }
}

/// Append a timestamp text.
#[verifier::rlimit(100)]
fn push_time(out: &mut Vec<char>, t: &Timestamp)
    requires
        t.wf(),
    ensures
        final (out)@ == old(out)@ + ser_time(*t),
{
    let ghost pre = out@;
    out.push('"');
    crate::num::push_four_digits(out, t.year as u64);
    out.push('-');
    crate::num::push_two_digits(out, t.month as u64);
    out.push('-');
    crate::num::push_two_digits(out, t.day as u64);
    out.push('T');
    crate::num::push_two_digits(out, t.hour as u64);
    out.push(':');
    crate::num::push_two_digits(out, t.minute as u64);
    out.push(':');
    crate::num::push_two_digits(out, t.second as u64);
    let off: u64 = if t.offset_minutes >= 0 {
        out.push('+');
        t.offset_minutes as u64
    } else {
        out.push('-');
        (-(t.offset_minutes as i32)) as u64
    };
    crate::num::push_two_digits(out, off / 60);
    out.push(':');
    crate::num::push_two_digits(out, off % 60);
    out.push('"');
    proof {
        assert(out@ =~= pre + ser_time(*t));
    }
}

/// Append a status value.
fn push_status(out: &mut Vec<char>, st: &crate::status::TaskStatus)
    ensures
        final (out)@ == old(out)@ + ser_status(st@),
{
    let ghost pre = out@;
    match st {
        crate::status::TaskStatus::Todo => {
            push_lit(out, "\"Todo\"");
        },
        crate::status::TaskStatus::Complete => {
            push_lit(out, "\"Complete\"");
        },
        crate::status::TaskStatus::Other(label) => {
            push_lit(out, "{ \"Other\": ");
            let chars = str_chars(label.as_str());
            push_string(out, &chars);
            push_lit(out, " }");
            proof {
                assert(out@ =~= pre + ser_status(st@));
            }
        },
    }
}

/// Append one task object.
#[verifier::rlimit(100)]
fn push_task(out: &mut Vec<char>, t: &crate::task::Task)
    requires
        t@.wf(),
    ensures
        final (out)@ == old(out)@ + ser_task(t@),
{
    let ghost pre = out@;
    push_lit(out, "{\n      \"description\": ");
    let chars = str_chars(t.description.as_str());
    push_string(out, &chars);
    push_lit(out, ",\n      \"status\": ");
    push_status(out, &t.status);
    push_lit(out, ",\n      \"created\": ");
    push_time(out, &t.created);
    push_lit(out, ",\n      \"updated\": ");
    push_time(out, &t.updated);
    push_lit(out, "\n    }");
    proof {
        assert(out@ =~= pre + ser_task(t@));
    }
}

/// Append one entry: the quoted decimal key, then the task.
fn push_entry(out: &mut Vec<char>, id: u64, t: &crate::task::Task)
    requires
        t@.wf(),
    ensures
        final (out)@ == old(out)@ + ser_entry((id, t@)),
{
    let ghost pre = out@;
    push_lit(out, "    \"");
    crate::num::push_dec(out, id);
    push_lit(out, "\": ");
    push_task(out, t);
    proof {
        reveal(ser_entry);
        assert(out@ =~= pre + ser_entry((id, t@)));
    }
}

/// The serialized rest of the entries grows one entry at a time.
#[verifier::rlimit(100)]
proof fn lemma_ser_entries_rest_snoc(m: Entries, e: (u64, TaskView))
    ensures
        ser_entries_rest(m.push(e)) == ser_entries_rest(m) + (",\n"@ + ser_entry(e)),
    decreases m.len(),
{
    let sep = ",\n"@;
    assert(ser_entries_rest(Seq::<(u64, TaskView)>::empty()) == Seq::<char>::empty());
    if m.len() == 0 {
        assert(m.push(e)[0] == e);
        assert(m.push(e).skip(1) =~= Seq::<(u64, TaskView)>::empty());
        assert(ser_entries_rest(m.push(e)) == sep + ser_entry(e) + Seq::<char>::empty());
        assert(sep + ser_entry(e) + Seq::<char>::empty() =~= Seq::<char>::empty() + (sep
            + ser_entry(e)));
    } else {
        assert(m.push(e)[0] == m[0]);
        assert(m.push(e).skip(1) =~= m.skip(1).push(e));
        lemma_ser_entries_rest_snoc(m.skip(1), e);
        let a = sep + ser_entry(m[0]);
        let b = ser_entries_rest(m.skip(1));
        let d = sep + ser_entry(e);
        assert(ser_entries_rest(m.push(e)) == a + (b + d));
        assert(ser_entries_rest(m) == a + b);
        assert(a + (b + d) =~= (a + b) + d);
    }
}

/// Write the whole document for a store.
#[verifier::rlimit(100)]
pub fn serialize_document(store: &TaskStore) -> (r: Vec<char>)
    requires
        tasks_wf(store@),
    ensures
        r@ == ser_doc(store@),
{
    let mut out: Vec<char> = Vec::new();
    push_lit(&mut out, "{\n  \"tasks\": ");
    if store.entries.len() == 0 {
        push_lit(&mut out, "{}");
        proof {
            assert(store@.len() == 0);
        }
    } else {
        push_lit(&mut out, "{\n");
        proof {
            assert(store@[0] == (store.entries@[0].0, store.entries@[0].1@));
            assert(store@[0].1.wf());
        }
        let first = &store.entries[0];
        push_entry(&mut out, first.0, &first.1);
        let ghost head = "{\n  \"tasks\": "@ + "{\n"@ + ser_entry(store@[0]);
        proof {
            assert(out@ =~= head + ser_entries_rest(store@.skip(1).take(0)));
            assert(store@.skip(1).take(0) =~= Seq::<(u64, TaskView)>::empty());
        }
        let mut i: usize = 1;
        while i < store.entries.len()
            invariant
                1 <= i <= store@.len(),
                store@.len() == store.entries.len(),
                tasks_wf(store@),
                head == "{\n  \"tasks\": "@ + "{\n"@ + ser_entry(store@[0]),
                out@ == head + ser_entries_rest(store@.skip(1).take(i - 1)),
            decreases store@.len() - i,
        {
            let ghost prefix = store@.skip(1).take(i - 1);
            let ghost a = ser_entries_rest(prefix);
            proof {
                assert(store@[i as int] == (store.entries@[i as int].0,
                store.entries@[i as int].1@));
                assert(store@[i as int].1.wf());
            }
            push_lit(&mut out, ",\n");
            let entry = &store.entries[i];
            push_entry(&mut out, entry.0, &entry.1);
            proof {
                let e = ser_entry(store@[i as int]);
                let sep = ",\n"@;
                assert(out@ == ((head + a) + sep) + e);
                lemma_ser_entries_rest_snoc(prefix, store@[i as int]);
                assert(store@.skip(1).take(i as int) =~= prefix.push(store@[i as int]));
                assert(((head + a) + sep) + e =~= head + (a + (sep + e)));
                assert(out@ == head + ser_entries_rest(store@.skip(1).take(i as int)));
            }
            i += 1;
        }
        push_lit(&mut out, "\n  }");
        proof {
            assert(store@.skip(1).take(store@.len() - 1) =~= store@.skip(1));
            let pre = "{\n  \"tasks\": "@;
            let open_brace = "{\n"@;
            let e0 = ser_entry(store@[0]);
            let rest = ser_entries_rest(store@.skip(1));
            let close = "\n  }"@;
            assert(out@ == ((pre + open_brace + e0) + rest) + close);
            assert(((pre + open_brace + e0) + rest) + close =~= pre + (open_brace + e0 + rest
                + close));
            assert(ser_entries(store@) == open_brace + e0 + rest + close);
        }
    }
    push_lit(&mut out, "\n}");
    proof {
        let pre = "{\n  \"tasks\": "@;
        let body = ser_entries(store@);
        let close = "\n}"@;
        assert(out@ == (pre + body) + close);
        assert(ser_doc(store@) == (pre + body) + close);
    }
    out
}

/// Relies on `str::chars`: it yields exactly the characters of the slice,
/// in order.
#[verifier::external_body]
pub fn str_chars(s: &str) -> (r: Vec<char>)
    ensures
        r@ == s@,
{
    s.chars().collect()
}

/// Relies on `String`'s `FromIterator` over characters: collecting the
/// characters gives the string with exactly those characters, in order.
#[verifier::external_body]
pub fn chars_string(v: &Vec<char>) -> (r: String)
    ensures
        r@ == v@,
{
    v.iter().collect()
}

// ---------------------------------------------------------------------
// The accepted texts, as spec functions.
// ---------------------------------------------------------------------
/// The rest of `s` after a literal prefix, or nothing when `s` does not
/// start with it.
pub open spec fn strip_prefix(s: Seq<char>, lit: Seq<char>) -> Option<Seq<char>> {
    if lit.len() <= s.len() && s.take(lit.len() as int) == lit {
        Some(s.skip(lit.len() as int))
    } else {
        None
    }
}

/// Stripping a literal off a text that starts with it leaves the rest.
proof fn lemma_strip_prefix(lit: Seq<char>, rest: Seq<char>)
    ensures
        strip_prefix(lit + rest, lit) == Some(rest),
{
    assert((lit + rest).take(lit.len() as int) =~= lit);
    assert((lit + rest).skip(lit.len() as int) =~= rest);
}

/// The value of a hexadecimal digit, either case; `16` marks a
/// non-hexadecimal character.
pub open spec fn hex_val(c: char) -> nat {
    if is_digit(c) {
        digit_val(c)
    } else if 97 <= c as u32 <= 102 {
        ((c as u32) - ('a' as u32) + 10) as nat
    } else if 65 <= c as u32 <= 70 {
        ((c as u32) - ('A' as u32) + 10) as nat
    } else {
        16
    }
}

/// `c` is a hexadecimal digit.
pub open spec fn is_hex(c: char) -> bool {
    hex_val(c) < 16
}

/// `code` is a Unicode scalar value reachable by a four-digit escape.
pub open spec fn is_scalar_code(code: nat) -> bool {
    code < 0xD800 || (0xE000 <= code && code <= 0x10FFFF)
}

/// The character a short escape stands for.
pub open spec fn unescape_short(c: char) -> Option<char> {
    if c == '"' {
        Some('"')
    } else if c == '\\' {
        Some('\\')
    } else if c == '/' {
        Some('/')
    } else if c == 'n' {
        Some('\n')
    } else if c == 'r' {
        Some('\r')
    } else if c == 't' {
        Some('\t')
    } else if c == 'b' {
        Some('\u{8}')
    } else if c == 'f' {
        Some('\u{c}')
    } else {
        None
    }
}

/// The body of a quoted string, read up to its closing quote: the string's
/// characters with escapes resolved, and the rest of the text.
pub open spec fn parse_string_body(s: Seq<char>) -> Option<(Seq<char>, Seq<char>)>
    decreases s.len(),
{
    if s.len() == 0 {
        None
    } else if s[0] == '"' {
        Some((Seq::empty(), s.skip(1)))
    } else if s[0] == '\\' {
        if s.len() < 2 {
            None
        } else if s[1] == 'u' {
            if s.len() < 6 || !(is_hex(s[2]) && is_hex(s[3]) && is_hex(s[4]) && is_hex(s[5])) {
                None
            } else {
                let code = hex_val(s[2]) * 4096 + hex_val(s[3]) * 256 + hex_val(s[4]) * 16
                    + hex_val(s[5]);
                if is_scalar_code(code) {
                    match parse_string_body(s.skip(6)) {
                        Some((t, r)) => Some((seq![(code as u32) as char] + t, r)),
                        None => None,
                    }
                } else {
                    None
                }
            }
        } else {
            match unescape_short(s[1]) {
                Some(c) => match parse_string_body(s.skip(2)) {
                    Some((t, r)) => Some((seq![c] + t, r)),
                    None => None,
                },
                None => None,
            }
        }
    } else {
        match parse_string_body(s.skip(1)) {
            Some((t, r)) => Some((seq![s[0]] + t, r)),
            None => None,
        }
    }
}

/// A quoted string: an opening quote, then its body.
pub open spec fn parse_string(s: Seq<char>) -> Option<(Seq<char>, Seq<char>)> {
    if s.len() >= 1 && s[0] == '"' {
        parse_string_body(s.skip(1))
    } else {
        None
    }
}

/// A timestamp text: 27 characters, quoted, fields at fixed places, every
/// field within its calendar range.
pub open spec fn parse_time(s: Seq<char>) -> Option<(Timestamp, Seq<char>)> {
    if s.len() >= 27 && s[0] == '"' && is_digit(s[1]) && is_digit(s[2]) && is_digit(s[3])
        && is_digit(s[4]) && s[5] == '-' && is_digit(s[6]) && is_digit(s[7]) && s[8] == '-'
        && is_digit(s[9]) && is_digit(s[10]) && s[11] == 'T' && is_digit(s[12]) && is_digit(s[13])
        && s[14] == ':' && is_digit(s[15]) && is_digit(s[16]) && s[17] == ':' && is_digit(s[18])
        && is_digit(s[19]) && (s[20] == '+' || s[20] == '-') && is_digit(s[21]) && is_digit(s[22])
        && s[23] == ':' && is_digit(s[24]) && is_digit(s[25]) && s[26] == '"' {
        let year = digit_val(s[1]) * 1000 + digit_val(s[2]) * 100 + digit_val(s[3]) * 10
            + digit_val(s[4]);
        let month = digit_val(s[6]) * 10 + digit_val(s[7]);
        let day = digit_val(s[9]) * 10 + digit_val(s[10]);
        let hour = digit_val(s[12]) * 10 + digit_val(s[13]);
        let minute = digit_val(s[15]) * 10 + digit_val(s[16]);
        let second = digit_val(s[18]) * 10 + digit_val(s[19]);
        let total = (digit_val(s[21]) * 10 + digit_val(s[22])) * 60 + digit_val(s[24]) * 10
            + digit_val(s[25]);
        if 1 <= month <= 12 && 1 <= day <= 31 && hour <= 23 && minute <= 59 && second <= 59
            && total <= 1439 {
            let off: int = if s[20] == '-' {
                -(total as int)
            } else {
                total as int
            };
            let ts = Timestamp {
                year: year as u16,
                month: month as u8,
                day: day as u8,
                hour: hour as u8,
                minute: minute as u8,
                second: second as u8,
                offset_minutes: off as i16,
            };
            Some((ts, s.skip(27)))
        } else {
            None
        }
    } else {
        None
    }
}

/// A status value: one of the two recognized strings, or the one-field
/// object of the free-text variant.
pub open spec fn parse_status(s: Seq<char>) -> Option<(StatusView, Seq<char>)> {
    match strip_prefix(s, "\"Todo\""@) {
        Some(r) => Some((StatusView::Todo, r)),
        None => match strip_prefix(s, "\"Complete\""@) {
            Some(r) => Some((StatusView::Complete, r)),
            None => match strip_prefix(s, "{ \"Other\": "@) {
                Some(r) => match parse_string(r) {
                    Some((label, r2)) => match strip_prefix(r2, " }"@) {
                        Some(r3) => Some((StatusView::Other(label), r3)),
                        None => None,
                    },
                    None => None,
                },
                None => None,
            },
        },
    }
}

/// A task object: the four fields, in the writer's order and layout.
pub open spec fn parse_task(s: Seq<char>) -> Option<(TaskView, Seq<char>)> {
    match strip_prefix(s, "{\n      \"description\": "@) {
        Some(r) => match parse_string(r) {
            Some((description, r)) => match strip_prefix(r, ",\n      \"status\": "@) {
                Some(r) => match parse_status(r) {
                    Some((status, r)) => match strip_prefix(r, ",\n      \"created\": "@) {
                        Some(r) => match parse_time(r) {
                            Some((created, r)) => match strip_prefix(
                                r,
                                ",\n      \"updated\": "@,
                            ) {
                                Some(r) => match parse_time(r) {
                                    Some((updated, r)) => match strip_prefix(r, "\n    }"@) {
                                        Some(r) => Some(
                                            (
                                                TaskView { description, status, created, updated },
                                                r,
                                            ),
                                        ),
                                        None => None,
                                    },
                                    None => None,
                                },
                                None => None,
                            },
                            None => None,
                        },
                        None => None,
                    },
                    None => None,
                },
                None => None,
            },
            None => None,
        },
        None => None,
    }
}

/// One entry: the quoted decimal identifier, a colon, the task.
pub open spec fn parse_entry(s: Seq<char>) -> Option<((u64, TaskView), Seq<char>)> {
    match strip_prefix(s, "    \""@) {
        Some(r) => match crate::num::spec_parse_dec(r) {
            Some((id, r)) => match strip_prefix(r, "\": "@) {
                Some(r) => match parse_task(r) {
                    Some((t, r)) => Some(((id, t), r)),
                    None => None,
                },
                None => None,
            },
            None => None,
        },
        None => None,
    }
}

/// The entries after the first: as long as a separator follows, another
/// entry must. The fuel bounds the recursion; one unit is spent per entry.
pub open spec fn parse_entries_rest(s: Seq<char>, fuel: nat) -> Option<(Entries, Seq<char>)>
    decreases fuel,
{
    match strip_prefix(s, ",\n"@) {
        None => Some((Seq::empty(), s)),
        Some(r) => {
            if fuel == 0 {
                None
            } else {
                match parse_entry(r) {
                    Some((e, r2)) => match parse_entries_rest(r2, (fuel - 1) as nat) {
                        Some((es, r3)) => Some((seq![e] + es, r3)),
                        None => None,
                    },
                    None => None,
                }
            }
        },
    }
}

/// The `tasks` object: empty braces, or entries separated by commas and
/// closed by the indented brace.
pub open spec fn parse_entries(s: Seq<char>, fuel: nat) -> Option<(Entries, Seq<char>)> {
    match strip_prefix(s, "{}"@) {
        Some(r) => Some((Seq::empty(), r)),
        None => match strip_prefix(s, "{\n"@) {
            Some(r) => match parse_entry(r) {
                Some((e, r2)) => match parse_entries_rest(r2, fuel) {
                    Some((es, r3)) => match strip_prefix(r3, "\n  }"@) {
                        Some(r4) => Some((seq![e] + es, r4)),
                        None => None,
                    },
                    None => None,
                },
                None => None,
            },
            None => None,
        },
    }
}

/// The documents the reader accepts, and the store each one denotes: the
/// writer's exact layout, with unique identifiers and well-formed tasks,
/// and nothing after the closing brace.
pub open spec fn parse_doc(s: Seq<char>) -> Option<Entries> {
    match strip_prefix(s, "{\n  \"tasks\": "@) {
        Some(r) => match parse_entries(r, s.len()) {
            Some((es, r2)) => match strip_prefix(r2, "\n}"@) {
                Some(r3) => {
                    if r3.len() == 0 && ids_unique(es) && tasks_wf(es) {
                        Some(es)
                    } else {
                        None
                    }
                },
                None => None,
            },
            None => None,
        },
        None => None,
    }
}

// ---------------------------------------------------------------------
// Round trip: the reader accepts every text the writer produces and
// returns exactly the store it was written from.
// ---------------------------------------------------------------------
/// A hexadecimal digit character denotes its value.
proof fn lemma_char_of_hex(v: nat)
    requires
        v < 16,
    ensures
        is_hex(char_of_hex(v)),
        hex_val(char_of_hex(v)) == v,
{
}

/// Reading a string body off an escaped text recovers the original
/// characters, up to the closing quote.
#[verifier::rlimit(100)]
proof fn lemma_parse_string_body_of(x: Seq<char>, rest: Seq<char>)
    ensures
        parse_string_body(escape(x) + (seq!['"'] + rest)) == Some((x, rest)),
    decreases x.len(),
{
    let s = escape(x) + (seq!['"'] + rest);
    if x.len() == 0 {
        assert(s =~= seq!['"'] + rest);
        assert(s[0] == '"');
        assert(s.skip(1) =~= rest);
        assert(x =~= Seq::<char>::empty());
    } else {
        let c = x[0];
        let tail = escape(x.skip(1)) + (seq!['"'] + rest);
        lemma_parse_string_body_of(x.skip(1), rest);
        assert(escape(x) == esc_char(c) + escape(x.skip(1)));
        assert(s =~= esc_char(c) + tail);
        assert(seq![c] + x.skip(1) =~= x);
        if c == '"' || c == '\\' || c == '\n' || c == '\r' || c == '\t' || c == '\u{8}' || c
            == '\u{c}' {
            assert(esc_char(c).len() == 2);
            assert(s[0] == '\\');
            assert(s[1] == esc_char(c)[1]);
            assert(unescape_short(s[1]) == Some(c));
            assert(s.skip(2) =~= tail);
        } else if (c as u32) < 0x20 {
            assert(esc_char(c).len() == 6);
            assert(s[0] == '\\');
            assert(s[1] == 'u');
            assert(s[2] == '0');
            assert(s[3] == '0');
            let hi = ((c as u32) / 16) as nat;
            let lo = ((c as u32) % 16) as nat;
            assert(s[4] == char_of_hex(hi));
            assert(s[5] == char_of_hex(lo));
            lemma_char_of_hex(hi);
            lemma_char_of_hex(lo);
            assert(hex_val('0') == 0);
            let code = hex_val(s[2]) * 4096 + hex_val(s[3]) * 256 + hex_val(s[4]) * 16 + hex_val(
                s[5],
            );
            assert(code == hi * 16 + lo);
            assert(hi * 16 + lo == c as u32) by {
                vstd::arithmetic::div_mod::lemma_fundamental_div_mod(c as u32 as int, 16);
            }
            assert(is_scalar_code(code));
            assert((code as u32) as char == c) by {
                vstd::utf8::char_u32_cast(c, c as u32);
            }
            assert(s.skip(6) =~= tail);
        } else {
            assert(esc_char(c) == seq![c]);
            assert(s[0] == c);
            assert(s.skip(1) =~= tail);
        }
    }
}

/// Reading a quoted string off the writer's output recovers the original.
proof fn lemma_parse_string_of(x: Seq<char>, rest: Seq<char>)
    ensures
        parse_string(ser_string(x) + rest) == Some((x, rest)),
{
    let s = ser_string(x) + rest;
    assert(s =~= seq!['"'] + (escape(x) + (seq!['"'] + rest)));
    assert(s[0] == '"');
    assert(s.skip(1) =~= escape(x) + (seq!['"'] + rest));
    lemma_parse_string_body_of(x, rest);
}

/// Reading a timestamp text recovers the timestamp.
#[verifier::rlimit(100)]
proof fn lemma_parse_time_of(t: Timestamp, rest: Seq<char>)
    requires
        t.wf(),
    ensures
        parse_time(ser_time(t) + rest) == Some((t, rest)),
{
    let s = ser_time(t) + rest;
    let y = t.year as nat;
    let mo = t.month as nat;
    let d = t.day as nat;
    let h = t.hour as nat;
    let mi = t.minute as nat;
    let sec = t.second as nat;
    let off = if t.offset_minutes >= 0 {
        t.offset_minutes as nat
    } else {
        (-t.offset_minutes) as nat
    };
    assert(ser_time(t).len() == 27);
    assert(s.len() >= 27);
    assert(forall|i: int| 0 <= i < 27 ==> s[i] == ser_time(t)[i]);
    vstd::arithmetic::div_mod::lemma_fundamental_div_mod(y as int, 100);
    vstd::arithmetic::div_mod::lemma_fundamental_div_mod((y / 100) as int, 10);
    vstd::arithmetic::div_mod::lemma_fundamental_div_mod((y % 100) as int, 10);
    vstd::arithmetic::div_mod::lemma_fundamental_div_mod(mo as int, 10);
    vstd::arithmetic::div_mod::lemma_fundamental_div_mod(d as int, 10);
    vstd::arithmetic::div_mod::lemma_fundamental_div_mod(h as int, 10);
    vstd::arithmetic::div_mod::lemma_fundamental_div_mod(mi as int, 10);
    vstd::arithmetic::div_mod::lemma_fundamental_div_mod(sec as int, 10);
    vstd::arithmetic::div_mod::lemma_fundamental_div_mod(off as int, 60);
    vstd::arithmetic::div_mod::lemma_fundamental_div_mod((off / 60) as int, 10);
    vstd::arithmetic::div_mod::lemma_fundamental_div_mod((off % 60) as int, 10);
    assert(s[1] == char_of_digit(y / 100 / 10) && s[2] == char_of_digit(y / 100 % 10) && s[3]
        == char_of_digit(y % 100 / 10) && s[4] == char_of_digit(y % 100 % 10));
    crate::num::lemma_char_of_digit(y / 100 / 10);
    crate::num::lemma_char_of_digit(y / 100 % 10);
    crate::num::lemma_char_of_digit(y % 100 / 10);
    crate::num::lemma_char_of_digit(y % 100 % 10);
    crate::num::lemma_char_of_digit(mo / 10);
    crate::num::lemma_char_of_digit(mo % 10);
    crate::num::lemma_char_of_digit(d / 10);
    crate::num::lemma_char_of_digit(d % 10);
    crate::num::lemma_char_of_digit(h / 10);
    crate::num::lemma_char_of_digit(h % 10);
    crate::num::lemma_char_of_digit(mi / 10);
    crate::num::lemma_char_of_digit(mi % 10);
    crate::num::lemma_char_of_digit(sec / 10);
    crate::num::lemma_char_of_digit(sec % 10);
    crate::num::lemma_char_of_digit(off / 60 / 10);
    crate::num::lemma_char_of_digit(off / 60 % 10);
    crate::num::lemma_char_of_digit(off % 60 / 10);
    crate::num::lemma_char_of_digit(off % 60 % 10);
    assert(digit_val(s[1]) * 1000 + digit_val(s[2]) * 100 + digit_val(s[3]) * 10 + digit_val(s[4])
        == y);
    assert(digit_val(s[6]) * 10 + digit_val(s[7]) == mo);
    assert(digit_val(s[9]) * 10 + digit_val(s[10]) == d);
    assert(digit_val(s[12]) * 10 + digit_val(s[13]) == h);
    assert(digit_val(s[15]) * 10 + digit_val(s[16]) == mi);
    assert(digit_val(s[18]) * 10 + digit_val(s[19]) == sec);
    assert((digit_val(s[21]) * 10 + digit_val(s[22])) * 60 + digit_val(s[24]) * 10 + digit_val(
        s[25],
    ) == off);
    assert(s.skip(27) =~= rest);
    assert(parse_time(s) == Some((t, rest)));
}

/// Reading a status text recovers the status.
#[verifier::rlimit(100)]
proof fn lemma_parse_status_of(st: StatusView, rest: Seq<char>)
    ensures
        parse_status(ser_status(st) + rest) == Some((st, rest)),
{
    reveal_strlit("\"Todo\"");
    reveal_strlit("\"Complete\"");
    reveal_strlit("{ \"Other\": ");
    reveal_strlit(" }");
    let s = ser_status(st) + rest;
    match st {
        StatusView::Todo => {
            lemma_strip_prefix("\"Todo\""@, rest);
        },
        StatusView::Complete => {
            assert(strip_prefix(s, "\"Todo\""@) is None) by {
                if strip_prefix(s, "\"Todo\""@) is Some {
                    assert(s.take(6)[1] == 'T');
                    assert(s[1] == 'C');
                }
            }
            lemma_strip_prefix("\"Complete\""@, rest);
        },
        StatusView::Other(label) => {
            let open_lit = "{ \"Other\": "@;
            let close_lit = " }"@;
            assert(s =~= open_lit + (ser_string(label) + (close_lit + rest)));
            assert(strip_prefix(s, "\"Todo\""@) is None) by {
                if strip_prefix(s, "\"Todo\""@) is Some {
                    assert(s.take(6)[0] == '"');
                    assert(s[0] == '{');
                }
            }
            assert(strip_prefix(s, "\"Complete\""@) is None) by {
                if strip_prefix(s, "\"Complete\""@) is Some {
                    assert(s.take(10)[0] == '"');
                    assert(s[0] == '{');
                }
            }
            lemma_strip_prefix(open_lit, ser_string(label) + (close_lit + rest));
            lemma_parse_string_of(label, close_lit + rest);
            lemma_strip_prefix(close_lit, rest);
        },
    }
}

/// Reading a task object recovers the task.
#[verifier::rlimit(100)]
proof fn lemma_parse_task_of(t: TaskView, rest: Seq<char>)
    requires
        t.wf(),
    ensures
        parse_task(ser_task(t) + rest) == Some((t, rest)),
{
    let l1 = "{\n      \"description\": "@;
    let l2 = ",\n      \"status\": "@;
    let l3 = ",\n      \"created\": "@;
    let l4 = ",\n      \"updated\": "@;
    let l5 = "\n    }"@;
    let sd = ser_string(t.description);
    let sst = ser_status(t.status);
    let sc = ser_time(t.created);
    let su = ser_time(t.updated);
    let s = ser_task(t) + rest;
    let r5 = l5 + rest;
    let r4 = su + r5;
    let r3 = l4 + r4;
    let r2 = sc + r3;
    let r1 = l3 + r2;
    let r0 = sst + r1;
    let rb = l2 + r0;
    let ra = sd + rb;
    assert(s =~= l1 + ra);
    lemma_strip_prefix(l1, ra);
    lemma_parse_string_of(t.description, rb);
    assert(ser_string(t.description) + rb =~= ra);
    lemma_strip_prefix(l2, r0);
    lemma_parse_status_of(t.status, r1);
    assert(ser_status(t.status) + r1 =~= r0);
    lemma_strip_prefix(l3, r2);
    lemma_parse_time_of(t.created, r3);
    assert(ser_time(t.created) + r3 =~= r2);
    lemma_strip_prefix(l4, r4);
    lemma_parse_time_of(t.updated, r5);
    assert(ser_time(t.updated) + r5 =~= r4);
    lemma_strip_prefix(l5, rest);
    assert(parse_task(s) == Some((t, rest)));
}

/// Reading one entry recovers the identifier and the task.
#[verifier::rlimit(100)]
proof fn lemma_parse_entry_of(e: (u64, TaskView), rest: Seq<char>)
    requires
        e.1.wf(),
    ensures
        parse_entry(ser_entry(e) + rest) == Some((e, rest)),
{
    reveal(ser_entry);
    reveal_strlit("    \"");
    reveal_strlit("\": ");
    let l1 = "    \""@;
    let l2 = "\": "@;
    let num = dec_of(e.0 as nat);
    let st = ser_task(e.1);
    let s = ser_entry(e) + rest;
    let r2 = st + rest;
    let r1 = l2 + r2;
    let r0 = num + r1;
    assert(s =~= l1 + r0);
    lemma_strip_prefix(l1, r0);
    assert(r1[0] == '"');
    assert(!is_digit('"'));
    crate::num::lemma_parse_dec_of(e.0, r1);
    assert(dec_of(e.0 as nat) + r1 =~= r0);
    lemma_strip_prefix(l2, r2);
    lemma_parse_task_of(e.1, rest);
    assert(parse_entry(s) == Some((e, rest)));
}

/// Reading the entries after the first recovers them, when what follows
/// does not begin with a separator and the fuel covers the count.
#[verifier::rlimit(100)]
proof fn lemma_parse_entries_rest_of(m: Entries, rest: Seq<char>, fuel: nat)
    requires
        tasks_wf(m),
        fuel >= m.len(),
        rest.len() >= 1,
        rest[0] != ',',
    ensures
        parse_entries_rest(ser_entries_rest(m) + rest, fuel) == Some((m, rest)),
    decreases m.len(),
{
    reveal_strlit(",\n");
    let s = ser_entries_rest(m) + rest;
    if m.len() == 0 {
        assert(s =~= rest);
        assert(strip_prefix(rest, ",\n"@) is None) by {
            if strip_prefix(rest, ",\n"@) is Some {
                assert(rest.take(2)[0] == ',');
            }
        }
        assert(Seq::<(u64, TaskView)>::empty() =~= m);
    } else {
        let sep = ",\n"@;
        let e0 = ser_entry(m[0]);
        let restm = ser_entries_rest(m.skip(1));
        let r1 = e0 + (restm + rest);
        assert(s =~= sep + r1);
        lemma_strip_prefix(sep, r1);
        assert(m[0].1.wf());
        lemma_parse_entry_of(m[0], restm + rest);
        assert(ser_entry(m[0]) + (restm + rest) =~= r1);
        assert(tasks_wf(m.skip(1))) by {
            assert(forall|i: int| 0 <= i < m.skip(1).len() ==> m.skip(1)[i] == m[i + 1]);
        }
        lemma_parse_entries_rest_of(m.skip(1), rest, (fuel - 1) as nat);
        assert(seq![m[0]] + m.skip(1) =~= m);
        assert(parse_entries_rest(s, fuel) == Some((m, rest)));
    }
}

/// Reading the `tasks` object recovers the entries.
#[verifier::rlimit(100)]
proof fn lemma_parse_entries_of(m: Entries, rest: Seq<char>, fuel: nat)
    requires
        tasks_wf(m),
        fuel >= m.len(),
        rest.len() >= 1,
        rest[0] == '\n',
    ensures
        parse_entries(ser_entries(m) + rest, fuel) == Some((m, rest)),
{
    reveal_strlit("{}");
    reveal_strlit("{\n");
    reveal_strlit("\n  }");
    let s = ser_entries(m) + rest;
    if m.len() == 0 {
        assert(s =~= "{}"@ + rest);
        lemma_strip_prefix("{}"@, rest);
        assert(Seq::<(u64, TaskView)>::empty() =~= m);
    } else {
        let open_lit = "{\n"@;
        let close_lit = "\n  }"@;
        let e0 = ser_entry(m[0]);
        let restm = ser_entries_rest(m.skip(1));
        let r3 = close_lit + rest;
        let r2 = restm + r3;
        let r1 = e0 + r2;
        assert(s =~= open_lit + r1);
        assert(strip_prefix(s, "{}"@) is None) by {
            if strip_prefix(s, "{}"@) is Some {
                assert(s.take(2)[1] == '}');
                assert(s[1] == '\n');
            }
        }
        lemma_strip_prefix(open_lit, r1);
        assert(m[0].1.wf());
        lemma_parse_entry_of(m[0], r2);
        assert(ser_entry(m[0]) + r2 =~= r1);
        assert(tasks_wf(m.skip(1))) by {
            assert(forall|i: int| 0 <= i < m.skip(1).len() ==> m.skip(1)[i] == m[i + 1]);
        }
        assert(r3[0] == '\n');
        lemma_parse_entries_rest_of(m.skip(1), r3, fuel);
        assert(ser_entries_rest(m.skip(1)) + r3 =~= r2);
        lemma_strip_prefix(close_lit, rest);
        assert(seq![m[0]] + m.skip(1) =~= m);
        assert(parse_entries(s, fuel) == Some((m, rest)));
    }
}

/// The serialized entries are at least as long as their count.
proof fn lemma_ser_entries_rest_len(m: Entries)
    ensures
        ser_entries_rest(m).len() >= m.len(),
    decreases m.len(),
{
    reveal_strlit(",\n");
    if m.len() > 0 {
        lemma_ser_entries_rest_len(m.skip(1));
    }
}

/// Two stores with the same document are the same store: the document
/// determines its entries.
pub proof fn lemma_document_injective(a: Entries, b: Entries)
    requires
        ids_unique(a),
        tasks_wf(a),
        ids_unique(b),
        tasks_wf(b),
        ser_doc(a) == ser_doc(b),
    ensures
        a == b,
{
    lemma_document_round_trip(a);
    lemma_document_round_trip(b);
}

/// Round trip: reading back the document written for a store yields
/// exactly the store's entries — the same identifiers, descriptions,
/// statuses and timestamps.
#[verifier::rlimit(100)]
pub proof fn lemma_document_round_trip(m: Entries)
    requires
        ids_unique(m),
        tasks_wf(m),
    ensures
        parse_doc(ser_doc(m)) == Some(m),
{
    reveal_strlit("{\n  \"tasks\": ");
    reveal_strlit("\n}");
    let pre = "{\n  \"tasks\": "@;
    let close_lit = "\n}"@;
    let s = ser_doc(m);
    let r1 = ser_entries(m) + close_lit;
    assert(s =~= pre + r1);
    lemma_strip_prefix(pre, r1);
    assert(s.len() >= m.len()) by {
        if m.len() > 0 {
            lemma_ser_entries_rest_len(m.skip(1));
            assert(ser_entries(m).len() >= m.len() - 1);
            assert(pre.len() == 13);
        }
    }
    assert(close_lit[0] == '\n');
    lemma_parse_entries_of(m, close_lit, s.len() as nat);
    assert(ser_entries(m) + close_lit =~= r1);
    lemma_strip_prefix(close_lit, Seq::<char>::empty());
    assert(close_lit + Seq::<char>::empty() =~= close_lit);
    assert(parse_doc(s) == Some(m));
}

// ---------------------------------------------------------------------
// The reader.
//
// Each scanning function mirrors one spec parse function exactly, in both
// directions: a result is returned precisely when the spec function
// accepts, and it is the spec function's result. The reader as a whole is
// therefore proved complete as well as sound: it rejects a text exactly
// when `parse_doc` does.
// ---------------------------------------------------------------------
/// The position after a literal at `pos`, exactly when the text carries it
/// there.
fn eat_lit(v: &Vec<char>, pos: usize, lit: &str) -> (r: Option<usize>)
    requires
        pos <= v.len(),
    ensures
        match r {
            Some(p2) => p2 == pos + lit@.len() && p2 <= v.len() && strip_prefix(
                v@.skip(pos as int),
                lit@,
            ) == Some(v@.skip(p2 as int)),
            None => strip_prefix(v@.skip(pos as int), lit@) is None,
        },
{
    let ghost s = v@.skip(pos as int);
    let n = lit.unicode_len();
    if n > v.len() - pos {
        proof {
            assert(s.len() < lit@.len());
        }
        return None;
    }
    let mut i: usize = 0;
    while i < n
        invariant
            i <= n,
            n == lit@.len(),
            pos + n <= v.len(),
            s == v@.skip(pos as int),
            forall|j: int| 0 <= j < i ==> s[j] == lit@[j],
        decreases n - i,
    {
        let c = lit.get_char(i);
        if v[pos + i] != c {
            proof {
                assert(s[i as int] == v@[pos + i]);
                assert(strip_prefix(s, lit@) is None) by {
                    if strip_prefix(s, lit@) is Some {
                        assert(s.take(lit@.len() as int)[i as int] == lit@[i as int]);
                    }
                }
            }
            return None;
        }
        proof {
            assert(s[i as int] == v@[pos + i]);
        }
        i += 1;
    }
    proof {
        assert(s.take(n as int) =~= lit@);
        assert(s.skip(n as int) =~= v@.skip((pos + n) as int));
    }
    Some(pos + n)
}

/// A decimal number at `pos`, exactly as `spec_parse_dec` reads it.
fn scan_u64(v: &Vec<char>, pos: usize) -> (r: Option<(u64, usize)>)
    requires
        pos <= v.len(),
    ensures
        match r {
            Some(p) => pos <= p.1 <= v.len() && crate::num::spec_parse_dec(v@.skip(pos as int))
                == Some((p.0, v@.skip(p.1 as int))),
            None => crate::num::spec_parse_dec(v@.skip(pos as int)) is None,
        },
{
    let ghost s = v@.skip(pos as int);
    let mut p = pos;
    let mut acc: u64 = 0;
    loop
        invariant
            pos <= p <= v.len(),
            s == v@.skip(pos as int),
            crate::num::all_digits(v@.subrange(pos as int, p as int)),
            acc == crate::num::dec_val(v@.subrange(pos as int, p as int)),
        ensures
            pos <= p <= v.len(),
            crate::num::all_digits(v@.subrange(pos as int, p as int)),
            acc == crate::num::dec_val(v@.subrange(pos as int, p as int)),
            p == v.len() || !is_digit(v@[p as int]),
        decreases v.len() - p,
    {
        if p == v.len() {
            break ;
        }
        let u = v[p] as u32;
        if u < 48 || u > 57 {
            break ;
        }
        let ghost digits = v@.subrange(pos as int, p as int);
        proof {
            assert(is_digit(v@[p as int]));
            assert(digit_val(v@[p as int]) == u - 48);
            assert(v@.subrange(pos as int, p + 1) =~= digits.push(v@[p as int]));
            assert(v@.subrange(pos as int, p + 1).drop_last() =~= digits);
        }
        let d = (u - 48) as u64;
        if acc > (u64::MAX - d) / 10 {
            proof {
                vstd::arithmetic::div_mod::lemma_fundamental_div_mod((u64::MAX - d) as int, 10);
                assert(acc * 10 + d > u64::MAX);
                let k = p + 1 - pos;
                assert(forall|j: int| 0 <= j < k ==> is_digit(#[trigger] s[j]));
                crate::num::lemma_take_digits_lower(s, k);
                assert(s.take(k) =~= v@.subrange(pos as int, p + 1));
                crate::num::lemma_dec_val_prefix(crate::num::take_digits(s).0, k);
                assert(crate::num::dec_val(crate::num::take_digits(s).0.take(k)) == acc * 10 + d);
                assert(crate::num::dec_val(crate::num::take_digits(s).0) > u64::MAX);
            }
            return None;
        }
        proof {
            assert(acc * 10 + d <= u64::MAX) by (nonlinear_arith)
                requires
                    acc <= (u64::MAX - d) / 10,
                    d <= 9,
            ;
        }
        acc = acc * 10 + d;
        p += 1;
    }
    proof {
        assert(s =~= v@.subrange(pos as int, p as int) + v@.skip(p as int));
        if p < v.len() {
            assert(v@.skip(p as int)[0] == v@[p as int]);
            assert(!is_digit(v@[p as int]));
        } else {
            assert(v@.skip(p as int).len() == 0);
        }
        crate::num::lemma_take_digits_prefix(v@.subrange(pos as int, p as int), v@.skip(p as int));
    }
    if p == pos {
        proof {
            assert(v@.subrange(pos as int, pos as int).len() == 0);
        }
        None
    } else {
        Some((acc, p))
    }
}

/// The value of a hexadecimal digit character, either case, exactly as
/// `hex_val` reads it.
fn hex_digit_val(c: char) -> (r: Option<u32>)
    ensures
        match r {
            Some(h) => is_hex(c) && h == hex_val(c),
            None => !is_hex(c),
        },
{
    let u = c as u32;
    if 48 <= u && u <= 57 {
        Some(u - 48)
    } else if 97 <= u && u <= 102 {
        Some(u - 97 + 10)
    } else if 65 <= u && u <= 70 {
        Some(u - 65 + 10)
    } else {
        None
    }
}

/// Relies on `char::from_u32`: a character exactly for Unicode scalar
/// values (not a surrogate, at most the largest code point), carrying the
/// given code.
#[verifier::external_body]
fn char_of_code(code: u32) -> (r: Option<char>)
    ensures
        match r {
            Some(c) => c as u32 == code && is_scalar_code(code as nat),
            None => !is_scalar_code(code as nat),
        },
{
    char::from_u32(code)
}

/// What a parse of the rest adds to already-read string characters.
spec fn compose_body(prefix: Seq<char>, rest: Option<(Seq<char>, Seq<char>)>) -> Option<
    (Seq<char>, Seq<char>),
> {
    match rest {
        Some((t, r)) => Some((prefix + t, r)),
        None => None,
    }
}

/// A quoted string's body starting at `pos` (after its opening quote),
/// exactly as `parse_string_body` reads it.
#[verifier::rlimit(100)]
fn scan_string(v: &Vec<char>, pos: usize) -> (r: Option<(Vec<char>, usize)>)
    requires
        pos <= v.len(),
    ensures
        match r {
            Some(p) => pos <= p.1 <= v.len() && parse_string_body(v@.skip(pos as int)) == Some(
                (p.0@, v@.skip(p.1 as int)),
            ),
            None => parse_string_body(v@.skip(pos as int)) is None,
        },
{
    let mut out: Vec<char> = Vec::new();
    let mut p = pos;
    proof {
        assert(compose_body(out@, parse_string_body(v@.skip(pos as int))) == parse_string_body(
            v@.skip(pos as int),
        )) by {
            if parse_string_body(v@.skip(pos as int)) is Some {
                let (t, r) = parse_string_body(v@.skip(pos as int))->Some_0;
                assert(out@ + t =~= t);
            }
        }
    }
    loop
        invariant
            pos <= p <= v.len(),
            parse_string_body(v@.skip(pos as int)) == compose_body(
                out@,
                parse_string_body(v@.skip(p as int)),
            ),
        decreases v.len() - p,
    {
        let ghost s = v@.skip(p as int);
        let ghost before = out@;
        if p >= v.len() {
            proof {
                assert(s.len() == 0);
            }
            return None;
        }
        proof {
            assert(s[0] == v@[p as int]);
        }
        let c = v[p];
        if c == '"' {
            proof {
                assert(parse_string_body(s) == Some((Seq::<char>::empty(), s.skip(1))));
                assert(s.skip(1) =~= v@.skip(p + 1));
                assert(before + Seq::<char>::empty() =~= before);
            }
            return Some((out, p + 1));
        } else if c == '\\' {
            if v.len() - p < 2 {
                proof {
                    assert(s.len() < 2);
                }
                return None;
            }
            proof {
                assert(s[1] == v@[p + 1]);
            }
            let e = v[p + 1];
            if e == 'u' {
                if v.len() - p < 6 {
                    proof {
                        assert(s.len() < 6);
                    }
                    return None;
                }
                proof {
                    assert(s[2] == v@[p + 2] && s[3] == v@[p + 3] && s[4] == v@[p + 4] && s[5]
                        == v@[p + 5]);
                }
                let h0 = match hex_digit_val(v[p + 2]) {
                    Some(h) => h,
                    None => { return None; },
                };
                let h1 = match hex_digit_val(v[p + 3]) {
                    Some(h) => h,
                    None => { return None; },
                };
                let h2 = match hex_digit_val(v[p + 4]) {
                    Some(h) => h,
                    None => { return None; },
                };
                let h3 = match hex_digit_val(v[p + 5]) {
                    Some(h) => h,
                    None => { return None; },
                };
                let code = h0 * 4096 + h1 * 256 + h2 * 16 + h3;
                let ch = match char_of_code(code) {
                    Some(ch) => ch,
                    None => { return None; },
                };
                proof {
                    vstd::utf8::char_u32_cast(ch, code);
                    assert(parse_string_body(s) == compose_body(
                        seq![ch],
                        parse_string_body(s.skip(6)),
                    ));
                    assert(s.skip(6) =~= v@.skip(p + 6));
                }
                out.push(ch);
                proof {
                    lemma_compose_body_assoc(before, seq![ch], parse_string_body(v@.skip(p + 6)));
                    assert(before.push(ch) =~= before + seq![ch]);
                }
                p += 6;
            } else {
                let ch = if e == '"' {
                    '"'
                } else if e == '\\' {
                    '\\'
                } else if e == '/' {
                    '/'
                } else if e == 'n' {
                    '\n'
                } else if e == 'r' {
                    '\r'
                } else if e == 't' {
                    '\t'
                } else if e == 'b' {
                    '\u{8}'
                } else if e == 'f' {
                    '\u{c}'
                } else {
                    proof {
                        assert(unescape_short(s[1]) is None);
                    }
                    return None;
                };
                proof {
                    assert(unescape_short(s[1]) == Some(ch));
                    assert(parse_string_body(s) == compose_body(
                        seq![ch],
                        parse_string_body(s.skip(2)),
                    ));
                    assert(s.skip(2) =~= v@.skip(p + 2));
                }
                out.push(ch);
                proof {
                    lemma_compose_body_assoc(before, seq![ch], parse_string_body(v@.skip(p + 2)));
                    assert(before.push(ch) =~= before + seq![ch]);
                }
                p += 2;
            }
        } else {
            proof {
                assert(parse_string_body(s) == compose_body(
                    seq![s[0]],
                    parse_string_body(s.skip(1)),
                ));
                assert(s.skip(1) =~= v@.skip(p + 1));
            }
            out.push(c);
            proof {
                lemma_compose_body_assoc(before, seq![c], parse_string_body(v@.skip(p + 1)));
                assert(before.push(c) =~= before + seq![c]);
            }
            p += 1;
        }
    }
}

/// Prepending already-read characters composes.
proof fn lemma_compose_body_assoc(
    a: Seq<char>,
    b: Seq<char>,
    rest: Option<(Seq<char>, Seq<char>)>,
)
    ensures
        compose_body(a, compose_body(b, rest)) == compose_body(a + b, rest),
{
    if rest is Some {
        let (t, r) = rest->Some_0;
        assert(a + (b + t) =~= (a + b) + t);
    }
}

/// The digit at `pos`, exactly when the text carries one there.
fn scan_digit(v: &Vec<char>, pos: usize) -> (r: Option<u64>)
    requires
        pos < v.len(),
    ensures
        match r {
            Some(d) => is_digit(v@[pos as int]) && d == digit_val(v@[pos as int]) && d < 10,
            None => !is_digit(v@[pos as int]),
        },
{
    let c = v[pos];
    let u = c as u32;
    proof {
        vstd::utf8::char_is_scalar(c);
        assert(u == v@[pos as int] as u32);
    }
    if 48 <= u && u <= 57 {
        Some((u - 48) as u64)
    } else {
        None
    }
}

/// A two-digit field at `pos`, exactly when the text carries one there.
fn scan_two(v: &Vec<char>, pos: usize) -> (r: Option<u64>)
    requires
        pos + 2 <= v.len(),
    ensures
        match r {
            Some(n) => is_digit(v@[pos as int]) && is_digit(v@[pos + 1]) && n == digit_val(
                v@[pos as int],
            ) * 10 + digit_val(v@[pos + 1]) && n < 100,
            None => !(is_digit(v@[pos as int]) && is_digit(v@[pos + 1])),
        },
{
    let a = match scan_digit(v, pos) {
        Some(d) => d,
        None => { return None; },
    };
    let b = match scan_digit(v, pos + 1) {
        Some(d) => d,
        None => { return None; },
    };
    Some(a * 10 + b)
}

/// A timestamp text at `pos`, exactly as `parse_time` reads it.
#[verifier::rlimit(100)]
fn scan_time(v: &Vec<char>, pos: usize) -> (r: Option<(Timestamp, usize)>)
    requires
        pos <= v.len(),
    ensures
        match r {
            Some(p) => p.0.wf() && p.1 == pos + 27 && p.1 <= v.len() && parse_time(
                v@.skip(pos as int),
            ) == Some((p.0, v@.skip(p.1 as int))),
            None => parse_time(v@.skip(pos as int)) is None,
        },
{
    let ghost s = v@.skip(pos as int);
    proof {
        assert(forall|k: int| 0 <= k < s.len() ==> s[k] == v@[pos + k]);
    }
    if v.len() - pos < 27 {
        return None;
    }
    if v[pos] != '"' || v[pos + 5] != '-' || v[pos + 8] != '-' || v[pos + 11] != 'T' || v[pos + 14]
        != ':' || v[pos + 17] != ':' || v[pos + 23] != ':' || v[pos + 26] != '"' {
        return None;
    }
    let y_hi = match scan_two(v, pos + 1) {
        Some(n) => n,
        None => { return None; },
    };
    let y_lo = match scan_two(v, pos + 3) {
        Some(n) => n,
        None => { return None; },
    };
    let month = match scan_two(v, pos + 6) {
        Some(n) => n,
        None => { return None; },
    };
    let day = match scan_two(v, pos + 9) {
        Some(n) => n,
        None => { return None; },
    };
    let hour = match scan_two(v, pos + 12) {
        Some(n) => n,
        None => { return None; },
    };
    let minute = match scan_two(v, pos + 15) {
        Some(n) => n,
        None => { return None; },
    };
    let second = match scan_two(v, pos + 18) {
        Some(n) => n,
        None => { return None; },
    };
    let sign = v[pos + 20];
    if sign != '+' && sign != '-' {
        return None;
    }
    let oh = match scan_two(v, pos + 21) {
        Some(n) => n,
        None => { return None; },
    };
    let om = match scan_two(v, pos + 24) {
        Some(n) => n,
        None => { return None; },
    };
    let year = y_hi * 100 + y_lo;
    let total = oh * 60 + om;
    if !(1 <= month && month <= 12 && 1 <= day && day <= 31 && hour <= 23 && minute <= 59 && second
        <= 59 && total <= 1439) {
        return None;
    }
    let off: i16 = if sign == '-' {
        -(total as i16)
    } else {
        total as i16
    };
    let ts = Timestamp {
        year: year as u16,
        month: month as u8,
        day: day as u8,
        hour: hour as u8,
        minute: minute as u8,
        second: second as u8,
        offset_minutes: off,
    };
    proof {
        assert(s.skip(27) =~= v@.skip(pos + 27));
    }
    Some((ts, pos + 27))
}

/// A status value at `pos`, exactly as `parse_status` reads it.
fn scan_status(v: &Vec<char>, pos: usize) -> (r: Option<(crate::status::TaskStatus, usize)>)
    requires
        pos <= v.len(),
    ensures
        match r {
            Some(p) => pos <= p.1 <= v.len() && parse_status(v@.skip(pos as int)) == Some(
                (p.0@, v@.skip(p.1 as int)),
            ),
            None => parse_status(v@.skip(pos as int)) is None,
        },
{
    if let Some(p) = eat_lit(v, pos, "\"Todo\"") {
        return Some((crate::status::TaskStatus::Todo, p));
    }
    if let Some(p) = eat_lit(v, pos, "\"Complete\"") {
        return Some((crate::status::TaskStatus::Complete, p));
    }
    let p = match eat_lit(v, pos, "{ \"Other\": ") {
        Some(p) => p,
        None => { return None; },
    };
    let ghost sub = v@.skip(p as int);
    if v.len() - p < 1 || v[p] != '"' {
        proof {
            if sub.len() >= 1 {
                assert(sub[0] == v@[p as int]);
            }
        }
        return None;
    }
    proof {
        assert(sub[0] == v@[p as int]);
        assert(sub.skip(1) =~= v@.skip(p + 1));
    }
    let (label, p) = match scan_string(v, p + 1) {
        Some(x) => x,
        None => { return None; },
    };
    let p = match eat_lit(v, p, " }") {
        Some(p) => p,
        None => { return None; },
    };
    Some((crate::status::TaskStatus::Other(chars_string(&label)), p))
}

/// A task object at `pos`, exactly as `parse_task` reads it.
fn scan_task(v: &Vec<char>, pos: usize) -> (r: Option<(crate::task::Task, usize)>)
    requires
        pos <= v.len(),
    ensures
        match r {
            Some(p) => p.0@.wf() && pos <= p.1 <= v.len() && parse_task(v@.skip(pos as int))
                == Some((p.0@, v@.skip(p.1 as int))),
            None => parse_task(v@.skip(pos as int)) is None,
        },
{
    let p = match eat_lit(v, pos, "{\n      \"description\": ") {
        Some(p) => p,
        None => { return None; },
    };
    let ghost sub = v@.skip(p as int);
    if v.len() - p < 1 || v[p] != '"' {
        proof {
            if sub.len() >= 1 {
                assert(sub[0] == v@[p as int]);
            }
        }
        return None;
    }
    proof {
        assert(sub[0] == v@[p as int]);
        assert(sub.skip(1) =~= v@.skip(p + 1));
    }
    let (descr, p) = match scan_string(v, p + 1) {
        Some(x) => x,
        None => { return None; },
    };
    let p = match eat_lit(v, p, ",\n      \"status\": ") {
        Some(p) => p,
        None => { return None; },
    };
    let (status, p) = match scan_status(v, p) {
        Some(x) => x,
        None => { return None; },
    };
    let p = match eat_lit(v, p, ",\n      \"created\": ") {
        Some(p) => p,
        None => { return None; },
    };
    let (created, p) = match scan_time(v, p) {
        Some(x) => x,
        None => { return None; },
    };
    let p = match eat_lit(v, p, ",\n      \"updated\": ") {
        Some(p) => p,
        None => { return None; },
    };
    let (updated, p) = match scan_time(v, p) {
        Some(x) => x,
        None => { return None; },
    };
    let p = match eat_lit(v, p, "\n    }") {
        Some(p) => p,
        None => { return None; },
    };
    let task = crate::task::Task { description: chars_string(&descr), status, created, updated };
    Some((task, p))
}

/// One entry at `pos`, exactly as `parse_entry` reads it.
fn scan_entry(v: &Vec<char>, pos: usize) -> (r: Option<((u64, crate::task::Task), usize)>)
    requires
        pos <= v.len(),
    ensures
        match r {
            Some(p) => p.0.1@.wf() && pos <= p.1 <= v.len() && parse_entry(v@.skip(pos as int))
                == Some(((p.0.0, p.0.1@), v@.skip(p.1 as int))),
            None => parse_entry(v@.skip(pos as int)) is None,
        },
{
    let p = match eat_lit(v, pos, "    \"") {
        Some(p) => p,
        None => { return None; },
    };
    let (id, p) = match scan_u64(v, p) {
        Some(x) => x,
        None => { return None; },
    };
    let p = match eat_lit(v, p, "\": ") {
        Some(p) => p,
        None => { return None; },
    };
    let (task, p) = match scan_task(v, p) {
        Some(x) => x,
        None => { return None; },
    };
    Some(((id, task), p))
}

/// What a parse of the remaining entries adds to already-read ones.
spec fn compose_entries(prefix: Entries, rest: Option<(Entries, Seq<char>)>) -> Option<
    (Entries, Seq<char>),
> {
    match rest {
        Some((es, r)) => Some((prefix + es, r)),
        None => None,
    }
}

/// Prepending already-read entries composes.
proof fn lemma_compose_entries_assoc(a: Entries, b: Entries, rest: Option<(Entries, Seq<char>)>)
    ensures
        compose_entries(a, compose_entries(b, rest)) == compose_entries(a + b, rest),
{
    if rest is Some {
        let (es, r) = rest->Some_0;
        assert(a + (b + es) =~= (a + b) + es);
    }
}

/// The entries after the first, exactly as `parse_entries_rest` reads
/// them with the given fuel. The executable fuel counter mirrors the spec
/// function's, so the two run out together.
#[verifier::loop_isolation(false)]
fn scan_entries_rest(v: &Vec<char>, start: usize, fuel: usize) -> (r: Option<
    (Vec<(u64, crate::task::Task)>, usize),
>)
    requires
        start <= v.len(),
    ensures
        match r {
            Some(p) => p.1 <= v.len() && tasks_wf(pairs_view(p.0@)) && parse_entries_rest(
                v@.skip(start as int),
                fuel as nat,
            ) == Some((pairs_view(p.0@), v@.skip(p.1 as int))),
            None => parse_entries_rest(v@.skip(start as int), fuel as nat) is None,
        },
{
    let mut acc: Vec<(u64, crate::task::Task)> = Vec::new();
    let mut p = start;
    let mut f = fuel;
    proof {
        assert(pairs_view(acc@) =~= Seq::<(u64, TaskView)>::empty());
        assert(compose_entries(
            pairs_view(acc@),
            parse_entries_rest(v@.skip(start as int), fuel as nat),
        ) == parse_entries_rest(v@.skip(start as int), fuel as nat)) by {
            if parse_entries_rest(v@.skip(start as int), fuel as nat) is Some {
                let (es, rr) = parse_entries_rest(v@.skip(start as int), fuel as nat)->Some_0;
                assert(pairs_view(acc@) + es =~= es);
            }
        }
    }
    loop
        invariant
            start <= p <= v.len(),
            f <= fuel,
            tasks_wf(pairs_view(acc@)),
            parse_entries_rest(v@.skip(start as int), fuel as nat) == compose_entries(
                pairs_view(acc@),
                parse_entries_rest(v@.skip(p as int), f as nat),
            ),
        decreases f,
    {
        let ghost done = pairs_view(acc@);
        match eat_lit(v, p, ",\n") {
            Some(q2) => {
                if f == 0 {
                    proof {
                        assert(parse_entries_rest(v@.skip(p as int), f as nat) is None);
                    }
                    return None;
                }
                let (e, q3) = match scan_entry(v, q2) {
                    Some(x) => x,
                    None => {
                        proof {
                            assert(parse_entries_rest(v@.skip(p as int), f as nat) is None);
                        }
                        return None;
                    },
                };
                let ghost e_view = (e.0, e.1@);
                proof {
                    assert(parse_entries_rest(v@.skip(p as int), f as nat) == compose_entries(
                        seq![e_view],
                        parse_entries_rest(v@.skip(q3 as int), (f - 1) as nat),
                    ));
                }
                acc.push(e);
                proof {
                    lemma_compose_entries_assoc(
                        done,
                        seq![e_view],
                        parse_entries_rest(v@.skip(q3 as int), (f - 1) as nat),
                    );
                    assert(pairs_view(acc@) =~= done + seq![e_view]);
                    assert(tasks_wf(pairs_view(acc@))) by {
                        assert(forall|a: int|
                            0 <= a < pairs_view(acc@).len() ==> #[trigger] pairs_view(acc@)[a]
                                == (acc@[a].0, acc@[a].1@));
                    }
                }
                p = q3;
                f = f - 1;
            },
            None => {
                proof {
                    assert(parse_entries_rest(v@.skip(p as int), f as nat) == Some(
                        (Seq::<(u64, TaskView)>::empty(), v@.skip(p as int)),
                    ));
                    assert(done + Seq::<(u64, TaskView)>::empty() =~= done);
                }
                return Some((acc, p));
            },
        }
    }
}

/// Read a store back from a document's characters.
///
/// The reader is the executable form of [`parse_doc`], in both directions:
/// it returns a store exactly when the text is an accepted document, and
/// then returns the store that document denotes. With
/// [`lemma_document_round_trip`], reloading a written document always
/// succeeds and yields the written store.
#[verifier::rlimit(100)]
#[verifier::loop_isolation(false)]
pub fn parse_document(text: &Vec<char>) -> (r: Result<TaskStore, DocumentCorrupt>)
    ensures
        match r {
            Ok(store) => store.wf() && parse_doc(text@) == Some(store@),
            Err(_) => parse_doc(text@) is None,
        },
{
    let v = text;
    let ghost fuel0 = v@.len();
    let mut entries: Vec<(u64, crate::task::Task)>;
    proof {
        assert(v@.skip(0) =~= v@);
    }
    let p0 = match eat_lit(v, 0, "{\n  \"tasks\": ") {
        Some(p) => p,
        None => { return Err(DocumentCorrupt); },
    };
    let mut p: usize;
    match eat_lit(v, p0, "{}") {
        Some(q) => {
            entries = Vec::new();
            p = q;
            proof {
                assert(parse_entries(v@.skip(p0 as int), fuel0) == Some(
                    (Seq::<(u64, TaskView)>::empty(), v@.skip(q as int)),
                ));
                assert(pairs_view(entries@) =~= Seq::<(u64, TaskView)>::empty());
                assert(tasks_wf(pairs_view(entries@)));
            }
        },
        None => {
            let q = match eat_lit(v, p0, "{\n") {
                Some(q) => q,
                None => { return Err(DocumentCorrupt); },
            };
            let (first, q) = match scan_entry(v, q) {
                Some(x) => x,
                None => { return Err(DocumentCorrupt); },
            };
            let ghost first_view = (first.0, first.1@);
            let (rest, q2) = match scan_entries_rest(v, q, v.len()) {
                Some(x) => x,
                None => {
                    proof {
                        assert(parse_entries(v@.skip(p0 as int), fuel0) is None);
                    }
                    return Err(DocumentCorrupt);
                },
            };
            let q3 = match eat_lit(v, q2, "\n  }") {
                Some(x) => x,
                None => {
                    proof {
                        assert(parse_entries(v@.skip(p0 as int), fuel0) is None);
                    }
                    return Err(DocumentCorrupt);
                },
            };
            entries = Vec::new();
            entries.push(first);
            let mut rest = rest;
            let ghost rest_view = pairs_view(rest@);
            entries.append(&mut rest);
            p = q3;
            proof {
                assert(pairs_view(entries@) =~= seq![first_view] + rest_view);
                assert(tasks_wf(pairs_view(entries@))) by {
                    assert(forall|a: int|
                        0 <= a < pairs_view(entries@).len() ==> ((
                        #[trigger] pairs_view(entries@)[a]).1).wf()) by {
                        assert(forall|a: int|
                            1 <= a < (seq![first_view] + rest_view).len() ==> (seq![first_view]
                                + rest_view)[a] == rest_view[a - 1]);
                    }
                }
                assert(parse_entries(v@.skip(p0 as int), fuel0) == Some(
                    (pairs_view(entries@), v@.skip(q3 as int)),
                ));
            }
        },
    }
    let p = match eat_lit(v, p, "\n}") {
        Some(q) => q,
        None => {
            proof {
                assert(parse_doc(text@) is None);
            }
            return Err(DocumentCorrupt);
        },
    };
    if p != v.len() {
        proof {
            assert(v@.skip(p as int).len() > 0);
            assert(parse_doc(text@) is None);
        }
        return Err(DocumentCorrupt);
    }
    proof {
        assert(v@.skip(p as int).len() == 0);
    }
    // Reject a repeated identifier: the store is a mapping.
    let ghost m = pairs_view(entries@);
    let mut i: usize = 0;
    while i < entries.len()
        invariant
            i <= entries@.len(),
            forall|a: int, b: int| 0 <= a < b < i ==> m[a].0 != m[b].0,
        decreases entries@.len() - i,
    {
        let mut j: usize = 0;
        while j < i
            invariant
                j <= i < entries@.len(),
                forall|b: int| 0 <= b < j ==> m[b].0 != m[i as int].0,
            decreases i - j,
        {
            proof {
                assert(m[j as int] == (entries@[j as int].0, entries@[j as int].1@));
                assert(m[i as int] == (entries@[i as int].0, entries@[i as int].1@));
            }
            if entries[j].0 == entries[i].0 {
                proof {
                    assert(!ids_unique(m));
                    assert(parse_doc(text@) is None);
                }
                return Err(DocumentCorrupt);
            }
            j += 1;
        }
        i += 1;
    }
    let store = TaskStore { entries };
    proof {
        assert(store@ == m);
        assert(ids_unique(m));
        assert(tasks_wf(m));
        assert(parse_doc(text@) == Some(m));
    }
    Ok(store)
}

/// Write the document as a string.
pub fn document_string(store: &TaskStore) -> (r: String)
    requires
        tasks_wf(store@),
    ensures
        r@ == ser_doc(store@),
{
    let out = serialize_document(store);
    chars_string(&out)
}

/// Read a store back from a document string.
pub fn parse_document_str(text: &str) -> (r: Result<TaskStore, DocumentCorrupt>)
    ensures
        match r {
            Ok(store) => store.wf() && parse_doc(text@) == Some(store@),
            Err(_) => parse_doc(text@) is None,
        },
{
    let chars = str_chars(text);
    parse_document(&chars)
}

} // verus!
