//! The JSON wire shape of a failure report.
//!
//! The control plane expects one fixed JSON object per failure:
//! `{"errorMessage": <text>, "errorType": "Handled" | "Unhandled",
//! "stackTrace": [<line>, ...] | null}`. This module pins that shape down:
//! `encode_response` says exactly which character sequence a report encodes
//! to, `parse_response` says exactly which sequences decode and to what, and
//! the round-trip law ties the two together.

use vstd::prelude::*;

use crate::report::ErrorResponse;
use crate::unifier::push_char;
use vstd::string::StrSliceExecFns;
use vstd::string::StringExecFns;

verus! {

/// One hexadecimal digit, lower case; meaningful for `n < 16`.
pub open spec fn hex_digit(n: u32) -> char {
    if n == 0 {
        '0'
    } else if n == 1 {
        '1'
    } else if n == 2 {
        '2'
    } else if n == 3 {
        '3'
    } else if n == 4 {
        '4'
    } else if n == 5 {
        '5'
    } else if n == 6 {
        '6'
    } else if n == 7 {
        '7'
    } else if n == 8 {
        '8'
    } else if n == 9 {
        '9'
    } else if n == 10 {
        'a'
    } else if n == 11 {
        'b'
    } else if n == 12 {
        'c'
    } else if n == 13 {
        'd'
    } else if n == 14 {
        'e'
    } else {
        'f'
    }
}

/// The value of a lower-case hexadecimal digit; `16` marks a non-digit.
pub open spec fn unhex(c: char) -> u32 {
    if c == '0' {
        0
    } else if c == '1' {
        1
    } else if c == '2' {
        2
    } else if c == '3' {
        3
    } else if c == '4' {
        4
    } else if c == '5' {
        5
    } else if c == '6' {
        6
    } else if c == '7' {
        7
    } else if c == '8' {
        8
    } else if c == '9' {
        9
    } else if c == 'a' {
        10
    } else if c == 'b' {
        11
    } else if c == 'c' {
        12
    } else if c == 'd' {
        13
    } else if c == 'e' {
        14
    } else if c == 'f' {
        15
    } else {
        16
    }
}

/// The control character with code `n`; meaningful for `n < 32`.
pub open spec fn ctrl_char(n: int) -> char {
    if n == 0 {
        '\u{0}'
    } else if n == 1 {
        '\u{1}'
    } else if n == 2 {
        '\u{2}'
    } else if n == 3 {
        '\u{3}'
    } else if n == 4 {
        '\u{4}'
    } else if n == 5 {
        '\u{5}'
    } else if n == 6 {
        '\u{6}'
    } else if n == 7 {
        '\u{7}'
    } else if n == 8 {
        '\u{8}'
    } else if n == 9 {
        '\u{9}'
    } else if n == 10 {
        '\u{a}'
    } else if n == 11 {
        '\u{b}'
    } else if n == 12 {
        '\u{c}'
    } else if n == 13 {
        '\u{d}'
    } else if n == 14 {
        '\u{e}'
    } else if n == 15 {
        '\u{f}'
    } else if n == 16 {
        '\u{10}'
    } else if n == 17 {
        '\u{11}'
    } else if n == 18 {
        '\u{12}'
    } else if n == 19 {
        '\u{13}'
    } else if n == 20 {
        '\u{14}'
    } else if n == 21 {
        '\u{15}'
    } else if n == 22 {
        '\u{16}'
    } else if n == 23 {
        '\u{17}'
    } else if n == 24 {
        '\u{18}'
    } else if n == 25 {
        '\u{19}'
    } else if n == 26 {
        '\u{1a}'
    } else if n == 27 {
        '\u{1b}'
    } else if n == 28 {
        '\u{1c}'
    } else if n == 29 {
        '\u{1d}'
    } else if n == 30 {
        '\u{1e}'
    } else if n == 31 {
        '\u{1f}'
    } else {
        ' '
    }
}

/// The character a two-character escape stands for; meaningful for the five
/// simple escape codes.
pub open spec fn unesc2(c: char) -> char {
    if c == '"' {
        '"'
    } else if c == '\\' {
        '\\'
    } else if c == 'n' {
        '\n'
    } else if c == 'r' {
        '\r'
    } else {
        '\t'
    }
}

/// Whether `c` is one of the five simple escape codes.
pub open spec fn is_simple_code(c: char) -> bool {
    c == '"' || c == '\\' || c == 'n' || c == 'r' || c == 't'
}

/// The JSON escape of one character inside a string literal: quote,
/// backslash and the common control characters get a two-character escape,
/// the remaining control characters a `\u00..` escape, and every other
/// character stands for itself.
pub open spec fn escape_char(c: char) -> Seq<char> {
    if c == '"' {
        seq!['\\', '"']
    } else if c == '\\' {
        seq!['\\', '\\']
    } else if c == '\n' {
        seq!['\\', 'n']
    } else if c == '\r' {
        seq!['\\', 'r']
    } else if c == '\t' {
        seq!['\\', 't']
    } else if (c as u32) < 32 {
        seq!['\\', 'u', '0', '0', hex_digit((c as u32) / 16), hex_digit((c as u32) % 16)]
    } else {
        seq![c]
    }
}

/// The JSON escape of a whole text.
pub open spec fn escape_seq(s: Seq<char>) -> Seq<char>
    decreases s.len(),
{
    if s.len() == 0 {
        Seq::empty()
    } else {
        escape_char(s[0]) + escape_seq(s.skip(1))
    }
}

/// Scans the body of a JSON string literal, after its opening quote, up to
/// and through its closing quote: yields the text the escapes stand for and
/// what follows the closing quote. Only the escapes the encoder writes are
/// accepted, and raw control characters are refused, so exactly the
/// canonical encodings scan.
pub open spec fn scan_string(s: Seq<char>) -> Option<(Seq<char>, Seq<char>)>
    decreases s.len(),
{
    if s.len() == 0 {
        None
    } else if s[0] == '"' {
        Some((Seq::empty(), s.skip(1)))
    } else if s[0] == '\\' {
        if s.len() >= 2 && is_simple_code(s[1]) {
            match scan_string(s.skip(2)) {
                None => None,
                Some((m, r)) => Some((seq![unesc2(s[1])] + m, r)),
            }
        } else if s.len() >= 6 && s[1] == 'u' && s[2] == '0' && s[3] == '0' && unhex(s[4]) < 16
            && unhex(s[5]) < 16 && unhex(s[4]) * 16 + unhex(s[5]) < 32 && unhex(s[4]) * 16
            + unhex(s[5]) != 9 && unhex(s[4]) * 16 + unhex(s[5]) != 10 && unhex(s[4]) * 16
            + unhex(s[5]) != 13 {
            match scan_string(s.skip(6)) {
                None => None,
                Some((m, r)) => Some((seq![ctrl_char(unhex(s[4]) * 16 + unhex(s[5]))] + m, r)),
            }
        } else {
            None
        }
    } else if (s[0] as u32) < 32 {
        None
    } else {
        match scan_string(s.skip(1)) {
            None => None,
            Some((m, r)) => Some((seq![s[0]] + m, r)),
        }
    }
}

/// A successful scan consumes at least one character.
pub proof fn lemma_scan_progress(s: Seq<char>)
    ensures
        scan_string(s) matches Some(p) ==> p.1.len() < s.len(),
    decreases s.len(),
{
    if s.len() == 0 {
    } else if s[0] == '"' {
    } else if s[0] == '\\' {
        if s.len() >= 2 && is_simple_code(s[1]) {
            lemma_scan_progress(s.skip(2));
        } else if s.len() >= 6 {
            lemma_scan_progress(s.skip(6));
        }
    } else {
        lemma_scan_progress(s.skip(1));
    }
}

/// A control character that is none of the simply-escaped ones has a code
/// other than tab, newline and carriage return, and is recovered from its
/// code by `ctrl_char`.
proof fn lemma_ctrl_char_code(c: char)
    requires
        (c as u32) < 32,
        c != '"',
        c != '\\',
        c != '\n',
        c != '\r',
        c != '\t',
    ensures
        ctrl_char(c as u32 as int) == c,
        c as u32 != 9 && c as u32 != 10 && c as u32 != 13,
{
}

/// Scanning the canonical escape of `m`, a closing quote, and a tail yields
/// `m` and the tail: the scanner inverts the escaper.
pub proof fn lemma_scan_escape(m: Seq<char>, rest: Seq<char>)
    ensures
        scan_string(escape_seq(m) + seq!['"'] + rest) == Some((m, rest)),
    decreases m.len(),
{
    let s = escape_seq(m) + seq!['"'] + rest;
    if m.len() == 0 {
        assert(s =~= seq!['"'] + rest);
        assert(s[0] == '"');
        assert(s.skip(1) =~= rest);
        assert(m =~= Seq::<char>::empty());
    } else {
        let c = m[0];
        let e = escape_char(c);
        let s2 = escape_seq(m.skip(1)) + seq!['"'] + rest;
        assert(s =~= e + s2);
        lemma_scan_escape(m.skip(1), rest);
        if c == '"' || c == '\\' || c == '\n' || c == '\r' || c == '\t' {
            assert(e.len() == 2 && e[0] == '\\' && is_simple_code(e[1]) && unesc2(e[1]) == c);
            assert(s[0] == '\\' && s[1] == e[1] && s.len() >= 2);
            assert(s.skip(2) =~= s2);
            assert(seq![c] + m.skip(1) =~= m);
        } else if (c as u32) < 32 {
            let code = c as u32;
            let hi = code / 16;
            let lo = code % 16;
            assert(e[0] == '\\' && e[1] == 'u' && e[2] == '0' && e[3] == '0');
            assert(s.len() >= 6);
            assert(s[0] == '\\' && s[1] == 'u' && s[2] == '0' && s[3] == '0');
            assert(s[4] == hex_digit(hi) && s[5] == hex_digit(lo));
            assert(unhex(hex_digit(hi)) == hi && unhex(hex_digit(lo)) == lo);
            assert(unhex(s[4]) * 16 + unhex(s[5]) == code);
            lemma_ctrl_char_code(c);
            assert(code != 9 && code != 10 && code != 13);
            assert(ctrl_char(code as int) == c);
            assert(s.skip(6) =~= s2);
            assert(seq![c] + m.skip(1) =~= m);
        } else {
            assert(e =~= seq![c]);
            assert(s[0] == c);
            assert(c != '"' && c != '\\' && (c as u32) >= 32);
            assert(s.skip(1) =~= s2);
            assert(seq![c] + m.skip(1) =~= m);
        }
    }
}

/// The text before the message value.
pub open spec fn head_lit() -> Seq<char> {
    "{\"errorMessage\":\""@
}

/// The text between the message value and the type value.
pub open spec fn type_lit() -> Seq<char> {
    ",\"errorType\":\""@
}

/// The handled type value and the text up to the trace value.
pub open spec fn handled_tag() -> Seq<char> {
    "Handled\",\"stackTrace\":"@
}

/// The unhandled type value and the text up to the trace value.
pub open spec fn unhandled_tag() -> Seq<char> {
    "Unhandled\",\"stackTrace\":"@
}

/// The trace value when no trace was captured.
pub open spec fn null_lit() -> Seq<char> {
    "null"@
}

/// The closing brace of the report object.
pub open spec fn close_lit() -> Seq<char> {
    "}"@
}

/// One trace line as a JSON string literal.
pub open spec fn quote_one(l: Seq<char>) -> Seq<char> {
    seq!['"'] + escape_seq(l) + seq!['"']
}

/// The trace lines as the comma-separated body of a JSON array.
pub open spec fn enc_lines(ls: Seq<Seq<char>>) -> Seq<char>
    decreases ls.len(),
{
    if ls.len() == 0 {
        Seq::empty()
    } else if ls.len() == 1 {
        quote_one(ls[0])
    } else {
        quote_one(ls[0]) + seq![','] + enc_lines(ls.skip(1))
    }
}

/// The trace value: an array of lines when a trace is present, `null` when
/// it is absent.
pub open spec fn enc_trace(tr: Option<Seq<Seq<char>>>) -> Seq<char> {
    match tr {
        None => null_lit(),
        Some(ls) => seq!['['] + enc_lines(ls) + seq![']'],
    }
}

/// The full canonical encoding of a report: its message, whether its kind is
/// handled, and its optional trace lines.
pub open spec fn encode_response(m: Seq<char>, h: bool, tr: Option<Seq<Seq<char>>>) -> Seq<char> {
    head_lit() + escape_seq(m) + seq!['"'] + type_lit() + (if h {
        handled_tag()
    } else {
        unhandled_tag()
    }) + enc_trace(tr) + close_lit()
}

/// Strips `p` off the front of `s`, or nothing if `s` does not start with
/// it.
pub open spec fn drop_prefix(s: Seq<char>, p: Seq<char>) -> Option<Seq<char>> {
    if p.is_prefix_of(s) {
        Some(s.skip(p.len() as int))
    } else {
        None
    }
}

/// Stripping a prefix off a text that starts with it leaves the tail.
proof fn lemma_drop_prefix_concat(p: Seq<char>, x: Seq<char>)
    ensures
        drop_prefix(p + x, p) == Some(x),
{
    assert(p =~= (p + x).subrange(0, p.len() as int));
    assert((p + x).skip(p.len() as int) =~= x);
}

/// Parses one or more comma-separated JSON string literals and the closing
/// bracket after them: yields the lines and what follows the bracket.
pub open spec fn parse_lines(s: Seq<char>) -> Option<(Seq<Seq<char>>, Seq<char>)>
    decreases s.len(),
    via parse_lines_decreases
{
    if s.len() == 0 || s[0] != '"' {
        None
    } else {
        match scan_string(s.skip(1)) {
            None => None,
            Some((l, r)) => if r.len() == 0 {
                None
            } else if r[0] == ',' {
                match parse_lines(r.skip(1)) {
                    None => None,
                    Some((ls, r2)) => Some((seq![l] + ls, r2)),
                }
            } else if r[0] == ']' {
                Some((seq![l], r.skip(1)))
            } else {
                None
            },
        }
    }
}

#[via_fn]
proof fn parse_lines_decreases(s: Seq<char>) {
    if s.len() > 0 {
        lemma_scan_progress(s.skip(1));
    }
}

/// Parses the trace value: `null`, an empty array, or an array of string
/// literals.
pub open spec fn parse_trace(s: Seq<char>) -> Option<(Option<Seq<Seq<char>>>, Seq<char>)> {
    match drop_prefix(s, null_lit()) {
        Some(r) => Some((None, r)),
        None => if s.len() >= 2 && s[0] == '[' && s[1] == ']' {
            Some((Some(Seq::empty()), s.skip(2)))
        } else if s.len() >= 1 && s[0] == '[' {
            match parse_lines(s.skip(1)) {
                None => None,
                Some((ls, r)) => Some((Some(ls), r)),
            }
        } else {
            None
        },
    }
}

/// Parses the end of a report, after the type value, into a parsed report.
pub open spec fn finish_response(m: Seq<char>, h: bool, s: Seq<char>) -> Option<
    (Seq<char>, bool, Option<Seq<Seq<char>>>),
> {
    match parse_trace(s) {
        None => None,
        Some((tr, r)) => if r == close_lit() {
            Some((m, h, tr))
        } else {
            None
        },
    }
}

/// Parses a full canonical report encoding: yields the message, whether the
/// kind is handled, and the optional trace lines. Only the exact shape the
/// encoder produces parses.
pub open spec fn parse_response(s: Seq<char>) -> Option<
    (Seq<char>, bool, Option<Seq<Seq<char>>>),
> {
    match drop_prefix(s, head_lit()) {
        None => None,
        Some(s1) => match scan_string(s1) {
            None => None,
            Some((m, s2)) => match drop_prefix(s2, type_lit()) {
                None => None,
                Some(s3) => match drop_prefix(s3, handled_tag()) {
                    Some(s4) => finish_response(m, true, s4),
                    None => match drop_prefix(s3, unhandled_tag()) {
                        Some(s4) => finish_response(m, false, s4),
                        None => None,
                    },
                },
            },
        },
    }
}

/// Parsing the encoded body of a non-empty line list yields the lines back.
proof fn lemma_parse_lines_enc(ls: Seq<Seq<char>>, rest: Seq<char>)
    requires
        ls.len() >= 1,
    ensures
        parse_lines(enc_lines(ls) + seq![']'] + rest) == Some((ls, rest)),
    decreases ls.len(),
{
    let s = enc_lines(ls) + seq![']'] + rest;
    if ls.len() == 1 {
        let tail = seq![']'] + rest;
        assert(s.skip(1) =~= escape_seq(ls[0]) + seq!['"'] + tail);
        lemma_scan_escape(ls[0], tail);
        assert(s[0] == '"');
        assert(tail[0] == ']');
        assert(tail.skip(1) =~= rest);
        assert(seq![ls[0]] =~= ls);
    } else {
        let inner = enc_lines(ls.skip(1)) + seq![']'] + rest;
        let tail = seq![','] + inner;
        assert(s.skip(1) =~= escape_seq(ls[0]) + seq!['"'] + tail);
        lemma_scan_escape(ls[0], tail);
        assert(s[0] == '"');
        assert(tail[0] == ',');
        assert(tail.skip(1) =~= inner);
        lemma_parse_lines_enc(ls.skip(1), rest);
        assert(seq![ls[0]] + ls.skip(1) =~= ls);
    }
}

/// Law: decoding inverts encoding. For every message, kind and optional
/// trace, parsing the canonical encoding yields exactly the three back.
#[verifier::rlimit(100)]
pub proof fn lemma_round_trip(m: Seq<char>, h: bool, tr: Option<Seq<Seq<char>>>)
    ensures
        parse_response(encode_response(m, h, tr)) == Some((m, h, tr)),
{
    let s = encode_response(m, h, tr);
    let tag = if h {
        handled_tag()
    } else {
        unhandled_tag()
    };
    let t2 = type_lit() + tag + enc_trace(tr) + close_lit();
    let t1 = escape_seq(m) + seq!['"'] + t2;
    assert(s =~= head_lit() + t1);
    lemma_drop_prefix_concat(head_lit(), t1);
    lemma_scan_escape(m, t2);
    let t3 = tag + enc_trace(tr) + close_lit();
    assert(t2 =~= type_lit() + t3);
    lemma_drop_prefix_concat(type_lit(), t3);
    let t4 = enc_trace(tr) + close_lit();
    assert(t3 =~= tag + t4);
    lemma_drop_prefix_concat(tag, t4);
    if !h {
        proof_unhandled_not_handled(t3, t4);
    }
    lemma_parse_trace_enc(tr, t4);
    assert(drop_prefix(s, head_lit()) == Some(t1));
    assert(scan_string(t1) == Some((m, t2)));
    assert(drop_prefix(t2, type_lit()) == Some(t3));
    assert(drop_prefix(t3, tag) == Some(t4));
    assert(parse_trace(t4) == Some((tr, close_lit())));
    assert(finish_response(m, h, t4) == Some((m, h, tr)));
}

/// A text that starts with the unhandled tag does not start with the
/// handled tag.
proof fn proof_unhandled_not_handled(t3: Seq<char>, t4: Seq<char>)
    requires
        t3 == unhandled_tag() + t4,
    ensures
        drop_prefix(t3, handled_tag()) is None,
{
    reveal_strlit("Handled\",\"stackTrace\":");
    reveal_strlit("Unhandled\",\"stackTrace\":");
    assert(t3.len() >= 1 && t3[0] == 'U' && handled_tag()[0] == 'H');
    if handled_tag().is_prefix_of(t3) {
        assert(handled_tag()[0] == t3[0]);
        assert(false);
    }
}

/// Parsing the encoded trace value followed by the closing brace yields the
/// trace back, with the brace as the remainder.
proof fn lemma_parse_trace_enc(tr: Option<Seq<Seq<char>>>, t4: Seq<char>)
    requires
        t4 == enc_trace(tr) + close_lit(),
    ensures
        parse_trace(t4) == Some((tr, close_lit())),
{
    reveal_strlit("null");
    reveal_strlit("}");
    match tr {
        None => {
            assert(t4 =~= null_lit() + close_lit());
            lemma_drop_prefix_concat(null_lit(), close_lit());
        },
        Some(ls) => {
            assert(t4[0] == '[');
            assert(null_lit()[0] == 'n');
            assert(t4.len() >= 2);
            if null_lit().is_prefix_of(t4) {
                assert(null_lit()[0] == t4[0]);
                assert(false);
            }
            if ls.len() == 0 {
                assert(enc_trace(tr) =~= seq!['[', ']']);
                assert(t4[1] == ']');
                assert(t4.skip(2) =~= close_lit());
                assert(ls =~= Seq::<Seq<char>>::empty());
            } else {
                assert(enc_lines(ls)[0] == '"');
                assert(t4[1] == '"');
                assert(t4.skip(1) =~= enc_lines(ls) + seq![']'] + close_lit());
                lemma_parse_lines_enc(ls, close_lit());
            }
        },
    }
}

/// The trace field of a report as the optional line sequence it stands for.
pub open spec fn trace_view(o: Option<Vec<String>>) -> Option<Seq<Seq<char>>> {
    match o {
        None => None,
        Some(v) => Some(v.deep_view()),
    }
}

/// One hexadecimal digit, lower case.
fn hex_digit_exec(n: u32) -> (c: char)
    requires
        n < 16,
    ensures
        c == hex_digit(n),
{
    if n == 0 {
        '0'
    } else if n == 1 {
        '1'
    } else if n == 2 {
        '2'
    } else if n == 3 {
        '3'
    } else if n == 4 {
        '4'
    } else if n == 5 {
        '5'
    } else if n == 6 {
        '6'
    } else if n == 7 {
        '7'
    } else if n == 8 {
        '8'
    } else if n == 9 {
        '9'
    } else if n == 10 {
        'a'
    } else if n == 11 {
        'b'
    } else if n == 12 {
        'c'
    } else if n == 13 {
        'd'
    } else if n == 14 {
        'e'
    } else {
        'f'
    }
}

/// Escaping distributes over concatenation.
proof fn lemma_escape_seq_append(a: Seq<char>, b: Seq<char>)
    ensures
        escape_seq(a + b) == escape_seq(a) + escape_seq(b),
    decreases a.len(),
{
    if a.len() == 0 {
        assert(a + b =~= b);
        assert(escape_seq(a) + escape_seq(b) =~= escape_seq(b));
    } else {
        assert((a + b).skip(1) =~= a.skip(1) + b);
        lemma_escape_seq_append(a.skip(1), b);
        assert((a + b)[0] == a[0]);
        assert(escape_char(a[0]) + (escape_seq(a.skip(1)) + escape_seq(b)) =~= (escape_char(a[0])
            + escape_seq(a.skip(1))) + escape_seq(b));
    }
}

/// Escaping one more character appends that character's escape.
proof fn lemma_escape_snoc(s: Seq<char>, i: int)
    requires
        0 <= i < s.len(),
    ensures
        escape_seq(s.take(i + 1)) == escape_seq(s.take(i)) + escape_char(s[i]),
{
    lemma_escape_seq_append(s.take(i), seq![s[i]]);
    assert(s.take(i + 1) =~= s.take(i) + seq![s[i]]);
    assert(seq![s[i]].skip(1) =~= Seq::<char>::empty());
    assert(escape_seq(Seq::<char>::empty()) == Seq::<char>::empty());
    assert(escape_seq(seq![s[i]]) == escape_char(s[i]) + escape_seq(seq![s[i]].skip(1)));
    assert(escape_seq(seq![s[i]]) =~= escape_char(s[i]));
}

/// Appends the JSON escape of `s` onto `out`.
fn append_escaped(out: &mut String, s: &str)
    ensures
        final(out)@ == old(out)@ + escape_seq(s@),
{
    let n = s.unicode_len();
    let mut i: usize = 0;
    proof {
        assert(s@.take(0) =~= Seq::<char>::empty());
        assert(out@ + escape_seq(s@.take(0)) =~= out@);
    }
    while i < n
        invariant
            i <= n,
            n == s@.len(),
            out@ == old(out)@ + escape_seq(s@.take(i as int)),
        decreases n - i,
    {
        let c = s.get_char(i);
        proof {
            lemma_escape_snoc(s@, i as int);
        }
        if c == '"' {
            out.append("\\\"");
            proof {
                reveal_strlit("\\\"");
                assert("\\\""@ =~= escape_char(c));
                assert(out@ =~= old(out)@ + escape_seq(s@.take(i as int + 1)));
            }
        } else if c == '\\' {
            out.append("\\\\");
            proof {
                reveal_strlit("\\\\");
                assert("\\\\"@ =~= escape_char(c));
                assert(out@ =~= old(out)@ + escape_seq(s@.take(i as int + 1)));
            }
        } else if c == '\n' {
            out.append("\\n");
            proof {
                reveal_strlit("\\n");
                assert("\\n"@ =~= escape_char(c));
                assert(out@ =~= old(out)@ + escape_seq(s@.take(i as int + 1)));
            }
        } else if c == '\r' {
            out.append("\\r");
            proof {
                reveal_strlit("\\r");
                assert("\\r"@ =~= escape_char(c));
                assert(out@ =~= old(out)@ + escape_seq(s@.take(i as int + 1)));
            }
        } else if c == '\t' {
            out.append("\\t");
            proof {
                reveal_strlit("\\t");
                assert("\\t"@ =~= escape_char(c));
                assert(out@ =~= old(out)@ + escape_seq(s@.take(i as int + 1)));
            }
        } else if (c as u32) < 32 {
            let code = c as u32;
            out.append("\\u00");
            let h1 = hex_digit_exec(code / 16);
            push_char(out, h1);
            let h2 = hex_digit_exec(code % 16);
            push_char(out, h2);
            proof {
                reveal_strlit("\\u00");
                assert("\\u00"@ + seq![h1] + seq![h2] =~= escape_char(c));
                assert(out@ =~= old(out)@ + escape_seq(s@.take(i as int + 1)));
            }
        } else {
            push_char(out, c);
            proof {
                assert(seq![c] =~= escape_char(c));
                assert(out@ =~= old(out)@ + escape_seq(s@.take(i as int + 1)));
            }
        }
        i = i + 1;
    }
    proof {
        assert(s@.take(n as int) =~= s@);
    }
}

/// Adding one more line to an encoded line list appends a separator, when
/// lines came before, and the quoted line.
proof fn lemma_enc_lines_snoc(a: Seq<Seq<char>>, l: Seq<char>)
    ensures
        a.len() == 0 ==> enc_lines(a.push(l)) == quote_one(l),
        a.len() >= 1 ==> enc_lines(a.push(l)) == enc_lines(a) + seq![','] + quote_one(l),
    decreases a.len(),
{
    let p = a.push(l);
    if a.len() == 0 {
        assert(p.len() == 1 && p[0] == l);
    } else if a.len() == 1 {
        assert(p.len() == 2 && p[0] == a[0]);
        assert(p.skip(1) =~= Seq::<Seq<char>>::empty().push(l));
        lemma_enc_lines_snoc(Seq::<Seq<char>>::empty(), l);
        assert(enc_lines(p) == quote_one(a[0]) + seq![','] + quote_one(l));
    } else {
        assert(p[0] == a[0]);
        assert(p.skip(1) =~= a.skip(1).push(l));
        lemma_enc_lines_snoc(a.skip(1), l);
        assert(enc_lines(p) == quote_one(a[0]) + seq![','] + (enc_lines(a.skip(1)) + seq![',']
            + quote_one(l)));
        assert(quote_one(a[0]) + seq![','] + (enc_lines(a.skip(1)) + seq![','] + quote_one(l))
            =~= (quote_one(a[0]) + seq![','] + enc_lines(a.skip(1))) + seq![','] + quote_one(l));
    }
}

/// Encodes a report into its canonical JSON text, the exact shape the
/// control plane expects.
#[verifier::rlimit(100)]
pub fn to_json(r: &ErrorResponse) -> (out: String)
    requires
        r.well_formed(),
    ensures
        out@ == encode_response(r.error_message@, r.error_type@ == "Handled"@, trace_view(r.stack_trace)),
{
    let ghost h: bool = r.error_type@ == "Handled"@;
    let mut out = String::new();
    out.append("{\"errorMessage\":\"");
    append_escaped(&mut out, r.error_message.as_str());
    out.append("\",\"errorType\":\"");
    proof {
        reveal_strlit("\",\"errorType\":\"");
        reveal_strlit(",\"errorType\":\"");
        assert("\",\"errorType\":\""@ =~= seq!['"'] + type_lit());
    }
    let handled_text = "Handled".to_owned();
    if r.error_type == handled_text {
        out.append("Handled\",\"stackTrace\":");
    } else {
        out.append("Unhandled\",\"stackTrace\":");
    }
    let ghost mid = out@;
    proof {
        assert(mid =~= head_lit() + escape_seq(r.error_message@) + seq!['"'] + type_lit() + (if h {
            handled_tag()
        } else {
            unhandled_tag()
        }));
    }
    match &r.stack_trace {
        None => {
            out.append("null");
        },
        Some(lines) => {
            out.append("[");
            let ghost ls = lines.deep_view();
            let ghost pre = out@;
            let m = lines.len();
            let mut k: usize = 0;
            proof {
                reveal_strlit("[");
                assert(ls.take(0) =~= Seq::<Seq<char>>::empty());
                assert(pre + enc_lines(ls.take(0)) =~= pre);
            }
            while k < m
                invariant
                    k <= m,
                    m == lines@.len(),
                    ls == lines.deep_view(),
                    out@ == pre + enc_lines(ls.take(k as int)),
                decreases m - k,
            {
                let ghost before = out@;
                if k > 0 {
                    out.append(",");
                }
                out.append("\"");
                append_escaped(&mut out, lines[k].as_str());
                out.append("\"");
                proof {
                    reveal_strlit(",");
                    reveal_strlit("\"");
                    assert(ls[k as int] == lines@[k as int]@);
                    lemma_enc_lines_snoc(ls.take(k as int), ls[k as int]);
                    assert(ls.take(k as int + 1) =~= ls.take(k as int).push(ls[k as int]));
                    if k == 0 {
                        assert(out@ =~= pre + enc_lines(ls.take(k as int + 1)));
                    } else {
                        assert(out@ =~= pre + enc_lines(ls.take(k as int + 1)));
                    }
                }
                k = k + 1;
            }
            out.append("]");
            proof {
                reveal_strlit("]");
                assert(ls.take(m as int) =~= ls);
            }
        },
    }
    out.append("}");
    proof {
        assert(out@ =~= encode_response(r.error_message@, h, trace_view(r.stack_trace)));
    }
    out
}

/// The value of a lower-case hexadecimal digit; `16` marks a non-digit.
fn unhex_exec(c: char) -> (n: u32)
    ensures
        n == unhex(c),
{
    if c == '0' {
        0
    } else if c == '1' {
        1
    } else if c == '2' {
        2
    } else if c == '3' {
        3
    } else if c == '4' {
        4
    } else if c == '5' {
        5
    } else if c == '6' {
        6
    } else if c == '7' {
        7
    } else if c == '8' {
        8
    } else if c == '9' {
        9
    } else if c == 'a' {
        10
    } else if c == 'b' {
        11
    } else if c == 'c' {
        12
    } else if c == 'd' {
        13
    } else if c == 'e' {
        14
    } else if c == 'f' {
        15
    } else {
        16
    }
}

/// The control character with the given code.
fn ctrl_char_exec(code: u32) -> (c: char)
    requires
        code < 32,
    ensures
        c == ctrl_char(code as int),
{
    if code == 0 {
        '\u{0}'
    } else if code == 1 {
        '\u{1}'
    } else if code == 2 {
        '\u{2}'
    } else if code == 3 {
        '\u{3}'
    } else if code == 4 {
        '\u{4}'
    } else if code == 5 {
        '\u{5}'
    } else if code == 6 {
        '\u{6}'
    } else if code == 7 {
        '\u{7}'
    } else if code == 8 {
        '\u{8}'
    } else if code == 9 {
        '\u{9}'
    } else if code == 10 {
        '\u{a}'
    } else if code == 11 {
        '\u{b}'
    } else if code == 12 {
        '\u{c}'
    } else if code == 13 {
        '\u{d}'
    } else if code == 14 {
        '\u{e}'
    } else if code == 15 {
        '\u{f}'
    } else if code == 16 {
        '\u{10}'
    } else if code == 17 {
        '\u{11}'
    } else if code == 18 {
        '\u{12}'
    } else if code == 19 {
        '\u{13}'
    } else if code == 20 {
        '\u{14}'
    } else if code == 21 {
        '\u{15}'
    } else if code == 22 {
        '\u{16}'
    } else if code == 23 {
        '\u{17}'
    } else if code == 24 {
        '\u{18}'
    } else if code == 25 {
        '\u{19}'
    } else if code == 26 {
        '\u{1a}'
    } else if code == 27 {
        '\u{1b}'
    } else if code == 28 {
        '\u{1c}'
    } else if code == 29 {
        '\u{1d}'
    } else if code == 30 {
        '\u{1e}'
    } else if code == 31 {
        '\u{1f}'
    } else {
        ' '
    }
}

/// The characters of `s`, one element each.
fn chars_of(s: &str) -> (v: Vec<char>)
    ensures
        v@ == s@,
{
    let n = s.unicode_len();
    let mut v: Vec<char> = Vec::new();
    let mut i: usize = 0;
    proof {
        assert(v@ =~= s@.take(0));
    }
    while i < n
        invariant
            i <= n,
            n == s@.len(),
            v@ == s@.take(i as int),
        decreases n - i,
    {
        v.push(s.get_char(i));
        proof {
            assert(v@ =~= s@.take(i as int + 1));
        }
        i = i + 1;
    }
    proof {
        assert(v@ =~= s@);
    }
    v
}

/// Whether the text at `i` starts with `lit`; on success the index just
/// past it.
fn expect_lit(v: &Vec<char>, i: usize, lit: &str) -> (r: Option<usize>)
    requires
        i <= v@.len(),
    ensures
        match r {
            Some(j) => {
                &&& i <= j <= v@.len()
                &&& drop_prefix(v@.skip(i as int), lit@) == Some(v@.skip(j as int))
            },
            None => drop_prefix(v@.skip(i as int), lit@) is None,
        },
{
    let el = lit.unicode_len();
    let vn = v.len();
    if el > vn - i {
        proof {
            assert(v@.skip(i as int).len() < lit@.len());
            assert(!lit@.is_prefix_of(v@.skip(i as int)));
        }
        return None;
    }
    let mut k: usize = 0;
    while k < el
        invariant
            k <= el,
            el == lit@.len(),
            vn == v@.len(),
            i + el <= vn,
            forall|t: int| 0 <= t < k ==> lit@[t] == v@[i + t],
        decreases el - k,
    {
        if lit.get_char(k) != v[i + k] {
            proof {
                let s = v@.skip(i as int);
                assert(s[k as int] == v@[i + k]);
                if lit@.is_prefix_of(s) {
                    assert(lit@ =~= s.subrange(0, lit@.len() as int));
                    assert(lit@[k as int] == s[k as int]);
                }
            }
            return None;
        }
        k = k + 1;
    }
    proof {
        let s = v@.skip(i as int);
        assert(lit@ =~= s.subrange(0, lit@.len() as int));
        assert(s.skip(lit@.len() as int) =~= v@.skip(i + el));
    }
    Some(i + el)
}

/// The continuation of a scan after `acc` has already been read.
pub open spec fn scan_cont(acc: Seq<char>, o: Option<(Seq<char>, Seq<char>)>) -> Option<
    (Seq<char>, Seq<char>),
> {
    match o {
        None => None,
        Some((m, r)) => Some((acc + m, r)),
    }
}

/// Scans a JSON string literal body starting at `i`, after its opening
/// quote: on success the unescaped text and the index just past the closing
/// quote.
#[verifier::rlimit(100)]
fn scan_chars(v: &Vec<char>, i: usize) -> (r: Option<(String, usize)>)
    requires
        i <= v@.len(),
    ensures
        match r {
            Some(p) => {
                &&& i < p.1 <= v@.len()
                &&& scan_string(v@.skip(i as int)) == Some((p.0@, v@.skip(p.1 as int)))
            },
            None => scan_string(v@.skip(i as int)) is None,
        },
{
    let mut acc = String::new();
    let mut cur: usize = i;
    proof {
        assert(acc@ + scan_string(v@.skip(i as int)).unwrap().0 =~= scan_string(
            v@.skip(i as int),
        ).unwrap().0);
    }
    while cur < v.len()
        invariant
            i <= cur <= v@.len(),
            scan_string(v@.skip(i as int)) == scan_cont(acc@, scan_string(v@.skip(cur as int))),
        decreases v@.len() - cur,
    {
        let ghost t = v@.skip(cur as int);
        let c = v[cur];
        proof {
            assert(t[0] == c);
            assert(t.skip(1) =~= v@.skip(cur as int + 1));
        }
        if c == '"' {
            proof {
                assert(scan_string(t) == Some((Seq::<char>::empty(), v@.skip(cur as int + 1))));
                assert(acc@ + Seq::<char>::empty() =~= acc@);
            }
            return Some((acc, cur + 1));
        } else if c == '\\' {
            if v.len() - cur < 2 {
                proof {
                    assert(t.len() == 1);
                    assert(scan_string(t) is None);
                }
                return None;
            }
            let e = v[cur + 1];
            proof {
                assert(t[1] == e);
            }
            if e == '"' || e == '\\' || e == 'n' || e == 'r' || e == 't' {
                let u = if e == '"' {
                    '"'
                } else if e == '\\' {
                    '\\'
                } else if e == 'n' {
                    '\n'
                } else if e == 'r' {
                    '\r'
                } else {
                    '\t'
                };
                let ghost acc0 = acc@;
                push_char(&mut acc, u);
                proof {
                    assert(u == unesc2(e));
                    assert(t.skip(2) =~= v@.skip(cur as int + 2));
                    let o = scan_string(v@.skip(cur as int + 2));
                    if o is Some {
                        assert(acc0 + (seq![u] + o.unwrap().0) =~= acc0.push(u) + o.unwrap().0);
                    }
                }
                cur = cur + 2;
            } else if e == 'u' {
                if v.len() - cur < 6 {
                    proof {
                        assert(t.len() < 6);
                        assert(scan_string(t) is None);
                    }
                    return None;
                }
                let z1 = v[cur + 2];
                let z2 = v[cur + 3];
                proof {
                    assert(t[2] == z1 && t[3] == z2);
                    assert(t[4] == v@[cur as int + 4]);
                    assert(t[5] == v@[cur as int + 5]);
                }
                if z1 != '0' || z2 != '0' {
                    proof {
                        assert(scan_string(t) is None);
                    }
                    return None;
                }
                let d1 = unhex_exec(v[cur + 4]);
                let d2 = unhex_exec(v[cur + 5]);
                if d1 >= 16 || d2 >= 16 {
                    proof {
                        assert(scan_string(t) is None);
                    }
                    return None;
                }
                let code = d1 * 16 + d2;
                if code >= 32 || code == 9 || code == 10 || code == 13 {
                    proof {
                        assert(scan_string(t) is None);
                    }
                    return None;
                }
                let u = ctrl_char_exec(code);
                let ghost acc0 = acc@;
                push_char(&mut acc, u);
                proof {
                    assert(t.skip(6) =~= v@.skip(cur as int + 6));
                    let o = scan_string(v@.skip(cur as int + 6));
                    if o is Some {
                        assert(acc0 + (seq![u] + o.unwrap().0) =~= acc0.push(u) + o.unwrap().0);
                    }
                }
                cur = cur + 6;
            } else {
                proof {
                    assert(!is_simple_code(t[1]) && t[1] != 'u');
                    assert(scan_string(t) is None);
                }
                return None;
            }
        } else if (c as u32) < 32 {
            proof {
                assert(scan_string(t) is None);
            }
            return None;
        } else {
            let ghost acc0 = acc@;
            push_char(&mut acc, c);
            proof {
                let o = scan_string(v@.skip(cur as int + 1));
                if o is Some {
                    assert(acc0 + (seq![c] + o.unwrap().0) =~= acc0.push(c) + o.unwrap().0);
                }
            }
            cur = cur + 1;
        }
    }
    proof {
        assert(v@.skip(cur as int).len() == 0);
    }
    None
}

/// The continuation of a line-list parse after `acc` lines were read.
pub open spec fn lines_cont(acc: Seq<Seq<char>>, o: Option<(Seq<Seq<char>>, Seq<char>)>) -> Option<
    (Seq<Seq<char>>, Seq<char>),
> {
    match o {
        None => None,
        Some((ls, r)) => Some((acc + ls, r)),
    }
}

/// Parses one or more comma-separated string literals and the closing
/// bracket, starting at `i`: on success the lines and the index just past
/// the bracket.
#[verifier::rlimit(100)]
fn parse_lines_exec(v: &Vec<char>, i: usize) -> (r: Option<(Vec<String>, usize)>)
    requires
        i <= v@.len(),
    ensures
        match r {
            Some(p) => {
                &&& i < p.1 <= v@.len()
                &&& parse_lines(v@.skip(i as int)) == Some((p.0.deep_view(), v@.skip(p.1 as int)))
            },
            None => parse_lines(v@.skip(i as int)) is None,
        },
{
    let mut acc: Vec<String> = Vec::new();
    let mut cur: usize = i;
    proof {
        assert(acc.deep_view() =~= Seq::<Seq<char>>::empty());
        let o = parse_lines(v@.skip(i as int));
        if o is Some {
            assert(Seq::<Seq<char>>::empty() + o.unwrap().0 =~= o.unwrap().0);
        }
    }
    while cur < v.len()
        invariant
            i <= cur <= v@.len(),
            parse_lines(v@.skip(i as int)) == lines_cont(
                acc.deep_view(),
                parse_lines(v@.skip(cur as int)),
            ),
        decreases v@.len() - cur,
    {
        let ghost t = v@.skip(cur as int);
        let c = v[cur];
        proof {
            assert(t[0] == c);
            assert(t.skip(1) =~= v@.skip(cur as int + 1));
        }
        if c != '"' {
            proof {
                assert(parse_lines(t) is None);
            }
            return None;
        }
        let scanned = scan_chars(v, cur + 1);
        match scanned {
            None => {
                proof {
                    assert(parse_lines(t) is None);
                }
                return None;
            },
            Some((line, j)) => {
                proof {
                    assert(scan_string(t.skip(1)) == Some((line@, v@.skip(j as int))));
                }
                if j >= v.len() {
                    proof {
                        assert(v@.skip(j as int).len() == 0);
                        assert(parse_lines(t) is None);
                    }
                    return None;
                }
                let c2 = v[j];
                proof {
                    assert(v@.skip(j as int)[0] == c2);
                    assert(v@.skip(j as int).skip(1) =~= v@.skip(j as int + 1));
                }
                if c2 == ',' {
                    let ghost acc0 = acc.deep_view();
                    acc.push(line);
                    proof {
                        assert(acc.deep_view() =~= acc0.push(line@));
                        let o = parse_lines(v@.skip(j as int + 1));
                        if o is Some {
                            assert(acc0 + (seq![line@] + o.unwrap().0) =~= acc0.push(line@)
                                + o.unwrap().0);
                        }
                    }
                    cur = j + 1;
                } else if c2 == ']' {
                    let ghost acc0 = acc.deep_view();
                    acc.push(line);
                    proof {
                        assert(acc.deep_view() =~= acc0.push(line@));
                        assert(parse_lines(t) == Some(
                            (seq![line@], v@.skip(j as int).skip(1)),
                        ));
                        assert(acc0 + seq![line@] =~= acc0.push(line@));
                        assert(v@.skip(j as int).skip(1) =~= v@.skip(j as int + 1));
                    }
                    return Some((acc, j + 1));
                } else {
                    proof {
                        assert(parse_lines(t) is None);
                    }
                    return None;
                }
            },
        }
    }
    proof {
        assert(v@.skip(cur as int).len() == 0);
    }
    None
}

/// Decodes the canonical JSON text of a report. Exactly the texts the
/// encoder produces decode: the result is the report whose encoding is the
/// input, or nothing when the input is not a canonical report encoding.
#[verifier::rlimit(100)]
pub fn from_json(s: &str) -> (r: Option<ErrorResponse>)
    ensures
        match r {
            Some(resp) => {
                &&& parse_response(s@) == Some(
                    (
                        resp.error_message@,
                        resp.error_type@ == "Handled"@,
                        trace_view(resp.stack_trace),
                    ),
                )
                &&& resp.well_formed()
            },
            None => parse_response(s@) is None,
        },
{
    let v = chars_of(s);
    let i1 = match expect_lit(&v, 0, "{\"errorMessage\":\"") {
        None => {
            proof {
                assert(v@.skip(0) =~= s@);
            }
            return None;
        },
        Some(i) => i,
    };
    proof {
        assert(v@.skip(0) =~= s@);
    }
    let scanned = scan_chars(&v, i1);
    let (msg, i2) = match scanned {
        None => {
            return None;
        },
        Some(p) => p,
    };
    let i3 = match expect_lit(&v, i2, ",\"errorType\":\"") {
        None => {
            return None;
        },
        Some(i) => i,
    };
    let handled: bool;
    let i4: usize;
    match expect_lit(&v, i3, "Handled\",\"stackTrace\":") {
        Some(i) => {
            handled = true;
            i4 = i;
        },
        None => {
            match expect_lit(&v, i3, "Unhandled\",\"stackTrace\":") {
                Some(i) => {
                    handled = false;
                    i4 = i;
                },
                None => {
                    return None;
                },
            }
        },
    }
    let trace: Option<Vec<String>>;
    let i6: usize;
    match expect_lit(&v, i4, "null") {
        Some(i) => {
            trace = None;
            i6 = i;
        },
        None => {
            if i4 < v.len() && v[i4] == '[' {
                proof {
                    assert(v@.skip(i4 as int)[0] == '[');
                    assert(v@.skip(i4 as int).skip(1) =~= v@.skip(i4 as int + 1));
                }
                if v.len() - i4 >= 2 && v[i4 + 1] == ']' {
                    let tv: Vec<String> = Vec::new();
                    proof {
                        assert(v@.skip(i4 as int)[1] == ']');
                        assert(v@.skip(i4 as int).skip(2) =~= v@.skip(i4 as int + 2));
                        assert(tv.deep_view() =~= Seq::<Seq<char>>::empty());
                    }
                    trace = Some(tv);
                    i6 = i4 + 2;
                } else {
                    proof {
                        if v@.skip(i4 as int).len() >= 2 {
                            assert(v@.skip(i4 as int)[1] == v@[i4 as int + 1]);
                        }
                    }
                    match parse_lines_exec(&v, i4 + 1) {
                        None => {
                            return None;
                        },
                        Some((ls, j)) => {
                            trace = Some(ls);
                            i6 = j;
                        },
                    }
                }
            } else {
                proof {
                    if i4 < v@.len() {
                        assert(v@.skip(i4 as int)[0] == v@[i4 as int]);
                    } else {
                        assert(v@.skip(i4 as int).len() == 0);
                    }
                }
                return None;
            }
        },
    }
    let end = match expect_lit(&v, i6, "}") {
        None => {
            proof {
                reveal_strlit("}");
                let rest = v@.skip(i6 as int);
                if rest == close_lit() {
                    assert(close_lit() =~= rest.subrange(0, close_lit().len() as int));
                }
            }
            return None;
        },
        Some(i) => i,
    };
    if end != v.len() {
        proof {
            reveal_strlit("}");
            let rest = v@.skip(i6 as int);
            assert(drop_prefix(rest, "}"@) == Some(v@.skip(end as int)));
            assert(("}"@).is_prefix_of(rest)) by {
                if !("}"@).is_prefix_of(rest) {
                    assert(drop_prefix(rest, "}"@) is None);
                }
            }
            assert(rest.skip("}"@.len() as int) == v@.skip(end as int));
            assert("}"@.len() == 1);
            assert(rest.len() >= 1);
            assert(rest.skip(1).len() == rest.len() - 1);
            assert(v@.skip(end as int).len() == v@.len() - end);
            assert(rest.len() - 1 == v@.len() - end);
            assert(rest.len() > 1);
            if rest == close_lit() {
                assert(rest.len() == 1);
            }
        }
        return None;
    }
    proof {
        reveal_strlit("}");
        let rest = v@.skip(i6 as int);
        assert(drop_prefix(rest, "}"@) == Some(v@.skip(end as int)));
        assert(("}"@).is_prefix_of(rest)) by {
            if !("}"@).is_prefix_of(rest) {
                assert(drop_prefix(rest, "}"@) is None);
            }
        }
        assert("}"@.len() == 1);
        assert(rest.skip(1) == v@.skip(end as int));
        assert(rest.len() >= 1);
        assert(rest.skip(1).len() == rest.len() - 1);
        assert(v@.skip(end as int).len() == v@.len() - end);
        assert(rest.len() - 1 == v@.len() - end);
        assert(rest.len() == 1);
        assert(("}"@) =~= rest.subrange(0, 1));
        assert(rest[0] == ("}"@)[0]);
        assert(rest =~= close_lit());
    }
    let error_type = if handled {
        "Handled".to_owned()
    } else {
        "Unhandled".to_owned()
    };
    proof {
        if !handled {
            reveal_strlit("Handled");
            reveal_strlit("Unhandled");
            assert("Handled"@.len() != "Unhandled"@.len());
        }
    }
    Some(ErrorResponse { error_message: msg, error_type, stack_trace: trace })
}

/// Stripping a prefix succeeds only on a text that is the prefix followed
/// by the remainder.
proof fn lemma_drop_prefix_sound(s: Seq<char>, p: Seq<char>)
    ensures
        drop_prefix(s, p) matches Some(x) ==> s == p + x,
{
    if drop_prefix(s, p) is Some {
        assert(p =~= s.subrange(0, p.len() as int));
        assert(s =~= p + s.skip(p.len() as int));
    }
}

/// A control character's code is recovered by casting it back.
proof fn lemma_ctrl_char_val(code: int)
    requires
        0 <= code < 32,
    ensures
        ctrl_char(code) as u32 == code,
{
}

/// A hexadecimal digit character is recovered from its value.
proof fn lemma_hex_digit_unhex(c: char)
    requires
        unhex(c) < 16,
    ensures
        hex_digit(unhex(c)) == c,
{
}

/// A successful scan reads exactly the canonical escape of its result: the
/// scanner accepts nothing the escaper would write differently.
pub proof fn lemma_scan_sound(s: Seq<char>)
    ensures
        scan_string(s) matches Some(p) ==> s == escape_seq(p.0) + seq!['"'] + p.1,
    decreases s.len(),
{
    if s.len() == 0 {
    } else if s[0] == '"' {
        if scan_string(s) is Some {
            let (m, r) = scan_string(s).unwrap();
            assert(escape_seq(m) =~= Seq::<char>::empty());
            assert(s =~= escape_seq(m) + seq!['"'] + r);
        }
    } else if s[0] == '\\' {
        if s.len() >= 2 && is_simple_code(s[1]) {
            lemma_scan_sound(s.skip(2));
            if scan_string(s) is Some {
                let (m, r) = scan_string(s).unwrap();
                let (m2, r2) = scan_string(s.skip(2)).unwrap();
                let c = unesc2(s[1]);
                assert(m == seq![c] + m2 && r == r2);
                assert(escape_char(c) =~= seq!['\\', s[1]]);
                assert(m[0] == c);
                assert(m.skip(1) =~= m2);
                assert(escape_seq(m) == escape_char(c) + escape_seq(m2));
                assert(s =~= seq!['\\', s[1]] + s.skip(2));
                assert(seq!['\\', s[1]] + (escape_seq(m2) + seq!['"'] + r2) =~= (seq!['\\', s[1]]
                    + escape_seq(m2)) + seq!['"'] + r2);
                assert(s =~= escape_seq(m) + seq!['"'] + r);
            }
        } else if s.len() >= 6 && s[1] == 'u' && s[2] == '0' && s[3] == '0' && unhex(s[4]) < 16
            && unhex(s[5]) < 16 && unhex(s[4]) * 16 + unhex(s[5]) < 32 && unhex(s[4]) * 16
            + unhex(s[5]) != 9 && unhex(s[4]) * 16 + unhex(s[5]) != 10 && unhex(s[4]) * 16
            + unhex(s[5]) != 13 {
            lemma_scan_sound(s.skip(6));
            if scan_string(s) is Some {
                let code = unhex(s[4]) * 16 + unhex(s[5]);
                let (m, r) = scan_string(s).unwrap();
                let (m2, r2) = scan_string(s.skip(6)).unwrap();
                let c = ctrl_char(code);
                assert(m == seq![c] + m2 && r == r2);
                lemma_ctrl_char_val(code);
                assert(c as u32 == code);
                assert(c != '"' && c != '\\') by {
                    assert('"' as u32 == 34 && '\\' as u32 == 92);
                }
                assert(c != '\n' && c != '\r' && c != '\t') by {
                    assert('\n' as u32 == 10 && '\r' as u32 == 13 && '\t' as u32 == 9);
                }
                assert((c as u32) / 16 == unhex(s[4]) && (c as u32) % 16 == unhex(s[5]));
                lemma_hex_digit_unhex(s[4]);
                lemma_hex_digit_unhex(s[5]);
                assert(escape_char(c) =~= seq!['\\', 'u', '0', '0', s[4], s[5]]);
                assert(m[0] == c);
                assert(m.skip(1) =~= m2);
                assert(escape_seq(m) == escape_char(c) + escape_seq(m2));
                assert(s =~= seq!['\\', 'u', '0', '0', s[4], s[5]] + s.skip(6));
                assert(seq!['\\', 'u', '0', '0', s[4], s[5]] + (escape_seq(m2) + seq!['"'] + r2)
                    =~= (seq!['\\', 'u', '0', '0', s[4], s[5]] + escape_seq(m2)) + seq!['"'] + r2);
                assert(s =~= escape_seq(m) + seq!['"'] + r);
            }
        }
    } else if (s[0] as u32) < 32 {
    } else {
        lemma_scan_sound(s.skip(1));
        if scan_string(s) is Some {
            let (m, r) = scan_string(s).unwrap();
            let (m2, r2) = scan_string(s.skip(1)).unwrap();
            let c = s[0];
            assert(m == seq![c] + m2 && r == r2);
            assert(c != '\n' && c != '\r' && c != '\t') by {
                assert('\n' as u32 == 10 && '\r' as u32 == 13 && '\t' as u32 == 9);
            }
            assert(escape_char(c) =~= seq![c]);
            assert(m[0] == c);
            assert(m.skip(1) =~= m2);
            assert(escape_seq(m) == escape_char(c) + escape_seq(m2));
            assert(s =~= seq![c] + s.skip(1));
            assert(seq![c] + (escape_seq(m2) + seq!['"'] + r2) =~= (seq![c] + escape_seq(m2))
                + seq!['"'] + r2);
            assert(s =~= escape_seq(m) + seq!['"'] + r);
        }
    }
}

/// A successful line-list parse reads exactly the canonical encoding of the
/// lines it yields.
proof fn lemma_parse_lines_sound(s: Seq<char>)
    ensures
        parse_lines(s) matches Some(p) ==> p.0.len() >= 1 && s == enc_lines(p.0) + seq![']']
            + p.1,
    decreases s.len(),
{
    if s.len() == 0 || s[0] != '"' {
    } else {
        lemma_scan_sound(s.skip(1));
        lemma_scan_progress(s.skip(1));
        match scan_string(s.skip(1)) {
            None => {},
            Some((l, r)) => {
                assert(s.skip(1) == escape_seq(l) + seq!['"'] + r);
                if r.len() == 0 {
                } else if r[0] == ',' {
                    lemma_parse_lines_sound(r.skip(1));
                    if parse_lines(r.skip(1)) is Some {
                        let (ls2, r2) = parse_lines(r.skip(1)).unwrap();
                        let ls = seq![l] + ls2;
                        assert(ls[0] == l);
                        assert(ls.skip(1) =~= ls2);
                        assert(ls.len() >= 2);
                        assert(enc_lines(ls) == quote_one(ls[0]) + seq![','] + enc_lines(ls2));
                        assert(r =~= seq![','] + r.skip(1));
                        assert(s =~= seq!['"'] + s.skip(1));
                        assert(s =~= (seq!['"'] + escape_seq(l) + seq!['"']) + seq![','] + (
                        enc_lines(ls2) + seq![']'] + r2));
                        assert(s =~= enc_lines(ls) + seq![']'] + r2);
                    }
                } else if r[0] == ']' {
                    let ls = seq![l];
                    assert(ls.len() == 1 && ls[0] == l);
                    assert(enc_lines(ls) == quote_one(l));
                    assert(r =~= seq![']'] + r.skip(1));
                    assert(s =~= seq!['"'] + s.skip(1));
                    assert(s =~= (seq!['"'] + escape_seq(l) + seq!['"']) + seq![']'] + r.skip(1));
                    assert(s =~= enc_lines(ls) + seq![']'] + r.skip(1));
                }
            },
        }
    }
}

/// A successful trace parse reads exactly the canonical encoding of the
/// trace it yields.
proof fn lemma_parse_trace_sound(s: Seq<char>)
    ensures
        parse_trace(s) matches Some(p) ==> s == enc_trace(p.0) + p.1,
{
    lemma_drop_prefix_sound(s, null_lit());
    match drop_prefix(s, null_lit()) {
        Some(_) => {},
        None => {
            if s.len() >= 2 && s[0] == '[' && s[1] == ']' {
                assert(enc_lines(Seq::<Seq<char>>::empty()) == Seq::<char>::empty());
                assert(enc_trace(Some(Seq::<Seq<char>>::empty())) =~= seq!['[', ']']);
                assert(s =~= seq!['[', ']'] + s.skip(2));
            } else if s.len() >= 1 && s[0] == '[' {
                lemma_parse_lines_sound(s.skip(1));
                if parse_lines(s.skip(1)) is Some {
                    let (ls, r) = parse_lines(s.skip(1)).unwrap();
                    assert(s =~= seq!['['] + s.skip(1));
                    assert(s =~= seq!['['] + (enc_lines(ls) + seq![']'] + r));
                    assert(s =~= (seq!['['] + enc_lines(ls) + seq![']']) + r);
                }
            }
        },
    }
}

/// Law: encoding inverts decoding. A text that parses as a report is
/// exactly that report's canonical encoding, so decode and encode are
/// mutually inverse.
#[verifier::rlimit(100)]
pub proof fn lemma_parse_sound(s: Seq<char>)
    ensures
        parse_response(s) matches Some(p) ==> s == encode_response(p.0, p.1, p.2),
{
    lemma_drop_prefix_sound(s, head_lit());
    match drop_prefix(s, head_lit()) {
        None => {},
        Some(s1) => {
            lemma_scan_sound(s1);
            match scan_string(s1) {
                None => {},
                Some((m, s2)) => {
                    lemma_drop_prefix_sound(s2, type_lit());
                    match drop_prefix(s2, type_lit()) {
                        None => {},
                        Some(s3) => {
                            lemma_drop_prefix_sound(s3, handled_tag());
                            lemma_drop_prefix_sound(s3, unhandled_tag());
                            match drop_prefix(s3, handled_tag()) {
                                Some(s4) => {
                                    lemma_finish_sound(s, s1, s2, s3, s4, m, true);
                                },
                                None => {
                                    match drop_prefix(s3, unhandled_tag()) {
                                        Some(s4) => {
                                            lemma_finish_sound(s, s1, s2, s3, s4, m, false);
                                        },
                                        None => {},
                                    }
                                },
                            }
                        },
                    }
                },
            }
        },
    }
}

/// Assembles the soundness direction once every layer has been stripped.
proof fn lemma_finish_sound(
    s: Seq<char>,
    s1: Seq<char>,
    s2: Seq<char>,
    s3: Seq<char>,
    s4: Seq<char>,
    m: Seq<char>,
    h: bool,
)
    requires
        s == head_lit() + s1,
        s1 == escape_seq(m) + seq!['"'] + s2,
        s2 == type_lit() + s3,
        s3 == (if h {
            handled_tag()
        } else {
            unhandled_tag()
        }) + s4,
    ensures
        finish_response(m, h, s4) matches Some(p) ==> s == encode_response(p.0, p.1, p.2),
{
    lemma_parse_trace_sound(s4);
    match parse_trace(s4) {
        None => {},
        Some((tr, r)) => {
            if r == close_lit() {
                let tag = if h {
                    handled_tag()
                } else {
                    unhandled_tag()
                };
                assert(s4 == enc_trace(tr) + close_lit());
                assert(s =~= head_lit() + escape_seq(m) + seq!['"'] + type_lit() + tag
                    + enc_trace(tr) + close_lit());
            }
        },
    }
}

} // verus!

