//! Escaping file content so that it fits on one line of the payload, and the inverse.
//!
//! Content is quoted as a JSON string twice, and the outer quotes are dropped. What
//! remains holds no newline, tab, or other control character.
use vstd::prelude::*;
use crate::text::{chars_of, string_of};

verus! {

/// The lower-case hexadecimal digit of a value below 16.
pub open spec fn hex_digit(n: int) -> char {
    if n < 10 {
        (('0' as u32) + n) as char
    } else {
        (('a' as u32) + n - 10) as char
    }
}

/// The value of a hexadecimal digit, of either case.
pub open spec fn hex_value(c: char) -> Option<int> {
    if '0' <= c && c <= '9' {
        Some(c as u32 - '0' as u32)
    } else if 'a' <= c && c <= 'f' {
        Some(c as u32 - 'a' as u32 + 10)
    } else if 'A' <= c && c <= 'F' {
        Some(c as u32 - 'A' as u32 + 10)
    } else {
        None
    }
}

/// How one character is written inside a JSON string literal: quote, backslash
/// and control characters are escaped, everything else stands as it is.
pub open spec fn escape_char(c: char) -> Seq<char> {
    if c == '"' {
        seq!['\\', '"']
    } else if c == '\\' {
        seq!['\\', '\\']
    } else if c == '\x08' {
        seq!['\\', 'b']
    } else if c == '\x0c' {
        seq!['\\', 'f']
    } else if c == '\n' {
        seq!['\\', 'n']
    } else if c == '\r' {
        seq!['\\', 'r']
    } else if c == '\t' {
        seq!['\\', 't']
    } else if (c as u32) < 0x20 {
        seq!['\\', 'u', '0', '0', hex_digit((c as u32) as int / 16), hex_digit((c as u32) as int % 16)]
    } else {
        seq![c]
    }
}

/// The body of a JSON string literal for `s`.
pub open spec fn json_escape(s: Seq<char>) -> Seq<char>
    decreases s.len(),
{
    if s.len() == 0 {
        seq![]
    } else {
        escape_char(s[0]) + json_escape(s.drop_first())
    }
}

/// The JSON string literal for `s`, quotes included.
pub open spec fn json_quoted(s: Seq<char>) -> Seq<char> {
    seq!['"'] + json_escape(s) + seq!['"']
}

/// Content as it stands in a payload record: quoted once, then escaped once more.
pub open spec fn escaped(s: Seq<char>) -> Seq<char> {
    json_escape(json_quoted(s))
}

pub open spec fn prepend(c: char, r: Option<Seq<char>>) -> Option<Seq<char>> {
    match r {
        Some(t) => Some(seq![c] + t),
        None => None,
    }
}

/// The character that a one-letter escape `\x` stands for.
pub open spec fn short_escape(c: char) -> Option<char> {
    if c == '"' {
        Some('"')
    } else if c == '\\' {
        Some('\\')
    } else if c == '/' {
        Some('/')
    } else if c == 'b' {
        Some('\x08')
    } else if c == 'f' {
        Some('\x0c')
    } else if c == 'n' {
        Some('\n')
    } else if c == 'r' {
        Some('\r')
    } else if c == 't' {
        Some('\t')
    } else {
        None
    }
}

/// Reads the body of a JSON string literal back into its characters. Escapes
/// are the one-letter ones and `\u00hh`; anything else after a backslash fails.
pub open spec fn json_unescape(e: Seq<char>) -> Option<Seq<char>>
    decreases e.len(),
{
    if e.len() == 0 {
        Some(seq![])
    } else if e[0] != '\\' {
        prepend(e[0], json_unescape(e.subrange(1, e.len() as int)))
    } else if e.len() >= 2 && short_escape(e[1]) is Some {
        prepend(short_escape(e[1])->0, json_unescape(e.subrange(2, e.len() as int)))
    } else if e.len() >= 6 && e[1] == 'u' && e[2] == '0' && e[3] == '0' && hex_value(e[4]) is Some
        && hex_value(e[5]) is Some {
        prepend(
            ((16 * hex_value(e[4])->0 + hex_value(e[5])->0) as u8) as char,
            json_unescape(e.subrange(6, e.len() as int)),
        )
    } else {
        None
    }
}

/// The content that a record holds, if the record is well formed.
pub open spec fn unescaped(e: Seq<char>) -> Option<Seq<char>> {
    match json_unescape(e) {
        Some(q) => if q.len() >= 2 && q[0] == '"' && q.last() == '"' {
            json_unescape(q.subrange(1, q.len() - 1))
        } else {
            None
        },
        None => None,
    }
}

#[verifier::external_type_specification]
#[verifier::external_body]
pub struct ExJsonError(serde_json::Error);

/// Relies on `serde_json::to_string` applied to a `str`: it writes the string as one
/// JSON string literal (table `ESCAPE` and `format_escaped_str` in serde_json's `ser.rs`:
/// `"`, `\\`, and bytes below 0x20 are escaped, the latter as `\b \t \n \f \r` or
/// `\u00hh` in lower-case hex; all other bytes are copied). Writing into its `Vec`
/// buffer never fails, so the result is always `Ok`.
#[verifier::external_body]
fn json_quote(s: &str) -> (r: Result<String, serde_json::Error>)
    ensures
        r is Ok,
        r->Ok_0@ == json_quoted(s@),
{
    serde_json::to_string(s)
}

/// Escapes content for one record of the payload.
pub fn escape(s: &str) -> (r: String)
    ensures
        r@ == escaped(s@),
{
    let once = match json_quote(s) {
        Ok(t) => t,
        Err(_) => String::new(),
    };
    let twice = match json_quote(once.as_str()) {
        Ok(t) => t,
        Err(_) => String::new(),
    };
    let t = twice.as_str();
    let n = t.unicode_len();
    assert(t@ =~= seq!['"'] + escaped(s@) + seq!['"']);
    let inner = t.substring_char(1, n - 1);
    assert(inner@ =~= escaped(s@));
    inner.to_owned()
}

fn hex_char_value(c: char) -> (r: Option<u8>)
    ensures
        match hex_value(c) {
            Some(v) => r == Some(v as u8),
            None => r is None,
        },
{
    if '0' <= c && c <= '9' {
        Some((c as u32 - '0' as u32) as u8)
    } else if 'a' <= c && c <= 'f' {
        Some((c as u32 - 'a' as u32 + 10) as u8)
    } else if 'A' <= c && c <= 'F' {
        Some((c as u32 - 'A' as u32 + 10) as u8)
    } else {
        None
    }
}

fn short_escape_char(c: char) -> (r: Option<char>)
    ensures
        r == short_escape(c),
{
    if c == '"' {
        Some('"')
    } else if c == '\\' {
        Some('\\')
    } else if c == '/' {
        Some('/')
    } else if c == 'b' {
        Some('\x08')
    } else if c == 'f' {
        Some('\x0c')
    } else if c == 'n' {
        Some('\n')
    } else if c == 'r' {
        Some('\r')
    } else if c == 't' {
        Some('\t')
    } else {
        None
    }
}

/// `json_unescape` of `e[lo..hi]`.
fn unescape_range(e: &Vec<char>, lo: usize, hi: usize) -> (r: Option<Vec<char>>)
    requires
        lo <= hi <= e@.len(),
    ensures
        match json_unescape(e@.subrange(lo as int, hi as int)) {
            Some(t) => r matches Some(o) && o@ == t,
            None => r is None,
        },
{
    let ghost whole = e@.subrange(lo as int, hi as int);
    let mut out: Vec<char> = Vec::new();
    let mut i: usize = lo;
    while i < hi
        invariant
            lo <= i <= hi <= e@.len(),
            whole == e@.subrange(lo as int, hi as int),
            json_unescape(whole) == match json_unescape(e@.subrange(i as int, hi as int)) {
                Some(t) => Some(out@ + t),
                None => None,
            },
        decreases hi - i,
    {
        let ghost rest = e@.subrange(i as int, hi as int);
        let c = e[i];
        if c != '\\' {
            assert(rest.subrange(1, rest.len() as int) =~= e@.subrange(i + 1, hi as int));
            proof {
                match json_unescape(e@.subrange(i + 1, hi as int)) {
                    Some(t) => { assert(out@ + (seq![c] + t) =~= out@.push(c) + t); },
                    None => {},
                }
            }
            out.push(c);
            i = i + 1;
        } else {
            let short = if i + 1 < hi { short_escape_char(e[i + 1]) } else { None };
            match short {
                Some(d) => {
                    assert(rest.subrange(2, rest.len() as int) =~= e@.subrange(i + 2, hi as int));
                    proof {
                        match json_unescape(e@.subrange(i + 2, hi as int)) {
                            Some(t) => { assert(out@ + (seq![d] + t) =~= out@.push(d) + t); },
                            None => {},
                        }
                    }
                    out.push(d);
                    i = i + 2;
                },
                None => {
                    if hi - i > 5 && e[i + 1] == 'u' && e[i + 2] == '0' && e[i + 3] == '0' {
                        let h = hex_char_value(e[i + 4]);
                        let l = hex_char_value(e[i + 5]);
                        match (h, l) {
                            (Some(h), Some(l)) => {
                                let d = (16 * h + l) as char;
                                assert(rest.subrange(6, rest.len() as int) =~= e@.subrange(i + 6, hi as int));
                                proof {
                                    match json_unescape(e@.subrange(i + 6, hi as int)) {
                                        Some(t) => { assert(out@ + (seq![d] + t) =~= out@.push(d) + t); },
                                        None => {},
                                    }
                                }
                                out.push(d);
                                i = i + 6;
                            },
                            _ => {
                                return None;
                            },
                        }
                    } else {
                        return None;
                    }
                },
            }
        }
    }
    assert(e@.subrange(hi as int, hi as int) =~= Seq::<char>::empty());
    assert(out@ + Seq::<char>::empty() =~= out@);
    Some(out)
}

/// Reads a record's escaped content back; `None` where it is not in the form
/// that `escape` writes.
pub fn unescape(e: &str) -> (r: Option<String>)
    ensures
        match unescaped(e@) {
            Some(t) => r matches Some(o) && o@ == t,
            None => r is None,
        },
{
    let v = chars_of(e);
    assert(v@.subrange(0, v@.len() as int) =~= v@);
    let q = match unescape_range(&v, 0, v.len()) {
        Some(q) => q,
        None => return None,
    };
    let n = q.len();
    if n < 2 || q[0] != '"' || q[n - 1] != '"' {
        return None;
    }
    match unescape_range(&q, 1, n - 1) {
        Some(t) => Some(string_of(t.as_slice())),
        None => None,
    }
}

proof fn lemma_unescape_escape_char(c: char, rest: Seq<char>)
    ensures
        json_unescape(escape_char(c) + rest) == prepend(c, json_unescape(rest)),
{
    let x = escape_char(c);
    let e = x + rest;
    assert(e.subrange(x.len() as int, e.len() as int) =~= rest);
    if c != '"' && c != '\\' && c != '\x08' && c != '\x0c' && c != '\n' && c != '\r' && c != '\t'
        && (c as u32) < 0x20 {
        let v = (c as u32) as int;
        assert(hex_value(hex_digit(v / 16)) == Some(v / 16));
        assert(hex_value(hex_digit(v % 16)) == Some(v % 16));
        assert(((16 * (v / 16) + v % 16) as u8) as char == c);
    }
}

/// Unescaping the body of a JSON string literal gives back its characters.
pub proof fn lemma_json_escape_round_trip(s: Seq<char>)
    ensures
        json_unescape(json_escape(s)) == Some(s),
    decreases s.len(),
{
    if s.len() > 0 {
        lemma_unescape_escape_char(s[0], json_escape(s.drop_first()));
        lemma_json_escape_round_trip(s.drop_first());
        assert(seq![s[0]] + s.drop_first() =~= s);
    }
}

/// For every text, unescaping its escaped form reproduces it exactly: the empty
/// text, texts with tabs, newlines and other control characters, and non-ASCII text.
pub proof fn lemma_escape_round_trip(s: Seq<char>)
    ensures
        unescaped(escaped(s)) == Some(s),
{
    let q = json_quoted(s);
    lemma_json_escape_round_trip(q);
    lemma_json_escape_round_trip(s);
    assert(q.subrange(1, q.len() - 1) =~= json_escape(s));
}

} // verus!
