//! How a list of strings is written as JSON, as `serde_json` writes it: the
//! compact form, with the escapes its string writer uses.
use vstd::prelude::*;
use crate::cache::hex_digit;
use crate::text::texts;

verus! {

/// One character inside a JSON string: the quote, the backslash and the
/// control characters escaped (`\b \t \n \f \r` by name, the rest of
/// U+0000..U+001F as `\u00` and two lowercase hex digits), anything else as
/// it is.
pub open spec fn json_char(c: char) -> Seq<char> {
    if c == '"' {
        seq!['\\', '"']
    } else if c == '\\' {
        seq!['\\', '\\']
    } else if c == '\u{8}' {
        seq!['\\', 'b']
    } else if c == '\t' {
        seq!['\\', 't']
    } else if c == '\n' {
        seq!['\\', 'n']
    } else if c == '\u{c}' {
        seq!['\\', 'f']
    } else if c == '\r' {
        seq!['\\', 'r']
    } else if (c as int) < 0x20 {
        seq!['\\', 'u', '0', '0', hex_digit((c as int) / 16), hex_digit((c as int) % 16)]
    } else {
        seq![c]
    }
}

/// The characters of a string, each as it is written inside a JSON string.
pub open spec fn json_chars(s: Seq<char>) -> Seq<char>
    decreases s.len(),
{
    if s.len() == 0 {
        Seq::empty()
    } else {
        json_chars(s.drop_last()) + json_char(s.last())
    }
}

/// A string as a JSON string: quoted and escaped.
pub open spec fn json_string(s: Seq<char>) -> Seq<char> {
    seq!['"'] + json_chars(s) + seq!['"']
}

/// The JSON strings of a list, separated by commas.
pub open spec fn json_items(l: Seq<Seq<char>>) -> Seq<char>
    decreases l.len(),
{
    if l.len() == 0 {
        Seq::empty()
    } else if l.len() == 1 {
        json_string(l[0])
    } else {
        json_items(l.drop_last()) + seq![','] + json_string(l.last())
    }
}

/// A list of strings as a compact JSON array.
pub open spec fn json_string_array(l: Seq<Seq<char>>) -> Seq<char> {
    seq!['['] + json_items(l) + seq![']']
}

/// `serde_json::to_string` on a list of strings: the compact JSON array, in
/// order. It does not fail here: the text is written into a `Vec<u8>`, which
/// takes every write, and a string serializes without an error path.
#[verifier::external_body]
pub(crate) fn write_json_strings(l: &[String]) -> (r: Option<String>)
    ensures
        r is Some,
        r matches Some(t) ==> t@ == json_string_array(texts(l@)),
{
    serde_json::to_string(l).ok()
}

} // verus!

verus! {

/// A character JSON lets a string hold as it is: not the quote, not the
/// backslash, not a control character.
pub open spec fn json_plain(c: char) -> bool {
    c != '"' && c != '\\' && (c as int) >= 0x20
}

/// The value of a hexadecimal digit, either case, or -1.
pub open spec fn json_hex(c: char) -> int {
    if '0' <= c && c <= '9' {
        c as int - 48
    } else if 'a' <= c && c <= 'f' {
        c as int - 87
    } else if 'A' <= c && c <= 'F' {
        c as int - 55
    } else {
        -1
    }
}

/// The body of a JSON string read back as a JSON reader reads it: plain
/// characters as themselves, and each escape as the character it names;
/// `None` when the body holds a bare quote, a bare control character or an
/// escape JSON does not have (a `\u` escape is read here for the basic
/// plane outside the surrogates).
pub open spec fn json_unescape(t: Seq<char>) -> Option<Seq<char>>
    decreases t.len(),
{
    if t.len() == 0 {
        Some(Seq::empty())
    } else if t[0] == '\\' {
        if t.len() < 2 {
            None
        } else {
            let e = t[1];
            let simple: Option<char> = if e == '"' {
                Some('"')
            } else if e == '\\' {
                Some('\\')
            } else if e == '/' {
                Some('/')
            } else if e == 'b' {
                Some('\u{8}')
            } else if e == 'f' {
                Some('\u{c}')
            } else if e == 'n' {
                Some('\n')
            } else if e == 'r' {
                Some('\r')
            } else if e == 't' {
                Some('\t')
            } else {
                None
            };
            match simple {
                Some(c) => match json_unescape(t.skip(2)) {
                    Some(r) => Some(seq![c] + r),
                    None => None,
                },
                None => if e == 'u' && t.len() >= 6 && json_hex(t[2]) >= 0 && json_hex(t[3]) >= 0 && json_hex(t[4])
                    >= 0 && json_hex(t[5]) >= 0 {
                    let v = json_hex(t[2]) * 4096 + json_hex(t[3]) * 256 + json_hex(t[4]) * 16 + json_hex(t[5]);
                    if v < 0xD800 || v > 0xDFFF {
                        match json_unescape(t.skip(6)) {
                            Some(r) => Some(seq![v as char] + r),
                            None => None,
                        }
                    } else {
                        None
                    }
                } else {
                    None
                },
            }
        }
    } else if json_plain(t[0]) {
        match json_unescape(t.skip(1)) {
            Some(r) => Some(seq![t[0]] + r),
            None => None,
        }
    } else {
        None
    }
}

proof fn lemma_json_front(s: Seq<char>)
    requires
        s.len() > 0,
    ensures
        json_chars(s) == json_char(s[0]) + json_chars(s.drop_first()),
    decreases s.len(),
{
    if s.len() == 1 {
        assert(s.drop_last() =~= Seq::<char>::empty());
        assert(s.drop_first() =~= Seq::<char>::empty());
        assert(json_chars(s.drop_first()) =~= Seq::<char>::empty());
        assert(json_chars(s) =~= json_char(s[0]));
    } else {
        lemma_json_front(s.drop_last());
        assert(s.drop_last().drop_first() =~= s.drop_first().drop_last());
        assert(s.drop_first().last() == s.last());
        assert(json_chars(s) =~= json_char(s[0]) + json_chars(s.drop_first()));
    }
}

proof fn lemma_json_char_reads_back(c: char, r: Seq<char>, rest: Seq<char>)
    requires
        json_unescape(r) == Some(rest),
    ensures
        json_unescape(json_char(c) + r) == Some(seq![c] + rest),
{
    let t = json_char(c) + r;
    let e = json_char(c);
    if c == '"' || c == '\\' || c == '\u{8}' || c == '\t' || c == '\n' || c == '\u{c}' || c == '\r' {
        assert(t[0] == '\\');
        assert(t[1] == e[1]);
        assert(t.skip(2) =~= r);
    } else if (c as int) < 0x20 {
        let n = c as int;
        assert(t[0] == '\\' && t[1] == 'u');
        assert(t[2] == '0' && t[3] == '0');
        assert(t[4] == hex_digit(n / 16));
        assert(t[5] == hex_digit(n % 16));
        assert(json_hex(hex_digit(n / 16)) == n / 16);
        assert(json_hex(hex_digit(n % 16)) == n % 16);
        assert(t.skip(6) =~= r);
        let v = json_hex(t[2]) * 4096 + json_hex(t[3]) * 256 + json_hex(t[4]) * 16 + json_hex(t[5]);
        assert(v == n);
        assert((v as char) == c);
    } else {
        assert(t[0] == c);
        assert(json_plain(c));
        assert(t.skip(1) =~= r);
    }
}

/// A string written into JSON reads back as itself: the body holds no bare
/// quote, backslash or control character, and each escape names the
/// character it replaced, so the text ends where the string does and a JSON
/// reader gets exactly the string back.
pub proof fn law_json_string_reads_back(s: Seq<char>)
    ensures
        json_unescape(json_chars(s)) == Some(s),
    decreases s.len(),
{
    if s.len() == 0 {
        assert(json_chars(s) =~= Seq::<char>::empty());
    } else {
        lemma_json_front(s);
        law_json_string_reads_back(s.drop_first());
        lemma_json_char_reads_back(s[0], json_chars(s.drop_first()), s.drop_first());
        assert(seq![s[0]] + s.drop_first() =~= s);
    }
}

} // verus!
