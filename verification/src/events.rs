//! What a pack's live event stream carries of a document edit: the edit's
//! bytes in base64, because the room is server-sent events, which is a text
//! protocol, and the alternative would be a second transport for one field.
use vstd::prelude::*;
use base64::Engine;

verus! {

/// The character of the standard base64 alphabet for a value below 64:
/// `A`-`Z`, `a`-`z`, `0`-`9`, `+`, `/`.
pub open spec fn b64_char(n: int) -> char {
    if n < 26 {
        (65 + n) as char
    } else if n < 52 {
        (71 + n) as char
    } else if n < 62 {
        (n - 4) as char
    } else if n == 62 {
        '+'
    } else {
        '/'
    }
}

/// Bytes in standard base64 with padding: each three bytes as four
/// characters of six bits each, high bits first; a last one or two bytes as
/// two or three characters and `=` to fill the four.
pub open spec fn base64_standard(b: Seq<u8>) -> Seq<char>
    decreases b.len(),
{
    if b.len() == 0 {
        Seq::empty()
    } else if b.len() == 1 {
        seq![b64_char(b[0] as int / 4), b64_char((b[0] as int % 4) * 16), '=', '=']
    } else if b.len() == 2 {
        seq![
            b64_char(b[0] as int / 4),
            b64_char((b[0] as int % 4) * 16 + b[1] as int / 16),
            b64_char((b[1] as int % 16) * 4),
            '=',
        ]
    } else {
        seq![
            b64_char(b[0] as int / 4),
            b64_char((b[0] as int % 4) * 16 + b[1] as int / 16),
            b64_char((b[1] as int % 16) * 4 + b[2] as int / 64),
            b64_char(b[2] as int % 64),
        ] + base64_standard(b.skip(3))
    }
}

/// How long the padded base64 of `n` bytes is: four characters for every
/// three bytes or part of three.
pub open spec fn base64_len(n: int) -> int {
    (n / 3) * 4 + if n % 3 > 0 { 4int } else { 0int }
}

/// `base64::engine::general_purpose::STANDARD.encode`: the bytes in standard
/// base64 with padding. The crate refuses (panics) when the encoded length
/// does not fit in a `usize`, which the requirement rules out.
#[verifier::external_body]
fn base64_encode(bytes: &[u8]) -> (s: String)
    requires
        base64_len(bytes@.len() as int) <= usize::MAX,
    ensures
        s@ == base64_standard(bytes@),
{
    base64::engine::general_purpose::STANDARD.encode(bytes)
}

/// The payload of a document edit as the pack's event stream carries it to
/// everyone else in the pack: the edit's bytes in base64.
pub fn doc_update_payload(body: &[u8]) -> (s: String)
    requires
        base64_len(body@.len() as int) <= usize::MAX,
    ensures
        s@ == base64_standard(body@),
{
    base64_encode(body)
}

/// The payload is text an event stream can carry as it is: four characters
/// for every three bytes or part of three, each one of the base64 alphabet or
/// the `=` that pads the last four.
pub proof fn law_doc_update_is_plain_text(b: Seq<u8>)
    ensures
        base64_standard(b).len() == base64_len(b.len() as int),
        forall|i: int|
            0 <= i < base64_standard(b).len() ==> {
                let c = #[trigger] base64_standard(b)[i];
                ('A' <= c <= 'Z') || ('a' <= c <= 'z') || ('0' <= c <= '9') || c == '+' || c == '/' || c == '='
            },
    decreases b.len(),
{
    if b.len() >= 3 {
        law_doc_update_is_plain_text(b.skip(3));
        let head = seq![
            b64_char(b[0] as int / 4),
            b64_char((b[0] as int % 4) * 16 + b[1] as int / 16),
            b64_char((b[1] as int % 16) * 4 + b[2] as int / 64),
            b64_char(b[2] as int % 64),
        ];
        let rest = base64_standard(b.skip(3));
        assert(base64_standard(b) == head + rest);
        assert((b[0] as int % 4) * 16 + b[1] as int / 16 < 64);
        assert((b[1] as int % 16) * 4 + b[2] as int / 64 < 64);
        assert forall|i: int| 0 <= i < base64_standard(b).len() implies {
            let c = #[trigger] base64_standard(b)[i];
            ('A' <= c <= 'Z') || ('a' <= c <= 'z') || ('0' <= c <= '9') || c == '+' || c == '/' || c == '='
        } by {
            if i < 4 {
                assert(base64_standard(b)[i] == head[i]);
            } else {
                assert(base64_standard(b)[i] == rest[i - 4]);
            }
        }
    } else if b.len() == 2 {
        assert((b[0] as int % 4) * 16 + b[1] as int / 16 < 64);
        assert((b[1] as int % 16) * 4 < 64);
    } else if b.len() == 1 {
        assert((b[0] as int % 4) * 16 < 64);
    }
}

} // verus!

verus! {

/// The value a character of the standard base64 alphabet stands for, or -1
/// for a character outside it.
pub open spec fn b64_value(c: char) -> int {
    if 'A' <= c && c <= 'Z' {
        c as int - 65
    } else if 'a' <= c && c <= 'z' {
        c as int - 71
    } else if '0' <= c && c <= '9' {
        c as int + 4
    } else if c == '+' {
        62
    } else if c == '/' {
        63
    } else {
        -1
    }
}

/// Standard base64 read back: each four characters give three bytes, or two
/// when the last is `=`, or one when the last two are.
pub open spec fn base64_decode(t: Seq<char>) -> Seq<u8>
    decreases t.len(),
{
    if t.len() < 4 {
        Seq::empty()
    } else {
        let v0 = b64_value(t[0]);
        let v1 = b64_value(t[1]);
        let v2 = b64_value(t[2]);
        let v3 = b64_value(t[3]);
        let x0 = (v0 * 4 + v1 / 16) as u8;
        let x1 = ((v1 % 16) * 16 + v2 / 4) as u8;
        let x2 = ((v2 % 4) * 64 + v3) as u8;
        if t[2] == '=' {
            seq![x0]
        } else if t[3] == '=' {
            seq![x0, x1]
        } else {
            seq![x0, x1, x2] + base64_decode(t.skip(4))
        }
    }
}

proof fn lemma_b64_value(n: int)
    requires
        0 <= n < 64,
    ensures
        b64_value(b64_char(n)) == n,
        b64_char(n) != '=',
{
}

proof fn lemma_b64_groups(x0: int, x1: int, x2: int)
    requires
        0 <= x0 < 256,
        0 <= x1 < 256,
        0 <= x2 < 256,
    ensures
        (x0 / 4) * 4 + ((x0 % 4) * 16 + x1 / 16) / 16 == x0,
        (((x0 % 4) * 16 + x1 / 16) % 16) * 16 + ((x1 % 16) * 4 + x2 / 64) / 4 == x1,
        (((x1 % 16) * 4 + x2 / 64) % 4) * 64 + x2 % 64 == x2,
        ((x1 % 16) * 4) / 4 == x1 % 16,
        ((x0 % 4) * 16 + x1 / 16) < 64,
        ((x1 % 16) * 4 + x2 / 64) < 64,
        (x0 % 4) * 16 / 16 == x0 % 4,
{
}

/// The payload reads back as the edit: decoding the base64 of any bytes
/// gives those bytes exactly.
pub proof fn law_doc_update_reads_back(b: Seq<u8>)
    ensures
        base64_decode(base64_standard(b)) == b,
    decreases b.len(),
{
    if b.len() == 0 {
        assert(base64_standard(b).len() == 0);
        assert(base64_decode(base64_standard(b)) =~= b);
    } else {
        let x0 = b[0] as int;
        let x1 = if b.len() > 1 { b[1] as int } else { 0 };
        let x2 = if b.len() > 2 { b[2] as int } else { 0 };
        lemma_b64_groups(x0, x1, x2);
        lemma_b64_value(x0 / 4);
        lemma_b64_value((x0 % 4) * 16 + x1 / 16);
        lemma_b64_value((x0 % 4) * 16);
        lemma_b64_value((x1 % 16) * 4 + x2 / 64);
        lemma_b64_value((x1 % 16) * 4);
        lemma_b64_value(x2 % 64);
        let t = base64_standard(b);
        if b.len() == 1 {
            assert(base64_decode(t) =~= b);
        } else if b.len() == 2 {
            assert(base64_decode(t) =~= b);
        } else {
            law_doc_update_reads_back(b.skip(3));
            let head = seq![
                b64_char(x0 / 4),
                b64_char((x0 % 4) * 16 + x1 / 16),
                b64_char((x1 % 16) * 4 + x2 / 64),
                b64_char(x2 % 64),
            ];
            assert(t == head + base64_standard(b.skip(3)));
            assert(t.skip(4) =~= base64_standard(b.skip(3)));
            assert(seq![b[0], b[1], b[2]] + b.skip(3) =~= b);
            assert(base64_decode(t) =~= b);
        }
    }
}

} // verus!
