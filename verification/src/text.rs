//! Character-level text handling shared by the whole crate: whitespace in the
//! Unicode sense `str::trim` and `split_whitespace` use, trimming, collapsing a
//! text onto one line, decimal numbers, and the small string builders the rest
//! of the library writes its messages with.
use vstd::prelude::*;

verus! {

/// `String::push` appends one character to the end of the string.
pub assume_specification[ String::push ](string: &mut String, ch: char)
    ensures
        final(string)@ == old(string)@.push(ch),
;

/// `String::push_str` appends a string slice to the end of the string.
pub assume_specification[ String::push_str ](string: &mut String, other: &str)
    ensures
        final(string)@ == old(string)@ + other@,
;

// ── whitespace ──────────────────────────────────────────────────────────────

/// The Unicode `White_Space` property, which `char::is_whitespace`, `str::trim`
/// and `str::split_whitespace` all go by.
pub open spec fn is_ws(c: char) -> bool {
    let n = c as u32;
    ||| 0x09 <= n <= 0x0D
    ||| n == 0x20
    ||| n == 0x85
    ||| n == 0xA0
    ||| n == 0x1680
    ||| 0x2000 <= n <= 0x200A
    ||| n == 0x2028
    ||| n == 0x2029
    ||| n == 0x202F
    ||| n == 0x205F
    ||| n == 0x3000
}

/// Whether `c` is whitespace (`char::is_whitespace`).
pub fn is_whitespace(c: char) -> (b: bool)
    ensures
        b == is_ws(c),
{
    let n = c as u32;
    (0x09 <= n && n <= 0x0D) || n == 0x20 || n == 0x85 || n == 0xA0 || n == 0x1680 || (0x2000
        <= n && n <= 0x200A) || n == 0x2028 || n == 0x2029 || n == 0x202F || n == 0x205F || n
        == 0x3000
}

/// The text with its leading whitespace removed.
pub open spec fn trim_start(s: Seq<char>) -> Seq<char>
    decreases s.len(),
{
    if s.len() > 0 && is_ws(s[0]) {
        trim_start(s.drop_first())
    } else {
        s
    }
}

/// The text with its trailing whitespace removed.
pub open spec fn trim_end(s: Seq<char>) -> Seq<char>
    decreases s.len(),
{
    if s.len() > 0 && is_ws(s.last()) {
        trim_end(s.drop_last())
    } else {
        s
    }
}

/// What `str::trim` leaves: the text without whitespace at either end.
pub open spec fn trim(s: Seq<char>) -> Seq<char> {
    trim_end(trim_start(s))
}

/// A text's words (its maximal runs of non-whitespace) joined by one space:
/// what `split_whitespace().collect::<Vec<_>>().join(" ")` builds. Read left
/// to right, a character is kept when it is not whitespace, and a space goes
/// before it when whitespace came just before it and a word was already kept.
pub open spec fn one_line(s: Seq<char>) -> Seq<char>
    decreases s.len(),
{
    if s.len() == 0 {
        Seq::empty()
    } else {
        let before = one_line(s.drop_last());
        let c = s.last();
        if is_ws(c) {
            before
        } else if s.len() >= 2 && is_ws(s[s.len() - 2]) && before.len() > 0 {
            before.push(' ').push(c)
        } else {
            before.push(c)
        }
    }
}

proof fn lemma_trim_start_skip(s: Seq<char>, i: int)
    requires
        0 <= i < s.len(),
        is_ws(s[i]),
    ensures
        trim_start(s.skip(i)) == trim_start(s.skip(i + 1)),
{
    assert(s.skip(i).drop_first() =~= s.skip(i + 1));
}

proof fn lemma_trim_end_sub(s: Seq<char>, a: int, j: int)
    requires
        0 <= a < j <= s.len(),
        is_ws(s[j - 1]),
    ensures
        trim_end(s.subrange(a, j)) == trim_end(s.subrange(a, j - 1)),
{
    assert(s.subrange(a, j).drop_last() =~= s.subrange(a, j - 1));
}

/// The characters of `s`, in order.
pub fn chars_of(s: &str) -> (v: Vec<char>)
    ensures
        v@ == s@,
{
    let mut v: Vec<char> = Vec::new();
    for c in it: s.chars()
        invariant
            v@ == it.seq().take(it.index() as int),
    {
        v.push(c);
    }
    v
}

/// A `String` holding exactly the characters `v`.
pub fn string_of(v: &[char]) -> (s: String)
    ensures
        s@ == v@,
{
    let mut s = String::new();
    let mut i: usize = 0;
    while i < v.len()
        invariant
            i <= v.len(),
            s@ == v@.take(i as int),
        decreases v.len() - i,
    {
        s.push(v[i]);
        proof {
            assert(v@.take(i + 1) =~= v@.take(i as int).push(v@[i as int]));
        }
        i += 1;
    }
    proof {
        assert(v@.take(v.len() as int) =~= v@);
    }
    s
}

/// The characters `v[from..to]`.
pub fn slice_chars(v: &[char], from: usize, to: usize) -> (r: Vec<char>)
    requires
        from <= to <= v.len(),
    ensures
        r@ == v@.subrange(from as int, to as int),
{
    let mut r: Vec<char> = Vec::new();
    let mut i = from;
    while i < to
        invariant
            from <= i <= to <= v.len(),
            r@ == v@.subrange(from as int, i as int),
        decreases to - i,
    {
        r.push(v[i]);
        proof {
            assert(v@.subrange(from as int, i + 1) =~= v@.subrange(from as int, i as int).push(
                v@[i as int],
            ));
        }
        i += 1;
    }
    r
}

/// `v` without whitespace at either end.
pub fn trim_chars(v: &[char]) -> (r: Vec<char>)
    ensures
        r@ == trim(v@),
{
    let n = v.len();
    let mut i: usize = 0;
    proof {
        assert(v@.skip(0) =~= v@);
    }
    while i < n && is_whitespace(v[i])
        invariant
            i <= n == v.len(),
            trim_start(v@) == trim_start(v@.skip(i as int)),
        decreases n - i,
    {
        proof {
            lemma_trim_start_skip(v@, i as int);
        }
        i += 1;
    }
    proof {
        assert(v@.skip(i as int) =~= v@.subrange(i as int, n as int));
    }
    let mut j: usize = n;
    while j > i && is_whitespace(v[j - 1])
        invariant
            i <= j <= n == v.len(),
            trim_start(v@) == v@.subrange(i as int, n as int),
            trim_end(v@.subrange(i as int, n as int)) == trim_end(v@.subrange(i as int, j as int)),
        decreases j,
    {
        proof {
            lemma_trim_end_sub(v@, i as int, j as int);
        }
        j -= 1;
    }
    slice_chars(v, i, j)
}

/// The characters of `s` with whitespace at either end removed: `str::trim`.
pub fn trim_str(s: &str) -> (r: Vec<char>)
    ensures
        r@ == trim(s@),
{
    let v = chars_of(s);
    trim_chars(&v)
}

/// The words of `v` joined by single spaces.
pub fn one_line_chars(v: &[char]) -> (r: Vec<char>)
    ensures
        r@ == one_line(v@),
{
    let mut r: Vec<char> = Vec::new();
    let mut i: usize = 0;
    while i < v.len()
        invariant
            i <= v.len(),
            r@ == one_line(v@.take(i as int)),
        decreases v.len() - i,
    {
        let c = v[i];
        proof {
            let t = v@.take(i + 1);
            assert(t.drop_last() =~= v@.take(i as int));
            assert(t.last() == c);
            if i >= 1 {
                assert(t[t.len() - 2] == v@[i - 1]);
            }
        }
        if !is_whitespace(c) {
            if i > 0 && is_whitespace(v[i - 1]) && r.len() > 0 {
                r.push(' ');
            }
            r.push(c);
        }
        i += 1;
    }
    proof {
        assert(v@.take(v.len() as int) =~= v@);
    }
    r
}

// ── decimal numbers ─────────────────────────────────────────────────────────

/// The character of a decimal digit.
pub open spec fn digit(d: int) -> char {
    (48 + d) as char
}

/// `n` written in decimal, as `Display` writes an unsigned integer.
pub open spec fn decimal(n: nat) -> Seq<char>
    decreases n,
{
    if n < 10 {
        seq![digit(n as int)]
    } else {
        decimal(n / 10).push(digit((n % 10) as int))
    }
}

/// `n` written in decimal, with a leading `-` when negative, as `Display`
/// writes a signed integer.
pub open spec fn signed_decimal(n: int) -> Seq<char> {
    if n < 0 {
        seq!['-'] + decimal((-n) as nat)
    } else {
        decimal(n as nat)
    }
}

fn digit_char(d: u64) -> (c: char)
    requires
        d < 10,
    ensures
        c == digit(d as int),
{
    let b: u8 = 48 + d as u8;
    b as char
}

/// The decimal digits of `n`.
pub fn decimal_chars(n: u64) -> (r: Vec<char>)
    ensures
        r@ == decimal(n as nat),
    decreases n,
{
    if n < 10 {
        let mut r: Vec<char> = Vec::new();
        r.push(digit_char(n));
        proof {
            assert(r@ =~= seq![digit(n as int)]);
        }
        r
    } else {
        let mut r = decimal_chars(n / 10);
        r.push(digit_char(n % 10));
        r
    }
}

/// `n` in decimal, as `n.to_string()` gives it.
pub fn u64_text(n: u64) -> (s: String)
    ensures
        s@ == decimal(n as nat),
{
    let v = decimal_chars(n);
    string_of(&v)
}

/// `n` in decimal, as `n.to_string()` gives it.
pub fn i64_text(n: i64) -> (s: String)
    ensures
        s@ == signed_decimal(n as int),
{
    if n < 0 {
        let m: u64 = ((-(n + 1)) as u64) + 1;
        let mut s = String::new();
        s.push('-');
        let v = decimal_chars(m);
        let d = string_of(&v);
        s.push_str(d.as_str());
        proof {
            assert(s@ =~= seq!['-'] + decimal((-n) as nat));
        }
        s
    } else {
        u64_text(n as u64)
    }
}

/// Append decimal `n` to `out`.
pub fn push_u64(out: &mut String, n: u64)
    ensures
        final(out)@ == old(out)@ + decimal(n as nat),
{
    let d = u64_text(n);
    out.push_str(d.as_str());
}

/// Append `v` to `out`.
pub fn push_chars(out: &mut String, v: &[char])
    ensures
        final(out)@ == old(out)@ + v@,
{
    let s = string_of(v);
    out.push_str(s.as_str());
}

/// An owned copy of a string slice.
pub fn owned(s: &str) -> (r: String)
    ensures
        r@ == s@,
{
    let mut r = String::new();
    r.push_str(s);
    proof {
        assert(r@ =~= s@);
    }
    r
}

// ── pattern stripping (`trim_start_matches` / `trim_end_matches`) ──────────

/// `s` with every leading repetition of `p` removed, as
/// `str::trim_start_matches(p)` leaves it.
pub open spec fn strip_prefixes(s: Seq<char>, p: Seq<char>) -> Seq<char>
    decreases s.len(),
{
    if p.len() > 0 && p.len() <= s.len() && s.take(p.len() as int) == p {
        strip_prefixes(s.skip(p.len() as int), p)
    } else {
        s
    }
}

/// `s` with every trailing repetition of `p` removed, as
/// `str::trim_end_matches(p)` leaves it.
pub open spec fn strip_suffixes(s: Seq<char>, p: Seq<char>) -> Seq<char>
    decreases s.len(),
{
    if p.len() > 0 && p.len() <= s.len() && s.skip(s.len() - p.len()) == p {
        strip_suffixes(s.take(s.len() - p.len()), p)
    } else {
        s
    }
}

/// Whether `v[at..at + p.len()]` is `p`.
pub fn matches_at(v: &[char], at: usize, p: &[char]) -> (r: bool)
    requires
        at <= v.len(),
    ensures
        r == (p.len() <= v.len() - at && v@.subrange(at as int, at + p.len()) == p@),
{
    if p.len() > v.len() - at {
        return false;
    }
    let mut k: usize = 0;
    while k < p.len()
        invariant
            k <= p.len() <= v.len() - at,
            forall|m: int| 0 <= m < k ==> v@[at + m] == p@[m],
        decreases p.len() - k,
    {
        if v[at + k] != p[k] {
            proof {
                assert(v@.subrange(at as int, at + p.len())[k as int] != p@[k as int]);
            }
            return false;
        }
        k += 1;
    }
    proof {
        assert(v@.subrange(at as int, at + p.len()) =~= p@);
    }
    true
}

/// `v` with the leading repetitions of `p` removed.
pub fn strip_prefixes_chars(v: &[char], p: &[char]) -> (r: Vec<char>)
    ensures
        r@ == strip_prefixes(v@, p@),
{
    if p.len() == 0 {
        return slice_chars(v, 0, v.len());
    }
    let mut i: usize = 0;
    proof {
        assert(v@.skip(0) =~= v@);
    }
    while matches_at(v, i, p)
        invariant
            i <= v.len(),
            p.len() > 0,
            strip_prefixes(v@, p@) == strip_prefixes(v@.skip(i as int), p@),
        decreases v.len() - i,
    {
        proof {
            let s = v@.skip(i as int);
            assert(s.take(p.len() as int) =~= v@.subrange(i as int, i + p.len()));
            assert(s.skip(p.len() as int) =~= v@.skip(i + p.len()));
        }
        i += p.len();
    }
    proof {
        let s = v@.skip(i as int);
        if p.len() <= s.len() {
            assert(s.take(p.len() as int) =~= v@.subrange(i as int, i + p.len()));
        }
        assert(s =~= v@.subrange(i as int, v.len() as int));
    }
    slice_chars(v, i, v.len())
}

/// `v` with the trailing repetitions of `p` removed.
pub fn strip_suffixes_chars(v: &[char], p: &[char]) -> (r: Vec<char>)
    ensures
        r@ == strip_suffixes(v@, p@),
{
    if p.len() == 0 {
        return slice_chars(v, 0, v.len());
    }
    let mut j: usize = v.len();
    proof {
        assert(v@.take(v.len() as int) =~= v@);
    }
    while j >= p.len() && matches_at(v, j - p.len(), p)
        invariant
            j <= v.len(),
            p.len() > 0,
            strip_suffixes(v@, p@) == strip_suffixes(v@.take(j as int), p@),
        decreases j,
    {
        proof {
            let s = v@.take(j as int);
            assert(s.skip(s.len() - p.len()) =~= v@.subrange(j - p.len(), j as int));
            assert(s.take(s.len() - p.len()) =~= v@.take(j - p.len()));
        }
        j -= p.len();
    }
    proof {
        let s = v@.take(j as int);
        if p.len() <= s.len() {
            assert(s.skip(s.len() - p.len()) =~= v@.subrange(j - p.len(), j as int));
        }
        assert(s =~= v@.subrange(0, j as int));
    }
    slice_chars(v, 0, j)
}


/// `s` with its leading and trailing double quotes removed, as
/// `str::trim_matches('"')` leaves it.
pub open spec fn strip_quotes_spec(s: Seq<char>) -> Seq<char> {
    strip_suffixes(strip_prefixes(s, seq!['"']), seq!['"'])
}

/// `v` without double quotes at either end.
pub fn strip_quotes(v: &[char]) -> (r: Vec<char>)
    ensures
        r@ == strip_quotes_spec(v@),
{
    let mut q: Vec<char> = Vec::new();
    q.push('"');
    proof {
        assert(q@ =~= seq!['"']);
    }
    let a = strip_prefixes_chars(v, &q);
    strip_suffixes_chars(&a, &q)
}

// ── comparisons ─────────────────────────────────────────────────────────────

/// Whether `a` and `b` hold the same characters.
pub fn chars_eq(a: &[char], b: &[char]) -> (r: bool)
    ensures
        r == (a@ == b@),
{
    if a.len() != b.len() {
        return false;
    }
    let mut i: usize = 0;
    while i < a.len()
        invariant
            i <= a.len() == b.len(),
            forall|k: int| 0 <= k < i ==> a@[k] == b@[k],
        decreases a.len() - i,
    {
        if a[i] != b[i] {
            return false;
        }
        i += 1;
    }
    proof {
        assert(a@ =~= b@);
    }
    true
}

/// Whether `s` reads exactly `lit`.
pub fn str_is(s: &[char], lit: &str) -> (r: bool)
    ensures
        r == (s@ == lit@),
{
    let l = chars_of(lit);
    chars_eq(s, &l)
}

} // verus!

verus! {

// ── what `{:?}` writes for a string ─────────────────────────────────────────

/// The text `format!("{:?}", s)` writes for a string `s`: the string in double
/// quotes, with the characters `str`'s `Debug` escapes written escaped.
pub uninterp spec fn debug_quoted(s: Seq<char>) -> Seq<char>;

/// A string as its `Debug` formatting writes it (`{:?}`), for the messages
/// that name a value so its edges are visible. Calls `<str as Debug>::fmt`
/// through `format!`; the contract claims only that the result is
/// `debug_quoted` of the input, a function of the input alone.
#[verifier::external_body]
pub(crate) fn debug_str(s: &str) -> (r: String)
    ensures
        r@ == debug_quoted(s@),
{
    format!("{s:?}")
}

} // verus!

verus! {

proof fn lemma_trim_start_no_ws(s: Seq<char>)
    ensures
        s.len() > 0 ==> trim_start(s).len() == 0 || !is_ws(trim_start(s)[0]),
        trim_start(s).len() <= s.len(),
        trim_start(trim_start(s)) == trim_start(s),
    decreases s.len(),
{
    if s.len() > 0 && is_ws(s[0]) {
        lemma_trim_start_no_ws(s.drop_first());
    }
}

proof fn lemma_trim_end_shape(s: Seq<char>)
    ensures
        trim_end(trim_end(s)) == trim_end(s),
        trim_end(s).len() <= s.len(),
        trim_end(s) == s.take(trim_end(s).len() as int),
        trim_end(s).len() > 0 ==> !is_ws(trim_end(s).last()),
    decreases s.len(),
{
    if s.len() > 0 && is_ws(s.last()) {
        lemma_trim_end_shape(s.drop_last());
        assert(s.drop_last().take(trim_end(s).len() as int) =~= s.take(trim_end(s).len() as int));
    } else {
        assert(s.take(s.len() as int) =~= s);
    }
}

proof fn lemma_trim_start_of_prefix(s: Seq<char>, n: int)
    requires
        0 <= n <= s.len(),
        s.len() == 0 || !is_ws(s[0]),
    ensures
        trim_start(s.take(n)) == s.take(n),
{
    if n > 0 {
        assert(s.take(n)[0] == s[0]);
    } else {
        assert(s.take(n).len() == 0);
    }
}

/// Trimming twice trims no more than trimming once.
pub proof fn lemma_trim_idempotent(s: Seq<char>)
    ensures
        trim(trim(s)) == trim(s),
{
    let a = trim_start(s);
    lemma_trim_start_no_ws(s);
    lemma_trim_end_shape(a);
    let b = trim_end(a);
    lemma_trim_start_of_prefix(a, b.len() as int);
    assert(trim_start(b) == b);
}

} // verus!

verus! {

/// A character with ASCII upper case folded to lower, as
/// `char::to_ascii_lowercase` does; every other character unchanged.
pub open spec fn ascii_lower_char(c: char) -> char {
    if 'A' <= c && c <= 'Z' {
        ((c as u32) + 32) as char
    } else {
        c
    }
}

/// A text with ASCII upper case folded to lower (`str::to_ascii_lowercase`).
pub open spec fn ascii_lower(s: Seq<char>) -> Seq<char> {
    s.map_values(|c: char| ascii_lower_char(c))
}

fn lower_char(c: char) -> (r: char)
    ensures
        r == ascii_lower_char(c),
{
    if 'A' <= c && c <= 'Z' {
        let b: u8 = (c as u32 + 32) as u8;
        b as char
    } else {
        c
    }
}

/// `v` with ASCII upper case folded to lower.
pub fn ascii_lower_chars(v: &[char]) -> (r: Vec<char>)
    ensures
        r@ == ascii_lower(v@),
{
    let mut r: Vec<char> = Vec::new();
    let mut i: usize = 0;
    while i < v.len()
        invariant
            i <= v.len(),
            r@ == ascii_lower(v@.take(i as int)),
        decreases v.len() - i,
    {
        r.push(lower_char(v[i]));
        proof {
            assert(ascii_lower(v@.take(i + 1)) =~= ascii_lower(v@.take(i as int)).push(
                ascii_lower_char(v@[i as int]),
            ));
        }
        i += 1;
    }
    proof {
        assert(v@.take(v.len() as int) =~= v@);
    }
    r
}

} // verus!

verus! {

// ── splitting ───────────────────────────────────────────────────────────────

/// The pieces `str::split(sep)` yields: the text between separators, in
/// order, empty pieces included; a text with no separator is one piece.
pub open spec fn split_spec(s: Seq<char>, sep: char) -> Seq<Seq<char>>
    decreases s.len(),
{
    if s.len() == 0 {
        seq![Seq::empty()]
    } else {
        let before = split_spec(s.drop_last(), sep);
        if s.last() == sep {
            before.push(Seq::empty())
        } else {
            before.update(before.len() - 1, before.last().push(s.last()))
        }
    }
}

/// Splitting always yields at least one piece.
pub proof fn lemma_split_nonempty(s: Seq<char>, sep: char)
    ensures
        split_spec(s, sep).len() >= 1,
    decreases s.len(),
{
    if s.len() > 0 {
        lemma_split_nonempty(s.drop_last(), sep);
    }
}

/// The views of a list of character vectors.
pub open spec fn views(v: Seq<Vec<char>>) -> Seq<Seq<char>> {
    v.map_values(|x: Vec<char>| x@)
}

/// `v` split at every `sep`.
pub fn split_chars(v: &[char], sep: char) -> (r: Vec<Vec<char>>)
    ensures
        views(r@) == split_spec(v@, sep),
{
    let mut done: Vec<Vec<char>> = Vec::new();
    let mut cur: Vec<char> = Vec::new();
    let mut i: usize = 0;
    proof {
        assert(v@.take(0) =~= Seq::<char>::empty());
        assert(views(done@).push(cur@) =~= seq![Seq::<char>::empty()]);
    }
    while i < v.len()
        invariant
            i <= v.len(),
            views(done@).push(cur@) == split_spec(v@.take(i as int), sep),
        decreases v.len() - i,
    {
        let c = v[i];
        proof {
            let t = v@.take(i + 1);
            assert(t.drop_last() =~= v@.take(i as int));
            assert(t.last() == c);
            lemma_split_nonempty(v@.take(i as int), sep);
        }
        if c == sep {
            let finished = cur;
            done.push(finished);
            cur = Vec::new();
            proof {
                assert(views(done@) =~= split_spec(v@.take(i as int), sep));
                assert(views(done@).push(cur@) =~= split_spec(v@.take(i as int), sep).push(
                    Seq::empty(),
                ));
            }
        } else {
            let ghost before = split_spec(v@.take(i as int), sep);
            cur.push(c);
            proof {
                assert(views(done@).push(cur@) =~= before.update(
                    before.len() - 1,
                    before.last().push(c),
                ));
            }
        }
        i += 1;
    }
    let ghost last = cur@;
    done.push(cur);
    proof {
        assert(v@.take(v.len() as int) =~= v@);
        assert(views(done@) =~= split_spec(v@, sep));
    }
    done
}

} // verus!

verus! {

/// `str::trim` returns the part of the string between its leading and
/// trailing Unicode `White_Space`.
pub assume_specification[ std::primitive::str::trim ](s: &str) -> (r: &str)
    ensures
        r@ == trim(s@),
;

/// The part of `s` between its leading and trailing whitespace, borrowed.
pub fn trim_slice(s: &str) -> (r: &str)
    ensures
        r@ == trim(s@),
{
    s.trim()
}

} // verus!

verus! {

/// The texts of a list of strings.
pub open spec fn texts(v: Seq<String>) -> Seq<Seq<char>> {
    v.map_values(|s: String| s@)
}

/// `v[from..]`, copied.
pub fn copy_strings(v: &Vec<String>, from: usize) -> (r: Vec<String>)
    requires
        from <= v@.len(),
    ensures
        texts(r@) == texts(v@).skip(from as int),
{
    let mut r: Vec<String> = Vec::new();
    let mut i = from;
    while i < v.len()
        invariant
            from <= i <= v@.len(),
            texts(r@) == texts(v@).subrange(from as int, i as int),
        decreases v@.len() - i,
    {
        let ghost before = r@;
        let s = v[i].clone();
        r.push(s);
        proof {
            assert(r@ == before.push(s));
            assert(texts(r@) =~= texts(before).push(s@));
            assert(texts(v@)[i as int] == v@[i as int]@);
            assert(texts(v@).subrange(from as int, i + 1) =~= texts(v@).subrange(from as int, i as int).push(texts(v@)[i as int]));
        }
        i += 1;
    }
    proof {
        assert(texts(v@).subrange(from as int, v@.len() as int) =~= texts(v@).skip(from as int));
    }
    r
}


} // verus!

verus! {

// ── one line ────────────────────────────────────────────────────────────────

/// A text that reads as one line: no whitespace at either end, and inside it
/// only single spaces, each between two characters that are not whitespace.
pub open spec fn is_one_line(t: Seq<char>) -> bool {
    &&& t.len() > 0 ==> !is_ws(t[0]) && !is_ws(t.last())
    &&& forall|i: int|
        0 <= i < t.len() && is_ws(#[trigger] t[i]) ==> t[i] == ' ' && 0 < i < t.len() - 1 && !is_ws(
            t[i - 1],
        ) && !is_ws(t[i + 1])
}

proof fn lemma_one_line_shape(s: Seq<char>)
    ensures
        is_one_line(one_line(s)),
    decreases s.len(),
{
    if s.len() > 0 {
        lemma_one_line_shape(s.drop_last());
        let before = one_line(s.drop_last());
        let c = s.last();
        let r = one_line(s);
        if is_ws(c) {
        } else if s.len() >= 2 && is_ws(s[s.len() - 2]) && before.len() > 0 {
            assert(r == before.push(' ').push(c));
            assert forall|i: int| 0 <= i < r.len() && is_ws(#[trigger] r[i]) implies r[i] == ' ' && 0 < i
                < r.len() - 1 && !is_ws(r[i - 1]) && !is_ws(r[i + 1]) by {
                if i < before.len() {
                    assert(r[i] == before[i]);
                    if i + 1 < before.len() {
                        assert(r[i + 1] == before[i + 1]);
                    } else {
                        assert(!is_ws(before.last()));
                    }
                    assert(r[i - 1] == before[i - 1]);
                } else if i == before.len() {
                    assert(r[i - 1] == before.last());
                    assert(r[i + 1] == c);
                }
            }
            assert(r[0] == before[0]);
        } else {
            assert(r == before.push(c));
            assert forall|i: int| 0 <= i < r.len() && is_ws(#[trigger] r[i]) implies r[i] == ' ' && 0 < i
                < r.len() - 1 && !is_ws(r[i - 1]) && !is_ws(r[i + 1]) by {
                assert(i < before.len());
                assert(r[i] == before[i]);
                assert(r[i - 1] == before[i - 1]);
                if i + 1 < before.len() {
                    assert(r[i + 1] == before[i + 1]);
                }
            }
            if before.len() > 0 {
                assert(r[0] == before[0]);
            }
        }
    }
}

proof fn lemma_one_line_keeps_a_line(t: Seq<char>)
    requires
        is_one_line(t),
    ensures
        one_line(t) == t,
    decreases t.len(),
{
    if t.len() > 0 {
        let u = t.drop_last();
        let c = t.last();
        assert(!is_ws(c));
        if u.len() > 0 && is_ws(u.last()) {
            // the last space, with the line before it
            assert(is_ws(t[u.len() - 1]));
            let w = u.drop_last();
            assert(w.len() > 0);
            assert(!is_ws(w.last())) by {
                assert(w.last() == t[u.len() - 2]);
            }
            assert(is_one_line(w)) by {
                assert(!is_ws(w[0])) by {
                    assert(w[0] == t[0]);
                }
                assert forall|i: int| 0 <= i < w.len() && is_ws(#[trigger] w[i]) implies w[i] == ' ' && 0 < i
                    < w.len() - 1 && !is_ws(w[i - 1]) && !is_ws(w[i + 1]) by {
                    assert(w[i] == t[i]);
                    assert(w[i - 1] == t[i - 1]);
                    assert(w[i + 1] == t[i + 1]);
                }
            }
            lemma_one_line_keeps_a_line(w);
            assert(one_line(u) == one_line(w));
            assert(t[t.len() - 2] == u.last());
            assert(u.last() == ' ');
            assert(t =~= w.push(' ').push(c));
        } else {
            assert(is_one_line(u)) by {
                if u.len() > 0 {
                    assert(u[0] == t[0]);
                }
                assert forall|i: int| 0 <= i < u.len() && is_ws(#[trigger] u[i]) implies u[i] == ' ' && 0 < i
                    < u.len() - 1 && !is_ws(u[i - 1]) && !is_ws(u[i + 1]) by {
                    assert(u[i] == t[i]);
                    assert(u[i - 1] == t[i - 1]);
                    assert(u[i + 1] == t[i + 1]);
                }
            }
            lemma_one_line_keeps_a_line(u);
            if t.len() >= 2 {
                assert(t[t.len() - 2] == u.last());
            }
            assert(t =~= u.push(c));
        }
    }
}

/// Collapsing a text to one line gives one line, and collapsing that again
/// changes nothing.
pub proof fn law_one_line(s: Seq<char>)
    ensures
        is_one_line(one_line(s)),
        one_line(one_line(s)) == one_line(s),
{
    lemma_one_line_shape(s);
    lemma_one_line_keeps_a_line(one_line(s));
}

} // verus!

verus! {

/// A trimmed text that is not empty starts and ends with a character that is
/// not whitespace.
pub proof fn lemma_trim_ends(t: Seq<char>)
    requires
        trim(t) == t,
        t.len() > 0,
    ensures
        !is_ws(t[0]),
        !is_ws(t.last()),
{
    let a = trim_start(t);
    lemma_trim_start_no_ws(t);
    lemma_trim_end_shape(a);
    assert(trim_end(a).len() > 0);
    assert(a.len() > 0);
    assert(t[0] == a[0]) by {
        assert(trim_end(a)[0] == a.take(trim_end(a).len() as int)[0]);
    }
}

/// A text whose ends are not whitespace is its own trim.
pub proof fn lemma_trim_of_clean_ends(l: Seq<char>)
    requires
        l.len() > 0,
        !is_ws(l[0]),
        !is_ws(l.last()),
    ensures
        trim(l) == l,
{
    assert(trim_start(l) == l);
    assert(trim_end(l) == l);
}

/// The characters of a text that are not whitespace, in order.
pub open spec fn ink(s: Seq<char>) -> Seq<char>
    decreases s.len(),
{
    if s.len() == 0 {
        Seq::empty()
    } else if is_ws(s.last()) {
        ink(s.drop_last())
    } else {
        ink(s.drop_last()).push(s.last())
    }
}

/// Collapsing a text to one line keeps every character that is not
/// whitespace, in order, and adds none: only whitespace changes.
pub proof fn law_one_line_keeps_the_words(s: Seq<char>)
    ensures
        ink(one_line(s)) == ink(s),
    decreases s.len(),
{
    if s.len() > 0 {
        law_one_line_keeps_the_words(s.drop_last());
        let before = one_line(s.drop_last());
        let c = s.last();
        if !is_ws(c) {
            let spaced = before.push(' ');
            assert(spaced.push(c).drop_last() =~= spaced);
            assert(spaced.push(c).last() == c);
            assert(spaced.drop_last() =~= before);
            assert(spaced.last() == ' ');
            assert(is_ws(' '));
            assert(ink(spaced) == ink(before));
            assert(ink(spaced.push(c)) == ink(before).push(c));
            assert(before.push(c).drop_last() =~= before);
            assert(before.push(c).last() == c);
            assert(ink(before.push(c)) == ink(before).push(c));
            assert(ink(s) == ink(s.drop_last()).push(c));
        } else {
            assert(ink(s) == ink(s.drop_last()));
        }
    }
}

} // verus!
