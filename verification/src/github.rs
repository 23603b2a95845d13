//! The github.com release-download address a cache ingest fetches from.
//!
//! The host is fixed, the repository is kept strict (`owner/name`: it is the
//! part of the path that decides where the request goes), and the tag and
//! asset are single path segments, percent-encoded, that can neither add depth
//! nor traverse.
use vstd::prelude::*;
use crate::text::{chars_of, owned, push_chars, slice_chars, str_is, string_of, strip_prefixes, strip_prefixes_chars, strip_suffixes, strip_suffixes_chars, trim, trim_str};

verus! {

// ── segments ────────────────────────────────────────────────────────────────

/// A character an owner or repository name may hold.
pub open spec fn repo_char(c: char) -> bool {
    let n = c as u32;
    ||| 0x30 <= n <= 0x39
    ||| 0x41 <= n <= 0x5A
    ||| 0x61 <= n <= 0x7A
    ||| c == '.'
    ||| c == '_'
    ||| c == '-'
    ||| c == '+'
}

/// A non-empty owner or repository name.
pub open spec fn safe_seg_spec(s: Seq<char>) -> bool {
    s.len() > 0 && forall|i: int| 0 <= i < s.len() ==> repo_char(#[trigger] s[i])
}

/// A control character (Unicode category Cc), as `char::is_control` reads it.
pub open spec fn is_control(c: char) -> bool {
    let n = c as u32;
    n <= 0x1F || (0x7F <= n && n <= 0x9F)
}

/// A tag or asset name that keeps the URL's shape: not empty, not `.` or
/// `..`, with no path separator of either kind and no control character.
pub open spec fn safe_path_seg_spec(s: Seq<char>) -> bool {
    &&& s.len() > 0
    &&& s != "."@
    &&& s != ".."@
    &&& forall|i: int|
        0 <= i < s.len() ==> #[trigger] s[i] != '/' && s[i] != '\\' && !is_control(s[i])
}

/// The repository as `owner/name`: one slash with a safe name on each side.
pub open spec fn repo_ok(s: Seq<char>) -> bool {
    exists|k: int|
        0 <= k < s.len() && s[k] == '/' && safe_seg_spec(s.take(k)) && safe_seg_spec(
            s.skip(k + 1),
        )
}

fn is_repo_char(c: char) -> (b: bool)
    ensures
        b == repo_char(c),
{
    let n = c as u32;
    (0x30 <= n && n <= 0x39) || (0x41 <= n && n <= 0x5A) || (0x61 <= n && n <= 0x7A) || c == '.'
        || c == '_' || c == '-' || c == '+'
}

/// Whether `s` is a non-empty run of name characters.
pub fn safe_seg(s: &[char]) -> (b: bool)
    ensures
        b == safe_seg_spec(s@),
{
    if s.len() == 0 {
        return false;
    }
    let mut i: usize = 0;
    while i < s.len()
        invariant
            i <= s.len(),
            forall|k: int| 0 <= k < i ==> repo_char(s@[k]),
        decreases s.len() - i,
    {
        if !is_repo_char(s[i]) {
            return false;
        }
        i += 1;
    }
    true
}

/// Whether `s` is one path segment that keeps the URL's shape.
pub fn safe_path_seg(s: &[char]) -> (b: bool)
    ensures
        b == safe_path_seg_spec(s@),
{
    if s.len() == 0 || str_is(s, ".") || str_is(s, "..") {
        return false;
    }
    let mut i: usize = 0;
    while i < s.len()
        invariant
            i <= s.len(),
            forall|k: int| 0 <= k < i ==> s@[k] != '/' && s@[k] != '\\' && !is_control(s@[k]),
        decreases s.len() - i,
    {
        let c = s[i];
        let n = c as u32;
        if c == '/' || c == '\\' || n <= 0x1F || (0x7F <= n && n <= 0x9F) {
            return false;
        }
        i += 1;
    }
    true
}

/// Whether `s` names a repository as `owner/name`.
pub fn repo_is_ok(s: &[char]) -> (b: bool)
    ensures
        b == repo_ok(s@),
{
    let mut k: usize = 0;
    while k < s.len() && s[k] != '/'
        invariant
            k <= s.len(),
            forall|m: int| 0 <= m < k ==> s@[m] != '/',
        decreases s.len() - k,
    {
        k += 1;
    }
    if k == s.len() {
        return false;
    }
    let owner = slice_chars(s, 0, k);
    let name = slice_chars(s, k + 1, s.len());
    proof {
        assert(owner@ =~= s@.take(k as int));
        assert(name@ =~= s@.skip(k + 1));
    }
    let ok = safe_seg(&owner) && safe_seg(&name);
    proof {
        if !ok {
            assert forall|j: int|
                0 <= j < s@.len() && s@[j] == '/' implies !(safe_seg_spec(s@.take(j))
                && safe_seg_spec(s@.skip(j + 1))) by {
                if j > k {
                    assert(s@.take(j)[k as int] == '/');
                } else if j == k {
                } else {
                    assert(s@[j] != '/');
                }
            }
        }
    }
    ok
}

// ── percent-encoding ───────────────────────────────────────────────────────

/// The bytes a path segment percent-encodes: the controls, and everything
/// that could be read as URL structure.
pub open spec fn encoded_byte(b: u8) -> bool {
    ||| b < 0x20
    ||| b == 0x7F
    ||| b == 0x20
    ||| b == 0x22
    ||| b == 0x23
    ||| b == 0x25
    ||| b == 0x3C
    ||| b == 0x3E
    ||| b == 0x3F
    ||| b == 0x5B
    ||| b == 0x5C
    ||| b == 0x5D
    ||| b == 0x5E
    ||| b == 0x60
    ||| b == 0x7B
    ||| b == 0x7C
    ||| b == 0x7D
    ||| b == 0x2F
    ||| b == 0x26
    ||| b == 0x3D
    ||| b == 0x2B
}

/// An upper-case hexadecimal digit.
pub open spec fn hex_upper(n: int) -> char {
    if n < 10 {
        (48 + n) as char
    } else {
        (55 + n) as char
    }
}

/// One byte as it appears in the encoded segment: itself when it is plain
/// ASCII outside the set, otherwise `%` and two upper-case hex digits.
pub open spec fn pct_byte(b: u8) -> Seq<char> {
    if b < 0x80 && !encoded_byte(b) {
        seq![b as char]
    } else {
        seq!['%', hex_upper((b / 16) as int), hex_upper((b % 16) as int)]
    }
}

/// A byte string percent-encoded byte by byte.
pub open spec fn pct_encode(bs: Seq<u8>) -> Seq<char>
    decreases bs.len(),
{
    if bs.len() == 0 {
        Seq::empty()
    } else {
        pct_encode(bs.drop_last()) + pct_byte(bs.last())
    }
}

fn is_encoded_byte(b: u8) -> (r: bool)
    ensures
        r == encoded_byte(b),
{
    b < 0x20 || b == 0x7F || b == 0x20 || b == 0x22 || b == 0x23 || b == 0x25 || b == 0x3C || b
        == 0x3E || b == 0x3F || b == 0x5B || b == 0x5C || b == 0x5D || b == 0x5E || b == 0x60 || b
        == 0x7B || b == 0x7C || b == 0x7D || b == 0x2F || b == 0x26 || b == 0x3D || b == 0x2B
}

fn hex_char(n: u8) -> (c: char)
    requires
        n < 16,
    ensures
        c == hex_upper(n as int),
{
    if n < 10 {
        (48 + n) as char
    } else {
        (55 + n) as char
    }
}

/// One path segment, percent-encoded over its UTF-8 bytes: the unreserved
/// characters stay, space and everything URL-structural are encoded, and so
/// is every byte of a non-ASCII character.
pub fn enc_seg(s: &[char]) -> (r: String)
    ensures
        r@ == pct_encode(vstd::utf8::encode_utf8(s@)),
{
    let owned_s = string_of(s);
    let bytes = owned_s.as_str().as_bytes();
    let mut r = String::new();
    let mut i: usize = 0;
    while i < bytes.len()
        invariant
            i <= bytes.len(),
            bytes@ == vstd::utf8::encode_utf8(s@),
            r@ == pct_encode(bytes@.take(i as int)),
        decreases bytes.len() - i,
    {
        let b = bytes[i];
        proof {
            let t = bytes@.take(i + 1);
            assert(t.drop_last() =~= bytes@.take(i as int));
            assert(t.last() == b);
        }
        if b < 0x80 && !is_encoded_byte(b) {
            r.push(b as char);
            proof {
                assert(r@ =~= pct_encode(bytes@.take(i as int)) + seq![b as char]);
            }
        } else {
            r.push('%');
            r.push(hex_char(b / 16));
            r.push(hex_char(b % 16));
            proof {
                assert(r@ =~= pct_encode(bytes@.take(i as int)) + seq![
                    '%',
                    hex_upper((b / 16) as int),
                    hex_upper((b % 16) as int),
                ]);
            }
        }
        i += 1;
    }
    proof {
        assert(bytes@.take(bytes@.len() as int) =~= bytes@);
    }
    r
}

// ── the address ─────────────────────────────────────────────────────────────

/// The repository as written, with a pasted scheme, host, trailing slash and
/// `.git` taken off.
pub open spec fn clean_repo(repo_in: Seq<char>) -> Seq<char> {
    strip_suffixes(
        strip_suffixes(
            strip_prefixes(
                strip_prefixes(strip_prefixes(trim(repo_in), "https://"@), "http://"@),
                "github.com/"@,
            ),
            "/"@,
        ),
        ".git"@,
    )
}

/// The download address for the inputs, or `None` when they are not safe.
pub open spec fn github_asset_url_spec(repo_in: Seq<char>, tag_in: Seq<char>, asset_in: Seq<char>) -> Option<Seq<char>> {
    let repo = clean_repo(repo_in);
    let tag = trim(tag_in);
    let asset = trim(asset_in);
    if repo_ok(repo) && safe_path_seg_spec(tag) && safe_path_seg_spec(asset) {
        Some(
            "https://github.com/"@ + repo + "/releases/download/"@ + pct_encode(
                vstd::utf8::encode_utf8(tag),
            ) + "/"@ + pct_encode(vstd::utf8::encode_utf8(asset)),
        )
    } else {
        None
    }
}

/// Build the github.com release-download URL from a repo / tag / asset, or
/// `None` if the inputs aren't safe. `repo` accepts a pasted URL or
/// `owner/name`; the tag and asset are trimmed, checked to be single path
/// segments, and percent-encoded.
pub fn github_asset_url(repo_in: &str, tag_in: &str, asset_in: &str) -> (r: Option<String>)
    ensures
        r matches Some(u) ==> github_asset_url_spec(repo_in@, tag_in@, asset_in@) == Some(u@),
        r is None ==> github_asset_url_spec(repo_in@, tag_in@, asset_in@) is None,
{
    let repo0 = trim_str(repo_in);
    let https = chars_of("https://");
    let http = chars_of("http://");
    let host = chars_of("github.com/");
    let slash = chars_of("/");
    let git = chars_of(".git");
    let repo1 = strip_prefixes_chars(&repo0, &https);
    let repo2 = strip_prefixes_chars(&repo1, &http);
    let repo3 = strip_prefixes_chars(&repo2, &host);
    let repo4 = strip_suffixes_chars(&repo3, &slash);
    let repo = strip_suffixes_chars(&repo4, &git);
    let tag = trim_str(tag_in);
    let asset = trim_str(asset_in);
    if !repo_is_ok(&repo) || !safe_path_seg(&tag) || !safe_path_seg(&asset) {
        return None;
    }
    let mut url = owned("https://github.com/");
    push_chars(&mut url, &repo);
    url.push_str("/releases/download/");
    let t = enc_seg(&tag);
    url.push_str(t.as_str());
    url.push_str("/");
    let a = enc_seg(&asset);
    url.push_str(a.as_str());
    Some(url)
}

} // verus!

verus! {

/// A character that changes a URL's shape where a path segment stands: a
/// path separator of either kind, or the start of a query or a fragment.
pub open spec fn url_structural(c: char) -> bool {
    c == '/' || c == '\\' || c == '?' || c == '#'
}

/// No character of `s` changes a URL's shape.
pub open spec fn no_structure(s: Seq<char>) -> bool {
    forall|i: int| 0 <= i < s.len() ==> !url_structural(#[trigger] s[i])
}

/// An encoded tag or asset can neither add path depth nor start a query or
/// a fragment: no separator survives the encoding, whatever bytes went in.
pub proof fn law_encoded_segment_has_no_separator(bs: Seq<u8>)
    ensures
        no_structure(pct_encode(bs)),
    decreases bs.len(),
{
    if bs.len() > 0 {
        law_encoded_segment_has_no_separator(bs.drop_last());
        let b = bs.last();
        let head = pct_encode(bs.drop_last());
        let tail = pct_byte(b);
        assert(no_structure(tail)) by {
            if b < 0x80 && !encoded_byte(b) {
                assert(tail =~= seq![b as char]);
                assert((b as char) as u32 == b as u32);
            } else {
                assert(tail =~= seq!['%', hex_upper((b / 16) as int), hex_upper((b % 16) as int)]);
            }
        }
        assert forall|i: int| 0 <= i < pct_encode(bs).len() implies !url_structural(#[trigger] pct_encode(bs)[i]) by {
            assert(pct_encode(bs) == head + tail);
            if i < head.len() {
                assert(pct_encode(bs)[i] == head[i]);
            } else {
                assert(pct_encode(bs)[i] == tail[i - head.len()]);
            }
        }
    }
}

proof fn lemma_pct_append(a: Seq<u8>, b: Seq<u8>)
    ensures
        pct_encode(a + b) == pct_encode(a) + pct_encode(b),
    decreases b.len(),
{
    if b.len() == 0 {
        assert(a + b =~= a);
        assert(pct_encode(b) =~= Seq::<char>::empty());
        assert(pct_encode(a) + pct_encode(b) =~= pct_encode(a));
    } else {
        lemma_pct_append(a, b.drop_last());
        assert((a + b).drop_last() =~= a + b.drop_last());
        assert((a + b).last() == b.last());
        assert(pct_encode(a + b) =~= pct_encode(a) + pct_encode(b));
    }
}

/// The value an upper-case hexadecimal digit stands for, or -1.
pub open spec fn upper_hex_value(c: char) -> int {
    if '0' <= c && c <= '9' {
        c as int - 48
    } else if 'A' <= c && c <= 'F' {
        c as int - 55
    } else {
        -1
    }
}

/// A byte a URL path segment carries as it is: printable ASCII other than
/// space, `"`, `#`, `%`, `<`, `>`, `?`, `[`, `\`, `]`, `^`, `` ` ``, `{`,
/// `|`, `}`, `/`, `&`, `=` and `+`.
pub open spec fn kept_byte(x: u8) -> bool {
    &&& 0x21 <= x <= 0x7E
    &&& x != 0x22 && x != 0x23 && x != 0x25 && x != 0x3C && x != 0x3E && x != 0x3F
    &&& x != 0x5B && x != 0x5C && x != 0x5D && x != 0x5E && x != 0x60
    &&& x != 0x7B && x != 0x7C && x != 0x7D && x != 0x2F && x != 0x26 && x != 0x3D && x != 0x2B
}

/// How a tag or asset name is percent-encoded: byte by byte, in order; a
/// byte the path can carry stays the character it is, and every other byte
/// becomes `%` and its value in two upper-case hex digits, high half first.
pub proof fn law_percent_encoding_byte_by_byte(a: Seq<u8>, b: Seq<u8>, x: u8)
    ensures
        pct_encode(a + b) == pct_encode(a) + pct_encode(b),
        kept_byte(x) ==> pct_encode(seq![x]) == seq![x as char],
        !kept_byte(x) ==> ({
            let e = pct_encode(seq![x]);
            &&& e.len() == 3
            &&& e[0] == '%'
            &&& 0 <= upper_hex_value(e[1]) < 16
            &&& 0 <= upper_hex_value(e[2]) < 16
            &&& upper_hex_value(e[1]) * 16 + upper_hex_value(e[2]) == x
        }),
{
    lemma_pct_append(a, b);
    let one = seq![x];
    assert(one.drop_last() =~= Seq::<u8>::empty());
    assert(pct_encode(one.drop_last()) =~= Seq::<char>::empty());
    assert(pct_encode(one) =~= pct_byte(x));
    let hi = (x / 16) as int;
    let lo = (x % 16) as int;
    assert(upper_hex_value(hex_upper(hi)) == hi);
    assert(upper_hex_value(hex_upper(lo)) == lo);
}

/// An owner or repository name as GitHub writes one: a non-empty run of
/// ASCII digits (0x30-0x39), letters (0x41-0x5A, 0x61-0x7A), `.`, `_`, `-`
/// and `+`.
pub open spec fn plain_name(s: Seq<char>) -> bool {
    s.len() > 0 && forall|i: int| 0 <= i < s.len() ==> {
        let c = #[trigger] s[i];
        let n = c as u32;
        (0x30 <= n && n <= 0x39) || (0x41 <= n && n <= 0x5A) || (0x61 <= n && n <= 0x7A) || c == '.'
            || c == '_' || c == '-' || c == '+'
    }
}

/// A release tag or asset file name that names one path segment: not empty,
/// not `.` or `..`, and holding no slash, backslash or control character.
pub open spec fn one_segment(s: Seq<char>) -> bool {
    &&& s.len() > 0
    &&& s != seq!['.']
    &&& s != seq!['.', '.']
    &&& forall|i: int| 0 <= i < s.len() ==> {
        let c = #[trigger] s[i];
        c != '/' && c != '\\' && !((c as u32) <= 0x1F || (0x7F <= (c as u32) && (c as u32) <= 0x9F))
    }
}

proof fn lemma_safe_is_plain(s: Seq<char>)
    requires
        safe_seg_spec(s),
    ensures
        plain_name(s),
{
}

/// A repository written as `owner/name` in plain names, with a tag and an
/// asset that each name one path segment, always gives an address, and the
/// address downloads from that very repository on github.com. (The owner
/// `github.com` and a name ending in `.git` are read as a pasted address and
/// cut away, so they are left out here.)
pub proof fn law_a_plain_repo_gives_an_address(owner: Seq<char>, name: Seq<char>, tag_in: Seq<char>, asset_in: Seq<char>)
    requires
        plain_name(owner),
        plain_name(name),
        owner != seq!['g', 'i', 't', 'h', 'u', 'b', '.', 'c', 'o', 'm'],
        !(name.len() >= 4 && name.skip(name.len() - 4) == seq!['.', 'g', 'i', 't']),
        one_segment(trim(tag_in)),
        one_segment(trim(asset_in)),
    ensures
        ({
            let prefix = "https://github.com/"@ + owner + seq!['/'] + name + "/releases/download/"@;
            github_asset_url_spec(owner + seq!['/'] + name, tag_in, asset_in) matches Some(u)
                && u.len() >= prefix.len() && u.take(prefix.len() as int) == prefix
        }),
{
    let s = owner + seq!['/'] + name;
    let k = owner.len() as int;
    assert(s.len() == owner.len() + 1 + name.len());
    assert forall|j: int| 0 <= j < s.len() implies {
        &&& #[trigger] s[j] != ':'
        &&& !crate::text::is_ws(s[j])
        &&& (s[j] == '/' <==> j == k)
        &&& (j != k ==> repo_char(s[j]))
    } by {
        if j < k {
            assert(s[j] == owner[j]);
        } else if j > k {
            assert(s[j] == name[j - k - 1]);
        }
    }
    crate::text::lemma_trim_of_clean_ends(s);
    reveal_strlit("https://");
    reveal_strlit("http://");
    reveal_strlit("github.com/");
    reveal_strlit("/");
    reveal_strlit(".git");
    assert(!(8 <= s.len() && s.take(8) == "https://"@)) by {
        if 8 <= s.len() && s.take(8) == "https://"@ {
            assert(s.take(8)[5] == s[5]);
        }
    }
    assert(strip_prefixes(s, "https://"@) == s);
    assert(!(7 <= s.len() && s.take(7) == "http://"@)) by {
        if 7 <= s.len() && s.take(7) == "http://"@ {
            assert(s.take(7)[4] == s[4]);
        }
    }
    assert(strip_prefixes(s, "http://"@) == s);
    assert(!(11 <= s.len() && s.take(11) == "github.com/"@)) by {
        if 11 <= s.len() && s.take(11) == "github.com/"@ {
            assert(s.take(11)[10] == s[10]);
            assert(k == 10);
            assert(owner =~= s.take(11).take(10));
            assert("github.com/"@.take(10) =~= seq!['g', 'i', 't', 'h', 'u', 'b', '.', 'c', 'o', 'm']);
        }
    }
    assert(strip_prefixes(s, "github.com/"@) == s);
    assert(!(1 <= s.len() && s.skip(s.len() - 1) == "/"@)) by {
        if 1 <= s.len() && s.skip(s.len() - 1) == "/"@ {
            assert(s.skip(s.len() - 1)[0] == s[s.len() - 1]);
        }
    }
    assert(strip_suffixes(s, "/"@) == s);
    assert(".git"@ =~= seq!['.', 'g', 'i', 't']);
    assert(!(4 <= s.len() && s.skip(s.len() - 4) == ".git"@)) by {
        if 4 <= s.len() && s.skip(s.len() - 4) == ".git"@ {
            if name.len() >= 4 {
                assert(s.skip(s.len() - 4) =~= name.skip(name.len() - 4));
            } else {
                assert(s.skip(s.len() - 4)[k - (s.len() - 4)] == s[k]);
            }
        }
    }
    assert(strip_suffixes(s, ".git"@) == s);
    assert(clean_repo(s) == s);
    assert(s.take(k) =~= owner);
    assert(s.skip(k + 1) =~= name);
    assert(safe_seg_spec(s.take(k)));
    assert(safe_seg_spec(s.skip(k + 1)));
    assert(s[k] == '/');
    assert(0 <= k < s.len() && s[k] == '/' && safe_seg_spec(s.take(k)) && safe_seg_spec(s.skip(k + 1)));
    assert(repo_ok(s));
    reveal_strlit(".");
    reveal_strlit("..");
    assert("."@ =~= seq!['.']);
    assert(".."@ =~= seq!['.', '.']);
    assert(safe_path_seg_spec(trim(tag_in)));
    assert(safe_path_seg_spec(trim(asset_in)));
    let prefix = "https://github.com/"@ + owner + seq!['/'] + name + "/releases/download/"@;
    let rest = pct_encode(vstd::utf8::encode_utf8(trim(tag_in))) + "/"@ + pct_encode(
        vstd::utf8::encode_utf8(trim(asset_in)),
    );
    let u = "https://github.com/"@ + s + "/releases/download/"@ + pct_encode(
        vstd::utf8::encode_utf8(trim(tag_in)),
    ) + "/"@ + pct_encode(vstd::utf8::encode_utf8(trim(asset_in)));
    assert(u =~= prefix + rest);
    assert((prefix + rest).take(prefix.len() as int) =~= prefix);
}

/// Every address built is a release download on github.com: the host is
/// fixed, the repository is `owner/name`, and the tag and asset are each one
/// path segment that cannot traverse or reshape the URL.
pub proof fn law_github_url_stays_on_github(repo_in: Seq<char>, tag_in: Seq<char>, asset_in: Seq<char>)
    ensures
        github_asset_url_spec(repo_in, tag_in, asset_in) matches Some(u) ==> {
            let tag = pct_encode(vstd::utf8::encode_utf8(trim(tag_in)));
            let asset = pct_encode(vstd::utf8::encode_utf8(trim(asset_in)));
            &&& u == "https://github.com/"@ + clean_repo(repo_in) + "/releases/download/"@ + tag + "/"@ + asset
            &&& repo_ok(clean_repo(repo_in))
            &&& no_structure(tag)
            &&& no_structure(asset)
            &&& one_segment(trim(tag_in))
            &&& one_segment(trim(asset_in))
            &&& exists|k: int|
                0 <= k < clean_repo(repo_in).len() && #[trigger] clean_repo(repo_in)[k] == '/' && plain_name(
                    clean_repo(repo_in).take(k),
                ) && plain_name(clean_repo(repo_in).skip(k + 1))
        },
{
    reveal_strlit(".");
    reveal_strlit("..");
    assert("."@ =~= seq!['.']);
    assert(".."@ =~= seq!['.', '.']);
    let r = clean_repo(repo_in);
    if github_asset_url_spec(repo_in, tag_in, asset_in) is Some {
        let k = choose|k: int|
            0 <= k < r.len() && r[k] == '/' && safe_seg_spec(r.take(k)) && safe_seg_spec(r.skip(k + 1));
        assert(r[k] == '/');
        lemma_safe_is_plain(r.take(k));
        lemma_safe_is_plain(r.skip(k + 1));
    }
    law_encoded_segment_has_no_separator(vstd::utf8::encode_utf8(trim(tag_in)));
    law_encoded_segment_has_no_separator(vstd::utf8::encode_utf8(trim(asset_in)));
}

} // verus!

verus! {

/// The refusal of an ingest whose repository, tag or asset is unsafe.
pub open spec fn unsafe_ingest_text() -> Seq<char> {
    "repo must be owner/name (a github.com URL is ok); tag and asset must each be a single path segment"@
}

/// The address a cache ingest fetches from github.com, or the refusal
/// naming what the request must hold.
pub fn ingest_url(repo: &str, tag: &str, asset: &str) -> (r: Result<String, crate::error::ApiError>)
    ensures
        github_asset_url_spec(repo@, tag@, asset@) matches Some(u) ==> r matches Ok(s) && s@ == u,
        github_asset_url_spec(repo@, tag@, asset@) is None ==> (r matches Err(crate::error::ApiError::BadRequest(m))
            && m@ == unsafe_ingest_text()),
{
    match github_asset_url(repo, tag, asset) {
        Some(u) => Ok(u),
        None => Err(crate::error::ApiError::BadRequest(owned(
            "repo must be owner/name (a github.com URL is ok); tag and asset must each be a single path segment",
        ))),
    }
}

} // verus!
