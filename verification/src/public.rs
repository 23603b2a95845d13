//! What the public read API writes out itself: the Atom feed of a person's
//! notifications, the escaping everything in it passes through, the content
//! type a pack's static file is served with, and which answers stay
//! unencoded.
use vstd::prelude::*;
use crate::text::{chars_of, decimal, digit, i64_text, owned, signed_decimal, split_chars, split_spec, str_is, string_of, ascii_lower, ascii_lower_chars, views};

verus! {

// ── what may be compressed ─────────────────────────────────────────────────

/// Whether an answer is a whole representation, which compression may
/// encode: not a `206 Partial Content` and carrying no `Content-Range`. A
/// range names bytes of what the client receives, so encoding a slice after
/// cutting it would count its offsets in one ruler and deliver bytes measured
/// in another.
pub fn not_a_part(status: u16, has_content_range: bool) -> (b: bool)
    ensures
        b == (status != 206 && !has_content_range),
{
    status != 206 && !has_content_range
}

// ── content types ──────────────────────────────────────────────────────────

/// A path's extension as the type lookup reads it: the text after its last
/// dot, in ASCII lower case (the whole path when it has no dot).
pub open spec fn extension(rel_path: Seq<char>) -> Seq<char> {
    split_spec(ascii_lower(rel_path), '.').last()
}

/// The content type a static file is served with, by its extension.
pub open spec fn content_type_spec(rel_path: Seq<char>) -> Seq<char> {
    let ext = extension(rel_path);
    if ext == "png"@ {
        "image/png"@
    } else if ext == "jpg"@ || ext == "jpeg"@ {
        "image/jpeg"@
    } else if ext == "gif"@ {
        "image/gif"@
    } else if ext == "webp"@ {
        "image/webp"@
    } else if ext == "svg"@ {
        "image/svg+xml"@
    } else if ext == "zip"@ {
        "application/zip"@
    } else if ext == "json"@ {
        "application/json"@
    } else if ext == "toml"@ {
        "application/toml"@
    } else if ext == "txt"@ || ext == "cfg"@ || ext == "properties"@ {
        "text/plain; charset=utf-8"@
    } else if ext == "md"@ {
        "text/markdown; charset=utf-8"@
    } else {
        "application/octet-stream"@
    }
}

/// The content type a pack's static file is served with, decided by its
/// extension, case-insensitively; anything unrecognised is plain bytes.
pub fn content_type_for(rel_path: &str) -> (r: &'static str)
    ensures
        r@ == content_type_spec(rel_path@),
{
    let v = chars_of(rel_path);
    let lower = ascii_lower_chars(&v);
    let pieces = split_chars(&lower, '.');
    proof {
        crate::text::lemma_split_nonempty(lower@, '.');
        assert(views(pieces@).last() == pieces@[pieces@.len() - 1]@);
    }
    let ext = &pieces[pieces.len() - 1];
    if str_is(ext, "png") {
        "image/png"
    } else if str_is(ext, "jpg") || str_is(ext, "jpeg") {
        "image/jpeg"
    } else if str_is(ext, "gif") {
        "image/gif"
    } else if str_is(ext, "webp") {
        "image/webp"
    } else if str_is(ext, "svg") {
        "image/svg+xml"
    } else if str_is(ext, "zip") {
        "application/zip"
    } else if str_is(ext, "json") {
        "application/json"
    } else if str_is(ext, "toml") {
        "application/toml"
    } else if str_is(ext, "txt") || str_is(ext, "cfg") || str_is(ext, "properties") {
        "text/plain; charset=utf-8"
    } else if str_is(ext, "md") {
        "text/markdown; charset=utf-8"
    } else {
        "application/octet-stream"
    }
}

// ── XML text ────────────────────────────────────────────────────────────────

/// One character as XML text: the five characters that are markup become
/// their entities, every other character stays.
pub open spec fn xml_char(c: char) -> Seq<char> {
    if c == '&' {
        "&amp;"@
    } else if c == '<' {
        "&lt;"@
    } else if c == '>' {
        "&gt;"@
    } else if c == '"' {
        "&quot;"@
    } else if c == '\'' {
        "&apos;"@
    } else {
        seq![c]
    }
}

/// A text escaped for XML, character by character.
pub open spec fn xml_spec(s: Seq<char>) -> Seq<char>
    decreases s.len(),
{
    if s.len() == 0 {
        Seq::empty()
    } else {
        xml_spec(s.drop_last()) + xml_char(s.last())
    }
}

/// The five characters that are not text in XML, escaped. Everything in the
/// feed passes through here, because everything in it was typed by somebody.
pub fn xml(raw: &str) -> (r: String)
    ensures
        r@ == xml_spec(raw@),
{
    let v = chars_of(raw);
    let mut out = String::new();
    let mut i: usize = 0;
    while i < v.len()
        invariant
            i <= v.len(),
            v@ == raw@,
            out@ == xml_spec(v@.take(i as int)),
        decreases v.len() - i,
    {
        let c = v[i];
        proof {
            let t = v@.take(i + 1);
            assert(t.drop_last() =~= v@.take(i as int));
            assert(t.last() == c);
        }
        if c == '&' {
            out.push_str("&amp;");
        } else if c == '<' {
            out.push_str("&lt;");
        } else if c == '>' {
            out.push_str("&gt;");
        } else if c == '"' {
            out.push_str("&quot;");
        } else if c == '\'' {
            out.push_str("&apos;");
        } else {
            out.push(c);
            proof {
                assert(out@ =~= xml_spec(v@.take(i as int)) + seq![c]);
            }
        }
        i += 1;
    }
    proof {
        assert(v@.take(v.len() as int) =~= v@);
    }
    out
}

// ── timestamps ─────────────────────────────────────────────────────────────

/// A leap year of the proleptic Gregorian calendar.
pub open spec fn is_leap(y: int) -> bool {
    y % 4 == 0 && (y % 100 != 0 || y % 400 == 0)
}

/// How many days month `m` (1 to 12) of year `y` has.
pub open spec fn days_in_month(y: int, m: int) -> int {
    if m == 2 {
        if is_leap(y) { 29 } else { 28 }
    } else if m == 4 || m == 6 || m == 9 || m == 11 {
        30
    } else {
        31
    }
}

/// The days of year `y` before the first of month `m`.
pub open spec fn days_before_month(y: int, m: int) -> int {
    let common: int = if m <= 1 { 0 } else if m == 2 { 31 } else if m == 3 { 59 } else if m == 4 {
        90
    } else if m == 5 { 120 } else if m == 6 { 151 } else if m == 7 { 181 } else if m == 8 {
        212
    } else if m == 9 { 243 } else if m == 10 { 273 } else if m == 11 { 304 } else { 334 };
    common + if m > 2 && is_leap(y) { 1int } else { 0int }
}

/// Days from a fixed origin to the first of January of year `y`: 365 a year
/// and one more for each leap year before `y`.
pub open spec fn days_before_year(y: int) -> int {
    365 * y + (y - 1) / 4 - (y - 1) / 100 + (y - 1) / 400
}

/// The day number of a date, counted from 1970-01-01 (day 0).
pub open spec fn days_from_civil(y: int, m: int, d: int) -> int {
    days_before_year(y) - days_before_year(1970) + days_before_month(y, m) + d - 1
}

/// A real date whose year RFC 3339 can write (four digits).
pub open spec fn writable_date(y: int, m: int, d: int) -> bool {
    0 <= y <= 9999 && 1 <= m <= 12 && 1 <= d <= days_in_month(y, m)
}

/// `n` (0 to 99) in two digits.
pub open spec fn two_digits(n: int) -> Seq<char> {
    seq![digit(n / 10), digit(n % 10)]
}

/// `n` (0 to 9999) in four digits.
pub open spec fn four_digits(n: int) -> Seq<char> {
    two_digits(n / 100) + two_digits(n % 100)
}

/// `YYYY-MM-DDTHH:MM:SSZ` for a date and the seconds into that day.
pub open spec fn utc_text(y: int, m: int, d: int, sod: int) -> Seq<char> {
    four_digits(y) + seq!['-'] + two_digits(m) + seq!['-'] + two_digits(d) + seq!['T']
        + two_digits(sod / 3600) + seq![':'] + two_digits((sod % 3600) / 60) + seq![':']
        + two_digits(sod % 60) + seq!['Z']
}

/// The RFC 3339 text of a unix timestamp in UTC: the calendar date of day
/// `unix / 86400` counted from 1970-01-01, then the hour, minute and second
/// of that day, then `Z`; `None` when that date's year is outside 0 to 9999,
/// which four digits cannot write.
pub open spec fn rfc3339_of(unix: int) -> Option<Seq<char>> {
    let day = unix / 86400;
    if exists|y: int, m: int, d: int| writable_date(y, m, d) && #[trigger] days_from_civil(y, m, d) == day {
        let (y, m, d) = choose|y: int, m: int, d: int| writable_date(y, m, d) && #[trigger] days_from_civil(y, m, d) == day;
        Some(utc_text(y, m, d, unix % 86400))
    } else {
        None
    }
}

/// Format a unix timestamp as RFC 3339 in UTC. Calls
/// `time::OffsetDateTime::from_unix_timestamp`, which reads the instant as
/// that date at that second in UTC (an error outside the dates the crate
/// holds), and `OffsetDateTime::format(&Rfc3339)`, which writes
/// `YYYY-MM-DDTHH:MM:SSZ` with no fraction for a whole second and refuses a
/// year outside 0 to 9999; either error is read as `None`.
#[verifier::external_body]
fn format_rfc3339(unix: i64) -> (r: Option<String>)
    ensures
        match r {
            Some(s) => rfc3339_of(unix as int) == Some(s@),
            None => rfc3339_of(unix as int) is None,
        },
{
    time::OffsetDateTime::from_unix_timestamp(unix)
        .ok()
        .and_then(|t| t.format(&time::format_description::well_known::Rfc3339).ok())
}

/// A timestamp as the feed writes it: RFC 3339, or the epoch when the
/// timestamp cannot be written.
pub open spec fn rfc3339_text(unix: int) -> Seq<char> {
    match rfc3339_of(unix) {
        Some(t) => t,
        None => "1970-01-01T00:00:00Z"@,
    }
}

/// A unix timestamp as RFC 3339 text.
pub fn rfc3339(unix: i64) -> (r: String)
    ensures
        r@ == rfc3339_text(unix as int),
{
    match format_rfc3339(unix) {
        Some(t) => t,
        None => owned("1970-01-01T00:00:00Z"),
    }
}

// ── the feed ────────────────────────────────────────────────────────────────

/// One notification as the feed reads it: which thread, what happened, and
/// who did it.
pub struct Notification {
    pub id: i64,
    pub thread_id: i64,
    pub pack_id: String,
    pub title: String,
    /// `comment`, `opened`, or a change of the thread's status.
    pub kind: String,
    /// The thread's status, named when `kind` is a status change.
    pub status: String,
    pub actor_uid: i64,
    pub actor_login: Option<String>,
    /// Unix seconds.
    pub created_at: i64,
}

/// Who did it, as the feed names them. Uid 0 is the mirror's own hand rather
/// than a person.
pub open spec fn who_text(row: Notification) -> Seq<char> {
    match row.actor_login {
        Some(l) => l@,
        None => if row.actor_uid == 0 {
            "the operator"@
        } else {
            "somebody"@
        },
    }
}

/// What happened, in a sentence.
pub open spec fn what_text(row: Notification) -> Seq<char> {
    if row.kind@ == "comment"@ {
        who_text(row) + " said something"@
    } else if row.kind@ == "opened"@ {
        who_text(row) + " opened this on "@ + row.pack_id@
    } else {
        who_text(row) + " marked it "@ + row.status@
    }
}

/// One notification as an Atom entry.
pub open spec fn entry_text(base: Seq<char>, row: Notification) -> Seq<char> {
    "  <entry>\n"@ + "    <title>"@ + xml_spec(row.title@) + "</title>\n"@
        + "    <link rel=\"alternate\" href=\""@ + xml_spec(
        base + "/thread/"@ + signed_decimal(row.thread_id as int),
    ) + "\"/>\n"@ + "    <id>tag:smrt,2026:notification:"@ + signed_decimal(row.id as int)
        + "</id>\n"@ + "    <updated>"@ + rfc3339_text(row.created_at as int) + "</updated>\n"@
        + "    <summary>"@ + xml_spec(what_text(row)) + "</summary>\n"@ + "  </entry>\n"@
}

/// The entries of the feed, in the order of the rows.
pub open spec fn entries_text(base: Seq<char>, rows: Seq<Notification>) -> Seq<char>
    decreases rows.len(),
{
    if rows.len() == 0 {
        Seq::empty()
    } else {
        entries_text(base, rows.drop_last()) + entry_text(base, rows.last())
    }
}

/// The feed's own title, id, link and time: the account's login, its uid,
/// its profile page, and the time of the newest row (the epoch's text when
/// there is none).
pub open spec fn feed_channel(base: Seq<char>, login: Seq<char>, uid: i64, rows: Seq<Notification>) -> Seq<char> {
    let newest: i64 = if rows.len() > 0 { rows[0].created_at } else { 0 };
    "  <title>smrt: "@ + xml_spec(login) + "</title>\n"@ + "  <id>tag:smrt,2026:notifications:"@
        + signed_decimal(uid as int) + "</id>\n"@ + "  <link rel=\"alternate\" href=\""@
        + xml_spec(base) + "/profile\"/>\n"@ + "  <updated>"@ + rfc3339_text(newest as int)
        + "</updated>\n"@
}

/// The whole feed document for the account `uid` called `login`, whose
/// notifications are `rows`, newest first.
pub open spec fn atom_feed_spec(base: Seq<char>, login: Seq<char>, uid: i64, rows: Seq<Notification>) -> Seq<char> {
    "<?xml version=\"1.0\" encoding=\"utf-8\"?>\n"@
        + "<feed xmlns=\"http://www.w3.org/2005/Atom\">\n"@ + feed_channel(base, login, uid, rows)
        + entries_text(base, rows) + "</feed>\n"@
}

fn who(row: &Notification) -> (r: String)
    ensures
        r@ == who_text(*row),
{
    match &row.actor_login {
        Some(l) => l.clone(),
        None => if row.actor_uid == 0 {
            owned("the operator")
        } else {
            owned("somebody")
        },
    }
}

fn what(row: &Notification) -> (r: String)
    ensures
        r@ == what_text(*row),
{
    let mut r = who(row);
    let k = chars_of(row.kind.as_str());
    if str_is(&k, "comment") {
        r.push_str(" said something");
    } else if str_is(&k, "opened") {
        r.push_str(" opened this on ");
        r.push_str(row.pack_id.as_str());
    } else {
        r.push_str(" marked it ");
        r.push_str(row.status.as_str());
    }
    r
}

#[verifier::spinoff_prover]
#[verifier::rlimit(40)]
fn push_entry(out: &mut String, base: &str, row: &Notification)
    ensures
        final(out)@ == old(out)@ + entry_text(base@, *row),
{
    let ghost start = out@;
    out.push_str("  <entry>\n");
    out.push_str("    <title>");
    let t = xml(row.title.as_str());
    out.push_str(t.as_str());
    out.push_str("</title>\n");
    out.push_str("    <link rel=\"alternate\" href=\"");
    let mut url = owned(base);
    url.push_str("/thread/");
    let tid = i64_text(row.thread_id);
    url.push_str(tid.as_str());
    let u = xml(url.as_str());
    out.push_str(u.as_str());
    out.push_str("\"/>\n");
    out.push_str("    <id>tag:smrt,2026:notification:");
    let id = i64_text(row.id);
    out.push_str(id.as_str());
    out.push_str("</id>\n");
    out.push_str("    <updated>");
    let when = rfc3339(row.created_at);
    out.push_str(when.as_str());
    out.push_str("</updated>\n");
    out.push_str("    <summary>");
    let w = what(row);
    let ws = xml(w.as_str());
    out.push_str(ws.as_str());
    out.push_str("</summary>\n");
    out.push_str("  </entry>\n");
    proof {
        assert(out@ =~= start + entry_text(base@, *row));
    }
}

/// The feed document. Written out rather than generated by a library: it is
/// forty lines of a format that has not moved in fifteen years, and every
/// value in it comes from somewhere a person typed, so the escaping is the
/// part that matters.
pub fn atom_feed(base: &str, login: &str, uid: i64, rows: &[Notification]) -> (r: String)
    ensures
        r@ == atom_feed_spec(base@, login@, uid, rows@),
{
    let mut out = String::new();
    out.push_str("<?xml version=\"1.0\" encoding=\"utf-8\"?>\n");
    out.push_str("<feed xmlns=\"http://www.w3.org/2005/Atom\">\n");
    out.push_str("  <title>smrt: ");
    let l = xml(login);
    out.push_str(l.as_str());
    out.push_str("</title>\n");
    out.push_str("  <id>tag:smrt,2026:notifications:");
    let u = i64_text(uid);
    out.push_str(u.as_str());
    out.push_str("</id>\n");
    out.push_str("  <link rel=\"alternate\" href=\"");
    let b = xml(base);
    out.push_str(b.as_str());
    out.push_str("/profile\"/>\n");
    let newest: i64 = if rows.len() > 0 { rows[0].created_at } else { 0 };
    out.push_str("  <updated>");
    let n = rfc3339(newest);
    out.push_str(n.as_str());
    out.push_str("</updated>\n");
    let ghost head = out@;
    let mut i: usize = 0;
    while i < rows.len()
        invariant
            i <= rows.len(),
            out@ == head + entries_text(base@, rows@.take(i as int)),
        decreases rows.len() - i,
    {
        proof {
            let t = rows@.take(i + 1);
            assert(t.drop_last() =~= rows@.take(i as int));
            assert(t.last() == rows@[i as int]);
        }
        push_entry(&mut out, base, &rows[i]);
        proof {
            assert(out@ =~= head + entries_text(base@, rows@.take(i + 1)));
        }
        i += 1;
    }
    out.push_str("</feed>\n");
    proof {
        assert(rows@.take(rows.len() as int) =~= rows@);
        assert(out@ =~= atom_feed_spec(base@, login@, uid, rows@));
    }
    out
}

} // verus!

verus! {

/// Nothing typed can open or close markup in the feed: an escaped text holds
/// no `<`, `>`, `"` or `'`.
pub proof fn law_xml_escapes_markup(s: Seq<char>)
    ensures
        forall|i: int|
            0 <= i < xml_spec(s).len() ==> {
                let c = #[trigger] xml_spec(s)[i];
                c != '<' && c != '>' && c != '"' && c != '\''
            },
    decreases s.len(),
{
    if s.len() > 0 {
        law_xml_escapes_markup(s.drop_last());
        let head = xml_spec(s.drop_last());
        let tail = xml_char(s.last());
        reveal_strlit("&amp;");
        reveal_strlit("&lt;");
        reveal_strlit("&gt;");
        reveal_strlit("&quot;");
        reveal_strlit("&apos;");
        assert forall|i: int| 0 <= i < xml_spec(s).len() implies {
            let c = #[trigger] xml_spec(s)[i];
            c != '<' && c != '>' && c != '"' && c != '\''
        } by {
            assert(xml_spec(s) == head + tail);
            if i < head.len() {
                assert(xml_spec(s)[i] == head[i]);
            } else {
                assert(xml_spec(s)[i] == tail[i - head.len()]);
            }
        }
    }
}

/// `t` from position `i` on begins with `p`.
pub open spec fn begins_at(t: Seq<char>, i: int, p: Seq<char>) -> bool {
    0 <= i && i + p.len() <= t.len() && t.subrange(i, i + p.len()) == p
}

/// The five entities the escape writes.
pub open spec fn amp_entity() -> Seq<char> {
    seq!['&', 'a', 'm', 'p', ';']
}

pub open spec fn lt_entity() -> Seq<char> {
    seq!['&', 'l', 't', ';']
}

pub open spec fn gt_entity() -> Seq<char> {
    seq!['&', 'g', 't', ';']
}

pub open spec fn quot_entity() -> Seq<char> {
    seq!['&', 'q', 'u', 'o', 't', ';']
}

pub open spec fn apos_entity() -> Seq<char> {
    seq!['&', 'a', 'p', 'o', 's', ';']
}

/// One of the five entities begins at position `i` of `t`.
pub open spec fn entity_at(t: Seq<char>, i: int) -> bool {
    begins_at(t, i, amp_entity()) || begins_at(t, i, lt_entity()) || begins_at(t, i, gt_entity())
        || begins_at(t, i, quot_entity()) || begins_at(t, i, apos_entity())
}

/// Escaped text read back: each of the five entities becomes the character
/// it stands for, and every other character stands for itself.
pub open spec fn xml_unescape(t: Seq<char>) -> Seq<char>
    decreases t.len(),
{
    if t.len() == 0 {
        Seq::empty()
    } else if begins_at(t, 0, amp_entity()) {
        seq!['&'] + xml_unescape(t.skip(5))
    } else if begins_at(t, 0, lt_entity()) {
        seq!['<'] + xml_unescape(t.skip(4))
    } else if begins_at(t, 0, gt_entity()) {
        seq!['>'] + xml_unescape(t.skip(4))
    } else if begins_at(t, 0, quot_entity()) {
        seq!['"'] + xml_unescape(t.skip(6))
    } else if begins_at(t, 0, apos_entity()) {
        seq!['\''] + xml_unescape(t.skip(6))
    } else {
        seq![t[0]] + xml_unescape(t.skip(1))
    }
}

proof fn lemma_xml_char_entities(c: char)
    ensures
        c == '&' ==> xml_char(c) == amp_entity(),
        c == '<' ==> xml_char(c) == lt_entity(),
        c == '>' ==> xml_char(c) == gt_entity(),
        c == '"' ==> xml_char(c) == quot_entity(),
        c == '\'' ==> xml_char(c) == apos_entity(),
        c != '&' && c != '<' && c != '>' && c != '"' && c != '\'' ==> xml_char(c) == seq![c],
{
    reveal_strlit("&amp;");
    reveal_strlit("&lt;");
    reveal_strlit("&gt;");
    reveal_strlit("&quot;");
    reveal_strlit("&apos;");
    assert("&amp;"@ =~= amp_entity());
    assert("&lt;"@ =~= lt_entity());
    assert("&gt;"@ =~= gt_entity());
    assert("&quot;"@ =~= quot_entity());
    assert("&apos;"@ =~= apos_entity());
}

/// The escape read from the front: the first character's escape, then the
/// rest escaped.
proof fn lemma_xml_front(s: Seq<char>)
    requires
        s.len() > 0,
    ensures
        xml_spec(s) == xml_char(s[0]) + xml_spec(s.drop_first()),
    decreases s.len(),
{
    if s.len() == 1 {
        assert(s.drop_last() =~= Seq::<char>::empty());
        assert(s.drop_first() =~= Seq::<char>::empty());
        assert(xml_spec(s.drop_first()) =~= Seq::<char>::empty());
        assert(xml_spec(s) =~= xml_char(s[0]));
    } else {
        lemma_xml_front(s.drop_last());
        assert(s.drop_last().drop_first() =~= s.drop_first().drop_last());
        assert(s.drop_first().last() == s.last());
        assert(xml_spec(s) =~= xml_char(s[0]) + xml_spec(s.drop_first()));
    }
}

/// What an entity at the front of escaped text reads back as.
proof fn lemma_unescape_front(c: char, r: Seq<char>)
    ensures
        xml_unescape(xml_char(c) + r) == seq![c] + xml_unescape(r),
{
    lemma_xml_char_entities(c);
    let e = xml_char(c);
    let t = e + r;
    assert(t.len() > 0);
    if c == '&' {
        assert(t.subrange(0, 5) =~= amp_entity());
        assert(t.skip(5) =~= r);
    } else if c == '<' {
        assert(t.subrange(0, 4) =~= lt_entity());
        assert(t.skip(4) =~= r);
        assert(!begins_at(t, 0, amp_entity()) || t[1] == 'a');
    } else if c == '>' {
        assert(t.subrange(0, 4) =~= gt_entity());
        assert(t.skip(4) =~= r);
        assert(!begins_at(t, 0, amp_entity()) || t[1] == 'a');
        assert(!begins_at(t, 0, lt_entity()) || t[1] == 'l');
    } else if c == '"' {
        assert(t.subrange(0, 6) =~= quot_entity());
        assert(t.skip(6) =~= r);
        assert(!begins_at(t, 0, amp_entity()) || t[1] == 'a');
        assert(!begins_at(t, 0, lt_entity()) || t[1] == 'l');
        assert(!begins_at(t, 0, gt_entity()) || t[1] == 'g');
    } else if c == '\'' {
        assert(t.subrange(0, 6) =~= apos_entity());
        assert(t.skip(6) =~= r);
        assert(!begins_at(t, 0, amp_entity()) || t[2] == 'm');
        assert(!begins_at(t, 0, lt_entity()) || t[1] == 'l');
        assert(!begins_at(t, 0, gt_entity()) || t[1] == 'g');
        assert(!begins_at(t, 0, quot_entity()) || t[1] == 'q');
    } else {
        assert(t[0] == c);
        assert(!begins_at(t, 0, amp_entity()) || t[0] == '&');
        assert(!begins_at(t, 0, lt_entity()) || t[0] == '&');
        assert(!begins_at(t, 0, gt_entity()) || t[0] == '&');
        assert(!begins_at(t, 0, quot_entity()) || t[0] == '&');
        assert(!begins_at(t, 0, apos_entity()) || t[0] == '&');
        assert(t.skip(1) =~= r);
    }
}

/// Escaped text reads back as what was typed: every entity the escape wrote
/// turned back into its character gives the raw text exactly.
pub proof fn law_xml_reads_back(s: Seq<char>)
    ensures
        xml_unescape(xml_spec(s)) == s,
    decreases s.len(),
{
    if s.len() == 0 {
        assert(xml_spec(s) =~= Seq::<char>::empty());
    } else {
        lemma_xml_front(s);
        law_xml_reads_back(s.drop_first());
        lemma_unescape_front(s[0], xml_spec(s.drop_first()));
        assert(seq![s[0]] + s.drop_first() =~= s);
    }
}

/// In escaped text every `&` begins one of the five entities, so reading it
/// back is never ambiguous.
pub proof fn law_xml_ampersand_begins_entity(s: Seq<char>)
    ensures
        forall|i: int| 0 <= i < xml_spec(s).len() && #[trigger] xml_spec(s)[i] == '&' ==> entity_at(xml_spec(s), i),
    decreases s.len(),
{
    if s.len() == 0 {
        assert(xml_spec(s) =~= Seq::<char>::empty());
    } else {
        lemma_xml_front(s);
        law_xml_ampersand_begins_entity(s.drop_first());
        lemma_xml_char_entities(s[0]);
        let e = xml_char(s[0]);
        let r = xml_spec(s.drop_first());
        let t = xml_spec(s);
        assert forall|i: int| 0 <= i < t.len() && #[trigger] t[i] == '&' implies entity_at(t, i) by {
            if i < e.len() {
                assert(t[i] == e[i]);
                assert(i == 0);
                assert(t.subrange(0, e.len() as int) =~= e);
            } else {
                assert(t[i] == r[i - e.len()]);
                assert(entity_at(r, i - e.len()));
                let j = i - e.len();
                assert forall|p: Seq<char>| begins_at(r, j, p) implies begins_at(t, i, p) by {
                    assert(t.subrange(i, i + p.len()) =~= r.subrange(j, j + p.len()));
                }
                assert(begins_at(r, j, amp_entity()) ==> begins_at(t, i, amp_entity()));
                assert(begins_at(r, j, lt_entity()) ==> begins_at(t, i, lt_entity()));
                assert(begins_at(r, j, gt_entity()) ==> begins_at(t, i, gt_entity()));
                assert(begins_at(r, j, quot_entity()) ==> begins_at(t, i, quot_entity()));
                assert(begins_at(r, j, apos_entity()) ==> begins_at(t, i, apos_entity()));
            }
        }
    }
}

proof fn lemma_entries_append(base: Seq<char>, a: Seq<Notification>, b: Seq<Notification>)
    ensures
        entries_text(base, a + b) == entries_text(base, a) + entries_text(base, b),
    decreases b.len(),
{
    if b.len() == 0 {
        assert(a + b =~= a);
        assert(entries_text(base, b) =~= Seq::<char>::empty());
        assert(entries_text(base, a) + entries_text(base, b) =~= entries_text(base, a));
    } else {
        lemma_entries_append(base, a, b.drop_last());
        assert((a + b).drop_last() =~= a + b.drop_last());
        assert((a + b).last() == b.last());
        assert(entries_text(base, a + b) =~= entries_text(base, a) + entries_text(base, b));
    }
}

/// The feed is the XML declaration, the Atom `feed` element, the account's
/// own title, id, link and time, then one entry per row in the order of the
/// rows, and the closing tag: row `i`'s entry, whose id is the
/// notification's and whose link is its thread's page, stands after the
/// entries of the rows before it and before those of the rows after it.
pub proof fn law_feed_has_an_entry_per_row(
    base: Seq<char>,
    login: Seq<char>,
    uid: i64,
    rows: Seq<Notification>,
    i: int,
)
    requires
        0 <= i < rows.len(),
    ensures
        atom_feed_spec(base, login, uid, rows) == "<?xml version=\"1.0\" encoding=\"utf-8\"?>\n"@
            + "<feed xmlns=\"http://www.w3.org/2005/Atom\">\n"@ + feed_channel(base, login, uid, rows)
            + entries_text(base, rows.take(i)) + entry_text(base, rows[i]) + entries_text(
            base,
            rows.skip(i + 1),
        ) + "</feed>\n"@,
        entry_text(base, rows[i]) == "  <entry>\n"@ + "    <title>"@ + xml_spec(rows[i].title@)
            + "</title>\n"@ + "    <link rel=\"alternate\" href=\""@ + xml_spec(
            base + "/thread/"@ + signed_decimal(rows[i].thread_id as int),
        ) + "\"/>\n"@ + "    <id>tag:smrt,2026:notification:"@ + signed_decimal(rows[i].id as int)
            + "</id>\n"@ + "    <updated>"@ + rfc3339_text(rows[i].created_at as int) + "</updated>\n"@
            + "    <summary>"@ + xml_spec(what_text(rows[i])) + "</summary>\n"@ + "  </entry>\n"@,
{
    let pre = rows.take(i);
    let one = seq![rows[i]];
    let post = rows.skip(i + 1);
    assert(rows =~= pre + one + post);
    lemma_entries_append(base, pre + one, post);
    lemma_entries_append(base, pre, one);
    assert(one.drop_last() =~= Seq::<Notification>::empty());
    assert(entries_text(base, one.drop_last()) =~= Seq::<char>::empty());
    assert(entries_text(base, one) =~= entry_text(base, rows[i]));
    assert(entries_text(base, rows) =~= entries_text(base, pre) + entry_text(base, rows[i])
        + entries_text(base, post));
}

/// Each entry's summary says who did what, escaped. The actor is named by
/// their login, else "the operator" for uid 0, else "somebody"; a comment
/// reads "<who> said something", an opened thread "<who> opened this on
/// <pack>", and anything else "<who> marked it <status>".
pub proof fn law_entry_summary_says_who_did_what(base: Seq<char>, row: Notification)
    ensures
        ({
            let who: Seq<char> = match row.actor_login {
                Some(l) => l@,
                None => if row.actor_uid == 0 { "the operator"@ } else { "somebody"@ },
            };
            let said: Seq<char> = if row.kind@ == "comment"@ {
                who + " said something"@
            } else if row.kind@ == "opened"@ {
                who + " opened this on "@ + row.pack_id@
            } else {
                who + " marked it "@ + row.status@
            };
            exists|head: Seq<char>|
                entry_text(base, row) == head + "    <summary>"@ + xml_spec(said) + "</summary>\n"@
                    + "  </entry>\n"@
        }),
{
    let head = "  <entry>\n"@ + "    <title>"@ + xml_spec(row.title@) + "</title>\n"@
        + "    <link rel=\"alternate\" href=\""@ + xml_spec(
        base + "/thread/"@ + signed_decimal(row.thread_id as int),
    ) + "\"/>\n"@ + "    <id>tag:smrt,2026:notification:"@ + signed_decimal(row.id as int)
        + "</id>\n"@ + "    <updated>"@ + rfc3339_text(row.created_at as int) + "</updated>\n"@;
    assert(entry_text(base, row) == head + "    <summary>"@ + xml_spec(what_text(row)) + "</summary>\n"@
        + "  </entry>\n"@);
}

/// The characters that make markup: tags and attribute quotes.
pub open spec fn is_markup(c: char) -> bool {
    c == '<' || c == '>' || c == '"' || c == '\''
}

/// The markup characters of a text, in order.
pub open spec fn markup(t: Seq<char>) -> Seq<char>
    decreases t.len(),
{
    if t.len() == 0 {
        Seq::empty()
    } else {
        markup(t.drop_last()) + if is_markup(t.last()) { seq![t.last()] } else { Seq::empty() }
    }
}

proof fn lemma_markup_add(a: Seq<char>, b: Seq<char>)
    ensures
        markup(a + b) == markup(a) + markup(b),
    decreases b.len(),
{
    if b.len() == 0 {
        assert(a + b =~= a);
        assert(markup(a) + markup(b) =~= markup(a));
    } else {
        lemma_markup_add(a, b.drop_last());
        assert((a + b).drop_last() =~= a + b.drop_last());
        assert((a + b).last() == b.last());
        assert(markup(a + b) =~= markup(a) + markup(b));
    }
}

proof fn lemma_markup_adds()
    ensures
        forall|a: Seq<char>, b: Seq<char>| #[trigger] markup(a + b) == markup(a) + markup(b),
{
    assert forall|a: Seq<char>, b: Seq<char>| #[trigger] markup(a + b) == markup(a) + markup(b) by {
        lemma_markup_add(a, b);
    }
}

proof fn lemma_escaped_has_no_markup(x: Seq<char>)
    ensures
        markup(xml_spec(x)) == Seq::<char>::empty(),
{
    law_xml_escapes_markup(x);
    lemma_no_markup(xml_spec(x));
}

proof fn lemma_no_markup(t: Seq<char>)
    requires
        forall|i: int| 0 <= i < t.len() ==> !is_markup(#[trigger] t[i]),
    ensures
        markup(t) == Seq::<char>::empty(),
    decreases t.len(),
{
    if t.len() > 0 {
        assert(!is_markup(t[t.len() - 1]));
        lemma_no_markup(t.drop_last());
        assert(markup(t) =~= Seq::<char>::empty());
    }
}

proof fn lemma_escapes_have_no_markup()
    ensures
        forall|x: Seq<char>| #[trigger] markup(xml_spec(x)) == Seq::<char>::empty(),
{
    assert forall|x: Seq<char>| #[trigger] markup(xml_spec(x)) == Seq::<char>::empty() by {
        lemma_escaped_has_no_markup(x);
    }
}

proof fn lemma_entries_markup(base1: Seq<char>, rows1: Seq<Notification>, base2: Seq<char>, rows2: Seq<Notification>)
    requires
        rows1.len() == rows2.len(),
        forall|i: int| 0 <= i < rows1.len() ==> (#[trigger] rows1[i]).id == rows2[i].id
            && rows1[i].created_at == rows2[i].created_at,
    ensures
        markup(entries_text(base1, rows1)) == markup(entries_text(base2, rows2)),
    decreases rows1.len(),
{
    if rows1.len() > 0 {
        lemma_entries_markup(base1, rows1.drop_last(), base2, rows2.drop_last());
        lemma_markup_adds();
        lemma_escapes_have_no_markup();
        let r1 = rows1.last();
        let r2 = rows2.last();
        assert(r1 == rows1[rows1.len() - 1]);
        assert(markup(entry_text(base1, r1)) == markup(entry_text(base2, r2)));
    }
}

/// Nothing a person typed can add or take away markup in the feed: the
/// login, the mirror's base address, and each row's title, pack, status and
/// actor reach the document only escaped, so two feeds for the same account
/// whose rows carry the same ids and times have the same tags and quotes in
/// the same order, whatever those people typed.
pub proof fn law_typed_text_cannot_change_the_feed_markup(
    base1: Seq<char>,
    login1: Seq<char>,
    rows1: Seq<Notification>,
    base2: Seq<char>,
    login2: Seq<char>,
    rows2: Seq<Notification>,
    uid: i64,
)
    requires
        rows1.len() == rows2.len(),
        forall|i: int| 0 <= i < rows1.len() ==> (#[trigger] rows1[i]).id == rows2[i].id
            && rows1[i].created_at == rows2[i].created_at,
    ensures
        markup(atom_feed_spec(base1, login1, uid, rows1)) == markup(atom_feed_spec(base2, login2, uid, rows2)),
{
    lemma_entries_markup(base1, rows1, base2, rows2);
    lemma_markup_adds();
    lemma_escapes_have_no_markup();
    if rows1.len() > 0 {
        assert(rows1[0].created_at == rows2[0].created_at);
    }
    assert(markup(feed_channel(base1, login1, uid, rows1)) == markup(feed_channel(base2, login2, uid, rows2)));
}

proof fn lemma_split_last_piece(s: Seq<char>, e: Seq<char>)
    requires
        forall|i: int| 0 <= i < e.len() ==> #[trigger] e[i] != '.',
    ensures
        split_spec(s + seq!['.'] + e, '.').last() == e,
    decreases e.len(),
{
    let t = s + seq!['.'] + e;
    if e.len() == 0 {
        assert(t.drop_last() =~= s);
        assert(t.last() == '.');
    } else {
        lemma_split_last_piece(s, e.drop_last());
        assert(t.drop_last() =~= s + seq!['.'] + e.drop_last());
        assert(t.last() == e.last());
        crate::text::lemma_split_nonempty(t.drop_last(), '.');
        assert(e.drop_last().push(e.last()) =~= e);
    }
}

/// A static file is served by its extension, the text after its last dot,
/// whatever its case and whatever comes before: `png` as `image/png`, `jpg`
/// and `jpeg` as `image/jpeg`, `gif`, `webp` and `svg` as images, `zip` as
/// `application/zip`, `json` as `application/json`, `toml` as
/// `application/toml`, `txt`, `cfg` and `properties` as UTF-8 plain text,
/// `md` as UTF-8 markdown, and anything else as `application/octet-stream`.
pub proof fn law_content_type_by_extension(stem: Seq<char>, ext: Seq<char>)
    requires
        forall|i: int| 0 <= i < ext.len() ==> #[trigger] ext[i] != '.',
    ensures
        ({
            let t = content_type_spec(stem + seq!['.'] + ext);
            let x = ascii_lower(ext);
            &&& x == "png"@ ==> t == "image/png"@
            &&& (x == "jpg"@ || x == "jpeg"@) ==> t == "image/jpeg"@
            &&& x == "gif"@ ==> t == "image/gif"@
            &&& x == "webp"@ ==> t == "image/webp"@
            &&& x == "svg"@ ==> t == "image/svg+xml"@
            &&& x == "zip"@ ==> t == "application/zip"@
            &&& x == "json"@ ==> t == "application/json"@
            &&& x == "toml"@ ==> t == "application/toml"@
            &&& (x == "txt"@ || x == "cfg"@ || x == "properties"@) ==> t == "text/plain; charset=utf-8"@
            &&& x == "md"@ ==> t == "text/markdown; charset=utf-8"@
            &&& (x != "png"@ && x != "jpg"@ && x != "jpeg"@ && x != "gif"@ && x != "webp"@ && x != "svg"@
                && x != "zip"@ && x != "json"@ && x != "toml"@ && x != "txt"@ && x != "cfg"@
                && x != "properties"@ && x != "md"@) ==> t == "application/octet-stream"@
        }),
{
    let p = stem + seq!['.'] + ext;
    let x = ascii_lower(ext);
    assert(ascii_lower(p) =~= ascii_lower(stem) + seq!['.'] + x);
    assert forall|i: int| 0 <= i < x.len() implies #[trigger] x[i] != '.' by {
        assert(x[i] == crate::text::ascii_lower_char(ext[i]));
    }
    lemma_split_last_piece(ascii_lower(stem), x);
    assert(extension(p) == x);
    reveal_strlit("png");
    reveal_strlit("jpg");
    reveal_strlit("jpeg");
    reveal_strlit("gif");
    reveal_strlit("webp");
    reveal_strlit("svg");
    reveal_strlit("zip");
    reveal_strlit("json");
    reveal_strlit("toml");
    reveal_strlit("txt");
    reveal_strlit("cfg");
    reveal_strlit("properties");
    reveal_strlit("md");
    assert("png"@[0] == 'p' && "png"@[1] == 'n' && "png"@.len() == 3);
    assert("jpg"@[0] == 'j' && "jpg"@[1] == 'p' && "jpg"@.len() == 3);
    assert("jpeg"@[0] == 'j' && "jpeg"@[1] == 'p' && "jpeg"@.len() == 4);
    assert("gif"@[0] == 'g' && "gif"@[1] == 'i' && "gif"@.len() == 3);
    assert("webp"@[0] == 'w' && "webp"@[1] == 'e' && "webp"@.len() == 4);
    assert("svg"@[0] == 's' && "svg"@[1] == 'v' && "svg"@.len() == 3);
    assert("zip"@[0] == 'z' && "zip"@[1] == 'i' && "zip"@.len() == 3);
    assert("json"@[0] == 'j' && "json"@[1] == 's' && "json"@.len() == 4);
    assert("toml"@[0] == 't' && "toml"@[1] == 'o' && "toml"@.len() == 4);
    assert("txt"@[0] == 't' && "txt"@[1] == 'x' && "txt"@.len() == 3);
    assert("cfg"@[0] == 'c' && "cfg"@[1] == 'f' && "cfg"@.len() == 3);
    assert("properties"@[0] == 'p' && "properties"@[1] == 'r' && "properties"@.len() == 10);
    assert("md"@[0] == 'm' && "md"@[1] == 'd' && "md"@.len() == 2);
}

/// A static file's type does not depend on how its extension is cased:
/// `ICON.PNG` is served as `icon.png` is.
pub proof fn law_content_type_ignores_case(rel_path: Seq<char>)
    ensures
        content_type_spec(crate::text::ascii_lower(rel_path)) == content_type_spec(rel_path),
{
    let l = crate::text::ascii_lower(rel_path);
    assert(crate::text::ascii_lower(l) =~= l) by {
        assert forall|i: int| 0 <= i < l.len() implies crate::text::ascii_lower_char(#[trigger] l[i]) == l[i] by {
            let c = rel_path[i];
            assert(l[i] == crate::text::ascii_lower_char(c));
        }
    }
}

} // verus!

verus! {

/// A person's feed as the public endpoint serves it: links under the
/// mirror's base address without its trailing slashes, and titled with the
/// account's login, or "you" when the account has none on record.
pub fn personal_feed_document(mirror_base: &str, login: Option<&str>, uid: i64, rows: &[Notification]) -> (r: String)
    ensures
        r@ == atom_feed_spec(
            crate::text::strip_suffixes(mirror_base@, seq!['/']),
            match login {
                Some(l) => l@,
                None => "you"@,
            },
            uid,
            rows@,
        ),
{
    let b = chars_of(mirror_base);
    let mut slash: Vec<char> = Vec::new();
    slash.push('/');
    proof {
        assert(slash@ =~= seq!['/']);
    }
    let base_chars = crate::text::strip_suffixes_chars(&b, &slash);
    let base = string_of(&base_chars);
    let who = match login {
        Some(l) => l,
        None => "you",
    };
    atom_feed(base.as_str(), who, uid, rows)
}

} // verus!

verus! {

// ── calendar facts behind the feed's dates ──────────────────────────────────

/// How many days year `y` has.
pub open spec fn year_len(y: int) -> int {
    if is_leap(y) { 366 } else { 365 }
}

proof fn lemma_year_step(y: int)
    ensures
        days_before_year(y + 1) == days_before_year(y) + year_len(y),
{
    assert(y / 4 - (y - 1) / 4 == if y % 4 == 0 { 1int } else { 0int });
    assert(y / 100 - (y - 1) / 100 == if y % 100 == 0 { 1int } else { 0int });
    assert(y / 400 - (y - 1) / 400 == if y % 400 == 0 { 1int } else { 0int });
}

proof fn lemma_years_grow(a: int, b: int)
    requires
        a <= b,
    ensures
        days_before_year(a) + 365 * (b - a) <= days_before_year(b),
    decreases b - a,
{
    if a < b {
        lemma_years_grow(a, b - 1);
        lemma_year_step(b - 1);
    }
}

proof fn lemma_months(y: int, m1: int, m2: int)
    requires
        1 <= m1 < m2 <= 12,
    ensures
        days_before_month(y, m1) + days_in_month(y, m1) <= days_before_month(y, m2),
{
}

proof fn lemma_day_of_year(y: int, m: int, d: int)
    requires
        1 <= m <= 12,
        1 <= d <= days_in_month(y, m),
    ensures
        0 <= days_before_month(y, m) + d - 1 < year_len(y),
{
    if m < 12 {
        lemma_months(y, m, 12);
    }
}

/// Each day number is one date: two real dates with the same day number are
/// the same date.
pub proof fn law_one_date_per_day(y1: int, m1: int, d1: int, y2: int, m2: int, d2: int)
    requires
        1 <= m1 <= 12,
        1 <= d1 <= days_in_month(y1, m1),
        1 <= m2 <= 12,
        1 <= d2 <= days_in_month(y2, m2),
        days_from_civil(y1, m1, d1) == days_from_civil(y2, m2, d2),
    ensures
        y1 == y2 && m1 == m2 && d1 == d2,
{
    lemma_day_of_year(y1, m1, d1);
    lemma_day_of_year(y2, m2, d2);
    if y1 < y2 {
        lemma_year_step(y1);
        lemma_years_grow(y1 + 1, y2);
    } else if y2 < y1 {
        lemma_year_step(y2);
        lemma_years_grow(y2 + 1, y1);
    } else {
        if m1 < m2 {
            lemma_months(y1, m1, m2);
        } else if m2 < m1 {
            lemma_months(y1, m2, m1);
        }
    }
}

/// A moment on a date of years 0 to 9999 is written as that date and the
/// time into the day: `YYYY-MM-DDTHH:MM:SSZ`. The epoch, day 0, is
/// 1970-01-01.
pub proof fn law_a_moment_reads_as_its_date_and_time(y: int, m: int, d: int, sod: int)
    requires
        writable_date(y, m, d),
        0 <= sod < 86400,
    ensures
        rfc3339_text(days_from_civil(y, m, d) * 86400 + sod) == utc_text(y, m, d, sod),
        days_from_civil(1970, 1, 1) == 0,
{
    let u = days_from_civil(y, m, d) * 86400 + sod;
    vstd::arithmetic::div_mod::lemma_fundamental_div_mod_converse(u, 86400, days_from_civil(y, m, d), sod);
    let day = u / 86400;
    assert(writable_date(y, m, d) && days_from_civil(y, m, d) == day);
    let (y2, m2, d2) = choose|y2: int, m2: int, d2: int| writable_date(y2, m2, d2) && #[trigger] days_from_civil(y2, m2, d2) == day;
    law_one_date_per_day(y, m, d, y2, m2, d2);
}

/// A moment outside years 0 to 9999, which four digits cannot write, is
/// written as the epoch instead.
pub proof fn law_moments_outside_four_digit_years_read_as_the_epoch(u: int)
    requires
        u < days_from_civil(0, 1, 1) * 86400 || u >= days_from_civil(10000, 1, 1) * 86400,
    ensures
        rfc3339_text(u) == "1970-01-01T00:00:00Z"@,
{
    let day = u / 86400;
    assert(day < days_from_civil(0, 1, 1) || day >= days_from_civil(10000, 1, 1));
    assert forall|y: int, m: int, d: int| writable_date(y, m, d) implies #[trigger] days_from_civil(y, m, d) != day by {
        lemma_day_of_year(y, m, d);
        lemma_years_grow(0, y);
        lemma_year_step(y);
        lemma_years_grow(y + 1, 10000);
    }
}

} // verus!
