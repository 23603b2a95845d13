use smrt::admin::{split_address, tidy_reason};
use smrt::authored::is_sha1;
use smrt::cache::content_address;
use smrt::github::github_asset_url;
use smrt::jobs::job_id;
use smrt::public::{atom_feed, content_type_for, rfc3339, xml, Notification};
use smrt::queries::{like_escape, sort_mc};
use smrt::revision::{check_precondition, etag, precondition, Precondition};

#[test]
fn an_etag_sent_back_names_the_revision_it_carries() {
    let tag = etag("5f3c9a");
    assert_eq!(tag, "\"5f3c9a\"");
    match precondition(Some(&tag)) {
        Some(Precondition::Rev(r)) => assert_eq!(r, "5f3c9a"),
        _ => panic!("the echoed tag names a revision"),
    }
}

#[test]
fn a_save_on_the_tag_it_read_passes_until_someone_else_saves() {
    let pre = precondition(Some(&etag("rev-one"))).unwrap();
    assert!(check_precondition(Some(&pre), Some("rev-one"), "Pack").is_ok());
    let err = check_precondition(Some(&pre), Some("rev-two"), "Pack").unwrap_err();
    assert!(matches!(err, smrt::error::ApiError::Conflict(_)));
}

#[test]
fn a_tidied_reason_tidies_to_itself() {
    let once = tidy_reason(Some("\t spam \n  and  more\u{3000}")).unwrap().unwrap();
    assert_eq!(once, "spam and more");
    let twice = tidy_reason(Some(&once)).unwrap().unwrap();
    assert_eq!(twice, once);
}

#[test]
fn an_address_reads_back_as_written() {
    assert_eq!(split_address("play.example.org"), Some(("play.example.org".to_string(), 25565)));
    assert_eq!(split_address("play.example.org:0"), Some(("play.example.org".to_string(), 0)));
    assert_eq!(split_address("play.example.org:65535"), Some(("play.example.org".to_string(), 65535)));
    assert_eq!(split_address("play.example.org:65536"), None);
    assert_eq!(split_address("play.example.org:+80"), Some(("play.example.org".to_string(), 80)));
}

#[test]
fn an_encoded_segment_holds_no_separator() {
    let url = github_asset_url("o/r", "v1?x#y", "a%b.jar").unwrap();
    assert_eq!(url, "https://github.com/o/r/releases/download/v1%3Fx%23y/a%25b.jar");
    assert!(url.starts_with("https://github.com/"));
    assert_eq!(url.matches('/').count(), 8);
    // a backslash is a separator to some servers: refused outright
    assert!(github_asset_url("o/r", "v1", "a\\b.jar").is_none());
}

#[test]
fn typed_text_cannot_open_markup() {
    assert_eq!(
        xml("<a href=\"x\">Tom & 'Jerry'</a>"),
        "&lt;a href=&quot;x&quot;&gt;Tom &amp; &apos;Jerry&apos;&lt;/a&gt;"
    );
}

#[test]
fn a_static_type_ignores_case() {
    assert_eq!(content_type_for("ICON.PNG"), content_type_for("icon.png"));
    assert_eq!(content_type_for("ICON.PNG"), "image/png");
    assert_eq!(content_type_for("Notes.Md"), "text/markdown; charset=utf-8");
    assert_eq!(content_type_for("noext"), "application/octet-stream");
}

#[test]
fn an_escaped_search_value_matches_only_itself() {
    assert_eq!(like_escape("100%_a\\b"), "100\\%\\_a\\\\b");
    assert_eq!(like_escape("plain"), "plain");
}

#[test]
fn the_listing_order_does_not_depend_on_arrival() {
    let mut a: Vec<String> = ["1.12.2", "1.7.10", "1.12", "b", "1.12.2a"].map(String::from).to_vec();
    let mut b: Vec<String> = ["1.12.2a", "b", "1.12", "1.12.2", "1.7.10"].map(String::from).to_vec();
    sort_mc(&mut a);
    sort_mc(&mut b);
    assert_eq!(a, b);
    assert_eq!(a, ["b", "1.7.10", "1.12", "1.12.2", "1.12.2a"]);
}

#[test]
fn job_ids_sort_by_age() {
    assert_eq!(job_id(255, 42), "00000000000ff-00000042");
    assert!(job_id(15, 99) < job_id(16, 0));
    assert!(job_id(1_700_000_000_000, 7) < job_id(1_700_000_000_000, 8));
    assert!(job_id(1_700_000_000_000, 9) < job_id(1_700_000_000_000, 10));
}

#[test]
fn a_content_address_is_a_cache_hash() {
    let a = content_address(b"abc");
    assert_eq!(a, "a9993e364706816aba3e25717850c26c9cd0d89d");
    assert!(is_sha1(&a));
    assert_eq!(content_address(b""), "da39a3ee5e6b4b0d3255bfef95601890afd80709");
}

#[test]
fn escaped_text_reads_back_and_every_ampersand_starts_an_entity() {
    let raw = "Tom & Jerry's <b>";
    let esc = xml(raw);
    assert_eq!(esc, "Tom &amp; Jerry&apos;s &lt;b&gt;");
    let back = esc
        .replace("&lt;", "<")
        .replace("&gt;", ">")
        .replace("&quot;", "\"")
        .replace("&apos;", "'")
        .replace("&amp;", "&");
    assert_eq!(back, raw);
    let doubled = xml("&amp;");
    assert_eq!(doubled, "&amp;amp;");
    for (i, _) in doubled.match_indices('&') {
        let rest = &doubled[i..];
        assert!(["&amp;", "&lt;", "&gt;", "&quot;", "&apos;"].iter().any(|e| rest.starts_with(e)));
    }
}

#[test]
fn sorting_a_sorted_listing_again_changes_nothing() {
    let mut v: Vec<String> = ["1.12.2", "1.7.10", "1.12", "b", "1.12.2a"].iter().map(|s| s.to_string()).collect();
    sort_mc(&mut v);
    let once = v.clone();
    sort_mc(&mut v);
    assert_eq!(v, once);
}

fn note(id: i64, title: &str, login: Option<&str>) -> Notification {
    Notification {
        id,
        thread_id: id + 100,
        pack_id: "Pack \"<x>\"".into(),
        title: title.into(),
        kind: "opened".into(),
        status: "open".into(),
        actor_uid: 7,
        actor_login: login.map(|l| l.into()),
        created_at: 1_700_000_000 + id,
    }
}

fn markup_of(s: &str) -> String {
    s.chars().filter(|c| matches!(c, '<' | '>' | '"' | '\'')).collect()
}

#[test]
fn typed_text_cannot_change_the_feed_markup() {
    let plain = atom_feed("http://a", "keeper", 1, &[note(1, "hello", Some("ann")), note(2, "bye", None)]);
    let hostile = atom_feed(
        "http://a/\"><script>",
        "<b>'x'</b>",
        1,
        &[note(1, "</entry><entry>", Some("\"/>")), note(2, "<<>>", Some("'"))],
    );
    assert_eq!(markup_of(&plain), markup_of(&hostile));
    assert_eq!(plain.matches("<entry>").count(), 2);
    assert_eq!(hostile.matches("<entry>").count(), 2);
}

#[test]
fn the_feed_has_one_entry_per_row_in_row_order() {
    let feed = atom_feed("http://m", "keeper", 3, &[note(5, "first", None), note(6, "second", None)]);
    assert!(feed.starts_with("<?xml version=\"1.0\" encoding=\"utf-8\"?>\n<feed xmlns=\"http://www.w3.org/2005/Atom\">\n"));
    assert!(feed.ends_with("</feed>\n"));
    let a = feed.find("<id>tag:smrt,2026:notification:5</id>").unwrap();
    let b = feed.find("<id>tag:smrt,2026:notification:6</id>").unwrap();
    assert!(a < b);
    assert!(feed.contains("href=\"http://m/thread/105\""));
    assert!(feed.contains(&format!("<updated>{}</updated>", rfc3339(1_700_000_005))));
}

#[test]
fn timestamps_read_as_calendar_dates() {
    assert_eq!(rfc3339(0), "1970-01-01T00:00:00Z");
    assert_eq!(rfc3339(951_782_400), "2000-02-29T00:00:00Z");
    assert_eq!(rfc3339(-1), "1969-12-31T23:59:59Z");
    assert_eq!(rfc3339(253_402_300_799), "9999-12-31T23:59:59Z");
    assert_eq!(rfc3339(253_402_300_800), "1970-01-01T00:00:00Z");
    assert_eq!(rfc3339(-62_167_219_200), "0000-01-01T00:00:00Z");
    assert_eq!(rfc3339(-62_167_219_201), "1970-01-01T00:00:00Z");
}

#[test]
fn a_nonempty_version_list_always_makes_a_cell() {
    let cell = smrt::authored::mc_versions_cell(&["1.20.1".to_string()]).unwrap();
    assert_eq!(cell.as_deref(), Some("[\"1.20.1\"]"));
}
