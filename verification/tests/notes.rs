use smrt::notes::{release_notes, BuildBody};
use smrt::textmap::TextMap;

fn body(changelog: Option<&str>, i18n: &[(&str, &str)]) -> BuildBody {
    BuildBody {
        changelog: changelog.map(str::to_string),
        changelog_i18n: if i18n.is_empty() {
            None
        } else {
            let mut m = TextMap::new();
            for (k, v) in i18n {
                m.insert(k.to_string(), v.to_string());
            }
            Some(m)
        },
    }
}

fn keys(m: &TextMap) -> Vec<String> {
    (0..m.len()).map(|i| m.entry(i).0.clone()).collect()
}

fn get(m: &TextMap, k: &str) -> Option<String> {
    let k: Vec<char> = k.chars().collect();
    m.get(&k).cloned()
}

#[test]
fn a_language_left_empty_does_not_ship_as_an_empty_note() {
    let (untagged, map) = release_notes(body(None, &[("en", "Fixed the crash."), ("ru", "  ")]));
    let map = map.expect("english survives");
    assert_eq!(keys(&map), ["en"]);
    // and the untagged copy every existing client reads is filled from it
    assert_eq!(untagged.as_deref(), Some("Fixed the crash."));
}

#[test]
fn nothing_written_stays_nothing() {
    let (untagged, map) = release_notes(body(None, &[]));
    assert_eq!((untagged, map.is_none()), (None, true));
    let (untagged, map) = release_notes(body(Some("   "), &[("ru", "")]));
    assert_eq!((untagged, map.is_none()), (None, true));
}

#[test]
fn the_untagged_note_falls_back_to_english_then_to_whatever_exists() {
    let (untagged, _) = release_notes(body(None, &[("ru", "Починили."), ("en", "Fixed.")]));
    assert_eq!(untagged.as_deref(), Some("Fixed."));

    // no English written: a note in some language beats no note at all
    let (untagged, _) = release_notes(body(None, &[("ru", "Починили.")]));
    assert_eq!(untagged.as_deref(), Some("Починили."));
}

#[test]
fn an_explicit_untagged_note_is_never_overwritten() {
    let (untagged, map) = release_notes(body(Some("Read me"), &[("en", "Fixed.")]));
    assert_eq!(untagged.as_deref(), Some("Read me"));
    assert_eq!(get(&map.unwrap(), "en").as_deref(), Some("Fixed."));
}

#[test]
fn language_tags_are_normalised_so_one_language_is_one_entry() {
    let (_, map) = release_notes(body(None, &[(" EN ", "Fixed."), ("ru", "Починили.")]));
    let map = map.unwrap();
    assert_eq!(keys(&map), ["en", "ru"]);
}
