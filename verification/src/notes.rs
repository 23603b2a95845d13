//! A build's release notes: the untagged text every client reads, and the
//! same notes per language tag.
use vstd::prelude::*;
use crate::order::lex_lt;
use crate::textmap::{Entries, TextMap, lemma_insert_sorted, lookup, map_insert, sorted_keys};
use crate::text::{ascii_lower, ascii_lower_chars, chars_of, string_of, trim, trim_chars, trim_str};

verus! {

/// What a build request carries for its release notes.
pub struct BuildBody {
    /// Curator-authored release notes stored on the built manifest.
    pub changelog: Option<String>,
    /// The same notes per language tag (`{"en": "...", "ru": "..."}`).
    pub changelog_i18n: Option<TextMap>,
}

/// A language tag as it is stored: trimmed and in ASCII lower case, so one
/// language is one entry however it was typed.
pub open spec fn language_tag(k: Seq<char>) -> Seq<char> {
    ascii_lower(trim(k))
}

/// The per-language notes with tags normalised and text trimmed, the entries
/// whose tag or text is blank left out. Entries are taken in key order, so
/// when two tags normalise to the same language the later one is kept.
pub open spec fn settled_notes(s: Entries) -> Entries
    decreases s.len(),
{
    if s.len() == 0 {
        Seq::empty()
    } else {
        let acc = settled_notes(s.drop_last());
        let k = language_tag(s.last().0);
        let v = trim(s.last().1);
        if k.len() > 0 && v.len() > 0 {
            map_insert(acc, k, v)
        } else {
            acc
        }
    }
}

/// The settled per-language map: absent when nothing in it survived.
pub open spec fn notes_i18n(m: Option<Entries>) -> Option<Entries> {
    match m {
        None => None,
        Some(e) => if settled_notes(e).len() == 0 {
            None
        } else {
            Some(settled_notes(e))
        },
    }
}

/// The untagged note: the one written, trimmed, when it is not blank;
/// otherwise English from the map, then whichever language sorts first;
/// otherwise none.
pub open spec fn notes_untagged(changelog: Option<Seq<char>>, i18n: Option<Entries>) -> Option<Seq<char>> {
    match changelog {
        Some(c) if trim(c).len() > 0 => Some(trim(c)),
        _ => match i18n {
            None => None,
            Some(f) => match lookup(f, "en"@) {
                Some(en) => Some(en),
                None => Some(f[0].1),
            },
        },
    }
}

proof fn lemma_settled_sorted(s: Entries)
    ensures
        sorted_keys(settled_notes(s)),
    decreases s.len(),
{
    if s.len() > 0 {
        lemma_settled_sorted(s.drop_last());
        let k = language_tag(s.last().0);
        let v = trim(s.last().1);
        if k.len() > 0 && v.len() > 0 {
            lemma_insert_sorted(settled_notes(s.drop_last()), k, v);
        }
    }
}

/// Settle a build's release notes: the untagged text a client that matches
/// no language reads, and the per-language map.
///
/// Blank entries are dropped rather than shipped, so a language the curator
/// left empty is absent instead of publishing an empty note. When no
/// untagged text was given, it is taken from the map -- English first, then
/// whichever language sorts first -- because a note in some language beats
/// no note.
pub fn release_notes(body: BuildBody) -> (r: (Option<String>, Option<TextMap>))
    ensures
        (match r.1 { Some(m) => Some(m@), None => None }) == notes_i18n(
            match body.changelog_i18n { Some(m) => Some(m@), None => None },
        ),
        (match r.0 { Some(c) => Some(c@), None => None }) == notes_untagged(
            match body.changelog { Some(c) => Some(c@), None => None },
            notes_i18n(match body.changelog_i18n { Some(m) => Some(m@), None => None }),
        ),
{
    let i18n: Option<TextMap> = match body.changelog_i18n {
        None => None,
        Some(m) => {
            let ghost e = m@;
            let mut out = TextMap::new();
            let mut i: usize = 0;
            proof {
                assert(e.take(0) =~= Seq::<(Seq<char>, Seq<char>)>::empty());
            }
            while i < m.len()
                invariant
                    i <= m@.len(),
                    m@ == e,
                    out@ == settled_notes(e.take(i as int)),
                decreases e.len() - i,
            {
                let (k, v) = m.entry(i);
                let kt = trim_str(k.as_str());
                let key = ascii_lower_chars(&kt);
                let val = trim_str(v.as_str());
                proof {
                    let t = e.take(i + 1);
                    assert(t.drop_last() =~= e.take(i as int));
                    assert(t.last() == e[i as int]);
                }
                if key.len() > 0 && val.len() > 0 {
                    out.insert(string_of(&key), string_of(&val));
                }
                i += 1;
            }
            proof {
                assert(e.take(e.len() as int) =~= e);
            }
            if out.is_empty() {
                None
            } else {
                Some(out)
            }
        },
    };
    let written = match &body.changelog {
        Some(c) => {
            let t = trim_str(c.as_str());
            if t.len() > 0 {
                Some(string_of(&t))
            } else {
                None
            }
        },
        None => None,
    };
    let changelog = match written {
        Some(t) => Some(t),
        None => match &i18n {
            None => None,
            Some(f) => {
                let en = chars_of("en");
                match f.get(&en) {
                    Some(x) => Some(x.clone()),
                    None => {
                        let (_, first) = f.entry(0);
                        Some(first.clone())
                    },
                }
            },
        },
    };
    (changelog, i18n)
}

} // verus!

verus! {

/// A note as it may ship: a non-empty tag that is already normalised, over
/// a non-blank text that is already trimmed.
pub open spec fn clean_note(e: (Seq<char>, Seq<char>)) -> bool {
    &&& e.0.len() > 0
    &&& language_tag(e.0) == e.0
    &&& e.1.len() > 0
    &&& trim(e.1) == e.1
}

proof fn lemma_insert_keeps_clean(s: Entries, k: Seq<char>, v: Seq<char>)
    requires
        forall|i: int| 0 <= i < s.len() ==> clean_note(#[trigger] s[i]),
        clean_note((k, v)),
    ensures
        forall|i: int| 0 <= i < map_insert(s, k, v).len() ==> clean_note(#[trigger] map_insert(s, k, v)[i]),
    decreases s.len(),
{
    let r = map_insert(s, k, v);
    if s.len() == 0 {
    } else if s[0].0 == k {
        assert forall|i: int| 0 <= i < r.len() implies clean_note(#[trigger] r[i]) by {
            if i > 0 {
                assert(r[i] == s[i]);
            }
        }
    } else if lex_lt(k, s[0].0) {
        assert forall|i: int| 0 <= i < r.len() implies clean_note(#[trigger] r[i]) by {
            if i > 0 {
                assert(r[i] == s[i - 1]);
            }
        }
    } else {
        let t = s.drop_first();
        assert forall|i: int| 0 <= i < t.len() implies clean_note(#[trigger] t[i]) by {
            assert(t[i] == s[i + 1]);
        }
        lemma_insert_keeps_clean(t, k, v);
        assert forall|i: int| 0 <= i < r.len() implies clean_note(#[trigger] r[i]) by {
            if i > 0 {
                assert(r[i] == map_insert(t, k, v)[i - 1]);
            }
        }
    }
}

/// A tag that is not blank, normalised, is normalised already.
proof fn lemma_language_tag_settles(k: Seq<char>)
    requires
        language_tag(k).len() > 0,
    ensures
        language_tag(language_tag(k)) == language_tag(k),
{
    let t = trim(k);
    let l = ascii_lower(t);
    crate::text::lemma_trim_idempotent(k);
    // the ends of `t` are not whitespace, and folding case keeps it so
    assert(t.len() > 0);
    assert(trim(t) == t);
    crate::text::lemma_trim_ends(t);
    assert(!crate::text::is_ws(l[0])) by {
        assert(l[0] == crate::text::ascii_lower_char(t[0]));
    }
    assert(!crate::text::is_ws(l.last())) by {
        assert(l.last() == crate::text::ascii_lower_char(t.last()));
    }
    crate::text::lemma_trim_of_clean_ends(l);
    assert(ascii_lower(l) =~= l) by {
        assert forall|i: int| 0 <= i < l.len() implies crate::text::ascii_lower_char(#[trigger] l[i]) == l[i] by {
            assert(l[i] == crate::text::ascii_lower_char(t[i]));
        }
    }
}

/// No language ships an empty note, and one language is one entry: every
/// settled note is a non-blank, trimmed text under a tag that is already
/// normalised, and the tags are in strictly increasing order, so none
/// repeats.
pub proof fn law_settled_notes_are_clean(e: Entries)
    ensures
        sorted_keys(settled_notes(e)),
        forall|i: int| 0 <= i < settled_notes(e).len() ==> clean_note(#[trigger] settled_notes(e)[i]),
    decreases e.len(),
{
    lemma_settled_sorted(e);
    if e.len() > 0 {
        law_settled_notes_are_clean(e.drop_last());
        let k = language_tag(e.last().0);
        let v = trim(e.last().1);
        if k.len() > 0 && v.len() > 0 {
            lemma_language_tag_settles(e.last().0);
            crate::text::lemma_trim_idempotent(e.last().1);
            lemma_insert_keeps_clean(settled_notes(e.drop_last()), k, v);
        }
    }
}

/// A build that ships any per-language note also ships an untagged one, so
/// a client that reads only the untagged copy is never left with nothing.
pub proof fn law_notes_reach_every_client(changelog: Option<Seq<char>>, m: Option<Entries>)
    ensures
        notes_i18n(m) is Some ==> notes_untagged(changelog, notes_i18n(m)) is Some,
{
}

} // verus!

verus! {

proof fn lemma_lookup_finds(s: Entries, k: Seq<char>, j: int)
    requires
        sorted_keys(s),
        0 <= j < s.len(),
        s[j].0 == k,
    ensures
        lookup(s, k) == Some(s[j].1),
    decreases s.len(),
{
    if j > 0 {
        crate::order::lemma_lex_irreflexive(k);
        assert(s[0].0 != k) by {
            assert(lex_lt(s[0].0, s[j].0));
        }
        let t = s.drop_first();
        assert(t[j - 1] == s[j]);
        assert(sorted_keys(t)) by {
            assert forall|a: int, b: int| 0 <= a < b < t.len() implies lex_lt(#[trigger] t[a].0, #[trigger] t[b].0) by {
                assert(t[a] == s[a + 1]);
                assert(t[b] == s[b + 1]);
            }
        }
        lemma_lookup_finds(t, k, j - 1);
    }
}

proof fn lemma_lookup_misses(s: Entries, k: Seq<char>)
    requires
        forall|j: int| 0 <= j < s.len() ==> (#[trigger] s[j]).0 != k,
    ensures
        lookup(s, k) is None,
    decreases s.len(),
{
    if s.len() > 0 {
        let t = s.drop_first();
        assert forall|j: int| 0 <= j < t.len() implies (#[trigger] t[j]).0 != k by {
            assert(t[j] == s[j + 1]);
        }
        lemma_lookup_misses(t, k);
    }
}

/// A written untagged note that is not blank.
pub open spec fn note_written(changelog: Option<Seq<char>>) -> bool {
    changelog matches Some(c) && trim(c).len() > 0
}

/// Which untagged note a build ships. A non-blank written note, trimmed,
/// wins. Without one, the English note of the settled map is taken; without
/// English, the note of the language whose tag sorts first, no tag before
/// it; and with no settled note at all, none.
pub proof fn law_untagged_note_falls_back_to_english_then_first_language(
    changelog: Option<Seq<char>>,
    m: Option<Entries>,
)
    ensures
        note_written(changelog) ==> notes_untagged(changelog, notes_i18n(m)) == Some(trim(changelog->0)),
        !note_written(changelog) && notes_i18n(m) is None ==> notes_untagged(changelog, notes_i18n(m)) is None,
        ({
            let u = notes_untagged(changelog, notes_i18n(m));
            let e = notes_i18n(m)->0;
            &&& (!note_written(changelog) && notes_i18n(m) is Some) ==> forall|j: int|
                0 <= j < e.len() && (#[trigger] e[j]).0 == "en"@ ==> u == Some(e[j].1)
            &&& (!note_written(changelog) && notes_i18n(m) is Some && forall|j: int|
                0 <= j < e.len() ==> (#[trigger] e[j]).0 != "en"@) ==> exists|j: int|
                0 <= j < e.len() && u == Some(#[trigger] e[j].1) && forall|k: int|
                    0 <= k < e.len() ==> !lex_lt(#[trigger] e[k].0, e[j].0)
        }),
{
    if let Some(e) = notes_i18n(m) {
        lemma_settled_sorted(m->0);
        assert(sorted_keys(e));
        assert(e.len() > 0);
        assert forall|j: int| 0 <= j < e.len() && (#[trigger] e[j]).0 == "en"@ implies lookup(e, "en"@) == Some(
            e[j].1,
        ) by {
            lemma_lookup_finds(e, "en"@, j);
        }
        if forall|j: int| 0 <= j < e.len() ==> (#[trigger] e[j]).0 != "en"@ {
            lemma_lookup_misses(e, "en"@);
            crate::order::lemma_lex_irreflexive(e[0].0);
            assert forall|k: int| 0 <= k < e.len() implies !lex_lt(#[trigger] e[k].0, e[0].0) by {
                if k > 0 {
                    assert(lex_lt(e[0].0, e[k].0));
                    crate::order::lemma_lex_asymmetric(e[0].0, e[k].0);
                }
            }
            assert(e[0].1 == e[0].1);
        }
    }
}

/// A language tag is stored without ASCII capitals and without whitespace
/// at either end, so `" EN "`, `"En"` and `"en"` are one language; and a
/// tag already written that way is stored as it is.
pub proof fn law_language_tags_are_lower_case_and_trimmed(k: Seq<char>)
    ensures
        forall|i: int| 0 <= i < language_tag(k).len() ==> !('A' <= #[trigger] language_tag(k)[i] && language_tag(k)[i] <= 'Z'),
        language_tag(k).len() > 0 ==> !crate::text::is_ws(language_tag(k)[0]) && !crate::text::is_ws(language_tag(k).last()),
        language_tag(k).len() == trim(k).len(),
        (k.len() > 0 && !crate::text::is_ws(k[0]) && !crate::text::is_ws(k.last()) && forall|i: int|
            0 <= i < k.len() ==> !('A' <= #[trigger] k[i] && k[i] <= 'Z')) ==> language_tag(k) == k,
{
    let t = trim(k);
    let l = ascii_lower(t);
    assert forall|i: int| 0 <= i < l.len() implies !('A' <= #[trigger] l[i] && l[i] <= 'Z') by {
        assert(l[i] == crate::text::ascii_lower_char(t[i]));
    }
    if l.len() > 0 {
        crate::text::lemma_trim_idempotent(k);
        crate::text::lemma_trim_ends(t);
        assert(l[0] == crate::text::ascii_lower_char(t[0]));
        assert(l.last() == crate::text::ascii_lower_char(t.last()));
    }
    if k.len() > 0 && !crate::text::is_ws(k[0]) && !crate::text::is_ws(k.last()) && forall|i: int|
        0 <= i < k.len() ==> !('A' <= #[trigger] k[i] && k[i] <= 'Z') {
        crate::text::lemma_trim_of_clean_ends(k);
        assert(ascii_lower(k) =~= k) by {
            assert forall|i: int| 0 <= i < k.len() implies crate::text::ascii_lower_char(#[trigger] k[i]) == k[i] by {
                assert(!('A' <= k[i] && k[i] <= 'Z'));
            }
        }
    }
}

} // verus!
