//! Optimistic concurrency for config edits: the `If-Match` precondition a save
//! may carry, and whether it holds against the revision stored now.
//!
//! A save whose base no longer matches what is stored is refused instead of
//! applied, so the loser re-reads and reapplies rather than losing the work
//! silently. A save with no precondition writes unconditionally.
use vstd::prelude::*;
use vstd::utf8::{decode_utf8, encode_utf8, is_char_boundary};
use vstd::string::StringSliceAdditionalSpecFns;
use crate::error::ApiError;
use crate::text::{chars_of, debug_quoted, debug_str, owned, string_of, strip_quotes_spec, trim, trim_chars};

verus! {

broadcast use vstd::utf8::encode_utf8_decode_utf8;

/// What a conditional write requires of the stored config: any config at all
/// (`If-Match: *`), or one specific revision.
pub enum Precondition {
    Any,
    Rev(String),
}

/// The model of a precondition: `Rev` by the characters of its tag.
pub enum PreconditionView {
    Any,
    Rev(Seq<char>),
}

impl View for Precondition {
    type V = PreconditionView;

    open spec fn view(&self) -> PreconditionView {
        match self {
            Precondition::Any => PreconditionView::Any,
            Precondition::Rev(t) => PreconditionView::Rev(t@),
        }
    }
}

/// What an `If-Match` value asks for. The value is trimmed; `*` is any
/// config; otherwise one leading weak-validator `W/` is dropped and the
/// quotes at both ends are stripped, and what remains is the revision, which
/// must not be empty.
pub open spec fn precondition_spec(raw: Seq<char>) -> Option<PreconditionView> {
    let t = trim(raw);
    if t == "*"@ {
        Some(PreconditionView::Any)
    } else {
        let unweak = if t.len() >= 2 && t.take(2) == "W/"@ { t.skip(2) } else { t };
        let tag = strip_quotes_spec(unweak);
        if tag.len() > 0 {
            Some(PreconditionView::Rev(tag))
        } else {
            None
        }
    }
}

/// The precondition an `If-Match` header value states, if it states one.
/// `raw` is the header's value; an absent header is `None`. Only the
/// single-tag form is understood: a tag list reads as one odd revision, which
/// refuses the write rather than waving it through.
pub fn precondition(raw: Option<&str>) -> (r: Option<Precondition>)
    ensures
        raw is None ==> r is None,
        raw matches Some(h) ==> (match r {
            Some(p) => precondition_spec(h@) == Some(p@),
            None => precondition_spec(h@) is None,
        }),
{
    let raw = match raw {
        Some(h) => h,
        None => return None,
    };
    let hv = chars_of(raw);
    let t = trim_chars(&hv);
    let star = chars_of("*");
    if crate::text::chars_eq(&t, &star) {
        return Some(Precondition::Any);
    }
    let w = chars_of("W/");
    let unweak = if t.len() >= 2 && crate::text::chars_eq(&crate::text::slice_chars(&t, 0, 2), &w) {
        crate::text::slice_chars(&t, 2, t.len())
    } else {
        crate::text::slice_chars(&t, 0, t.len())
    };
    proof {
        assert(t@.skip(2) =~= t@.subrange(2, t@.len() as int));
        assert(t@.take(2) =~= t@.subrange(0, 2));
        assert(t@ =~= t@.subrange(0, t@.len() as int));
    }
    let tag = crate::text::strip_quotes(&unweak);
    if tag.len() > 0 {
        Some(Precondition::Rev(string_of(&tag)))
    } else {
        None
    }
}

/// The first eight bytes of a revision when they end on a character boundary,
/// otherwise the whole revision: what `rev.get(..8).unwrap_or(rev)` answers.
pub open spec fn short_rev_text(rev: Seq<char>) -> Seq<char> {
    let b = encode_utf8(rev);
    if b.len() >= 8 && is_char_boundary(b, 8) {
        decode_utf8(b.take(8))
    } else {
        rev
    }
}

/// A revision in an operator-facing message: enough to tell two apart, short
/// enough to read.
pub fn short_rev(rev: &str) -> (r: &str)
    ensures
        r@ == short_rev_text(rev@),
{
    proof {
        vstd::utf8::encode_utf8_valid_utf8(rev@);
    }
    let nbytes = rev.as_bytes().len();
    if nbytes >= 8 && rev.is_char_boundary(8) {
        let (head, _) = rev.split_at(8);
        proof {
            assert(head.spec_bytes() =~= encode_utf8(rev@).take(8));
            assert(decode_utf8(encode_utf8(head@)) == head@);
        }
        head
    } else {
        rev
    }
}

/// The short form of a commit id a person reads: its first eight bytes, or
/// all of it when shorter.
pub fn short_commit(id: &str) -> (r: &str)
    requires
        encode_utf8(id@).len() <= 8 || is_char_boundary(encode_utf8(id@), 8),
    ensures
        encode_utf8(r@) == encode_utf8(id@).take(
            if encode_utf8(id@).len() < 8 { encode_utf8(id@).len() as int } else { 8 },
        ),
{
    proof {
        vstd::utf8::encode_utf8_valid_utf8(id@);
    }
    let nbytes = id.as_bytes().len();
    let n = if nbytes < 8 { nbytes } else { 8 };
    proof {
        let b = encode_utf8(id@);
        assert(id.spec_bytes() == b);
        vstd::utf8::encode_utf8_valid_utf8(id@);
        vstd::utf8::is_char_boundary_start_end_of_seq(b);
        if b.len() <= 8 {
            assert(n as int == b.len());
            assert(is_char_boundary(b, b.len() as int));
        } else {
            assert(n == 8);
            assert(is_char_boundary(b, 8));
        }
        assert(is_char_boundary(b, n as int));
    }
    let (head, _) = id.split_at(n);
    proof {
        assert(head.spec_bytes() =~= encode_utf8(id@).take(n as int));
    }
    head
}

/// The config's revision, or an internal error carrying why it has none. A
/// config that cannot be serialized has no revision to compare, and answering
/// with one that always matches would let a stale save overwrite silently.
pub fn rev_of(rev: Result<String, String>) -> (r: Result<String, ApiError>)
    ensures
        rev matches Ok(v) ==> r matches Ok(w) && w@ == v@,
        rev matches Err(e) ==> (r matches Err(ApiError::Internal(m)) && m@ == "config rev: "@ + e@),
{
    match rev {
        Ok(v) => Ok(v),
        Err(e) => {
            let mut m = owned("config rev: ");
            m.push_str(e.as_str());
            Err(ApiError::Internal(m))
        },
    }
}

/// The `ETag` value carrying a config revision: the revision in quotes.
pub fn etag(rev: &str) -> (r: String)
    ensures
        r@ == seq!['"'] + rev@ + seq!['"'],
{
    let mut r = String::new();
    r.push('"');
    r.push_str(rev);
    r.push('"');
    proof {
        assert(r@ =~= seq!['"'] + rev@ + seq!['"']);
    }
    r
}

/// The text of the conflict a stale base is answered with.
pub open spec fn stale_base_text(pack_id: Seq<char>, want: Seq<char>, now: Seq<char>) -> Seq<char> {
    "pack "@ + debug_quoted(pack_id) + " was saved by someone else since this edit began (edited "@
        + short_rev_text(want) + ", now "@ + short_rev_text(now)
        + "); reload the config and reapply the change"@
}

/// The text of the conflict a precondition meets when nothing is stored.
pub open spec fn nothing_stored_text(pack_id: Seq<char>) -> Seq<char> {
    "pack "@ + debug_quoted(pack_id)
        + " has no stored config to match against; it was deleted or never existed"@
}

/// What a write with precondition `pre` meets against the stored revision
/// `current` (`None`: no config is stored).
pub open spec fn check_precondition_spec(
    pre: Option<PreconditionView>,
    current: Option<Seq<char>>,
    pack_id: Seq<char>,
) -> Result<(), Seq<char>> {
    match (pre, current) {
        (None, _) => Ok(()),
        (Some(PreconditionView::Any), Some(_)) => Ok(()),
        (Some(PreconditionView::Rev(want)), Some(now)) => if want == now {
            Ok(())
        } else {
            Err(stale_base_text(pack_id, want, now))
        },
        (Some(_), None) => Err(nothing_stored_text(pack_id)),
    }
}

/// Whether a conditional write may proceed against the revision now stored
/// (`None` = the pack has no stored config). A refusal is a conflict whose
/// text names the pack and both revisions.
pub fn check_precondition(
    pre: Option<&Precondition>,
    current: Option<&str>,
    pack_id: &str,
) -> (r: Result<(), ApiError>)
    ensures
        ({
            let spec = check_precondition_spec(
                match pre { Some(p) => Some(p@), None => None },
                match current { Some(c) => Some(c@), None => None },
                pack_id@,
            );
            match r {
                Ok(()) => spec is Ok,
                Err(ApiError::Conflict(m)) => spec == Err::<(), Seq<char>>(m@),
                Err(_) => false,
            }
        }),
{
    match (pre, current) {
        (None, _) => Ok(()),
        (Some(Precondition::Any), Some(_)) => Ok(()),
        (Some(Precondition::Rev(want)), Some(now)) => {
            let wv = chars_of(want.as_str());
            let nv = chars_of(now);
            if crate::text::chars_eq(&wv, &nv) {
                Ok(())
            } else {
                let mut m = owned("pack ");
                let q = debug_str(pack_id);
                m.push_str(q.as_str());
                m.push_str(" was saved by someone else since this edit began (edited ");
                m.push_str(short_rev(want.as_str()));
                m.push_str(", now ");
                m.push_str(short_rev(now));
                m.push_str("); reload the config and reapply the change");
                Err(ApiError::Conflict(m))
            }
        },
        (Some(_), None) => {
            let mut m = owned("pack ");
            let q = debug_str(pack_id);
            m.push_str(q.as_str());
            m.push_str(" has no stored config to match against; it was deleted or never existed");
            Err(ApiError::Conflict(m))
        },
    }
}

} // verus!

verus! {

// ── what a read hands out and a save sends back ─────────────────────────────

/// A revision as a read hands it out: text that is not empty and neither
/// begins nor ends with a double quote (the tag's own delimiter).
pub open spec fn plain_rev(rev: Seq<char>) -> bool {
    rev.len() > 0 && rev[0] != '"' && rev.last() != '"'
}

/// The ETag a read hands out, sent back as `If-Match`, asks for exactly the
/// revision it carries: an editor that echoes the tag it was given names the
/// revision it read.
pub proof fn law_etag_is_read_back(rev: Seq<char>)
    requires
        plain_rev(rev),
    ensures
        precondition_spec(seq!['"'] + rev + seq!['"']) == Some(PreconditionView::Rev(rev)),
{
    let t = seq!['"'] + rev + seq!['"'];
    let q = seq!['"'];
    assert(t[0] == '"');
    assert(t.last() == '"');
    assert(!crate::text::is_ws('"'));
    assert(crate::text::trim_start(t) == t);
    assert(crate::text::trim_end(t) == t);
    assert(trim(t) == t);
    reveal_strlit("*");
    reveal_strlit("W/");
    assert(t != "*"@) by {
        assert(t.len() >= 3);
    }
    assert(t.take(2) != "W/"@) by {
        assert(t.take(2)[0] == '"');
    }
    assert(t.take(1) =~= q);
    assert(t.skip(1) =~= rev + q);
    let u = rev + q;
    assert(u.take(1) =~= seq![rev[0]]);
    assert(u.take(1) != q) by {
        assert(u.take(1)[0] == rev[0]);
    }
    assert(crate::text::strip_prefixes(u, q) == u);
    assert(crate::text::strip_prefixes(t, q) == u);
    assert(u.skip(u.len() - 1) =~= q);
    assert(u.take(u.len() - 1) =~= rev);
    assert(rev.skip(rev.len() - 1) =~= seq![rev.last()]);
    assert(rev.skip(rev.len() - 1) != q) by {
        assert(rev.skip(rev.len() - 1)[0] == rev.last());
    }
    assert(crate::text::strip_suffixes(rev, q) == rev);
    assert(crate::text::strip_suffixes(u, q) == rev);
    assert(strip_quotes_spec(t) == rev);
}

/// A save conditioned on the ETag its editor read goes through exactly when
/// the stored revision is still the one read; once another save has moved
/// it, the same save is refused as a conflict rather than overwriting.
pub proof fn law_current_base_passes_stale_refused(read: Seq<char>, now: Seq<char>, pack_id: Seq<char>)
    requires
        plain_rev(read),
    ensures
        check_precondition_spec(precondition_spec(seq!['"'] + read + seq!['"']), Some(now), pack_id) is Ok
            <==> read == now,
{
    law_etag_is_read_back(read);
}

proof fn lemma_strong_tag_unquotes(rev: Seq<char>)
    requires
        plain_rev(rev),
    ensures
        strip_quotes_spec(seq!['"'] + rev + seq!['"']) == rev,
{
    let strong = seq!['"'] + rev + seq!['"'];
    law_etag_is_read_back(rev);
    assert(trim(strong) == strong) by {
        assert(!crate::text::is_ws('"'));
        crate::text::lemma_trim_of_clean_ends(strong);
    }
    reveal_strlit("*");
    reveal_strlit("W/");
    assert(strong != "*"@) by {
        assert(strong.len() >= 3);
    }
    assert(strong.take(2) != "W/"@) by {
        assert(strong.take(2)[0] == '"');
    }
}

/// A weak validator names the same revision as the strong one (`W/"r"` is
/// `"r"`), and `*` asks only that some config be stored.
pub proof fn law_weak_tag_and_wildcard(rev: Seq<char>)
    requires
        plain_rev(rev),
    ensures
        precondition_spec(seq!['W', '/', '"'] + rev + seq!['"']) == Some(PreconditionView::Rev(rev)),
        precondition_spec(seq!['*']) == Some(PreconditionView::Any),
{
    lemma_strong_tag_unquotes(rev);
    let strong = seq!['"'] + rev + seq!['"'];
    let t = seq!['W', '/', '"'] + rev + seq!['"'];
    assert(t[0] == 'W');
    assert(t.last() == '"');
    assert(!crate::text::is_ws('W'));
    assert(!crate::text::is_ws('"'));
    crate::text::lemma_trim_of_clean_ends(t);
    reveal_strlit("*");
    reveal_strlit("W/");
    assert(t != "*"@) by {
        assert(t.len() >= 4);
    }
    assert(t.take(2) =~= "W/"@);
    assert(t.skip(2) =~= strong);
    lemma_star();
}

proof fn lemma_star()
    ensures
        precondition_spec(seq!['*']) == Some(PreconditionView::Any),
{
    reveal_strlit("*");
    assert(seq!['*'] =~= "*"@);
    assert(!crate::text::is_ws('*'));
    crate::text::lemma_trim_of_clean_ends(seq!['*']);
}

/// What a save's precondition demands of what is stored: a save with none
/// always goes through; `*` goes through exactly when some config is stored;
/// a revision is refused when nothing is stored, and otherwise goes through
/// exactly when it is the stored one.
pub proof fn law_what_a_precondition_demands(pre: Option<PreconditionView>, current: Option<Seq<char>>, pack_id: Seq<char>)
    ensures
        pre is None ==> check_precondition_spec(pre, current, pack_id) is Ok,
        pre == Some(PreconditionView::Any) ==> (check_precondition_spec(pre, current, pack_id) is Ok <==> current is Some),
        pre is Some && current is None ==> check_precondition_spec(pre, current, pack_id) is Err,
        forall|w: Seq<char>, now: Seq<char>|
            pre == Some(PreconditionView::Rev(w)) && current == Some(now) ==> (#[trigger] check_precondition_spec(
                Some(PreconditionView::Rev(w)),
                Some(now),
                pack_id,
            ) is Ok <==> w == now),
{
}

} // verus!
