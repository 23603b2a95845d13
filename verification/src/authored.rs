//! The operator-asserted (authored) layer of the registry: which values an
//! authored write accepts, checked before anything is written, and the shape
//! of the identity an operator gives a cached jar.
use vstd::prelude::*;
use crate::error::ApiError;
use crate::json::{json_string_array, write_json_strings};
use crate::text::{chars_of, debug_quoted, debug_str, owned, str_is, string_of, texts, trim, trim_str};

verus! {

/// The valid release channels (the schema's own list).
pub open spec fn is_channel(ch: Seq<char>) -> bool {
    ch == "release"@ || ch == "beta"@ || ch == "alpha"@ || ch == "unknown"@
}

/// Whether `ch` is one of the release channels.
pub fn valid_channel(ch: &str) -> (b: bool)
    ensures
        b == is_channel(ch@),
{
    let c = chars_of(ch);
    str_is(&c, "release") || str_is(&c, "beta") || str_is(&c, "alpha") || str_is(&c, "unknown")
}

/// The refusal of a channel, listing what would have been accepted.
pub open spec fn bad_channel_text(ch: Seq<char>) -> Seq<char> {
    "channel must be one of release/beta/alpha/unknown, got "@ + debug_quoted(ch)
}

/// The refusal of channel `ch`, naming every channel that would have been
/// accepted.
pub fn bad_channel(ch: &str) -> (m: String)
    ensures
        m@ == bad_channel_text(ch@),
{
    let mut m = owned("channel must be one of release/beta/alpha/unknown, got ");
    let q = debug_str(ch);
    m.push_str(q.as_str());
    m
}

/// The channel list as an HTTP refusal prints it.
pub open spec fn channel_list_text() -> Seq<char> {
    "channel must be one of [\"release\", \"beta\", \"alpha\", \"unknown\"]"@
}

/// The valid `jar_class.kind` values.
pub open spec fn is_jar_kind(kind: Seq<char>) -> bool {
    kind == "mod"@ || kind == "coremod"@ || kind == "library"@
}

/// A side class: which side of a game a mod runs on.
pub open spec fn is_side(s: Seq<char>) -> bool {
    s == "client"@ || s == "server"@ || s == "both"@
}

/// A match policy: whether the server must carry the same mod.
pub open spec fn is_match_policy(p: Seq<char>) -> bool {
    p == "must_match"@ || p == "tolerant"@
}

/// What an authored jar classification is checked against: a known kind, a
/// known side and policy when given, and not the contradiction of a
/// client-side mod that the server must match.
pub open spec fn jar_class_check(kind: Seq<char>, side: Option<Seq<char>>, policy: Option<Seq<char>>) -> Result<(), Seq<char>> {
    if !is_jar_kind(kind) {
        Err("kind must be one of [\"mod\", \"coremod\", \"library\"]"@)
    } else if side matches Some(s) && !is_side(s) {
        Err("side must be one of client | server | both"@)
    } else if policy matches Some(p) && !is_match_policy(p) {
        Err("match_policy must be one of must_match | tolerant"@)
    } else if side == Some("client"@) && policy == Some("must_match"@) {
        Err("client + must_match is contradictory: a client-side mod never requires itself on the server"@)
    } else {
        Ok(())
    }
}

fn opt_view(o: Option<&str>) -> (r: Option<Vec<char>>)
    ensures
        match o {
            Some(s) => r matches Some(v) && v@ == s@,
            None => r is None,
        },
{
    match o {
        Some(s) => Some(chars_of(s)),
        None => None,
    }
}

/// Check an authored jar classification before it is written. Removing one
/// needs no check; setting one does.
pub fn check_jar_class(kind: &str, side: Option<&str>, match_policy: Option<&str>) -> (r: Result<(), String>)
    ensures
        match (r, jar_class_check(
            kind@,
            match side { Some(s) => Some(s@), None => None },
            match match_policy { Some(p) => Some(p@), None => None },
        )) {
            (Ok(()), Ok(())) => true,
            (Err(m), Err(t)) => m@ == t,
            _ => false,
        },
{
    let k = chars_of(kind);
    if !(str_is(&k, "mod") || str_is(&k, "coremod") || str_is(&k, "library")) {
        return Err(owned("kind must be one of [\"mod\", \"coremod\", \"library\"]"));
    }
    let s = opt_view(side);
    let p = opt_view(match_policy);
    if let Some(sv) = &s {
        if !(str_is(sv, "client") || str_is(sv, "server") || str_is(sv, "both")) {
            return Err(owned("side must be one of client | server | both"));
        }
    }
    if let Some(pv) = &p {
        if !(str_is(pv, "must_match") || str_is(pv, "tolerant")) {
            return Err(owned("match_policy must be one of must_match | tolerant"));
        }
    }
    let client = match &s {
        Some(sv) => str_is(sv, "client"),
        None => false,
    };
    let must = match &p {
        Some(pv) => str_is(pv, "must_match"),
        None => false,
    };
    if client && must {
        return Err(owned(
            "client + must_match is contradictory: a client-side mod never requires itself on the server",
        ));
    }
    Ok(())
}

/// Which mod a file belongs to: an existing surrogate id the operator
/// picked, or a new authored identity to create with this display name.
pub enum ModRef<'a> {
    Existing(i64),
    New { name: &'a str },
}

/// The full identity an operator sets for one cached jar (by sha1): which
/// mod it is, which release (version_number + channel) it belongs to, and
/// the file's own loader + Minecraft-version facets.
pub struct FileIdentity<'a> {
    pub sha1: &'a str,
    pub size_bytes: i64,
    pub filename: Option<&'a str>,
    pub mod_ref: ModRef<'a>,
    pub version_number: &'a str,
    pub channel: &'a str,
    /// Loader ids the jar suits; empty falls back to `any`.
    pub loaders: &'a [String],
    pub mc_versions: &'a [String],
}

/// What an authored file identity must satisfy before anything is written:
/// a version number that is not blank, a known channel, and for a new mod a
/// name that is not blank.
pub open spec fn identity_check(version_number: Seq<char>, channel: Seq<char>, new_name: Option<Seq<char>>) -> Result<(), Seq<char>> {
    if trim(version_number).len() == 0 {
        Err("version_number must not be empty"@)
    } else if !is_channel(channel) {
        Err(bad_channel_text(channel))
    } else if new_name matches Some(n) && trim(n).len() == 0 {
        Err("new mod name must not be empty"@)
    } else {
        Ok(())
    }
}

/// Check an authored file identity before it is written.
pub fn check_file_identity(id: &FileIdentity) -> (r: Result<(), String>)
    ensures
        match (r, identity_check(
            id.version_number@,
            id.channel@,
            match id.mod_ref { ModRef::New { name } => Some(name@), ModRef::Existing(_) => None },
        )) {
            (Ok(()), Ok(())) => true,
            (Err(m), Err(t)) => m@ == t,
            _ => false,
        },
{
    let v = trim_str(id.version_number);
    if v.len() == 0 {
        return Err(owned("version_number must not be empty"));
    }
    if !valid_channel(id.channel) {
        return Err(bad_channel(id.channel));
    }
    match id.mod_ref {
        ModRef::New { name } => {
            let n = trim_str(name);
            if n.len() == 0 {
                return Err(owned("new mod name must not be empty"));
            }
        },
        ModRef::Existing(_) => {},
    }
    Ok(())
}

/// The loader targets a file is written with: the ones given, or `any` when
/// none is.
pub fn effective_loaders(loaders: &[String]) -> (r: Vec<String>)
    ensures
        loaders@.len() == 0 ==> r@.len() == 1 && r@[0]@ == "any"@,
        loaders@.len() > 0 ==> r@ == loaders@,
{
    let mut r: Vec<String> = Vec::new();
    if loaders.len() == 0 {
        r.push(owned("any"));
        return r;
    }
    let mut i: usize = 0;
    while i < loaders.len()
        invariant
            i <= loaders.len(),
            r@ == loaders@.take(i as int),
        decreases loaders.len() - i,
    {
        r.push(loaders[i].clone());
        proof {
            assert(r@ =~= loaders@.take(i + 1));
        }
        i += 1;
    }
    proof {
        assert(loaders@.take(loaders.len() as int) =~= loaders@);
    }
    r
}

/// The `mc_versions` cell a file is written with: NULL when the file declares
/// no Minecraft version, otherwise the versions as a JSON array of strings, in
/// the order given. It always succeeds: the `Err` arm is the serializer
/// failing, which it does not for a list of strings.
pub fn mc_versions_cell(mc: &[String]) -> (r: Result<Option<String>, String>)
    ensures
        mc@.len() == 0 ==> r matches Ok(None),
        mc@.len() > 0 ==> (r matches Ok(Some(t)) && t@ == json_string_array(texts(mc@))),
{
    if mc.len() == 0 {
        return Ok(None);
    }
    match write_json_strings(mc) {
        Some(t) => Ok(Some(t)),
        None => Err(owned("the Minecraft versions could not be written as JSON")),
    }
}

/// What a release edit does: refused for an unknown channel, nothing at all
/// when it changes neither field, otherwise a write.
pub open spec fn release_edit_check(version_number: Option<Seq<char>>, channel: Option<Seq<char>>) -> Result<bool, Seq<char>> {
    match channel {
        Some(c) if !is_channel(c) => Err(bad_channel_text(c)),
        _ => Ok(version_number is Some || channel is Some),
    }
}

/// Check a release edit before it is written: `Ok(true)` when there is
/// something to write, `Ok(false)` when there is nothing to do.
pub fn check_release_edit(version_number: Option<&str>, channel: Option<&str>) -> (r: Result<bool, String>)
    ensures
        match (r, release_edit_check(
            match version_number { Some(v) => Some(v@), None => None },
            match channel { Some(c) => Some(c@), None => None },
        )) {
            (Ok(a), Ok(b)) => a == b,
            (Err(m), Err(t)) => m@ == t,
            _ => false,
        },
{
    if let Some(c) = channel {
        if !valid_channel(c) {
            return Err(bad_channel(c));
        }
    }
    Ok(version_number.is_some() || channel.is_some())
}

// ── the request bodies of the authored endpoints ───────────────────────────

/// A content hash as the cache names it: forty hexadecimal digits.
pub open spec fn is_sha1_text(s: Seq<char>) -> bool {
    s.len() == 40 && forall|i: int|
        0 <= i < s.len() ==> ('0' <= #[trigger] s[i] <= '9' || 'a' <= s[i] <= 'f' || 'A' <= s[i] <= 'F')
}

/// Whether `s` is forty hexadecimal digits, as a cache hash must be.
pub fn is_sha1(s: &str) -> (b: bool)
    ensures
        b == is_sha1_text(s@),
{
    let v = chars_of(s);
    if v.len() != 40 {
        return false;
    }
    let mut i: usize = 0;
    while i < v.len()
        invariant
            i <= v.len() == 40,
            v@ == s@,
            forall|k: int| 0 <= k < i ==> ('0' <= #[trigger] v@[k] <= '9' || 'a' <= v@[k] <= 'f' || 'A' <= v@[k] <= 'F'),
        decreases v.len() - i,
    {
        let c = v[i];
        if !(('0' <= c && c <= '9') || ('a' <= c && c <= 'f') || ('A' <= c && c <= 'F')) {
            return false;
        }
        i += 1;
    }
    true
}

/// The refusal of a path hash that is not one.
pub open spec fn bad_sha1_text() -> Seq<char> {
    "sha1 must be 40 hex chars"@
}

/// What a request to set a file's identity must carry before the cache is
/// asked about the file: a real hash, a version number that is not blank, a
/// known channel, and a mod (an existing id, or a name that is not blank).
pub open spec fn identity_request_check(
    sha1: Seq<char>,
    mod_id: Option<i64>,
    mod_name: Option<Seq<char>>,
    version_number: Seq<char>,
    channel: Seq<char>,
) -> Result<(), Seq<char>> {
    if !is_sha1_text(sha1) {
        Err(bad_sha1_text())
    } else if trim(version_number).len() == 0 {
        Err("version_number must not be empty"@)
    } else if !is_channel(channel) {
        Err(channel_list_text())
    } else if !(mod_id is Some || (mod_name matches Some(n) && trim(n).len() > 0)) {
        Err("provide mod_id (existing mod) or a non-empty mod_name (new mod)"@)
    } else {
        Ok(())
    }
}

/// Check a request to set a file's identity. A bad body is a refusal of the
/// request, not a failure of the write behind it.
pub fn check_identity_request(
    sha1: &str,
    mod_id: Option<i64>,
    mod_name: Option<&str>,
    version_number: &str,
    channel: &str,
) -> (r: Result<(), ApiError>)
    ensures
        match (r, identity_request_check(
            sha1@,
            mod_id,
            match mod_name { Some(n) => Some(n@), None => None },
            version_number@,
            channel@,
        )) {
            (Ok(()), Ok(())) => true,
            (Err(ApiError::BadRequest(m)), Err(t)) => m@ == t,
            _ => false,
        },
{
    if !is_sha1(sha1) {
        return Err(ApiError::BadRequest(owned("sha1 must be 40 hex chars")));
    }
    let v = trim_str(version_number);
    if v.len() == 0 {
        return Err(ApiError::BadRequest(owned("version_number must not be empty")));
    }
    if !valid_channel(channel) {
        return Err(ApiError::BadRequest(owned(
            "channel must be one of [\"release\", \"beta\", \"alpha\", \"unknown\"]",
        )));
    }
    let has_name = match mod_name {
        Some(n) => trim_str(n).len() > 0,
        None => false,
    };
    if !(mod_id.is_some() || has_name) {
        return Err(ApiError::BadRequest(owned(
            "provide mod_id (existing mod) or a non-empty mod_name (new mod)",
        )));
    }
    Ok(())
}

/// Which mod an identity request names: the existing id when one is given,
/// otherwise a new mod under the trimmed name when it is not blank.
pub fn mod_ref_of<'a>(mod_id: Option<i64>, mod_name: Option<&'a str>) -> (r: Option<ModRef<'a>>)
    ensures
        mod_id is Some ==> r == Some(ModRef::<'a>::Existing(mod_id->0)),
        mod_id is None ==> (match mod_name {
                Some(n) => if trim(n@).len() > 0 {
                    (r matches Some(ModRef::New { name }) && name@ == trim(n@))
                } else {
                    r is None
                },
                None => r is None,
            }),
{
    match mod_id {
        Some(id) => Some(ModRef::Existing(id)),
        None => match mod_name {
            Some(n) => {
                let t = crate::text::trim_slice(n);
                if !t.is_empty() {
                    Some(ModRef::New { name: t })
                } else {
                    None
                }
            },
            None => None,
        },
    }
}

/// What a classification request must carry: a real hash, and a kind unless
/// it removes the classification. The kind to write (empty on a removal
/// that named none).
pub open spec fn class_request_check(sha1: Seq<char>, kind: Option<Seq<char>>, remove: bool) -> Result<Seq<char>, Seq<char>> {
    if !is_sha1_text(sha1) {
        Err(bad_sha1_text())
    } else {
        match kind {
            Some(k) => Ok(k),
            None => if remove {
                Ok(Seq::empty())
            } else {
                Err("kind is required (mod | coremod | library)"@)
            },
        }
    }
}

/// Check a request to set or clear a file's classification.
pub fn check_class_request(sha1: &str, kind: Option<&str>, remove: bool) -> (r: Result<String, ApiError>)
    ensures
        match (r, class_request_check(sha1@, match kind { Some(k) => Some(k@), None => None }, remove)) {
            (Ok(k), Ok(t)) => k@ == t,
            (Err(ApiError::BadRequest(m)), Err(t)) => m@ == t,
            _ => false,
        },
{
    if !is_sha1(sha1) {
        return Err(ApiError::BadRequest(owned("sha1 must be 40 hex chars")));
    }
    match kind {
        Some(k) => Ok(owned(k)),
        None => if remove {
            Ok(String::new())
        } else {
            Err(ApiError::BadRequest(owned("kind is required (mod | coremod | library)")))
        },
    }
}

/// Check a channel named by a release edit request.
pub fn check_release_channel(channel: Option<&str>) -> (r: Result<(), ApiError>)
    ensures
        match channel {
            Some(c) if !is_channel(c@) => r matches Err(ApiError::BadRequest(m)) && m@ == channel_list_text(),
            _ => r is Ok,
        },
{
    if let Some(c) = channel {
        if !valid_channel(c) {
            return Err(ApiError::BadRequest(owned(
                "channel must be one of [\"release\", \"beta\", \"alpha\", \"unknown\"]",
            )));
        }
    }
    Ok(())
}

} // verus!

verus! {

// ── folding one mod into another ────────────────────────────────────────────

/// A release of a mod as folding reads it: its row id and what identifies it
/// within its mod, the version number and the channel.
pub struct ReleaseKey {
    pub id: i64,
    pub version_number: String,
    pub channel: String,
}

/// What folding a mod does with one of its releases: one that collides with
/// a release of the target (same version number and channel) is folded into
/// it, its files repointed there and the row dropped; any other release is
/// repointed to the target mod as it stands.
#[derive(Debug, Clone, Copy, PartialEq, Eq, Structural)]
pub enum ReleaseFold {
    Fold { from: i64, into: i64 },
    Repoint { from: i64 },
}

/// The first release of `into` that has version number `v` on channel `c`.
pub open spec fn colliding_release(into: Seq<ReleaseKey>, v: Seq<char>, c: Seq<char>) -> Option<i64>
    decreases into.len(),
{
    if into.len() == 0 {
        None
    } else if into[0].version_number@ == v && into[0].channel@ == c {
        Some(into[0].id)
    } else {
        colliding_release(into.drop_first(), v, c)
    }
}

/// What becomes of release `r` when its mod is folded into the mod whose
/// releases are `into`.
pub open spec fn release_fold(r: ReleaseKey, into: Seq<ReleaseKey>) -> ReleaseFold {
    match colliding_release(into, r.version_number@, r.channel@) {
        Some(t) => ReleaseFold::Fold { from: r.id, into: t },
        None => ReleaseFold::Repoint { from: r.id },
    }
}

fn find_colliding(into: &[ReleaseKey], v: &String, c: &String) -> (r: Option<i64>)
    ensures
        r == colliding_release(into@, v@, c@),
{
    let mut i: usize = 0;
    proof {
        assert(into@.skip(0) =~= into@);
    }
    while i < into.len()
        invariant
            i <= into@.len(),
            colliding_release(into@, v@, c@) == colliding_release(into@.skip(i as int), v@, c@),
        decreases into@.len() - i,
    {
        proof {
            let t = into@.skip(i as int);
            assert(t[0] == into@[i as int]);
            assert(t.drop_first() =~= into@.skip(i + 1));
        }
        if into[i].version_number == *v && into[i].channel == *c {
            return Some(into[i].id);
        }
        i += 1;
    }
    None
}

/// The release half of folding mod `from_mod_id` into `into_mod_id`, whose
/// releases are `from_releases` and `into_releases`: for each release of the
/// source, in order, whether it folds into a colliding release of the target
/// or moves over as it is. Folding a mod into itself does nothing.
pub fn release_folds(
    from_mod_id: i64,
    into_mod_id: i64,
    from_releases: &[ReleaseKey],
    into_releases: &[ReleaseKey],
) -> (r: Vec<ReleaseFold>)
    ensures
        from_mod_id == into_mod_id ==> r@.len() == 0,
        from_mod_id != into_mod_id ==> r@.len() == from_releases@.len(),
        from_mod_id != into_mod_id ==> forall|i: int|
            0 <= i < from_releases@.len() ==> #[trigger] r@[i] == release_fold(from_releases@[i], into_releases@),
{
    let mut out: Vec<ReleaseFold> = Vec::new();
    if from_mod_id == into_mod_id {
        return out;
    }
    let mut i: usize = 0;
    while i < from_releases.len()
        invariant
            i <= from_releases@.len(),
            out@.len() == i,
            forall|m: int| 0 <= m < i ==> #[trigger] out@[m] == release_fold(from_releases@[m], into_releases@),
        decreases from_releases@.len() - i,
    {
        let r = &from_releases[i];
        let step = match find_colliding(into_releases, &r.version_number, &r.channel) {
            Some(t) => ReleaseFold::Fold { from: r.id, into: t },
            None => ReleaseFold::Repoint { from: r.id },
        };
        out.push(step);
        i += 1;
    }
    out
}

} // verus!

verus! {

/// An authored jar classification is accepted exactly when its kind is
/// `mod`, `coremod` or `library`, its side (when given) is `client`,
/// `server` or `both`, its match policy (when given) is `must_match` or
/// `tolerant`, and it is not a client-side mod that the server must match.
pub proof fn law_jar_class_accepts_exactly_the_schema(
    kind: Seq<char>,
    side: Option<Seq<char>>,
    policy: Option<Seq<char>>,
)
    ensures
        jar_class_check(kind, side, policy) is Ok <==> {
            &&& (kind == "mod"@ || kind == "coremod"@ || kind == "library"@)
            &&& (side matches Some(s) ==> (s == "client"@ || s == "server"@ || s == "both"@))
            &&& (policy matches Some(p) ==> (p == "must_match"@ || p == "tolerant"@))
            &&& !(side == Some("client"@) && policy == Some("must_match"@))
        },
{
}

/// An authored file identity is accepted exactly when its version number
/// is not blank, its channel is `release`, `beta`, `alpha` or `unknown`,
/// and a new mod's name is not blank; a refused channel is answered with
/// the list of the four.
pub proof fn law_file_identity_accepts_exactly(
    version_number: Seq<char>,
    channel: Seq<char>,
    new_name: Option<Seq<char>>,
)
    ensures
        identity_check(version_number, channel, new_name) is Ok <==> {
            &&& trim(version_number).len() > 0
            &&& (channel == "release"@ || channel == "beta"@ || channel == "alpha"@ || channel == "unknown"@)
            &&& (new_name matches Some(n) ==> trim(n).len() > 0)
        },
        trim(version_number).len() > 0 && !(channel == "release"@ || channel == "beta"@ || channel
            == "alpha"@ || channel == "unknown"@) ==> identity_check(version_number, channel, new_name)
            == Err::<(), Seq<char>>("channel must be one of release/beta/alpha/unknown, got "@ + debug_quoted(channel)),
{
}

} // verus!
