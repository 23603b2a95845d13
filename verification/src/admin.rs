//! The decisions behind the operator and authoring endpoints: reading a
//! server address, tidying a moderator's reason, refusing a second decision
//! on an upload or a proposal, who may write how much where, and assembling
//! what a pack claims against what its server asks for.
use vstd::prelude::*;
use crate::error::ApiError;
use crate::number::parse_unsigned;
use crate::text::{chars_of, decimal, debug_quoted, debug_str, i64_text, signed_decimal, one_line, one_line_chars, owned, push_u64, slice_chars, string_of, texts, trim, trim_chars, trim_str};

verus! {

/// Minecraft's default server port, taken when an address names none.
pub const DEFAULT_PORT: u16 = 25565;

/// How long a block's reason may be, in characters. It is a label, not an
/// essay: it rides in every refusal that account gets and sits in a row of a
/// list.
pub const MAX_BLOCK_REASON: usize = 300;

/// The index of the last `c` in `s`, if there is one.
pub open spec fn last_index_of(s: Seq<char>, c: char) -> Option<int>
    decreases s.len(),
{
    if s.len() == 0 {
        None
    } else if s.last() == c {
        Some(s.len() - 1)
    } else {
        last_index_of(s.drop_last(), c)
    }
}

/// The host and port an address names: host, or host:port split at the last
/// colon, with Minecraft's default port when none is written. Blank, or a
/// port that is not a number from 0 to 65535, is no address.
pub open spec fn split_address_spec(address: Seq<char>) -> Option<(Seq<char>, u16)> {
    let t = trim(address);
    if t.len() == 0 {
        None
    } else {
        match last_index_of(t, ':') {
            Some(k) => match parse_unsigned(t.skip(k + 1), 65535) {
                Some(p) => Some((t.take(k), p as u16)),
                None => None,
            },
            None => Some((t, DEFAULT_PORT)),
        }
    }
}

/// host, or host:port -- the default is Minecraft's, not the caller's problem.
pub fn split_address(address: &str) -> (r: Option<(String, u16)>)
    ensures
        match r {
            Some((h, p)) => split_address_spec(address@) == Some((h@, p)),
            None => split_address_spec(address@) is None,
        },
{
    let t = trim_str(address);
    if t.len() == 0 {
        return None;
    }
    let mut k: usize = t.len();
    proof {
        assert(t@.take(k as int) =~= t@);
    }
    while k > 0 && t[k - 1] != ':'
        invariant
            k <= t.len(),
            last_index_of(t@, ':') == last_index_of(t@.take(k as int), ':'),
        decreases k,
    {
        proof {
            assert(t@.take(k as int).drop_last() =~= t@.take(k - 1));
        }
        k -= 1;
    }
    if k == 0 {
        proof {
            assert(t@.take(0) =~= Seq::<char>::empty());
        }
        return Some((string_of(&t), DEFAULT_PORT));
    }
    proof {
        assert(t@.take(k as int).last() == ':');
    }
    let port_text = slice_chars(&t, k, t.len());
    proof {
        assert(port_text@ =~= t@.skip(k as int));
    }
    match crate::number::parse_u16(&port_text) {
        Some(port) => {
            let host = slice_chars(&t, 0, k - 1);
            proof {
                assert(host@ =~= t@.take(k - 1));
            }
            Some((string_of(&host), port))
        },
        None => None,
    }
}

/// The text a reason that is too long is refused with.
pub open spec fn long_reason_text() -> Seq<char> {
    "that reason is longer than 300 characters; the thread is where the long version goes"@
}

/// The reason as it will be read: its words on one line, or nothing when
/// there is none, refused when longer than [`MAX_BLOCK_REASON`] characters.
pub open spec fn tidy_reason_spec(raw: Option<Seq<char>>) -> Result<Option<Seq<char>>, Seq<char>> {
    match raw {
        None => Ok(None),
        Some(text) => {
            let line = one_line(text);
            if line.len() == 0 {
                Ok(None)
            } else if line.len() > MAX_BLOCK_REASON {
                Err(long_reason_text())
            } else {
                Ok(Some(line))
            }
        },
    }
}

/// The reason as it will be read: one line, trimmed, and bounded.
///
/// Whitespace is collapsed rather than preserved because every place it
/// appears is a single line -- a notice where a reply box was, a row in the
/// block list. The bound counts characters, not bytes.
pub fn tidy_reason(raw: Option<&str>) -> (r: Result<Option<String>, ApiError>)
    ensures
        match (r, tidy_reason_spec(match raw { Some(t) => Some(t@), None => None })) {
            (Ok(None), Ok(None)) => true,
            (Ok(Some(s)), Ok(Some(t))) => s@ == t,
            (Err(ApiError::BadRequest(m)), Err(t)) => m@ == t,
            _ => false,
        },
{
    let text = match raw {
        None => return Ok(None),
        Some(t) => t,
    };
    let v = chars_of(text);
    let line = one_line_chars(&v);
    if line.len() == 0 {
        return Ok(None);
    }
    if line.len() > MAX_BLOCK_REASON {
        return Err(ApiError::BadRequest(owned(
            "that reason is longer than 300 characters; the thread is where the long version goes",
        )));
    }
    Ok(Some(string_of(&line)))
}

/// A required text field, trimmed; blank is refused with `complaint`.
pub fn trimmed(value: &str, complaint: &str) -> (r: Result<String, ApiError>)
    ensures
        trim(value@).len() > 0 ==> (r matches Ok(s) && s@ == trim(value@)),
        trim(value@).len() == 0 ==> (r matches Err(ApiError::BadRequest(m)) && m@ == complaint@),
{
    let t = trim_str(value);
    if t.len() == 0 {
        return Err(ApiError::BadRequest(owned(complaint)));
    }
    Ok(string_of(&t))
}

/// The default of a hide request: a request that says nothing hides.
pub fn yes() -> (b: bool)
    ensures
        b,
{
    true
}

/// The refusal of a second decision on an upload that is no longer pending.
pub open spec fn decided_text(status: Seq<char>) -> Seq<char> {
    "that upload was already "@ + status + " -- reload the queue"@
}

/// An upload only gets decided once: a pending one may be decided, any other
/// is a conflict naming what it already became.
pub fn already_decided(status: &str) -> (r: Result<(), ApiError>)
    ensures
        status@ == "pending"@ ==> r is Ok,
        status@ != "pending"@ ==> (r matches Err(ApiError::Conflict(m)) && m@ == decided_text(status@)),
{
    let s = chars_of(status);
    if crate::text::str_is(&s, "pending") {
        return Ok(());
    }
    let mut m = owned("that upload was already ");
    m.push_str(status);
    m.push_str(" -- reload the queue");
    Err(ApiError::Conflict(m))
}

/// The refusal of a proposal that was already decided.
pub open spec fn proposal_decided_text(status: Seq<char>) -> Seq<char> {
    "this proposal is already "@ + status
}

/// Whether a proposal may be taken: it is still open, and it offers a state
/// (a source pack and a commit of it) to take. A proposal decided by someone
/// else first is a conflict naming what it became.
pub fn proposal_to_take(status: &str, source_pack: Option<&str>, source_commit: Option<&str>) -> (r: Result<(), ApiError>)
    ensures
        status@ != "open"@ ==> (r matches Err(ApiError::Conflict(m)) && m@ == proposal_decided_text(status@)),
        status@ == "open"@ && (source_pack is None || source_commit is None) ==> (r matches Err(
            ApiError::BadRequest(m),
        ) && m@ == "this thread offers no state"@),
        status@ == "open"@ && source_pack is Some && source_commit is Some ==> r is Ok,
{
    let s = chars_of(status);
    if !crate::text::str_is(&s, "open") {
        let mut m = owned("this proposal is already ");
        m.push_str(status);
        return Err(ApiError::Conflict(m));
    }
    match (source_pack, source_commit) {
        (Some(_), Some(_)) => Ok(()),
        _ => Err(ApiError::BadRequest(owned("this thread offers no state"))),
    }
}

/// The commit message of a merge: the message given, trimmed, or else one
/// naming the proposal and its source pack.
pub open spec fn merge_message_spec(message: Option<Seq<char>>, id: int, source_pack: Seq<char>) -> Seq<char> {
    match message {
        Some(m) if trim(m).len() > 0 => trim(m),
        _ => "merge #"@ + signed_decimal(id) + " from "@ + source_pack,
    }
}

/// The message of the commit taking proposal `id` from `source_pack`.
pub fn merge_message(message: Option<String>, id: i64, source_pack: &str) -> (r: String)
    ensures
        r@ == merge_message_spec(
            match message { Some(m) => Some(m@), None => None },
            id as int,
            source_pack@,
        ),
{
    if let Some(m) = message {
        let t = trim_str(m.as_str());
        if t.len() > 0 {
            return string_of(&t);
        }
    }
    let mut r = owned("merge #");
    let n = i64_text(id);
    r.push_str(n.as_str());
    r.push_str(" from ");
    r.push_str(source_pack);
    r
}

/// The address a recorded server is asked at: its address trimmed, which must
/// be there and must read as an address.
pub open spec fn address_to_ask_spec(server_id: Seq<char>, address: Option<Seq<char>>) -> Result<(Seq<char>, u16), Seq<char>> {
    match address {
        Some(a) if trim(a).len() > 0 => match split_address_spec(trim(a)) {
            Some(hp) => Ok(hp),
            None => Err(debug_quoted(trim(a)) + " is not an address"@),
        },
        _ => Err("server "@ + debug_quoted(server_id)
            + " has no address recorded, so there is nothing to ask"@),
    }
}

/// Where a recorded server is asked what it advertises. A server with no
/// address recorded is refused rather than answered with an empty list: "we
/// never asked" and "it answered nothing" are different facts.
pub fn address_to_ask(server_id: &str, address: Option<&str>) -> (r: Result<(String, u16), ApiError>)
    ensures
        match (r, address_to_ask_spec(server_id@, match address { Some(a) => Some(a@), None => None })) {
            (Ok((h, p)), Ok((sh, sp))) => h@ == sh && p == sp,
            (Err(ApiError::BadRequest(m)), Err(t)) => m@ == t,
            _ => false,
        },
{
    let a = match address {
        Some(a) => a,
        None => {
            let mut m = owned("server ");
            let q = debug_str(server_id);
            m.push_str(q.as_str());
            m.push_str(" has no address recorded, so there is nothing to ask");
            return Err(ApiError::BadRequest(m));
        },
    };
    let t = trim_str(a);
    if t.len() == 0 {
        let mut m = owned("server ");
        let q = debug_str(server_id);
        m.push_str(q.as_str());
        m.push_str(" has no address recorded, so there is nothing to ask");
        return Err(ApiError::BadRequest(m));
    }
    let ts = string_of(&t);
    proof {
        crate::text::lemma_trim_idempotent(a@);
    }
    match split_address(ts.as_str()) {
        Some(hp) => Ok(hp),
        None => {
            let mut m = debug_str(ts.as_str());
            m.push_str(" is not an address");
            Err(ApiError::BadRequest(m))
        },
    }
}

} // verus!

verus! {

// ── a pack's handshake claim against its server ────────────────────────────

/// What a pack claims, what its server wants, and the difference. `S` is the
/// claim itself (the mod list a handshake carries).
pub struct SpoofReport<S> {
    /// The claim the pack ships; absent when it ships none.
    pub shipped: Option<S>,
    /// What the server advertises now; absent when the pack names no server,
    /// the server has no address recorded, or it could not be reached.
    pub current: Option<S>,
    pub server_id: Option<String>,
    /// The address actually asked, when one was.
    pub asked: Option<String>,
    /// Why the server was not asked, or why its answer yielded nothing.
    pub unasked: Option<String>,
    /// Empty when they agree, or when there was nothing to compare.
    pub drift: Vec<String>,
}

/// Whether a pack's server is asked, and where.
pub enum ServerQuestion {
    /// Not asked, and why.
    Unasked(String),
    /// Asked at this host and port.
    Ask { host: String, port: u16 },
}

/// Whom a pack's claim is checked against: nobody when the pack names no
/// server, names one the mirror has no entry for, or the entry has no
/// address that reads as one; otherwise that address.
pub open spec fn server_question_spec(named: bool, entry_found: bool, address: Option<Seq<char>>) -> Result<(Seq<char>, u16), Seq<char>> {
    if !named {
        Err("this pack names no server, so there is nothing it has to match"@)
    } else if !entry_found {
        Err("this pack names a server the mirror has no entry for"@)
    } else {
        match address {
            Some(a) => match split_address_spec(a) {
                Some(hp) => Ok(hp),
                None => Err("that server has no address recorded, so there is nothing to ask"@),
            },
            None => Err("that server has no address recorded, so there is nothing to ask"@),
        }
    }
}

/// Where the pack's claim has to come from. `named`: the pack names a
/// server; `entry_found`: the mirror has an entry for it; `address`: the
/// entry's recorded address.
pub fn server_question(named: bool, entry_found: bool, address: Option<&str>) -> (r: ServerQuestion)
    ensures
        match (r, server_question_spec(named, entry_found, match address { Some(a) => Some(a@), None => None })) {
            (ServerQuestion::Unasked(m), Err(t)) => m@ == t,
            (ServerQuestion::Ask { host, port }, Ok((h, p))) => host@ == h && port == p,
            _ => false,
        },
{
    if !named {
        return ServerQuestion::Unasked(owned("this pack names no server, so there is nothing it has to match"));
    }
    if !entry_found {
        return ServerQuestion::Unasked(owned("this pack names a server the mirror has no entry for"));
    }
    match address {
        Some(a) => match split_address(a) {
            Some((host, port)) => ServerQuestion::Ask { host, port },
            None => ServerQuestion::Unasked(owned(
                "that server has no address recorded, so there is nothing to ask",
            )),
        },
        None => ServerQuestion::Unasked(owned(
            "that server has no address recorded, so there is nothing to ask",
        )),
    }
}

/// What an asked server's answer makes of the report: the claim it
/// advertises, the address asked, and why nothing came of it when nothing
/// did. `reached`: the server answered at all; `claim`: the mod list its
/// answer advertised, if it advertised one.
pub fn server_answer<S>(host: &str, port: u16, reached: bool, claim: Option<S>) -> (r: (Option<S>, Option<String>, Option<String>))
    ensures
        !reached ==> (r.0 is None && r.1 is None && (r.2 matches Some(m) && m@ == "that server could not be reached just now"@)),
        reached ==> (r.1 matches Some(a) && a@ == host@ + seq![':'] + decimal(port as nat)),
        reached && claim is Some ==> r.0 == claim && r.2 is None,
        reached && claim is None ==> (r.0 is None && (r.2 matches Some(m) && m@ == "that server answered without advertising a mod list"@)),
{
    if !reached {
        return (None, None, Some(owned("that server could not be reached just now")));
    }
    let mut asked = owned(host);
    asked.push(':');
    push_u64(&mut asked, port as u64);
    match claim {
        Some(c) => (Some(c), Some(asked), None),
        None => (None, Some(asked), Some(owned("that server answered without advertising a mod list"))),
    }
}

// ── a pack's history ────────────────────────────────────────────────────────

/// One commit in a pack's log, with the pack versions built from it, newest
/// first. Empty for a checkpoint that was never published. `C` is the
/// commit record.
pub struct CommitLogEntry<C> {
    pub commit: C,
    pub builds: Vec<String>,
}

/// Two states of one pack, and every difference between them. `Ch` is one
/// difference.
pub struct CommitDiff<Ch> {
    /// The left side: a commit id, the literal `live`, or absent on a first
    /// commit, which has nothing before it.
    pub from: Option<String>,
    /// The right side: always the commit named in the path.
    pub to: String,
    pub changes: Vec<Ch>,
}

/// The builds recorded for a commit in an index from commit id to the pack
/// versions built from it: its entry, or none.
pub open spec fn builds_of_spec(index: Seq<(Seq<char>, Seq<Seq<char>>)>, id: Seq<char>) -> Seq<Seq<char>>
    decreases index.len(),
{
    if index.len() == 0 {
        Seq::empty()
    } else if index[0].0 == id {
        index[0].1
    } else {
        builds_of_spec(index.drop_first(), id)
    }
}

/// The views of a build index.
pub open spec fn index_view(index: Seq<(String, Vec<String>)>) -> Seq<(Seq<char>, Seq<Seq<char>>)> {
    index.map_values(|e: (String, Vec<String>)| (e.0@, e.1@.map_values(|s: String| s@)))
}

/// The pack versions built from commit `id`, by the index of builds by
/// commit: its entry, or none for a commit that was never built.
pub fn builds_of(index: &Vec<(String, Vec<String>)>, id: &str) -> (r: Vec<String>)
    ensures
        r@.map_values(|s: String| s@) == builds_of_spec(index_view(index@), id@),
{
    let ghost ix = index_view(index@);
    let idc = chars_of(id);
    let mut i: usize = 0;
    proof {
        assert(ix.skip(0) =~= ix);
    }
    while i < index.len()
        invariant
            i <= index@.len(),
            ix == index_view(index@),
            idc@ == id@,
            builds_of_spec(ix, id@) == builds_of_spec(ix.skip(i as int), id@),
        decreases index@.len() - i,
    {
        proof {
            let t = ix.skip(i as int);
            assert(t[0] == ix[i as int]);
            assert(t.drop_first() =~= ix.skip(i + 1));
        }
        if crate::text::chars_eq(&chars_of(index[i].0.as_str()), &idc) {
            let r = crate::text::copy_strings(&index[i].1, 0);
            proof {
                assert(index[i as int].1@.map_values(|s: String| s@).skip(0) =~= index[i as int].1@.map_values(|s: String| s@));
                assert(crate::text::texts(r@) == r@.map_values(|s: String| s@));
            }
            return r;
        }
        i += 1;
    }
    let r: Vec<String> = Vec::new();
    proof {
        assert(r@.map_values(|s: String| s@) =~= Seq::<Seq<char>>::empty());
    }
    r
}

/// What a commit is read against.
pub enum DiffBase {
    /// The working config.
    Live,
    /// Another commit.
    Commit(String),
    /// Nothing: a first commit, which has nothing before it.
    Nothing,
}

/// What a commit is read against: `live` names the working config, any
/// other value another commit; absent, the commit's own parent, or nothing
/// for a first commit.
pub fn diff_base(against: Option<&str>, parent: Option<&str>) -> (r: DiffBase)
    ensures
        match against {
            Some(a) => if a@ == "live"@ {
                r is Live
            } else {
                (r matches DiffBase::Commit(c) && c@ == a@)
            },
            None => match parent {
                Some(p) => (r matches DiffBase::Commit(c) && c@ == p@),
                None => r is Nothing,
            },
        },
{
    match against {
        Some(a) => {
            let v = chars_of(a);
            if crate::text::str_is(&v, "live") {
                DiffBase::Live
            } else {
                DiffBase::Commit(owned(a))
            }
        },
        None => match parent {
            Some(p) => DiffBase::Commit(owned(p)),
            None => DiffBase::Nothing,
        },
    }
}

/// The left side a diff names: `live`, the other commit's id, or nothing.
pub fn diff_from(base: &DiffBase) -> (r: Option<String>)
    ensures
        match base {
            DiffBase::Live => (r matches Some(s) && s@ == "live"@),
            DiffBase::Commit(c) => (r matches Some(s) && s@ == c@),
            DiffBase::Nothing => r is None,
        },
{
    match base {
        DiffBase::Live => Some(owned("live")),
        DiffBase::Commit(c) => Some(c.clone()),
        DiffBase::Nothing => None,
    }
}

/// How many changes a pack has outstanding: a pack with no history has
/// nothing to diff against, and one outstanding change -- the pack itself.
pub fn uncommitted(has_head: bool, changes: usize) -> (n: usize)
    ensures
        n == (if has_head { changes } else { 1 }),
{
    if has_head {
        changes
    } else {
        1
    }
}

} // verus!

verus! {

/// A reason, once tidied, is one line of at most [`MAX_BLOCK_REASON`]
/// characters, and tidying it again gives it back unchanged.
pub proof fn law_tidy_reason_settles(raw: Seq<char>)
    ensures
        tidy_reason_spec(Some(raw)) matches Ok(Some(l)) ==> {
            &&& crate::text::is_one_line(l)
            &&& 0 < l.len() <= MAX_BLOCK_REASON
            &&& tidy_reason_spec(Some(l)) == Ok::<Option<Seq<char>>, Seq<char>>(Some(l))
        },
{
    crate::text::law_one_line(raw);
}

} // verus!

verus! {

proof fn lemma_decimal_reads_back(n: nat)
    ensures
        crate::number::all_digits(decimal(n)),
        crate::number::dec_value(decimal(n)) == n,
        decimal(n).len() > 0,
        crate::number::is_digit(decimal(n)[0]),
    decreases n,
{
    if n >= 10 {
        lemma_decimal_reads_back(n / 10);
        let d = decimal(n / 10);
        let c = crate::text::digit((n % 10) as int);
        assert(decimal(n) == d.push(c));
        assert(decimal(n).drop_last() =~= d);
        assert((c as u32) - 48 == n % 10);
        assert(crate::number::dec_value(decimal(n)) == crate::number::dec_value(d) * 10 + ((c as u32) - 48) as nat);
        assert((n / 10) * 10 + n % 10 == n);
        assert forall|i: int| 0 <= i < decimal(n).len() implies crate::number::is_digit(#[trigger] decimal(n)[i]) by {
            if i < d.len() {
                assert(decimal(n)[i] == d[i]);
            }
        }
        assert(decimal(n)[0] == d[0]);
    } else {
        let c = crate::text::digit(n as int);
        assert(decimal(n) == seq![c]);
        assert(decimal(n).drop_last() =~= Seq::<char>::empty());
        assert((c as u32) - 48 == n);
        assert(crate::number::dec_value(decimal(n)) == crate::number::dec_value(Seq::<char>::empty()) * 10 + ((c as u32) - 48) as nat);
    }
}

proof fn lemma_last_colon(host: Seq<char>, tail: Seq<char>)
    requires
        forall|i: int| 0 <= i < tail.len() ==> #[trigger] tail[i] != ':',
    ensures
        last_index_of(host + seq![':'] + tail, ':') == Some(host.len() as int),
    decreases tail.len(),
{
    let s = host + seq![':'] + tail;
    if tail.len() == 0 {
        assert(s.last() == ':');
    } else {
        lemma_last_colon(host, tail.drop_last());
        assert(s.drop_last() =~= host + seq![':'] + tail.drop_last());
        assert(s.last() == tail.last());
    }
}

proof fn lemma_no_colon(host: Seq<char>)
    requires
        forall|i: int| 0 <= i < host.len() ==> #[trigger] host[i] != ':',
    ensures
        last_index_of(host, ':') is None,
    decreases host.len(),
{
    if host.len() > 0 {
        lemma_no_colon(host.drop_last());
        assert(host.last() == host[host.len() - 1]);
    }
}

/// A host as an address names: not empty, no whitespace at either end, no
/// colon.
pub open spec fn plain_host(host: Seq<char>) -> bool {
    &&& host.len() > 0
    &&& !crate::text::is_ws(host[0])
    &&& !crate::text::is_ws(host.last())
    &&& forall|i: int| 0 <= i < host.len() ==> #[trigger] host[i] != ':'
}

/// An address reads back as it was written: a host alone is that host on
/// Minecraft's default port, and `host:port` is that host on that port.
pub proof fn law_address_reads_back(host: Seq<char>, port: u16)
    requires
        plain_host(host),
    ensures
        split_address_spec(host) == Some((host, DEFAULT_PORT)),
        split_address_spec(host + seq![':'] + decimal(port as nat)) == Some((host, port)),
{
    crate::text::lemma_trim_of_clean_ends(host);
    lemma_no_colon(host);
    let d = decimal(port as nat);
    lemma_decimal_reads_back(port as nat);
    let s = host + seq![':'] + d;
    assert(s[0] == host[0]);
    assert(s.last() == d.last());
    assert(!crate::text::is_ws(d.last())) by {
        assert(crate::number::is_digit(d[d.len() - 1]));
    }
    crate::text::lemma_trim_of_clean_ends(s);
    assert forall|i: int| 0 <= i < d.len() implies #[trigger] d[i] != ':' by {
        assert(crate::number::is_digit(d[i]));
    }
    lemma_last_colon(host, d);
    assert(s.skip(host.len() as int + 1) =~= d);
    assert(s.take(host.len() as int) =~= host);
    assert(d[0] != '+');
}

/// The port is what follows the last colon, so a host that itself holds
/// colons keeps them: `host:port` reads as that host on that port whatever
/// the host is, as long as it has no whitespace at either end.
pub proof fn law_the_port_follows_the_last_colon(host: Seq<char>, port: u16)
    requires
        host.len() > 0,
        !crate::text::is_ws(host[0]),
        !crate::text::is_ws(host.last()),
    ensures
        split_address_spec(host + seq![':'] + decimal(port as nat)) == Some((host, port)),
{
    let d = decimal(port as nat);
    lemma_decimal_reads_back(port as nat);
    let s = host + seq![':'] + d;
    assert(s[0] == host[0]);
    assert(s.last() == d.last());
    assert(!crate::text::is_ws(d.last())) by {
        assert(crate::number::is_digit(d[d.len() - 1]));
    }
    crate::text::lemma_trim_of_clean_ends(s);
    assert forall|i: int| 0 <= i < d.len() implies #[trigger] d[i] != ':' by {
        assert(crate::number::is_digit(d[i]));
    }
    lemma_last_colon(host, d);
    assert(s.skip(host.len() as int + 1) =~= d);
    assert(s.take(host.len() as int) =~= host);
    assert(d[0] != '+');
}

} // verus!

verus! {

// ── who may say what, and how often ─────────────────────────────────────────

/// How many comments one account may post in a window.
pub const COMMENTS_PER_WINDOW: i64 = 20;

/// How many threads one account may open in a window.
pub const THREADS_PER_WINDOW: i64 = 5;

/// The window the limits count over, in seconds.
pub const RATE_WINDOW_SECS: i64 = 600;

/// The limit for a kind of writing: comments have theirs, and everything
/// else counts as threads.
pub open spec fn rate_limit(kind: Seq<char>) -> i64 {
    if kind == "comments"@ {
        COMMENTS_PER_WINDOW
    } else {
        THREADS_PER_WINDOW
    }
}

/// The ceilings on public writing: twenty comments, and five of anything
/// else, in a window of ten minutes.
pub proof fn law_twenty_comments_or_five_threads_per_ten_minutes(kind: Seq<char>)
    ensures
        rate_limit("comments"@) == 20,
        kind != "comments"@ ==> rate_limit(kind) == 5,
        RATE_WINDOW_SECS == 600,
{
}

/// The start of the window a write is counted in: [`RATE_WINDOW_SECS`]
/// before `now`.
pub fn rate_since(now: i64) -> (since: i64)
    requires
        now >= i64::MIN + RATE_WINDOW_SECS,
    ensures
        since == now - RATE_WINDOW_SECS,
{
    now - RATE_WINDOW_SECS
}

/// Refuse a write that would be the caller's twenty-first comment (or sixth
/// thread) in the window: public writing without a ceiling is an
/// invitation, and the limits sit where a person never notices them and a
/// script does. `recent` is how many the caller wrote in the window.
pub fn within_rate(kind: &str, recent: i64) -> (r: Result<(), ApiError>)
    ensures
        recent < rate_limit(kind@) ==> r is Ok,
        recent >= rate_limit(kind@) ==> (r matches Err(ApiError::Conflict(m)) && m@
            == "that is a lot in a short time; give it a few minutes"@),
{
    let k = chars_of(kind);
    let limit = if crate::text::str_is(&k, "comments") {
        COMMENTS_PER_WINDOW
    } else {
        THREADS_PER_WINDOW
    };
    if recent >= limit {
        return Err(ApiError::Conflict(owned("that is a lot in a short time; give it a few minutes")));
    }
    Ok(())
}

/// Whether someone blocked on a pack may write there: `block` is their
/// block on it, if any, with its reason if one was given. A block refuses
/// the write, and the refusal carries the reason to them.
pub fn not_silenced(block: Option<Option<&str>>) -> (r: Result<(), ApiError>)
    ensures
        block is None ==> r is Ok,
        block matches Some(None) ==> (r matches Err(ApiError::Refused(m)) && m@ == "writing here is suspended"@),
        block matches Some(Some(reason)) ==> (r matches Err(ApiError::Refused(m)) && m@
            == "writing here is suspended. reason: "@ + reason@),
{
    match block {
        None => Ok(()),
        Some(None) => Err(ApiError::Refused(owned("writing here is suspended"))),
        Some(Some(reason)) => {
            let mut m = owned("writing here is suspended. reason: ");
            m.push_str(reason);
            Err(ApiError::Refused(m))
        },
    }
}

/// What closing a thread makes it: a proposal its author closes is
/// withdrawn, one somebody else closes is declined, and any other thread is
/// closed.
pub fn settled_status(kind: &str, mine: bool) -> (r: &'static str)
    ensures
        kind@ == "proposal"@ && mine ==> r@ == "withdrawn"@,
        kind@ == "proposal"@ && !mine ==> r@ == "declined"@,
        kind@ != "proposal"@ ==> r@ == "closed"@,
{
    let k = chars_of(kind);
    if crate::text::str_is(&k, "proposal") {
        if mine {
            "withdrawn"
        } else {
            "declined"
        }
    } else {
        "closed"
    }
}

/// A proposal offers one pack's state to another; offering a pack to itself
/// is refused, since that is what a commit is for.
pub fn not_to_itself(source_pack: &str, pack_id: &str) -> (r: Result<(), ApiError>)
    ensures
        source_pack@ != pack_id@ ==> r is Ok,
        source_pack@ == pack_id@ ==> (r matches Err(ApiError::BadRequest(m)) && m@
            == "a pack cannot propose to itself; commit instead"@),
{
    let a = chars_of(source_pack);
    let b = chars_of(pack_id);
    if crate::text::chars_eq(&a, &b) {
        return Err(ApiError::BadRequest(owned("a pack cannot propose to itself; commit instead")));
    }
    Ok(())
}

/// Whether an operator may suspend the account `uid`: not their own, which
/// would say nothing, and not one that runs the mirror, whose rung has to be
/// taken away first.
pub fn may_suspend(uid: i64, caller: i64, target_is_admin: bool) -> (r: Result<(), ApiError>)
    ensures
        uid == caller ==> (r matches Err(ApiError::BadRequest(m)) && m@ == "suspending yourself would say nothing"@),
        uid != caller && target_is_admin ==> (r matches Err(ApiError::BadRequest(m)) && m@
            == "that account runs the mirror; take the rung away first"@),
        uid != caller && !target_is_admin ==> r is Ok,
{
    if uid == caller {
        return Err(ApiError::BadRequest(owned("suspending yourself would say nothing")));
    }
    if target_is_admin {
        return Err(ApiError::BadRequest(owned("that account runs the mirror; take the rung away first")));
    }
    Ok(())
}

/// Whether an owner may grant access to the account `uid`: not to
/// themselves, the one grant that cannot mean anything.
pub fn may_grant(uid: i64, caller: i64) -> (r: Result<(), ApiError>)
    ensures
        uid == caller ==> (r matches Err(ApiError::BadRequest(m)) && m@
            == "you already own this pack; a grant to yourself would say nothing"@),
        uid != caller ==> r is Ok,
{
    if uid == caller {
        return Err(ApiError::BadRequest(owned("you already own this pack; a grant to yourself would say nothing")));
    }
    Ok(())
}

/// The audit detail of a block: the account, and the reason when one was
/// given.
pub fn block_detail(uid: i64, reason: Option<&str>) -> (r: String)
    ensures
        r@ == match reason {
            Some(t) => signed_decimal(uid as int) + ": "@ + t@,
            None => signed_decimal(uid as int),
        },
{
    let mut r = i64_text(uid);
    if let Some(t) = reason {
        r.push_str(": ");
        r.push_str(t);
    }
    r
}

} // verus!

verus! {

// ── reporting and writing a pack's claim ────────────────────────────────────

/// The report of a pack's claim against its server. The claims are compared
/// only when there are two: `drift` (what comparing them found) is reported
/// when the pack ships a claim and the server answered with one, and
/// otherwise the shipped claim is reported alone rather than judged.
pub fn spoof_report<S>(
    shipped: Option<S>,
    current: Option<S>,
    server_id: Option<String>,
    asked: Option<String>,
    unasked: Option<&str>,
    drift: Vec<String>,
) -> (r: SpoofReport<S>)
    ensures
        r.shipped == shipped,
        r.current == current,
        r.server_id == server_id,
        r.asked == asked,
        match unasked {
            Some(u) => r.unasked matches Some(t) && t@ == u@,
            None => r.unasked is None,
        },
        shipped is Some && current is Some ==> r.drift@ == drift@,
        !(shipped is Some && current is Some) ==> r.drift@.len() == 0,
{
    let both = shipped.is_some() && current.is_some();
    let moved = if both {
        drift
    } else {
        Vec::new()
    };
    let unasked = match unasked {
        Some(u) => Some(owned(u)),
        None => None,
    };
    SpoofReport { shipped, current, server_id, asked, unasked, drift: moved }
}

/// The claim a regeneration writes: what the server advertises now, or a
/// refusal saying why there is none -- why it was not asked or what its
/// answer lacked, or else that there is nothing to write a claim from.
pub fn claim_to_write<S>(current: Option<S>, unasked: Option<&str>) -> (r: Result<S, ApiError>)
    ensures
        current matches Some(c) ==> r matches Ok(x) && x == c,
        current is None ==> (r matches Err(ApiError::BadRequest(m)) && m@ == match unasked {
            Some(u) => u@,
            None => "there is nothing to write a claim from"@,
        }),
{
    match current {
        Some(c) => Ok(c),
        None => Err(ApiError::BadRequest(match unasked {
            Some(u) => owned(u),
            None => owned("there is nothing to write a claim from"),
        })),
    }
}

/// The audit detail of a regenerated claim: how many mods it claims, and
/// from which address (or just "its server").
pub fn claim_detail(mods: u64, asked: Option<&str>) -> (r: String)
    ensures
        r@ == decimal(mods as nat) + " mods claimed from "@ + match asked {
            Some(a) => a@,
            None => "its server"@,
        },
{
    let mut r = String::new();
    push_u64(&mut r, mods);
    r.push_str(" mods claimed from ");
    match asked {
        Some(a) => r.push_str(a),
        None => r.push_str("its server"),
    }
    r
}

} // verus!

verus! {

/// How many hits a mod search answers: the limit asked for, 30 when none
/// was, and never fewer than 1 or more than 100.
pub fn search_limit(limit: Option<usize>) -> (n: usize)
    ensures
        n == match limit {
            Some(l) => if l < 1 {
                1
            } else if l > 100 {
                100
            } else {
                l
            },
            None => 30,
        },
{
    let l = match limit {
        Some(l) => l,
        None => 30,
    };
    if l < 1 {
        1
    } else if l > 100 {
        100
    } else {
        l
    }
}

} // verus!

verus! {

// ── a whole-config save ─────────────────────────────────────────────────────

/// The refusal of a config whose body names another pack than its address.
pub open spec fn misdirected_text(body_id: Seq<char>, path_id: Seq<char>) -> Seq<char> {
    "body pack_id "@ + debug_quoted(body_id) + " does not match path "@ + debug_quoted(path_id)
}

/// The address of a save is authoritative: a body naming another pack is
/// refused, so a mis-targeted write cannot put one pack's config under
/// another's id.
pub fn body_matches_path(body_id: &str, path_id: &str) -> (r: Result<(), ApiError>)
    ensures
        body_id@ == path_id@ ==> r is Ok,
        body_id@ != path_id@ ==> (r matches Err(ApiError::BadRequest(m)) && m@ == misdirected_text(
            body_id@,
            path_id@,
        )),
{
    let a = chars_of(body_id);
    let b = chars_of(path_id);
    if crate::text::chars_eq(&a, &b) {
        return Ok(());
    }
    let mut m = owned("body pack_id ");
    let q = debug_str(body_id);
    m.push_str(q.as_str());
    m.push_str(" does not match path ");
    let p = debug_str(path_id);
    m.push_str(p.as_str());
    Err(ApiError::BadRequest(m))
}

/// Who a pack belongs to as the registry lists it.
#[derive(Clone, Copy, Debug, PartialEq, Eq, Structural)]
pub enum PackTier {
    Official,
    Community,
}

/// Who can see a pack.
#[derive(Clone, Copy, Debug, PartialEq, Eq, Structural)]
pub enum Visibility {
    Draft,
    Unlisted,
    Published,
}

/// The server-controlled fields of a pack a save creates, which are never
/// taken from the client: a community id (`u/<uid>/...`, whose namespace
/// names `namespace_uid`) is a draft owned by that account; a flat id is an
/// official pack, published, owned by whoever created it.
pub fn created_pack_fields(namespace_uid: Option<i64>, caller: i64) -> (r: (i64, PackTier, Visibility))
    ensures
        match namespace_uid {
            Some(uid) => r == (uid, PackTier::Community, Visibility::Draft),
            None => r == (caller, PackTier::Official, Visibility::Published),
        },
{
    match namespace_uid {
        Some(uid) => (uid, PackTier::Community, Visibility::Draft),
        None => (caller, PackTier::Official, Visibility::Published),
    }
}

} // verus!

verus! {

// ── a checkpoint ────────────────────────────────────────────────────────────

/// The contributors a commit names: whoever signs it first -- they decided
/// the state was worth keeping -- then everyone else who edited since the
/// last commit, each once, in the order they came.
pub open spec fn contributors_spec(signer: Seq<char>, pending: Seq<Seq<char>>) -> Seq<Seq<char>>
    decreases pending.len(),
{
    if pending.len() == 0 {
        seq![signer]
    } else {
        let before = contributors_spec(signer, pending.drop_last());
        if before.contains(pending.last()) {
            before
        } else {
            before.push(pending.last())
        }
    }
}

/// The contributors of a commit signed by `signer` over the edits of
/// `pending` (see [`contributors_spec`]).
pub fn contributors(signer: &str, pending: &Vec<String>) -> (r: Vec<String>)
    ensures
        texts(r@) == contributors_spec(signer@, texts(pending@)),
{
    let mut r: Vec<String> = Vec::new();
    r.push(owned(signer));
    let mut i: usize = 0;
    proof {
        assert(texts(pending@).take(0) =~= Seq::<Seq<char>>::empty());
        assert(texts(r@) =~= seq![signer@]);
    }
    while i < pending.len()
        invariant
            i <= pending@.len(),
            texts(r@) == contributors_spec(signer@, texts(pending@).take(i as int)),
        decreases pending@.len() - i,
    {
        let who = &pending[i];
        let mut seen = false;
        let mut k: usize = 0;
        while k < r.len()
            invariant
                k <= r@.len(),
                i < pending@.len(),
                *who == pending@[i as int],
                seen == exists|m: int| 0 <= m < k && r@[m]@ == who@,
            decreases r@.len() - k,
        {
            if r[k] == *who {
                seen = true;
            }
            k += 1;
        }
        proof {
            let t = texts(pending@).take(i + 1);
            assert(t.drop_last() =~= texts(pending@).take(i as int));
            assert(t.last() == who@);
            if seen {
                let m = choose|m: int| 0 <= m < r@.len() && r@[m]@ == who@;
                assert(texts(r@)[m] == who@);
            } else {
                assert forall|m: int| 0 <= m < texts(r@).len() implies texts(r@)[m] != who@ by {
                    assert(texts(r@)[m] == r@[m]@);
                }
            }
        }
        if !seen {
            let ghost before = r@;
            r.push(who.clone());
            proof {
                assert(texts(r@) =~= texts(before).push(who@));
            }
        }
        i += 1;
    }
    proof {
        assert(texts(pending@).take(pending@.len() as int) =~= texts(pending@));
    }
    r
}

/// The refusal of a commit without a message.
pub open spec fn unlabelled_text() -> Seq<char> {
    "a commit needs a message; an unlabelled checkpoint is one nobody can read later"@
}

/// A commit's message, trimmed; a blank one is refused, since an unlabelled
/// checkpoint is one nobody can read later.
pub fn commit_message(message: &str) -> (r: Result<String, ApiError>)
    ensures
        trim(message@).len() > 0 ==> (r matches Ok(s) && s@ == trim(message@)),
        trim(message@).len() == 0 ==> (r matches Err(ApiError::BadRequest(m)) && m@ == unlabelled_text()),
{
    trimmed(message, "a commit needs a message; an unlabelled checkpoint is one nobody can read later")
}

} // verus!

verus! {

/// A commit names its signer first and nobody twice, and everyone who edited
/// since the last commit is among those it names.
pub proof fn law_contributors_once_each(signer: Seq<char>, pending: Seq<Seq<char>>)
    ensures
        contributors_spec(signer, pending).len() > 0,
        contributors_spec(signer, pending)[0] == signer,
        contributors_spec(signer, pending).no_duplicates(),
        forall|i: int| 0 <= i < pending.len() ==> contributors_spec(signer, pending).contains(#[trigger] pending[i]),
    decreases pending.len(),
{
    if pending.len() > 0 {
        let d = pending.drop_last();
        law_contributors_once_each(signer, d);
        let before = contributors_spec(signer, d);
        let x = pending.last();
        if !before.contains(x) {
            let after = before.push(x);
            assert(after[0] == signer);
            assert forall|a: int, b: int| 0 <= a < after.len() && 0 <= b < after.len() && a != b implies after[a] != after[b] by {
                if a < before.len() && b < before.len() {
                    assert(after[a] == before[a] && after[b] == before[b]);
                } else if a == before.len() {
                    assert(after[b] == before[b]);
                } else {
                    assert(after[a] == before[a]);
                }
            }
            assert forall|i: int| 0 <= i < pending.len() implies after.contains(#[trigger] pending[i]) by {
                if i < d.len() {
                    assert(d[i] == pending[i]);
                    assert(before.contains(d[i]));
                    let k = choose|k: int| 0 <= k < before.len() && before[k] == d[i];
                    assert(after[k] == pending[i]);
                } else {
                    assert(after[before.len() as int] == pending[i]);
                }
            }
        } else {
            assert forall|i: int| 0 <= i < pending.len() implies before.contains(#[trigger] pending[i]) by {
                if i < d.len() {
                    assert(d[i] == pending[i]);
                }
            }
        }
    }
}

} // verus!

verus! {

// ── who answers for a pack ──────────────────────────────────────────────────

/// How far someone may act on a pack: read it, edit it, or own it.
#[derive(Clone, Copy, Debug, PartialEq, Eq, Structural)]
pub enum PackLevel {
    View,
    Edit,
    Own,
}

/// A level's place on the ladder, lowest first.
pub open spec fn level_rank(l: PackLevel) -> int {
    match l {
        PackLevel::View => 0,
        PackLevel::Edit => 1,
        PackLevel::Own => 2,
    }
}

/// The accounts granted enough to act on a pack (edit or own), in grant
/// order.
pub open spec fn acting_grantees(grants: Seq<(i64, PackLevel)>) -> Seq<i64>
    decreases grants.len(),
{
    if grants.len() == 0 {
        Seq::empty()
    } else if level_rank(grants.last().1) >= 1 {
        acting_grantees(grants.drop_last()).push(grants.last().0)
    } else {
        acting_grantees(grants.drop_last())
    }
}

/// Those told about a pack by their grants are exactly the accounts granted
/// edit or own on it: a view grant alone never makes someone answer for a
/// pack.
pub proof fn law_keepers_are_those_granted_edit_or_own(grants: Seq<(i64, PackLevel)>, uid: i64)
    ensures
        acting_grantees(grants).contains(uid) <==> exists|i: int|
            0 <= i < grants.len() && (#[trigger] grants[i]).0 == uid && (grants[i].1 == PackLevel::Edit
                || grants[i].1 == PackLevel::Own),
    decreases grants.len(),
{
    if grants.len() > 0 {
        let before = grants.drop_last();
        law_keepers_are_those_granted_edit_or_own(before, uid);
        let a = acting_grantees(before);
        let n = grants.len() - 1;
        if exists|i: int| 0 <= i < before.len() && (#[trigger] before[i]).0 == uid && (before[i].1 == PackLevel::Edit
            || before[i].1 == PackLevel::Own) {
            let i = choose|i: int| 0 <= i < before.len() && (#[trigger] before[i]).0 == uid && (before[i].1
                == PackLevel::Edit || before[i].1 == PackLevel::Own);
            assert(grants[i] == before[i]);
            let j = choose|j: int| 0 <= j < a.len() && a[j] == uid;
            if level_rank(grants.last().1) >= 1 {
                assert(a.push(grants.last().0)[j] == uid);
            }
        }
        if exists|i: int| 0 <= i < grants.len() && (#[trigger] grants[i]).0 == uid && (grants[i].1 == PackLevel::Edit
            || grants[i].1 == PackLevel::Own) {
            let i = choose|i: int| 0 <= i < grants.len() && (#[trigger] grants[i]).0 == uid && (grants[i].1
                == PackLevel::Edit || grants[i].1 == PackLevel::Own);
            if i < n {
                assert(before[i] == grants[i]);
            } else {
                assert(a.push(uid)[a.len() as int] == uid);
            }
        }
        if acting_grantees(grants).contains(uid) {
            let j = choose|j: int| 0 <= j < acting_grantees(grants).len() && acting_grantees(grants)[j] == uid;
            if level_rank(grants.last().1) >= 1 && j == a.len() {
                assert(grants[n].0 == uid);
            } else {
                assert(a[j] == uid);
                let i = choose|i: int| 0 <= i < before.len() && (#[trigger] before[i]).0 == uid && (before[i].1
                    == PackLevel::Edit || before[i].1 == PackLevel::Own);
                assert(grants[i] == before[i]);
            }
        }
    }
}

/// Who answers for a pack, to be told when something happens on it: those
/// allowed to act on it. That is whoever its namespace belongs to, or, for an
/// official pack with no namespace owner, the mirror's operators; then
/// everyone granted enough to act.
pub fn keepers(namespace_uid: Option<i64>, operators: &Vec<i64>, grants: &Vec<(i64, PackLevel)>) -> (r: Vec<i64>)
    ensures
        r@ == (match namespace_uid {
            Some(uid) => seq![uid],
            None => operators@,
        }) + acting_grantees(grants@),
{
    let mut r: Vec<i64> = Vec::new();
    match namespace_uid {
        Some(uid) => r.push(uid),
        None => {
            let mut k: usize = 0;
            while k < operators.len()
                invariant
                    k <= operators@.len(),
                    r@ == operators@.take(k as int),
                decreases operators@.len() - k,
            {
                r.push(operators[k]);
                proof {
                    assert(r@ =~= operators@.take(k + 1));
                }
                k += 1;
            }
            proof {
                assert(operators@.take(operators@.len() as int) =~= operators@);
            }
        },
    }
    let ghost head = r@;
    proof {
        assert(grants@.take(0) =~= Seq::<(i64, PackLevel)>::empty());
        assert(head + acting_grantees(grants@.take(0)) =~= head);
    }
    let mut i: usize = 0;
    while i < grants.len()
        invariant
            i <= grants@.len(),
            r@ == head + acting_grantees(grants@.take(i as int)),
        decreases grants@.len() - i,
    {
        let (uid, level) = grants[i];
        proof {
            let t = grants@.take(i + 1);
            assert(t.drop_last() =~= grants@.take(i as int));
            assert(t.last() == (uid, level));
        }
        let acts = match level {
            PackLevel::View => false,
            _ => true,
        };
        if acts {
            let ghost before = r@;
            r.push(uid);
            proof {
                assert(r@ =~= head + acting_grantees(grants@.take(i as int)).push(uid));
            }
        }
        i += 1;
    }
    proof {
        assert(grants@.take(grants@.len() as int) =~= grants@);
    }
    r
}

/// The highest level someone holds on a pack, read down the ladder: own,
/// then edit, then view; none when they may not even read it.
pub fn highest_level(may_own: bool, may_edit: bool, may_view: bool) -> (r: Option<PackLevel>)
    ensures
        r == (if may_own {
            Some(PackLevel::Own)
        } else if may_edit {
            Some(PackLevel::Edit)
        } else if may_view {
            Some(PackLevel::View)
        } else {
            None
        }),
{
    if may_own {
        Some(PackLevel::Own)
    } else if may_edit {
        Some(PackLevel::Edit)
    } else if may_view {
        Some(PackLevel::View)
    } else {
        None
    }
}

} // verus!
