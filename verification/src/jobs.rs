//! Build jobs: the state a job's tailable log is, the id a job is known by,
//! which finished job makes room when too many are held, and the decisions a
//! build takes before it publishes -- which state it is built from, and what
//! the pre-publish check's findings do to it.
use vstd::prelude::*;
use crate::error::ApiError;
use crate::order::{lemma_lex_total, lex_less, lex_lt};
use crate::text::{chars_eq, chars_of, copy_strings, decimal, owned, push_u64, string_of, texts, trim, trim_str};
use crate::textmap::TextMap;

verus! {

/// Where a job is.
#[derive(Clone, Copy, Debug, PartialEq, Eq, Structural)]
pub enum Status {
    Running,
    Done,
    Failed,
}

/// The persisted form of a job: everything a status poll needs, written at
/// spawn and at finish so job ids survive a service restart.
pub struct JobSnapshot {
    pub job_id: String,
    pub kind: String,
    pub pack_id: String,
    pub status: Status,
    pub log: Vec<String>,
}

/// What a dry-run build computes without publishing: the resolved manifest
/// the launcher would download, plus the summary card it would show.
pub struct DryRun<M, S> {
    pub manifest: M,
    pub summary: S,
}

/// Who asked for something: an account's id and login.
pub struct Identity {
    pub uid: i64,
    pub login: String,
}

/// The release channel stored on a built manifest.
#[derive(Clone, Copy, Debug, PartialEq, Eq, Structural)]
pub enum VersionChannel {
    Release,
    Beta,
    Alpha,
}

/// What a build was asked to do: one request rather than a row of
/// positional flags, and the home of the override, which is a property of
/// the request and never of the pack.
pub struct BuildRequest {
    /// Compute + stash the manifest without publishing.
    pub dry_run: bool,
    /// Canonical `pack_version`; `None` takes the next auto-numbered one.
    pub pack_version: Option<String>,
    pub channel: VersionChannel,
    pub changelog: Option<String>,
    /// The same notes per language tag.
    pub changelog_i18n: Option<TextMap>,
    /// Publish over a blocking pre-publish finding.
    pub override_checks: bool,
    /// Republish over a version that already exists.
    pub overwrite_version: bool,
    /// Build this commit's snapshot rather than the config on disk.
    pub from_commit: Option<String>,
    /// Who asked for the build; `None` for a build with no session behind it.
    pub actor: Option<Identity>,
}

// ── a job's log ─────────────────────────────────────────────────────────────

/// The log lines from index `from` onward: what a tailer that has seen
/// `from` lines reads next.
pub open spec fn log_since(log: Seq<Seq<char>>, from: int) -> Seq<Seq<char>> {
    if from <= log.len() {
        log.skip(from)
    } else {
        Seq::empty()
    }
}

/// A job's state: its log so far, where it is, what the pre-publish check
/// would stop it on, and, for a finished dry run, what it computed.
pub struct JobState<R> {
    log: Vec<String>,
    status: Status,
    result: Option<R>,
    blocked: Vec<String>,
}

impl<R> JobState<R> {
    /// The log lines written so far.
    pub closed spec fn log_view(&self) -> Seq<Seq<char>> {
        texts(self.log@)
    }

    /// Where the job is.
    pub closed spec fn status_view(&self) -> Status {
        self.status
    }

    /// What the pre-publish check would stop the build on.
    pub closed spec fn blocked_view(&self) -> Seq<Seq<char>> {
        texts(self.blocked@)
    }

    /// What a finished dry run computed, if it has.
    pub closed spec fn result_view(&self) -> Option<R> {
        self.result
    }

    /// A job that has just started: running, with nothing logged.
    pub fn new() -> (j: Self)
        ensures
            j.log_view() == Seq::<Seq<char>>::empty(),
            j.status_view() == Status::Running,
            j.blocked_view() == Seq::<Seq<char>>::empty(),
            j.result_view() is None,
    {
        let j = JobState { log: Vec::new(), status: Status::Running, result: None, blocked: Vec::new() };
        proof {
            assert(texts(j.log@) =~= Seq::<Seq<char>>::empty());
            assert(texts(j.blocked@) =~= Seq::<Seq<char>>::empty());
        }
        j
    }

    /// Append one line to the log.
    pub fn line(&mut self, text: String)
        ensures
            final(self).log_view() == old(self).log_view().push(text@),
            final(self).status_view() == old(self).status_view(),
            final(self).blocked_view() == old(self).blocked_view(),
            final(self).result_view() == old(self).result_view(),
    {
        let ghost before = self.log@;
        self.log.push(text);
        proof {
            assert(texts(self.log@) =~= texts(before).push(self.log@[before.len() as int]@));
        }
    }

    /// Record where the job ended up.
    pub fn finish(&mut self, status: Status)
        ensures
            final(self).status_view() == status,
            final(self).log_view() == old(self).log_view(),
            final(self).blocked_view() == old(self).blocked_view(),
            final(self).result_view() == old(self).result_view(),
    {
        self.status = status;
    }

    /// Record how the job's work ended: done, or failed with the reason as
    /// the last line of its log.
    pub fn conclude(&mut self, outcome: Result<(), String>)
        ensures
            outcome is Ok ==> final(self).status_view() == Status::Done && final(self).log_view()
                == old(self).log_view(),
            outcome matches Err(e) ==> final(self).status_view() == Status::Failed && final(self).log_view()
                == old(self).log_view().push("failed: "@ + e@),
            final(self).blocked_view() == old(self).blocked_view(),
            final(self).result_view() == old(self).result_view(),
    {
        match outcome {
            Ok(()) => self.finish(Status::Done),
            Err(e) => {
                let mut m = owned("failed: ");
                m.push_str(e.as_str());
                self.line(m);
                self.finish(Status::Failed);
            },
        }
    }

    /// Stash what a dry run computed.
    pub fn set_result(&mut self, result: R)
        ensures
            final(self).result_view() == Some(result),
            final(self).log_view() == old(self).log_view(),
            final(self).status_view() == old(self).status_view(),
            final(self).blocked_view() == old(self).blocked_view(),
    {
        self.result = Some(result);
    }

    /// Record what the pre-publish check would stop this build on.
    pub fn set_blocked(&mut self, blocked: Vec<String>)
        ensures
            final(self).blocked_view() == texts(blocked@),
            final(self).log_view() == old(self).log_view(),
            final(self).status_view() == old(self).status_view(),
            final(self).result_view() == old(self).result_view(),
    {
        self.blocked = blocked;
    }

    /// The dry-run result, if this was a preview build that produced one.
    pub fn result(&self) -> (r: Option<&R>)
        ensures
            match (r, self.result_view()) {
                (Some(a), Some(b)) => *a == b,
                (None, None) => true,
                _ => false,
            },
    {
        match &self.result {
            Some(x) => Some(x),
            None => None,
        }
    }

    /// What the pre-publish check would stop this build on.
    pub fn blocked(&self) -> (r: Vec<String>)
        ensures
            texts(r@) == self.blocked_view(),
    {
        copy_strings(&self.blocked, 0)
    }

    /// Where the job is.
    pub fn status(&self) -> (s: Status)
        ensures
            s == self.status_view(),
    {
        self.status
    }

    /// Log lines from index `from` onward, plus the current status. A tailer
    /// tracks how many lines it has sent and re-reads from there, so no line
    /// is ever dropped.
    pub fn since(&self, from: usize) -> (r: (Vec<String>, Status))
        ensures
            texts(r.0@) == log_since(self.log_view(), from as int),
            r.1 == self.status_view(),
    {
        if from <= self.log.len() {
            (copy_strings(&self.log, from), self.status)
        } else {
            let v: Vec<String> = Vec::new();
            proof {
                assert(texts(v@) =~= Seq::<Seq<char>>::empty());
            }
            (v, self.status)
        }
    }
}

/// A tailer that has read `from` lines and then reads the rest has read the
/// whole log, in order: re-reading from a count never drops or repeats a line.
pub proof fn law_tail_reads_everything(log: Seq<Seq<char>>, from: int)
    requires
        0 <= from <= log.len(),
    ensures
        log.take(from) + log_since(log, from) == log,
{
    assert(log.take(from) + log.skip(from) =~= log);
}

/// A line written after a tailer's count is exactly what that tailer reads
/// next.
pub proof fn law_new_line_reaches_tailer(log: Seq<Seq<char>>, line: Seq<char>)
    ensures
        log_since(log.push(line), log.len() as int) == seq![line],
{
    assert(log.push(line).skip(log.len() as int) =~= seq![line]);
}

impl JobSnapshot {
    /// The snapshot of a job: its identity, its whole log and where it is.
    pub fn of<R>(job_id: &str, kind: &str, pack_id: &str, job: &JobState<R>) -> (s: JobSnapshot)
        ensures
            s.job_id@ == job_id@,
            s.kind@ == kind@,
            s.pack_id@ == pack_id@,
            s.status == job.status_view(),
            texts(s.log@) == job.log_view(),
    {
        let (log, status) = job.since(0);
        proof {
            assert(log_since(job.log_view(), 0) =~= job.log_view());
        }
        JobSnapshot {
            job_id: owned(job_id),
            kind: owned(kind),
            pack_id: owned(pack_id),
            status,
            log,
        }
    }
}

/// What a build job is called: a preview for a dry run, which publishes
/// nothing, and a build otherwise.
pub fn build_kind(dry_run: bool) -> (k: &'static str)
    ensures
        dry_run ==> k@ == "preview"@,
        !dry_run ==> k@ == "build"@,
{
    if dry_run {
        "preview"
    } else {
        "build"
    }
}

// ── job ids ─────────────────────────────────────────────────────────────────

/// A lower-case hexadecimal digit.
pub open spec fn hex_lower(d: int) -> char {
    if d < 10 {
        (48 + d) as char
    } else {
        (87 + d) as char
    }
}

/// `n` in lower-case hexadecimal (`{:x}`).
pub open spec fn hex(n: nat) -> Seq<char>
    decreases n,
{
    if n < 16 {
        seq![hex_lower(n as int)]
    } else {
        hex(n / 16).push(hex_lower((n % 16) as int))
    }
}

/// `s` left-padded with zeros to `width` characters (`{:0width$}`).
pub open spec fn zero_pad(s: Seq<char>, width: nat) -> Seq<char> {
    if s.len() < width {
        Seq::new((width - s.len()) as nat, |i: int| '0') + s
    } else {
        s
    }
}

/// A job's id: its start in milliseconds as thirteen hex digits, a dash, and
/// the process-wide counter as eight decimal digits. Zero-padded so that the
/// lexically smallest id is the oldest.
pub open spec fn job_id_text(ms: u128, n: u64) -> Seq<char> {
    zero_pad(hex(ms as nat), 13) + seq!['-'] + zero_pad(decimal(n as nat), 8)
}

fn hex_chars(n: u128) -> (r: Vec<char>)
    ensures
        r@ == hex(n as nat),
    decreases n,
{
    let d = (n % 16) as u8;
    let c: char = if d < 10 { (48 + d) as char } else { (87 + d) as char };
    if n < 16 {
        let mut r: Vec<char> = Vec::new();
        r.push(c);
        proof {
            assert(r@ =~= seq![hex_lower(n as int)]);
        }
        r
    } else {
        let mut r = hex_chars(n / 16);
        r.push(c);
        r
    }
}

fn push_padded(out: &mut String, v: &Vec<char>, width: usize)
    ensures
        final(out)@ == old(out)@ + zero_pad(v@, width as nat),
{
    let ghost start = out@;
    let mut k: usize = v.len();
    while k < width
        invariant
            v.len() <= k <= width || (k == v.len() && k >= width),
            out@ == start + Seq::new((k - v.len()) as nat, |i: int| '0'),
        decreases width - k,
    {
        out.push('0');
        proof {
            assert(out@ =~= start + Seq::new((k + 1 - v.len()) as nat, |i: int| '0'));
        }
        k += 1;
    }
    crate::text::push_chars(out, v);
    proof {
        if v.len() < width {
            assert(out@ =~= start + zero_pad(v@, width as nat));
        } else {
            assert(out@ =~= start + zero_pad(v@, width as nat));
        }
    }
}

/// The id of the `n`-th job of this process, started at `ms` milliseconds
/// past the epoch.
pub fn job_id(ms: u128, n: u64) -> (id: String)
    ensures
        id@ == job_id_text(ms, n),
{
    let mut id = String::new();
    let h = hex_chars(ms);
    push_padded(&mut id, &h, 13);
    id.push('-');
    let d = crate::text::decimal_chars(n);
    push_padded(&mut id, &d, 8);
    proof {
        assert(id@ =~= job_id_text(ms, n));
    }
    id
}

// ── making room ─────────────────────────────────────────────────────────────

/// How many jobs are held before a finished one is dropped.
pub const MAX_HELD_JOBS: usize = 50;

/// The job dropped to make room: when more than [`MAX_HELD_JOBS`] are held,
/// the oldest finished one (the lexically smallest id); never a running one,
/// since someone may still be tailing it. `None` when nothing is dropped.
pub open spec fn eviction_ok(jobs: Seq<(Seq<char>, Status)>, r: Option<Seq<char>>) -> bool {
    match r {
        None => jobs.len() <= MAX_HELD_JOBS || forall|i: int| 0 <= i < jobs.len() ==> (#[trigger] jobs[i]).1 == Status::Running,
        Some(v) => {
            &&& jobs.len() > MAX_HELD_JOBS
            &&& exists|i: int| 0 <= i < jobs.len() && (#[trigger] jobs[i]).0 == v && jobs[i].1 != Status::Running
            &&& forall|i: int| 0 <= i < jobs.len() && (#[trigger] jobs[i]).1 != Status::Running ==> !lex_lt(jobs[i].0, v)
        },
    }
}

/// The held jobs, as id and status.
pub open spec fn held(jobs: Seq<(String, Status)>) -> Seq<(Seq<char>, Status)> {
    jobs.map_values(|j: (String, Status)| (j.0@, j.1))
}

/// Which held job to drop after a new one was added, if any.
pub fn eviction_victim(jobs: &Vec<(String, Status)>) -> (r: Option<String>)
    ensures
        eviction_ok(held(jobs@), match r { Some(v) => Some(v@), None => None }),
{
    let ghost h = held(jobs@);
    if jobs.len() <= MAX_HELD_JOBS {
        return None;
    }
    let mut best: Option<usize> = None;
    let mut i: usize = 0;
    while i < jobs.len()
        invariant
            i <= jobs@.len(),
            h == held(jobs@),
            match best {
                None => forall|m: int| 0 <= m < i ==> (#[trigger] h[m]).1 == Status::Running,
                Some(b) => b < i && h[b as int].1 != Status::Running && forall|m: int|
                    0 <= m < i && (#[trigger] h[m]).1 != Status::Running ==> !lex_lt(h[m].0, h[b as int].0),
            },
        decreases jobs@.len() - i,
    {
        proof {
            assert(h[i as int] == (jobs@[i as int].0@, jobs@[i as int].1));
        }
        if jobs[i].1 != Status::Running {
            match best {
                None => {
                    best = Some(i);
                    proof {
                        crate::order::lemma_lex_irreflexive(h[i as int].0);
                    }
                },
                Some(b) => {
                    let ci = chars_of(jobs[i].0.as_str());
                    let cb = chars_of(jobs[b].0.as_str());
                    proof {
                        assert(h[b as int] == (jobs@[b as int].0@, jobs@[b as int].1));
                    }
                    if lex_less(&ci, &cb) {
                        best = Some(i);
                        proof {
                            crate::order::lemma_lex_irreflexive(h[i as int].0);
                            assert forall|m: int| 0 <= m < i + 1 && (#[trigger] h[m]).1 != Status::Running implies !lex_lt(
                                h[m].0,
                                h[i as int].0,
                            ) by {
                                if m < i {
                                    crate::order::lemma_lex_asymmetric(h[i as int].0, h[m].0);
                                    if lex_lt(h[m].0, h[i as int].0) {
                                        crate::order::lemma_lex_transitive(h[m].0, h[i as int].0, h[b as int].0);
                                    }
                                }
                            }
                        }
                    } else {
                        proof {
                            assert(!lex_lt(h[i as int].0, h[b as int].0));
                        }
                    }
                },
            }
        }
        i += 1;
    }
    match best {
        None => None,
        Some(b) => {
            proof {
                assert(h[b as int] == (jobs@[b as int].0@, jobs@[b as int].1));
            }
            Some(jobs[b].0.clone())
        },
    }
}

// ── what a build is made from ──────────────────────────────────────────────

/// Which state a build asked for turns into a manifest, before anything is
/// looked up: a commit named explicitly (trimmed, not blank); the live config
/// for a dry run that named none; otherwise the head of the pack's history.
pub enum CommitChoice {
    Named(String),
    Live,
    Head,
}

/// Which state a build is made from, as far as the request alone decides it.
pub fn commit_choice(from_commit: Option<&str>, dry_run: bool) -> (r: CommitChoice)
    ensures
        match from_commit {
            Some(c) if trim(c@).len() > 0 => r matches CommitChoice::Named(n) && n@ == trim(c@),
            _ => if dry_run { r is Live } else { r is Head },
        },
{
    if let Some(c) = from_commit {
        let t = trim_str(c);
        if t.len() > 0 {
            return CommitChoice::Named(string_of(&t));
        }
    }
    if dry_run {
        CommitChoice::Live
    } else {
        CommitChoice::Head
    }
}

/// The refusal of a build of a pack with no history.
pub open spec fn no_commits_text() -> Seq<char> {
    "this pack has no commits yet, and a build is made from one -- declare a checkpoint first"@
}

/// The refusal of a build over uncommitted work.
pub open spec fn pending_text(pending: nat) -> Seq<char> {
    decimal(pending) + " change(s) since the last commit; commit them or build that commit by name"@
}

/// A publishing build made from the head of the history: the head, when
/// there is one and nothing has changed since it; refused otherwise, because
/// a build that silently ships something older than what the person pressing
/// it is looking at is the thing to avoid.
pub fn head_to_build(head: Option<String>, pending: u64) -> (r: Result<Option<String>, ApiError>)
    ensures
        match head {
            None => r matches Err(ApiError::Conflict(m)) && m@ == no_commits_text(),
            Some(h) => if pending > 0 {
                r matches Err(ApiError::Conflict(m)) && m@ == pending_text(pending as nat)
            } else {
                r matches Ok(Some(x)) && x@ == h@
            },
        },
{
    match head {
        None => Err(ApiError::Conflict(owned(
            "this pack has no commits yet, and a build is made from one -- declare a checkpoint first",
        ))),
        Some(h) => if pending > 0 {
            let mut m = String::new();
            push_u64(&mut m, pending);
            m.push_str(" change(s) since the last commit; commit them or build that commit by name");
            Err(ApiError::Conflict(m))
        } else {
            Ok(Some(h))
        },
    }
}

/// Read a release channel: `release`, `beta` or `alpha`.
pub fn parse_channel(c: &str) -> (r: Option<VersionChannel>)
    ensures
        r == (if c@ == "release"@ {
            Some(VersionChannel::Release)
        } else if c@ == "beta"@ {
            Some(VersionChannel::Beta)
        } else if c@ == "alpha"@ {
            Some(VersionChannel::Alpha)
        } else {
            None
        }),
{
    let v = chars_of(c);
    if crate::text::str_is(&v, "release") {
        Some(VersionChannel::Release)
    } else if crate::text::str_is(&v, "beta") {
        Some(VersionChannel::Beta)
    } else if crate::text::str_is(&v, "alpha") {
        Some(VersionChannel::Alpha)
    } else {
        None
    }
}

/// The channel a build is stored under: beta unless one was asked for --
/// publishing a release is an explicit act -- and a channel that is not one
/// is refused.
pub fn build_channel(c: Option<&str>) -> (r: Result<VersionChannel, ApiError>)
    ensures
        match c {
            None => r == Ok::<VersionChannel, ApiError>(VersionChannel::Beta),
            Some(s) => if s@ == "release"@ {
                r == Ok::<VersionChannel, ApiError>(VersionChannel::Release)
            } else if s@ == "beta"@ {
                r == Ok::<VersionChannel, ApiError>(VersionChannel::Beta)
            } else if s@ == "alpha"@ {
                r == Ok::<VersionChannel, ApiError>(VersionChannel::Alpha)
            } else {
                r matches Err(ApiError::BadRequest(m)) && m@ == "channel must be release, beta or alpha"@
            },
        },
{
    match c {
        None => Ok(VersionChannel::Beta),
        Some(s) => match parse_channel(s) {
            Some(ch) => Ok(ch),
            None => Err(ApiError::BadRequest(owned("channel must be release, beta or alpha"))),
        },
    }
}

/// A requested pack version, kept only when it is not blank.
pub fn requested_version(v: Option<String>) -> (r: Option<String>)
    ensures
        match v {
            Some(s) if trim(s@).len() > 0 => r == Some(s),
            _ => r is None,
        },
{
    match v {
        Some(s) => {
            let t = trim_str(s.as_str());
            if t.len() > 0 {
                Some(s)
            } else {
                None
            }
        },
        None => None,
    }
}

// ── the pre-publish check ──────────────────────────────────────────────────

/// Who asked, for the log line and the audit row. A build with no session
/// behind it says so rather than borrowing a name.
pub fn actor_name(actor: Option<&Identity>) -> (r: &str)
    ensures
        match actor {
            Some(i) => r@ == i.login@,
            None => r@ == "an unattributed caller"@,
        },
{
    match actor {
        Some(i) => i.login.as_str(),
        None => "an unattributed caller",
    }
}

/// What the pre-publish check's findings do to a build.
pub enum GateVerdict {
    /// Nothing blocks: the build goes on.
    Clear,
    /// A dry run found blocking problems; it reports them and goes on.
    Previewed(String),
    /// A publishing build found blocking problems and nobody overrode the
    /// check: the build stops with this reason.
    Refused(String),
    /// A publishing build goes on over blocking problems at someone's
    /// explicit request; the line says so in the log.
    Overridden(String),
}

/// The line a dry run logs about blocking problems.
pub open spec fn previewed_text(n: nat) -> Seq<char> {
    decimal(n) + " problem(s) would stop a real build of this pack"@
}

/// The reason a publishing build stops on blocking problems.
pub open spec fn refused_text(n: nat) -> Seq<char> {
    decimal(n) + " problem(s) would keep this pack from starting -- fix them, or build again over the check"@
}

/// The line a build logs when it publishes over blocking problems.
pub open spec fn overridden_text(n: nat, who: Seq<char>) -> Seq<char> {
    "publishing over "@ + decimal(n) + " blocking problem(s), at "@ + who + "'s explicit request"@
}

/// What `blocking` findings mean for a build: nothing when there are none; a
/// report for a dry run, which nothing can stop; a refusal for a publishing
/// build unless the check is overridden; and then a publish that says whose
/// request it was.
pub fn gate_verdict(blocking: u64, dry_run: bool, override_checks: bool, actor: Option<&Identity>) -> (r: GateVerdict)
    ensures
        blocking == 0 ==> r is Clear,
        blocking > 0 && dry_run ==> (r matches GateVerdict::Previewed(m) && m@ == previewed_text(blocking as nat)),
        blocking > 0 && !dry_run && !override_checks ==> (r matches GateVerdict::Refused(m) && m@ == refused_text(blocking as nat)),
        blocking > 0 && !dry_run && override_checks ==> (r matches GateVerdict::Overridden(m) && m@ == overridden_text(
            blocking as nat,
            match actor { Some(i) => i.login@, None => "an unattributed caller"@ },
        )),
{
    if blocking == 0 {
        return GateVerdict::Clear;
    }
    let mut m = String::new();
    if dry_run {
        push_u64(&mut m, blocking);
        m.push_str(" problem(s) would stop a real build of this pack");
        GateVerdict::Previewed(m)
    } else if !override_checks {
        push_u64(&mut m, blocking);
        m.push_str(" problem(s) would keep this pack from starting -- fix them, or build again over the check");
        GateVerdict::Refused(m)
    } else {
        m.push_str("publishing over ");
        push_u64(&mut m, blocking);
        m.push_str(" blocking problem(s), at ");
        m.push_str(actor_name(actor));
        m.push_str("'s explicit request");
        proof {
            assert(m@ =~= overridden_text(
                blocking as nat,
                match actor { Some(i) => i.login@, None => "an unattributed caller"@ },
            ));
        }
        GateVerdict::Overridden(m)
    }
}

/// The audit row an override leaves: who (uid 0 and `unknown` when nobody
/// is known), and what was published over how much.
pub fn override_record(actor: Option<&Identity>, pack_version: &str, blocking: u64) -> (r: (i64, String, String))
    ensures
        match actor {
            Some(i) => r.0 == i.uid && r.1@ == i.login@,
            None => r.0 == 0 && r.1@ == "unknown"@,
        },
        r.2@ == pack_version@ + " published over "@ + decimal(blocking as nat) + " blocking check(s)"@,
{
    let (uid, login) = match actor {
        Some(i) => (i.uid, i.login.clone()),
        None => (0i64, owned("unknown")),
    };
    let mut detail = owned(pack_version);
    detail.push_str(" published over ");
    push_u64(&mut detail, blocking);
    detail.push_str(" blocking check(s)");
    (uid, login, detail)
}

} // verus!

verus! {

// ── ids sort by age ─────────────────────────────────────────────────────────

/// `base` to the power `w`.
spec fn cap(base: nat, w: nat) -> nat
    decreases w,
{
    if w == 0 {
        1
    } else {
        base * cap(base, (w - 1) as nat)
    }
}

/// `n` written with exactly `w` digits in `base` (10 or 16), most significant
/// first, leading zeros included.
spec fn positional(n: nat, base: nat, w: nat) -> Seq<char>
    decreases w,
{
    if w == 0 {
        Seq::empty()
    } else {
        positional(n / base, base, (w - 1) as nat).push(hex_lower((n % base) as int))
    }
}

proof fn lemma_positional_len(n: nat, base: nat, w: nat)
    requires
        base > 0,
    ensures
        positional(n, base, w).len() == w,
    decreases w,
{
    if w > 0 {
        lemma_positional_len(n / base, base, (w - 1) as nat);
    }
}

proof fn lemma_positional_zero(base: nat, w: nat)
    requires
        base > 0,
    ensures
        positional(0, base, w) == Seq::new(w, |i: int| '0'),
    decreases w,
{
    if w > 0 {
        assert(0nat / base == 0) by (nonlinear_arith)
            requires
                base > 0,
        ;
        assert(0nat % base == 0) by (nonlinear_arith)
            requires
                base > 0,
        ;
        lemma_positional_zero(base, (w - 1) as nat);
        assert(positional(0, base, w) =~= Seq::new(w, |i: int| '0'));
    }
}

proof fn lemma_div_below_cap(n: nat, base: nat, w: nat)
    requires
        base > 0,
        w > 0,
        n < cap(base, w),
    ensures
        n / base < cap(base, (w - 1) as nat),
{
    let c = cap(base, (w - 1) as nat);
    assert(n < base * c);
    assert(n / base < c) by (nonlinear_arith)
        requires
            base > 0,
            n < base * c,
    ;
}

proof fn lemma_padded_hex(n: nat, w: nat)
    requires
        w > 0,
        n < cap(16, w),
    ensures
        zero_pad(hex(n), w) == positional(n, 16, w),
    decreases w,
{
    lemma_positional_len(n, 16, w);
    if n < 16 {
        assert(n / 16 == 0 && n % 16 == n);
        lemma_positional_zero(16, (w - 1) as nat);
        assert(zero_pad(hex(n), w) =~= positional(n, 16, w));
    } else {
        assert(w > 1) by {
            if w == 1 {
                assert(cap(16, 1) == 16 * cap(16, 0));
            }
        }
        lemma_div_below_cap(n, 16, w);
        lemma_padded_hex(n / 16, (w - 1) as nat);
        lemma_positional_len(n / 16, 16, (w - 1) as nat);
        let x = hex(n / 16);
        assert(hex(n) == x.push(hex_lower((n % 16) as int)));
        assert(x.len() <= w - 1);
        assert(zero_pad(hex(n), w) =~= zero_pad(x, (w - 1) as nat).push(hex_lower((n % 16) as int)));
    }
}

proof fn lemma_padded_decimal(n: nat, w: nat)
    requires
        w > 0,
        n < cap(10, w),
    ensures
        zero_pad(decimal(n), w) == positional(n, 10, w),
    decreases w,
{
    lemma_positional_len(n, 10, w);
    if n < 10 {
        assert(n / 10 == 0 && n % 10 == n);
        lemma_positional_zero(10, (w - 1) as nat);
        assert(crate::text::digit(n as int) == hex_lower(n as int));
        assert(zero_pad(decimal(n), w) =~= positional(n, 10, w));
    } else {
        assert(w > 1) by {
            if w == 1 {
                assert(cap(10, 1) == 10 * cap(10, 0));
            }
        }
        lemma_div_below_cap(n, 10, w);
        lemma_padded_decimal(n / 10, (w - 1) as nat);
        lemma_positional_len(n / 10, 10, (w - 1) as nat);
        let x = decimal(n / 10);
        assert(crate::text::digit((n % 10) as int) == hex_lower((n % 10) as int));
        assert(decimal(n) == x.push(hex_lower((n % 10) as int)));
        assert(x.len() <= w - 1);
        assert(zero_pad(decimal(n), w) =~= zero_pad(x, (w - 1) as nat).push(hex_lower((n % 10) as int)));
    }
}

/// Two texts of one length followed by more text compare by the first
/// parts, and by what follows only where those are the same.
proof fn lemma_lex_concat(a: Seq<char>, b: Seq<char>, s: Seq<char>, t: Seq<char>)
    requires
        a.len() == b.len(),
    ensures
        lex_lt(a + s, b + t) <==> (lex_lt(a, b) || (a == b && lex_lt(s, t))),
    decreases a.len(),
{
    crate::order::lemma_lex_irreflexive(a);
    if a.len() == 0 {
        assert(a + s =~= s);
        assert(b + t =~= t);
        assert(a =~= b);
    } else {
        lemma_lex_concat(a.drop_first(), b.drop_first(), s, t);
        assert((a + s).drop_first() =~= a.drop_first() + s);
        assert((b + t).drop_first() =~= b.drop_first() + t);
        assert((a + s)[0] == a[0]);
        assert((b + t)[0] == b[0]);
        if a[0] == b[0] && a.drop_first() == b.drop_first() {
            assert(a =~= seq![a[0]] + a.drop_first());
            assert(b =~= seq![b[0]] + b.drop_first());
        }
        if a == b {
            assert(a.drop_first() == b.drop_first());
        }
    }
}

proof fn lemma_hex_lower_order(d: int, e: int)
    requires
        0 <= d < 16,
        0 <= e < 16,
    ensures
        (hex_lower(d) < hex_lower(e)) <==> d < e,
        (hex_lower(d) == hex_lower(e)) <==> d == e,
{
}

/// Digit strings of one width compare as the numbers they write.
proof fn lemma_positional_order(a: nat, b: nat, base: nat, w: nat)
    requires
        base == 10 || base == 16,
        a < cap(base, w),
        b < cap(base, w),
    ensures
        lex_lt(positional(a, base, w), positional(b, base, w)) <==> a < b,
        positional(a, base, w) == positional(b, base, w) <==> a == b,
    decreases w,
{
    if w == 0 {
        crate::order::lemma_lex_irreflexive(Seq::<char>::empty());
    } else {
        lemma_div_below_cap(a, base, w);
        lemma_div_below_cap(b, base, w);
        lemma_positional_order(a / base, b / base, base, (w - 1) as nat);
        let x = positional(a / base, base, (w - 1) as nat);
        let y = positional(b / base, base, (w - 1) as nat);
        lemma_positional_len(a / base, base, (w - 1) as nat);
        lemma_positional_len(b / base, base, (w - 1) as nat);
        let c = hex_lower((a % base) as int);
        let d = hex_lower((b % base) as int);
        lemma_lex_concat(x, y, seq![c], seq![d]);
        assert(x.push(c) =~= x + seq![c]);
        assert(y.push(d) =~= y + seq![d]);
        assert(lex_lt(seq![c], seq![d]) <==> c < d) by {
            assert(seq![c].drop_first() =~= Seq::<char>::empty());
            assert(seq![d].drop_first() =~= Seq::<char>::empty());
            crate::order::lemma_lex_irreflexive(Seq::<char>::empty());
        }
        lemma_hex_lower_order((a % base) as int, (b % base) as int);
        assert(a == base * (a / base) + a % base && 0 <= a % base < base) by (nonlinear_arith)
            requires
                base > 0,
        ;
        assert(b == base * (b / base) + b % base && 0 <= b % base < base) by (nonlinear_arith)
            requires
                base > 0,
        ;
        assert(a < b <==> (a / base < b / base || (a / base == b / base && a % base < b % base))) by (nonlinear_arith)
            requires
                base > 0,
                a == base * (a / base) + a % base,
                b == base * (b / base) + b % base,
                0 <= a % base < base,
                0 <= b % base < base,
        ;
        if x.push(c) == y.push(d) {
            assert(x =~= x.push(c).drop_last());
            assert(y =~= y.push(d).drop_last());
            assert(c == x.push(c).last());
        }
    }
}

/// Job ids sort by age: of two jobs, the one started in an earlier
/// millisecond has the lexically smaller id, and of two started in the same
/// millisecond the one counted first does. So the lexically smallest id the
/// eviction drops is the oldest job. (This holds while the clock reads below
/// 16^13 milliseconds, some eight thousand years from now, and the process
/// has started fewer than 10^8 jobs: past those the padding runs out.)
pub proof fn law_job_ids_sort_by_age(ms1: u128, n1: u64, ms2: u128, n2: u64)
    requires
        ms1 < 0x10000000000000,
        ms2 < 0x10000000000000,
        n1 < 100000000,
        n2 < 100000000,
    ensures
        lex_lt(job_id_text(ms1, n1), job_id_text(ms2, n2)) <==> (ms1 < ms2 || (ms1 == ms2 && n1 < n2)),
{
    reveal_with_fuel(cap, 14);
    assert(cap(16, 13) == 0x10000000000000);
    assert(cap(10, 8) == 100000000);
    lemma_padded_hex(ms1 as nat, 13);
    lemma_padded_hex(ms2 as nat, 13);
    lemma_padded_decimal(n1 as nat, 8);
    lemma_padded_decimal(n2 as nat, 8);
    lemma_positional_len(ms1 as nat, 16, 13);
    lemma_positional_len(ms2 as nat, 16, 13);
    lemma_positional_order(ms1 as nat, ms2 as nat, 16, 13);
    lemma_positional_order(n1 as nat, n2 as nat, 10, 8);
    let a = positional(ms1 as nat, 16, 13);
    let b = positional(ms2 as nat, 16, 13);
    let s = positional(n1 as nat, 10, 8);
    let t = positional(n2 as nat, 10, 8);
    lemma_lex_concat(a, b, seq!['-'] + s, seq!['-'] + t);
    lemma_lex_concat(seq!['-'], seq!['-'], s, t);
    crate::order::lemma_lex_irreflexive(seq!['-']);
    assert(job_id_text(ms1, n1) =~= a + (seq!['-'] + s));
    assert(job_id_text(ms2, n2) =~= b + (seq!['-'] + t));
}

} // verus!

verus! {

/// The texts joined with `", "` between them.
pub open spec fn comma_joined(names: Seq<Seq<char>>) -> Seq<char>
    decreases names.len(),
{
    if names.len() == 0 {
        Seq::empty()
    } else if names.len() == 1 {
        names[0]
    } else {
        comma_joined(names.drop_last()) + ", "@ + names.last()
    }
}

/// The line a build logs when it could not reach Modrinth for some mods and
/// answered from the registry instead: it succeeds either way, but says
/// which it was. Nothing to say when every mod was reached.
pub fn fallback_line(fell_back: &Vec<String>) -> (r: Option<String>)
    ensures
        fell_back@.len() == 0 ==> r is None,
        fell_back@.len() > 0 ==> (r matches Some(l) && l@ == "Modrinth unreachable for "@ + decimal(
            fell_back@.len() as nat,
        ) + " mod(s); resolved from the registry: "@ + comma_joined(texts(fell_back@))),
{
    if fell_back.len() == 0 {
        return None;
    }
    let mut names = String::new();
    let mut i: usize = 0;
    proof {
        assert(texts(fell_back@).take(0) =~= Seq::<Seq<char>>::empty());
    }
    while i < fell_back.len()
        invariant
            i <= fell_back@.len(),
            names@ == comma_joined(texts(fell_back@).take(i as int)),
        decreases fell_back@.len() - i,
    {
        proof {
            let t = texts(fell_back@).take(i + 1);
            assert(t.drop_last() =~= texts(fell_back@).take(i as int));
            assert(t.last() == fell_back@[i as int]@);
            if i == 0 {
                assert(t.len() == 1);
            }
        }
        if i > 0 {
            names.push_str(", ");
        }
        names.push_str(fell_back[i].as_str());
        proof {
            if i == 0 {
                assert(names@ =~= texts(fell_back@).take(1)[0]);
            }
        }
        i += 1;
    }
    proof {
        assert(texts(fell_back@).take(fell_back@.len() as int) =~= texts(fell_back@));
    }
    let mut l = owned("Modrinth unreachable for ");
    push_u64(&mut l, fell_back.len() as u64);
    l.push_str(" mod(s); resolved from the registry: ");
    l.push_str(names.as_str());
    Some(l)
}

} // verus!

verus! {

/// What the registry drops once it holds more than fifty jobs: nothing
/// while it holds fifty or fewer; otherwise, when any job has finished, the
/// finished job whose id sorts first -- the oldest, as ids sort by age --
/// and never a running one; and nothing when every job is still running.
pub proof fn law_eviction_drops_the_oldest_finished_job(jobs: Seq<(Seq<char>, Status)>, r: Option<Seq<char>>)
    requires
        eviction_ok(jobs, r),
    ensures
        jobs.len() <= 50 ==> r is None,
        jobs.len() > 50 && (exists|i: int| 0 <= i < jobs.len() && (#[trigger] jobs[i]).1 != Status::Running)
            ==> r is Some,
        r matches Some(v) ==> exists|i: int|
            0 <= i < jobs.len() && (#[trigger] jobs[i]).0 == v && jobs[i].1 != Status::Running,
        r matches Some(v) ==> forall|i: int|
            0 <= i < jobs.len() && (#[trigger] jobs[i]).1 != Status::Running ==> jobs[i].0 == v || lex_lt(v, jobs[i].0),
{
    if let Some(v) = r {
        assert forall|i: int| 0 <= i < jobs.len() && (#[trigger] jobs[i]).1 != Status::Running implies jobs[i].0
            == v || lex_lt(v, jobs[i].0) by {
            lemma_lex_total(jobs[i].0, v);
        }
    }
}

} // verus!
