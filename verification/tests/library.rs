use smrt::authored::{release_folds, ReleaseFold, ReleaseKey};
use smrt::admin::{
    address_to_ask, already_decided, block_detail, body_matches_path, builds_of, created_pack_fields, highest_level, keepers, claim_detail, claim_to_write, diff_base, diff_from,
    may_grant, may_suspend, merge_message, not_silenced, not_to_itself, proposal_to_take, rate_since,
    server_answer, server_question, settled_status, spoof_report, trimmed, uncommitted, within_rate, yes,
    DiffBase, PackLevel, PackTier, ServerQuestion, Visibility,
};
use smrt::authored::{
    bad_channel, check_class_request, check_file_identity, check_identity_request, check_jar_class,
    check_release_channel, check_release_edit, effective_loaders, mc_versions_cell, mod_ref_of, valid_channel,
    FileIdentity, ModRef,
};
use smrt::cache::{cache_usage, CacheUse};
use smrt::error::ApiError;
use smrt::events::doc_update_payload;
use smrt::graph::{incoming_selectors, mod_edge_key, slice_edge_key, SeenEdges};
use smrt::jobs::{
    actor_name, build_channel, commit_choice, eviction_victim, gate_verdict, head_to_build, override_record,
    parse_channel, requested_version, CommitChoice, GateVerdict, Identity, JobSnapshot, JobState, Status,
    VersionChannel,
};
use smrt::public::{atom_feed, not_a_part, rfc3339, Notification};
use smrt::queries::{
    channel_rank, decode_mc, displaces, display_name_sql, fold_facets, graph_slices, mc_pattern, mc_version_key, name_pattern,
    requested_ids, shown_name,
};
use smrt::revision::{rev_of, short_commit, short_rev};
use smrt::textmap::TextMap;

fn strings(v: &[&str]) -> Vec<String> {
    v.iter().map(|s| s.to_string()).collect()
}

// ── admin ──

#[test]
fn a_proposal_is_taken_once() {
    assert!(proposal_to_take("open", Some("u/42/Fork"), Some("abc")).is_ok());
    match proposal_to_take("merged", Some("u/42/Fork"), Some("abc")) {
        Err(ApiError::Conflict(m)) => assert_eq!(m, "this proposal is already merged"),
        other => panic!("{other:?}"),
    }
    match proposal_to_take("open", None, Some("abc")) {
        Err(ApiError::BadRequest(m)) => assert_eq!(m, "this thread offers no state"),
        other => panic!("{other:?}"),
    }
}

#[test]
fn a_merge_says_what_it_merged() {
    assert_eq!(merge_message(Some("  take it ".into()), 7, "u/42/Fork"), "take it");
    assert_eq!(merge_message(Some("   ".into()), 7, "u/42/Fork"), "merge #7 from u/42/Fork");
    assert_eq!(merge_message(None, 12, "x"), "merge #12 from x");
}

#[test]
fn an_upload_is_decided_once() {
    assert!(already_decided("pending").is_ok());
    match already_decided("approved") {
        Err(ApiError::Conflict(m)) => assert_eq!(m, "that upload was already approved -- reload the queue"),
        other => panic!("{other:?}"),
    }
}

#[test]
fn a_server_without_an_address_is_not_asked() {
    match address_to_ask("smarty \"one\"", None) {
        Err(ApiError::BadRequest(m)) => assert_eq!(
            m,
            "server \"smarty \\\"one\\\"\" has no address recorded, so there is nothing to ask"
        ),
        other => panic!("{other:?}"),
    }
    match address_to_ask("s", Some("host:port")) {
        Err(ApiError::BadRequest(m)) => assert_eq!(m, "\"host:port\" is not an address"),
        other => panic!("{other:?}"),
    }
    assert_eq!(address_to_ask("s", Some(" mc.example.com ")).unwrap(), ("mc.example.com".to_string(), 25565));
}

#[test]
fn a_claim_is_checked_against_the_named_server() {
    assert!(matches!(server_question(false, false, None), ServerQuestion::Unasked(_)));
    assert!(matches!(server_question(true, false, None), ServerQuestion::Unasked(_)));
    match server_question(true, true, Some("mc.example.com:25570")) {
        ServerQuestion::Ask { host, port } => {
            assert_eq!(host, "mc.example.com");
            assert_eq!(port, 25570);
        }
        other => panic!("{:?}", matches!(other, ServerQuestion::Unasked(_))),
    }
    let (claim, asked, note) = server_answer("h", 1, true, Some(5u8));
    assert_eq!((claim, asked.as_deref(), note), (Some(5), Some("h:1"), None));
    let (claim, asked, note) = server_answer::<u8>("h", 1, false, None);
    assert_eq!((claim, asked, note.as_deref()), (None, None, Some("that server could not be reached just now")));
    let (_, _, note) = server_answer::<u8>("h", 1, true, None);
    assert_eq!(note.as_deref(), Some("that server answered without advertising a mod list"));
}

#[test]
fn a_commit_knows_what_was_built_from_it() {
    let index = vec![("c1".to_string(), strings(&["0.1.0"])), ("c2".to_string(), strings(&["0.1.1", "0.1.2"]))];
    assert_eq!(builds_of(&index, "c2"), ["0.1.1", "0.1.2"]);
    assert!(builds_of(&index, "c3").is_empty());
}

#[test]
fn a_diff_starts_where_it_was_asked_to() {
    assert!(matches!(diff_base(Some("live"), Some("p")), DiffBase::Live));
    assert!(matches!(diff_base(Some("abc"), Some("p")), DiffBase::Commit(c) if c == "abc"));
    assert!(matches!(diff_base(None, Some("p")), DiffBase::Commit(c) if c == "p"));
    assert!(matches!(diff_base(None, None), DiffBase::Nothing));
    assert_eq!(diff_from(&DiffBase::Live).as_deref(), Some("live"));
    assert_eq!(diff_from(&DiffBase::Nothing), None);
    assert_eq!(uncommitted(false, 9), 1);
    assert_eq!(uncommitted(true, 9), 9);
}

#[test]
fn a_required_field_is_not_blank() {
    assert_eq!(trimmed("  x ", "say something").unwrap(), "x");
    match trimmed(" \t", "say something") {
        Err(ApiError::BadRequest(m)) => assert_eq!(m, "say something"),
        other => panic!("{other:?}"),
    }
    assert!(yes());
}

// ── authored ──

#[test]
fn channels_are_the_schemas_own() {
    for c in ["release", "beta", "alpha", "unknown"] {
        assert!(valid_channel(c));
    }
    assert!(!valid_channel("dev"));
    assert_eq!(bad_channel("dev"), "channel must be one of release/beta/alpha/unknown, got \"dev\"");
    assert!(check_release_channel(None).is_ok());
    assert!(check_release_channel(Some("beta")).is_ok());
    match check_release_channel(Some("nightly")) {
        Err(ApiError::BadRequest(m)) => {
            assert_eq!(m, "channel must be one of [\"release\", \"beta\", \"alpha\", \"unknown\"]")
        }
        other => panic!("{other:?}"),
    }
}

#[test]
fn a_jar_class_must_make_sense() {
    assert!(check_jar_class("mod", Some("client"), Some("tolerant")).is_ok());
    assert_eq!(
        check_jar_class("plugin", None, None).unwrap_err(),
        "kind must be one of [\"mod\", \"coremod\", \"library\"]"
    );
    assert_eq!(check_jar_class("mod", Some("left"), None).unwrap_err(), "side must be one of client | server | both");
    assert_eq!(
        check_jar_class("mod", None, Some("strict")).unwrap_err(),
        "match_policy must be one of must_match | tolerant"
    );
    assert!(check_jar_class("mod", Some("client"), Some("must_match")).unwrap_err().starts_with("client + must_match"));
}

#[test]
fn a_file_identity_is_checked_before_it_is_written() {
    let loaders: Vec<String> = vec![];
    let mc = strings(&["1.12.2"]);
    let mut id = FileIdentity {
        sha1: "a",
        size_bytes: 1,
        filename: None,
        mod_ref: ModRef::Existing(3),
        version_number: "1.0",
        channel: "release",
        loaders: &loaders,
        mc_versions: &mc,
    };
    assert!(check_file_identity(&id).is_ok());
    id.version_number = "  ";
    assert_eq!(check_file_identity(&id).unwrap_err(), "version_number must not be empty");
    id.version_number = "1.0";
    id.channel = "dev";
    assert!(check_file_identity(&id).unwrap_err().starts_with("channel must be one of"));
    id.channel = "beta";
    id.mod_ref = ModRef::New { name: " " };
    assert_eq!(check_file_identity(&id).unwrap_err(), "new mod name must not be empty");
    assert_eq!(effective_loaders(&loaders), ["any"]);
    assert_eq!(effective_loaders(&strings(&["forge", "fabric"])), ["forge", "fabric"]);
}

#[test]
fn a_release_edit_with_nothing_in_it_does_nothing() {
    assert_eq!(check_release_edit(None, None), Ok(false));
    assert_eq!(check_release_edit(Some("2.0"), None), Ok(true));
    assert!(check_release_edit(None, Some("dev")).is_err());
}

#[test]
fn an_identity_request_names_a_cached_jar_and_a_mod() {
    let sha = "a".repeat(40);
    assert!(check_identity_request(&sha, Some(4), None, "1.0", "release").is_ok());
    assert!(check_identity_request(&sha, None, Some("Cool"), "1.0", "release").is_ok());
    match check_identity_request(&sha, None, Some("  "), "1.0", "release") {
        Err(ApiError::BadRequest(m)) => assert_eq!(m, "provide mod_id (existing mod) or a non-empty mod_name (new mod)"),
        other => panic!("{other:?}"),
    }
    assert!(matches!(
        check_identity_request("abc", Some(4), None, "1.0", "release"),
        Err(ApiError::BadRequest(_))
    ));
    assert!(matches!(check_identity_request(&sha, Some(4), None, "", "release"), Err(ApiError::BadRequest(_))));
    assert!(matches!(check_identity_request(&sha, Some(4), None, "1.0", "dev"), Err(ApiError::BadRequest(_))));
    assert!(matches!(mod_ref_of(Some(4), Some("x")), Some(ModRef::Existing(4))));
    assert!(matches!(mod_ref_of(None, Some(" Cool ")), Some(ModRef::New { name: "Cool" })));
    assert!(mod_ref_of(None, Some(" ")).is_none());
}

#[test]
fn a_class_request_needs_a_kind_unless_it_clears() {
    let sha = "B".repeat(40);
    assert_eq!(check_class_request(&sha, Some("library"), false).unwrap(), "library");
    assert_eq!(check_class_request(&sha, None, true).unwrap(), "");
    match check_class_request(&sha, None, false) {
        Err(ApiError::BadRequest(m)) => assert_eq!(m, "kind is required (mod | coremod | library)"),
        other => panic!("{other:?}"),
    }
    assert!(check_class_request("zz", Some("mod"), false).is_err());
}

#[test]
fn minecraft_versions_are_written_as_a_json_array() {
    assert_eq!(mc_versions_cell(&[]).unwrap(), None);
    assert_eq!(
        mc_versions_cell(&strings(&["1.12.2", "a\"b\\c\n", "\u{1}"])).unwrap().as_deref(),
        Some("[\"1.12.2\",\"a\\\"b\\\\c\\n\",\"\\u0001\"]")
    );
    // and read back in listing order
    let cell = mc_versions_cell(&strings(&["1.12.2", "1.7.10"])).unwrap();
    assert_eq!(decode_mc(cell), ["1.7.10", "1.12.2"]);
}

// ── cache ──

#[test]
fn a_cache_listing_names_who_uses_each_artifact() {
    let inventory = vec![("s1".to_string(), 10), ("s2".to_string(), 20), ("s1".to_string(), 10)];
    let uses = vec![
        ("s1".to_string(), CacheUse { pack_id: "A".into(), filename: "a.jar".into() }),
        ("s9".to_string(), CacheUse { pack_id: "B".into(), filename: "gone.jar".into() }),
        ("s1".to_string(), CacheUse { pack_id: "B".into(), filename: "b.jar".into() }),
    ];
    let listing = cache_usage(&inventory, &uses);
    assert_eq!(listing.len(), 3);
    assert_eq!(listing[0].sha1, "s1");
    assert_eq!(listing[0].size_bytes, 10);
    let first: Vec<(String, String)> =
        listing[0].uses.iter().map(|u| (u.pack_id.clone(), u.filename.clone())).collect();
    assert_eq!(first, [("A".to_string(), "a.jar".to_string()), ("B".to_string(), "b.jar".to_string())]);
    assert!(listing[1].uses.is_empty(), "an orphan");
    assert!(listing[2].uses.is_empty(), "uses go to an artifact's first listing");
}

// ── graph ──

#[test]
fn an_edge_declared_twice_is_drawn_once() {
    let mut seen = SeenEdges::new();
    assert!(seen.first_sight(mod_edge_key(true, Some(3), "JEI", "requires")));
    assert!(!seen.first_sight(mod_edge_key(true, Some(3), "JEI", "requires")));
    assert!(seen.first_sight(mod_edge_key(false, Some(3), "JEI", "requires")));
    assert!(seen.first_sight(mod_edge_key(true, None, "JEI", "requires")));
    // in a slice: a resolved edge ignores how its target was written
    let mut slice = SeenEdges::new();
    assert!(slice.first_sight(slice_edge_key(1, Some(2), "requires", "appleskin")));
    assert!(!slice.first_sight(slice_edge_key(1, Some(2), "requires", "appleskin@[2.5,)")));
    assert!(slice.first_sight(slice_edge_key(1, None, "requires", "lib-a")));
    assert!(slice.first_sight(slice_edge_key(1, None, "requires", "lib-b")));
    let k = slice_edge_key(1, Some(2), "requires", "appleskin");
    assert_eq!(k.name, "");
}

#[test]
fn a_mod_is_reached_by_each_of_its_names() {
    assert_eq!(incoming_selectors(strings(&["jei"]), Some("u6dRKJwZ")), ["jei", "modrinth:u6dRKJwZ"]);
    assert_eq!(incoming_selectors(strings(&["a", "b"]), None), ["a", "b"]);
}

// ── jobs ──

#[test]
fn a_job_log_is_read_from_where_the_reader_left_off() {
    let mut job: JobState<u8> = JobState::new();
    assert!(matches!(job.status(), Status::Running));
    job.line("one".into());
    job.line("two".into());
    let (lines, status) = job.since(0);
    assert_eq!(lines, ["one", "two"]);
    assert!(matches!(status, Status::Running));
    job.line("three".into());
    let (lines, _) = job.since(2);
    assert_eq!(lines, ["three"]);
    let (lines, _) = job.since(9);
    assert!(lines.is_empty());
    job.set_blocked(strings(&["missing dep"]));
    assert_eq!(job.blocked(), ["missing dep"]);
    job.set_result(7);
    assert_eq!(job.result(), Some(&7));
    job.finish(Status::Done);
    assert!(matches!(job.status(), Status::Done));
    let snap = JobSnapshot::of("id1", "build", "Pack", &job);
    assert_eq!(snap.log, ["one", "two", "three"]);
    assert_eq!(snap.job_id, "id1");
    assert!(matches!(snap.status, Status::Done));
}

#[test]
fn the_oldest_finished_job_makes_room() {
    let mut jobs: Vec<(String, Status)> = (0..50).map(|i| (format!("b{i:02}"), Status::Done)).collect();
    assert_eq!(eviction_victim(&jobs), None, "fifty fit");
    jobs.push(("a00".into(), Status::Running));
    assert_eq!(eviction_victim(&jobs).as_deref(), Some("b00"), "never a running one");
    let running: Vec<(String, Status)> = (0..51).map(|i| (format!("r{i:02}"), Status::Running)).collect();
    assert_eq!(eviction_victim(&running), None);
}

#[test]
fn a_build_is_made_from_what_it_names() {
    assert!(matches!(commit_choice(Some(" c1 "), false), CommitChoice::Named(c) if c == "c1"));
    assert!(matches!(commit_choice(Some(" "), true), CommitChoice::Live));
    assert!(matches!(commit_choice(None, false), CommitChoice::Head));
    assert_eq!(head_to_build(Some("h".into()), 0).unwrap().as_deref(), Some("h"));
    match head_to_build(Some("h".into()), 3) {
        Err(ApiError::Conflict(m)) => {
            assert_eq!(m, "3 change(s) since the last commit; commit them or build that commit by name")
        }
        other => panic!("{other:?}"),
    }
    assert!(matches!(head_to_build(None, 0), Err(ApiError::Conflict(_))));
    assert_eq!(requested_version(Some(" ".into())), None);
    assert_eq!(requested_version(Some("0.2.0".into())).as_deref(), Some("0.2.0"));
}

#[test]
fn channels_parse_and_default() {
    assert!(matches!(parse_channel("beta"), Some(VersionChannel::Beta)));
    assert!(parse_channel("Beta").is_none());
    assert!(matches!(build_channel(None), Ok(VersionChannel::Beta)), "a release is an explicit act");
    assert!(matches!(build_channel(Some("alpha")), Ok(VersionChannel::Alpha)));
    assert!(matches!(build_channel(Some("gold")), Err(ApiError::BadRequest(_))));
}

#[test]
fn the_gate_stops_a_publish_and_reports_a_preview() {
    let who = Identity { uid: 10, login: "curator".into() };
    assert!(matches!(gate_verdict(0, false, false, None), GateVerdict::Clear));
    assert!(matches!(
        gate_verdict(2, true, false, None),
        GateVerdict::Previewed(m) if m == "2 problem(s) would stop a real build of this pack"
    ));
    assert!(matches!(
        gate_verdict(1, false, false, None),
        GateVerdict::Refused(m) if m == "1 problem(s) would keep this pack from starting -- fix them, or build again over the check"
    ));
    assert!(matches!(
        gate_verdict(3, false, true, Some(&who)),
        GateVerdict::Overridden(m) if m == "publishing over 3 blocking problem(s), at curator's explicit request"
    ));
    assert_eq!(actor_name(None), "an unattributed caller");
    let (uid, login, detail) = override_record(Some(&who), "0.1.24", 3);
    assert_eq!((uid, login.as_str(), detail.as_str()), (10, "curator", "0.1.24 published over 3 blocking check(s)"));
    let (uid, login, _) = override_record(None, "0.1.24", 3);
    assert_eq!((uid, login.as_str()), (0, "unknown"));
}

// ── queries ──

#[test]
fn a_version_key_reads_the_leading_digits_of_each_piece() {
    assert_eq!(mc_version_key("1.12.2"), [1, 12, 2]);
    assert_eq!(mc_version_key("1.20-pre1"), [1, 20]);
    assert_eq!(mc_version_key("b1.7.3"), [-1, 7, 3]);
    assert_eq!(mc_version_key("1.99999999999999999999"), [1, -1]);
    assert_eq!(decode_mc(None), Vec::<String>::new());
    assert_eq!(decode_mc(Some("not json".into())), Vec::<String>::new());
}

#[test]
fn a_search_is_matched_anywhere_and_literally() {
    assert_eq!(name_pattern("iron_chests"), "%iron\\_chests%");
    assert_eq!(mc_pattern("1.12"), "%\"1.12\"%");
}

#[test]
fn a_slice_picks_the_best_channel_then_the_newer_build() {
    assert_eq!(channel_rank("release"), 3);
    assert_eq!(channel_rank("beta"), 2);
    assert_eq!(channel_rank("alpha"), 1);
    assert_eq!(channel_rank("unknown"), 0);
    assert!(displaces(3, 2, Some(false), 1, 9));
    assert!(!displaces(1, 2, Some(true), 9, 1));
    assert!(displaces(2, 2, Some(true), 1, 9));
    assert!(!displaces(2, 2, Some(false), 9, 1));
    assert!(displaces(2, 2, None, 9, 1));
    assert!(!displaces(2, 2, None, 1, 9));
}

#[test]
fn a_mod_is_shown_by_its_best_name() {
    assert_eq!(shown_name(5, Some("JEI"), Some("jei"), Some("jei")), "JEI");
    assert_eq!(shown_name(5, None, Some("jei"), Some("jeimod")), "jei");
    assert_eq!(shown_name(5, None, None, Some("jeimod")), "jeimod");
    assert_eq!(shown_name(-5, None, None, None), "#-5");
    assert_eq!(
        display_name_sql("m"),
        "lower(COALESCE(m.canonical_name, m.slug, (SELECT external_key FROM mod_alias WHERE mod_id = m.id AND source = 'modid' LIMIT 1), '#' || m.id))"
    );
}

#[test]
fn a_name_lookup_asks_for_each_id_once() {
    assert_eq!(requested_ids(Some(" b,a,,b , c")), ["a", "b", "c"]);
    assert!(requested_ids(None).is_empty());
    let many: Vec<String> = (0..300).map(|i| format!("id{i:03}")).collect();
    let got = requested_ids(Some(&many.join(",")));
    assert_eq!(got.len(), 256);
    assert_eq!(got[0], "id000");
    assert_eq!(got[255], "id255");
}

#[test]
fn a_mods_facets_are_folded_across_its_files() {
    let files = vec![
        (strings(&["forge", "cleanroom"]), strings(&["1.12.2", "1.7.10"])),
        (strings(&["forge"]), strings(&["1.12.2", "1.10.2"])),
        (vec![], vec![]),
    ];
    let (loaders, mc) = fold_facets(&files);
    assert_eq!(loaders, ["cleanroom", "forge"]);
    assert_eq!(mc, ["1.7.10", "1.10.2", "1.12.2"]);
    let (loaders, mc) = fold_facets(&vec![]);
    assert!(loaders.is_empty() && mc.is_empty());
}

// ── public ──

#[test]
fn a_slice_of_an_answer_is_never_encoded() {
    assert!(not_a_part(200, false));
    assert!(!not_a_part(206, false));
    assert!(!not_a_part(200, true));
}

#[test]
fn feed_times_are_rfc3339() {
    assert_eq!(rfc3339(0), "1970-01-01T00:00:00Z");
    assert_eq!(rfc3339(1_700_000_000), "2023-11-14T22:13:20Z");
}

#[test]
fn the_feed_carries_each_notification() {
    let rows = vec![Notification {
        id: 9,
        thread_id: 4,
        pack_id: "Create".into(),
        title: "a <mod> crashes".into(),
        kind: "opened".into(),
        status: "open".into(),
        actor_uid: 43,
        actor_login: Some("reporter".into()),
        created_at: 0,
    }];
    let feed = atom_feed("http://localhost", "keeper", 42, &rows);
    assert!(feed.starts_with("<?xml version=\"1.0\" encoding=\"utf-8\"?>\n"));
    assert!(feed.contains("<title>a &lt;mod&gt; crashes</title>"));
    assert!(feed.contains("<link rel=\"alternate\" href=\"http://localhost/thread/4\"/>"));
    assert!(feed.contains("<id>tag:smrt,2026:notification:9</id>"));
    assert!(feed.contains("<summary>reporter opened this on Create</summary>"));
    assert!(feed.contains("<id>tag:smrt,2026:notifications:42</id>"));
    assert!(feed.ends_with("</feed>\n"));
}

// ── revision ──

#[test]
fn a_revision_is_shown_short() {
    assert_eq!(short_rev("0123456789abcdef"), "01234567");
    assert_eq!(short_rev("abc"), "abc");
    // eight bytes that end inside a character: the whole revision
    assert_eq!(short_rev("aéééé"), "aéééé");
    assert_eq!(short_commit("0123456789"), "01234567");
    assert_eq!(short_commit("0123"), "0123");
}

#[test]
fn a_config_without_a_revision_is_an_internal_error() {
    assert_eq!(rev_of(Ok("r1".into())).unwrap(), "r1");
    match rev_of(Err("bad bytes".into())) {
        Err(ApiError::Internal(m)) => assert_eq!(m, "config rev: bad bytes"),
        other => panic!("{other:?}"),
    }
    assert_eq!(ApiError::NotFound.message(), "not found");
}

// ── text map ──

#[test]
fn a_text_map_reads_back_what_was_set() {
    let mut m = TextMap::new();
    assert!(m.is_empty());
    m.insert("ru".into(), "Привет".into());
    m.insert("en".into(), "Hi".into());
    m.insert("ru".into(), "Здравствуйте".into());
    assert_eq!(m.len(), 2);
    let en: Vec<char> = "en".chars().collect();
    let ru: Vec<char> = "ru".chars().collect();
    let de: Vec<char> = "de".chars().collect();
    assert_eq!(m.get(&en).map(String::as_str), Some("Hi"));
    assert_eq!(m.get(&ru).map(String::as_str), Some("Здравствуйте"));
    assert_eq!(m.get(&de), None);
    assert_eq!(m.entry(0).0, "en");
}

#[test]
fn the_busiest_world_comes_first() {
    let rows: Vec<(Option<String>, String)> = vec![
        (Some("[\"1.12.2\",\"1.7.10\"]".into()), "Forge".into()),
        (Some("[\"1.12.2\"]".into()), "forge".into()),
        (Some("[\"1.20.1\"]".into()), "fabric".into()),
        (Some("[\"1.12.2\"]".into()), "CleanRoom".into()),
        (Some("not json".into()), "forge".into()),
        (None, "forge".into()),
        (Some("[\"1.12.2\"]".into()), "FÖRGE".into()),
    ];
    let got: Vec<(String, String, i64)> =
        graph_slices(&rows).into_iter().map(|s| (s.mc_version, s.loader, s.artifacts)).collect();
    let want: Vec<(String, String, i64)> = vec![
        ("1.12.2".into(), "forge".into(), 2),
        ("1.20.1".into(), "fabric".into(), 1),
        ("1.12.2".into(), "cleanroom".into(), 1),
        ("1.12.2".into(), "förge".into(), 1),
        ("1.7.10".into(), "forge".into(), 1),
    ];
    assert_eq!(got, want);
    assert!(graph_slices(&vec![]).is_empty());
}

#[test]
fn writing_is_limited_per_window() {
    assert!(within_rate("comments", 19).is_ok());
    match within_rate("comments", 20) {
        Err(ApiError::Conflict(m)) => assert_eq!(m, "that is a lot in a short time; give it a few minutes"),
        other => panic!("{other:?}"),
    }
    assert!(within_rate("threads", 4).is_ok());
    assert!(within_rate("threads", 5).is_err());
    assert_eq!(rate_since(1_000), 400);
}

#[test]
fn a_block_stops_the_writer_and_says_why() {
    assert!(not_silenced(None).is_ok());
    match not_silenced(Some(Some("flooding"))) {
        Err(ApiError::Refused(m)) => assert_eq!(m, "writing here is suspended. reason: flooding"),
        other => panic!("{other:?}"),
    }
    match not_silenced(Some(None)) {
        Err(e) => assert_eq!(e.message(), "writing here is suspended"),
        Ok(()) => panic!("a block refuses"),
    }
    assert_eq!(block_detail(43, Some("flooding")), "43: flooding");
    assert_eq!(block_detail(43, None), "43");
    assert_eq!(ApiError::Forbidden.message(), "forbidden");
}

#[test]
fn closing_a_thread_says_who_closed_it() {
    assert_eq!(settled_status("proposal", true), "withdrawn");
    assert_eq!(settled_status("proposal", false), "declined");
    assert_eq!(settled_status("issue", true), "closed");
    assert!(not_to_itself("u/42/Fork", "Create").is_ok());
    match not_to_itself("Create", "Create") {
        Err(ApiError::BadRequest(m)) => assert_eq!(m, "a pack cannot propose to itself; commit instead"),
        other => panic!("{other:?}"),
    }
}

#[test]
fn some_moves_say_nothing() {
    assert!(may_suspend(43, 42, false).is_ok());
    assert!(matches!(may_suspend(42, 42, false), Err(ApiError::BadRequest(m)) if m == "suspending yourself would say nothing"));
    assert!(matches!(
        may_suspend(43, 42, true),
        Err(ApiError::BadRequest(m)) if m == "that account runs the mirror; take the rung away first"
    ));
    assert!(may_grant(43, 42).is_ok());
    assert!(may_grant(42, 42).is_err());
}

#[test]
fn a_claim_is_judged_only_against_another() {
    let drift = strings(&["jei"]);
    let r = spoof_report(Some(1u8), Some(2u8), Some("s".into()), Some("h:1".into()), None, drift.clone());
    assert_eq!(r.drift, drift);
    assert_eq!((r.shipped, r.current, r.unasked), (Some(1), Some(2), None));
    let r = spoof_report(Some(1u8), None, None, None, Some("not reached"), drift);
    assert!(r.drift.is_empty(), "the shipped claim alone is reported, not judged");
    assert_eq!(r.unasked.as_deref(), Some("not reached"));
    assert_eq!(claim_to_write(Some(7u8), None).unwrap(), 7);
    match claim_to_write::<u8>(None, None) {
        Err(ApiError::BadRequest(m)) => assert_eq!(m, "there is nothing to write a claim from"),
        other => panic!("{other:?}"),
    }
    match claim_to_write::<u8>(None, Some("that server could not be reached just now")) {
        Err(ApiError::BadRequest(m)) => assert_eq!(m, "that server could not be reached just now"),
        other => panic!("{other:?}"),
    }
    assert_eq!(claim_detail(12, Some("mc:25565")), "12 mods claimed from mc:25565");
    assert_eq!(claim_detail(0, None), "0 mods claimed from its server");
}

#[test]
fn an_unsafe_ingest_is_refused_with_what_it_must_hold() {
    assert_eq!(
        smrt::github::ingest_url("o/r", "v1", "a.jar").unwrap(),
        "https://github.com/o/r/releases/download/v1/a.jar"
    );
    match smrt::github::ingest_url("owner/repo/extra", "v1", "a.jar") {
        Err(ApiError::BadRequest(m)) => assert_eq!(
            m,
            "repo must be owner/name (a github.com URL is ok); tag and asset must each be a single path segment"
        ),
        other => panic!("{other:?}"),
    }
}

#[test]
fn a_personal_feed_is_titled_and_linked_under_the_mirror() {
    let feed = smrt::public::personal_feed_document("https://mirror.example//", None, 7, &[]);
    assert!(feed.contains("<title>smrt: you</title>"));
    assert!(feed.contains("<link rel=\"alternate\" href=\"https://mirror.example/profile\"/>"));
    assert!(feed.contains("<updated>1970-01-01T00:00:00Z</updated>"), "an empty feed dates from the epoch");
    let named = smrt::public::personal_feed_document("https://mirror.example", Some("kit"), 7, &[]);
    assert!(named.contains("<title>smrt: kit</title>"));
}

#[test]
fn a_search_answers_a_bounded_number_of_hits() {
    assert_eq!(smrt::admin::search_limit(None), 30);
    assert_eq!(smrt::admin::search_limit(Some(0)), 1);
    assert_eq!(smrt::admin::search_limit(Some(500)), 100);
    assert_eq!(smrt::admin::search_limit(Some(42)), 42);
}

#[test]
fn a_name_lookup_asks_modrinth_only_about_what_it_lacks() {
    let ids = strings(&["a", "b", "c", "d"]);
    let known = strings(&["c", "a"]);
    assert_eq!(smrt::queries::missing_ids(&ids, &known), ["b", "d"]);
    assert!(smrt::queries::missing_ids(&ids, &ids).is_empty());
}

fn listing_row(release_id: i64, version_number: &str, file_id: i64, sha1: &str, target: Option<&str>) -> smrt::releases::FileTargetRow {
    smrt::releases::FileTargetRow {
        release_id,
        version_number: version_number.into(),
        channel: "release".into(),
        release_source: "harvest".into(),
        file_id,
        version: version_number.into(),
        sha1: sha1.into(),
        size_bytes: 10,
        file_source: "harvest".into(),
        filename: Some(format!("{sha1}.jar")),
        mc_versions: strings(&["1.12.2"]),
        modrinth_version_id: None,
        modrinth_project_id: Some("EsAfb37o".into()),
        target: target.map(str::to_string),
    }
}

#[test]
fn a_mods_files_group_into_releases() {
    let rows = vec![
        listing_row(1, "2.5.1", 10, "sha_apple", Some("forge")),
        listing_row(1, "2.5.1", 10, "sha_apple", Some("cleanroom")),
        listing_row(1, "2.5.1", 11, "sha_multi", None),
        listing_row(2, "3.0", 12, "sha_fab", Some("fabric")),
    ];
    let rels = smrt::releases::group_releases(&rows);
    assert_eq!(rels.len(), 2);
    assert_eq!(rels[0].release_id, 1);
    assert_eq!(rels[0].files.len(), 2);
    assert_eq!(rels[0].files[0].targets, ["forge", "cleanroom"]);
    assert!(rels[0].files[1].targets.is_empty());
    assert_eq!(rels[0].files[1].filename.as_deref(), Some("sha_multi.jar"));
    assert!(!rels[0].files[0].cached);
    assert_eq!(rels[1].version_number, "3.0");
    assert_eq!(rels[1].files[0].targets, ["fabric"]);
    assert_eq!(rels[1].files[0].mc_versions, ["1.12.2"]);
    assert!(smrt::releases::group_releases(&vec![]).is_empty());
}

#[test]
fn a_file_is_found_in_the_first_release_holding_it() {
    let rows = vec![
        listing_row(1, "1.0", 10, "sha_a", None),
        listing_row(1, "1.0", 11, "sha_b", None),
        listing_row(2, "2.0", 12, "sha_c", None),
    ];
    let rels = smrt::releases::group_releases(&rows);
    assert_eq!(smrt::releases::find_file(&rels, "sha_b"), Some((0, 1)));
    assert_eq!(smrt::releases::find_file(&rels, "sha_c"), Some((1, 0)));
    assert_eq!(smrt::releases::find_file(&rels, "sha_z"), None);
}

#[test]
fn a_save_is_for_the_pack_it_is_addressed_to() {

    assert!(body_matches_path("Industrial", "Industrial").is_ok());
    match body_matches_path("Other", "Industrial") {
        Err(ApiError::BadRequest(m)) => assert_eq!(m, "body pack_id \"Other\" does not match path \"Industrial\""),
        other => panic!("{other:?}"),
    }
    assert_eq!(created_pack_fields(Some(42), 7), (42, PackTier::Community, Visibility::Draft));
    assert_eq!(created_pack_fields(None, 7), (7, PackTier::Official, Visibility::Published));
}

#[test]
fn a_commit_names_its_signer_first_and_everyone_once() {
    let pending = strings(&["bo", "kit", "bo", "ann"]);
    assert_eq!(smrt::admin::contributors("kit", &pending), ["kit", "bo", "ann"]);
    assert_eq!(smrt::admin::contributors("kit", &vec![]), ["kit"]);
    assert_eq!(smrt::admin::commit_message("  tidy the pack ").unwrap(), "tidy the pack");
    match smrt::admin::commit_message("   ") {
        Err(ApiError::BadRequest(m)) => {
            assert_eq!(m, "a commit needs a message; an unlabelled checkpoint is one nobody can read later")
        }
        other => panic!("{other:?}"),
    }
}

#[test]
fn a_pack_is_answered_for_by_whoever_may_act_on_it() {
    let grants = vec![(5, PackLevel::View), (6, PackLevel::Edit), (7, PackLevel::Own)];
    assert_eq!(keepers(Some(42), &vec![1, 2], &grants), [42, 6, 7]);
    assert_eq!(keepers(None, &vec![1, 2], &grants), [1, 2, 6, 7]);
    assert_eq!(keepers(None, &vec![], &vec![]), Vec::<i64>::new());
    assert_eq!(highest_level(true, true, true), Some(PackLevel::Own));
    assert_eq!(highest_level(false, true, true), Some(PackLevel::Edit));
    assert_eq!(highest_level(false, false, true), Some(PackLevel::View));
    assert_eq!(highest_level(false, false, false), None);
}

#[test]
fn a_document_edit_travels_as_base64() {
    assert_eq!(doc_update_payload(b"Man"), "TWFu");
    assert_eq!(doc_update_payload(b"Ma"), "TWE=");
    assert_eq!(doc_update_payload(b"M"), "TQ==");
    assert_eq!(doc_update_payload(b""), "");
    assert_eq!(doc_update_payload(&[0xff, 0xfe, 0xfd, 0x00]), "//79AA==");
}

#[test]
fn a_job_ends_done_or_failed_with_its_reason() {
    let mut ok: JobState<()> = JobState::new();
    ok.line("resolving".into());
    ok.conclude(Ok(()));
    assert!(matches!(ok.status(), Status::Done));
    assert_eq!(ok.since(0).0, ["resolving"]);
    let mut bad: JobState<()> = JobState::new();
    bad.conclude(Err("no authoring config: missing".into()));
    assert!(matches!(bad.status(), Status::Failed));
    assert_eq!(bad.since(0).0, ["failed: no authoring config: missing"]);
    assert_eq!(smrt::jobs::build_kind(true), "preview");
    assert_eq!(smrt::jobs::build_kind(false), "build");
}

#[test]
fn a_build_says_when_it_answered_from_the_registry() {
    assert_eq!(smrt::jobs::fallback_line(&vec![]), None);
    assert_eq!(
        smrt::jobs::fallback_line(&strings(&["jei", "ae2"])).as_deref(),
        Some("Modrinth unreachable for 2 mod(s); resolved from the registry: jei, ae2")
    );
    assert_eq!(
        smrt::jobs::fallback_line(&strings(&["jei"])).as_deref(),
        Some("Modrinth unreachable for 1 mod(s); resolved from the registry: jei")
    );
}

#[test]
fn folding_a_mod_merges_colliding_releases_and_moves_the_rest() {
    let key = |id: i64, v: &str, c: &str| ReleaseKey { id, version_number: v.into(), channel: c.into() };
    let from = vec![key(1, "1.0", "release"), key(2, "1.1", "beta"), key(3, "2.0", "release")];
    let into = vec![key(10, "1.0", "release"), key(11, "1.1", "release")];
    assert_eq!(
        release_folds(5, 6, &from, &into),
        vec![
            ReleaseFold::Fold { from: 1, into: 10 },
            ReleaseFold::Repoint { from: 2 },
            ReleaseFold::Repoint { from: 3 },
        ]
    );
    assert!(release_folds(5, 5, &from, &into).is_empty());
}
