use std::time::Duration;

use sha2::Digest;

use an_agent::act::tag::ToolTag;
use an_agent::act::tool::{ToolCall, ToolMessage};
use an_agent::agent::{
    last_assistant_text, last_is_final_assistant, loop_verdict, record_reply, record_tool_reply, utterance_event,
    AgentState, Assistant, LoopVerdict, WireFunction, WireToolCall,
};
use an_agent::det_seam::Clock;
use an_agent::entropy::{ulid_of, Entropy};
use rand::{RngCore, SeedableRng};
use an_agent::memstream::event::{FromKind, Kind, Memevent};
use an_agent::memstream::tape::{frame_line, needs_newline, next_seq, quarantine_header, scan, seq_after, seq_after_write, stamp, tape_lines, Scan};
use an_agent::model::{assistant_of, completions_url, pick_setting, ModelError};
use an_agent::principal::card::{AgentCard, ModelSpec, ToolGrant, Topology};
use an_agent::instance::agent::{Agent, AgentError, InstanceError};
use an_agent::principal::factory::{build, FactoryError, RuntimePlan};
use an_agent::principal::registry::{check_agent_id, check_hash, lineage, lineage_ends, CardLink, RegistryError};
use an_agent::principal::{stdin_counterpart_id, stored_agent_id};
use an_agent::tools::bash::{cap_bytes, command_of, report, timed_out, Bash};
use an_agent::workplace::id::ObjectId;
use an_agent::workplace::resource::{Resource, ResourceKind};
use an_agent::workplace::store::{
    check_write, entry_for, lookup_step, nest_step, validate_ref, workers_file, Step, Tree, TreeEntry, WorkplaceError,
};

const GOOD_LINE: &str = r#"{"v":1,"id":"01TEST","seq":7,"ts":"2026-01-01T00:00:00.000Z","from":"a","from_kind":"agent","kind":"utterance","session":"s","content":"prior","tags":[],"refs":[]}"#;

/// Scans tape bytes as the store does: each line parsed as JSON.
fn scan_bytes(bytes: &[u8]) -> Scan {
    let lines = tape_lines(bytes);
    let parsed: Vec<bool> = lines
        .iter()
        .map(|l| serde_json::from_slice::<serde_json::Value>(&bytes[l.start..l.end]).is_ok())
        .collect();
    let problems: Vec<Option<String>> = vec![None; lines.len()];
    scan(&lines, &parsed, &problems)
}

fn ev(seq: u64) -> Memevent {
    Memevent {
        v: 1,
        id: "01TEST".into(),
        seq,
        ts: "t".into(),
        from: "a".into(),
        from_kind: FromKind::Agent,
        kind: Kind::Utterance,
        session: None,
        content: "prior".into(),
        tags: vec![],
        refs: vec![],
        act: None,
    }
}

#[test]
fn frozen_iso_is_epoch_and_units_round_trip() {
    assert_eq!(Clock::frozen(0).now_iso(), "1970-01-01T00:00:00.000Z");
    assert_eq!(Clock::format_ms(1_000), "1970-01-01T00:00:01.000Z");
    assert_eq!(Clock::from_duration(Duration::from_secs(2)), 2_000);
    assert_eq!(Clock::to_duration(2_000), Duration::from_secs(2));
}

#[test]
fn frozen_clock_reads_its_instant() {
    assert_eq!(Clock::frozen(1_234).now_ms(), 1_234);
    assert_eq!(Clock::format_ms(1_234), "1970-01-01T00:00:01.234Z");
    assert!(Clock::wall().now_ms() > 1_600_000_000_000);
}

#[test]
fn seq_increases_and_clock_is_injected() {
    assert_eq!(next_seq(&[]), 1);
    let ts = Clock::frozen(0).now_iso();
    let input = utterance_event("a", "s", "hi");
    let first = stamp(input, "id1".into(), next_seq(&[]), ts.clone());
    assert_eq!(first.seq, 1);
    assert_eq!(first.ts, "1970-01-01T00:00:00.000Z");
    assert_eq!(first.session.as_deref(), Some("s"));
    let second_seq = next_seq(&[first]);
    assert_eq!(second_seq, 2);
}

#[test]
fn continues_seq_from_existing_file() {
    let bytes = format!("{GOOD_LINE}\n");
    assert_eq!(scan_bytes(bytes.as_bytes()), Scan::Lines { events: vec![0], torn: None });
    assert_eq!(next_seq(&[ev(7)]), 8);
    assert!(!needs_newline(bytes.as_bytes(), false));
}

#[test]
fn corrupt_line_fails() {
    assert_eq!(scan_bytes(b"not-json\n"), Scan::Corrupt(1));
}

#[test]
fn mid_tape_corruption_fails_the_store() {
    let bytes = format!("{GOOD_LINE}\nnot-json\n{GOOD_LINE}\n");
    assert_eq!(scan_bytes(bytes.as_bytes()), Scan::Corrupt(2));
}

#[test]
fn torn_tail_is_quarantined_and_append_continues() {
    let torn = r#"{"v":1,"id":"01TE"#;
    let bytes = format!("{GOOD_LINE}\n{torn}");
    let lines = tape_lines(bytes.as_bytes());
    assert_eq!(scan_bytes(bytes.as_bytes()), Scan::Lines { events: vec![0], torn: Some(1) });
    assert_eq!(lines[1].start, GOOD_LINE.len() + 1);
    assert!(!lines[1].terminated);
    assert!(!needs_newline(bytes.as_bytes(), true));
    assert_eq!(next_seq(&[ev(7)]), 8);
    assert_eq!(quarantine_header("T", torn.len()), format!("# quarantined T ({} bytes)\n", torn.len()));
}

#[test]
fn unterminated_valid_tail_is_separated_from_next_append() {
    assert_eq!(scan_bytes(GOOD_LINE.as_bytes()), Scan::Lines { events: vec![0], torn: None });
    assert!(needs_newline(GOOD_LINE.as_bytes(), false));
    assert_eq!(frame_line("{}", true), "\n{}\n");
    assert_eq!(frame_line("{}", false), "{}\n");
}

#[test]
fn uuid_v4_carries_version_and_variant_bits() {
    let seed = [7u8; 32];
    let a = Entropy::seeded(seed).uuid_v4();
    let b = Entropy::seeded(seed).uuid_v4();
    assert_eq!(a, b);
    assert_eq!((a >> 76) & 0xf, 4);
    assert_eq!((a >> 62) & 0x3, 2);
    let parsed = uuid::Uuid::from_u128(a);
    assert_eq!(parsed.get_version_num(), 4);
    let mut os = Entropy::os();
    let x = os.uuid_v4();
    let y = os.uuid_v4();
    assert_ne!(x, y);
    assert_eq!((x >> 76) & 0xf, 4);
}

#[test]
fn append_after_unterminated_line_adds_exactly_one_line() {
    let framed = format!("{GOOD_LINE}{}", frame_line(GOOD_LINE, needs_newline(GOOD_LINE.as_bytes(), false)));
    let lines = tape_lines(framed.as_bytes());
    assert_eq!(lines.len(), 2);
    assert_eq!((lines[0].start, lines[0].end, lines[0].terminated), (0, GOOD_LINE.len() + 1, true));
    assert_eq!((lines[1].start, lines[1].end, lines[1].terminated), (GOOD_LINE.len() + 1, framed.len(), true));
    assert_eq!(scan_bytes(framed.as_bytes()), Scan::Lines { events: vec![0, 1], torn: None });
}

#[test]
fn blank_lines_are_skipped_and_events_validate() {
    let bytes = format!("  \n{GOOD_LINE}\n\n");
    assert_eq!(scan_bytes(bytes.as_bytes()), Scan::Lines { events: vec![1], torn: None });
    assert!(ev(1).validate().is_ok());
    let mut bad = ev(1);
    bad.v = 2;
    assert_eq!(bad.validate(), Err("memory event v must be 1".to_string()));
    let mut no_id = ev(1);
    no_id.id = String::new();
    assert_eq!(no_id.validate(), Err("memory event id must be a string".to_string()));
}

fn card(tag: ToolTag) -> AgentCard {
    AgentCard {
        v: 1,
        id: 0xaaaaaaaa_aaaa_aaaa_aaaa_aaaaaaaaaaaa,
        model: ModelSpec { base_url: "https://example.com".into(), model: "m".into(), extra_body: None },
        prompt: "test prompt".into(),
        tools: vec![ToolGrant { name: "bash".into(), tag }],
        topology: Topology::Leaf,
        kernel: "0.1.0".into(),
        supersedes: None,
    }
}

#[test]
fn build_primes_prompt_and_grants() {
    let c = card(ToolTag::none());
    let rt = build(&c, "hash-1").unwrap();
    assert_eq!(rt.prompt, "test prompt");
    assert_eq!(rt.grants.len(), 1);
    assert_eq!(rt.grants[0].name, "bash");
    assert_eq!(rt.grants[0].tag, ToolTag::none());
    assert_eq!(rt.card_hash, "hash-1");
    assert_eq!(rt.agent_id, "aaaaaaaa-aaaa-aaaa-aaaa-aaaaaaaaaaaa");
}

#[test]
fn unknown_tool_name_fails_build() {
    let mut c = card(ToolTag::none());
    c.tools[0].name = "nope".into();
    assert!(matches!(build(&c, "h"), Err(FactoryError::UnknownTool(_))));
}

#[test]
fn file_faced_grant_is_rejected_until_act_wires_resources() {
    let c = card(ToolTag::read("/x".into()));
    assert!(matches!(build(&c, "h"), Err(FactoryError::UnsupportedFace(name)) if name == "bash"));
}

#[test]
fn stdin_id_is_stable_and_not_the_agent() {
    let a = uuid::Uuid::parse_str("aaaaaaaa-aaaa-aaaa-aaaa-aaaaaaaaaaaa").unwrap().as_u128();
    let b = uuid::Uuid::parse_str("bbbbbbbb-bbbb-bbbb-bbbb-bbbbbbbbbbbb").unwrap().as_u128();
    assert_eq!(stdin_counterpart_id(a), stdin_counterpart_id(a));
    assert_ne!(stdin_counterpart_id(a), stdin_counterpart_id(b));
    assert_ne!(stdin_counterpart_id(a), a);
    assert_eq!(uuid::Uuid::from_u128(stdin_counterpart_id(a)).get_version(), Some(uuid::Version::Sha1));
    let ns = uuid::Uuid::new_v5(&uuid::Uuid::NAMESPACE_DNS, b"an-agent.stdin");
    let want = uuid::Uuid::new_v5(&ns, b"aaaaaaaa-aaaa-aaaa-aaaa-aaaaaaaaaaaa/stdin");
    assert_eq!(stdin_counterpart_id(a), want.as_u128());
}

#[test]
fn supersession_builds_lineage_head_first() {
    let h1 = "1".repeat(64);
    let h2 = "2".repeat(64);
    let cards = vec![
        CardLink { hash: h1.clone(), supersedes: None },
        CardLink { hash: h2.clone(), supersedes: Some(h1.clone()) },
    ];
    assert_eq!(lineage(Some(h2.clone()), &cards).unwrap(), vec![h2.clone(), h1.clone()]);
    assert_eq!(lineage(Some(h1.clone()), &cards).unwrap(), vec![h1]);
    assert_eq!(lineage(None, &cards).unwrap(), Vec::<String>::new());
}

#[test]
fn unknown_agent_and_card_are_errors() {
    let cards = vec![CardLink { hash: "b".repeat(64), supersedes: Some("c".repeat(64)) }];
    assert_eq!(lineage(Some("b".repeat(64)), &cards), Err(RegistryError::BrokenLineage("c".repeat(64))));
}

#[test]
fn read_paths_reject_traversal_and_off_alphabet() {
    assert!(matches!(check_agent_id("../../../tmp"), Err(RegistryError::InvalidId(_))));
    assert!(check_agent_id("aaaaaaaa-aaaa-aaaa-aaaa-aaaaaaaaaaaa").is_ok());
    assert!(matches!(check_hash("../../outside"), Err(RegistryError::InvalidHash(_))));
    assert!(matches!(check_hash(&"A".repeat(64)), Err(RegistryError::InvalidHash(_))));
    assert!(check_hash(&"b".repeat(64)).is_ok());
}

#[test]
fn mnemonic_round_trips() {
    let wp = uuid::Uuid::parse_str("aaaaaaaa-aaaa-aaaa-aaaa-aaaaaaaaaaaa").unwrap().as_u128();
    let r = Resource::new(wp, ResourceKind::File, vec!["src".into(), "main.rs".into()]);
    let s = r.render();
    assert_eq!(s, "aaaaaaaa-aaaa-aaaa-aaaa-aaaaaaaaaaaa/file/src/main.rs");
    assert_eq!(Resource::parse(&s).unwrap(), r);
    assert!(Resource::parse("nope/file/x").is_err());
}

#[test]
fn object_ids_hash_kind_length_and_payload() {
    let id = ObjectId::from_payload("blob", b"aaa");
    let mut pre = b"blob 3\0".to_vec();
    pre.extend_from_slice(b"aaa");
    let want = <sha2::Sha256 as Digest>::digest(&pre);
    assert_eq!(id.0.to_vec(), want.to_vec());
    let text = id.hex();
    assert_eq!(text.len(), 64);
    assert_eq!(ObjectId::from_hex(&text).unwrap(), id);
    assert!(ObjectId::from_hex("abc").is_err());
}

#[test]
fn only_the_lead_writes_and_refs_are_plain_names() {
    assert_eq!(check_write(1, 2, &["a".into()]), Err(WorkplaceError::NotLead));
    assert!(matches!(check_write(1, 1, &[]), Err(WorkplaceError::Msg(m)) if m == "file path is empty"));
    assert!(check_write(1, 1, &["a".into()]).is_ok());
    assert!(validate_ref("feat_1-x").is_ok());
    assert!(validate_ref("a/b").is_err());
    assert!(validate_ref("..").is_err());
    assert!(validate_ref("").is_err());
    assert_eq!(workers_file().last().map(|s| s.as_str()), Some("workers.wp"));
}

#[test]
fn bash_report_caps_and_lists_parts() {
    assert_eq!(cap_bytes(b"hello", 3), ("hel".to_string(), true));
    assert_eq!(cap_bytes(b"hi", 3), ("hi".to_string(), false));
    assert_eq!(report(true, Some(0), b"out", b"", 100), "out");
    assert_eq!(report(false, Some(2), b"", b"bad", 100), "exit 2\n[stderr]\nbad");
    assert_eq!(report(false, None, b"abcdef", b"", 3), "exit -1\nabc\n[stdout truncated]");
    assert_eq!(timed_out(5), "timed out after 5s; process killed");
    assert_eq!(command_of(Some("ls")), Ok("ls"));
    assert!(command_of(None).is_err());
    assert_eq!(Bash::default().timeout_secs(), 120);
    assert_eq!(Bash::with_timeout(Duration::from_secs(3)).timeout_secs(), 3);
}

fn state() -> AgentState {
    AgentState { messages: vec![] }
}

#[test]
fn a_reply_without_calls_ends_the_loop() {
    let s = record_reply(state(), &Assistant { content: "done".into(), tool_calls: vec![] });
    assert!(last_is_final_assistant(&s));
    assert_eq!(last_assistant_text(&s), "done");
    assert!(!last_is_final_assistant(&state()));
    assert_eq!(last_assistant_text(&state()), "");
}

#[test]
fn a_reply_with_calls_waits_for_their_answers() {
    let call = ToolCall { id: "c1".into(), name: "bash".into(), arguments: "{}".into() };
    let s = record_reply(state(), &Assistant { content: String::new(), tool_calls: vec![call] });
    assert!(!last_is_final_assistant(&s));
    assert!(s.messages[0].content.is_none());
    assert_eq!(s.messages[0].tool_calls.as_ref().unwrap()[0].type_, "function");
    let s = record_tool_reply(s, ToolMessage { tool_call_id: "c1".into(), content: "ok".into() });
    assert!(!last_is_final_assistant(&s));
    assert_eq!(s.messages[1].role, "tool");
    assert_eq!(s.messages[1].tool_call_id.as_deref(), Some("c1"));
    assert_eq!(last_assistant_text(&s), "");
}

#[test]
fn model_endpoint_settings_and_replies() {
    assert_eq!(completions_url("https://x.test/v1//"), "https://x.test/v1/chat/completions");
    assert_eq!(completions_url("https://x.test/v1"), "https://x.test/v1/chat/completions");
    assert_eq!(pick_setting(Some("env".into()), Some("file".into()), "model"), Ok("env".to_string()));
    assert_eq!(pick_setting(None, Some("file".into()), "model"), Ok("file".to_string()));
    assert_eq!(pick_setting(None, None, "model"), Err(ModelError::Missing("model".into())));
    let wire = |id: &str| WireToolCall {
        id: id.into(),
        type_: "function".into(),
        function: WireFunction { name: "bash".into(), arguments: "{}".into() },
    };
    let a = assistant_of(None, vec![wire("c1"), wire("")], vec!["f1".into(), "f2".into()]);
    assert_eq!(a.content, "");
    assert_eq!(a.tool_calls.len(), 2);
    assert_eq!(a.tool_calls[0].id, "c1");
    assert_eq!(a.tool_calls[1].id, "f2");
    assert_eq!(a.tool_calls[1].name, "bash");
}

#[test]
fn the_loop_stops_when_idle_or_out_of_steps() {
    let idle = record_reply(state(), &Assistant { content: "done".into(), tool_calls: vec![] });
    assert_eq!(loop_verdict(&idle, 1, 3), LoopVerdict::Idle);
    assert_eq!(loop_verdict(&idle, 3, 3), LoopVerdict::Idle);
    let call = ToolCall { id: "c1".into(), name: "bash".into(), arguments: "{}".into() };
    let busy = record_reply(state(), &Assistant { content: String::new(), tool_calls: vec![call] });
    assert_eq!(loop_verdict(&busy, 1, 3), LoopVerdict::Again);
    assert_eq!(loop_verdict(&busy, 3, 3), LoopVerdict::Exceeded);
}

#[test]
fn seeded_is_reproducible() {
    let seed = [7u8; 32];
    let mut a = Entropy::seeded(seed);
    let mut b = Entropy::seeded(seed);
    assert_eq!(a.ulid(0), b.ulid(0));
    let mut c = Entropy::seeded(seed);
    assert_ne!(c.ulid(0), c.ulid(0));
}

#[test]
fn os_and_seeded_are_distinct_kinds() {
    assert!(matches!(Entropy::os(), Entropy::Os));
    assert!(matches!(Entropy::seeded([1; 32]), Entropy::Seeded { words: 0, .. }));
}

#[test]
fn seeded_entropy_reproduces_ids() {
    let seed = [3u8; 32];
    let mut a = Entropy::seeded(seed);
    let mut b = Entropy::seeded(seed);
    let ia = a.event_id(0);
    assert_eq!(ia, b.event_id(0));
    assert_eq!(ia.len(), 26);
    let u = Entropy::seeded(seed).ulid(1_700_000_000_000);
    assert_eq!((u >> 80) as u64, 1_700_000_000_000);
    let mut os = Entropy::os();
    let mut buf = [0u8; 16];
    os.fill(&mut buf);
    assert_eq!(os.event_id(5).len(), 26);
}

#[test]
fn an_event_that_does_not_validate_fails_the_scan_in_line_order() {
    let bytes = format!("{GOOD_LINE}\n{GOOD_LINE}\nnot-json\n");
    let lines = tape_lines(bytes.as_bytes());
    let parsed = vec![true, true, false];
    let mut bad = ev(1);
    bad.v = 2;
    let problems = vec![None, bad.validate().err(), None];
    assert_eq!(scan(&lines, &parsed, &problems), Scan::Invalid("memory event v must be 1".into()));
    let fine = vec![None, None, None];
    assert_eq!(scan(&lines, &parsed, &fine), Scan::Corrupt(3));
}

#[test]
fn tree_objects_keep_names_in_order_and_hash_their_json() {
    let mut tree = Tree { entries: vec![] };
    assert_eq!(tree.payload(), "{\"entries\":{}}");
    let blob = ObjectId::from_payload("blob", b"aaa");
    tree.insert("b.txt".into(), entry_for(ResourceKind::File, &blob));
    tree.insert("a".into(), TreeEntry { kind: ResourceKind::Tree, id: blob.hex() });
    tree.insert("b.txt".into(), entry_for(ResourceKind::File, &blob));
    let names: Vec<&str> = tree.entries.iter().map(|e| e.0.as_str()).collect();
    assert_eq!(names, vec!["a", "b.txt"]);
    let want = format!(
        "{{\"entries\":{{\"a\":{{\"kind\":\"tree\",\"id\":\"{h}\"}},\"b.txt\":{{\"kind\":\"file\",\"id\":\"{h}\"}}}}}}",
        h = blob.hex()
    );
    assert_eq!(tree.payload(), want);
    let parsed: serde_json::Value = serde_json::from_str(&tree.payload()).unwrap();
    assert_eq!(parsed["entries"]["b.txt"]["kind"], "file");
    assert_eq!(tree.get("a").map(|e| e.kind), Some(ResourceKind::Tree));
    assert!(tree.get("zz").is_none());
    assert!(matches!(lookup_step(&tree, "zz", true), Ok(Step::Missing)));
    assert!(matches!(lookup_step(&tree, "b.txt", true), Ok(Step::Found(id)) if id == blob));
    assert!(matches!(lookup_step(&tree, "b.txt", false), Err(WorkplaceError::Msg(m)) if m == "path prefix is not a tree"));
    assert!(matches!(lookup_step(&tree, "a", false), Ok(Step::Descend(id)) if id == blob));
    assert!(matches!(nest_step(&tree, "b.txt"), Err(WorkplaceError::Msg(m)) if m == "cannot nest under a file"));
    assert_eq!(nest_step(&tree, "new").unwrap(), None);
}

#[test]
fn stored_agent_id_reads_a_trimmed_uuid() {
    let id = stored_agent_id("aaaaaaaa-aaaa-aaaa-aaaa-aaaaaaaaaaaa\n").unwrap();
    assert_eq!(id, 0xaaaaaaaa_aaaa_aaaa_aaaa_aaaaaaaaaaaa);
    assert_eq!(stored_agent_id("  aaaaaaaa-aaaa-aaaa-aaaa-aaaaaaaaaaaa  "), Some(id));
    assert_eq!(stored_agent_id("garbage"), None);
    assert_eq!(stored_agent_id(""), None);
}

fn sample_card() -> AgentCard {
    AgentCard {
        v: 1,
        id: 0xaaaaaaaa_aaaa_aaaa_aaaa_aaaaaaaaaaaa,
        model: ModelSpec {
            base_url: "https://api.deepseek.com".into(),
            model: "deepseek-v4-flash".into(),
            extra_body: None,
        },
        prompt: "You are a helpful assistant.".into(),
        tools: vec![ToolGrant { name: "bash".into(), tag: ToolTag::none() }],
        topology: Topology::Leaf,
        kernel: "0.1.0".into(),
        supersedes: None,
    }
}

#[test]
fn same_card_same_hash_and_round_trip() {
    let a = sample_card();
    let b = sample_card();
    assert_eq!(a.hash(), b.hash());
    let json = a.to_json();
    assert_eq!(
        json,
        "{\"v\":1,\"id\":\"aaaaaaaa-aaaa-aaaa-aaaa-aaaaaaaaaaaa\",\"model\":{\"base_url\":\"https://api.deepseek.com\",\"model\":\"deepseek-v4-flash\"},\"prompt\":\"You are a helpful assistant.\",\"tools\":[{\"name\":\"bash\",\"tag\":{\"file\":{\"op\":\"none\"},\"permit\":\"go\",\"memory\":{\"op\":\"ignore\"}}}],\"topology\":{\"type\":\"leaf\"},\"kernel\":\"0.1.0\"}"
    );
    let v: serde_json::Value = serde_json::from_str(&json).unwrap();
    assert_eq!(v["tools"][0]["tag"]["permit"], "go");
    assert_eq!(a.hash(), format!("{:x}", sha2::Sha256::digest(json.as_bytes())));
}

#[test]
fn any_field_change_changes_hash() {
    let base = sample_card();
    let mut renamed = sample_card();
    renamed.prompt = "other".into();
    assert_ne!(renamed.hash(), base.hash());
    let mut successor = sample_card();
    successor.supersedes = Some(base.hash());
    assert_ne!(successor.hash(), base.hash());
    assert!(successor.to_json().ends_with(&format!(",\"supersedes\":\"{}\"}}", base.hash())));
    let mut faced = sample_card();
    faced.tools[0].tag = ToolTag::read("/src".into());
    faced.model.extra_body = Some("{\"temperature\":0}".into());
    let v: serde_json::Value = serde_json::from_str(&faced.to_json()).unwrap();
    assert_eq!(v["tools"][0]["tag"]["file"]["op"], "r");
    assert_eq!(v["tools"][0]["tag"]["file"]["recursive"], false);
    assert_eq!(v["model"]["extra_body"]["temperature"], 0);
    assert_ne!(faced.hash(), base.hash());
}

#[test]
fn a_lineage_walk_ends_unless_edges_close_a_cycle() {
    let a = "a".repeat(64);
    let b = "b".repeat(64);
    let chain = vec![CardLink { hash: a.clone(), supersedes: None }, CardLink { hash: b.clone(), supersedes: Some(a.clone()) }];
    assert!(lineage_ends(&Some(b.clone()), &chain));
    assert!(lineage_ends(&None, &chain));
    let ring = vec![CardLink { hash: a.clone(), supersedes: Some(b.clone()) }, CardLink { hash: b.clone(), supersedes: Some(a.clone()) }];
    assert!(!lineage_ends(&Some(a), &ring));
}

#[test]
fn agent_binds_only_to_its_own_session() {
    let c = card(ToolTag::none());
    let rt = build(&c, "hash-1").unwrap();
    let agent = Agent::from_runtime(rt, 0x5, c.id).unwrap();
    assert_eq!(agent.id, c.id);
    assert_eq!(agent.id_str, "aaaaaaaa-aaaa-aaaa-aaaa-aaaaaaaaaaaa");
    assert_eq!(agent.card_hash, "hash-1");
    assert_eq!(agent.prompt, "test prompt");
    assert_eq!(agent.session, 0x5);
    let other = build(&c, "hash-1").unwrap();
    assert_eq!(
        Agent::from_runtime(other, 0x5, 0xb).err(),
        Some(AgentError::SessionMismatch { expected: c.id, found: 0xb })
    );
    let bad = RuntimePlan { card_hash: "h".into(), agent_id: "not-a-uuid".into(), prompt: String::new(), grants: Vec::new() };
    assert_eq!(Agent::from_runtime(bad, 0x5, c.id).err(), Some(AgentError::AgentId("not-a-uuid".into())));
}

#[test]
fn a_card_becomes_a_live_agent_unless_its_build_fails() {
    let c = card(ToolTag::none());
    let agent = Agent::for_card(&c, 0x7).unwrap();
    assert_eq!(agent.id, c.id);
    assert_eq!(agent.session, 0x7);
    assert_eq!(agent.card_hash, c.hash());
    assert_eq!(agent.grants.len(), 1);
    let mut bad = card(ToolTag::none());
    bad.tools[0].name = "nope".into();
    assert_eq!(
        Agent::for_card(&bad, 0x7).err(),
        Some(InstanceError::Factory(FactoryError::UnknownTool("nope".into())))
    );
}

#[test]
fn sequence_numbers_advance_only_after_a_durable_write() {
    assert_eq!(seq_after(&[]), Some(1));
    assert_eq!(seq_after(&[ev(7)]), Some(8));
    assert_eq!(seq_after(&[ev(u64::MAX)]), None);
    assert_eq!(seq_after_write(8, true), Some(9));
    assert_eq!(seq_after_write(8, false), None);
    assert_eq!(seq_after_write(u64::MAX, true), None);
}

#[test]
fn a_seeded_source_gives_the_stream_of_std_rng() {
    let seed = [9u8; 32];
    let mut rng = rand::rngs::StdRng::from_seed(seed);
    let mut source = Entropy::seeded(seed);
    for len in [10usize, 10, 3, 16, 1, 7, 64, 10] {
        let mut want = vec![0u8; len];
        rng.fill_bytes(&mut want);
        let mut got = vec![0u8; len];
        source.fill(&mut got);
        assert_eq!(got, want);
    }
    let mut rng = rand::rngs::StdRng::from_seed(seed);
    let mut source = Entropy::seeded(seed);
    let mut ten = [0u8; 10];
    rng.fill_bytes(&mut ten);
    let random = ten.iter().fold(0u128, |acc, b| acc * 256 + *b as u128);
    assert_eq!(source.ulid(42), (42u128 << 80) | random);
    let mut sixteen = [0u8; 16];
    rng.fill_bytes(&mut sixteen);
    assert_eq!(source.uuid_v4(), uuid::Builder::from_random_bytes(sixteen).into_uuid().as_u128());
    assert_eq!(ulid_of(42, ten), (42u128 << 80) | random);
}
