use sha2::Digest;
use an_agent::act::sentence::{ActSentence, BareFile, Ingest};
use an_agent::act::tag::{Permit, ToolTag};
use an_agent::instance::context::{
    assemble, cut_body, cut_event, cut_if_long, cut_name, cut_of, parse_md, rebuild_index, record_summary, uncompressed,
    AssembleMode, ContextError, Segment,
};
use an_agent::instance::pool::{Pool, PoolError};
use an_agent::instance::recover::{projection_content, recover, RecoverError};
use an_agent::instance::steward::{
    arrival, bound_is_fileless, cancel_check, deny_world_grants, link_record, mail_record, pop_intent, release_record,
    restore_from_events, restore_seats, seat_line as line_of_event, signal_records, view_record, Arrival, Intent, ProductPtr, SeatLine,
    StewardError,
};
use an_agent::instance::subwp::{read_blob, tombstone_record, write_record, SubWpError};
use an_agent::instance::tree::{Tree, TreeError};
use an_agent::instance::wp::SubLine;
use an_agent::act::tag::FileFacet;
use an_agent::memstream::event::{FromKind, Kind, Memevent};
use an_agent::memstream::tape::stamp;
use an_agent::principal::card::{AgentCard, ModelSpec, ToolGrant, Topology};

const A: u128 = 0xaaaaaaaa_aaaa_aaaa_aaaa_aaaaaaaaaaaa;
const B: u128 = 0xbbbbbbbb_bbbb_bbbb_bbbb_bbbbbbbbbbbb;
const C: u128 = 0xcccccccc_cccc_cccc_cccc_cccccccccccc;
const D: u128 = 0xdddddddd_dddd_dddd_dddd_dddddddddddd;

fn ev(id: &str, seq: u64, content: &str, tags: &[&str]) -> Memevent {
    Memevent {
        v: 1,
        id: id.into(),
        seq,
        ts: "1970-01-01T00:00:00.000Z".into(),
        from: "aaaaaaaa-aaaa-aaaa-aaaa-aaaaaaaaaaaa".into(),
        from_kind: FromKind::Agent,
        kind: Kind::Utterance,
        session: Some("s1".into()),
        content: content.into(),
        tags: tags.iter().map(|t| t.to_string()).collect(),
        refs: vec![],
        act: None,
    }
}

/// A fresh session tape: the three projections, as the steward notes them.
fn session() -> Vec<Memevent> {
    vec![
        ev("e1", 1, "card-hash", &["prompt"]),
        ev("e2", 2, "{\"k\":1}", &["config"]),
        ev("e3", 3, "[\"c0\"]", &["context"]),
    ]
}

/// Records a summary and freezes the uncompressed tail into a cut, as the
/// session would: the summary event, then the compress event. Gives the
/// cut's file name and body.
fn summarize(events: &mut Vec<Memevent>, text: &str) -> (String, String) {
    let n = events.len() as u64;
    let sum = record_summary(events, text).unwrap();
    events.push(stamp(sum, format!("e{}", n + 1), n + 1, "t".into()));
    let cut = cut_of(events).unwrap();
    events.push(stamp(cut.event, format!("e{}", n + 2), n + 2, "t".into()));
    (cut.name, cut.body)
}

trait ToVecEvents {
    fn to_vec_events(&self) -> Vec<Memevent>;
}

impl ToVecEvents for [Memevent] {
    fn to_vec_events(&self) -> Vec<Memevent> {
        self.iter()
            .map(|e| ev(&e.id, e.seq, &e.content, &e.tags.iter().map(|t| t.as_str()).collect::<Vec<_>>()))
            .collect()
    }
}

fn segments(name: &str, body: &str) -> Vec<Segment> {
    parse_md(body, name)
        .unwrap()
        .into_iter()
        .map(|s| {
            let v: serde_json::Value = serde_json::from_str(&s.sources).unwrap();
            let sources = v
                .as_array()
                .unwrap()
                .iter()
                .map(|x| x["event_id"].as_str().unwrap().to_string())
                .collect();
            Segment { id: s.id, text: s.text, sources }
        })
        .collect()
}

#[test]
fn tree_mount_drop_and_parent_cascade() {
    let mut tree = Tree::new();
    tree.mount(A, None).unwrap();
    tree.mount(B, Some(A)).unwrap();
    assert_eq!(tree.len(), 2);
    assert_eq!(tree.children(A).unwrap(), vec![B]);
    assert!(tree.remove(A));
    assert!(tree.is_empty());
    assert!(tree.index_of(B).is_none());
}

#[test]
fn tree_refuses_duplicates_and_orphans_and_lists_descendants() {
    let mut tree = Tree::new();
    tree.mount(A, None).unwrap();
    assert_eq!(tree.mount(A, None), Err(TreeError::Duplicate(A)));
    assert_eq!(tree.mount(B, Some(C)), Err(TreeError::UnknownParent(C)));
    tree.mount(C, Some(A)).unwrap();
    tree.mount(B, Some(A)).unwrap();
    tree.mount(D, Some(B)).unwrap();
    assert_eq!(tree.children(A).unwrap(), vec![B, C]);
    assert_eq!(tree.parent(D), Ok(Some(B)));
    assert_eq!(tree.parent(A), Ok(None));
    assert_eq!(tree.descendants(A).unwrap(), vec![A, B, C, D]);
    assert_eq!(tree.descendants(B).unwrap(), vec![B, D]);
    assert_eq!(tree.descendants(0x1), Err(TreeError::NotFound(0x1)));
    assert!(tree.remove(B));
    assert_eq!(tree.len(), 2);
    assert!(!tree.remove(D));
}

#[test]
fn pool_bounds_turns() {
    let mut pool = Pool::new(1).unwrap();
    pool.begin_turn(A, true).unwrap();
    assert!(matches!(pool.begin_turn(A, true), Err(PoolError::Busy(_))));
    assert!(matches!(pool.begin_turn(B, true), Err(PoolError::AtCapacity(1))));
    pool.end_turn(A);
    pool.begin_turn(B, true).unwrap();
    assert!(pool.is_running(B));
    assert_eq!(pool.running(), 1);
}

#[test]
fn pool_needs_a_slot_and_a_mounted_agent() {
    assert!(matches!(Pool::new(0), Err(PoolError::ZeroLimit)));
    let mut pool = Pool::new(2).unwrap();
    assert_eq!(pool.limit(), 2);
    assert_eq!(pool.begin_turn(C, false), Err(PoolError::NotMounted(C)));
    assert_eq!(pool.running(), 0);
    pool.end_turn(C);
    assert_eq!(pool.running(), 0);
}

#[test]
fn summary_cites_events_and_second_cut_keeps_the_first_file() {
    let mut events = session();
    events.push(ev("e4", 4, "saw the bug", &[]));
    let (first, first_body) = summarize(&mut events, "user summary one");
    let segs = segments(&first, &first_body);
    assert_eq!(segs.len(), 5);
    assert!(first_body.contains("\"contribution\":1.0"));
    assert!(segs.iter().any(|s| s.sources == vec!["e4".to_string()]));
    events.push(ev("e7", 7, "later", &[]));
    let (second, second_body) = summarize(&mut events, "user summary two");
    assert_ne!(first, second);
    assert!(!second_body.contains("saw the bug"));
    assert!(second_body.contains("later"));
    assert!(first_body.contains("saw the bug"));
}

#[test]
fn continue_takes_recent_and_hot_and_bumps_weak_count() {
    let mut events = session();
    events.push(ev("e4", 4, "fact", &[]));
    let (name, body) = summarize(&mut events, "sum");
    events.push(ev("e7", 7, "tail", &[]));
    let segs = segments(&name, &body);
    let rows = rebuild_index(&events, &segs);
    let (got, out) = assemble("card-hash".into(), "{\"k\":1}".into(), AssembleMode::Continue, &events, rows, &segs, 10_000);
    assert!(got.context.iter().any(|p| p.kind == "recent" && p.text == "tail"));
    assert!(got.context.iter().any(|p| p.kind == "hot"));
    assert_eq!(got.prompt, "card-hash");
    let rows = out.unwrap();
    assert!(rows.iter().any(|r| r.weak >= 1));
    assert!(rows.iter().any(|r| r.event_id == "e7" && r.weak == 1));
}

#[test]
fn length_cut_freezes_a_long_tail() {
    let mut events = session();
    events.push(ev("e4", 4, &"x".repeat(40), &[]));
    assert!(cut_if_long(&events, 20));
    let cut = cut_of(&events).unwrap();
    let span: Vec<Memevent> = uncompressed(&events).to_vec_events();
    assert_eq!(cut.body, cut_body(&span));
    assert_eq!((cut.sha.clone(), cut.name.clone()), cut_name(&cut.body));
    assert_eq!(cut.sha.len(), 64);
    assert_eq!(cut.event.refs, vec!["e1", "e2", "e3", "e4"]);
    assert_eq!(cut.event.tags, vec!["compress"]);
    assert_eq!(cut.event.content, cut_event(events.last().unwrap(), &span, &cut.sha).content);
    events.push(stamp(cut.event, "e5".into(), 5, "t".into()));
    assert!(!cut_if_long(&events, 20));
    assert!(matches!(cut_of(&events), Err(ContextError::Empty)));
    assert!(!cut_if_long(&events[..4], 1000));
}

#[test]
fn independent_task_has_no_context() {
    let mut events = session();
    summarize(&mut events, "sum");
    let (got, out) = assemble("card-hash".into(), "{\"k\":1}".into(), AssembleMode::Independent, &events, vec![], &[], 10_000);
    assert!(got.context.is_empty());
    assert_eq!(got.config, "{\"k\":1}");
    assert!(!got.prompt.is_empty());
    assert!(out.is_none());
}

#[test]
fn rebuild_restores_citations_after_the_sidecar_is_removed() {
    let mut events = session();
    events.push(ev("e4", 4, "kept", &[]));
    let (name, body) = summarize(&mut events, "sum");
    let segs = segments(&name, &body);
    let rows = rebuild_index(&events, &segs);
    assert_eq!(rows.len(), events.len());
    for s in &segs {
        for id in &s.sources {
            assert!(rows.iter().any(|r| &r.event_id == id && r.segment.as_deref() == Some(s.id.as_str())));
        }
    }
    assert!(rows.iter().all(|r| r.weak == 0));
}

#[test]
fn summary_needs_an_anchor_and_cuts_need_sources() {
    assert!(matches!(record_summary(&[], "x"), Err(ContextError::Empty)));
    assert!(matches!(parse_md("# cut\n\n## s0\nno sources here\n", "f.md"), Err(ContextError::BadMd)));
}

#[test]
fn rebuilds_absent_projections_from_tape() {
    let events = session();
    let (writes, err) = recover(&events, false, false, false);
    assert!(err.is_none());
    assert_eq!(
        writes,
        vec![("prompt", "card-hash".to_string()), ("config", "{\"k\":1}".to_string()), ("context", "[\"c0\"]".to_string())]
    );
    let (writes, err) = recover(&events, true, false, true);
    assert!(err.is_none());
    assert_eq!(writes, vec![("config", "{\"k\":1}".to_string())]);
}

#[test]
fn missing_card_hash_event_fails_closed() {
    let (writes, err) = recover(&[], false, false, false);
    assert!(writes.is_empty());
    assert!(matches!(err, Some(RecoverError::Missing("prompt"))));
    let empty_prompt = vec![ev("e1", 1, "", &["prompt"])];
    assert_eq!(projection_content(&empty_prompt, "prompt"), Err(RecoverError::Missing("prompt")));
}

fn seat_line(from: u128, worker: u128, parent: Option<u128>, lite: bool) -> SeatLine {
    SeatLine {
        from: uuid::Uuid::from_u128(from).to_string(),
        spawn: true,
        worker: Some(uuid::Uuid::from_u128(worker).to_string()),
        parent: parent.map(|p| uuid::Uuid::from_u128(p).to_string()),
        seat: Some(if lite { "lite" } else { "worker" }.into()),
        subwp: if lite { None } else { Some(format!("sub-{worker:x}")) },
        release: false,
        release_id: None,
        cancel: false,
        cancel_to: None,
    }
}

fn cancel_line(from: u128, to: u128) -> SeatLine {
    SeatLine {
        from: uuid::Uuid::from_u128(from).to_string(),
        spawn: false,
        worker: None,
        parent: None,
        seat: None,
        subwp: None,
        release: false,
        release_id: None,
        cancel: true,
        cancel_to: Some(uuid::Uuid::from_u128(to).to_string()),
    }
}

#[test]
fn cancel_propagates_down_and_restore_skips_broken_chains() {
    let lines = vec![
        seat_line(A, B, Some(A), true),
        seat_line(A, C, Some(A), false),
        seat_line(A, D, Some(C), false),
        cancel_line(A, C),
    ];
    let restored = restore_seats(&lines).unwrap();
    assert!(restored.iter().any(|seat| seat.id == B && seat.lite && seat.subwp.is_none()));
    assert!(restored.iter().all(|seat| seat.id != C && seat.id != D));
}

#[test]
fn restore_orders_seats_and_drops_orphans() {
    let lines = vec![
        seat_line(A, C, Some(A), false),
        seat_line(A, B, Some(A), false),
        seat_line(A, D, Some(0x77), false),
    ];
    let restored = restore_seats(&lines).unwrap();
    let ids: Vec<u128> = restored.iter().map(|s| s.id).collect();
    assert_eq!(ids, vec![B, C]);
    assert!(restore_seats(&[]).unwrap().is_empty());
    let mut bad = seat_line(A, B, None, false);
    bad.worker = Some("nope".into());
    assert_eq!(restore_seats(&[bad]).err(), Some(StewardError::NotMounted(A)));
}

fn card(permit: Permit) -> AgentCard {
    AgentCard {
        v: 1,
        id: A,
        model: ModelSpec { base_url: "https://example.com".into(), model: "m".into(), extra_body: None },
        prompt: "p".into(),
        tools: vec![ToolGrant { name: "bash".into(), tag: ToolTag::none_permit(permit) }],
        topology: Topology::Leaf,
        kernel: "0.1.0".into(),
        supersedes: None,
    }
}

#[test]
fn go_grant_cannot_open_a_steward() {
    assert_eq!(deny_world_grants(&card(Permit::Go)), Err(StewardError::GrantNotDenied("bash".into())));
    assert_eq!(deny_world_grants(&card(Permit::Forbidden)), Ok(()));
}

#[test]
fn lite_bounds_touch_no_files_and_mail_steers_a_running_worker() {
    assert!(bound_is_fileless(&ActSentence::bare(Permit::Go, BareFile::Nothing, Ingest::Ignore)));
    assert!(!bound_is_fileless(&ActSentence::bare(Permit::Go, BareFile::Unbounded, Ingest::Ignore)));
    assert!(bound_is_fileless(&ActSentence::forget(Permit::Go, "r1".into())));
    assert_eq!(arrival(true), Arrival::Steered);
    assert_eq!(arrival(false), Arrival::Queued);
}

#[test]
fn only_the_steward_spawns_and_queue_steers() {
    let mut tree = Tree::new();
    tree.mount(A, None).unwrap();
    tree.mount(B, Some(A)).unwrap();
    assert_eq!(tree.parent(B), Ok(Some(A)));
    let mut pool = Pool::new(1).unwrap();
    let mut queue: Vec<Intent> = Vec::new();
    assert_eq!(arrival(pool.is_running(B)), Arrival::Queued);
    queue.push(Intent { worker: B, text: "later".into() });
    pool.begin_turn(B, tree.index_of(B).is_some()).unwrap();
    assert_eq!(arrival(pool.is_running(B)), Arrival::Steered);
    assert_eq!(pop_intent(pool.running(), &mut queue), Err(StewardError::Busy));
    assert_eq!(queue.len(), 1);
    pool.end_turn(B);
    let intent = pop_intent(pool.running(), &mut queue).unwrap();
    assert_eq!(intent.text, "later");
    assert_eq!(pop_intent(pool.running(), &mut queue), Err(StewardError::Empty));
}

#[test]
fn signals_follow_the_charter_and_only_parent_cancels() {
    let mut tree = Tree::new();
    tree.mount(A, None).unwrap();
    tree.mount(B, Some(A)).unwrap();
    tree.mount(C, Some(A)).unwrap();
    assert_eq!(cancel_check(tree.parent(B).unwrap(), A), Ok(()));
    assert_eq!(cancel_check(tree.parent(B).unwrap(), C), Err(StewardError::SignalDenied("cancel")));
    assert_eq!(cancel_check(tree.parent(A).unwrap(), B), Err(StewardError::SignalDenied("cancel")));
}

#[test]
fn leases_watch_every_seat_up_to_the_steward() {
    let mut tree = Tree::new();
    tree.mount(A, None).unwrap();
    tree.mount(B, Some(A)).unwrap();
    tree.mount(C, Some(A)).unwrap();
    tree.mount(D, Some(C)).unwrap();
    assert_eq!(tree.ancestry(D).unwrap(), vec![D, C, A]);
    assert_eq!(tree.ancestry(B).unwrap(), vec![B, A]);
    assert_eq!(tree.ancestry(A).unwrap(), vec![A]);
    assert_eq!(tree.ancestry(0x5), Err(TreeError::NotFound(0x5)));
    let cancelled = tree.descendants(C).unwrap();
    for id in [A, B, C, D] {
        let watched = tree.ancestry(id).unwrap();
        assert_eq!(watched.iter().any(|x| *x == C), cancelled.contains(&id));
    }
}

#[test]
fn collect_records_pointers_not_bodies() {
    let p = ProductPtr::from_tape_file("child-1".into(), b"tape bytes", Some("m".repeat(4)), None, None);
    assert_eq!(p.tape_sha256.len(), 64);
    let rec = link_record(&p);
    assert_eq!(
        rec,
        format!(
            "{{\"child_session\":\"child-1\",\"md_sha256\":\"mmmm\",\"subwp_sha256\":null,\"tape_sha256\":\"{}\",\"tree_id\":null}}",
            p.tape_sha256
        )
    );
    assert!(!rec.contains("tape bytes"));
}

#[test]
fn view_reads_linked_ids_only() {
    let rec = view_record("main", &["l1".to_string(), "l2".to_string()]);
    assert_eq!(rec, "{\"links\":[\"l1\",\"l2\"],\"name\":\"main\"}");
    assert_eq!(view_record("e", &[]), "{\"links\":[],\"name\":\"e\"}");
    let v: serde_json::Value = serde_json::from_str(&rec).unwrap();
    assert_eq!(v["links"][1], "l2");
}

#[test]
fn signals_and_mail_are_recorded_on_both_tapes() {
    let (sent, got) = signal_records(A, B, "done \"ok\"");
    assert_eq!(sent, "{\"text\":\"done \\\"ok\\\"\",\"to\":\"bbbbbbbb-bbbb-bbbb-bbbb-bbbbbbbbbbbb\"}");
    assert_eq!(got, "{\"from\":\"aaaaaaaa-aaaa-aaaa-aaaa-aaaaaaaaaaaa\",\"text\":\"done \\\"ok\\\"\"}");
    assert_eq!(mail_record("s2", "hi"), "{\"text\":\"hi\",\"to_session\":\"s2\"}");
    assert_eq!(release_record(C), "{\"id\":\"cccccccc-cccc-cccc-cccc-cccccccccccc\"}");
}

/// Reads a sub-workplace log line as the log reader does.
fn sub_line(line: &str) -> Result<SubLine, String> {
    let v: serde_json::Value = serde_json::from_str(line).map_err(|e| e.to_string())?;
    let text = |k: &str| v[k].as_str().map(str::to_string);
    Ok(SubLine { op: text("op"), path: text("path"), true_name: text("true_name"), version: v["version"].as_u64(), sha256: text("sha256") })
}

fn face_rw() -> FileFacet {
    FileFacet::ReadWrite { path: "src".into(), recursive: true }
}

#[test]
fn append_tombstone_keeps_old_bytes_and_links_hash() {
    let mut log: Vec<Result<SubLine, String>> = Vec::new();
    let mut blobs: Vec<(String, Vec<u8>)> = Vec::new();
    let (first, line) = write_record("src/a.txt", b"v1", Permit::Go, &face_rw()).unwrap();
    assert_eq!(line, format!("{{\"op\":\"write\",\"path\":\"src/a.txt\",\"sha256\":\"{first}\"}}"));
    blobs.push((first.clone(), b"v1".to_vec()));
    log.push(sub_line(&line));
    let (second, line) = write_record("src/a.txt", b"v2", Permit::Go, &face_rw()).unwrap();
    blobs.push((second.clone(), b"v2".to_vec()));
    log.push(sub_line(&line));
    let live = read_blob(&log, "src/a.txt", Permit::Go, &face_rw()).unwrap();
    assert_eq!(live, second);
    assert_eq!(blobs.iter().find(|b| b.0 == first).unwrap().1, b"v1");
    let line = tombstone_record("src/a.txt", Permit::Go, &face_rw()).unwrap();
    log.push(sub_line(&line));
    assert!(matches!(read_blob(&log, "src/a.txt", Permit::Go, &face_rw()), Err(SubWpError::NotFound(_))));
    assert!(matches!(write_record("src/a.txt", b"no", Permit::Forbidden, &face_rw()), Err(SubWpError::Denied)));
    assert!(matches!(write_record("../a", b"no", Permit::Go, &face_rw()), Err(SubWpError::BadPath(_))));
    assert!(matches!(read_blob(&log, "lib/x", Permit::Go, &face_rw()), Err(SubWpError::Denied)));
    let read_only = FileFacet::Read { path: "src".into(), recursive: false };
    assert!(matches!(tombstone_record("src/a.txt", Permit::Go, &read_only), Err(SubWpError::Denied)));
    assert_eq!(first, format!("{:x}", sha2::Sha256::digest(b"v1")));
}

#[test]
fn cancel_propagates_down_the_subtree_children_first() {
    let mut tree = Tree::new();
    tree.mount(A, None).unwrap();
    tree.mount(B, Some(A)).unwrap();
    tree.mount(C, Some(A)).unwrap();
    tree.mount(D, Some(C)).unwrap();
    assert_eq!(tree.cancel_edges(C).unwrap(), vec![(C, D), (A, C)]);
    assert_eq!(tree.cancel_edges(A).unwrap(), vec![(A, B), (C, D), (A, C)]);
    assert_eq!(tree.cancel_edges(D).unwrap(), vec![(C, D)]);
    assert_eq!(tree.cancel_edges(0x5), Err(TreeError::NotFound(0x5)));
}

#[test]
fn seats_are_restored_from_the_tape_records() {
    let b = "bbbbbbbb-bbbb-bbbb-bbbb-bbbbbbbbbbbb";
    let c = "cccccccc-cccc-cccc-cccc-cccccccccccc";
    let d = "dddddddd-dddd-dddd-dddd-dddddddddddd";
    let mut events = vec![
        ev("e1", 1, &format!(r#"{{"worker":"{b}","seat":"worker","subwp":"sub-b"}}"#), &["spawn"]),
        ev("e2", 2, &format!(r#"{{"worker":"{c}","parent":"{b}","seat":"lite"}}"#), &["spawn"]),
        ev("e3", 3, &format!(r#"{{"worker":"{d}","seat":"worker"}}"#), &["spawn"]),
    ];
    let line = line_of_event(&events[1]).unwrap();
    assert!(line.spawn && !line.release && !line.cancel);
    assert_eq!(line.parent.as_deref(), Some(b));
    assert_eq!(line.seat.as_deref(), Some("lite"));
    assert_eq!(line.subwp, None);
    let seats = restore_from_events(&events).unwrap();
    assert_eq!(seats.len(), 3);
    assert_eq!(seats[0].id, B);
    assert_eq!(seats[0].subwp.as_deref(), Some("sub-b"));
    assert!(seats[1].lite && seats[1].parent == B);
    events.push(ev("e4", 4, &format!(r#"{{"id":"{b}"}}"#), &["release"]));
    let seats = restore_from_events(&events).unwrap();
    assert_eq!(seats.len(), 1);
    assert_eq!(seats[0].id, D);
    let mut foreign = ev("e5", 5, "not json", &["spawn"]);
    foreign.from = "someone".into();
    events.push(foreign);
    assert_eq!(restore_from_events(&events).unwrap().len(), 1);
    events.push(ev("e6", 6, "not json", &["cancel"]));
    assert_eq!(line_of_event(&events[5]).err(), Some(StewardError::Json));
    assert_eq!(restore_from_events(&events), Err(StewardError::Json));
    let broken = vec![ev("e1", 1, r#"{"worker":"x"}"#, &["spawn"]), ev("e2", 2, "not json", &["spawn"])];
    assert_eq!(restore_from_events(&broken), Err(StewardError::NotMounted(A)));
}
