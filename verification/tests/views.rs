use an_agent::instance::wp::{
    close_plan, next_view_id, replay_mounts, resolve_plan, rollback_plan, tombstone_plan, write_plan, ClosePlan,
    DepEdge, FileRec, Resolve, SubLine, TreeLine, VerId, ViewRec, WpError, WriteMode,
};

struct Sub {
    log: Vec<SubLine>,
}

fn write(views: &[ViewRec], sub: &mut Sub, path: &str, bytes: &[u8], mode: WriteMode, minted: &str) -> Result<String, WpError> {
    let p = write_plan(views, &sub.log, "sub", false, path, bytes, mode, minted)?;
    sub.log.push(SubLine {
        op: Some("write".into()),
        path: Some(p.path.clone()),
        true_name: Some(p.true_name.clone()),
        version: Some(p.version as u64),
        sha256: Some(p.sha256.clone()),
    });
    Ok(p.true_name)
}

fn publish(views: &mut Vec<ViewRec>, files: Vec<FileRec>, edges: Vec<DepEdge>) -> String {
    let id = next_view_id(views);
    views.push(ViewRec { id: id.clone(), files, edges });
    id
}

/// Closes a sub-workplace: `Some(id)` of a published view, `None` when
/// nothing was written.
fn close(views: &mut Vec<ViewRec>, sub: &Sub, extra: Vec<DepEdge>) -> Result<ClosePlan, WpError> {
    let plan = close_plan(views.last(), &sub.log, &extra)?;
    if let ClosePlan::Publish(files) = &plan {
        let files: Vec<FileRec> = files.iter().map(|f| f.clone()).collect();
        publish(views, files, extra);
    }
    Ok(plan)
}

fn paths(views: &[ViewRec]) -> Vec<(String, String, u32)> {
    views
        .last()
        .map(|v| v.files.iter().map(|f| (f.path.clone(), f.true_name.clone(), f.version)).collect())
        .unwrap_or_default()
}

fn edge(a: &str, av: u32, b: &str, bv: u32) -> DepEdge {
    DepEdge {
        dependent: VerId { true_name: a.into(), version: av },
        depends_on: VerId { true_name: b.into(), version: bv },
    }
}

#[test]
fn continue_replaces_same_true_name_and_keeps_bytes() {
    let mut views = Vec::new();
    let mut s1 = Sub { log: Vec::new() };
    let name = write(&views, &mut s1, "src/a.txt", b"v1", WriteMode::Create, "tn-a").unwrap();
    assert!(matches!(close(&mut views, &s1, vec![]).unwrap(), ClosePlan::Publish(_)));
    let mut s2 = Sub { log: Vec::new() };
    let again = write(&views, &mut s2, "src/a.txt", b"v2", WriteMode::Continue { base: 1 }, "tn-x").unwrap();
    assert_eq!(again, name);
    close(&mut views, &s2, vec![]).unwrap();
    assert_eq!(paths(&views), vec![("src/a.txt".to_string(), name, 2)]);
    assert_eq!(views.len(), 2);
    assert_eq!(views[0].files[0].version, 1);
}

#[test]
fn continue_rejects_a_stale_base_without_writing() {
    let mut views = Vec::new();
    let mut s1 = Sub { log: Vec::new() };
    write(&views, &mut s1, "src/a.txt", b"v1", WriteMode::Create, "tn-a").unwrap();
    close(&mut views, &s1, vec![]).unwrap();
    let mut s2 = Sub { log: Vec::new() };
    let err = write(&views, &mut s2, "src/a.txt", b"v2", WriteMode::Continue { base: 9 }, "tn-x").unwrap_err();
    assert!(matches!(err, WpError::StaleBase { current: 1, base: 9, .. }));
    assert!(s2.log.is_empty());
}

#[test]
fn create_on_taken_path_asks_then_reject_or_rename() {
    let mut views = Vec::new();
    let mut s1 = Sub { log: Vec::new() };
    write(&views, &mut s1, "src/a.txt", b"old", WriteMode::Create, "tn-a").unwrap();
    close(&mut views, &s1, vec![]).unwrap();
    let mut s2 = Sub { log: Vec::new() };
    write(&views, &mut s2, "src/a.txt", b"new", WriteMode::Create, "tn-b").unwrap();
    let ClosePlan::Conflict(c) = close(&mut views, &s2, vec![]).unwrap() else {
        panic!("expected conflict");
    };
    assert_eq!(c.path, "src/a.txt");
    assert_eq!(c.existing, "tn-a");
    assert_eq!(c.incoming, "tn-b");
    assert_eq!(views.len(), 1);
    let files = resolve_plan(
        views.last(),
        &s2.log,
        &c,
        Resolve::Allow { true_name: c.incoming.clone(), path: "src/b.txt".into() },
    )
    .unwrap()
    .unwrap();
    publish(&mut views, files, vec![]);
    let now = paths(&views);
    assert!(now.iter().any(|p| p.0 == "src/a.txt"));
    assert!(now.iter().any(|p| p.0 == "src/b.txt" && p.1 == c.incoming));
    assert!(matches!(resolve_plan(views.last(), &s2.log, &c, Resolve::Reject), Ok(None)));
    assert_eq!(
        resolve_plan(views.last(), &s2.log, &c, Resolve::Allow { true_name: "tn-z".into(), path: "x".into() }),
        Err(WpError::BadChoice)
    );
}

#[test]
fn empty_close_publishes_nothing() {
    let mut views = Vec::new();
    let s = Sub { log: Vec::new() };
    assert!(matches!(close(&mut views, &s, vec![]).unwrap(), ClosePlan::Empty));
    assert!(paths(&views).is_empty());
}

#[test]
fn cyclic_extra_is_rejected() {
    let mut views = Vec::new();
    let mut s = Sub { log: Vec::new() };
    let a = write(&views, &mut s, "src/a.txt", b"a", WriteMode::Create, "tn-a").unwrap();
    let b = write(&views, &mut s, "src/b.txt", b"b", WriteMode::Create, "tn-b").unwrap();
    let err = close(&mut views, &s, vec![edge(&a, 1, &b, 1), edge(&b, 1, &a, 1)]);
    assert!(matches!(err, Err(WpError::Cycle)));
    assert!(views.is_empty());
    let missing = close(&mut views, &s, vec![edge(&a, 1, &b, 7)]);
    assert!(matches!(missing, Err(WpError::MissingDep)));
}

fn two_views() -> (Vec<ViewRec>, String, String) {
    let mut views = Vec::new();
    let mut s1 = Sub { log: Vec::new() };
    let a = write(&views, &mut s1, "src/a.txt", b"a1", WriteMode::Create, "tn-a").unwrap();
    close(&mut views, &s1, vec![]).unwrap();
    let mut s2 = Sub { log: Vec::new() };
    write(&views, &mut s2, "src/a.txt", b"a2", WriteMode::Continue { base: 1 }, "tn-x").unwrap();
    let b = write(&views, &mut s2, "src/b.txt", b"b1", WriteMode::Create, "tn-b").unwrap();
    close(&mut views, &s2, vec![edge(&b, 1, &a, 2)]).unwrap();
    (views, a, b)
}

#[test]
fn rollback_without_cascade_leaves_dependents() {
    let (mut views, a, b) = two_views();
    let (files, edges) = rollback_plan(&views, &a, 1, false).unwrap();
    publish(&mut views, files, edges);
    let quiet = paths(&views);
    assert!(quiet.iter().any(|p| p.1 == a && p.2 == 1));
    assert!(quiet.iter().any(|p| p.1 == b && p.2 == 1));
}

#[test]
fn rollback_can_cascade_and_keeps_prior_view() {
    let (mut views, a, b) = two_views();
    let before = paths(&views);
    let (files, edges) = rollback_plan(&views, &a, 1, true).unwrap();
    publish(&mut views, files, edges);
    let cascaded = paths(&views);
    assert!(cascaded.iter().any(|p| p.1 == a && p.2 == 1));
    assert!(!cascaded.iter().any(|p| p.1 == b), "dependent introduced with A@2 leaves the view");
    assert_eq!(views.len(), 3);
    let prior: Vec<(String, String, u32)> =
        views[1].files.iter().map(|f| (f.path.clone(), f.true_name.clone(), f.version)).collect();
    assert_eq!(prior, before);
}

#[test]
fn rollback_needs_a_view_and_a_known_version() {
    assert_eq!(rollback_plan(&[], "tn-a", 1, false), Err(WpError::NoView));
    let (views, a, _) = two_views();
    assert_eq!(
        rollback_plan(&views, &a, 5, false),
        Err(WpError::MissingVersion { true_name: a.clone(), version: 5 })
    );
}

#[test]
fn unclosed_subwp_is_not_the_view() {
    let views: Vec<ViewRec> = Vec::new();
    let mut s = Sub { log: Vec::new() };
    write(&views, &mut s, "src/a.txt", b"x", WriteMode::Create, "tn-a").unwrap();
    assert_eq!(s.log.len(), 1);
    assert!(paths(&views).is_empty());
}

#[test]
fn writes_refuse_bad_paths_and_pending_subworkplaces() {
    let views: Vec<ViewRec> = Vec::new();
    let log: Vec<SubLine> = Vec::new();
    assert!(matches!(
        write_plan(&views, &log, "sub", false, "../etc/passwd", b"x", WriteMode::Create, "tn"),
        Err(WpError::BadPath(_))
    ));
    assert_eq!(
        write_plan(&views, &log, "sub", true, "src/a.txt", b"x", WriteMode::Create, "tn").err(),
        Some(WpError::Pending("sub".into()))
    );
    assert_eq!(
        write_plan(&views, &log, "sub", false, "src/a.txt", b"x", WriteMode::Continue { base: 1 }, "tn").err(),
        Some(WpError::NoCurrent("src/a.txt".into()))
    );
    let ok = write_plan(&views, &log, "sub", false, "src/a.txt", b"abc", WriteMode::Create, "tn").unwrap();
    assert_eq!(ok.sha256, "ba7816bf8f01cfea414140de5dae2223b00361a396177a9cb410ff61f20015ad");
    assert_eq!(ok.version, 1);
    assert_eq!(tombstone_plan(&views, &log, "sub", false, "src/a.txt").err(), Some(WpError::NoCurrent("src/a.txt".into())));
}

#[test]
fn mount_log_replays_to_the_live_set() {
    let line = |op: &str, id: &str, worker: &str| TreeLine {
        op: Some(op.into()),
        id: Some(id.into()),
        worker: Some(worker.into()),
        session: Some(format!("/s/{id}")),
    };
    let lines = vec![
        line("mount", "w1", "aaaaaaaa-aaaa-aaaa-aaaa-aaaaaaaaaaaa"),
        line("mount", "w2", "bbbbbbbb-bbbb-bbbb-bbbb-bbbbbbbbbbbb"),
        line("unmount", "w1", ""),
        line("noise", "w9", ""),
    ];
    let live = replay_mounts(&lines).unwrap();
    assert_eq!(live.len(), 1);
    assert_eq!(live[0].id, "w2");
    assert_eq!(live[0].worker, 0xbbbbbbbb_bbbb_bbbb_bbbb_bbbbbbbbbbbb);
    assert_eq!(live[0].session, "/s/w2");
    let bad = vec![line("mount", "w1", "not-a-uuid")];
    assert_eq!(replay_mounts(&bad).err(), Some(WpError::NotRegistered("not-a-uuid".into())));
}
