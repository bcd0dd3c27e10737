use an_agent::act::registry::{RegistryError, Tier, ToolRegistry};
use an_agent::act::sentence::{ActSentence, SentenceError};
use an_agent::act::tag::{FileFacet, MemoryFacet, Permit, ToolTag};
use an_agent::act::tool::{effect_event, intent_event, parse_args, plan_call, refuse, tag_of, tool_envelope, CallPlan, ToolCall};
use an_agent::memstream::event::Kind;
use an_agent::memstream::tape::stamp;
use an_agent::act::{effect_from_tag, ActKind};
use an_agent::workplace::resource::{Resource, ResourceKind};

struct Echo {
    name: &'static str,
}

fn file_res() -> Resource {
    let wp = uuid::Uuid::parse_str("aaaaaaaa-aaaa-aaaa-aaaa-aaaaaaaaaaaa").unwrap().as_u128();
    Resource::new(wp, ResourceKind::File, vec!["src".to_string(), "a.txt".to_string()])
}

#[test]
fn register_then_snapshot_contains_tool() {
    let mut reg: ToolRegistry<Echo> = ToolRegistry::new();
    reg.register("echo".to_string(), Tier::Builtin, Echo { name: "echo" }).unwrap();
    assert_eq!(reg.names(), vec!["echo".to_string()]);
    assert_eq!(reg.snapshot().len(), 1);
    assert_eq!(reg.tier_of("echo"), Some(Tier::Builtin));
    assert_eq!(reg.get("echo").unwrap().name, "echo");
}

#[test]
fn duplicate_name_is_rejected_not_shadowed() {
    let mut reg: ToolRegistry<Echo> = ToolRegistry::new();
    reg.register("echo".to_string(), Tier::Builtin, Echo { name: "echo" }).unwrap();
    assert!(matches!(
        reg.register("echo".to_string(), Tier::Script, Echo { name: "echo" }),
        Err(RegistryError::Duplicate(name)) if name == "echo"
    ));
    assert_eq!(reg.tier_of("echo"), Some(Tier::Builtin));
}

#[test]
fn drop_unregisters() {
    let mut reg: ToolRegistry<Echo> = ToolRegistry::new();
    reg.register("echo".to_string(), Tier::Builtin, Echo { name: "echo" }).unwrap();
    assert_eq!(reg.len(), 1);
    reg.unregister("echo");
    assert!(reg.is_empty());
    assert!(reg.get("echo").is_none());
}

#[test]
fn explicit_unregister_reports_presence_once() {
    let mut reg: ToolRegistry<Echo> = ToolRegistry::new();
    reg.register("echo".to_string(), Tier::Builtin, Echo { name: "echo" }).unwrap();
    assert!(reg.unregister("echo"));
    assert!(reg.is_empty());
    assert!(!reg.unregister("echo"));
}

#[test]
fn registry_names_come_out_sorted() {
    let mut reg: ToolRegistry<Echo> = ToolRegistry::new();
    reg.register("web".to_string(), Tier::External, Echo { name: "web" }).unwrap();
    reg.register("bash".to_string(), Tier::Builtin, Echo { name: "bash" }).unwrap();
    reg.register("lean".to_string(), Tier::Script, Echo { name: "lean" }).unwrap();
    assert_eq!(reg.names(), vec!["bash".to_string(), "lean".to_string(), "web".to_string()]);
    let order: Vec<&str> = reg.snapshot().iter().map(|e| e.name).collect();
    assert_eq!(order, vec!["bash", "lean", "web"]);
    assert!(reg.unregister("lean"));
    assert_eq!(reg.names(), vec!["bash".to_string(), "web".to_string()]);
    assert_eq!(reg.tier_of("web"), Some(Tier::External));
    assert!(Tier::Builtin < Tier::Script && Tier::Script < Tier::Wasm && Tier::Wasm < Tier::External);
}

#[test]
fn write_without_resource_is_rejected() {
    let err = ActSentence::from_seed(&ToolTag::write("/src/a.txt".to_string()), None).unwrap_err();
    assert_eq!(err, SentenceError::MissingResource);
}

#[test]
fn forget_cannot_be_unbounded_or_write() {
    let forget = ToolTag {
        file: FileFacet::Unbounded,
        permit: Permit::Go,
        memory: MemoryFacet::Forget { remember_id: "r1".into() },
    };
    assert_eq!(ActSentence::from_seed(&forget, None).unwrap_err(), SentenceError::ForgetWithFile);
    let forget_w = ToolTag {
        file: FileFacet::Write { path: "/x".into(), recursive: false },
        permit: Permit::Go,
        memory: MemoryFacet::Forget { remember_id: "r1".into() },
    };
    assert_eq!(
        ActSentence::from_seed(&forget_w, Some(file_res())).unwrap_err(),
        SentenceError::ForgetWithFile
    );
}

#[test]
fn unbounded_cannot_name_a_resource() {
    let err = ActSentence::from_seed(&ToolTag::unbounded(), Some(file_res())).unwrap_err();
    assert_eq!(err, SentenceError::UnboundedWithResource);
}

#[test]
fn valid_sentences_display() {
    let s = ActSentence::from_seed(&ToolTag::unbounded(), None).unwrap();
    assert_eq!(s.render(), "ask; unbounded; ignore");
    let s = ActSentence::from_seed(&ToolTag::write("/src/a.txt".to_string()), Some(file_res())).unwrap();
    assert!(s.render().contains("write "));
    assert!(s.render().contains("/file/src/a.txt"));
    let s = ActSentence::forget(Permit::Go, "rem-1".to_string());
    assert_eq!(s.render(), "go; forget rem-1");
}

#[test]
fn forget_with_resource_is_rejected() {
    let tag = ToolTag {
        file: FileFacet::Nothing,
        permit: Permit::Go,
        memory: MemoryFacet::Forget { remember_id: "r1".into() },
    };
    assert_eq!(ActSentence::from_seed(&tag, Some(file_res())).unwrap_err(), SentenceError::ForgetWithResource);
    assert_eq!(
        SentenceError::ForgetWithResource.message(),
        "forget does not take a resource"
    );
    let ok = ActSentence::from_seed(&tag, None).unwrap();
    assert_eq!(ok.render(), "go; forget r1");
}

#[test]
fn effect_of_a_tag_follows_its_file_face() {
    let none = effect_from_tag(&ToolTag::none(), None);
    assert!(!none.unbounded && none.reads.is_empty() && none.writes.is_empty());
    let read = effect_from_tag(&ToolTag::read("/src/a.ts".to_string()), Some("wp1".to_string()));
    assert_eq!(read.reads, vec!["/src/a.ts".to_string()]);
    assert!(read.writes.is_empty());
    assert_eq!(read.workplace, Some("wp1".to_string()));
    let rw = effect_from_tag(&ToolTag::read_write("/b".to_string()), None);
    assert_eq!(rw.reads, vec!["/b".to_string()]);
    assert_eq!(rw.writes, vec!["/b".to_string()]);
    assert!(effect_from_tag(&ToolTag::unbounded(), None).unbounded);
    assert_eq!(effect_from_tag(&ToolTag::remember(), None).memory, "remember");
}

#[test]
fn act_kinds_have_their_names() {
    assert_eq!(ActKind::Utterance.as_str(), "utterance");
    assert_eq!(ActKind::Invoke.as_str(), "invoke");
    assert_eq!(ActKind::Forget.as_str(), "forget");
}

#[test]
fn forbidden_and_unknown_calls_are_answered_without_running() {
    let call = ToolCall { id: "c1".into(), name: "bash".into(), arguments: r#"{"command":"true"}"#.into() };
    let forbidden = ToolTag::none_permit(Permit::Forbidden);
    assert_eq!(refuse(&call, true, &forbidden), Some("forbidden".to_string()));
    assert!(matches!(plan_call(&call, true, &forbidden), CallPlan::Answer(_)));
    let go = ToolTag::none_permit(Permit::Go);
    assert_eq!(refuse(&call, true, &go), None);
    assert!(matches!(plan_call(&call, true, &go), CallPlan::Run(_)));
    assert!(refuse(&call, false, &go).is_some());
    assert_eq!(tag_of(None).file, FileFacet::Unbounded);
}

#[test]
fn tool_arguments_must_be_a_json_object() {
    assert_eq!(parse_args("not json"), Err("tool arguments are not valid JSON".to_string()));
    assert_eq!(parse_args("[1, 2]"), Err("tool arguments must be a JSON object".to_string()));
    assert_eq!(parse_args("null"), Err("tool arguments must be a JSON object".to_string()));
    let v = parse_args(r#"{"cmd": "ls"}"#).unwrap();
    assert_eq!(v["cmd"], "ls");
}

#[test]
fn the_effect_cites_its_intent_under_the_same_envelope() {
    let call = ToolCall { id: "c1".into(), name: "bash".into(), arguments: r#"{"command":"ls"}"#.into() };
    let tag = ToolTag::read("/srv".into());
    let env = tool_envelope(&call, tag.clone());
    let intent = intent_event("agent-1", "s1", &call, &env);
    assert_eq!(intent.kind, Kind::Action);
    assert_eq!(intent.content, r#"bash {"command":"ls"}"#);
    assert!(intent.refs.is_empty());
    let act = intent.act.as_ref().unwrap();
    assert_eq!(act.kind, "invoke");
    assert_eq!(act.tool.as_deref(), Some("bash"));
    assert!(act.effect.is_none());
    let action = stamp(intent, "a1".into(), 1, "t".into());
    let effect = effect_event("agent-1", "s1", &env, &Some(action), "out".into());
    assert_eq!(effect.kind, Kind::Observation);
    assert_eq!(effect.refs, vec!["a1"]);
    assert_eq!(effect.content, "out");
    let e = effect.act.unwrap().effect.unwrap();
    assert_eq!(e.reads, vec!["/srv"]);
    assert!(e.writes.is_empty());
    let untaped = effect_event("agent-1", "s1", &env, &None, "out".into());
    assert!(untaped.refs.is_empty());
}
