//! Tool descriptor admission: a YAML document checked against the v1
//! schema, then validated strictly. Anything ambiguous is rejected.
use vstd::prelude::*;

use crate::act::tag::{FileFacet, FileFacetView, MemoryFacet, MemoryFacetView};
use crate::text::{blank, decimal, push_str, split, str_eq, string_of, strings_view};
use crate::tools::facet::{file_facet, memory_facet};
use crate::tools::yaml::{
    clean_field, entries_of, entry_key, field_of, find_field, find_index, first_entry_error, first_missing,
    all_digits, key_name, key_text, load_yaml, msg_field_type, msg_field_type_text, msg_missing,
    msg_missing_text, msg_not_mapping, msg_under, msg_under_text, opt_scalar_string,
    opt_scalar_text, opt_view, scalar_string, scalar_text, string_list, struct_error,
    text_list, u32_of, u32_value, yaml_document, Entries, YamlValue,
};

verus! {

#[derive(Debug, Clone, Copy, PartialEq, Eq, Structural)]
pub enum Net {
    Nothing,
    Egress,
}

#[derive(Debug, Clone, Copy, PartialEq, Eq, Structural)]
pub enum Proc {
    Nothing,
    Spawn,
}

/// A validated descriptor.
#[derive(Debug, Clone, PartialEq, Eq)]
pub struct Descriptor {
    pub name: String,
    pub version: String,
    pub summary: String,
    pub constructor: Constructor,
    pub effect: ToolEffect,
    pub requires: Vec<Require>,
}

#[derive(Debug, Clone, PartialEq, Eq)]
pub enum Constructor {
    Rhai { script: String },
    Mcp { command: Vec<String>, tool: String },
}

#[derive(Debug, Clone, PartialEq, Eq)]
pub struct ToolEffect {
    pub file: FileFacet,
    pub memory: MemoryFacet,
    pub net: Net,
    pub proc_: Proc,
}

#[derive(Debug, Clone, PartialEq, Eq)]
pub struct Require {
    pub name: String,
    pub version: String,
}

/// Why a descriptor was refused: the document does not fit the schema, or
/// a strictness rule rejects it.
#[derive(Debug, Clone, PartialEq, Eq)]
pub enum SpecError {
    Yaml(String),
    Invalid(String),
}

pub struct RequireView {
    pub name: Seq<char>,
    pub version: Seq<char>,
}

pub enum ConstructorView {
    Rhai { script: Seq<char> },
    Mcp { command: Seq<Seq<char>>, tool: Seq<char> },
}

pub struct ToolEffectView {
    pub file: FileFacetView,
    pub memory: MemoryFacetView,
    pub net: Net,
    pub proc_: Proc,
}

pub struct DescriptorView {
    pub name: Seq<char>,
    pub version: Seq<char>,
    pub summary: Seq<char>,
    pub constructor: ConstructorView,
    pub effect: ToolEffectView,
    pub requires: Seq<RequireView>,
}

pub enum SpecErrorView {
    Yaml(Seq<char>),
    Invalid(Seq<char>),
}

impl View for Require {
    type V = RequireView;

    open spec fn view(&self) -> RequireView {
        RequireView { name: self.name@, version: self.version@ }
    }
}

impl View for Constructor {
    type V = ConstructorView;

    open spec fn view(&self) -> ConstructorView {
        match *self {
            Constructor::Rhai { script } => ConstructorView::Rhai { script: script@ },
            Constructor::Mcp { command, tool } => ConstructorView::Mcp { command: strings_view(command@), tool: tool@ },
        }
    }
}

impl View for ToolEffect {
    type V = ToolEffectView;

    open spec fn view(&self) -> ToolEffectView {
        ToolEffectView { file: self.file@, memory: self.memory@, net: self.net, proc_: self.proc_ }
    }
}

pub open spec fn requires_view(v: Seq<Require>) -> Seq<RequireView> {
    v.map_values(|r: Require| r@)
}

impl View for Descriptor {
    type V = DescriptorView;

    open spec fn view(&self) -> DescriptorView {
        DescriptorView {
            name: self.name@,
            version: self.version@,
            summary: self.summary@,
            constructor: self.constructor@,
            effect: self.effect@,
            requires: requires_view(self.requires@),
        }
    }
}

impl View for SpecError {
    type V = SpecErrorView;

    open spec fn view(&self) -> SpecErrorView {
        match *self {
            SpecError::Yaml(m) => SpecErrorView::Yaml(m@),
            SpecError::Invalid(m) => SpecErrorView::Invalid(m@),
        }
    }
}

pub open spec fn spec_error_text(e: SpecErrorView) -> Seq<char> {
    match e {
        SpecErrorView::Yaml(m) => "yaml: "@ + m,
        SpecErrorView::Invalid(m) => m,
    }
}

impl SpecError {
    /// The error's display text: schema errors carry a `yaml: ` prefix.
    pub fn message(&self) -> (r: String)
        ensures
            r@ == spec_error_text(self@),
    {
        match self {
            SpecError::Yaml(m) => {
                let mut out: Vec<char> = Vec::new();
                push_str(&mut out, "yaml: ");
                push_str(&mut out, m.as_str());
                string_of(out.as_slice())
            },
            SpecError::Invalid(m) => m.clone(),
        }
    }
}

// ---- the raw schema ----

pub struct RawRequireView {
    pub name: Seq<char>,
    pub version: Seq<char>,
}

pub struct RawMcpView {
    pub transport: Seq<char>,
    pub command: Seq<Seq<char>>,
    pub tool: Seq<char>,
}

pub struct RawEffectView {
    pub file: YamlValue,
    pub memory: YamlValue,
    pub net: Net,
    pub proc_: Proc,
}

pub struct RawView {
    pub v: u32,
    pub name: Seq<char>,
    pub version: Seq<char>,
    pub summary: Seq<char>,
    pub constructor: Seq<char>,
    pub script: Option<Seq<char>>,
    pub mcp: Option<RawMcpView>,
    pub effect: RawEffectView,
    pub requires: Option<Seq<RawRequireView>>,
}

pub open spec fn require_known() -> spec_fn(Seq<char>) -> bool {
    |n: Seq<char>| require_field(n)
}

pub open spec fn require_check() -> spec_fn(Seq<char>, YamlValue) -> Option<Seq<char>> {
    |n: Seq<char>, x: YamlValue| require_value_error(n, x)
}

pub open spec fn require_field(n: Seq<char>) -> bool {
    n == "name"@ || n == "version"@
}

pub open spec fn require_value_error(n: Seq<char>, v: YamlValue) -> Option<Seq<char>> {
    if scalar_text(v) is None { Some(msg_field_type(n, "a string"@)) } else { None }
}

pub open spec fn require_decode(v: YamlValue) -> Result<RawRequireView, Seq<char>> {
    match entries_of(v) {
        None => Err(msg_not_mapping()),
        Some(es) => match struct_error(es, require_known(), require_check(), seq!["name"@, "version"@]) {
            Some(e) => Err(e),
            None => Ok(RawRequireView {
                name: scalar_text(find_field(es, "name"@)->0)->0,
                version: scalar_text(find_field(es, "version"@)->0)->0,
            }),
        },
    }
}

/// Decoded list entries: the first entry that fails, else all of them.
pub open spec fn require_items(items: Seq<YamlValue>) -> Result<Seq<RawRequireView>, Seq<char>>
    decreases items.len(),
{
    if items.len() == 0 {
        Ok(Seq::empty())
    } else {
        match require_items(items.drop_last()) {
            Err(e) => Err(e),
            Ok(rs) => match require_decode(items.last()) {
                Err(e) => Err(e),
                Ok(r) => Ok(rs.push(r)),
            },
        }
    }
}

pub open spec fn requires_decode(v: YamlValue) -> Result<Seq<RawRequireView>, Seq<char>> {
    match v {
        YamlValue::Sequence(items) => require_items(items@),
        _ => Err(msg_field_type("requires"@, "a sequence"@)),
    }
}

pub open spec fn mcp_known() -> spec_fn(Seq<char>) -> bool {
    |n: Seq<char>| mcp_field(n)
}

pub open spec fn mcp_check() -> spec_fn(Seq<char>, YamlValue) -> Option<Seq<char>> {
    |n: Seq<char>, x: YamlValue| mcp_value_error(n, x)
}

pub open spec fn mcp_field(n: Seq<char>) -> bool {
    n == "transport"@ || n == "command"@ || n == "tool"@
}

pub open spec fn mcp_value_error(n: Seq<char>, v: YamlValue) -> Option<Seq<char>> {
    if n == "command"@ {
        if text_list(v) is None { Some(msg_field_type(n, "a sequence of strings"@)) } else { None }
    } else {
        if scalar_text(v) is None { Some(msg_field_type(n, "a string"@)) } else { None }
    }
}

pub open spec fn mcp_decode(v: YamlValue) -> Result<RawMcpView, Seq<char>> {
    match entries_of(v) {
        None => Err(msg_not_mapping()),
        Some(es) => match struct_error(es, mcp_known(), mcp_check(), seq!["transport"@, "command"@, "tool"@]) {
            Some(e) => Err(e),
            None => Ok(RawMcpView {
                transport: scalar_text(find_field(es, "transport"@)->0)->0,
                command: text_list(find_field(es, "command"@)->0)->0,
                tool: scalar_text(find_field(es, "tool"@)->0)->0,
            }),
        },
    }
}

pub open spec fn net_of(v: YamlValue) -> Option<Net> {
    match v {
        YamlValue::Str(s) => if s@ == "none"@ { Some(Net::Nothing) } else if s@ == "egress"@ { Some(Net::Egress) } else { None },
        _ => None,
    }
}

pub open spec fn proc_of(v: YamlValue) -> Option<Proc> {
    match v {
        YamlValue::Str(s) => if s@ == "none"@ { Some(Proc::Nothing) } else if s@ == "spawn"@ { Some(Proc::Spawn) } else { None },
        _ => None,
    }
}

pub open spec fn effect_known() -> spec_fn(Seq<char>) -> bool {
    |n: Seq<char>| effect_field(n)
}

pub open spec fn effect_check() -> spec_fn(Seq<char>, YamlValue) -> Option<Seq<char>> {
    |n: Seq<char>, x: YamlValue| effect_value_error(n, x)
}

pub open spec fn effect_field(n: Seq<char>) -> bool {
    n == "file"@ || n == "memory"@ || n == "net"@ || n == "proc"@
}

pub open spec fn effect_value_error(n: Seq<char>, v: YamlValue) -> Option<Seq<char>> {
    if n == "net"@ {
        if net_of(v) is None { Some(msg_field_type(n, "`none` or `egress`"@)) } else { None }
    } else if n == "proc"@ {
        if proc_of(v) is None { Some(msg_field_type(n, "`none` or `spawn`"@)) } else { None }
    } else {
        None
    }
}

/// The effect block: the file and memory faces stay raw nodes (checked key
/// by key later), net and proc are closed vocabularies.
pub open spec fn effect_decode(v: YamlValue) -> Result<RawEffectView, Seq<char>> {
    match entries_of(v) {
        None => Err(msg_not_mapping()),
        Some(es) => match struct_error(es, effect_known(), effect_check(), seq!["file"@, "memory"@, "net"@, "proc"@]) {
            Some(e) => Err(e),
            None => Ok(RawEffectView {
                file: find_field(es, "file"@)->0,
                memory: find_field(es, "memory"@)->0,
                net: net_of(find_field(es, "net"@)->0)->0,
                proc_: proc_of(find_field(es, "proc"@)->0)->0,
            }),
        },
    }
}

pub open spec fn descriptor_known() -> spec_fn(Seq<char>) -> bool {
    |n: Seq<char>| descriptor_field(n)
}

pub open spec fn descriptor_check() -> spec_fn(Seq<char>, YamlValue) -> Option<Seq<char>> {
    |n: Seq<char>, x: YamlValue| descriptor_value_error(n, x)
}

pub open spec fn descriptor_field(n: Seq<char>) -> bool {
    n == "v"@ || n == "name"@ || n == "version"@ || n == "summary"@ || n == "constructor"@
        || n == "script"@ || n == "mcp"@ || n == "effect"@ || n == "requires"@
}

pub open spec fn descriptor_value_error(n: Seq<char>, v: YamlValue) -> Option<Seq<char>> {
    if n == "v"@ {
        if u32_of(v) is None { Some(msg_field_type(n, "u32"@)) } else { None }
    } else if n == "script"@ {
        if opt_scalar_text(v) is None { Some(msg_field_type(n, "a string"@)) } else { None }
    } else if n == "mcp"@ {
        if v is Null { None } else {
            match mcp_decode(v) { Err(e) => Some(msg_under(n, e)), Ok(_) => None }
        }
    } else if n == "effect"@ {
        match effect_decode(v) { Err(e) => Some(msg_under(n, e)), Ok(_) => None }
    } else if n == "requires"@ {
        if v is Null { None } else {
            match requires_decode(v) { Err(e) => Some(msg_under(n, e)), Ok(_) => None }
        }
    } else {
        if scalar_text(v) is None { Some(msg_field_type(n, "a string"@)) } else { None }
    }
}

pub open spec fn descriptor_required() -> Seq<Seq<char>> {
    seq!["v"@, "name"@, "version"@, "summary"@, "constructor"@, "effect"@]
}

/// An optional field: absent or null is `None`.
pub open spec fn present(es: Entries, n: Seq<char>) -> Option<YamlValue> {
    match find_field(es, n) {
        Some(YamlValue::Null) => None,
        other => other,
    }
}

/// The document read against the v1 schema: a mapping whose keys are all
/// known fields, each given once with a value of the field's type, with
/// every required field present.
pub open spec fn raw_decode(doc: YamlValue) -> Result<RawView, Seq<char>> {
    match entries_of(doc) {
        None => Err(msg_not_mapping()),
        Some(es) => match struct_error(es, descriptor_known(), descriptor_check(), descriptor_required()) {
            Some(e) => Err(e),
            None => Ok(RawView {
                v: u32_of(find_field(es, "v"@)->0)->0,
                name: scalar_text(find_field(es, "name"@)->0)->0,
                version: scalar_text(find_field(es, "version"@)->0)->0,
                summary: scalar_text(find_field(es, "summary"@)->0)->0,
                constructor: scalar_text(find_field(es, "constructor"@)->0)->0,
                script: match find_field(es, "script"@) { Some(x) => opt_scalar_text(x)->0, None => None },
                mcp: match present(es, "mcp"@) { Some(x) => Some(mcp_decode(x)->Ok_0), None => None },
                effect: effect_decode(find_field(es, "effect"@)->0)->Ok_0,
                requires: match present(es, "requires"@) { Some(x) => Some(requires_decode(x)->Ok_0), None => None },
            }),
        },
    }
}

} // verus!

verus! {

pub struct RawRequire {
    pub name: String,
    pub version: String,
}

impl View for RawRequire {
    type V = RawRequireView;

    open spec fn view(&self) -> RawRequireView {
        RawRequireView { name: self.name@, version: self.version@ }
    }
}

fn require_field_exec(n: &str) -> (r: bool)
    ensures
        r == require_field(n@),
{
    str_eq(n, "name") || str_eq(n, "version")
}

fn require_value_error_exec(n: &str, v: &YamlValue) -> (r: Option<String>)
    ensures
        opt_view(r) == require_value_error(n@, *v),
{
    if scalar_string(v).is_none() { Some(msg_field_type_text(n, "a string")) } else { None }
}

fn require_scan(es: &Vec<(YamlValue, YamlValue)>) -> (r: Option<String>)
    ensures
        opt_view(r) == first_entry_error(es@, es@.len(), require_known(), require_check()),
{
    let mut i: usize = 0;
    while i < es.len()
        invariant
            i <= es.len(),
            first_entry_error(es@, i as nat, require_known(), require_check()) is None,
        decreases es.len() - i,
    {
        let known = match key_text(&es[i].0) {
            Some(k) => require_field_exec(k.as_str()),
            None => false,
        };
        let found = match entry_key(es, i, known, Ghost(require_known())) {
            Err(e) => Some(e),
            Ok(k) => require_value_error_exec(k.as_str(), &es[i].1),
        };
        assert(opt_view(found) == first_entry_error(es@, (i + 1) as nat, require_known(), require_check()));
        if found.is_some() {
            proof { crate::tools::yaml::lemma_first_entry_error_prefix(es@, (i + 1) as nat, es@.len(), require_known(), require_check()); }
            return found;
        }
        i = i + 1;
    }
    None
}

fn require_decode_exec(v: &YamlValue) -> (r: Result<RawRequire, String>)
    ensures
        match r {
            Ok(x) => require_decode(*v) == Ok::<RawRequireView, Seq<char>>(x@),
            Err(e) => require_decode(*v) == Err::<RawRequireView, Seq<char>>(e@),
        },
{
    let es = match v {
        YamlValue::Mapping(es) => es,
        _ => return Err("invalid type: expected a mapping".to_owned()),
    };
    if let Some(e) = require_scan(es) {
        return Err(e);
    }
    let req: [&str; 2] = ["name", "version"];
    assert(crate::tools::yaml::names_view(req@) =~= seq!["name"@, "version"@]);
    if let Some(e) = crate::tools::yaml::first_missing_exec(es, &req) {
        return Err(e);
    }
    proof { crate::tools::yaml::lemma_first_missing_none(es@, seq!["name"@, "version"@]); }
    let nv = clean_field(es, "name", Ghost(require_known()), Ghost(require_check()));
    let vv = clean_field(es, "version", Ghost(require_known()), Ghost(require_check()));
    let name = scalar_string(nv).unwrap();
    let version = scalar_string(vv).unwrap();
    Ok(RawRequire { name, version })
}

} // verus!

verus! {

pub open spec fn raw_requires_view(v: Seq<RawRequire>) -> Seq<RawRequireView> {
    v.map_values(|r: RawRequire| r@)
}

fn requires_decode_exec(v: &YamlValue) -> (r: Result<Vec<RawRequire>, String>)
    ensures
        match r {
            Ok(x) => requires_decode(*v) == Ok::<Seq<RawRequireView>, Seq<char>>(raw_requires_view(x@)),
            Err(e) => requires_decode(*v) == Err::<Seq<RawRequireView>, Seq<char>>(e@),
        },
{
    let items = match v {
        YamlValue::Sequence(items) => items,
        _ => return Err(msg_field_type_text("requires", "a sequence")),
    };
    let mut out: Vec<RawRequire> = Vec::new();
    let mut i: usize = 0;
    assert(items@.subrange(0, 0) =~= Seq::<YamlValue>::empty());
    assert(raw_requires_view(out@) =~= Seq::<RawRequireView>::empty());
    while i < items.len()
        invariant
            i <= items.len(),
            *v == YamlValue::Sequence(*items),
            require_items(items@.subrange(0, i as int)) == Ok::<Seq<RawRequireView>, Seq<char>>(raw_requires_view(out@)),
        decreases items.len() - i,
    {
        let ghost pre = items@.subrange(0, i as int);
        let ghost post = items@.subrange(0, i + 1);
        assert(post.drop_last() =~= pre);
        match require_decode_exec(&items[i]) {
            Err(e) => {
                proof { lemma_require_items_prefix(items@, i + 1); }
                return Err(e);
            },
            Ok(x) => {
                let ghost before = out@;
                let ghost xv = x@;
                out.push(x);
                assert(raw_requires_view(out@) =~= raw_requires_view(before).push(xv));
            },
        }
        i = i + 1;
    }
    assert(items@.subrange(0, items.len() as int) =~= items@);
    Ok(out)
}

/// A failing prefix of a requires list fails the whole list the same way.
proof fn lemma_require_items_prefix(items: Seq<YamlValue>, k: int)
    requires
        0 <= k <= items.len(),
        require_items(items.subrange(0, k)) is Err,
    ensures
        require_items(items) == require_items(items.subrange(0, k)),
    decreases items.len(),
{
    if k < items.len() {
        assert(items.drop_last().subrange(0, k) =~= items.subrange(0, k));
        lemma_require_items_prefix(items.drop_last(), k);
    } else {
        assert(items.subrange(0, k) =~= items);
    }
}

pub struct RawMcp {
    pub transport: String,
    pub command: Vec<String>,
    pub tool: String,
}

impl View for RawMcp {
    type V = RawMcpView;

    open spec fn view(&self) -> RawMcpView {
        RawMcpView { transport: self.transport@, command: strings_view(self.command@), tool: self.tool@ }
    }
}

fn mcp_field_exec(n: &str) -> (r: bool)
    ensures
        r == mcp_field(n@),
{
    str_eq(n, "transport") || str_eq(n, "command") || str_eq(n, "tool")
}

fn mcp_value_error_exec(n: &str, v: &YamlValue) -> (r: Option<String>)
    ensures
        opt_view(r) == mcp_value_error(n@, *v),
{
    if str_eq(n, "command") {
        if string_list(v).is_none() { Some(msg_field_type_text(n, "a sequence of strings")) } else { None }
    } else {
        if scalar_string(v).is_none() { Some(msg_field_type_text(n, "a string")) } else { None }
    }
}

fn mcp_scan(es: &Vec<(YamlValue, YamlValue)>) -> (r: Option<String>)
    ensures
        opt_view(r) == first_entry_error(es@, es@.len(), mcp_known(), mcp_check()),
{
    let mut i: usize = 0;
    while i < es.len()
        invariant
            i <= es.len(),
            first_entry_error(es@, i as nat, mcp_known(), mcp_check()) is None,
        decreases es.len() - i,
    {
        let known = match key_text(&es[i].0) {
            Some(k) => mcp_field_exec(k.as_str()),
            None => false,
        };
        let found = match entry_key(es, i, known, Ghost(mcp_known())) {
            Err(e) => Some(e),
            Ok(k) => mcp_value_error_exec(k.as_str(), &es[i].1),
        };
        assert(opt_view(found) == first_entry_error(es@, (i + 1) as nat, mcp_known(), mcp_check()));
        if found.is_some() {
            proof { crate::tools::yaml::lemma_first_entry_error_prefix(es@, (i + 1) as nat, es@.len(), mcp_known(), mcp_check()); }
            return found;
        }
        i = i + 1;
    }
    None
}

fn mcp_decode_exec(v: &YamlValue) -> (r: Result<RawMcp, String>)
    ensures
        match r {
            Ok(x) => mcp_decode(*v) == Ok::<RawMcpView, Seq<char>>(x@),
            Err(e) => mcp_decode(*v) == Err::<RawMcpView, Seq<char>>(e@),
        },
{
    let es = match v {
        YamlValue::Mapping(es) => es,
        _ => return Err("invalid type: expected a mapping".to_owned()),
    };
    if let Some(e) = mcp_scan(es) {
        return Err(e);
    }
    let req: [&str; 3] = ["transport", "command", "tool"];
    assert(crate::tools::yaml::names_view(req@) =~= seq!["transport"@, "command"@, "tool"@]);
    if let Some(e) = crate::tools::yaml::first_missing_exec(es, &req) {
        return Err(e);
    }
    proof { crate::tools::yaml::lemma_first_missing_none(es@, seq!["transport"@, "command"@, "tool"@]); }
    let tv = clean_field(es, "transport", Ghost(mcp_known()), Ghost(mcp_check()));
    let cv = clean_field(es, "command", Ghost(mcp_known()), Ghost(mcp_check()));
    let ov = clean_field(es, "tool", Ghost(mcp_known()), Ghost(mcp_check()));
    proof {
        reveal_strlit("transport");
        reveal_strlit("command");
        reveal_strlit("tool");
        assert("transport"@.len() != "command"@.len());
        assert("tool"@.len() != "command"@.len());
    }
    let transport = scalar_string(tv).unwrap();
    let command = string_list(cv).unwrap();
    let tool = scalar_string(ov).unwrap();
    Ok(RawMcp { transport, command, tool })
}

pub struct RawEffect<'a> {
    pub file: &'a YamlValue,
    pub memory: &'a YamlValue,
    pub net: Net,
    pub proc_: Proc,
}

impl<'a> View for RawEffect<'a> {
    type V = RawEffectView;

    open spec fn view(&self) -> RawEffectView {
        RawEffectView { file: *self.file, memory: *self.memory, net: self.net, proc_: self.proc_ }
    }
}

fn net_value(v: &YamlValue) -> (r: Option<Net>)
    ensures
        r == net_of(*v),
{
    match v {
        YamlValue::Str(s) => if str_eq(s.as_str(), "none") { Some(Net::Nothing) } else if str_eq(s.as_str(), "egress") { Some(Net::Egress) } else { None },
        _ => None,
    }
}

fn proc_value(v: &YamlValue) -> (r: Option<Proc>)
    ensures
        r == proc_of(*v),
{
    match v {
        YamlValue::Str(s) => if str_eq(s.as_str(), "none") { Some(Proc::Nothing) } else if str_eq(s.as_str(), "spawn") { Some(Proc::Spawn) } else { None },
        _ => None,
    }
}

fn effect_field_exec(n: &str) -> (r: bool)
    ensures
        r == effect_field(n@),
{
    str_eq(n, "file") || str_eq(n, "memory") || str_eq(n, "net") || str_eq(n, "proc")
}

fn effect_value_error_exec(n: &str, v: &YamlValue) -> (r: Option<String>)
    ensures
        opt_view(r) == effect_value_error(n@, *v),
{
    if str_eq(n, "net") {
        if net_value(v).is_none() { Some(msg_field_type_text(n, "`none` or `egress`")) } else { None }
    } else if str_eq(n, "proc") {
        if proc_value(v).is_none() { Some(msg_field_type_text(n, "`none` or `spawn`")) } else { None }
    } else {
        None
    }
}

fn effect_scan(es: &Vec<(YamlValue, YamlValue)>) -> (r: Option<String>)
    ensures
        opt_view(r) == first_entry_error(es@, es@.len(), effect_known(), effect_check()),
{
    let mut i: usize = 0;
    while i < es.len()
        invariant
            i <= es.len(),
            first_entry_error(es@, i as nat, effect_known(), effect_check()) is None,
        decreases es.len() - i,
    {
        let known = match key_text(&es[i].0) {
            Some(k) => effect_field_exec(k.as_str()),
            None => false,
        };
        let found = match entry_key(es, i, known, Ghost(effect_known())) {
            Err(e) => Some(e),
            Ok(k) => effect_value_error_exec(k.as_str(), &es[i].1),
        };
        assert(opt_view(found) == first_entry_error(es@, (i + 1) as nat, effect_known(), effect_check()));
        if found.is_some() {
            proof { crate::tools::yaml::lemma_first_entry_error_prefix(es@, (i + 1) as nat, es@.len(), effect_known(), effect_check()); }
            return found;
        }
        i = i + 1;
    }
    None
}

fn effect_decode_exec<'a>(v: &'a YamlValue) -> (r: Result<RawEffect<'a>, String>)
    ensures
        match r {
            Ok(x) => effect_decode(*v) == Ok::<RawEffectView, Seq<char>>(x@),
            Err(e) => effect_decode(*v) == Err::<RawEffectView, Seq<char>>(e@),
        },
{
    let es = match v {
        YamlValue::Mapping(es) => es,
        _ => return Err("invalid type: expected a mapping".to_owned()),
    };
    if let Some(e) = effect_scan(es) {
        return Err(e);
    }
    let req: [&str; 4] = ["file", "memory", "net", "proc"];
    assert(crate::tools::yaml::names_view(req@) =~= seq!["file"@, "memory"@, "net"@, "proc"@]);
    if let Some(e) = crate::tools::yaml::first_missing_exec(es, &req) {
        return Err(e);
    }
    proof { crate::tools::yaml::lemma_first_missing_none(es@, seq!["file"@, "memory"@, "net"@, "proc"@]); }
    let file = clean_field(es, "file", Ghost(effect_known()), Ghost(effect_check()));
    let memory = clean_field(es, "memory", Ghost(effect_known()), Ghost(effect_check()));
    let nv = clean_field(es, "net", Ghost(effect_known()), Ghost(effect_check()));
    let pv = clean_field(es, "proc", Ghost(effect_known()), Ghost(effect_check()));
    proof {
        reveal_strlit("net");
        reveal_strlit("proc");
        assert("proc"@.len() != "net"@.len());
    }
    let net = net_value(nv).unwrap();
    let proc_ = proc_value(pv).unwrap();
    Ok(RawEffect { file, memory, net, proc_ })
}

} // verus!

verus! {

pub struct RawDescriptor<'a> {
    pub v: u32,
    pub name: String,
    pub version: String,
    pub summary: String,
    pub constructor: String,
    pub script: Option<String>,
    pub mcp: Option<RawMcp>,
    pub effect: RawEffect<'a>,
    pub requires: Option<Vec<RawRequire>>,
}

impl<'a> View for RawDescriptor<'a> {
    type V = RawView;

    open spec fn view(&self) -> RawView {
        RawView {
            v: self.v,
            name: self.name@,
            version: self.version@,
            summary: self.summary@,
            constructor: self.constructor@,
            script: opt_view(self.script),
            mcp: match self.mcp { Some(m) => Some(m@), None => None },
            effect: self.effect@,
            requires: match self.requires { Some(r) => Some(raw_requires_view(r@)), None => None },
        }
    }
}

proof fn lemma_descriptor_names()
    ensures
        "v"@.len() == 1, "name"@.len() == 4, "version"@.len() == 7, "summary"@.len() == 7,
        "constructor"@.len() == 11, "script"@.len() == 6, "mcp"@.len() == 3, "effect"@.len() == 6,
        "requires"@.len() == 8,
        "script"@ != "effect"@,
{
    reveal_strlit("v");
    reveal_strlit("name");
    reveal_strlit("version");
    reveal_strlit("summary");
    reveal_strlit("constructor");
    reveal_strlit("script");
    reveal_strlit("mcp");
    reveal_strlit("effect");
    reveal_strlit("requires");
    assert("script"@[0] != "effect"@[0]);
}

fn descriptor_field_exec(n: &str) -> (r: bool)
    ensures
        r == descriptor_field(n@),
{
    str_eq(n, "v") || str_eq(n, "name") || str_eq(n, "version") || str_eq(n, "summary")
        || str_eq(n, "constructor") || str_eq(n, "script") || str_eq(n, "mcp") || str_eq(n, "effect")
        || str_eq(n, "requires")
}

fn descriptor_value_error_exec(n: &str, v: &YamlValue) -> (r: Option<String>)
    ensures
        opt_view(r) == descriptor_value_error(n@, *v),
{
    if str_eq(n, "v") {
        if u32_value(v).is_none() { Some(msg_field_type_text(n, "u32")) } else { None }
    } else if str_eq(n, "script") {
        if opt_scalar_string(v).is_none() { Some(msg_field_type_text(n, "a string")) } else { None }
    } else if str_eq(n, "mcp") {
        if let YamlValue::Null = v {
            None
        } else {
            match mcp_decode_exec(v) {
                Err(e) => Some(msg_under_text(n, e.as_str())),
                Ok(_) => None,
            }
        }
    } else if str_eq(n, "effect") {
        match effect_decode_exec(v) {
            Err(e) => Some(msg_under_text(n, e.as_str())),
            Ok(_) => None,
        }
    } else if str_eq(n, "requires") {
        if let YamlValue::Null = v {
            None
        } else {
            match requires_decode_exec(v) {
                Err(e) => Some(msg_under_text(n, e.as_str())),
                Ok(_) => None,
            }
        }
    } else {
        if scalar_string(v).is_none() { Some(msg_field_type_text(n, "a string")) } else { None }
    }
}

fn descriptor_scan(es: &Vec<(YamlValue, YamlValue)>) -> (r: Option<String>)
    ensures
        opt_view(r) == first_entry_error(es@, es@.len(), descriptor_known(), descriptor_check()),
{
    let mut i: usize = 0;
    while i < es.len()
        invariant
            i <= es.len(),
            first_entry_error(es@, i as nat, descriptor_known(), descriptor_check()) is None,
        decreases es.len() - i,
    {
        let known = match key_text(&es[i].0) {
            Some(k) => descriptor_field_exec(k.as_str()),
            None => false,
        };
        let found = match entry_key(es, i, known, Ghost(descriptor_known())) {
            Err(e) => Some(e),
            Ok(k) => descriptor_value_error_exec(k.as_str(), &es[i].1),
        };
        assert(opt_view(found) == first_entry_error(es@, (i + 1) as nat, descriptor_known(), descriptor_check()));
        if found.is_some() {
            proof { crate::tools::yaml::lemma_first_entry_error_prefix(es@, (i + 1) as nat, es@.len(), descriptor_known(), descriptor_check()); }
            return found;
        }
        i = i + 1;
    }
    None
}

/// The scalar under a required string field of a clean descriptor.
fn descriptor_string(es: &Vec<(YamlValue, YamlValue)>, n: &str) -> (r: String)
    requires
        first_entry_error(es@, es@.len(), descriptor_known(), descriptor_check()) is None,
        find_field(es@, n@) is Some,
        n@ == "name"@ || n@ == "version"@ || n@ == "summary"@ || n@ == "constructor"@,
    ensures
        scalar_text(find_field(es@, n@)->0) == Some(r@),
{
    proof { lemma_descriptor_names(); }
    let f = clean_field(es, n, Ghost(descriptor_known()), Ghost(descriptor_check()));
    scalar_string(f).unwrap()
}

/// The document read against the v1 schema (see `raw_decode`).
pub fn raw_decode_exec(doc: &YamlValue) -> (r: Result<RawDescriptor<'_>, String>)
    ensures
        match r {
            Ok(x) => raw_decode(*doc) == Ok::<RawView, Seq<char>>(x@),
            Err(e) => raw_decode(*doc) == Err::<RawView, Seq<char>>(e@),
        },
{
    let es = match doc {
        YamlValue::Mapping(es) => es,
        _ => return Err("invalid type: expected a mapping".to_owned()),
    };
    if let Some(e) = descriptor_scan(es) {
        return Err(e);
    }
    let req: [&str; 6] = ["v", "name", "version", "summary", "constructor", "effect"];
    assert(crate::tools::yaml::names_view(req@) =~= descriptor_required());
    if let Some(e) = crate::tools::yaml::first_missing_exec(es, &req) {
        return Err(e);
    }
    proof {
        crate::tools::yaml::lemma_first_missing_none(es@, descriptor_required());
        assert(descriptor_required()[0] == "v"@);
        assert(descriptor_required()[5] == "effect"@);
        lemma_descriptor_names();
    }
    let vv = clean_field(es, "v", Ghost(descriptor_known()), Ghost(descriptor_check()));
    let v = u32_value(vv).unwrap();
    let name = descriptor_string(es, "name");
    let version = descriptor_string(es, "version");
    let summary = descriptor_string(es, "summary");
    let constructor = descriptor_string(es, "constructor");
    let script = match field_of(es, "script") {
        Some(_) => {
            let sv = clean_field(es, "script", Ghost(descriptor_known()), Ghost(descriptor_check()));
            opt_scalar_string(sv).unwrap()
        },
        None => None,
    };
    let mcp = match field_of(es, "mcp") {
        Some(YamlValue::Null) => None,
        Some(_) => {
            let mv = clean_field(es, "mcp", Ghost(descriptor_known()), Ghost(descriptor_check()));
            match mcp_decode_exec(mv) {
                Ok(m) => Some(m),
                Err(e) => return Err(e),
            }
        },
        None => None,
    };
    let ev = clean_field(es, "effect", Ghost(descriptor_known()), Ghost(descriptor_check()));
    let effect = match effect_decode_exec(ev) {
        Ok(e) => e,
        Err(e) => return Err(e),
    };
    let deps = match field_of(es, "requires") {
        Some(YamlValue::Null) => None,
        Some(_) => {
            let rv = clean_field(es, "requires", Ghost(descriptor_known()), Ghost(descriptor_check()));
            match requires_decode_exec(rv) {
                Ok(rs) => Some(rs),
                Err(e) => return Err(e),
            }
        },
        None => None,
    };
    Ok(RawDescriptor { v, name, version, summary, constructor, script, mcp, effect, requires: deps })
}

} // verus!

verus! {

pub open spec fn name_char(c: char) -> bool {
    ('a' <= c && c <= 'z') || ('0' <= c && c <= '9') || c == '_' || c == '-'
}

/// A tool name: 1 to 64 characters of lowercase letters, digits, `_` and
/// `-`, starting with a letter.
pub open spec fn name_ok(n: Seq<char>) -> bool {
    0 < n.len() <= 64 && (forall|i: int| 0 <= i < n.len() ==> name_char(#[trigger] n[i]))
        && 'a' <= n[0] && n[0] <= 'z'
}

/// A version: exactly three dot-separated non-empty runs of digits.
pub open spec fn version_ok(v: Seq<char>) -> bool {
    let parts = split(v, '.');
    parts.len() == 3 && forall|k: int| 0 <= k < 3 ==> (#[trigger] parts[k]).len() > 0 && all_digits(parts[k])
}

/// An effect path: absolute, with no `~` and no `..` component.
pub open spec fn effect_path_error(p: Seq<char>) -> Option<Seq<char>> {
    if !(p.len() > 0 && p[0] == '/') {
        Some("effect file path must be absolute: "@ + p)
    } else if p.contains('~') || split(p, '/').contains(".."@) {
        Some("effect file path must be clean: "@ + p)
    } else {
        None
    }
}

/// The effect block validated: both faces well formed, file paths clean,
/// and memory limited to ignore or remember.
pub open spec fn effect_validate(e: RawEffectView) -> Result<ToolEffectView, Seq<char>> {
    match file_facet(e.file) {
        Err(m) => Err(m),
        Ok(file) => match memory_facet(e.memory) {
            Err(m) => Err(m),
            Ok(memory) => {
                let path_error = match file {
                    FileFacetView::Read { path, .. } => effect_path_error(path),
                    FileFacetView::Write { path, .. } => effect_path_error(path),
                    FileFacetView::ReadWrite { path, .. } => effect_path_error(path),
                    _ => None,
                };
                match path_error {
                    Some(m) => Err(m),
                    None => if memory is Forget {
                        Err("effect.memory must be ignore or remember"@)
                    } else {
                        Ok(ToolEffectView { file, memory, net: e.net, proc_: e.proc_ })
                    },
                }
            },
        },
    }
}

/// The constructor block: `rhai` takes a non-blank script and no mcp block;
/// `mcp` takes no script and a stdio mcp block with a non-empty command of
/// non-blank words and a non-blank tool.
pub open spec fn constructor_check(raw: RawView) -> Result<ConstructorView, Seq<char>> {
    if raw.constructor == "rhai"@ {
        match raw.script {
            Some(s) => if blank(s) {
                Err("constructor rhai requires a non-empty script"@)
            } else if raw.mcp is Some {
                Err("constructor rhai must not carry an mcp block"@)
            } else {
                Ok(ConstructorView::Rhai { script: s })
            },
            None => Err("constructor rhai requires a non-empty script"@),
        }
    } else if raw.constructor == "mcp"@ {
        if raw.script is Some {
            Err("constructor mcp must not carry a script"@)
        } else {
            match raw.mcp {
                None => Err("constructor mcp requires an mcp block"@),
                Some(m) => if m.transport != "stdio"@ {
                    Err("mcp transport must be stdio, got "@ + m.transport)
                } else if m.command.len() == 0 || exists|i: int| 0 <= i < m.command.len() && blank(#[trigger] m.command[i]) {
                    Err("mcp command must be non-empty"@)
                } else if blank(m.tool) {
                    Err("mcp tool must be non-empty"@)
                } else {
                    Ok(ConstructorView::Mcp { command: m.command, tool: m.tool })
                },
            }
        }
    } else {
        Err("unknown constructor "@ + raw.constructor + "; supported: rhai, mcp"@)
    }
}

pub open spec fn msg_bad_name(n: Seq<char>) -> Seq<char> {
    "invalid tool name: "@ + n
}

pub open spec fn msg_bad_version(v: Seq<char>) -> Seq<char> {
    "invalid version (want x.y.z): "@ + v
}

/// The error of require `k`: bad name, bad version, naming the tool
/// itself, or naming a tool an earlier require names.
pub open spec fn require_error(tool: Seq<char>, rs: Seq<RawRequireView>, k: int) -> Option<Seq<char>> {
    let r = rs[k];
    if !name_ok(r.name) {
        Some(msg_bad_name(r.name))
    } else if !version_ok(r.version) {
        Some(msg_bad_version(r.version))
    } else if r.name == tool {
        Some(tool + " requires itself"@)
    } else if exists|j: int| 0 <= j < k && (#[trigger] rs[j]).name == r.name {
        Some("duplicate require: "@ + r.name)
    } else {
        None
    }
}

pub open spec fn first_require_error(tool: Seq<char>, rs: Seq<RawRequireView>, n: nat) -> Option<Seq<char>>
    decreases n,
{
    if n == 0 {
        None
    } else {
        match first_require_error(tool, rs, (n - 1) as nat) {
            Some(e) => Some(e),
            None => require_error(tool, rs, n - 1),
        }
    }
}

pub open spec fn requires_out(rs: Seq<RawRequireView>) -> Seq<RequireView> {
    rs.map_values(|r: RawRequireView| RequireView { name: r.name, version: r.version })
}

/// The strictness rules of v1, in order: version 1, a valid name and
/// version, a non-blank summary, a well-formed constructor, a valid
/// effect, and a present, clean requires list.
pub open spec fn validate_raw(raw: RawView) -> Result<DescriptorView, Seq<char>> {
    if raw.v != 1 {
        Err("v must be 1, got "@ + decimal(raw.v as nat))
    } else if !name_ok(raw.name) {
        Err(msg_bad_name(raw.name))
    } else if !version_ok(raw.version) {
        Err(msg_bad_version(raw.version))
    } else if blank(raw.summary) {
        Err("summary must be non-empty"@)
    } else {
        match constructor_check(raw) {
            Err(e) => Err(e),
            Ok(constructor) => match effect_validate(raw.effect) {
                Err(e) => Err(e),
                Ok(effect) => match raw.requires {
                    None => Err("requires is required; use [] for no deps"@),
                    Some(rs) => match first_require_error(raw.name, rs, rs.len()) {
                        Some(e) => Err(e),
                        None => Ok(DescriptorView {
                            name: raw.name,
                            version: raw.version,
                            summary: raw.summary,
                            constructor,
                            effect,
                            requires: requires_out(rs),
                        }),
                    },
                },
            },
        }
    }
}

/// What `parse` gives for a loaded document.
pub open spec fn descriptor_of(doc: YamlValue) -> Result<DescriptorView, SpecErrorView> {
    match raw_decode(doc) {
        Err(e) => Err(SpecErrorView::Yaml(e)),
        Ok(raw) => match validate_raw(raw) {
            Err(e) => Err(SpecErrorView::Invalid(e)),
            Ok(d) => Ok(d),
        },
    }
}

/// What `parse` gives for a text.
pub open spec fn parse_spec(text: Seq<char>) -> Result<DescriptorView, SpecErrorView> {
    match yaml_document(text) {
        Err(e) => Err(SpecErrorView::Yaml(e)),
        Ok(doc) => descriptor_of(doc),
    }
}

} // verus!

verus! {

fn name_char_exec(c: char) -> (r: bool)
    ensures
        r == name_char(c),
{
    ('a' <= c && c <= 'z') || ('0' <= c && c <= '9') || c == '_' || c == '-'
}

/// Whether `n` is a valid tool name (see `name_ok`).
pub fn name_valid(n: &str) -> (r: bool)
    ensures
        r == name_ok(n@),
{
    let cs = crate::text::chars_of(n);
    if cs.len() == 0 || cs.len() > 64 {
        return false;
    }
    if !('a' <= cs[0] && cs[0] <= 'z') {
        return false;
    }
    let mut i: usize = 0;
    while i < cs.len()
        invariant
            i <= cs.len(),
            cs@ == n@,
            forall|k: int| 0 <= k < i ==> name_char(#[trigger] cs@[k]),
        decreases cs.len() - i,
    {
        if !name_char_exec(cs[i]) {
            assert(!name_char(n@[i as int]));
            return false;
        }
        i = i + 1;
    }
    true
}

fn digits_only(cs: &Vec<char>) -> (r: bool)
    ensures
        r == (cs@.len() > 0 && all_digits(cs@)),
{
    if cs.len() == 0 {
        return false;
    }
    let mut i: usize = 0;
    while i < cs.len()
        invariant
            i <= cs.len(),
            forall|k: int| 0 <= k < i ==> crate::tools::yaml::is_digit(#[trigger] cs@[k]),
        decreases cs.len() - i,
    {
        if !('0' <= cs[i] && cs[i] <= '9') {
            assert(!crate::tools::yaml::is_digit(cs@[i as int]));
            return false;
        }
        i = i + 1;
    }
    true
}

/// Whether `v` is an exact `x.y.z` version (see `version_ok`).
pub fn version_valid(v: &str) -> (r: bool)
    ensures
        r == version_ok(v@),
{
    let cs = crate::text::chars_of(v);
    let parts = crate::text::split_chars(cs.as_slice(), '.');
    if parts.len() != 3 {
        return false;
    }
    let a = digits_only(&parts[0]);
    let b = digits_only(&parts[1]);
    let c = digits_only(&parts[2]);
    proof {
        let ps = split(v@, '.');
        assert(ps[0] == parts@[0]@);
        assert(ps[1] == parts@[1]@);
        assert(ps[2] == parts@[2]@);
        if !(a && b && c) {
            if !a { assert(!(ps[0].len() > 0 && all_digits(ps[0]))); }
            if !b { assert(!(ps[1].len() > 0 && all_digits(ps[1]))); }
            if !c { assert(!(ps[2].len() > 0 && all_digits(ps[2]))); }
        }
    }
    a && b && c
}

fn effect_path_error_exec(p: &str) -> (r: Option<String>)
    ensures
        opt_view(r) == effect_path_error(p@),
{
    let cs = crate::text::chars_of(p);
    if !(cs.len() > 0 && cs[0] == '/') {
        return Some(crate::text::concat2("effect file path must be absolute: ", p));
    }
    let parts = crate::text::split_chars(cs.as_slice(), '/');
    let dots = crate::text::chars_of("..");
    let mut has_parent = false;
    let mut i: usize = 0;
    while i < parts.len()
        invariant
            i <= parts.len(),
            has_parent == exists|k: int| 0 <= k < i && crate::text::views_of(parts@)[k] == dots@,
        decreases parts.len() - i,
    {
        if crate::text::chars_eq(parts[i].as_slice(), dots.as_slice()) {
            has_parent = true;
        }
        proof {
            if has_parent && !(exists|k: int| 0 <= k < i && crate::text::views_of(parts@)[k] == dots@) {
                assert(crate::text::views_of(parts@)[i as int] == dots@);
            }
        }
        i = i + 1;
    }
    proof {
        let ps = split(p@, '/');
        if has_parent {
            let k = choose|k: int| 0 <= k < parts.len() && crate::text::views_of(parts@)[k] == dots@;
            assert(ps[k] == ".."@);
        }
        if ps.contains(".."@) {
            let k = choose|k: int| 0 <= k < ps.len() && ps[k] == ".."@;
            assert(crate::text::views_of(parts@)[k] == dots@);
        }
    }
    if crate::text::contains_char(cs.as_slice(), '~') || has_parent {
        return Some(crate::text::concat2("effect file path must be clean: ", p));
    }
    None
}

fn effect_validate_exec(e: &RawEffect) -> (r: Result<ToolEffect, String>)
    ensures
        match r {
            Ok(x) => effect_validate(e@) == Ok::<ToolEffectView, Seq<char>>(x@),
            Err(m) => effect_validate(e@) == Err::<ToolEffectView, Seq<char>>(m@),
        },
{
    let file = match crate::tools::facet::file_facet_exec(e.file) {
        Err(m) => return Err(m),
        Ok(f) => f,
    };
    let memory = match crate::tools::facet::memory_facet_exec(e.memory) {
        Err(m) => return Err(m),
        Ok(x) => x,
    };
    let path_error = match &file {
        FileFacet::Read { path, .. } => effect_path_error_exec(path.as_str()),
        FileFacet::Write { path, .. } => effect_path_error_exec(path.as_str()),
        FileFacet::ReadWrite { path, .. } => effect_path_error_exec(path.as_str()),
        _ => None,
    };
    if let Some(m) = path_error {
        return Err(m);
    }
    if let MemoryFacet::Forget { .. } = memory {
        return Err("effect.memory must be ignore or remember".to_owned());
    }
    Ok(ToolEffect { file, memory, net: e.net, proc_: e.proc_ })
}

#[verifier::loop_isolation(false)]
fn constructor_check_exec(raw: &RawDescriptor) -> (r: Result<Constructor, String>)
    ensures
        match r {
            Ok(c) => constructor_check(raw@) == Ok::<ConstructorView, Seq<char>>(c@),
            Err(m) => constructor_check(raw@) == Err::<ConstructorView, Seq<char>>(m@),
        },
{
    if str_eq(raw.constructor.as_str(), "rhai") {
        match &raw.script {
            Some(s) => {
                if crate::text::is_blank(s.as_str()) {
                    Err("constructor rhai requires a non-empty script".to_owned())
                } else if raw.mcp.is_some() {
                    Err("constructor rhai must not carry an mcp block".to_owned())
                } else {
                    Ok(Constructor::Rhai { script: s.clone() })
                }
            },
            None => Err("constructor rhai requires a non-empty script".to_owned()),
        }
    } else if str_eq(raw.constructor.as_str(), "mcp") {
        if raw.script.is_some() {
            return Err("constructor mcp must not carry a script".to_owned());
        }
        match &raw.mcp {
            None => Err("constructor mcp requires an mcp block".to_owned()),
            Some(m) => {
                if !str_eq(m.transport.as_str(), "stdio") {
                    return Err(crate::text::concat2("mcp transport must be stdio, got ", m.transport.as_str()));
                }
                if m.command.len() == 0 {
                    return Err("mcp command must be non-empty".to_owned());
                }
                let mut i: usize = 0;
                while i < m.command.len()
                    invariant
                        i <= m.command.len(),
                        forall|k: int| 0 <= k < i ==> !blank(#[trigger] strings_view(m.command@)[k]),
                    decreases m.command.len() - i,
                {
                    if crate::text::is_blank(m.command[i].as_str()) {
                        assert(blank(strings_view(m.command@)[i as int]));
                        return Err("mcp command must be non-empty".to_owned());
                    }
                    i = i + 1;
                }
                if crate::text::is_blank(m.tool.as_str()) {
                    return Err("mcp tool must be non-empty".to_owned());
                }
                let command = crate::text::clone_strings(&m.command);
                Ok(Constructor::Mcp { command, tool: m.tool.clone() })
            },
        }
    } else {
        Err(crate::text::concat3_text("unknown constructor ", raw.constructor.as_str(), "; supported: rhai, mcp"))
    }
}

} // verus!

verus! {

proof fn lemma_first_require_error_prefix(tool: Seq<char>, rs: Seq<RawRequireView>, k: nat, n: nat)
    requires
        k <= n,
        first_require_error(tool, rs, k) is Some,
    ensures
        first_require_error(tool, rs, n) == first_require_error(tool, rs, k),
    decreases n,
{
    if k < n {
        lemma_first_require_error_prefix(tool, rs, k, (n - 1) as nat);
    }
}

#[verifier::loop_isolation(false)]
fn require_error_exec(tool: &str, rs: &Vec<RawRequire>, k: usize) -> (r: Option<String>)
    requires
        k < rs.len(),
    ensures
        opt_view(r) == require_error(tool@, raw_requires_view(rs@), k as int),
{
    let ghost rv = raw_requires_view(rs@);
    let r = &rs[k];
    assert(rv[k as int] == r@);
    if !name_valid(r.name.as_str()) {
        return Some(crate::text::concat2("invalid tool name: ", r.name.as_str()));
    }
    if !version_valid(r.version.as_str()) {
        return Some(crate::text::concat2("invalid version (want x.y.z): ", r.version.as_str()));
    }
    if str_eq(r.name.as_str(), tool) {
        return Some(crate::text::concat2(tool, " requires itself"));
    }
    let mut j: usize = 0;
    while j < k
        invariant
            j <= k < rs.len(),
            rv == raw_requires_view(rs@),
            forall|i: int| 0 <= i < j ==> (#[trigger] rv[i]).name != r.name@,
        decreases k - j,
    {
        assert(rv[j as int] == rs@[j as int]@);
        if str_eq(rs[j].name.as_str(), r.name.as_str()) {
            return Some(crate::text::concat2("duplicate require: ", r.name.as_str()));
        }
        j = j + 1;
    }
    None
}

/// The strictness rules applied to a schema-checked document (see
/// `validate_raw`).
#[verifier::loop_isolation(false)]
pub fn validate(raw: RawDescriptor) -> (r: Result<Descriptor, String>)
    ensures
        match r {
            Ok(d) => validate_raw(raw@) == Ok::<DescriptorView, Seq<char>>(d@),
            Err(m) => validate_raw(raw@) == Err::<DescriptorView, Seq<char>>(m@),
        },
{
    if raw.v != 1 {
        let n = crate::text::decimal_string(raw.v as u64);
        return Err(crate::text::concat2("v must be 1, got ", n.as_str()));
    }
    if !name_valid(raw.name.as_str()) {
        return Err(crate::text::concat2("invalid tool name: ", raw.name.as_str()));
    }
    if !version_valid(raw.version.as_str()) {
        return Err(crate::text::concat2("invalid version (want x.y.z): ", raw.version.as_str()));
    }
    if crate::text::is_blank(raw.summary.as_str()) {
        return Err("summary must be non-empty".to_owned());
    }
    let constructor = match constructor_check_exec(&raw) {
        Err(e) => return Err(e),
        Ok(c) => c,
    };
    let effect = match effect_validate_exec(&raw.effect) {
        Err(e) => return Err(e),
        Ok(e) => e,
    };
    let rs = match &raw.requires {
        None => return Err("requires is required; use [] for no deps".to_owned()),
        Some(rs) => rs,
    };
    let ghost rv = raw_requires_view(rs@);
    let mut out: Vec<Require> = Vec::new();
    let mut k: usize = 0;
    while k < rs.len()
        invariant
            k <= rs.len(),
            raw.requires == Some(*rs),
            rv == raw_requires_view(rs@),
            first_require_error(raw.name@, rv, k as nat) is None,
            out@.len() == k,
            requires_view(out@) == requires_out(rv.subrange(0, k as int)),
        decreases rs.len() - k,
    {
        if let Some(e) = require_error_exec(raw.name.as_str(), rs, k) {
            proof { lemma_first_require_error_prefix(raw.name@, rv, (k + 1) as nat, rv.len()); }
            return Err(e);
        }
        let ghost before = out@;
        out.push(Require { name: rs[k].name.clone(), version: rs[k].version.clone() });
        assert(requires_view(out@) =~= requires_out(rv.subrange(0, k + 1))) by {
            assert(rv.subrange(0, k + 1) =~= rv.subrange(0, k as int).push(rv[k as int]));
            assert(requires_view(out@) =~= requires_view(before).push(out@[k as int]@));
        }
        k = k + 1;
    }
    assert(rv.subrange(0, rs.len() as int) =~= rv);
    Ok(Descriptor {
        name: raw.name,
        version: raw.version,
        summary: raw.summary,
        constructor,
        effect,
        requires: out,
    })
}

/// A loaded document checked against the schema and validated (see
/// `descriptor_of`).
pub fn parse_document(doc: &YamlValue) -> (r: Result<Descriptor, SpecError>)
    ensures
        match r {
            Ok(d) => descriptor_of(*doc) == Ok::<DescriptorView, SpecErrorView>(d@),
            Err(e) => descriptor_of(*doc) == Err::<DescriptorView, SpecErrorView>(e@),
        },
{
    match raw_decode_exec(doc) {
        Err(e) => Err(SpecError::Yaml(e)),
        Ok(raw) => match validate(raw) {
            Err(e) => Err(SpecError::Invalid(e)),
            Ok(d) => Ok(d),
        },
    }
}

/// Parses and validates a descriptor text (see `parse_spec`).
pub fn parse(yaml: &str) -> (r: Result<Descriptor, SpecError>)
    ensures
        match r {
            Ok(d) => parse_spec(yaml@) == Ok::<DescriptorView, SpecErrorView>(d@),
            Err(e) => parse_spec(yaml@) == Err::<DescriptorView, SpecErrorView>(e@),
        },
{
    match load_yaml(yaml) {
        Err(e) => Err(SpecError::Yaml(e)),
        Ok(doc) => parse_document(&doc),
    }
}

} // verus!

verus! {

/// SHA-256 hex of the raw descriptor text: the registry's content address.
pub fn content_hash(yaml: &str) -> (r: String)
    ensures
        r@ == crate::workplace::id::hex_of(crate::workplace::id::sha256(crate::text::utf8_bytes(yaml@))),
        r@.len() == 64,
{
    let digest = crate::workplace::id::sha256_digest(yaml.as_bytes());
    crate::workplace::id::hex(&digest)
}

pub open spec fn indexed(index: Seq<(String, String)>, r: RequireView) -> bool {
    exists|i: int| 0 <= i < index.len() && (#[trigger] index[i]).0@ == r.name && index[i].1@ == r.version
}

pub open spec fn msg_not_present(r: RequireView) -> Seq<char> {
    "required tool not in registry: "@ + r.name + " "@ + r.version
}

/// Every `requires` entry is in the registry index: lookup only, no graph
/// walk. The first absent entry is reported.
pub fn check_requires_present(d: &Descriptor, index: &[(String, String)]) -> (r: Result<(), SpecError>)
    ensures
        match r {
            Ok(()) => forall|k: int| 0 <= k < d.requires@.len() ==> indexed(index@, #[trigger] d.requires@[k]@),
            Err(e) => exists|k: int| 0 <= k < d.requires@.len()
                && !indexed(index@, #[trigger] d.requires@[k]@)
                && (forall|j: int| 0 <= j < k ==> indexed(index@, #[trigger] d.requires@[j]@))
                && e@ == SpecErrorView::Invalid(msg_not_present(d.requires@[k]@)),
        },
{
    let mut k: usize = 0;
    while k < d.requires.len()
        invariant
            k <= d.requires.len(),
            forall|j: int| 0 <= j < k ==> indexed(index@, #[trigger] d.requires@[j]@),
        decreases d.requires.len() - k,
    {
        let r = &d.requires[k];
        let mut found = false;
        let mut i: usize = 0;
        while i < index.len()
            invariant
                i <= index.len(),
                found ==> indexed(index@, r@),
                !found ==> forall|j: int| 0 <= j < i ==> !((#[trigger] index@[j]).0@ == r.name@ && index@[j].1@ == r.version@),
            decreases index.len() - i,
        {
            if str_eq(index[i].0.as_str(), r.name.as_str()) && str_eq(index[i].1.as_str(), r.version.as_str()) {
                found = true;
            }
            i = i + 1;
        }
        if !found {
            let mut out: Vec<char> = Vec::new();
            push_str(&mut out, "required tool not in registry: ");
            push_str(&mut out, r.name.as_str());
            push_str(&mut out, " ");
            push_str(&mut out, r.version.as_str());
            assert(out@ =~= msg_not_present(r@));
            return Err(SpecError::Invalid(string_of(out.as_slice())));
        }
        k = k + 1;
    }
    Ok(())
}

} // verus!
