//! Resource mnemonics: `<workplace uuid>/<kind>/<path...>`.
use vstd::prelude::*;

use crate::text::{
    chars_of, clone_strings, collect_nonempty, hex_digits, nonempty_pieces, push_hex_digits, split,
    split_chars, str_eq, string_of, strings_view, views_of,
};

verus! {

#[derive(Debug, Clone, Copy, PartialEq, Eq, Structural)]
pub enum ResourceKind {
    File,
    Tree,
    Agent,
    Net,
    Cmd,
    Code,
}

pub open spec fn kind_name(k: ResourceKind) -> Seq<char> {
    match k {
        ResourceKind::File => "file"@,
        ResourceKind::Tree => "tree"@,
        ResourceKind::Agent => "agent"@,
        ResourceKind::Net => "net"@,
        ResourceKind::Cmd => "cmd"@,
        ResourceKind::Code => "code"@,
    }
}

pub open spec fn kind_parse(s: Seq<char>) -> Option<ResourceKind> {
    if s == "file"@ { Some(ResourceKind::File) }
    else if s == "tree"@ { Some(ResourceKind::Tree) }
    else if s == "agent"@ { Some(ResourceKind::Agent) }
    else if s == "net"@ { Some(ResourceKind::Net) }
    else if s == "cmd"@ { Some(ResourceKind::Cmd) }
    else if s == "code"@ { Some(ResourceKind::Code) }
    else { None }
}

impl ResourceKind {
    pub fn as_str(self) -> (r: &'static str)
        ensures
            r@ == kind_name(self),
    {
        match self {
            ResourceKind::File => "file",
            ResourceKind::Tree => "tree",
            ResourceKind::Agent => "agent",
            ResourceKind::Net => "net",
            ResourceKind::Cmd => "cmd",
            ResourceKind::Code => "code",
        }
    }

    pub fn parse(s: &str) -> (r: Option<Self>)
        ensures
            r == kind_parse(s@),
    {
        if str_eq(s, "file") { Some(ResourceKind::File) }
        else if str_eq(s, "tree") { Some(ResourceKind::Tree) }
        else if str_eq(s, "agent") { Some(ResourceKind::Agent) }
        else if str_eq(s, "net") { Some(ResourceKind::Net) }
        else if str_eq(s, "cmd") { Some(ResourceKind::Cmd) }
        else if str_eq(s, "code") { Some(ResourceKind::Code) }
        else { None }
    }
}

/// Canonical lowercase hyphenated text of a 128-bit uuid: 8-4-4-4-12 hex digits.
pub open spec fn uuid_text(u: u128) -> Seq<char> {
    hex_digits(u as nat / 0x1000000000000000000000000, 8) + seq!['-']
        + hex_digits(u as nat / 0x100000000000000000000, 4) + seq!['-']
        + hex_digits(u as nat / 0x10000000000000000, 4) + seq!['-']
        + hex_digits(u as nat / 0x1000000000000, 4) + seq!['-']
        + hex_digits(u as nat, 12)
}

pub fn push_uuid_text(u: u128, out: &mut Vec<char>)
    ensures
        final(out)@ == old(out)@ + uuid_text(u),
{
    push_hex_digits(u / 0x1000000000000000000000000, 8, out);
    out.push('-');
    push_hex_digits(u / 0x100000000000000000000, 4, out);
    out.push('-');
    push_hex_digits(u / 0x10000000000000000, 4, out);
    out.push('-');
    push_hex_digits(u / 0x1000000000000, 4, out);
    out.push('-');
    push_hex_digits(u, 12, out);
    assert(final(out)@ =~= old(out)@ + uuid_text(u));
}

/// Lowercase hyphenated text of `u`.
pub fn uuid_string(u: u128) -> (r: String)
    ensures
        r@ == uuid_text(u),
{
    let mut v: Vec<char> = Vec::new();
    push_uuid_text(u, &mut v);
    assert(v@ =~= uuid_text(u));
    string_of(v.as_slice())
}

/// What `uuid::Uuid::parse_str` gives for a text, as a 128-bit value.
pub uninterp spec fn uuid_parsed(s: Seq<char>) -> Option<u128>;

/// Calls `uuid::Uuid::parse_str` and returns the parsed value as `u128`.
/// Claimed: the result is a function of the text alone, and the canonical
/// hyphenated lowercase text of any `u` parses back to `u` (the crate's
/// documented hyphenated format).
#[verifier::external_body]
pub(crate) fn parse_uuid(s: &str) -> (r: Option<u128>)
    ensures
        r == uuid_parsed(s@),
        forall|u: u128| uuid_text(u) == s@ ==> r == Some(u),
{
    uuid::Uuid::parse_str(s).ok().map(|u| u.as_u128())
}

/// Mnemonic for an object inside a workplace. Content identity is the
/// object id, not this.
#[derive(Debug, PartialEq, Eq)]
pub struct Resource {
    pub workplace: u128,
    pub kind: ResourceKind,
    pub path: Vec<String>,
}

pub struct ResourceView {
    pub workplace: u128,
    pub kind: ResourceKind,
    pub path: Seq<Seq<char>>,
}

impl View for Resource {
    type V = ResourceView;

    open spec fn view(&self) -> ResourceView {
        ResourceView { workplace: self.workplace, kind: self.kind, path: strings_view(self.path@) }
    }
}

pub open spec fn path_text(path: Seq<Seq<char>>) -> Seq<char>
    decreases path.len(),
{
    if path.len() == 0 {
        Seq::empty()
    } else {
        path_text(path.drop_last()) + seq!['/'] + path.last()
    }
}

/// `<uuid>/<kind>` followed by `/<piece>` for each path piece.
pub open spec fn resource_text(r: ResourceView) -> Seq<char> {
    uuid_text(r.workplace) + seq!['/'] + kind_name(r.kind) + path_text(r.path)
}

pub open spec fn resource_parse(s: Seq<char>) -> Result<ResourceView, Seq<char>> {
    let parts = split(s, '/');
    match uuid_parsed(parts[0]) {
        None => Err("workplace id must be a uuid"@),
        Some(w) => if parts.len() < 2 {
            Err("missing kind"@)
        } else {
            match kind_parse(parts[1]) {
                None => Err("unknown resource kind"@),
                Some(k) => Ok(ResourceView { workplace: w, kind: k, path: nonempty_pieces(parts.skip(2)) }),
            }
        },
    }
}

/// A path whose pieces survive rendering and parsing unchanged.
pub open spec fn plain_path(path: Seq<Seq<char>>) -> bool {
    forall|i: int| 0 <= i < path.len() ==> path[i].len() > 0 && !path[i].contains('/')
}

impl Clone for Resource {
    fn clone(&self) -> (r: Self)
        ensures
            r@ == self@,
            r.path@ == self.path@,
    {
        Resource { workplace: self.workplace, kind: self.kind, path: clone_strings(&self.path) }
    }
}

impl Resource {
    pub fn new(workplace: u128, kind: ResourceKind, path: Vec<String>) -> (r: Self)
        ensures
            r.workplace == workplace,
            r.kind == kind,
            r.path == path,
    {
        Resource { workplace, kind, path }
    }

    pub fn parse(s: &str) -> (r: Result<Self, String>)
        ensures
            match r {
                Ok(res) => resource_parse(s@) == Ok::<ResourceView, Seq<char>>(res@),
                Err(e) => resource_parse(s@) == Err::<ResourceView, Seq<char>>(e@),
            },
            forall|v: ResourceView| #[trigger] resource_text(v) == s@ && plain_path(v.path)
                ==> (r matches Ok(res) && res@ == v),
    {
        let cs = chars_of(s);
        let parts = split_chars(cs.as_slice(), '/');
        proof {
            crate::text::lemma_split_nonempty(s@, '/');
            assert forall|v: ResourceView| #[trigger] resource_text(v) == s@ && plain_path(v.path)
                implies split(s@, '/').len() >= 2 && split(s@, '/')[0] == uuid_text(v.workplace)
                    && kind_parse(split(s@, '/')[1]) == Some(v.kind)
                    && nonempty_pieces(split(s@, '/').skip(2)) == v.path by {
                lemma_resource_text_parts(v);
                assert(split(s@, '/').skip(2) =~= v.path);
            }
        }
        let first = string_of(parts[0].as_slice());
        assert(first@ == split(s@, '/')[0]);
        let wp = match parse_uuid(first.as_str()) {
            Some(w) => w,
            None => return Err("workplace id must be a uuid".to_owned()),
        };
        if parts.len() < 2 {
            return Err("missing kind".to_owned());
        }
        let kind_text = string_of(parts[1].as_slice());
        assert(kind_text@ == split(s@, '/')[1]);
        let kind = match ResourceKind::parse(kind_text.as_str()) {
            Some(k) => k,
            None => return Err("unknown resource kind".to_owned()),
        };
        let path = collect_nonempty(&parts, 2);
        Ok(Resource { workplace: wp, kind, path })
    }

    /// The mnemonic text.
    pub fn render(&self) -> (r: String)
        ensures
            r@ == resource_text(self@),
    {
        let mut out: Vec<char> = Vec::new();
        push_uuid_text(self.workplace, &mut out);
        out.push('/');
        let k = chars_of(self.kind.as_str());
        let mut j: usize = 0;
        while j < k.len()
            invariant
                j <= k.len(),
                k@ == kind_name(self.kind),
                out@ == uuid_text(self.workplace) + seq!['/'] + k@.subrange(0, j as int),
            decreases k.len() - j,
        {
            out.push(k[j]);
            assert(k@.subrange(0, j + 1) =~= k@.subrange(0, j as int).push(k@[j as int]));
            j = j + 1;
        }
        assert(k@.subrange(0, k.len() as int) =~= k@);
        let mut i: usize = 0;
        while i < self.path.len()
            invariant
                i <= self.path.len(),
                out@ == uuid_text(self.workplace) + seq!['/'] + kind_name(self.kind)
                    + path_text(strings_view(self.path@).subrange(0, i as int)),
            decreases self.path.len() - i,
        {
            let ghost before = out@;
            out.push('/');
            let p = chars_of(self.path[i].as_str());
            let mut j: usize = 0;
            while j < p.len()
                invariant
                    j <= p.len(),
                    out@ == before + seq!['/'] + p@.subrange(0, j as int),
                decreases p.len() - j,
            {
                out.push(p[j]);
                assert(p@.subrange(0, j + 1) =~= p@.subrange(0, j as int).push(p@[j as int]));
                j = j + 1;
            }
            assert(p@.subrange(0, p.len() as int) =~= p@);
            let ghost pv = strings_view(self.path@);
            assert(pv.subrange(0, i + 1).drop_last() =~= pv.subrange(0, i as int));
            assert(out@ =~= uuid_text(self.workplace) + seq!['/'] + kind_name(self.kind)
                + path_text(pv.subrange(0, i + 1)));
            i = i + 1;
        }
        assert(strings_view(self.path@).subrange(0, self.path.len() as int) =~= strings_view(self.path@));
        string_of(out.as_slice())
    }
}

} // verus!

verus! {

proof fn lemma_no_slash_hex(u: nat, n: nat)
    ensures
        !hex_digits(u, n).contains('/'),
{
    crate::text::lemma_hex_digits_alphabet(u, n);
    if hex_digits(u, n).contains('/') {
        let i = choose|i: int| 0 <= i < hex_digits(u, n).len() && hex_digits(u, n)[i] == '/';
        assert(hex_digits(u, n)[i] == '/');
    }
}

proof fn lemma_uuid_text_plain(u: u128)
    ensures
        !uuid_text(u).contains('/'),
{
    let a = hex_digits(u as nat / 0x1000000000000000000000000, 8);
    let b = hex_digits(u as nat / 0x100000000000000000000, 4);
    let c = hex_digits(u as nat / 0x10000000000000000, 4);
    let d = hex_digits(u as nat / 0x1000000000000, 4);
    let e = hex_digits(u as nat, 12);
    lemma_no_slash_hex(u as nat / 0x1000000000000000000000000, 8);
    lemma_no_slash_hex(u as nat / 0x100000000000000000000, 4);
    lemma_no_slash_hex(u as nat / 0x10000000000000000, 4);
    lemma_no_slash_hex(u as nat / 0x1000000000000, 4);
    lemma_no_slash_hex(u as nat, 12);
    let t = uuid_text(u);
    if t.contains('/') {
        let i = choose|i: int| 0 <= i < t.len() && t[i] == '/';
        let la = a.len() as int;
        let lb = b.len() as int;
        let lc = c.len() as int;
        let ld = d.len() as int;
        assert(t =~= a + seq!['-'] + b + seq!['-'] + c + seq!['-'] + d + seq!['-'] + e);
        if i < la {
            assert(a[i] == '/');
        } else if i == la {
        } else if i < la + 1 + lb {
            assert(b[i - la - 1] == '/');
        } else if i == la + 1 + lb {
        } else if i < la + 2 + lb + lc {
            assert(c[i - la - 2 - lb] == '/');
        } else if i == la + 2 + lb + lc {
        } else if i < la + 3 + lb + lc + ld {
            assert(d[i - la - 3 - lb - lc] == '/');
        } else if i == la + 3 + lb + lc + ld {
        } else {
            assert(e[i - la - 4 - lb - lc - ld] == '/');
        }
    }
}

proof fn lemma_kind_name_plain(k: ResourceKind)
    ensures
        !kind_name(k).contains('/'),
        kind_parse(kind_name(k)) == Some(k),
{
    reveal_strlit("file");
    reveal_strlit("tree");
    reveal_strlit("agent");
    reveal_strlit("net");
    reveal_strlit("cmd");
    reveal_strlit("code");
    let t = kind_name(k);
    match k {
        ResourceKind::File => {}
        ResourceKind::Tree => { assert("tree"@[0] != "file"@[0]); }
        ResourceKind::Agent => { assert("agent"@[0] != "file"@[0]); assert("agent"@[0] != "tree"@[0]); }
        ResourceKind::Net => { assert("net"@ != "file"@); assert("net"@ != "tree"@); assert("net"@ != "agent"@); }
        ResourceKind::Cmd => {
            assert("cmd"@ != "file"@); assert("cmd"@ != "tree"@); assert("cmd"@ != "agent"@); assert("cmd"@[0] != "net"@[0]);
        }
        ResourceKind::Code => {
            assert("code"@[0] != "file"@[0]); assert("code"@[0] != "tree"@[0]); assert("code"@ != "agent"@);
            assert("code"@ != "net"@); assert("code"@.len() != "cmd"@.len());
        }
    }
    if t.contains('/') {
        let i = choose|i: int| 0 <= i < t.len() && t[i] == '/';
        assert(t[i] == '/');
    }
}

proof fn lemma_path_split(k: Seq<char>, path: Seq<Seq<char>>)
    requires
        !k.contains('/'),
        plain_path(path),
    ensures
        split(k + path_text(path), '/') == seq![k] + path,
    decreases path.len(),
{
    if path.len() == 0 {
        assert(k + path_text(path) =~= k);
        crate::text::lemma_split_plain(k, '/');
        assert(seq![k] + path =~= seq![k]);
    } else {
        let p1 = path.drop_last();
        assert(plain_path(p1)) by {
            assert forall|i: int| 0 <= i < p1.len() implies p1[i].len() > 0 && !p1[i].contains('/') by {
                assert(p1[i] == path[i]);
            }
        }
        lemma_path_split(k, p1);
        assert(path.last() == path[path.len() - 1]);
        crate::text::lemma_split_plain(path.last(), '/');
        crate::text::lemma_split_concat(k + path_text(p1), path.last(), '/');
        assert(k + path_text(path) =~= (k + path_text(p1)) + seq!['/'] + path.last());
        assert(seq![k] + path =~= (seq![k] + p1) + seq![path.last()]);
    }
}

/// The mnemonic text of a resource whose path pieces are non-empty and
/// slash-free splits back into its uuid text, its kind and its pieces.
pub proof fn lemma_resource_text_parts(r: ResourceView)
    requires
        plain_path(r.path),
    ensures
        split(resource_text(r), '/') == seq![uuid_text(r.workplace), kind_name(r.kind)] + r.path,
        kind_parse(kind_name(r.kind)) == Some(r.kind),
        nonempty_pieces(r.path) == r.path,
{
    lemma_uuid_text_plain(r.workplace);
    lemma_kind_name_plain(r.kind);
    lemma_path_split(kind_name(r.kind), r.path);
    crate::text::lemma_split_plain(uuid_text(r.workplace), '/');
    assert(resource_text(r) =~= uuid_text(r.workplace) + seq!['/'] + (kind_name(r.kind) + path_text(r.path)));
    crate::text::lemma_split_concat(uuid_text(r.workplace), kind_name(r.kind) + path_text(r.path), '/');
    assert(seq![uuid_text(r.workplace)] + (seq![kind_name(r.kind)] + r.path)
        =~= seq![uuid_text(r.workplace), kind_name(r.kind)] + r.path);
    crate::text::lemma_nonempty_pieces_keep(r.path);
}

} // verus!
