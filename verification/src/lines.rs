//! Line splitting and trimming as `str::lines` and `str::trim` do them.
use vstd::prelude::*;

use crate::text::{is_space, is_space_char, split, split_chars, string_of, views_of, lemma_split_nonempty};

verus! {

/// A line loses the `\r` of a `\r\n` ending.
pub open spec fn strip_cr(p: Seq<char>) -> Seq<char> {
    if p.len() > 0 && p.last() == '\r' { p.drop_last() } else { p }
}

/// `str::lines`: pieces between `\n`, each without a `\r` before its `\n`;
/// a last piece with no `\n` after it is kept as it is, unless empty.
pub open spec fn lines(s: Seq<char>) -> Seq<Seq<char>> {
    let ps = split(s, '\n');
    let body = ps.drop_last().map_values(|p: Seq<char>| strip_cr(p));
    if ps.last().len() == 0 { body } else { body.push(ps.last()) }
}

pub open spec fn strings_of(v: Seq<String>) -> Seq<Seq<char>> {
    v.map_values(|x: String| x@)
}

/// The characters `cs[i..j]` as a string.
pub fn sub_string(cs: &[char], i: usize, j: usize) -> (r: String)
    requires
        i <= j <= cs@.len(),
    ensures
        r@ == cs@.subrange(i as int, j as int),
{
    let mut out: Vec<char> = Vec::new();
    let mut k: usize = i;
    while k < j
        invariant
            i <= k <= j <= cs@.len(),
            out@ == cs@.subrange(i as int, k as int),
        decreases j - k,
    {
        out.push(cs[k]);
        assert(out@ =~= cs@.subrange(i as int, k + 1));
        k = k + 1;
    }
    string_of(out.as_slice())
}

/// The lines of `s`.
pub fn lines_of(s: &[char]) -> (r: Vec<String>)
    ensures
        strings_of(r@) == lines(s@),
{
    let ps = split_chars(s, '\n');
    proof { lemma_split_nonempty(s@, '\n'); }
    let ghost sp = split(s@, '\n');
    assert(views_of(ps@) == sp);
    assert(ps@.len() == sp.len());
    let n = ps.len();
    let mut out: Vec<String> = Vec::new();
    let mut k: usize = 0;
    while k + 1 < n
        invariant
            n == ps@.len(),
            n >= 1,
            views_of(ps@) == sp,
            k + 1 <= n,
            strings_of(out@) == sp.subrange(0, k as int).map_values(|p: Seq<char>| strip_cr(p)),
        decreases n - k,
    {
        let p = &ps[k];
        assert(p@ == sp[k as int]);
        let m = p.len();
        let line = if m > 0 && p[m - 1] == '\r' { sub_string(p.as_slice(), 0, m - 1) } else { sub_string(p.as_slice(), 0, m) };
        assert(line@ == strip_cr(sp[k as int])) by {
            assert(p@.subrange(0, m as int) =~= p@);
            if m > 0 {
                assert(p@.last() == p@[m - 1]);
                assert(p@.subrange(0, m - 1) =~= p@.drop_last());
            }
        }
        let ghost before = out@;
        out.push(line);
        assert(strings_of(out@) =~= strings_of(before).push(line@));
        assert(sp.subrange(0, k + 1).map_values(|p: Seq<char>| strip_cr(p)) =~= sp.subrange(0, k as int).map_values(|p: Seq<char>| strip_cr(p)).push(strip_cr(sp[k as int])));
        k = k + 1;
    }
    assert(sp.subrange(0, k as int) =~= sp.drop_last());
    let last = &ps[n - 1];
    assert(last@ == sp.last());
    if last.len() > 0 {
        out.push(string_of(last.as_slice()));
        assert(strings_of(out@) =~= lines(s@));
    } else {
        assert(strings_of(out@) =~= lines(s@));
    }
    out
}

/// `s` without its leading whitespace.
pub open spec fn trim_front(s: Seq<char>) -> Seq<char>
    decreases s.len(),
{
    if s.len() > 0 && is_space(s[0]) { trim_front(s.drop_first()) } else { s }
}

/// `s` without its trailing whitespace.
pub open spec fn trim_back(s: Seq<char>) -> Seq<char>
    decreases s.len(),
{
    if s.len() > 0 && is_space(s.last()) { trim_back(s.drop_last()) } else { s }
}

/// `str::trim`: without leading and trailing whitespace.
pub open spec fn trim(s: Seq<char>) -> Seq<char> {
    trim_back(trim_front(s))
}

/// `s` trimmed.
pub fn trim_chars(cs: &[char]) -> (r: String)
    ensures
        r@ == trim(cs@),
{
    let n = cs.len();
    let mut i: usize = 0;
    assert(cs@.skip(0) =~= cs@);
    while i < n && is_space_char(cs[i])
        invariant
            i <= n == cs@.len(),
            trim_front(cs@) == trim_front(cs@.skip(i as int)),
        decreases n - i,
    {
        assert(cs@.skip(i as int)[0] == cs@[i as int]);
        assert(cs@.skip(i as int).drop_first() =~= cs@.skip(i + 1));
        i = i + 1;
    }
    assert(trim_front(cs@) == cs@.skip(i as int)) by {
        if i < n {
            assert(cs@.skip(i as int)[0] == cs@[i as int]);
        } else {
            assert(cs@.skip(i as int).len() == 0);
        }
    }
    let mut j: usize = n;
    assert(cs@.subrange(i as int, n as int) =~= cs@.skip(i as int));
    while j > i && is_space_char(cs[j - 1])
        invariant
            i <= j <= n == cs@.len(),
            trim(cs@) == trim_back(cs@.subrange(i as int, j as int)),
        decreases j - i,
    {
        assert(cs@.subrange(i as int, j as int).last() == cs@[j - 1]);
        assert(cs@.subrange(i as int, j as int).drop_last() =~= cs@.subrange(i as int, j - 1));
        j = j - 1;
    }
    assert(trim(cs@) == cs@.subrange(i as int, j as int)) by {
        if j > i {
            assert(cs@.subrange(i as int, j as int).last() == cs@[j - 1]);
        }
    }
    sub_string(cs, i, j)
}

/// Whether `s` begins with `p`.
pub fn has_prefix(s: &[char], p: &[char]) -> (r: bool)
    ensures
        r == (p@.len() <= s@.len() && s@.subrange(0, p@.len() as int) == p@),
{
    if p.len() > s.len() {
        return false;
    }
    let mut k: usize = 0;
    while k < p.len()
        invariant
            k <= p@.len() <= s@.len(),
            forall|t: int| 0 <= t < k ==> s@[t] == p@[t],
        decreases p.len() - k,
    {
        if s[k] != p[k] {
            assert(s@.subrange(0, p@.len() as int)[k as int] != p@[k as int]);
            return false;
        }
        k = k + 1;
    }
    assert(s@.subrange(0, p@.len() as int) =~= p@);
    true
}

/// Whether `s` ends with `p`.
pub fn has_suffix(s: &[char], p: &[char]) -> (r: bool)
    ensures
        r == (p@.len() <= s@.len() && s@.subrange(s@.len() - p@.len(), s@.len() as int) == p@),
{
    if p.len() > s.len() {
        return false;
    }
    let d = s.len() - p.len();
    let mut k: usize = 0;
    while k < p.len()
        invariant
            k <= p@.len() <= s@.len(),
            d == s@.len() - p@.len(),
            d + p@.len() == s@.len(),
            s@.len() == s.len(),
            forall|t: int| 0 <= t < k ==> s@[d + t] == p@[t],
        decreases p.len() - k,
    {
        if s[d + k] != p[k] {
            assert(s@.subrange(d as int, s@.len() as int)[k as int] != p@[k as int]);
            return false;
        }
        k = k + 1;
    }
    assert(s@.subrange(d as int, s@.len() as int) =~= p@);
    true
}

} // verus!
