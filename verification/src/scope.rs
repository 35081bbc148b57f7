//! Which source files a crate is made of: the files that its root reaches through
//! active `mod` declarations (with or without `#[path]`) and literal `include!`s,
//! and the `cfg` options that decide which of them are active.
use vstd::prelude::*;
use crate::cfg::{cfg_active, cfg_holds, has_name, has_pair, Cfg, CfgSet};
use crate::path::{
    is_absolute, joined, join_path, lemma_rfind_char_in, rfind_char_exec, rfind_char_in,
};
use crate::sources::strings_view;
use crate::text::{chars_of, find_char, find_char_exec, string_of_range};

verus! {

// ----------------------------------------------------------------------
// Directories
// ----------------------------------------------------------------------

/// The directory part of `p` (`Path::parent`, with `""` for a bare file name).
pub open spec fn parent_dir(p: Seq<char>) -> Seq<char> {
    match rfind_char_in(p, '/', 0, p.len() as int) {
        Some(k) => if k == 0 {
            seq!['/']
        } else {
            p.take(k)
        },
        None => seq![],
    }
}

/// `base` with the names of enclosing inline modules appended, outermost first.
pub open spec fn nested_dir(base: Seq<char>, nest: Seq<Seq<char>>) -> Seq<char>
    decreases nest.len(),
{
    if nest.len() == 0 {
        base
    } else {
        joined(nested_dir(base, nest.drop_last()), nest.last())
    }
}

fn parent_dir_exec(p: &str) -> (out: String)
    ensures
        out@ == parent_dir(p@),
{
    let c = chars_of(p);
    match rfind_char_exec(&c, '/', 0, c.len()) {
        Some(k) => {
            if k == 0 {
                proof {
                    reveal_strlit("/");
                }
                let out = "/".to_owned();
                assert(out@ =~= seq!['/']);
                out
            } else {
                let out = string_of_range(&c, 0, k);
                assert(c@.subrange(0, k as int) =~= c@.take(k as int));
                out
            }
        },
        None => {
            let out = String::new();
            assert(out@ =~= Seq::<char>::empty());
            out
        },
    }
}

fn nested_dir_exec(base: &str, nest: &Vec<String>) -> (out: String)
    ensures
        out@ == nested_dir(base@, strings_view(nest@)),
{
    let ghost nv = strings_view(nest@);
    let mut out = base.to_owned();
    let mut i: usize = 0;
    assert(nv.take(0) =~= seq![]);
    while i < nest.len()
        invariant
            i <= nest.len(),
            nv == strings_view(nest@),
            out@ == nested_dir(base@, nv.take(i as int)),
        decreases nest.len() - i,
    {
        assert(nv.take(i + 1).drop_last() =~= nv.take(i as int));
        assert(nv.take(i + 1).last() == nest@[i as int]@);
        out = join_path(out.as_str(), nest[i].as_str());
        i = i + 1;
    }
    assert(nv.take(nest.len() as int) =~= nv);
    out
}

// ----------------------------------------------------------------------
// References between files
// ----------------------------------------------------------------------

/// A source file of the crate, with the directory its child modules live in.
pub struct SourceFile {
    pub path: String,
    pub child_dir: String,
}

/// A reference from a source file to another file. `cfgs` are the `cfg`
/// predicates on it and on the inline modules around it, all of which must hold;
/// `nest` names those inline modules, outermost first.
pub enum SourceRef {
    /// `mod ident;`, with its `#[path]` attribute if it has one.
    Mod { cfgs: Vec<Cfg>, nest: Vec<String>, ident: String, path: Option<String> },
    /// `include!("path")` with a literal path.
    Include { cfgs: Vec<Cfg>, nest: Vec<String>, path: String },
}

/// Where a reference leads: the paths to try, in order (the first that exists is
/// the file), and the directory the child modules of that file live in.
pub struct Reach {
    pub candidates: Vec<String>,
    pub child_dir: String,
}

/// What a `Reach` holds, as text.
pub struct ReachView {
    pub candidates: Seq<Seq<char>>,
    pub child_dir: Seq<char>,
}

impl View for Reach {
    type V = ReachView;

    open spec fn view(&self) -> ReachView {
        ReachView { candidates: strings_view(self.candidates@), child_dir: self.child_dir@ }
    }
}

/// The views of a run of reaches.
pub open spec fn reaches_view(v: Seq<Reach>) -> Seq<ReachView> {
    Seq::new(v.len(), |i: int| v[i]@)
}

/// Every predicate of `cfgs` holds for `on`.
pub open spec fn all_hold(cfgs: Seq<Cfg>, on: CfgSet) -> bool {
    forall|i: int| 0 <= i < cfgs.len() ==> cfg_holds(#[trigger] cfgs[i], on)
}

/// The reference is compiled with the options `on`.
pub open spec fn ref_active(r: SourceRef, on: CfgSet) -> bool {
    match r {
        SourceRef::Mod { cfgs, .. } => all_hold(cfgs@, on),
        SourceRef::Include { cfgs, .. } => all_hold(cfgs@, on),
    }
}

/// Where a reference in the file at `path`, whose child modules live in `child`,
/// leads. A module goes to `name.rs` or `name/mod.rs` in the directory of the
/// enclosing module, or to its `#[path]`, taken from the file's directory (from the
/// inline modules' directory inside inline modules), and a `#[path]` file keeps its
/// own modules next to it. An `include!` path is taken from the file's directory,
/// and what it includes belongs to the enclosing module.
pub open spec fn reach_of(path: Seq<char>, child: Seq<char>, r: SourceRef) -> ReachView {
    match r {
        SourceRef::Mod { nest, ident, path: attr, .. } => {
            let base = nested_dir(child, strings_view(nest@));
            match attr {
                Some(p) => {
                    let from = if nest.len() == 0 {
                        parent_dir(path)
                    } else {
                        base
                    };
                    let target = joined(from, p@);
                    ReachView { candidates: seq![target], child_dir: parent_dir(target) }
                },
                None => ReachView {
                    candidates: seq![
                        joined(base, ident@ + ".rs"@),
                        joined(joined(base, ident@), "mod.rs"@),
                    ],
                    child_dir: joined(base, ident@),
                },
            }
        },
        SourceRef::Include { nest, path: p, .. } => ReachView {
            candidates: seq![joined(parent_dir(path), p@)],
            child_dir: nested_dir(child, strings_view(nest@)),
        },
    }
}

/// Where the active references of a file lead, in order.
pub open spec fn reaches(path: Seq<char>, child: Seq<char>, refs: Seq<SourceRef>, on: CfgSet) -> Seq<
    ReachView,
>
    decreases refs.len(),
{
    if refs.len() == 0 {
        seq![]
    } else {
        reaches(path, child, refs.drop_last(), on) + if ref_active(refs.last(), on) {
            seq![reach_of(path, child, refs.last())]
        } else {
            seq![]
        }
    }
}

/// Where an `include!` leads depends on the including file's own path, never on
/// the directory of its child modules.
pub proof fn lemma_include_ignores_child_dir(path: Seq<char>, c1: Seq<char>, c2: Seq<char>, r: SourceRef)
    requires
        r is Include,
    ensures
        reach_of(path, c1, r).candidates == reach_of(path, c2, r).candidates,
{
}

/// A relative `include!` path names the file beside the including file: in
/// `dir/name`, `include!("q")` leads to `dir/q`.
pub proof fn lemma_include_beside_file(dir: Seq<char>, name: Seq<char>, child: Seq<char>, r: SourceRef)
    requires
        r is Include,
        dir.len() > 0,
        dir.last() != '/',
        forall|i: int| 0 <= i < name.len() ==> name[i] != '/',
        !is_absolute(r->Include_path@),
    ensures
        reach_of(dir + seq!['/'] + name, child, r).candidates == seq![
            dir + seq!['/'] + r->Include_path@,
        ],
{
    let t = dir + seq!['/'] + name;
    lemma_rfind_char_in(t, '/', 0, t.len() as int);
    assert(t[dir.len() as int] == '/');
    assert forall|j: int| dir.len() < j < t.len() implies t[j] != '/' by {
        assert(t[j] == name[j - dir.len() - 1]);
    }
    let found = rfind_char_in(t, '/', 0, t.len() as int);
    if let Some(k) = found {
        if k < dir.len() {
        }
    }
    assert(found == Some(dir.len() as int));
    assert(t.take(dir.len() as int) =~= dir);
    assert(parent_dir(t) == dir);
    assert(dir.last() == dir[dir.len() - 1]);
}

/// Where `mod name;` (without `#[path]`) leads depends on the directory of the
/// file's child modules, never on the file's own path.
pub proof fn lemma_mod_ignores_file_path(p1: Seq<char>, p2: Seq<char>, child: Seq<char>, r: SourceRef)
    requires
        r matches SourceRef::Mod { path: None, .. },
    ensures
        reach_of(p1, child, r) == reach_of(p2, child, r),
{
}

fn all_active(cfgs: &Vec<Cfg>, on: &CfgSet) -> (b: bool)
    ensures
        b == all_hold(cfgs@, *on),
{
    let mut i: usize = 0;
    while i < cfgs.len()
        invariant
            i <= cfgs.len(),
            forall|j: int| 0 <= j < i ==> cfg_holds(#[trigger] cfgs@[j], *on),
        decreases cfgs.len() - i,
    {
        if !cfg_active(&cfgs[i], on) {
            return false;
        }
        i = i + 1;
    }
    true
}

fn with_suffix(a: &str, b: &str) -> (out: String)
    ensures
        out@ == a@ + b@,
{
    let mut out = a.to_owned();
    out.append(b);
    out
}

fn reach_exec(file: &SourceFile, r: &SourceRef) -> (out: Reach)
    ensures
        out@ == reach_of(file.path@, file.child_dir@, *r),
{
    match r {
        SourceRef::Mod { nest, ident, path: attr, .. } => {
            let base = nested_dir_exec(file.child_dir.as_str(), nest);
            match attr {
                Some(p) => {
                    let from = if nest.len() == 0 {
                        parent_dir_exec(file.path.as_str())
                    } else {
                        base
                    };
                    let target = join_path(from.as_str(), p.as_str());
                    let child_dir = parent_dir_exec(target.as_str());
                    let mut candidates: Vec<String> = Vec::new();
                    candidates.push(target);
                    let out = Reach { candidates, child_dir };
                    assert(out@.candidates =~= reach_of(
                        file.path@,
                        file.child_dir@,
                        *r,
                    ).candidates);
                    out
                },
                None => {
                    let name = with_suffix(ident.as_str(), ".rs");
                    let first = join_path(base.as_str(), name.as_str());
                    let dir = join_path(base.as_str(), ident.as_str());
                    let second = join_path(dir.as_str(), "mod.rs");
                    let mut candidates: Vec<String> = Vec::new();
                    candidates.push(first);
                    candidates.push(second);
                    let out = Reach { candidates, child_dir: dir };
                    assert(out@.candidates =~= reach_of(
                        file.path@,
                        file.child_dir@,
                        *r,
                    ).candidates);
                    out
                },
            }
        },
        SourceRef::Include { nest, path: p, .. } => {
            let from = parent_dir_exec(file.path.as_str());
            let target = join_path(from.as_str(), p.as_str());
            let child_dir = nested_dir_exec(file.child_dir.as_str(), nest);
            let mut candidates: Vec<String> = Vec::new();
            candidates.push(target);
            let out = Reach { candidates, child_dir };
            assert(out@.candidates =~= reach_of(file.path@, file.child_dir@, *r).candidates);
            out
        },
    }
}

/// Where the references `refs` of `file` that are active with the options `on`
/// lead, in order.
pub fn reached_from(file: &SourceFile, refs: &Vec<SourceRef>, on: &CfgSet) -> (out: Vec<Reach>)
    ensures
        reaches_view(out@) == reaches(file.path@, file.child_dir@, refs@, *on),
{
    let mut out: Vec<Reach> = Vec::new();
    let mut i: usize = 0;
    assert(refs@.take(0) =~= seq![]);
    assert(reaches_view(out@) =~= seq![]);
    while i < refs.len()
        invariant
            i <= refs.len(),
            reaches_view(out@) == reaches(file.path@, file.child_dir@, refs@.take(i as int), *on),
        decreases refs.len() - i,
    {
        let ghost before = reaches_view(out@);
        assert(refs@.take(i + 1).drop_last() =~= refs@.take(i as int));
        assert(refs@.take(i + 1).last() == refs@[i as int]);
        let active = match &refs[i] {
            SourceRef::Mod { cfgs, .. } => all_active(cfgs, on),
            SourceRef::Include { cfgs, .. } => all_active(cfgs, on),
        };
        if active {
            let r = reach_exec(file, &refs[i]);
            out.push(r);
            assert(reaches_view(out@) =~= before.push(reach_of(file.path@, file.child_dir@, refs@[i as int])));
        } else {
            assert(reaches_view(out@) =~= before);
        }
        i = i + 1;
    }
    assert(refs@.take(refs.len() as int) =~= refs@);
    out
}

/// The root file of a crate target, whose modules live next to it.
pub fn crate_root(path: &str) -> (out: SourceFile)
    ensures
        out.path@ == path@,
        out.child_dir@ == parent_dir(path@),
{
    SourceFile { path: path.to_owned(), child_dir: parent_dir_exec(path) }
}

/// A module file reached through a reference; its child modules live in
/// `child_dir`, or, for a `name.rs` file, in `name/`.
pub fn reached_file(path: &str, child_dir: &str) -> (out: SourceFile)
    ensures
        out.path@ == path@,
        out.child_dir@ == child_dir@,
{
    SourceFile { path: path.to_owned(), child_dir: child_dir.to_owned() }
}

// ----------------------------------------------------------------------
// The options of a build
// ----------------------------------------------------------------------

/// `v` without the double quotes around it, if it has them.
pub open spec fn unquoted(v: Seq<char>) -> Seq<char> {
    if v.len() >= 2 && v[0] == '"' && v.last() == '"' {
        v.subrange(1, v.len() - 1)
    } else {
        v
    }
}

/// The bare option that a line of `rustc --print cfg` sets, if it sets one.
pub open spec fn line_name(l: Seq<char>) -> Option<Seq<char>> {
    if l.len() > 0 && find_char(l, '=') is None {
        Some(l)
    } else {
        None
    }
}

/// The key-value option that a line of `rustc --print cfg` sets, if it sets one.
pub open spec fn line_pair(l: Seq<char>) -> Option<(Seq<char>, Seq<char>)> {
    match find_char(l, '=') {
        Some(i) => Some((l.take(i), unquoted(l.skip(i + 1)))),
        None => None,
    }
}

/// The bare options that the lines set, in order.
pub open spec fn names_of(lines: Seq<Seq<char>>) -> Seq<Seq<char>>
    decreases lines.len(),
{
    if lines.len() == 0 {
        seq![]
    } else {
        names_of(lines.drop_last()) + match line_name(lines.last()) {
            Some(n) => seq![n],
            None => seq![],
        }
    }
}

/// The key-value options that the lines set, in order.
pub open spec fn pairs_of(lines: Seq<Seq<char>>) -> Seq<(Seq<char>, Seq<char>)>
    decreases lines.len(),
{
    if lines.len() == 0 {
        seq![]
    } else {
        pairs_of(lines.drop_last()) + match line_pair(lines.last()) {
            Some(p) => seq![p],
            None => seq![],
        }
    }
}

/// The views of a run of key-value pairs.
pub open spec fn pairs_view(v: Seq<(String, String)>) -> Seq<(Seq<char>, Seq<char>)> {
    Seq::new(v.len(), |i: int| (v[i].0@, v[i].1@))
}

/// Every line that `rustc --print cfg` writes sets its option, wherever the line
/// stands: `key="value"` sets the pair and any other non-empty line its name; and
/// every option read comes from such a line.
pub proof fn lemma_cfg_lines_read(lines: Seq<Seq<char>>)
    ensures
        forall|j: int|
            0 <= j < lines.len() ==> match find_char(#[trigger] lines[j], '=') {
                Some(i) => pairs_of(lines).contains((lines[j].take(i), unquoted(lines[j].skip(i + 1)))),
                None => lines[j].len() > 0 ==> names_of(lines).contains(lines[j]),
            },
        forall|k: int|
            #![trigger pairs_of(lines)[k]]
            0 <= k < pairs_of(lines).len() ==> exists|j: int|
                0 <= j < lines.len() && line_pair(#[trigger] lines[j]) == Some(pairs_of(lines)[k]),
        forall|k: int|
            #![trigger names_of(lines)[k]]
            0 <= k < names_of(lines).len() ==> exists|j: int|
                0 <= j < lines.len() && line_name(#[trigger] lines[j]) == Some(names_of(lines)[k]),
    decreases lines.len(),
{
    if lines.len() > 0 {
        let d = lines.drop_last();
        lemma_cfg_lines_read(d);
        let l = lines.last();
        let pd = pairs_of(d);
        let nd = names_of(d);
        let pl = pairs_of(lines);
        let nl = names_of(lines);
        assert forall|j: int| 0 <= j < lines.len() implies match find_char(#[trigger] lines[j], '=') {
            Some(i) => pl.contains((lines[j].take(i), unquoted(lines[j].skip(i + 1)))),
            None => lines[j].len() > 0 ==> nl.contains(lines[j]),
        } by {
            if j < d.len() {
                assert(lines[j] == d[j]);
                match find_char(d[j], '=') {
                    Some(i) => {
                        let q = (d[j].take(i), unquoted(d[j].skip(i + 1)));
                        assert(pd.contains(q));
                        let m = choose|m: int| 0 <= m < pd.len() && pd[m] == q;
                        assert(pl[m] == pd[m]);
                    },
                    None => {
                        if d[j].len() > 0 {
                            assert(nd.contains(d[j]));
                            let m = choose|m: int| 0 <= m < nd.len() && nd[m] == d[j];
                            assert(nl[m] == nd[m]);
                        }
                    },
                }
            } else {
                assert(lines[j] == l);
                match find_char(l, '=') {
                    Some(i) => {
                        assert(pl[pd.len() as int] == (l.take(i), unquoted(l.skip(i + 1))));
                    },
                    None => {
                        if l.len() > 0 {
                            assert(nl[nd.len() as int] == l);
                        }
                    },
                }
            }
        }
        assert forall|k: int| #![trigger pl[k]] 0 <= k < pl.len() implies exists|j: int|
            0 <= j < lines.len() && line_pair(#[trigger] lines[j]) == Some(pl[k]) by {
            if k < pd.len() {
                assert(pl[k] == pd[k]);
                let j = choose|j: int| 0 <= j < d.len() && line_pair(#[trigger] d[j]) == Some(pd[k]);
                assert(lines[j] == d[j]);
            } else {
                assert(line_pair(lines[lines.len() - 1]) == Some(pl[k]));
            }
        }
        assert forall|k: int| #![trigger nl[k]] 0 <= k < nl.len() implies exists|j: int|
            0 <= j < lines.len() && line_name(#[trigger] lines[j]) == Some(nl[k]) by {
            if k < nd.len() {
                assert(nl[k] == nd[k]);
                let j = choose|j: int| 0 <= j < d.len() && line_name(#[trigger] d[j]) == Some(nd[k]);
                assert(lines[j] == d[j]);
            } else {
                assert(line_name(lines[lines.len() - 1]) == Some(nl[k]));
            }
        }
    }
}

fn unquoted_range(c: &Vec<char>, lo: usize, hi: usize) -> (out: String)
    requires
        lo <= hi <= c.len(),
    ensures
        out@ == unquoted(c@.subrange(lo as int, hi as int)),
{
    let ghost v = c@.subrange(lo as int, hi as int);
    if hi - lo >= 2 && c[lo] == '"' && c[hi - 1] == '"' {
        assert(v.subrange(1, v.len() - 1) =~= c@.subrange(lo + 1, hi - 1));
        string_of_range(c, lo + 1, hi - 1)
    } else {
        string_of_range(c, lo, hi)
    }
}

/// The options set by the lines that `rustc --print cfg` writes: `name` or
/// `key="value"` on each line.
pub fn parse_cfg_lines(lines: &Vec<String>) -> (on: CfgSet)
    ensures
        strings_view(on.names@) == names_of(strings_view(lines@)),
        pairs_view(on.pairs@) == pairs_of(strings_view(lines@)),
        forall|j: int|
            0 <= j < lines@.len() ==> match find_char((#[trigger] lines@[j])@, '=') {
                Some(i) => has_pair(on, lines@[j]@.take(i), unquoted(lines@[j]@.skip(i + 1))),
                None => lines@[j]@.len() > 0 ==> has_name(on, lines@[j]@),
            },
{
    let ghost lv = strings_view(lines@);
    let mut names: Vec<String> = Vec::new();
    let mut pairs: Vec<(String, String)> = Vec::new();
    let mut i: usize = 0;
    assert(lv.take(0) =~= seq![]);
    assert(strings_view(names@) =~= seq![]);
    assert(pairs_view(pairs@) =~= seq![]);
    while i < lines.len()
        invariant
            i <= lines.len(),
            lv == strings_view(lines@),
            strings_view(names@) == names_of(lv.take(i as int)),
            pairs_view(pairs@) == pairs_of(lv.take(i as int)),
        decreases lines.len() - i,
    {
        let ghost nb = strings_view(names@);
        let ghost pb = pairs_view(pairs@);
        assert(lv.take(i + 1).drop_last() =~= lv.take(i as int));
        assert(lv.take(i + 1).last() == lines@[i as int]@);
        let c = chars_of(lines[i].as_str());
        match find_char_exec(&c, '=', 0) {
            Some(k) => {
                proof {
                    crate::text::lemma_find_char(c@, '=');
                }
                let key = string_of_range(&c, 0, k);
                let value = unquoted_range(&c, k + 1, c.len());
                assert(c@.subrange(0, k as int) =~= c@.take(k as int));
                assert(c@.subrange(k + 1, c.len() as int) =~= c@.skip(k + 1));
                pairs.push((key, value));
                assert(pairs_view(pairs@) =~= pb.push((c@.take(k as int), unquoted(c@.skip(k + 1)))));
                assert(strings_view(names@) =~= nb);
            },
            None => {
                if c.len() > 0 {
                    let name = string_of_range(&c, 0, c.len());
                    assert(c@.subrange(0, c.len() as int) =~= c@);
                    names.push(name);
                    assert(strings_view(names@) =~= nb.push(c@));
                } else {
                    assert(strings_view(names@) =~= nb);
                }
                assert(pairs_view(pairs@) =~= pb);
            },
        }
        i = i + 1;
    }
    assert(lv.take(lines.len() as int) =~= lv);
    let on = CfgSet { names, pairs };
    proof {
        lemma_cfg_lines_read(lv);
        assert forall|j: int| 0 <= j < lines@.len() implies match find_char(
            (#[trigger] lines@[j])@,
            '=',
        ) {
            Some(i) => has_pair(on, lines@[j]@.take(i), unquoted(lines@[j]@.skip(i + 1))),
            None => lines@[j]@.len() > 0 ==> has_name(on, lines@[j]@),
        } by {
            let l = lines@[j]@;
            assert(lv[j] == l);
            match find_char(l, '=') {
                Some(i) => {
                    let q = (l.take(i), unquoted(l.skip(i + 1)));
                    let m = choose|m: int| 0 <= m < pairs_of(lv).len() && pairs_of(lv)[m] == q;
                    assert(pairs_view(on.pairs@)[m] == (on.pairs@[m].0@, on.pairs@[m].1@));
                },
                None => {
                    if l.len() > 0 {
                        let m = choose|m: int| 0 <= m < names_of(lv).len() && names_of(lv)[m] == l;
                        assert(strings_view(on.names@)[m] == on.names@[m]@);
                    }
                },
            }
        }
    }
    on
}

/// `on` with the bare option `name` set as well (as `--cfg name` does).
pub fn with_name(on: CfgSet, name: &str) -> (out: CfgSet)
    ensures
        strings_view(out.names@) == strings_view(on.names@).push(name@),
        out.pairs@ == on.pairs@,
{
    let CfgSet { mut names, pairs } = on;
    let ghost before = names@;
    names.push(name.to_owned());
    assert(strings_view(names@) =~= strings_view(before).push(name@));
    CfgSet { names, pairs }
}

} // verus!
