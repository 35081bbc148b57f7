//! The functions of a Rust source, their complexity and their line coverage.
//!
//! A parsed source file is handed to the library as a tree of `SourceItem`s,
//! which hold what the analysis reads of the syntax: names, line spans, the
//! byte span of an `impl` block's self type, and each body's cyclomatic
//! complexity (one more than its branch points).
use vstd::prelude::*;
use std::collections::HashMap;
use crate::cfg::{cfg_active, cfg_holds, Cfg, CfgSet};
use crate::lcov::{coverage_lines, lines_for, Coverage, FileCounts};
use crate::order::{
    insertion_sort, insertion_sorted, is_sorted_by, is_total_preorder,
    lemma_insertion_sorted_is_sorted, lemma_insertion_sorted_permutation, views_of,
};
use crate::path::{forward_slashes, forward_slashes_string, relative_path, relative_text};
use crate::sources::{lemma_text_lt_total, lemma_text_lt_transitive, text_lt, text_lt_exec};
use crate::text::{chars_of, push_char, string_of_range, trim, trim_range};
use vstd::string::StringSliceAdditionalSpecFns;
use vstd::utf8::{
    decode_utf8, encode_utf8, encode_utf8_decode_utf8, encode_utf8_valid_utf8,
    is_char_boundary, is_char_boundary_iff_not_is_continuation_byte,
    is_char_boundary_start_end_of_seq, valid_utf8, valid_utf8_split,
};

verus! {

broadcast use vstd::std_specs::hash::group_hash_axioms;

// ----------------------------------------------------------------------
// The source model
// ----------------------------------------------------------------------

/// A function with a body; `cfg` is the conjunction of its `cfg` attributes.
pub struct FnSource {
    pub cfg: Cfg,
    pub ident: String,
    pub start_line: usize,
    pub end_line: usize,
    pub complexity: usize,
}

/// A member of an `impl` block.
pub enum ImplMember {
    Fn(FnSource),
    Other,
}

/// A function declared in a trait; `default_complexity` is the complexity of its
/// default body, if it has one, and `cfg` the conjunction of its `cfg` attributes.
pub struct TraitFn {
    pub cfg: Cfg,
    pub ident: String,
    pub start_line: usize,
    pub end_line: usize,
    pub default_complexity: Option<usize>,
}

/// A member of a trait.
pub enum TraitMember {
    Fn(TraitFn),
    Other,
}

/// An item of a source file. `cfg` is the conjunction of an item's `cfg`
/// attributes; an item whose `cfg` does not hold is not compiled.
#[allow(inconsistent_fields)]
pub enum SourceItem {
    /// A free function.
    Fn(FnSource),
    /// An `impl` block; its self type is written at bytes `self_ty_start..self_ty_end`
    /// of the source.
    Impl { cfg: Cfg, self_ty_start: usize, self_ty_end: usize, members: Vec<ImplMember> },
    /// A trait.
    Trait { cfg: Cfg, ident: String, members: Vec<TraitMember> },
    /// A module, with its items when they are written inline.
    Mod { cfg: Cfg, ident: String, content: Option<Vec<SourceItem>> },
    /// Anything else.
    Other,
}

// ----------------------------------------------------------------------
// Metrics
// ----------------------------------------------------------------------

/// How many of a function's executable lines ran: `covered` of `relevant`.
#[derive(Clone, Copy, Debug, PartialEq, Eq, Structural)]
pub struct LineCoverage {
    pub covered: usize,
    pub relevant: usize,
}

/// One function of the analysed sources.
#[derive(Clone, Debug)]
pub struct FunctionMetric {
    pub name: String,
    pub file: String,
    pub start_line: usize,
    pub end_line: usize,
    pub complexity: usize,
    pub line_coverage: Option<LineCoverage>,
}

/// What a `FunctionMetric` holds, with its text as characters.
pub struct MetricView {
    pub name: Seq<char>,
    pub file: Seq<char>,
    pub start_line: usize,
    pub end_line: usize,
    pub complexity: usize,
    pub line_coverage: Option<LineCoverage>,
}

impl View for FunctionMetric {
    type V = MetricView;

    open spec fn view(&self) -> MetricView {
        MetricView {
            name: self.name@,
            file: self.file@,
            start_line: self.start_line,
            end_line: self.end_line,
            complexity: self.complexity,
            line_coverage: self.line_coverage,
        }
    }
}

/// The views of a run of metrics.
pub open spec fn metrics_view(v: Seq<FunctionMetric>) -> Seq<MetricView> {
    Seq::new(v.len(), |i: int| v[i]@)
}

/// A function's metric before coverage is known: the start line is at least 1
/// and the end line at least the start line.
pub open spec fn new_metric(
    name: Seq<char>,
    file: Seq<char>,
    start: usize,
    end: usize,
    complexity: usize,
) -> MetricView {
    let s = if start < 1 {
        1usize
    } else {
        start
    };
    let e = if end < start {
        start
    } else {
        end
    };
    MetricView {
        name,
        file,
        start_line: s,
        end_line: if e < 1 {
            1usize
        } else {
            e
        },
        complexity,
        line_coverage: None,
    }
}

/// The text `::`.
pub open spec fn path_sep() -> Seq<char> {
    seq![':', ':']
}

/// `local` inside the module path `prefix`.
pub open spec fn qualified(prefix: Seq<char>, local: Seq<char>) -> Seq<char> {
    if prefix.len() == 0 {
        local
    } else {
        prefix + path_sep() + local
    }
}

/// The trimmed text at bytes `start..end` of a source whose UTF-8 bytes are
/// `bytes`; empty when the range is not a valid slice of the text.
pub open spec fn span_text(bytes: Seq<u8>, start: usize, end: usize) -> Seq<char> {
    if start <= end <= bytes.len() && is_char_boundary(bytes, start as int) && is_char_boundary(
        bytes,
        end as int,
    ) {
        trim(decode_utf8(bytes.subrange(start as int, end as int)))
    } else {
        seq![]
    }
}

/// The metric of a member of an `impl` block whose self type reads `owner`, when
/// it is a compiled function.
pub open spec fn impl_member_metrics(m: ImplMember, owner: Seq<char>, file: Seq<char>, on: CfgSet) -> Seq<
    MetricView,
> {
    match m {
        ImplMember::Fn(f) => if cfg_holds(f.cfg, on) {
            seq![new_metric(owner + path_sep() + f.ident@, file, f.start_line, f.end_line, f.complexity)]
        } else {
            seq![]
        },
        ImplMember::Other => seq![],
    }
}

/// The metric of a member of the trait `owner`, when it is a compiled function
/// with a default body.
pub open spec fn trait_member_metrics(m: TraitMember, owner: Seq<char>, file: Seq<char>, on: CfgSet) -> Seq<
    MetricView,
> {
    match m {
        TraitMember::Fn(f) => if cfg_holds(f.cfg, on) {
            match f.default_complexity {
                Some(c) => seq![
                    new_metric(owner + path_sep() + f.ident@, file, f.start_line, f.end_line, c),
                ],
                None => seq![],
            }
        } else {
            seq![]
        },
        TraitMember::Other => seq![],
    }
}

/// The metrics of the functions of an `impl` block whose self type reads `owner`.
pub open spec fn impl_metrics(
    members: Seq<ImplMember>,
    owner: Seq<char>,
    file: Seq<char>,
    on: CfgSet,
) -> Seq<MetricView>
    decreases members.len(),
{
    if members.len() == 0 {
        seq![]
    } else {
        impl_metrics(members.drop_last(), owner, file, on) + impl_member_metrics(
            members.last(),
            owner,
            file,
            on,
        )
    }
}

/// The metrics of the functions with a default body of the trait `owner`.
pub open spec fn trait_metrics(
    members: Seq<TraitMember>,
    owner: Seq<char>,
    file: Seq<char>,
    on: CfgSet,
) -> Seq<MetricView>
    decreases members.len(),
{
    if members.len() == 0 {
        seq![]
    } else {
        trait_metrics(members.drop_last(), owner, file, on) + trait_member_metrics(
            members.last(),
            owner,
            file,
            on,
        )
    }
}

/// The metrics of the compiled functions of `items` under the options `on`, in
/// order, for the file `file` whose text is encoded as `bytes`, inside the module
/// path `prefix`: free functions are named within the module path, methods by
/// their owner; an item, member or module whose `cfg` does not hold adds nothing.
pub open spec fn items_metrics(
    items: Seq<SourceItem>,
    bytes: Seq<u8>,
    file: Seq<char>,
    prefix: Seq<char>,
    on: CfgSet,
) -> Seq<MetricView>
    decreases items, 0int,
{
    if items.len() == 0 {
        seq![]
    } else {
        items_metrics(items.drop_last(), bytes, file, prefix, on) + item_metrics(
            items.last(),
            bytes,
            file,
            prefix,
            on,
        )
    }
}

/// The metrics of the functions of one item.
pub open spec fn item_metrics(
    item: SourceItem,
    bytes: Seq<u8>,
    file: Seq<char>,
    prefix: Seq<char>,
    on: CfgSet,
) -> Seq<MetricView>
    decreases item, 1int,
{
    match item {
        SourceItem::Fn(f) => if cfg_holds(f.cfg, on) {
            seq![new_metric(qualified(prefix, f.ident@), file, f.start_line, f.end_line, f.complexity)]
        } else {
            seq![]
        },
        SourceItem::Impl { cfg, self_ty_start, self_ty_end, members } => if cfg_holds(cfg, on) {
            impl_metrics(members@, span_text(bytes, self_ty_start, self_ty_end), file, on)
        } else {
            seq![]
        },
        SourceItem::Trait { cfg, ident, members } => if cfg_holds(cfg, on) {
            trait_metrics(members@, ident@, file, on)
        } else {
            seq![]
        },
        SourceItem::Mod { cfg, ident, content } => if cfg_holds(cfg, on) {
            match content {
                Some(v) => items_metrics(v@, bytes, file, qualified(prefix, ident@), on),
                None => seq![],
            }
        } else {
            seq![]
        },
        SourceItem::Other => seq![],
    }
}

// ----------------------------------------------------------------------
// Building metrics
// ----------------------------------------------------------------------

proof fn lemma_boundary_after(bytes: Seq<u8>, start: int, idx: int)
    requires
        valid_utf8(bytes),
        0 <= start <= idx <= bytes.len(),
        is_char_boundary(bytes, start),
    ensures
        valid_utf8(bytes.subrange(start, bytes.len() as int)),
        is_char_boundary(bytes.subrange(start, bytes.len() as int), idx - start)
            == is_char_boundary(bytes, idx),
{
    let rest = bytes.subrange(start, bytes.len() as int);
    valid_utf8_split(bytes, start);
    is_char_boundary_start_end_of_seq(bytes);
    is_char_boundary_start_end_of_seq(rest);
    if start < idx < bytes.len() {
        is_char_boundary_iff_not_is_continuation_byte(bytes, idx);
        is_char_boundary_iff_not_is_continuation_byte(rest, idx - start);
        assert(rest[idx - start] == bytes[idx]);
    }
}

/// The trimmed text at bytes `start..end` of `source`, or the empty string
/// when that range is not a slice of `source`
/// (`source.get(start..end).unwrap_or_default().trim()`).
pub fn slice_span(source: &str, start: usize, end: usize) -> (out: String)
    ensures
        out@ == span_text(source.spec_bytes(), start, end),
{
    let ghost bytes = source.spec_bytes();
    proof {
        encode_utf8_valid_utf8(source@);
    }
    if start > end || !source.is_char_boundary(start) || !source.is_char_boundary(end) {
        return String::new();
    }
    let (_, rest) = source.split_at(start);
    proof {
        lemma_boundary_after(bytes, start as int, end as int);
        assert(rest.spec_bytes() =~= bytes.subrange(start as int, bytes.len() as int));
    }
    let (mid, _) = rest.split_at(end - start);
    proof {
        assert(mid.spec_bytes() =~= bytes.subrange(start as int, end as int));
        encode_utf8_decode_utf8(mid@);
    }
    let m = chars_of(mid);
    let (a, b) = trim_range(&m, 0, m.len());
    assert(m@.subrange(0, m@.len() as int) =~= m@);
    string_of_range(&m, a, b)
}

fn append_str(out: &mut String, s: &str)
    ensures
        final(out)@ == old(out)@ + s@,
{
    out.append(s);
}

/// `owner::local`.
pub fn member_name(owner: &str, local: &str) -> (out: String)
    ensures
        out@ == owner@ + path_sep() + local@,
{
    let mut out = owner.to_owned();
    push_char(&mut out, ':');
    push_char(&mut out, ':');
    append_str(&mut out, local);
    assert(out@ =~= owner@ + path_sep() + local@);
    out
}

/// `local` inside the module path `prefix`.
pub fn qualified_name(prefix: &str, local: &str) -> (out: String)
    ensures
        out@ == qualified(prefix@, local@),
{
    if prefix.is_empty() {
        local.to_owned()
    } else {
        member_name(prefix, local)
    }
}

/// The metric of a function named `name` in `file`, spanning lines
/// `start..=end`, before its coverage is known.
pub fn metric(name: String, file: &str, start: usize, end: usize, complexity: usize) -> (m:
    FunctionMetric)
    ensures
        m@ == new_metric(name@, file@, start, end, complexity),
{
    let start_line = if start < 1 {
        1
    } else {
        start
    };
    let e = if end < start {
        start
    } else {
        end
    };
    let end_line = if e < 1 {
        1
    } else {
        e
    };
    FunctionMetric {
        name,
        file: file.to_owned(),
        start_line,
        end_line,
        complexity,
        line_coverage: None,
    }
}

fn push_metric(out: &mut Vec<FunctionMetric>, m: FunctionMetric)
    ensures
        metrics_view(final(out)@) == metrics_view(old(out)@).push(m@),
{
    out.push(m);
    assert(metrics_view(out@) =~= metrics_view(old(out)@).push(m@));
}

fn collect_impl(
    members: &Vec<ImplMember>,
    owner: &str,
    file: &str,
    on: &CfgSet,
    out: &mut Vec<FunctionMetric>,
)
    ensures
        metrics_view(final(out)@) == metrics_view(old(out)@) + impl_metrics(
            members@,
            owner@,
            file@,
            *on,
        ),
{
    let ghost start = metrics_view(out@);
    let mut i: usize = 0;
    assert(members@.take(0) =~= seq![]);
    assert(start + impl_metrics(seq![], owner@, file@, *on) =~= start);
    while i < members.len()
        invariant
            i <= members.len(),
            metrics_view(out@) == start + impl_metrics(members@.take(i as int), owner@, file@, *on),
        decreases members.len() - i,
    {
        let ghost before = metrics_view(out@);
        assert(members@.take(i + 1).drop_last() =~= members@.take(i as int));
        assert(members@.take(i + 1).last() == members@[i as int]);
        match &members[i] {
            ImplMember::Fn(f) => {
                if cfg_active(&f.cfg, on) {
                    let name = member_name(owner, f.ident.as_str());
                    let m = metric(name, file, f.start_line, f.end_line, f.complexity);
                    push_metric(out, m);
                }
            },
            ImplMember::Other => {},
        }
        assert(metrics_view(out@) =~= before + impl_member_metrics(
            members@[i as int],
            owner@,
            file@,
            *on,
        ));
        i = i + 1;
    }
    assert(members@.take(members.len() as int) =~= members@);
}

fn collect_trait(
    members: &Vec<TraitMember>,
    owner: &str,
    file: &str,
    on: &CfgSet,
    out: &mut Vec<FunctionMetric>,
)
    ensures
        metrics_view(final(out)@) == metrics_view(old(out)@) + trait_metrics(
            members@,
            owner@,
            file@,
            *on,
        ),
{
    let ghost start = metrics_view(out@);
    let mut i: usize = 0;
    assert(members@.take(0) =~= seq![]);
    assert(start + trait_metrics(seq![], owner@, file@, *on) =~= start);
    while i < members.len()
        invariant
            i <= members.len(),
            metrics_view(out@) == start + trait_metrics(members@.take(i as int), owner@, file@, *on),
        decreases members.len() - i,
    {
        let ghost before = metrics_view(out@);
        assert(members@.take(i + 1).drop_last() =~= members@.take(i as int));
        assert(members@.take(i + 1).last() == members@[i as int]);
        match &members[i] {
            TraitMember::Fn(f) => {
                if cfg_active(&f.cfg, on) {
                    match f.default_complexity {
                        Some(c) => {
                            let name = member_name(owner, f.ident.as_str());
                            let m = metric(name, file, f.start_line, f.end_line, c);
                            push_metric(out, m);
                        },
                        None => {},
                    }
                }
            },
            TraitMember::Other => {},
        }
        assert(metrics_view(out@) =~= before + trait_member_metrics(
            members@[i as int],
            owner@,
            file@,
            *on,
        ));
        i = i + 1;
    }
    assert(members@.take(members.len() as int) =~= members@);
}

/// Appends to `out` the metrics of the functions of `items` that are compiled
/// with the options `on`, in order: free functions named within the module path
/// `module_prefix`, the methods of an `impl` block named after its self type as
/// written in `source`, the default methods of a trait named after the trait, and
/// the items of inline modules within the module's path. Items, members and
/// modules whose `cfg` does not hold are passed over.
pub fn collect_items(
    items: &Vec<SourceItem>,
    source: &str,
    file: &str,
    module_prefix: &str,
    on: &CfgSet,
    out: &mut Vec<FunctionMetric>,
)
    ensures
        metrics_view(final(out)@) == metrics_view(old(out)@) + items_metrics(
            items@,
            source.spec_bytes(),
            file@,
            module_prefix@,
            *on,
        ),
    decreases items@,
{
    let ghost start = metrics_view(out@);
    let ghost bytes = source.spec_bytes();
    let mut i: usize = 0;
    assert(items@.take(0) =~= seq![]);
    assert(start + items_metrics(seq![], bytes, file@, module_prefix@, *on) =~= start);
    while i < items.len()
        invariant
            i <= items.len(),
            bytes == source.spec_bytes(),
            metrics_view(out@) == start + items_metrics(
                items@.take(i as int),
                bytes,
                file@,
                module_prefix@,
                *on,
            ),
        decreases items.len() - i,
    {
        let ghost before = metrics_view(out@);
        assert(items@.take(i + 1).drop_last() =~= items@.take(i as int));
        assert(items@.take(i + 1).last() == items@[i as int]);
        match &items[i] {
            SourceItem::Fn(f) => {
                if cfg_active(&f.cfg, on) {
                    let name = qualified_name(module_prefix, f.ident.as_str());
                    let m = metric(name, file, f.start_line, f.end_line, f.complexity);
                    push_metric(out, m);
                }
            },
            SourceItem::Impl { cfg, self_ty_start, self_ty_end, members } => {
                if cfg_active(cfg, on) {
                    let owner = slice_span(source, *self_ty_start, *self_ty_end);
                    collect_impl(members, owner.as_str(), file, on, out);
                }
            },
            SourceItem::Trait { cfg, ident, members } => {
                if cfg_active(cfg, on) {
                    collect_trait(members, ident.as_str(), file, on, out);
                }
            },
            SourceItem::Mod { cfg, ident, content } => {
                if cfg_active(cfg, on) {
                    match content {
                        Some(nested) => {
                            let next = qualified_name(module_prefix, ident.as_str());
                            assert(decreases_to!(items@ => nested@)) by {
                                assert(decreases_to!(items@ => items@[i as int]));
                            }
                            collect_items(nested, source, file, next.as_str(), on, out);
                        },
                        None => {},
                    }
                }
            },
            SourceItem::Other => {},
        }
        assert(metrics_view(out@) =~= before + item_metrics(
            items@[i as int],
            bytes,
            file@,
            module_prefix@,
            *on,
        ));
        i = i + 1;
    }
    assert(items@.take(items.len() as int) =~= items@);
}

// ----------------------------------------------------------------------
// Ordering by position
// ----------------------------------------------------------------------

/// `a` comes no later than `b` by (start line, name), names compared as text.
pub open spec fn position_le(a: MetricView, b: MetricView) -> bool {
    a.start_line < b.start_line || (a.start_line == b.start_line && !text_lt(b.name, a.name))
}

/// `position_le` as a value, for the sort specification.
pub open spec fn position_order() -> spec_fn(MetricView, MetricView) -> bool {
    |a: MetricView, b: MetricView| position_le(a, b)
}

fn position_le_exec(a: &FunctionMetric, b: &FunctionMetric) -> (r: bool)
    ensures
        r == position_le(a@, b@),
{
    if a.start_line < b.start_line {
        return true;
    }
    if a.start_line > b.start_line {
        return false;
    }
    let an = chars_of(a.name.as_str());
    let bn = chars_of(b.name.as_str());
    !text_lt_exec(&bn, &an)
}

/// Sorts metrics by (start line, name), keeping the order of equal ones.
pub fn sort_by_position(metrics: &mut Vec<FunctionMetric>)
    ensures
        metrics_view(final(metrics)@) == insertion_sorted(
            metrics_view(old(metrics)@),
            position_order(),
        ),
{
    let ghost before = metrics@;
    assert(metrics_view(before) =~= views_of(before));
    insertion_sort(metrics, &position_le_exec, Ghost(position_order()));
    assert(metrics_view(metrics@) =~= views_of(metrics@));
}

/// The metrics of the functions of a parsed source file that are compiled with the
/// options `on`, in order of position: `items` is the parse of `source`, which lives
/// at `path`; the metrics name the file by its path relative to `root`, written with `/`.
pub fn extract_metrics(
    items: &Vec<SourceItem>,
    source: &str,
    path: &str,
    root: &str,
    on: &CfgSet,
) -> (out: Vec<FunctionMetric>)
    ensures
        metrics_view(out@) == insertion_sorted(
            items_metrics(
                items@,
                source.spec_bytes(),
                forward_slashes(relative_text(path@, root@)),
                seq![],
                *on,
            ),
            position_order(),
        ),
{
    let relative = relative_path(path, root);
    let file = forward_slashes_string(relative.as_str());
    let mut out: Vec<FunctionMetric> = Vec::new();
    assert(metrics_view(out@) =~= seq![]);
    collect_items(items, source, file.as_str(), "", on, &mut out);
    assert(""@ =~= seq![]) by {
        assert(""@.len() == 0) by {
            reveal_strlit("");
        }
    }
    assert(metrics_view(out@) =~= items_metrics(items@, source.spec_bytes(), file@, seq![], *on));
    sort_by_position(&mut out);
    out
}

// ----------------------------------------------------------------------
// Line coverage
// ----------------------------------------------------------------------

/// The lines from `start` to `end` that the report has a count for.
pub open spec fn relevant_lines(m: Map<usize, u64>, start: usize, end: usize) -> Set<usize> {
    m.dom().filter(|l: usize| start <= l && l <= end)
}

/// The lines from `start` to `end` that ran at least once.
pub open spec fn covered_lines(m: Map<usize, u64>, start: usize, end: usize) -> Set<usize> {
    m.dom().filter(|l: usize| start <= l && l <= end && m[l] > 0)
}

/// The coverage of the lines from `start` to `end`, if any of them has a count.
pub open spec fn line_coverage_of(m: Map<usize, u64>, start: usize, end: usize) -> Option<
    LineCoverage,
> {
    if relevant_lines(m, start, end).len() == 0 {
        None
    } else {
        Some(
            LineCoverage {
                covered: covered_lines(m, start, end).len() as usize,
                relevant: relevant_lines(m, start, end).len() as usize,
            },
        )
    }
}

/// A metric with its coverage from the report's counts, when the report has
/// counts for its file and for some of its lines; else the metric unchanged.
pub open spec fn with_coverage(v: MetricView, counts: FileCounts, root: Seq<char>) -> MetricView {
    match lines_for(counts, root, v.file) {
        Some(m) => match line_coverage_of(m, v.start_line, v.end_line) {
            Some(c) => MetricView { line_coverage: Some(c), ..v },
            None => v,
        },
        None => v,
    }
}

proof fn lemma_filter_step(m: Map<usize, u64>, start: usize, l: usize)
    requires
        m.dom().finite(),
        start <= l,
    ensures
        m.dom().filter(|x: usize| start <= x && x < l + 1) == (if m.contains_key(l) {
            m.dom().filter(|x: usize| start <= x && x < l).insert(l)
        } else {
            m.dom().filter(|x: usize| start <= x && x < l)
        }),
        m.dom().filter(|x: usize| start <= x && x < l + 1 && m[x] > 0) == (if m.contains_key(l)
            && m[l] > 0 {
            m.dom().filter(|x: usize| start <= x && x < l && m[x] > 0).insert(l)
        } else {
            m.dom().filter(|x: usize| start <= x && x < l && m[x] > 0)
        }),
{
    assert(m.dom().filter(|x: usize| start <= x && x < l + 1) =~= (if m.contains_key(l) {
        m.dom().filter(|x: usize| start <= x && x < l).insert(l)
    } else {
        m.dom().filter(|x: usize| start <= x && x < l)
    }));
    assert(m.dom().filter(|x: usize| start <= x && x < l + 1 && m[x] > 0) =~= (if m.contains_key(l)
        && m[l] > 0 {
        m.dom().filter(|x: usize| start <= x && x < l && m[x] > 0).insert(l)
    } else {
        m.dom().filter(|x: usize| start <= x && x < l && m[x] > 0)
    }));
}

/// The coverage of the lines from `start` to `end` in `lines`.
fn count_lines(lines: &HashMap<usize, u64>, start: usize, end: usize) -> (r: Option<LineCoverage>)
    ensures
        r == line_coverage_of(lines@, start, end),
        r matches Some(c) ==> 0 < c.relevant && c.covered <= c.relevant,
{
    let ghost m = lines@;
    if start > end {
        assert(relevant_lines(m, start, end) =~= Set::empty());
        return None;
    }
    proof {
        vstd::std_specs::hash::axiom_hashmap_view_finite_dom(*lines);
        vstd::std_specs::hash::axiom_spec_hash_map_len(lines);
    }
    let total = lines.len();
    let mut relevant: usize = 0;
    let mut covered: usize = 0;
    let mut l = start;
    assert(m.dom().filter(|x: usize| start <= x && x < start) =~= Set::empty());
    assert(m.dom().filter(|x: usize| start <= x && x < start && m[x] > 0) =~= Set::empty());
    loop
        invariant_except_break
            start <= l <= end,
            m == lines@,
            m.dom().finite(),
            total == m.dom().len(),
            relevant == m.dom().filter(|x: usize| start <= x && x < l).len(),
            covered == m.dom().filter(|x: usize| start <= x && x < l && m[x] > 0).len(),
            covered <= relevant,
        ensures
            l == end,
            relevant == m.dom().filter(|x: usize| start <= x && x < l + 1).len(),
            covered == m.dom().filter(|x: usize| start <= x && x < l + 1 && m[x] > 0).len(),
        decreases end - l,
    {
        proof {
            lemma_filter_step(m, start, l);
            m.dom().lemma_len_filter(|x: usize| start <= x && x < l + 1);
            vstd::set_lib::lemma_len_subset(
                m.dom().filter(|x: usize| start <= x && x < l + 1 && m[x] > 0),
                m.dom().filter(|x: usize| start <= x && x < l + 1),
            );
        }
        match lines.get(&l) {
            Some(count) => {
                relevant = relevant + 1;
                if *count > 0 {
                    covered = covered + 1;
                }
            },
            None => {},
        }
        if l == end {
            break;
        }
        l = l + 1;
    }
    assert(m.dom().filter(|x: usize| start <= x && x < l + 1) =~= relevant_lines(m, start, end));
    assert(m.dom().filter(|x: usize| start <= x && x < l + 1 && m[x] > 0) =~= covered_lines(
        m,
        start,
        end,
    ));
    proof {
        lemma_line_coverage_bounds(m, start, end);
    }
    if relevant == 0 {
        None
    } else {
        Some(LineCoverage { covered, relevant })
    }
}

/// Sets the line coverage of each metric from `coverage`, as `with_coverage`
/// describes; `root` is the project root that the metrics' files are relative to.
/// A coverage that it sets has at least one relevant line and at most all of them covered.
pub fn apply_coverage(root: &str, metrics: &mut Vec<FunctionMetric>, coverage: &Coverage)
    ensures
        final(metrics)@.len() == old(metrics)@.len(),
        forall|i: int|
            0 <= i < old(metrics)@.len() ==> (#[trigger] final(metrics)@[i])@ == with_coverage(
                old(metrics)@[i]@,
                coverage@,
                root@,
            ),
        forall|i: int|
            0 <= i < old(metrics)@.len() ==> (#[trigger] final(metrics)@[i]).line_coverage == old(
                metrics,
            )@[i].line_coverage || (final(metrics)@[i].line_coverage matches Some(c) && 0
                < c.relevant && c.covered <= c.relevant),
{
    let ghost orig = metrics@;
    let mut i: usize = 0;
    while i < metrics.len()
        invariant
            i <= metrics.len(),
            metrics@.len() == orig.len(),
            forall|k: int|
                0 <= k < i ==> (#[trigger] metrics@[k])@ == with_coverage(orig[k]@, coverage@, root@),
            forall|k: int|
                0 <= k < i ==> (#[trigger] metrics@[k]).line_coverage == orig[k].line_coverage || (
                metrics@[k].line_coverage matches Some(c) && 0 < c.relevant && c.covered
                    <= c.relevant),
            forall|k: int| i <= k < metrics@.len() ==> #[trigger] metrics@[k] == orig[k],
        decreases metrics.len() - i,
    {
        let found = match coverage_lines(coverage, root, metrics[i].file.as_str()) {
            Some(lines) => count_lines(lines, metrics[i].start_line, metrics[i].end_line),
            None => None,
        };
        match found {
            Some(c) => {
                metrics[i].line_coverage = Some(c);
            },
            None => {},
        }
        assert(metrics@[i as int]@ == with_coverage(orig[i as int]@, coverage@, root@));
        i = i + 1;
    }
}

// ----------------------------------------------------------------------
// Laws
// ----------------------------------------------------------------------

/// Each metric names the file `file`, spans lines `start_line..=end_line` with
/// `1 <= start_line <= end_line`, and has no coverage yet.
pub open spec fn fresh_metrics(v: Seq<MetricView>, file: Seq<char>) -> bool {
    forall|i: int|
        0 <= i < v.len() ==> (#[trigger] v[i]).file == file && 1 <= v[i].start_line
            <= v[i].end_line && v[i].line_coverage is None
}

proof fn lemma_fresh_concat(a: Seq<MetricView>, b: Seq<MetricView>, file: Seq<char>)
    requires
        fresh_metrics(a, file),
        fresh_metrics(b, file),
    ensures
        fresh_metrics(a + b, file),
{
    assert forall|i: int| 0 <= i < (a + b).len() implies (#[trigger] (a + b)[i]).file == file && 1
        <= (a + b)[i].start_line <= (a + b)[i].end_line && (a + b)[i].line_coverage is None by {
        if i < a.len() {
            assert((a + b)[i] == a[i]);
        } else {
            assert((a + b)[i] == b[i - a.len()]);
        }
    }
}

proof fn lemma_impl_metrics_fresh(
    members: Seq<ImplMember>,
    owner: Seq<char>,
    file: Seq<char>,
    on: CfgSet,
)
    ensures
        fresh_metrics(impl_metrics(members, owner, file, on), file),
    decreases members.len(),
{
    if members.len() > 0 {
        lemma_impl_metrics_fresh(members.drop_last(), owner, file, on);
        lemma_fresh_concat(
            impl_metrics(members.drop_last(), owner, file, on),
            impl_member_metrics(members.last(), owner, file, on),
            file,
        );
    }
}

proof fn lemma_trait_metrics_fresh(
    members: Seq<TraitMember>,
    owner: Seq<char>,
    file: Seq<char>,
    on: CfgSet,
)
    ensures
        fresh_metrics(trait_metrics(members, owner, file, on), file),
    decreases members.len(),
{
    if members.len() > 0 {
        lemma_trait_metrics_fresh(members.drop_last(), owner, file, on);
        lemma_fresh_concat(
            trait_metrics(members.drop_last(), owner, file, on),
            trait_member_metrics(members.last(), owner, file, on),
            file,
        );
    }
}

/// Every function found in a source names that source's file, spans at least one
/// line, starting at line 1 or later, and has no coverage until coverage is applied.
pub proof fn lemma_items_metrics_fresh(
    items: Seq<SourceItem>,
    bytes: Seq<u8>,
    file: Seq<char>,
    prefix: Seq<char>,
    on: CfgSet,
)
    ensures
        fresh_metrics(items_metrics(items, bytes, file, prefix, on), file),
    decreases items, 0int,
{
    if items.len() > 0 {
        lemma_items_metrics_fresh(items.drop_last(), bytes, file, prefix, on);
        lemma_item_metrics_fresh(items.last(), bytes, file, prefix, on);
        lemma_fresh_concat(
            items_metrics(items.drop_last(), bytes, file, prefix, on),
            item_metrics(items.last(), bytes, file, prefix, on),
            file,
        );
    }
}

/// Every function found in one item is fresh (see `lemma_items_metrics_fresh`).
pub proof fn lemma_item_metrics_fresh(
    item: SourceItem,
    bytes: Seq<u8>,
    file: Seq<char>,
    prefix: Seq<char>,
    on: CfgSet,
)
    ensures
        fresh_metrics(item_metrics(item, bytes, file, prefix, on), file),
    decreases item, 1int,
{
    match item {
        SourceItem::Fn(f) => {},
        SourceItem::Impl { cfg, self_ty_start, self_ty_end, members } => {
            lemma_impl_metrics_fresh(
                members@,
                span_text(bytes, self_ty_start, self_ty_end),
                file,
                on,
            );
        },
        SourceItem::Trait { cfg, ident, members } => {
            lemma_trait_metrics_fresh(members@, ident@, file, on);
        },
        SourceItem::Mod { cfg, ident, content } => match content {
            Some(v) => {
                lemma_items_metrics_fresh(v@, bytes, file, qualified(prefix, ident@), on);
            },
            None => {},
        },
        SourceItem::Other => {},
    }
}

/// Every metric of an `impl` block comes from one of its methods that is compiled
/// with the options `on`, and every such method gives one: named after the owner
/// and the method, with its lines and complexity.
pub proof fn lemma_impl_metrics_compiled(
    members: Seq<ImplMember>,
    owner: Seq<char>,
    file: Seq<char>,
    on: CfgSet,
)
    ensures
        forall|k: int|
            #![trigger impl_metrics(members, owner, file, on)[k]]
            0 <= k < impl_metrics(members, owner, file, on).len() ==> exists|j: int|
                0 <= j < members.len() && (#[trigger] members[j] matches ImplMember::Fn(f) && cfg_holds(
                    f.cfg,
                    on,
                ) && impl_metrics(members, owner, file, on)[k] == new_metric(
                    owner + path_sep() + f.ident@,
                    file,
                    f.start_line,
                    f.end_line,
                    f.complexity,
                )),
        forall|j: int|
            0 <= j < members.len() ==> (#[trigger] members[j] matches ImplMember::Fn(f) ==> (cfg_holds(
                f.cfg,
                on,
            ) ==> impl_metrics(members, owner, file, on).contains(
                new_metric(owner + path_sep() + f.ident@, file, f.start_line, f.end_line, f.complexity),
            ))),
    decreases members.len(),
{
    if members.len() > 0 {
        let d = members.drop_last();
        lemma_impl_metrics_compiled(d, owner, file, on);
        let md = impl_metrics(d, owner, file, on);
        let tail = impl_member_metrics(members.last(), owner, file, on);
        let all = impl_metrics(members, owner, file, on);
        assert(all == md + tail);
        assert forall|k: int| #![trigger all[k]] 0 <= k < all.len() implies exists|j: int|
            0 <= j < members.len() && (#[trigger] members[j] matches ImplMember::Fn(f) && cfg_holds(
                f.cfg,
                on,
            ) && all[k] == new_metric(
                owner + path_sep() + f.ident@,
                file,
                f.start_line,
                f.end_line,
                f.complexity,
            )) by {
            if k < md.len() {
                assert(all[k] == md[k]);
                let j = choose|j: int|
                    0 <= j < d.len() && (#[trigger] d[j] matches ImplMember::Fn(f) && cfg_holds(
                        f.cfg,
                        on,
                    ) && md[k] == new_metric(
                        owner + path_sep() + f.ident@,
                        file,
                        f.start_line,
                        f.end_line,
                        f.complexity,
                    ));
                assert(members[j] == d[j]);
            } else {
                assert(all[k] == tail[k - md.len()]);
                assert(members[members.len() - 1] == members.last());
            }
        }
        assert forall|j: int| 0 <= j < members.len() implies (#[trigger] members[j] matches ImplMember::Fn(f)
            ==> (cfg_holds(f.cfg, on) ==> all.contains(
            new_metric(owner + path_sep() + f.ident@, file, f.start_line, f.end_line, f.complexity),
        ))) by {
            if j < d.len() {
                assert(members[j] == d[j]);
                if let ImplMember::Fn(f) = d[j] {
                    if cfg_holds(f.cfg, on) {
                        let x = new_metric(owner + path_sep() + f.ident@, file, f.start_line, f.end_line, f.complexity);
                        assert(md.contains(x));
                        let m = choose|m: int| 0 <= m < md.len() && md[m] == x;
                        assert(all[m] == md[m]);
                    }
                }
            } else {
                if let ImplMember::Fn(f) = members.last() {
                    if cfg_holds(f.cfg, on) {
                        assert(all[md.len() as int] == tail[0]);
                    }
                }
            }
        }
    }
}

/// Every metric of a trait comes from one of its methods with a default body that
/// is compiled with the options `on`, and every such method gives one: named after
/// the trait and the method, with its lines and the default body's complexity.
pub proof fn lemma_trait_metrics_compiled(
    members: Seq<TraitMember>,
    owner: Seq<char>,
    file: Seq<char>,
    on: CfgSet,
)
    ensures
        forall|k: int|
            #![trigger trait_metrics(members, owner, file, on)[k]]
            0 <= k < trait_metrics(members, owner, file, on).len() ==> exists|j: int|
                0 <= j < members.len() && (#[trigger] members[j] matches TraitMember::Fn(f) && f.default_complexity is Some && cfg_holds(
                    f.cfg,
                    on,
                ) && trait_metrics(members, owner, file, on)[k] == new_metric(
                    owner + path_sep() + f.ident@,
                    file,
                    f.start_line,
                    f.end_line,
                    f.default_complexity->0,
                )),
        forall|j: int|
            0 <= j < members.len() ==> (#[trigger] members[j] matches TraitMember::Fn(f) ==> (f.default_complexity is Some && cfg_holds(
                f.cfg,
                on,
            ) ==> trait_metrics(members, owner, file, on).contains(
                new_metric(owner + path_sep() + f.ident@, file, f.start_line, f.end_line, f.default_complexity->0),
            ))),
    decreases members.len(),
{
    if members.len() > 0 {
        let d = members.drop_last();
        lemma_trait_metrics_compiled(d, owner, file, on);
        let md = trait_metrics(d, owner, file, on);
        let tail = trait_member_metrics(members.last(), owner, file, on);
        let all = trait_metrics(members, owner, file, on);
        assert(all == md + tail);
        assert forall|k: int| #![trigger all[k]] 0 <= k < all.len() implies exists|j: int|
            0 <= j < members.len() && (#[trigger] members[j] matches TraitMember::Fn(f) && f.default_complexity is Some && cfg_holds(
                f.cfg,
                on,
            ) && all[k] == new_metric(
                owner + path_sep() + f.ident@,
                file,
                f.start_line,
                f.end_line,
                f.default_complexity->0,
            )) by {
            if k < md.len() {
                assert(all[k] == md[k]);
                let j = choose|j: int|
                    0 <= j < d.len() && (#[trigger] d[j] matches TraitMember::Fn(f) && f.default_complexity is Some && cfg_holds(
                        f.cfg,
                        on,
                    ) && md[k] == new_metric(
                        owner + path_sep() + f.ident@,
                        file,
                        f.start_line,
                        f.end_line,
                        f.default_complexity->0,
                    ));
                assert(members[j] == d[j]);
            } else {
                assert(all[k] == tail[k - md.len()]);
                assert(members[members.len() - 1] == members.last());
            }
        }
        assert forall|j: int| 0 <= j < members.len() implies (#[trigger] members[j] matches TraitMember::Fn(f)
            ==> (f.default_complexity is Some && cfg_holds(f.cfg, on) ==> all.contains(
            new_metric(owner + path_sep() + f.ident@, file, f.start_line, f.end_line, f.default_complexity->0),
        ))) by {
            if j < d.len() {
                assert(members[j] == d[j]);
                if let TraitMember::Fn(f) = d[j] {
                    if f.default_complexity is Some && cfg_holds(f.cfg, on) {
                        let x = new_metric(owner + path_sep() + f.ident@, file, f.start_line, f.end_line, f.default_complexity->0);
                        assert(md.contains(x));
                        let m = choose|m: int| 0 <= m < md.len() && md[m] == x;
                        assert(all[m] == md[m]);
                    }
                }
            } else {
                if let TraitMember::Fn(f) = members.last() {
                    if f.default_complexity is Some && cfg_holds(f.cfg, on) {
                        assert(all[md.len() as int] == tail[0]);
                    }
                }
            }
        }
    }
}

/// An item whose `cfg` does not hold for the options `on` adds no metric, whatever
/// it holds.
pub proof fn lemma_inactive_item_adds_nothing(
    item: SourceItem,
    bytes: Seq<u8>,
    file: Seq<char>,
    prefix: Seq<char>,
    on: CfgSet,
)
    ensures
        (match item {
            SourceItem::Fn(f) => !cfg_holds(f.cfg, on),
            SourceItem::Impl { cfg, .. } => !cfg_holds(cfg, on),
            SourceItem::Trait { cfg, .. } => !cfg_holds(cfg, on),
            SourceItem::Mod { cfg, .. } => !cfg_holds(cfg, on),
            SourceItem::Other => true,
        }) ==> item_metrics(item, bytes, file, prefix, on).len() == 0,
{
}

/// A method or default method whose own `cfg` does not hold for `on` adds no
/// metric, whatever the block around it.
pub proof fn lemma_inactive_member_adds_nothing(
    im: ImplMember,
    tm: TraitMember,
    owner: Seq<char>,
    file: Seq<char>,
    on: CfgSet,
)
    ensures
        (im matches ImplMember::Fn(f) && !cfg_holds(f.cfg, on)) ==> impl_member_metrics(
            im,
            owner,
            file,
            on,
        ).len() == 0,
        (tm matches TraitMember::Fn(f) && !cfg_holds(f.cfg, on)) ==> trait_member_metrics(
            tm,
            owner,
            file,
            on,
        ).len() == 0,
{
}

/// Ordering by position is total and transitive.
pub proof fn lemma_position_order_total()
    ensures
        is_total_preorder(position_order()),
{
    assert forall|a: MetricView, b: MetricView|
        #[trigger] (position_order())(a, b) || (position_order())(b, a) by {
        lemma_text_lt_total(a.name, b.name);
    }
    assert forall|a: MetricView, b: MetricView, c: MetricView|
        #[trigger] (position_order())(a, b) && #[trigger] (position_order())(b, c) implies (
        position_order())(a, c) by {
        lemma_text_lt_total(a.name, b.name);
        lemma_text_lt_total(b.name, c.name);
        lemma_text_lt_total(a.name, c.name);
        if a.start_line == b.start_line && b.start_line == c.start_line && text_lt(c.name, a.name) {
            if text_lt(a.name, b.name) {
                lemma_text_lt_transitive(c.name, a.name, b.name);
            }
        }
    }
}

/// The metrics of a source come out in order of position, each compiled function
/// of the source exactly once, each naming the source's file, spanning at least one
/// line and without coverage.
pub proof fn lemma_extracted_metrics(
    items: Seq<SourceItem>,
    bytes: Seq<u8>,
    file: Seq<char>,
    on: CfgSet,
)
    ensures
        ({
            let found = items_metrics(items, bytes, file, seq![], on);
            let out = insertion_sorted(found, position_order());
            &&& is_sorted_by(out, position_order())
            &&& out.to_multiset() == found.to_multiset()
            &&& fresh_metrics(out, file)
        }),
{
    let found = items_metrics(items, bytes, file, seq![], on);
    let out = insertion_sorted(found, position_order());
    lemma_position_order_total();
    lemma_insertion_sorted_is_sorted(found, position_order());
    lemma_insertion_sorted_permutation(found, position_order());
    lemma_items_metrics_fresh(items, bytes, file, seq![], on);
    assert forall|i: int| 0 <= i < out.len() implies (#[trigger] out[i]).file == file && 1
        <= out[i].start_line <= out[i].end_line && out[i].line_coverage is None by {
        broadcast use vstd::seq_lib::group_to_multiset_ensures;

        assert(out.contains(out[i]));
        assert(out.to_multiset().count(out[i]) > 0);
        assert(found.contains(out[i]));
        let k = choose|k: int| 0 <= k < found.len() && found[k] == out[i];
        assert(1 <= found[k].start_line);
    }
}

/// Coverage is applied only where the report has counts for some of a
/// function's lines, and then at most all of those lines ran.
pub proof fn lemma_line_coverage_bounds(m: Map<usize, u64>, start: usize, end: usize)
    requires
        m.dom().finite(),
        m.dom().len() <= usize::MAX,
    ensures
        line_coverage_of(m, start, end) matches Some(c) ==> 0 < c.relevant && c.covered
            <= c.relevant,
{
    m.dom().lemma_len_filter(|l: usize| start <= l && l <= end);
    vstd::set_lib::lemma_len_subset(covered_lines(m, start, end), relevant_lines(m, start, end));
    assert(covered_lines(m, start, end).subset_of(relevant_lines(m, start, end)));
}

/// Applying coverage changes nothing but the coverage.
pub proof fn lemma_with_coverage_keeps_function(v: MetricView, counts: FileCounts, root: Seq<char>)
    ensures
        with_coverage(v, counts, root).name == v.name,
        with_coverage(v, counts, root).file == v.file,
        with_coverage(v, counts, root).start_line == v.start_line,
        with_coverage(v, counts, root).end_line == v.end_line,
        with_coverage(v, counts, root).complexity == v.complexity,
{
}

/// Applying the same coverage twice gives what applying it once gives.
pub proof fn lemma_with_coverage_idempotent(v: MetricView, counts: FileCounts, root: Seq<char>)
    ensures
        with_coverage(with_coverage(v, counts, root), counts, root) == with_coverage(v, counts, root),
{
}

} // verus!
