//! Which of the files found under a project root are analysed, and in what order.
use vstd::prelude::*;
use crate::order::{
    insertion_sort, insertion_sorted, is_sorted_by, is_total_preorder,
    lemma_insertion_sorted_is_sorted, lemma_insertion_sorted_permutation, views_of,
};
use crate::path::{
    components, has_rs_extension, has_rs_extension_exec, is_plain_relative, is_test_path,
    is_test_path_spec, joined, lemma_relative_of_joined, parts_view, path_components,
    relative_path, relative_text, Comp, PathPart,
};
use crate::text::{chars_of, contains_text, text_contains};

verus! {

// ----------------------------------------------------------------------
// Path order
// ----------------------------------------------------------------------

/// Lexicographic order on text by character code (the order of the UTF-8 bytes).
pub open spec fn text_lt(a: Seq<char>, b: Seq<char>) -> bool
    decreases a.len(),
{
    if b.len() == 0 {
        false
    } else if a.len() == 0 {
        true
    } else if a[0] < b[0] {
        true
    } else if b[0] < a[0] {
        false
    } else {
        text_lt(a.skip(1), b.skip(1))
    }
}

/// `text_lt` is a strict total order: exactly one of `a < b`, `b < a`, `a == b` holds.
pub proof fn lemma_text_lt_total(a: Seq<char>, b: Seq<char>)
    ensures
        text_lt(a, b) || text_lt(b, a) || a == b,
        !(text_lt(a, b) && text_lt(b, a)),
        !text_lt(a, a),
    decreases a.len(),
{
    if a.len() > 0 && b.len() > 0 && a[0] == b[0] {
        lemma_text_lt_total(a.skip(1), b.skip(1));
        if a.skip(1) == b.skip(1) {
            assert(a =~= seq![a[0]] + a.skip(1));
            assert(b =~= seq![b[0]] + b.skip(1));
        }
    } else if a.len() == 0 && b.len() == 0 {
        assert(a =~= b);
    }
    if a.len() > 0 {
        lemma_text_lt_total(a.skip(1), a.skip(1));
    }
}

/// `text_lt` is transitive.
pub proof fn lemma_text_lt_transitive(a: Seq<char>, b: Seq<char>, c: Seq<char>)
    requires
        text_lt(a, b),
        text_lt(b, c),
    ensures
        text_lt(a, c),
    decreases a.len(),
{
    if a.len() > 0 && b.len() > 0 && c.len() > 0 && a[0] == b[0] && b[0] == c[0] {
        lemma_text_lt_transitive(a.skip(1), b.skip(1), c.skip(1));
    }
}

/// The rank of a component kind: root, then `.`, then `..`, then names.
pub open spec fn part_rank(p: PathPart) -> int {
    match p {
        PathPart::Root => 0,
        PathPart::Cur => 1,
        PathPart::Parent => 2,
        PathPart::Normal(_) => 3,
    }
}

/// One component comes before another.
pub open spec fn part_lt(p: PathPart, q: PathPart) -> bool {
    ||| part_rank(p) < part_rank(q)
    ||| (p matches PathPart::Normal(a) && q matches PathPart::Normal(b) && text_lt(a, b))
}

/// Lexicographic order on component sequences.
pub open spec fn parts_le(a: Seq<PathPart>, b: Seq<PathPart>) -> bool
    decreases a.len(),
{
    if a.len() == 0 {
        true
    } else if b.len() == 0 {
        false
    } else if part_lt(a[0], b[0]) {
        true
    } else if part_lt(b[0], a[0]) {
        false
    } else {
        parts_le(a.skip(1), b.skip(1))
    }
}

/// The order of paths (`PathBuf`'s `Ord`): component by component.
pub open spec fn path_le(a: Seq<char>, b: Seq<char>) -> bool {
    parts_le(components(a), components(b))
}

proof fn lemma_part_lt_total(p: PathPart, q: PathPart)
    ensures
        part_lt(p, q) || part_lt(q, p) || p == q,
        !(part_lt(p, q) && part_lt(q, p)),
        !part_lt(p, p),
{
    match (p, q) {
        (PathPart::Normal(a), PathPart::Normal(b)) => {
            lemma_text_lt_total(a, b);
        },
        _ => {},
    }
    match p {
        PathPart::Normal(a) => {
            lemma_text_lt_total(a, a);
        },
        _ => {},
    }
}

proof fn lemma_part_lt_transitive(p: PathPart, q: PathPart, r: PathPart)
    requires
        part_lt(p, q),
        part_lt(q, r),
    ensures
        part_lt(p, r),
{
    match (p, q, r) {
        (PathPart::Normal(a), PathPart::Normal(b), PathPart::Normal(c)) => {
            lemma_text_lt_transitive(a, b, c);
        },
        _ => {},
    }
}

proof fn lemma_parts_le_total(a: Seq<PathPart>, b: Seq<PathPart>)
    ensures
        parts_le(a, b) || parts_le(b, a),
    decreases a.len(),
{
    if a.len() > 0 && b.len() > 0 {
        lemma_part_lt_total(a[0], b[0]);
        lemma_parts_le_total(a.skip(1), b.skip(1));
    }
}

proof fn lemma_parts_le_transitive(a: Seq<PathPart>, b: Seq<PathPart>, c: Seq<PathPart>)
    requires
        parts_le(a, b),
        parts_le(b, c),
    ensures
        parts_le(a, c),
    decreases a.len(),
{
    if a.len() > 0 && b.len() > 0 && c.len() > 0 {
        let (x, y, z) = (a[0], b[0], c[0]);
        lemma_part_lt_total(x, y);
        lemma_part_lt_total(y, z);
        lemma_part_lt_total(x, z);
        if part_lt(x, y) && part_lt(y, z) {
            lemma_part_lt_transitive(x, y, z);
        } else if x == y && y == z {
            lemma_parts_le_transitive(a.skip(1), b.skip(1), c.skip(1));
        }
    }
}

/// The order of paths is total and transitive.
pub proof fn lemma_path_order_total()
    ensures
        is_total_preorder(path_order()),
{
    assert forall|a: Seq<char>, b: Seq<char>|
        #[trigger] (path_order())(a, b) || (path_order())(b, a) by {
        lemma_parts_le_total(components(a), components(b));
    }
    assert forall|a: Seq<char>, b: Seq<char>, c: Seq<char>|
        #[trigger] (path_order())(a, b) && #[trigger] (path_order())(b, c) implies (path_order())(
        a,
        c,
    ) by {
        lemma_parts_le_transitive(components(a), components(b), components(c));
    }
}

/// `path_le` as a value, for the sort specification.
pub open spec fn path_order() -> spec_fn(Seq<char>, Seq<char>) -> bool {
    |a: Seq<char>, b: Seq<char>| path_le(a, b)
}

pub(crate) fn text_lt_exec(a: &Vec<char>, b: &Vec<char>) -> (r: bool)
    ensures
        r == text_lt(a@, b@),
{
    let mut i: usize = 0;
    assert(a@.skip(0) =~= a@ && b@.skip(0) =~= b@);
    loop
        invariant
            i <= a.len(),
            i <= b.len(),
            text_lt(a@, b@) == text_lt(a@.skip(i as int), b@.skip(i as int)),
        decreases a.len() - i,
    {
        if i == b.len() {
            return false;
        }
        if i == a.len() {
            return true;
        }
        assert(a@.skip(i as int)[0] == a@[i as int] && b@.skip(i as int)[0] == b@[i as int]);
        if a[i] < b[i] {
            return true;
        }
        if b[i] < a[i] {
            return false;
        }
        assert(a@.skip(i as int).skip(1) =~= a@.skip(i + 1));
        assert(b@.skip(i as int).skip(1) =~= b@.skip(i + 1));
        i = i + 1;
    }
}

fn part_rank_exec(p: &Comp) -> (r: u8)
    ensures
        r as int == part_rank(p@),
{
    match p {
        Comp::Root => 0,
        Comp::Cur => 1,
        Comp::Parent => 2,
        Comp::Normal(_) => 3,
    }
}

fn part_lt_exec(p: &Comp, q: &Comp) -> (r: bool)
    ensures
        r == part_lt(p@, q@),
{
    let rp = part_rank_exec(p);
    let rq = part_rank_exec(q);
    if rp < rq {
        return true;
    }
    match (p, q) {
        (Comp::Normal(a), Comp::Normal(b)) => text_lt_exec(a, b),
        _ => false,
    }
}

fn parts_le_exec(a: &Vec<Comp>, b: &Vec<Comp>) -> (r: bool)
    ensures
        r == parts_le(parts_view(a@), parts_view(b@)),
{
    let ghost av = parts_view(a@);
    let ghost bv = parts_view(b@);
    let mut i: usize = 0;
    assert(av.skip(0) =~= av && bv.skip(0) =~= bv);
    loop
        invariant
            i <= a.len(),
            i <= b.len(),
            av == parts_view(a@),
            bv == parts_view(b@),
            parts_le(av, bv) == parts_le(av.skip(i as int), bv.skip(i as int)),
        decreases a.len() - i,
    {
        if i == a.len() {
            return true;
        }
        if i == b.len() {
            return false;
        }
        assert(av.skip(i as int)[0] == a@[i as int]@ && bv.skip(i as int)[0] == b@[i as int]@);
        if part_lt_exec(&a[i], &b[i]) {
            return true;
        }
        if part_lt_exec(&b[i], &a[i]) {
            return false;
        }
        assert(av.skip(i as int).skip(1) =~= av.skip(i + 1));
        assert(bv.skip(i as int).skip(1) =~= bv.skip(i + 1));
        i = i + 1;
    }
}

// ----------------------------------------------------------------------
// Selection
// ----------------------------------------------------------------------

/// The views of a run of strings.
pub open spec fn strings_view(v: Seq<String>) -> Seq<Seq<char>> {
    Seq::new(v.len(), |i: int| v[i]@)
}

/// A file found under `root` is analysed: it is a Rust source, it is not test
/// code unless tests are included, and, when path fragments are given, its path
/// relative to `root` holds one of them.
pub open spec fn keeps_source(
    path: Seq<char>,
    root: Seq<char>,
    include_tests: bool,
    filters: Seq<Seq<char>>,
) -> bool {
    &&& has_rs_extension(path)
    &&& include_tests || !is_test_path_spec(path, root)
    &&& filters.len() == 0 || exists|i: int|
        0 <= i < filters.len() && contains_text(relative_text(path, root), #[trigger] filters[i])
}

/// The files, out of `found`, that are analysed, in path order.
pub open spec fn selected_sources(
    found: Seq<Seq<char>>,
    root: Seq<char>,
    include_tests: bool,
    filters: Seq<Seq<char>>,
) -> Seq<Seq<char>> {
    insertion_sorted(
        found.filter(|p: Seq<char>| keeps_source(p, root, include_tests, filters)),
        path_order(),
    )
}

/// Whether the file `path`, found under `root`, is analysed.
pub fn keeps_source_file(path: &str, root: &str, include_tests: bool, filters: &Vec<String>) -> (b:
    bool)
    ensures
        b == keeps_source(path@, root@, include_tests, strings_view(filters@)),
{
    let ghost fv = strings_view(filters@);
    if !has_rs_extension_exec(path) {
        return false;
    }
    if !include_tests && is_test_path(path, root) {
        return false;
    }
    if filters.len() == 0 {
        return true;
    }
    let relative = relative_path(path, root);
    let mut i: usize = 0;
    while i < filters.len()
        invariant
            i <= filters.len(),
            fv == strings_view(filters@),
            has_rs_extension(path@),
            include_tests || !is_test_path_spec(path@, root@),
            filters.len() > 0,
            relative@ == relative_text(path@, root@),
            forall|j: int| 0 <= j < i ==> !contains_text(relative@, #[trigger] fv[j]),
        decreases filters.len() - i,
    {
        if text_contains(relative.as_str(), filters[i].as_str()) {
            assert(contains_text(relative_text(path@, root@), fv[i as int]));
            return true;
        }
        i = i + 1;
    }
    false
}

/// A found file, with the components of its path for sorting.
struct Keyed {
    key: Vec<Comp>,
    path: String,
}

impl Keyed {
    #[verifier::type_invariant]
    spec fn keyed_inv(self) -> bool {
        parts_view(self.key@) == components(self.path@)
    }
}

impl View for Keyed {
    type V = Seq<char>;

    closed spec fn view(&self) -> Seq<char> {
        self.path@
    }
}

/// Whether `a`'s path comes no later than `b`'s.
fn keyed_le(a: &Keyed, b: &Keyed) -> (r: bool)
    ensures
        r == path_le(a@, b@),
{
    proof {
        use_type_invariant(a);
        use_type_invariant(b);
    }
    parts_le_exec(&a.key, &b.key)
}

/// `found` filtered to the files that are analysed, then sorted by path.
pub fn select_source_files(
    found: &Vec<String>,
    root: &str,
    include_tests: bool,
    filters: &Vec<String>,
) -> (out: Vec<String>)
    ensures
        strings_view(out@) == selected_sources(
            strings_view(found@),
            root@,
            include_tests,
            strings_view(filters@),
        ),
{
    let ghost pred = |p: Seq<char>| keeps_source(p, root@, include_tests, strings_view(filters@));
    let ghost fv = strings_view(found@);
    // Keep the files that are analysed, each with its components.
    let mut kept: Vec<Keyed> = Vec::new();
    let mut i: usize = 0;
    while i < found.len()
        invariant
            i <= found.len(),
            fv == strings_view(found@),
            pred == (|p: Seq<char>| keeps_source(p, root@, include_tests, strings_view(filters@))),
            views_of(kept@) == fv.take(i as int).filter(pred),
        decreases found.len() - i,
    {
        let ghost before = views_of(kept@);
        let p = &found[i];
        assert(fv.take(i + 1).drop_last() =~= fv.take(i as int));
        assert(fv.take(i + 1).last() == p@);
        reveal_with_fuel(Seq::<_>::filter, 1);
        if keeps_source_file(p.as_str(), root, include_tests, filters) {
            let key = path_components(&chars_of(p.as_str()));
            let path = p.clone();
            assert(parts_view(key@) == components(path@));
            let item = Keyed { key, path };
            assert(item@ == p@);
            kept.push(item);
            assert(views_of(kept@) =~= before.push(p@));
        } else {
            assert(views_of(kept@) =~= before);
        }
        i = i + 1;
    }
    assert(fv.take(found.len() as int) =~= fv);
    let ghost kv = views_of(kept@);
    insertion_sort(&mut kept, &keyed_le, Ghost(path_order()));
    let mut out: Vec<String> = Vec::new();
    let mut k: usize = 0;
    while k < kept.len()
        invariant
            k <= kept.len(),
            out@.len() == k,
            strings_view(out@) == views_of(kept@).take(k as int),
        decreases kept.len() - k,
    {
        let ghost before = out@;
        let c = kept[k].path.clone();
        assert(c@ == kept@[k as int]@);
        out.push(c);
        assert(out@ == before.push(c));
        k = k + 1;
        assert(strings_view(out@) =~= views_of(kept@).take(k as int));
    }
    assert(views_of(kept@).take(k as int) =~= views_of(kept@));
    out
}

/// The selected sources are exactly the found files that are analysed, each
/// once, in path order: each is a Rust source, none is test code unless tests
/// are included, and each holds a requested path fragment when any is given.
pub proof fn lemma_selected_sources(
    found: Seq<Seq<char>>,
    root: Seq<char>,
    include_tests: bool,
    filters: Seq<Seq<char>>,
)
    ensures
        ({
            let kept = found.filter(|p: Seq<char>| keeps_source(p, root, include_tests, filters));
            let out = selected_sources(found, root, include_tests, filters);
            &&& is_sorted_by(out, path_order())
            &&& out.to_multiset() == kept.to_multiset()
            &&& forall|i: int|
                0 <= i < out.len() ==> keeps_source(#[trigger] out[i], root, include_tests, filters)
        }),
{
    broadcast use vstd::seq_lib::group_to_multiset_ensures;
    broadcast use vstd::seq_lib::group_filter_ensures;

    let pred = |p: Seq<char>| keeps_source(p, root, include_tests, filters);
    let kept = found.filter(pred);
    let out = insertion_sorted(kept, path_order());
    lemma_path_order_total();
    lemma_insertion_sorted_is_sorted(kept, path_order());
    lemma_insertion_sorted_permutation(kept, path_order());
    assert forall|i: int| 0 <= i < out.len() implies keeps_source(
        #[trigger] out[i],
        root,
        include_tests,
        filters,
    ) by {
        assert(out.contains(out[i]));
        assert(out.to_multiset().count(out[i]) > 0);
        assert(kept.contains(out[i]));
        let k = choose|k: int| 0 <= k < kept.len() && kept[k] == out[i];
        assert(pred(kept[k]));
    }
}

/// Path fragments are looked for in the path relative to the root, never in the
/// root itself: for a plain relative path `rel` under a non-empty root and some
/// fragments, the file is kept exactly when it is a Rust source, is not test code
/// unless tests are included, and one of the fragments occurs in `rel`.
pub proof fn lemma_filters_match_relative_path(
    root: Seq<char>,
    rel: Seq<char>,
    include_tests: bool,
    filters: Seq<Seq<char>>,
)
    requires
        root.len() > 0,
        is_plain_relative(rel),
        filters.len() > 0,
    ensures
        keeps_source(joined(root, rel), root, include_tests, filters) <==> {
            &&& has_rs_extension(joined(root, rel))
            &&& include_tests || !is_test_path_spec(joined(root, rel), root)
            &&& exists|i: int| 0 <= i < filters.len() && contains_text(rel, #[trigger] filters[i])
        },
{
    lemma_relative_of_joined(root, rel);
}

/// A file is selected exactly when it was found and is analysed.
pub proof fn lemma_selected_member(
    found: Seq<Seq<char>>,
    root: Seq<char>,
    include_tests: bool,
    filters: Seq<Seq<char>>,
    x: Seq<char>,
)
    ensures
        selected_sources(found, root, include_tests, filters).contains(x) == (found.contains(x)
            && keeps_source(x, root, include_tests, filters)),
{
    broadcast use vstd::seq_lib::group_to_multiset_ensures;

    let pred = |p: Seq<char>| keeps_source(p, root, include_tests, filters);
    let kept = found.filter(pred);
    let out = selected_sources(found, root, include_tests, filters);
    lemma_selected_sources(found, root, include_tests, filters);
    assert(out.contains(x) == kept.contains(x)) by {
        assert(out.to_multiset().count(x) == kept.to_multiset().count(x));
    }
    if kept.contains(x) {
        found.lemma_filter_contains_rev(pred, x);
        let k = choose|k: int| 0 <= k < kept.len() && kept[k] == x;
        found.lemma_filter_pred(pred, k);
    }
    if found.contains(x) && pred(x) {
        let j = choose|j: int| 0 <= j < found.len() && found[j] == x;
        found.lemma_filter_contains(pred, j);
    }
}

/// Leaving test code out only removes files: every file selected without tests
/// is selected with them.
pub proof fn lemma_excluding_tests_only_removes(
    found: Seq<Seq<char>>,
    root: Seq<char>,
    filters: Seq<Seq<char>>,
)
    ensures
        forall|x: Seq<char>|
            #[trigger] selected_sources(found, root, false, filters).contains(x)
                ==> selected_sources(found, root, true, filters).contains(x),
{
    assert forall|x: Seq<char>|
        #[trigger] selected_sources(found, root, false, filters).contains(x) implies selected_sources(
        found,
        root,
        true,
        filters,
    ).contains(x) by {
        lemma_selected_member(found, root, false, filters, x);
        lemma_selected_member(found, root, true, filters, x);
    }
}

/// Path fragments only remove files: every file selected with fragments is
/// selected without any.
pub proof fn lemma_filters_only_remove(
    found: Seq<Seq<char>>,
    root: Seq<char>,
    include_tests: bool,
    filters: Seq<Seq<char>>,
)
    ensures
        forall|x: Seq<char>|
            #[trigger] selected_sources(found, root, include_tests, filters).contains(x)
                ==> selected_sources(found, root, include_tests, seq![]).contains(x),
{
    assert forall|x: Seq<char>|
        #[trigger] selected_sources(found, root, include_tests, filters).contains(
            x,
        ) implies selected_sources(found, root, include_tests, seq![]).contains(x) by {
        lemma_selected_member(found, root, include_tests, filters, x);
        lemma_selected_member(found, root, include_tests, seq![], x);
    }
}

proof fn lemma_filter_no_duplicates(s: Seq<Seq<char>>, pred: spec_fn(Seq<char>) -> bool)
    requires
        s.no_duplicates(),
    ensures
        s.filter(pred).no_duplicates(),
    decreases s.len(),
{
    reveal(Seq::filter);
    if s.len() > 0 {
        let d = s.drop_last();
        assert(d.no_duplicates()) by {
            assert forall|i: int, j: int| 0 <= i < d.len() && 0 <= j < d.len() && i != j implies d[i]
                != d[j] by {
                assert(d[i] == s[i] && d[j] == s[j]);
            }
        }
        lemma_filter_no_duplicates(d, pred);
        let fd = d.filter(pred);
        assert(s.filter(pred) == fd + (if pred(s.last()) {
            seq![s.last()]
        } else {
            seq![]
        }));
        if pred(s.last()) {
            if fd.contains(s.last()) {
                d.lemma_filter_contains_rev(pred, s.last());
                let k = choose|k: int| 0 <= k < d.len() && d[k] == s.last();
                assert(s[k] == s[s.len() - 1]);
            }
            let t = fd.push(s.last());
            assert(s.filter(pred) =~= t);
            assert forall|i: int, j: int| 0 <= i < t.len() && 0 <= j < t.len() && i != j implies t[i]
                != t[j] by {
                if i < fd.len() && j < fd.len() {
                } else if i < fd.len() {
                    assert(fd.contains(fd[i]));
                } else if j < fd.len() {
                    assert(fd.contains(fd[j]));
                }
            }
        } else {
            assert(s.filter(pred) =~= fd);
        }
    }
}

/// Files found once each are selected once each.
pub proof fn lemma_selected_no_duplicates(
    found: Seq<Seq<char>>,
    root: Seq<char>,
    include_tests: bool,
    filters: Seq<Seq<char>>,
)
    requires
        found.no_duplicates(),
    ensures
        selected_sources(found, root, include_tests, filters).no_duplicates(),
{
    let pred = |p: Seq<char>| keeps_source(p, root, include_tests, filters);
    let kept = found.filter(pred);
    let out = selected_sources(found, root, include_tests, filters);
    lemma_selected_sources(found, root, include_tests, filters);
    lemma_filter_no_duplicates(found, pred);
    kept.lemma_multiset_has_no_duplicates();
    out.lemma_multiset_has_no_duplicates_conv();
}

/// Two non-empty lists of path fragments together select the files that either
/// selects, in path order, and each once when the files were found once each: the
/// sorted union of the two selections.
pub proof fn lemma_filters_union(
    found: Seq<Seq<char>>,
    root: Seq<char>,
    include_tests: bool,
    f1: Seq<Seq<char>>,
    f2: Seq<Seq<char>>,
)
    requires
        f1.len() > 0,
        f2.len() > 0,
    ensures
        forall|x: Seq<char>|
            #[trigger] selected_sources(found, root, include_tests, f1 + f2).contains(x) <==> (
            selected_sources(found, root, include_tests, f1).contains(x) || selected_sources(
                found,
                root,
                include_tests,
                f2,
            ).contains(x)),
        is_sorted_by(selected_sources(found, root, include_tests, f1 + f2), path_order()),
        found.no_duplicates() ==> selected_sources(found, root, include_tests, f1 + f2).no_duplicates(),
{
    lemma_selected_sources(found, root, include_tests, f1 + f2);
    if found.no_duplicates() {
        lemma_selected_no_duplicates(found, root, include_tests, f1 + f2);
    }
    let f = f1 + f2;
    assert forall|x: Seq<char>|
        #[trigger] selected_sources(found, root, include_tests, f1 + f2).contains(x) <==> (
        selected_sources(found, root, include_tests, f1).contains(x) || selected_sources(
            found,
            root,
            include_tests,
            f2,
        ).contains(x)) by {
        lemma_selected_member(found, root, include_tests, f, x);
        lemma_selected_member(found, root, include_tests, f1, x);
        lemma_selected_member(found, root, include_tests, f2, x);
        let rel = relative_text(x, root);
        if exists|i: int| 0 <= i < f.len() && contains_text(rel, #[trigger] f[i]) {
            let i = choose|i: int| 0 <= i < f.len() && contains_text(rel, #[trigger] f[i]);
            if i < f1.len() {
                assert(f1[i] == f[i]);
            } else {
                assert(f2[i - f1.len()] == f[i]);
            }
        }
        if exists|i: int| 0 <= i < f1.len() && contains_text(rel, #[trigger] f1[i]) {
            let i = choose|i: int| 0 <= i < f1.len() && contains_text(rel, #[trigger] f1[i]);
            assert(f[i] == f1[i]);
        }
        if exists|i: int| 0 <= i < f2.len() && contains_text(rel, #[trigger] f2[i]) {
            let i = choose|i: int| 0 <= i < f2.len() && contains_text(rel, #[trigger] f2[i]);
            assert(f[i + f1.len()] == f2[i]);
        }
    }
}

} // verus!
