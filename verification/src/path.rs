//! Lexical path handling with `/` as the separator.
//!
//! A path is text (`Seq<char>`); its components follow the rules of a Unix
//! `std::path::Path`: a leading `/` is the root, empty pieces and `.` pieces are
//! dropped (a leading `.` excepted), `..` is the parent.
use vstd::prelude::*;
use crate::text::{
    chars_of, ends_with_text, find_char, find_char_exec, find_char_from, lemma_find_char,
    lemma_find_char_from_bound, lemma_find_char_shift, push_char, string_of, string_of_range,
};

verus! {

// ----------------------------------------------------------------------
// Normalisation and joining
// ----------------------------------------------------------------------

/// Every backslash replaced by a slash.
pub open spec fn forward_slashes(s: Seq<char>) -> Seq<char> {
    Seq::new(s.len(), |i: int| if s[i] == '\\' { '/' } else { s[i] })
}

/// `s` without any number of leading `./` pieces.
pub open spec fn trim_dot_slash(s: Seq<char>) -> Seq<char>
    decreases s.len(),
{
    if s.len() >= 2 && s[0] == '.' && s[1] == '/' {
        trim_dot_slash(s.skip(2))
    } else {
        s
    }
}

/// The form under which paths are compared with the files of a coverage report.
pub open spec fn normalized(s: Seq<char>) -> Seq<char> {
    trim_dot_slash(forward_slashes(s))
}

/// `rel` appended to `base` as `PathBuf::push` does on Unix: an absolute `rel`
/// replaces `base`, and a separator is put between them where `base` does not end in one.
pub open spec fn joined(base: Seq<char>, rel: Seq<char>) -> Seq<char> {
    if rel.len() > 0 && rel[0] == '/' {
        rel
    } else if base.len() == 0 || base.last() == '/' {
        base + rel
    } else {
        base + seq!['/'] + rel
    }
}

/// The path starts at the root.
pub open spec fn is_absolute(s: Seq<char>) -> bool {
    s.len() > 0 && s[0] == '/'
}

proof fn lemma_trim_dot_slash_shape(s: Seq<char>)
    ensures
        !(trim_dot_slash(s).len() >= 2 && trim_dot_slash(s)[0] == '.' && trim_dot_slash(s)[1]
            == '/'),
        trim_dot_slash(s).len() <= s.len(),
        trim_dot_slash(s) == s.skip(s.len() - trim_dot_slash(s).len()),
    decreases s.len(),
{
    if s.len() >= 2 && s[0] == '.' && s[1] == '/' {
        lemma_trim_dot_slash_shape(s.skip(2));
        let m = trim_dot_slash(s).len();
        assert(s.skip(2).skip(s.len() - 2 - m) =~= s.skip(s.len() - m));
    } else {
        assert(s.skip(0) =~= s);
    }
}

/// Normalising twice gives what normalising once gives, and a normalised path
/// holds no backslash and does not start with `./`.
pub proof fn lemma_normalized_idempotent(s: Seq<char>)
    ensures
        normalized(normalized(s)) == normalized(s),
        !normalized(s).contains('\\'),
        !(normalized(s).len() >= 2 && normalized(s)[0] == '.' && normalized(s)[1] == '/'),
{
    let t = forward_slashes(s);
    let n = normalized(s);
    lemma_trim_dot_slash_shape(t);
    let off = t.len() - n.len();
    assert forall|k: int| 0 <= k < n.len() implies n[k] != '\\' by {
        assert(n[k] == t[k + off]);
    }
    assert(forward_slashes(n) =~= n);
}

/// Replaces backslashes in `s[lo..hi]` and drops leading `./` pieces.
pub fn normalize_range(s: &Vec<char>, lo: usize, hi: usize) -> (out: String)
    requires
        lo <= hi <= s.len(),
    ensures
        out@ == normalized(s@.subrange(lo as int, hi as int)),
{
    let ghost src = s@.subrange(lo as int, hi as int);
    let mut fixed: Vec<char> = Vec::new();
    let mut i = lo;
    while i < hi
        invariant
            lo <= i <= hi <= s.len(),
            src == s@.subrange(lo as int, hi as int),
            fixed@ == forward_slashes(src).take(i - lo),
        decreases hi - i,
    {
        let c = s[i];
        if c == '\\' {
            fixed.push('/');
        } else {
            fixed.push(c);
        }
        i = i + 1;
        assert(fixed@ =~= forward_slashes(src).take(i - lo));
    }
    assert(fixed@ =~= forward_slashes(src));
    let mut a: usize = 0;
    while fixed.len() >= 2 && a <= fixed.len() - 2 && fixed[a] == '.' && fixed[a + 1] == '/'
        invariant
            a <= fixed.len(),
            trim_dot_slash(fixed@) == trim_dot_slash(fixed@.skip(a as int)),
        decreases fixed.len() - a,
    {
        assert(fixed@.skip(a as int).skip(2) =~= fixed@.skip(a + 2));
        a = a + 2;
    }
    assert(fixed@.subrange(a as int, fixed@.len() as int) =~= fixed@.skip(a as int));
    string_of_range(&fixed, a, fixed.len())
}

/// `value` with every backslash turned into a slash (`str::replace('\\', "/")`).
pub fn forward_slashes_string(value: &str) -> (out: String)
    ensures
        out@ == forward_slashes(value@),
{
    let v = chars_of(value);
    let mut out = String::new();
    let mut i: usize = 0;
    while i < v.len()
        invariant
            i <= v.len(),
            out@ == forward_slashes(v@).take(i as int),
        decreases v.len() - i,
    {
        if v[i] == '\\' {
            push_char(&mut out, '/');
        } else {
            push_char(&mut out, v[i]);
        }
        i = i + 1;
        assert(out@ =~= forward_slashes(v@).take(i as int));
    }
    assert(forward_slashes(v@).take(v@.len() as int) =~= forward_slashes(v@));
    out
}

/// `value` with backslashes turned into slashes and leading `./` pieces removed.
pub fn normalize_path(value: &str) -> (out: String)
    ensures
        out@ == normalized(value@),
{
    let v = chars_of(value);
    assert(v@.subrange(0, v@.len() as int) =~= v@);
    normalize_range(&v, 0, v.len())
}

/// `rel` joined onto `base` (`Path::join` on Unix).
pub fn join_path(base: &str, rel: &str) -> (out: String)
    ensures
        out@ == joined(base@, rel@),
{
    let b = chars_of(base);
    let r = chars_of(rel);
    if r.len() > 0 && r[0] == '/' {
        return string_of(&r);
    }
    let mut out = string_of(&b);
    if b.len() > 0 && b[b.len() - 1] != '/' {
        push_char(&mut out, '/');
    }
    let mut i: usize = 0;
    let ghost start = out@;
    while i < r.len()
        invariant
            i <= r.len(),
            out@ == start + r@.take(i as int),
        decreases r.len() - i,
    {
        push_char(&mut out, r[i]);
        i = i + 1;
        assert(out@ =~= start + r@.take(i as int));
    }
    assert(r@.take(r@.len() as int) =~= r@);
    assert(b@.len() > 0 ==> b@.last() == b@[b@.len() - 1]);
    out
}

/// `path` itself when it is absolute, else `path` under `root`.
pub fn resolve(root: &str, path: &str) -> (out: String)
    ensures
        is_absolute(path@) ==> out@ == path@,
        !is_absolute(path@) ==> out@ == joined(root@, path@),
{
    join_path(root, path)
}

// ----------------------------------------------------------------------
// Components
// ----------------------------------------------------------------------

/// One component of a path.
pub enum PathPart {
    Root,
    Cur,
    Parent,
    Normal(Seq<char>),
}

/// The pieces of `s` between separators, empty ones included.
pub open spec fn split_slash(s: Seq<char>) -> Seq<Seq<char>>
    decreases s.len(),
{
    match find_char(s, '/') {
        Some(i) => if 0 <= i < s.len() {
            seq![s.take(i)] + split_slash(s.skip(i + 1))
        } else {
            seq![s]
        },
        None => seq![s],
    }
}

/// The component a piece between separators stands for, if any.
pub open spec fn piece_part(p: Seq<char>) -> Seq<PathPart> {
    if p.len() == 0 || p == seq!['.'] {
        seq![]
    } else if p == seq!['.', '.'] {
        seq![PathPart::Parent]
    } else {
        seq![PathPart::Normal(p)]
    }
}

/// The components that a run of pieces stands for.
pub open spec fn piece_parts(pieces: Seq<Seq<char>>) -> Seq<PathPart>
    decreases pieces.len(),
{
    if pieces.len() == 0 {
        seq![]
    } else {
        piece_parts(pieces.drop_last()) + piece_part(pieces.last())
    }
}

/// The root, or the `.` that a relative path starts with.
pub open spec fn leading_part(s: Seq<char>) -> Seq<PathPart> {
    if is_absolute(s) {
        seq![PathPart::Root]
    } else if (s.len() == 1 && s[0] == '.') || (s.len() >= 2 && s[0] == '.' && s[1] == '/') {
        seq![PathPart::Cur]
    } else {
        seq![]
    }
}

/// The components of a path (`Path::components` on Unix).
pub open spec fn components(s: Seq<char>) -> Seq<PathPart> {
    leading_part(s) + piece_parts(split_slash(s))
}

/// Exec form of a path component.
pub enum Comp {
    Root,
    Cur,
    Parent,
    Normal(Vec<char>),
}

impl View for Comp {
    type V = PathPart;

    open spec fn view(&self) -> PathPart {
        match self {
            Comp::Root => PathPart::Root,
            Comp::Cur => PathPart::Cur,
            Comp::Parent => PathPart::Parent,
            Comp::Normal(v) => PathPart::Normal(v@),
        }
    }
}

/// The views of a run of exec components.
pub open spec fn parts_view(v: Seq<Comp>) -> Seq<PathPart> {
    Seq::new(v.len(), |i: int| v[i]@)
}

proof fn lemma_split_step(s: Seq<char>, pos: int, next: Option<int>)
    requires
        0 <= pos <= s.len(),
        next == (match find_char_from(s, '/', pos) {
            Some(k) => Some(k),
            None => None::<int>,
        }),
    ensures
        next matches Some(k) ==> pos <= k < s.len() && split_slash(s.skip(pos)) == seq![
            s.subrange(pos, k),
        ] + split_slash(s.skip(k + 1)),
        next is None ==> split_slash(s.skip(pos)) == seq![s.skip(pos)],
{
    let t = s.skip(pos);
    lemma_find_char_shift(s, '/', pos, 0);
    lemma_find_char_from_bound(s, '/', pos);
    match next {
        Some(k) => {
            assert(find_char(t, '/') == Some(k - pos));
            assert(t.take(k - pos) =~= s.subrange(pos, k));
            assert(t.skip(k - pos + 1) =~= s.skip(k + 1));
        },
        None => {},
    }
}

proof fn lemma_piece_parts_push(pieces: Seq<Seq<char>>, p: Seq<char>)
    ensures
        piece_parts(pieces.push(p)) == piece_parts(pieces) + piece_part(p),
{
    assert(pieces.push(p).drop_last() =~= pieces);
}

fn seq_eq(a: &Vec<char>, b: &Vec<char>) -> (r: bool)
    ensures
        r == (a@ == b@),
{
    if a.len() != b.len() {
        return false;
    }
    let mut i: usize = 0;
    while i < a.len()
        invariant
            a.len() == b.len(),
            i <= a.len(),
            forall|j: int| 0 <= j < i ==> a@[j] == b@[j],
        decreases a.len() - i,
    {
        if a[i] != b[i] {
            return false;
        }
        i = i + 1;
    }
    assert(a@ =~= b@);
    true
}

fn copy_range(s: &Vec<char>, lo: usize, hi: usize) -> (out: Vec<char>)
    requires
        lo <= hi <= s.len(),
    ensures
        out@ == s@.subrange(lo as int, hi as int),
{
    let mut out: Vec<char> = Vec::new();
    let mut i = lo;
    while i < hi
        invariant
            lo <= i <= hi <= s.len(),
            out@ == s@.subrange(lo as int, i as int),
        decreases hi - i,
    {
        out.push(s[i]);
        i = i + 1;
        assert(out@ =~= s@.subrange(lo as int, i as int));
    }
    out
}

/// The components of the path whose text is `s`.
pub fn path_components(s: &Vec<char>) -> (out: Vec<Comp>)
    ensures
        parts_view(out@) == components(s@),
{
    let mut out: Vec<Comp> = Vec::new();
    if s.len() > 0 && s[0] == '/' {
        out.push(Comp::Root);
    } else if (s.len() == 1 && s[0] == '.') || (s.len() >= 2 && s[0] == '.' && s[1] == '/') {
        out.push(Comp::Cur);
    }
    assert(parts_view(out@) =~= leading_part(s@));
    let ghost lead = parts_view(out@);
    let ghost mut done: Seq<Seq<char>> = seq![];
    let mut pos: usize = 0;
    let mut more = true;
    assert(s@.skip(0) =~= s@);
    while more
        invariant
            pos <= s.len(),
            lead == leading_part(s@),
            more ==> split_slash(s@) == done + split_slash(s@.skip(pos as int)),
            !more ==> split_slash(s@) == done,
            parts_view(out@) == lead + piece_parts(done),
        decreases s.len() - pos + (if more { 1int } else { 0int }),
    {
        let next = find_char_exec(s, '/', pos);
        let end = match next {
            Some(i) => i,
            None => s.len(),
        };
        proof {
            let gnext = match next {
                Some(i) => Some(i as int),
                None => None::<int>,
            };
            lemma_split_step(s@, pos as int, gnext);
            lemma_find_char_from_bound(s@, '/', pos as int);
        }
        let ghost piece = s@.subrange(pos as int, end as int);
        let ghost before = parts_view(out@);
        let len = end - pos;
        assert(piece.len() == len);
        if len == 0 || (len == 1 && s[pos] == '.') {
            assert(piece_part(piece) =~= seq![]) by {
                if len == 1 {
                    assert(piece =~= seq!['.']);
                }
            }
        } else if len == 2 && s[pos] == '.' && s[pos + 1] == '.' {
            assert(piece =~= seq!['.', '.']);
            out.push(Comp::Parent);
        } else {
            let name = copy_range(s, pos, end);
            assert(piece != seq!['.']) by {
                if piece == seq!['.'] {
                    assert(piece[0] == s@[pos as int]);
                }
            }
            assert(piece != seq!['.', '.']) by {
                if piece == seq!['.', '.'] {
                    assert(piece[0] == s@[pos as int]);
                    assert(piece[1] == s@[pos + 1]);
                }
            }
            out.push(Comp::Normal(name));
        }
        proof {
            lemma_piece_parts_push(done, piece);
            done = done.push(piece);
        }
        assert(parts_view(out@) =~= before + piece_part(piece));
        match next {
            Some(i) => {
                pos = i + 1;
            },
            None => {
                pos = s.len();
                more = false;
            },
        }
    }
    out
}

// ----------------------------------------------------------------------
// Prefixes, relative paths and file names
// ----------------------------------------------------------------------

/// The components of `path` after those of `base`, when `base`'s components
/// begin `path`'s (`Path::strip_prefix`).
pub open spec fn strip_parts(path: Seq<PathPart>, base: Seq<PathPart>) -> Option<Seq<PathPart>> {
    if base.len() <= path.len() && path.take(base.len() as int) == base {
        Some(path.skip(base.len() as int))
    } else {
        None
    }
}

/// `path` lies under `base`, component by component (`Path::starts_with`).
pub open spec fn path_starts_with(path: Seq<char>, base: Seq<char>) -> bool {
    strip_parts(components(path), components(base)) is Some
}

/// Where the piece of `s` that starts at `i` ends: at the next `/`, or at the end.
pub open spec fn piece_end(s: Seq<char>, i: int) -> int {
    match find_char_from(s, '/', i) {
        Some(k) => k,
        None => s.len() as int,
    }
}

/// Where the piece after the one that starts at `i` begins.
pub open spec fn next_piece(s: Seq<char>, i: int) -> int {
    match find_char_from(s, '/', i) {
        Some(k) => k + 1,
        None => s.len() as int,
    }
}

/// The piece of `s` that starts at `i` stands for a component: it is neither
/// empty nor `.`.
pub open spec fn piece_named(s: Seq<char>, i: int) -> bool {
    piece_part(s.subrange(i, piece_end(s, i))).len() > 0
}

/// The offset reached from `i` by reading pieces until `n` components are read
/// (how `Components::next` advances through the text).
pub open spec fn skip_parts(s: Seq<char>, i: int, n: nat) -> int
    decreases s.len() - i,
{
    if n == 0 || i < 0 || i >= s.len() {
        i
    } else {
        proof {
            lemma_find_char_from_bound(s, '/', i);
        }
        if piece_named(s, i) {
            skip_parts(s, next_piece(s, i), (n - 1) as nat)
        } else {
            skip_parts(s, next_piece(s, i), n)
        }
    }
}

/// The offset of the first piece at or after `i` that stands for a component,
/// or the end: the separators and `.` pieces at `i` passed over.
pub open spec fn skip_unnamed(s: Seq<char>, i: int) -> int
    decreases s.len() - i,
{
    if i < 0 || i >= s.len() {
        i
    } else if piece_named(s, i) {
        i
    } else {
        proof {
            lemma_find_char_from_bound(s, '/', i);
        }
        skip_unnamed(s, next_piece(s, i))
    }
}

/// The offset just after the first `n` components of `s`: a leading root or `.`
/// takes one character, every other component its piece and the separator after it.
pub open spec fn after_parts(s: Seq<char>, n: nat) -> int {
    if n == 0 {
        0
    } else if leading_part(s).len() > 0 {
        skip_parts(s, 1, (n - 1) as nat)
    } else {
        skip_parts(s, 0, n)
    }
}

/// The last index in `lo..hi` that holds `c`.
pub open spec fn rfind_char_in(s: Seq<char>, c: char, lo: int, hi: int) -> Option<int>
    decreases hi - lo,
{
    if hi <= lo {
        None
    } else if s[hi - 1] == c {
        Some(hi - 1)
    } else {
        rfind_char_in(s, c, lo, hi - 1)
    }
}

/// The end of `s[lo..hi]` once the trailing pieces that stand for no component
/// are dropped, never going below `lo`.
pub open spec fn trim_unnamed_end(s: Seq<char>, lo: int, hi: int) -> int
    decreases hi - lo,
{
    if hi <= lo {
        hi
    } else {
        match rfind_char_in(s, '/', lo, hi) {
            Some(k) => if piece_part(s.subrange(k + 1, hi)).len() > 0 {
                hi
            } else {
                proof {
                    lemma_rfind_char_in(s, '/', lo, hi);
                }
                trim_unnamed_end(s, lo, k)
            },
            None => if piece_part(s.subrange(lo, hi)).len() > 0 {
                hi
            } else {
                lo
            },
        }
    }
}

/// `rfind_char_in` answers the last index in `lo..hi` that holds `c`.
pub proof fn lemma_rfind_char_in(s: Seq<char>, c: char, lo: int, hi: int)
    ensures
        rfind_char_in(s, c, lo, hi) matches Some(k) ==> lo <= k < hi && s[k] == c && forall|j: int|
            k < j < hi ==> s[j] != c,
        rfind_char_in(s, c, lo, hi) is None ==> forall|j: int| lo <= j < hi ==> s[j] != c,
    decreases hi - lo,
{
    if hi > lo && s[hi - 1] != c {
        lemma_rfind_char_in(s, c, lo, hi - 1);
    }
}

/// The text of `path` after the components of `base`, when those begin `path`'s
/// components (`Path::strip_prefix`, read as `Components::as_path` reads the rest):
/// the rest of `path`'s own text, less the leading and trailing pieces that stand
/// for no component. When `base` has no components, only trailing such pieces go,
/// and a leading root or `.` stays.
pub open spec fn stripped_text(path: Seq<char>, base: Seq<char>) -> Option<Seq<char>> {
    match strip_parts(components(path), components(base)) {
        Some(_) => {
            let n = components(base).len();
            if n == 0 {
                Some(
                    path.take(
                        trim_unnamed_end(path, leading_part(path).len() as int, path.len() as int),
                    ),
                )
            } else {
                let a = skip_unnamed(path, after_parts(path, n));
                Some(path.subrange(a, trim_unnamed_end(path, a, path.len() as int)))
            }
        },
        None => None,
    }
}

/// `path` relative to `root` (`path.strip_prefix(root).unwrap_or(path)`).
pub open spec fn relative_text(path: Seq<char>, root: Seq<char>) -> Seq<char> {
    match stripped_text(path, root) {
        Some(rest) => rest,
        None => path,
    }
}

/// The last component, when it is a name (`Path::file_name`).
pub open spec fn file_name(parts: Seq<PathPart>) -> Option<Seq<char>> {
    if parts.len() > 0 {
        match parts.last() {
            PathPart::Normal(n) => Some(n),
            _ => None,
        }
    } else {
        None
    }
}

/// The file name has the extension `rs` (`Path::extension() == Some("rs")`).
pub open spec fn has_rs_extension(path: Seq<char>) -> bool {
    match file_name(components(path)) {
        Some(n) => n.len() > 3 && crate::text::is_suffix_of(".rs"@, n),
        None => false,
    }
}

/// `path`, seen from `root`, is test code: one of its components is `tests`,
/// or its file name ends in `_test.rs`.
pub open spec fn is_test_path_spec(path: Seq<char>, root: Seq<char>) -> bool {
    match strip_parts(components(path), components(root)) {
        Some(rest) => {
            ||| rest.contains(PathPart::Normal("tests"@))
            ||| (file_name(rest) matches Some(n) && crate::text::is_suffix_of("_test.rs"@, n))
        },
        None => false,
    }
}

fn comp_eq(a: &Comp, b: &Comp) -> (r: bool)
    ensures
        r == (a@ == b@),
{
    match (a, b) {
        (Comp::Root, Comp::Root) => true,
        (Comp::Cur, Comp::Cur) => true,
        (Comp::Parent, Comp::Parent) => true,
        (Comp::Normal(x), Comp::Normal(y)) => seq_eq(x, y),
        _ => false,
    }
}

/// The components of `path` after those of `base`, if `base` begins `path`.
fn strip_comps(path: &Vec<Comp>, base: &Vec<Comp>) -> (r: Option<usize>)
    ensures
        r matches Some(k) ==> k == base.len() && strip_parts(parts_view(path@), parts_view(
            base@,
        )) == Some(parts_view(path@).skip(k as int)),
        r is None ==> strip_parts(parts_view(path@), parts_view(base@)) is None,
{
    if base.len() > path.len() {
        return None;
    }
    let mut i: usize = 0;
    while i < base.len()
        invariant
            base.len() <= path.len(),
            i <= base.len(),
            forall|j: int| 0 <= j < i ==> path@[j]@ == base@[j]@,
        decreases base.len() - i,
    {
        if !comp_eq(&path[i], &base[i]) {
            assert(parts_view(path@).take(base.len() as int)[i as int] != parts_view(
                base@,
            )[i as int]);
            return None;
        }
        i = i + 1;
    }
    assert(parts_view(path@).take(base.len() as int) =~= parts_view(base@));
    Some(base.len())
}

/// Whether `path` lies under `base`, component by component.
pub fn starts_with_path(path: &str, base: &str) -> (b: bool)
    ensures
        b == path_starts_with(path@, base@),
{
    let p = path_components(&chars_of(path));
    let q = path_components(&chars_of(base));
    strip_comps(&p, &q).is_some()
}

/// Whether `s[lo..hi]` stands for a component: it is neither empty nor `.`.
fn range_named(s: &Vec<char>, lo: usize, hi: usize) -> (b: bool)
    requires
        lo <= hi <= s.len(),
    ensures
        b == (piece_part(s@.subrange(lo as int, hi as int)).len() > 0),
{
    let ghost p = s@.subrange(lo as int, hi as int);
    if hi == lo {
        return false;
    }
    if hi - lo == 1 && s[lo] == '.' {
        assert(p =~= seq!['.']);
        return false;
    }
    assert(p != seq!['.']) by {
        if p == seq!['.'] {
            assert(p[0] == s@[lo as int]);
        }
    }
    true
}

/// The end of the piece at `i`, where the next piece starts, and whether the
/// piece stands for a component.
fn piece_at(s: &Vec<char>, i: usize) -> (r: (usize, usize, bool))
    requires
        i < s.len(),
    ensures
        r.0 == piece_end(s@, i as int),
        r.1 == next_piece(s@, i as int),
        r.2 == piece_named(s@, i as int),
        i <= r.0 <= s.len(),
        i < r.1 <= s.len(),
{
    proof {
        lemma_find_char_from_bound(s@, '/', i as int);
    }
    let (end, next) = match find_char_exec(s, '/', i) {
        Some(k) => (k, k + 1),
        None => (s.len(), s.len()),
    };
    let named = range_named(s, i, end);
    (end, next, named)
}

/// `skip_parts` from `i`.
fn skip_parts_exec(s: &Vec<char>, i: usize, n: usize) -> (r: usize)
    requires
        i <= s.len(),
    ensures
        r == skip_parts(s@, i as int, n as nat),
        i <= r <= s.len(),
{
    let mut at = i;
    let mut left = n;
    while left > 0 && at < s.len()
        invariant
            i <= at <= s.len(),
            skip_parts(s@, at as int, left as nat) == skip_parts(s@, i as int, n as nat),
        decreases s.len() - at,
    {
        let (_, next, named) = piece_at(s, at);
        if named {
            left = left - 1;
        }
        at = next;
    }
    at
}

/// `skip_unnamed` from `i`.
fn skip_unnamed_exec(s: &Vec<char>, i: usize) -> (r: usize)
    requires
        i <= s.len(),
    ensures
        r == skip_unnamed(s@, i as int),
        i <= r <= s.len(),
{
    let mut at = i;
    while at < s.len()
        invariant
            i <= at <= s.len(),
            skip_unnamed(s@, at as int) == skip_unnamed(s@, i as int),
        decreases s.len() - at,
    {
        let (_, next, named) = piece_at(s, at);
        if named {
            return at;
        }
        at = next;
    }
    at
}

/// Whether `s` starts with a root or with a `.` component.
fn has_leading_part(s: &Vec<char>) -> (b: bool)
    ensures
        b == (leading_part(s@).len() > 0),
{
    (s.len() > 0 && s[0] == '/') || (s.len() == 1 && s[0] == '.') || (s.len() >= 2 && s[0] == '.'
        && s[1] == '/')
}

/// `rfind_char_in` over `lo..hi`.
pub(crate) fn rfind_char_exec(s: &Vec<char>, c: char, lo: usize, hi: usize) -> (r: Option<usize>)
    requires
        lo <= hi <= s.len(),
    ensures
        r matches Some(k) ==> rfind_char_in(s@, c, lo as int, hi as int) == Some(k as int) && lo
            <= k < hi,
        r is None ==> rfind_char_in(s@, c, lo as int, hi as int) is None,
{
    let mut h = hi;
    while h > lo
        invariant
            lo <= h <= hi <= s.len(),
            rfind_char_in(s@, c, lo as int, h as int) == rfind_char_in(s@, c, lo as int, hi as int),
        decreases h - lo,
    {
        if s[h - 1] == c {
            return Some(h - 1);
        }
        h = h - 1;
    }
    None
}

/// `trim_unnamed_end` over `lo..hi`.
fn trim_unnamed_end_exec(s: &Vec<char>, lo: usize, hi: usize) -> (r: usize)
    requires
        lo <= hi <= s.len(),
    ensures
        r == trim_unnamed_end(s@, lo as int, hi as int),
        lo <= r <= hi,
{
    let mut h = hi;
    while h > lo
        invariant
            lo <= h <= hi <= s.len(),
            trim_unnamed_end(s@, lo as int, h as int) == trim_unnamed_end(s@, lo as int, hi as int),
        decreases h - lo,
    {
        match rfind_char_exec(s, '/', lo, h) {
            Some(k) => {
                if range_named(s, k + 1, h) {
                    return h;
                }
                h = k;
            },
            None => {
                if range_named(s, lo, h) {
                    return h;
                }
                return lo;
            },
        }
    }
    h
}

/// `path` relative to `root` (`path.strip_prefix(root).unwrap_or(path)`): the rest
/// of `path`'s text after the components of `root`, as `relative_text` gives it.
pub fn relative_path(path: &str, root: &str) -> (out: String)
    ensures
        out@ == relative_text(path@, root@),
{
    let pc = chars_of(path);
    let p = path_components(&pc);
    let q = path_components(&chars_of(root));
    match strip_comps(&p, &q) {
        Some(_) => {
            let n = q.len();
            if n == 0 {
                let lead: usize = if has_leading_part(&pc) {
                    1
                } else {
                    0
                };
                let e = trim_unnamed_end_exec(&pc, lead, pc.len());
                assert(pc@.subrange(0, e as int) =~= pc@.take(e as int));
                string_of_range(&pc, 0, e)
            } else {
                let start = if has_leading_part(&pc) {
                    skip_parts_exec(&pc, 1, n - 1)
                } else {
                    skip_parts_exec(&pc, 0, n)
                };
                let a = skip_unnamed_exec(&pc, start);
                let e = trim_unnamed_end_exec(&pc, a, pc.len());
                string_of_range(&pc, a, e)
            }
        },
        None => string_of(&pc),
    }
}

fn last_name(parts: &Vec<Comp>, from: usize) -> (r: Option<&Vec<char>>)
    requires
        from <= parts.len(),
    ensures
        r matches Some(n) ==> file_name(parts_view(parts@).skip(from as int)) == Some(n@),
        r is None ==> file_name(parts_view(parts@).skip(from as int)) is None,
{
    if parts.len() > from {
        let ghost rest = parts_view(parts@).skip(from as int);
        assert(rest.last() == parts@[parts.len() - 1]@);
        match &parts[parts.len() - 1] {
            Comp::Normal(n) => Some(n),
            _ => None,
        }
    } else {
        None
    }
}

/// Whether the file name of `path` has the extension `rs`.
pub fn has_rs_extension_exec(path: &str) -> (b: bool)
    ensures
        b == has_rs_extension(path@),
{
    let p = path_components(&chars_of(path));
    match last_name(&p, 0) {
        Some(n) => {
            assert(parts_view(p@).skip(0) =~= parts_view(p@));
            let suffix = chars_of(".rs");
            n.len() > 3 && ends_with_text(n, &suffix)
        },
        None => {
            assert(parts_view(p@).skip(0) =~= parts_view(p@));
            false
        },
    }
}

/// Whether `path`, seen from `root`, is test code: it lies under `root` and one of
/// the components after `root` is `tests`, or its file name ends in `_test.rs`.
pub fn is_test_path(path: &str, root: &str) -> (b: bool)
    ensures
        b == is_test_path_spec(path@, root@),
{
    let p = path_components(&chars_of(path));
    let q = path_components(&chars_of(root));
    match strip_comps(&p, &q) {
        None => false,
        Some(k) => {
            let ghost rest = parts_view(p@).skip(k as int);
            let tests = chars_of("tests");
            let mut i = k;
            let mut found = false;
            while i < p.len()
                invariant
                    k <= i <= p.len(),
                    rest == parts_view(p@).skip(k as int),
                    found == exists|j: int| k <= j < i && p@[j]@ == PathPart::Normal(tests@),
                decreases p.len() - i,
            {
                match &p[i] {
                    Comp::Normal(n) => {
                        if seq_eq(n, &tests) {
                            found = true;
                        }
                    },
                    _ => {},
                }
                i = i + 1;
            }
            assert(found == rest.contains(PathPart::Normal("tests"@))) by {
                if found {
                    let j = choose|j: int| k <= j < p.len() && p@[j]@ == PathPart::Normal(tests@);
                    assert(rest[j - k] == p@[j]@);
                }
                if rest.contains(PathPart::Normal("tests"@)) {
                    let j = choose|j: int|
                        0 <= j < rest.len() && rest[j] == PathPart::Normal("tests"@);
                    assert(rest[j] == p@[j + k]@);
                }
            }
            if found {
                return true;
            }
            match last_name(&p, k) {
                Some(n) => {
                    let suffix = chars_of("_test.rs");
                    ends_with_text(n, &suffix)
                },
                None => false,
            }
        },
    }
}

/// Whether a directory entry with this name is skipped while looking for sources.
pub fn is_ignored_name(name: &str) -> (b: bool)
    ensures
        b == ({
            ||| name@ == ".git"@
            ||| name@ == "target"@
            ||| name@ == "vendor"@
            ||| name@ == "node_modules"@
            ||| name@ == ".venv"@
            ||| name@ == "venv"@
            ||| name@ == "build"@
            ||| name@ == "dist"@
        }),
{
    let n = chars_of(name);
    seq_eq(&n, &chars_of(".git")) || seq_eq(&n, &chars_of("target")) || seq_eq(
        &n,
        &chars_of("vendor"),
    ) || seq_eq(&n, &chars_of("node_modules")) || seq_eq(&n, &chars_of(".venv")) || seq_eq(
        &n,
        &chars_of("venv"),
    ) || seq_eq(&n, &chars_of("build")) || seq_eq(&n, &chars_of("dist"))
}

// ----------------------------------------------------------------------
// Paths written under a root
// ----------------------------------------------------------------------

/// `rel` is a relative path written plainly: every piece between separators is
/// non-empty and none is `.` (so it neither starts nor ends with `/` and holds no `//`).
pub open spec fn is_plain_relative(rel: Seq<char>) -> bool {
    forall|i: int|
        0 <= i < split_slash(rel).len() ==> (#[trigger] split_slash(rel)[i]).len() > 0
            && split_slash(rel)[i] != seq!['.']
}

/// The component that a plain piece stands for.
pub open spec fn plain_part(p: Seq<char>) -> PathPart {
    if p == seq!['.', '.'] {
        PathPart::Parent
    } else {
        PathPart::Normal(p)
    }
}

proof fn lemma_split_slash_concat(a: Seq<char>, b: Seq<char>)
    ensures
        split_slash(a + seq!['/'] + b) == split_slash(a) + split_slash(b),
    decreases a.len(),
{
    let s = a + seq!['/'] + b;
    lemma_find_char(a, '/');
    lemma_find_char(s, '/');
    match find_char(a, '/') {
        Some(i) => {
            assert(s[i] == '/');
            assert forall|j: int| 0 <= j < i implies s[j] != '/' by {
                assert(s[j] == a[j]);
            }
            assert(find_char(s, '/') == Some(i));
            assert(s.take(i) =~= a.take(i));
            assert(s.skip(i + 1) =~= a.skip(i + 1) + seq!['/'] + b);
            lemma_split_slash_concat(a.skip(i + 1), b);
            assert(seq![a.take(i)] + (split_slash(a.skip(i + 1)) + split_slash(b)) =~= (seq![
                a.take(i),
            ] + split_slash(a.skip(i + 1))) + split_slash(b));
        },
        None => {
            assert(s[a.len() as int] == '/');
            assert forall|j: int| 0 <= j < a.len() implies s[j] != '/' by {
                assert(s[j] == a[j]);
            }
            assert(find_char(s, '/') == Some(a.len() as int));
            assert(s.take(a.len() as int) =~= a);
            assert(s.skip(a.len() + 1int) =~= b);
        },
    }
}

proof fn lemma_piece_parts_concat(x: Seq<Seq<char>>, y: Seq<Seq<char>>)
    ensures
        piece_parts(x + y) == piece_parts(x) + piece_parts(y),
    decreases y.len(),
{
    if y.len() == 0 {
        assert(x + y =~= x);
        assert(piece_parts(x) + piece_parts(y) =~= piece_parts(x));
    } else {
        lemma_piece_parts_concat(x, y.drop_last());
        assert((x + y).drop_last() =~= x + y.drop_last());
        assert((x + y).last() == y.last());
        assert(piece_parts(x) + piece_parts(y) =~= piece_parts(x) + piece_parts(y.drop_last())
            + piece_part(y.last()));
    }
}

proof fn lemma_components_under(a: Seq<char>, b: Seq<char>)
    ensures
        components(a + seq!['/'] + b) == components(a + seq!['/']) + piece_parts(split_slash(b)),
{
    let s = a + seq!['/'] + b;
    let t = a + seq!['/'];
    assert(s[0] == t[0]);
    assert(t.len() >= 2 ==> s[1] == t[1]);
    assert(leading_part(s) == leading_part(t));
    let empty: Seq<char> = seq![];
    lemma_split_slash_concat(a, b);
    lemma_split_slash_concat(a, empty);
    assert(t + empty =~= t);
    assert(split_slash(empty) == seq![empty]);
    assert(piece_parts(seq![empty]) =~= seq![]) by {
        assert(seq![empty].drop_last() =~= Seq::<Seq<char>>::empty());
        assert(piece_parts(Seq::<Seq<char>>::empty()) == Seq::<PathPart>::empty());
    }
    lemma_piece_parts_concat(split_slash(a), split_slash(b));
    lemma_piece_parts_concat(split_slash(a), seq![empty]);
    assert(piece_parts(split_slash(a)) + seq![] =~= piece_parts(split_slash(a)));
    assert(components(s) =~= components(t) + piece_parts(split_slash(b)));
}

proof fn lemma_components_trailing_slash(root: Seq<char>)
    requires
        root.len() > 0,
    ensures
        components(root + seq!['/']) == components(root),
{
    let t = root + seq!['/'];
    let empty: Seq<char> = seq![];
    assert(t[0] == root[0]);
    assert(root.len() >= 2 ==> t[1] == root[1]);
    assert(leading_part(t) == leading_part(root));
    lemma_split_slash_concat(root, empty);
    assert(t + empty =~= t);
    assert(split_slash(empty) == seq![empty]);
    assert(piece_parts(seq![empty]) =~= seq![]) by {
        assert(seq![empty].drop_last() =~= Seq::<Seq<char>>::empty());
        assert(piece_parts(Seq::<Seq<char>>::empty()) == Seq::<PathPart>::empty());
    }
    lemma_piece_parts_concat(split_slash(root), seq![empty]);
    assert(piece_parts(split_slash(root)) + seq![] =~= piece_parts(split_slash(root)));
}

/// The components of a relative path joined onto a non-empty root are those of
/// the root followed by those of the relative path's pieces.
pub proof fn lemma_components_joined(root: Seq<char>, rel: Seq<char>)
    requires
        root.len() > 0,
        !is_absolute(rel),
    ensures
        components(joined(root, rel)) == components(root) + piece_parts(split_slash(rel)),
{
    if root.last() == '/' {
        let a = root.drop_last();
        assert(a + seq!['/'] =~= root);
        assert(joined(root, rel) =~= a + seq!['/'] + rel);
        lemma_components_under(a, rel);
    } else {
        lemma_components_under(root, rel);
        lemma_components_trailing_slash(root);
    }
}

proof fn lemma_components_nonempty(s: Seq<char>)
    requires
        s.len() > 0,
    ensures
        components(s).len() > 0,
{
    if !is_absolute(s) && leading_part(s).len() == 0 {
        lemma_find_char(s, '/');
        let sp = split_slash(s);
        let p = sp[0];
        match find_char(s, '/') {
            Some(i) => {
                assert(sp == seq![s.take(i)] + split_slash(s.skip(i + 1)));
                assert(i != 0);
                assert(p =~= s.take(i));
                assert(p.len() == i);
                assert(p != seq!['.']) by {
                    if p == seq!['.'] {
                        assert(s[0] == p[0]);
                        assert(s[1] == '/');
                    }
                }
            },
            None => {
                assert(p == s);
            },
        }
        assert(sp =~= seq![p] + sp.skip(1));
        lemma_piece_parts_concat(seq![p], sp.skip(1));
        assert(seq![p].drop_last() =~= Seq::<Seq<char>>::empty());
        assert(piece_parts(Seq::<Seq<char>>::empty()) == Seq::<PathPart>::empty());
        assert(piece_parts(seq![p]) =~= piece_part(p));
    }
}

proof fn lemma_plain_pieces(pieces: Seq<Seq<char>>)
    requires
        forall|i: int| 0 <= i < pieces.len() ==> (#[trigger] pieces[i]).len() > 0 && pieces[i] != seq!['.'],
    ensures
        piece_parts(pieces) == Seq::new(pieces.len(), |i: int| plain_part(pieces[i])),
    decreases pieces.len(),
{
    if pieces.len() > 0 {
        lemma_plain_pieces(pieces.drop_last());
        assert(piece_part(pieces.last()) =~= seq![plain_part(pieces.last())]);
        assert(piece_parts(pieces) =~= Seq::new(pieces.len(), |i: int| plain_part(pieces[i])));
    } else {
        assert(piece_parts(pieces) =~= Seq::new(pieces.len(), |i: int| plain_part(pieces[i])));
    }
}

proof fn lemma_plain_not_absolute(rel: Seq<char>)
    requires
        is_plain_relative(rel),
    ensures
        !is_absolute(rel),
        rel.len() > 0,
{
    if is_absolute(rel) {
        assert(find_char(rel, '/') == Some(0int));
        assert(split_slash(rel)[0] =~= rel.take(0));
    }
    lemma_find_char(rel, '/');
    assert(split_slash(rel)[0].len() > 0);
    match find_char(rel, '/') {
        Some(i) => {
            assert(split_slash(rel)[0] == rel.take(i));
        },
        None => {
            assert(split_slash(rel)[0] == rel);
        },
    }
}

proof fn lemma_piece_parts_cons(p: Seq<char>, x: Seq<Seq<char>>)
    ensures
        piece_parts(seq![p] + x) == piece_part(p) + piece_parts(x),
{
    lemma_piece_parts_concat(seq![p], x);
    assert(seq![p].drop_last() =~= Seq::<Seq<char>>::empty());
    assert(piece_parts(Seq::<Seq<char>>::empty()) == Seq::<PathPart>::empty());
    assert(piece_parts(seq![p]) =~= piece_part(p));
}

/// In `a/b` with `b` plain, the pieces of `b` start right after `a` and the first
/// of them stands for a component.
proof fn lemma_plain_start(a: Seq<char>, b: Seq<char>)
    requires
        is_plain_relative(b),
    ensures
        a.len() + 1 < (a + seq!['/'] + b).len(),
        skip_unnamed(a + seq!['/'] + b, a.len() + 1int) == a.len() + 1,
{
    let t = a + seq!['/'] + b;
    let o: int = a.len() + 1int;
    lemma_plain_not_absolute(b);
    assert(t.skip(o) =~= b);
    lemma_find_char_shift(t, '/', o, 0);
    lemma_find_char(b, '/');
    let first = split_slash(b)[0];
    assert(first.len() > 0 && first != seq!['.']);
    match find_char(b, '/') {
        Some(j) => {
            assert(first == b.take(j));
            assert(t.subrange(o, o + j) =~= b.take(j));
        },
        None => {
            assert(first == b);
            assert(t.subrange(o, t.len() as int) =~= b);
        },
    }
    assert(piece_named(t, o));
}

/// Read from offset `i` of `a` in the text `a/b`, the components left in `a` end
/// where the pieces of the plain `b` begin.
proof fn lemma_pieces_after(a: Seq<char>, b: Seq<char>, i: int, n: nat)
    requires
        0 <= i <= a.len(),
        n == piece_parts(split_slash(a.skip(i))).len(),
        is_plain_relative(b),
    ensures
        skip_unnamed(a + seq!['/'] + b, skip_parts(a + seq!['/'] + b, i, n)) == a.len() + 1,
    decreases a.len() - i,
{
    let t = a + seq!['/'] + b;
    let u = a.skip(i);
    let w = u + seq!['/'] + b;
    assert(t.skip(i) =~= w);
    lemma_find_char_shift(t, '/', i, 0);
    lemma_find_char(u, '/');
    lemma_find_char(w, '/');
    lemma_plain_start(a, b);
    match find_char(u, '/') {
        Some(j) => {
            assert(w[j] == '/');
            assert forall|m: int| 0 <= m < j implies w[m] != '/' by {
                assert(w[m] == u[m]);
            }
            assert(find_char(w, '/') == Some(j));
            assert(find_char_from(t, '/', i) == Some(i + j));
            let piece = u.take(j);
            assert(t.subrange(i, i + j) =~= piece);
            assert(split_slash(u) == seq![piece] + split_slash(u.skip(j + 1)));
            assert(u.skip(j + 1) =~= a.skip(i + j + 1));
            lemma_piece_parts_cons(piece, split_slash(a.skip(i + j + 1)));
            let n2 = piece_parts(split_slash(a.skip(i + j + 1))).len();
            lemma_pieces_after(a, b, i + j + 1, n2);
            assert(next_piece(t, i) == i + j + 1);
            assert(piece_named(t, i) == (piece_part(piece).len() > 0));
            assert(n == piece_part(piece).len() + n2);
            if n == 0 {
                assert(skip_parts(t, i, n) == i);
                assert(skip_parts(t, i + j + 1, n2) == i + j + 1);
                assert(skip_unnamed(t, i) == skip_unnamed(t, i + j + 1));
            } else if piece_named(t, i) {
                assert(skip_parts(t, i, n) == skip_parts(t, i + j + 1, n2));
            } else {
                assert(skip_parts(t, i, n) == skip_parts(t, i + j + 1, n2));
            }
        },
        None => {
            assert(w[u.len() as int] == '/');
            assert forall|m: int| 0 <= m < u.len() implies w[m] != '/' by {
                assert(w[m] == u[m]);
            }
            assert(find_char(w, '/') == Some(u.len() as int));
            assert(find_char_from(t, '/', i) == Some(a.len() as int));
            assert(t.subrange(i, a.len() as int) =~= u);
            assert(split_slash(u) == seq![u]);
            lemma_piece_parts_cons(u, Seq::<Seq<char>>::empty());
            assert(piece_parts(Seq::<Seq<char>>::empty()) == Seq::<PathPart>::empty());
            assert(seq![u] + Seq::<Seq<char>>::empty() =~= seq![u]);
            assert(next_piece(t, i) == a.len() + 1);
            assert(piece_named(t, i) == (piece_part(u).len() > 0));
            assert(n == piece_part(u).len());
            if n == 0 {
                assert(skip_parts(t, i, n) == i);
                assert(skip_unnamed(t, i) == skip_unnamed(t, a.len() + 1int));
            } else {
                assert(skip_parts(t, i, n) == skip_parts(t, a.len() + 1int, 0));
            }
        },
    }
}

/// The pieces of `b` are what lies between its separators, so the last one is
/// what follows its last separator.
proof fn lemma_split_last(b: Seq<char>)
    ensures
        split_slash(b).len() > 0,
        rfind_char_in(b, '/', 0, b.len() as int) matches Some(k) ==> split_slash(b).last()
            == b.skip(k + 1),
        rfind_char_in(b, '/', 0, b.len() as int) is None ==> split_slash(b).last() == b,
    decreases b.len(),
{
    lemma_find_char(b, '/');
    lemma_rfind_char_in(b, '/', 0, b.len() as int);
    match find_char(b, '/') {
        Some(i) => {
            let rest = b.skip(i + 1);
            lemma_split_last(rest);
            lemma_rfind_char_in(rest, '/', 0, rest.len() as int);
            assert(split_slash(b) == seq![b.take(i)] + split_slash(rest));
            assert(split_slash(b).last() == split_slash(rest).last());
            match rfind_char_in(rest, '/', 0, rest.len() as int) {
                Some(k) => {
                    assert(b[k + i + 1] == rest[k]);
                    assert forall|j: int| k + i + 1 < j < b.len() implies b[j] != '/' by {
                        assert(b[j] == rest[j - i - 1]);
                    }
                    let r = rfind_char_in(b, '/', 0, b.len() as int);
                    if let Some(k2) = r {
                        if k2 < k + i + 1 {
                        } else if k2 > k + i + 1 {
                            assert(b[k2] == rest[k2 - i - 1]);
                        }
                    }
                    assert(r == Some(k + i + 1));
                    assert(rest.skip(k + 1) =~= b.skip(k + i + 2));
                },
                None => {
                    assert forall|j: int| i < j < b.len() implies b[j] != '/' by {
                        assert(b[j] == rest[j - i - 1]);
                    }
                    let r = rfind_char_in(b, '/', 0, b.len() as int);
                    if let Some(k2) = r {
                        if k2 < i {
                        }
                    }
                    assert(r == Some(i));
                },
            }
        },
        None => {
            assert(split_slash(b) == seq![b]);
        },
    }
}

/// In `a/b` with `b` plain, the trailing trim from the start of `b` keeps all of `b`.
proof fn lemma_plain_end(a: Seq<char>, b: Seq<char>)
    requires
        is_plain_relative(b),
    ensures
        trim_unnamed_end(a + seq!['/'] + b, a.len() + 1int, (a + seq!['/'] + b).len() as int)
            == (a + seq!['/'] + b).len(),
{
    let t = a + seq!['/'] + b;
    let o: int = a.len() + 1int;
    lemma_plain_not_absolute(b);
    lemma_split_last(b);
    let sp = split_slash(b);
    let last = sp[sp.len() - 1];
    assert(last.len() > 0 && last != seq!['.']);
    lemma_rfind_char_in(b, '/', 0, b.len() as int);
    lemma_rfind_char_in(t, '/', o, t.len() as int);
    let rb = rfind_char_in(b, '/', 0, b.len() as int);
    let rt = rfind_char_in(t, '/', o, t.len() as int);
    match rb {
        Some(k) => {
            assert(t[o + k] == b[k]);
            if let Some(k2) = rt {
                assert(t[k2] == b[k2 - o]);
            }
            assert(rt == Some(o + k));
            assert(t.subrange(o + k + 1, t.len() as int) =~= b.skip(k + 1));
        },
        None => {
            if let Some(k2) = rt {
                assert(t[k2] == b[k2 - o]);
            }
            assert(rt is None);
            assert(t.subrange(o, t.len() as int) =~= b);
        },
    }
}

/// The components of `a/` are the leading root or `.` and those of `a`'s pieces.
proof fn lemma_components_slash_end(a: Seq<char>)
    ensures
        components(a + seq!['/']) == leading_part(a + seq!['/']) + piece_parts(split_slash(a)),
{
    let empty: Seq<char> = seq![];
    lemma_split_slash_concat(a, empty);
    assert(a + seq!['/'] + empty =~= a + seq!['/']);
    assert(split_slash(empty) == seq![empty]);
    lemma_piece_parts_concat(split_slash(a), seq![empty]);
    lemma_piece_parts_cons(empty, Seq::<Seq<char>>::empty());
    assert(seq![empty] + Seq::<Seq<char>>::empty() =~= seq![empty]);
    assert(piece_parts(Seq::<Seq<char>>::empty()) == Seq::<PathPart>::empty());
    assert(piece_parts(split_slash(a)) + Seq::<PathPart>::empty() =~= piece_parts(split_slash(a)));
}

/// When `a/` starts with a root or `.` of `a`'s own, the pieces after `a`'s first
/// character stand for the same number of components as all of `a`'s pieces.
proof fn lemma_lead_skip(a: Seq<char>)
    requires
        a.len() > 0,
        leading_part(a + seq!['/']).len() > 0,
    ensures
        piece_parts(split_slash(a.skip(1))).len() == piece_parts(split_slash(a)).len(),
{
    let t = a + seq!['/'];
    assert(t[0] == a[0]);
    assert(a.len() >= 2 ==> t[1] == a[1]);
    assert(a.len() == 1 ==> t[1] == '/');
    let empty: Seq<char> = seq![];
    if a[0] == '/' {
        assert(find_char(a, '/') == Some(0int));
        assert(a.take(0) =~= empty);
        assert(split_slash(a) == seq![empty] + split_slash(a.skip(1)));
        lemma_piece_parts_cons(empty, split_slash(a.skip(1)));
    } else if a.len() == 1 {
        assert(a[0] == '.');
        assert(find_char_from(a, '/', 1) is None);
        assert(find_char(a, '/') is None);
        assert(split_slash(a) == seq![a]);
        assert(a =~= seq!['.']);
        lemma_piece_parts_cons(a, Seq::<Seq<char>>::empty());
        assert(a.skip(1) =~= empty);
        assert(split_slash(empty) == seq![empty]);
        lemma_piece_parts_cons(empty, Seq::<Seq<char>>::empty());
        assert(seq![a] + Seq::<Seq<char>>::empty() =~= seq![a]);
        assert(seq![empty] + Seq::<Seq<char>>::empty() =~= seq![empty]);
        assert(piece_parts(Seq::<Seq<char>>::empty()) == Seq::<PathPart>::empty());
    } else {
        assert(a[0] == '.' && a[1] == '/');
        assert(find_char_from(a, '/', 1) == Some(1int));
        assert(find_char(a, '/') == Some(1int));
        assert(a.take(1) =~= seq!['.']);
        assert(split_slash(a) == seq![a.take(1)] + split_slash(a.skip(2)));
        lemma_piece_parts_cons(a.take(1), split_slash(a.skip(2)));
        let u = a.skip(1);
        assert(u[0] == '/');
        assert(find_char(u, '/') == Some(0int));
        assert(u.take(0) =~= empty);
        assert(u.skip(1) =~= a.skip(2));
        assert(split_slash(u) == seq![empty] + split_slash(a.skip(2)));
        lemma_piece_parts_cons(empty, split_slash(a.skip(2)));
    }
}

/// A plain relative path written under a non-empty root lies under that root, and
/// seen from the root it is the relative path again, character for character.
pub proof fn lemma_relative_of_joined(root: Seq<char>, rel: Seq<char>)
    requires
        root.len() > 0,
        is_plain_relative(rel),
    ensures
        path_starts_with(joined(root, rel), root),
        relative_text(joined(root, rel), root) == rel,
{
    lemma_plain_not_absolute(rel);
    lemma_components_joined(root, rel);
    lemma_components_nonempty(root);
    let t = joined(root, rel);
    let cr = components(root);
    let cj = components(t);
    assert(cj.take(cr.len() as int) =~= cr);
    let a = if root.last() == '/' {
        root.drop_last()
    } else {
        root
    };
    assert(t =~= a + seq!['/'] + rel);
    if root.last() == '/' {
        assert(a + seq!['/'] =~= root);
    } else {
        lemma_components_trailing_slash(root);
    }
    lemma_components_slash_end(a);
    let s = a + seq!['/'];
    assert(t[0] == s[0]);
    assert(s.len() >= 2 ==> t[1] == s[1]);
    assert(leading_part(t) == leading_part(s));
    let n = cr.len();
    assert(n == leading_part(s).len() + piece_parts(split_slash(a)).len());
    if leading_part(s).len() > 0 {
        if a.len() == 0 {
            let empty: Seq<char> = seq![];
            assert(a =~= empty);
            assert(split_slash(empty) == seq![empty]);
            lemma_piece_parts_cons(empty, Seq::<Seq<char>>::empty());
            assert(seq![empty] + Seq::<Seq<char>>::empty() =~= seq![empty]);
            assert(piece_parts(Seq::<Seq<char>>::empty()) == Seq::<PathPart>::empty());
            assert(after_parts(t, n) == 1);
            lemma_plain_start(a, rel);
        } else {
            lemma_lead_skip(a);
            lemma_pieces_after(a, rel, 1, (n - 1) as nat);
        }
    } else {
        assert(a.skip(0) =~= a);
        lemma_pieces_after(a, rel, 0, n);
    }
    assert(skip_unnamed(t, after_parts(t, n)) == a.len() + 1);
    lemma_plain_end(a, rel);
    assert(t.subrange(a.len() + 1int, t.len() as int) =~= rel);
}

/// Seen from a non-empty root, a plain relative path written under it is test code
/// exactly when one of its pieces is `tests` or its last piece ends in `_test.rs`.
pub proof fn lemma_test_path_of_joined(root: Seq<char>, rel: Seq<char>)
    requires
        root.len() > 0,
        is_plain_relative(rel),
    ensures
        is_test_path_spec(joined(root, rel), root) == (split_slash(rel).contains("tests"@)
            || crate::text::is_suffix_of("_test.rs"@, split_slash(rel).last())),
{
    lemma_plain_not_absolute(rel);
    lemma_components_joined(root, rel);
    lemma_components_nonempty(root);
    let sp = split_slash(rel);
    let cr = components(root);
    let cj = components(joined(root, rel));
    let rest = piece_parts(sp);
    assert(cj.take(cr.len() as int) =~= cr);
    assert(cj.skip(cr.len() as int) =~= rest);
    lemma_plain_pieces(sp);
    assert(sp.len() > 0);
    let tests: Seq<char> = "tests"@;
    assert(tests.len() == 5 && tests != seq!['.', '.']) by {
        reveal_strlit("tests");
    }
    if sp.contains(tests) {
        let j = choose|j: int| 0 <= j < sp.len() && sp[j] == tests;
        assert(rest[j] == PathPart::Normal(tests));
    }
    if rest.contains(PathPart::Normal(tests)) {
        let j = choose|j: int| 0 <= j < rest.len() && rest[j] == PathPart::Normal(tests);
        assert(plain_part(sp[j]) == PathPart::Normal(tests));
        assert(sp[j] == tests);
    }
    assert(rest.last() == plain_part(sp.last()));
    assert("_test.rs"@.len() == 8) by {
        reveal_strlit("_test.rs");
    }
}

// ----------------------------------------------------------------------
// Generated directories
// ----------------------------------------------------------------------

/// The directories under `root` that hold generated files.
pub fn generated_roots(root: &str) -> (out: Vec<String>)
    ensures
        out@.len() == 3,
        out@[0]@ == joined(root@, "target"@),
        out@[1]@ == joined(root@, "coverage"@),
        out@[2]@ == joined(root@, ".coverage"@),
{
    let mut out: Vec<String> = Vec::new();
    out.push(join_path(root, "target"));
    out.push(join_path(root, "coverage"));
    out.push(join_path(root, ".coverage"));
    out
}

/// Whether a coverage file may be removed before a run: its resolved path is
/// known and lies under one of the resolved generated directories. `None`
/// stands for a path that could not be resolved.
pub fn is_safe_generated(candidate: &Option<String>, generated: &Vec<Option<String>>) -> (b: bool)
    ensures
        b == (*candidate matches Some(c) && exists|i: int|
            #![trigger generated@[i]]
            0 <= i < generated@.len() && (generated@[i] matches Some(g) && path_starts_with(
                c@,
                g@,
            ))),
{
    match candidate.as_ref() {
        None => false,
        Some(c) => {
            let mut i: usize = 0;
            while i < generated.len()
                invariant
                    i <= generated.len(),
                    *candidate == Some(*c),
                    forall|j: int|
                        #![trigger generated@[j]]
                        0 <= j < i ==> !(generated@[j] matches Some(g) && path_starts_with(
                            c@,
                            g@,
                        )),
                decreases generated.len() - i,
            {
                match &generated[i] {
                    Some(g) => {
                        if starts_with_path(c.as_str(), g.as_str()) {
                            assert(generated@[i as int] == Some(*g));
                            return true;
                        }
                    },
                    None => {},
                }
                i = i + 1;
            }
            false
        },
    }
}

} // verus!
