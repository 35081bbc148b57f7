//! LCOV coverage reports: reading the per-line execution counts of each file.
use vstd::prelude::*;
use std::collections::HashMap;
use crate::error::Error;
use crate::path::{join_path, joined, normalize_path, normalized, normalize_range};
use crate::text::{
    chars_of, ends_with_text, find_char, find_char_from, is_prefix_of, is_suffix_of, trim, trim_range,
};

verus! {

broadcast use vstd::std_specs::hash::group_hash_axioms;

// ----------------------------------------------------------------------
// The report format
// ----------------------------------------------------------------------

/// `l` without one trailing carriage return.
pub open spec fn strip_cr(l: Seq<char>) -> Seq<char> {
    if l.len() > 0 && l.last() == '\r' {
        l.drop_last()
    } else {
        l
    }
}

/// The lines of a text (`str::lines`): split at `\n`, a `\r` before the `\n`
/// dropped, no empty line after a final `\n`.
pub open spec fn lines_of(s: Seq<char>) -> Seq<Seq<char>>
    decreases s.len(),
{
    if s.len() == 0 {
        seq![]
    } else {
        match find_char(s, '\n') {
            Some(i) => if 0 <= i < s.len() {
                seq![strip_cr(s.take(i))] + lines_of(s.skip(i + 1))
            } else {
                seq![s]
            },
            None => seq![s],
        }
    }
}

/// Every character is a decimal digit.
pub open spec fn all_digits(d: Seq<char>) -> bool {
    forall|i: int| 0 <= i < d.len() ==> '0' <= #[trigger] d[i] <= '9'
}

/// The number that decimal digits write.
pub open spec fn digits_value(d: Seq<char>) -> nat
    decreases d.len(),
{
    if d.len() == 0 {
        0
    } else {
        digits_value(d.drop_last()) * 10 + ((d.last() as u32) - ('0' as u32)) as nat
    }
}

/// What `str::parse` gives for an unsigned integer type whose largest value is
/// `max`: an optional `+`, then at least one decimal digit, and no overflow.
pub open spec fn parse_unsigned(s: Seq<char>, max: nat) -> Option<nat> {
    let d = if s.len() > 0 && s[0] == '+' {
        s.skip(1)
    } else {
        s
    };
    if d.len() > 0 && all_digits(d) && digits_value(d) <= max {
        Some(digits_value(d))
    } else {
        None
    }
}

/// `s` up to its first comma.
pub open spec fn up_to_comma(s: Seq<char>) -> Seq<char> {
    match find_char(s, ',') {
        Some(i) => s.take(i),
        None => s,
    }
}

/// The first two comma-separated fields of `s` (`s.split(',')`, taken twice).
pub open spec fn first_fields(s: Seq<char>) -> (Seq<char>, Option<Seq<char>>) {
    match find_char(s, ',') {
        Some(i) => (s.take(i), Some(up_to_comma(s.skip(i + 1)))),
        None => (s, None),
    }
}

/// The text `SF:`, which opens the records of a source file.
pub open spec fn sf_tag() -> Seq<char> {
    seq!['S', 'F', ':']
}

/// The text `DA:`, which opens a line record: `DA:<line>,<count>`.
pub open spec fn da_tag() -> Seq<char> {
    seq!['D', 'A', ':']
}

/// Per-file line counts, by normalised file name.
pub type FileCounts = Map<Seq<char>, Map<usize, u64>>;

/// The line and the count of a line record, when both parse.
pub open spec fn line_record(line: Seq<char>) -> Option<(usize, u64)> {
    let fields = first_fields(line.skip(3));
    match (parse_unsigned(fields.0, usize::MAX as nat), fields.1) {
        (Some(l), Some(c)) => match parse_unsigned(c, u64::MAX as nat) {
            Some(n) => Some((l as usize, n as u64)),
            None => None,
        },
        _ => None,
    }
}

/// One line of a report applied to the counts read so far and the current file.
pub open spec fn lcov_step(st: (FileCounts, Option<Seq<char>>), line: Seq<char>) -> (
    FileCounts,
    Option<Seq<char>>,
) {
    let (files, current) = st;
    if is_prefix_of(sf_tag(), line) {
        let name = normalized(trim(line.skip(3)));
        (
            if files.contains_key(name) {
                files
            } else {
                files.insert(name, Map::empty())
            },
            Some(name),
        )
    } else if current is Some && is_prefix_of(da_tag(), line) {
        let name = current->0;
        match line_record(line) {
            Some((l, n)) => {
                let old = if files.contains_key(name) {
                    files[name]
                } else {
                    Map::empty()
                };
                (files.insert(name, old.insert(l, n)), current)
            },
            None => st,
        }
    } else {
        st
    }
}

/// The state after reading `lines` in order.
pub open spec fn lcov_fold(lines: Seq<Seq<char>>) -> (FileCounts, Option<Seq<char>>)
    decreases lines.len(),
{
    if lines.len() == 0 {
        (Map::empty(), None)
    } else {
        lcov_step(lcov_fold(lines.drop_last()), lines.last())
    }
}

/// The line counts that a report gives for each file.
pub open spec fn lcov_counts(text: Seq<char>) -> FileCounts {
    lcov_fold(lines_of(text)).0
}

/// Some file has a count for some line.
pub open spec fn has_line_data(files: FileCounts) -> bool {
    exists|k: Seq<char>| files.contains_key(k) && !(#[trigger] files[k]).is_empty()
}

// ----------------------------------------------------------------------
// The coverage of a run
// ----------------------------------------------------------------------

/// The execution counts of the lines of one file.
#[derive(Debug)]
pub struct FileLines {
    name: String,
    lines: HashMap<usize, u64>,
}

/// The files of a report are named once each.
pub closed spec fn distinct_names(v: Seq<FileLines>) -> bool {
    forall|i: int, j: int|
        0 <= i < v.len() && 0 <= j < v.len() && i != j ==> (#[trigger] v[i]).name@ != (
        #[trigger] v[j]).name@
}

/// The per-file line counts held by a run of files.
pub closed spec fn files_view(v: Seq<FileLines>) -> FileCounts {
    Map::new(
        |k: Seq<char>| exists|i: int| 0 <= i < v.len() && (#[trigger] v[i]).name@ == k,
        |k: Seq<char>| v[choose|i: int| 0 <= i < v.len() && (#[trigger] v[i]).name@ == k].lines@,
    )
}

proof fn lemma_files_view_at(v: Seq<FileLines>, j: int)
    requires
        distinct_names(v),
        0 <= j < v.len(),
    ensures
        files_view(v).contains_key(v[j].name@),
        files_view(v)[v[j].name@] == v[j].lines@,
{
    let k = v[j].name@;
    assert(exists|i: int| 0 <= i < v.len() && (#[trigger] v[i]).name@ == k);
    let c = choose|i: int| 0 <= i < v.len() && (#[trigger] v[i]).name@ == k;
    assert(c == j);
}

proof fn lemma_files_view_update(v: Seq<FileLines>, w: Seq<FileLines>, j: int)
    requires
        distinct_names(v),
        0 <= j < v.len(),
        w.len() == v.len(),
        w[j].name@ == v[j].name@,
        forall|i: int| 0 <= i < v.len() && i != j ==> w[i] == v[i],
    ensures
        distinct_names(w),
        files_view(w) == files_view(v).insert(v[j].name@, w[j].lines@),
{
    assert forall|a: int, b: int|
        0 <= a < w.len() && 0 <= b < w.len() && a != b implies (#[trigger] w[a]).name@ != (
        #[trigger] w[b]).name@ by {
        assert(v[a].name@ != v[b].name@);
    }
    let m = files_view(v).insert(v[j].name@, w[j].lines@);
    assert forall|k: Seq<char>| files_view(w).contains_key(k) <==> m.contains_key(k) by {
        if files_view(w).contains_key(k) {
            let i = choose|i: int| 0 <= i < w.len() && (#[trigger] w[i]).name@ == k;
            if i != j {
                assert(v[i].name@ == k);
            }
        }
        if m.contains_key(k) && k != v[j].name@ {
            let i = choose|i: int| 0 <= i < v.len() && (#[trigger] v[i]).name@ == k;
            assert(w[i].name@ == k);
        }
    }
    assert forall|k: Seq<char>| files_view(w).contains_key(k) implies files_view(w)[k] == m[k] by {
        let i = choose|i: int| 0 <= i < w.len() && (#[trigger] w[i]).name@ == k;
        lemma_files_view_at(w, i);
        if i != j {
            lemma_files_view_at(v, i);
        }
    }
    assert(files_view(w) =~= m);
}

proof fn lemma_files_view_push(v: Seq<FileLines>, f: FileLines)
    requires
        distinct_names(v),
        !files_view(v).contains_key(f.name@),
    ensures
        distinct_names(v.push(f)),
        files_view(v.push(f)) == files_view(v).insert(f.name@, f.lines@),
{
    let w = v.push(f);
    assert forall|a: int, b: int|
        0 <= a < w.len() && 0 <= b < w.len() && a != b implies (#[trigger] w[a]).name@ != (
        #[trigger] w[b]).name@ by {
        if a == v.len() {
            assert(w[b] == v[b]);
        } else if b == v.len() {
            assert(w[a] == v[a]);
        } else {
            assert(w[a] == v[a] && w[b] == v[b]);
        }
    }
    let m = files_view(v).insert(f.name@, f.lines@);
    assert forall|k: Seq<char>| files_view(w).contains_key(k) <==> m.contains_key(k) by {
        if files_view(w).contains_key(k) {
            let i = choose|i: int| 0 <= i < w.len() && (#[trigger] w[i]).name@ == k;
            if i < v.len() {
                assert(v[i] == w[i]);
            }
        }
        if m.contains_key(k) && k != f.name@ {
            let i = choose|i: int| 0 <= i < v.len() && (#[trigger] v[i]).name@ == k;
            assert(w[i] == v[i]);
        }
        if k == f.name@ {
            assert(w[v.len() as int] == f);
        }
    }
    assert forall|k: Seq<char>| files_view(w).contains_key(k) implies files_view(w)[k] == m[k] by {
        let i = choose|i: int| 0 <= i < w.len() && (#[trigger] w[i]).name@ == k;
        lemma_files_view_at(w, i);
        if i < v.len() {
            assert(w[i] == v[i]);
            lemma_files_view_at(v, i);
        }
    }
    assert(files_view(w) =~= m);
}

/// The line counts of a coverage report, by normalised file name.
#[derive(Debug)]
pub struct Coverage {
    files: Vec<FileLines>,
}

impl Coverage {
    /// Each file is named once.
    #[verifier::type_invariant]
    spec fn names_are_distinct(self) -> bool {
        distinct_names(self.files@)
    }

    /// The line counts of each file.
    pub closed spec fn counts(self) -> FileCounts {
        files_view(self.files@)
    }
}

impl View for Coverage {
    type V = FileCounts;

    open spec fn view(&self) -> FileCounts {
        self.counts()
    }
}

impl Default for Coverage {
    fn default() -> (c: Coverage)
        ensures
            c@ == Map::<Seq<char>, Map<usize, u64>>::empty(),
    {
        let c = Coverage { files: Vec::new() };
        assert(c@ =~= Map::<Seq<char>, Map<usize, u64>>::empty());
        c
    }
}

// ----------------------------------------------------------------------
// Parsing
// ----------------------------------------------------------------------

/// The first index in `s[lo..hi]` that holds `c`, counted from `lo`.
fn find_char_in(s: &Vec<char>, c: char, lo: usize, hi: usize) -> (r: Option<usize>)
    requires
        lo <= hi <= s.len(),
    ensures
        r matches Some(k) ==> lo <= k < hi && find_char(s@.subrange(lo as int, hi as int), c)
            == Some(k - lo) && s@[k as int] == c,
        r is None ==> find_char(s@.subrange(lo as int, hi as int), c) is None,
{
    let ghost sub = s@.subrange(lo as int, hi as int);
    let mut i = lo;
    while i < hi
        invariant
            lo <= i <= hi <= s.len(),
            sub == s@.subrange(lo as int, hi as int),
            find_char(sub, c) == find_char_from(sub, c, i - lo),
        decreases hi - i,
    {
        assert(sub[i - lo] == s@[i as int]);
        if s[i] == c {
            return Some(i);
        }
        i = i + 1;
    }
    None
}

/// Whether `s[lo..hi]` starts with the three characters `a`, `b`, `c`.
fn starts_with3(s: &Vec<char>, lo: usize, hi: usize, a: char, b: char, c: char) -> (r: bool)
    requires
        lo <= hi <= s.len(),
    ensures
        r == is_prefix_of(seq![a, b, c], s@.subrange(lo as int, hi as int)),
{
    let ghost sub = s@.subrange(lo as int, hi as int);
    if hi - lo >= 3 && s[lo] == a && s[lo + 1] == b && s[lo + 2] == c {
        assert(sub.take(3) =~= seq![a, b, c]);
        true
    } else {
        if hi - lo >= 3 {
            assert(sub.take(3)[0] == s@[lo as int]);
            assert(sub.take(3)[1] == s@[lo + 1]);
            assert(sub.take(3)[2] == s@[lo + 2]);
        }
        false
    }
}

proof fn lemma_digits_value_bound(d: Seq<char>)
    requires
        all_digits(d),
    ensures
        digits_value(d) < pow10(d.len()),
    decreases d.len(),
{
    if d.len() > 0 {
        lemma_digits_value_bound(d.drop_last());
        assert('0' <= d[d.len() - 1] <= '9');
    }
}

spec fn pow10(n: nat) -> nat
    decreases n,
{
    if n == 0 {
        1
    } else {
        10 * pow10((n - 1) as nat)
    }
}

/// Whether `s[lo..hi]` is all decimal digits, and the number it writes when that
/// number is at most `max`.
fn parse_digits(s: &Vec<char>, lo: usize, hi: usize, max: u64) -> (r: Option<u64>)
    requires
        lo <= hi <= s.len(),
    ensures
        r matches Some(v) ==> all_digits(s@.subrange(lo as int, hi as int)) && digits_value(
            s@.subrange(lo as int, hi as int),
        ) == v && v <= max,
        r is None ==> !all_digits(s@.subrange(lo as int, hi as int)) || digits_value(
            s@.subrange(lo as int, hi as int),
        ) > max,
{
    let ghost d = s@.subrange(lo as int, hi as int);
    // The value read so far, capped at `max + 1`.
    let cap: u128 = max as u128 + 1;
    let mut acc: u128 = 0;
    let mut i = lo;
    assert(d.take(0) =~= seq![]);
    while i < hi
        invariant
            lo <= i <= hi <= s.len(),
            d == s@.subrange(lo as int, hi as int),
            cap == max + 1,
            all_digits(d.take(i - lo)),
            acc == if digits_value(d.take(i - lo)) < cap {
                digits_value(d.take(i - lo))
            } else {
                cap as nat
            },
        decreases hi - i,
    {
        let c = s[i];
        if c < '0' || c > '9' {
            assert(d[i - lo] == c);
            return None;
        }
        let digit = (c as u32 - '0' as u32) as u128;
        let ghost prev = d.take(i - lo);
        assert(d.take(i + 1 - lo).drop_last() =~= prev);
        assert(d.take(i + 1 - lo).last() == c);
        assert(digits_value(d.take(i + 1 - lo)) == digits_value(prev) * 10 + digit);
        if acc >= cap {
            assert(digits_value(prev) * 10 + digit >= cap) by (nonlinear_arith)
                requires
                    digits_value(prev) >= cap,
                    digit >= 0,
            ;
            acc = cap;
        } else {
            let next = acc * 10 + digit;
            if next >= cap {
                acc = cap;
            } else {
                acc = next;
            }
        }
        i = i + 1;
        assert(all_digits(d.take(i - lo))) by {
            assert forall|k: int| 0 <= k < d.take(i - lo).len() implies '0' <= #[trigger] d.take(
                i - lo,
            )[k] <= '9' by {
                if k < prev.len() {
                    assert(d.take(i - lo)[k] == prev[k]);
                }
            }
        }
    }
    assert(d.take(hi - lo) =~= d);
    if acc >= cap {
        None
    } else {
        Some(acc as u64)
    }
}

/// The number written by `s[lo..hi]` as `str::parse` reads an unsigned integer
/// whose largest value is `max`, or `None`.
fn parse_unsigned_range(s: &Vec<char>, lo: usize, hi: usize, max: u64) -> (r: Option<u64>)
    requires
        lo <= hi <= s.len(),
    ensures
        r matches Some(v) ==> parse_unsigned(s@.subrange(lo as int, hi as int), max as nat)
            == Some(v as nat),
        r is None ==> parse_unsigned(s@.subrange(lo as int, hi as int), max as nat) is None,
{
    let ghost sub = s@.subrange(lo as int, hi as int);
    let mut start = lo;
    if hi > lo && s[lo] == '+' {
        start = lo + 1;
        assert(sub.skip(1) =~= s@.subrange(start as int, hi as int));
    } else {
        assert(sub =~= s@.subrange(start as int, hi as int));
    }
    if start == hi {
        return None;
    }
    parse_digits(s, start, hi, max)
}

/// The read state: the counts per file and the file that line records go to.
spec fn state_of(files: Seq<FileLines>, current: Option<usize>) -> (
    FileCounts,
    Option<Seq<char>>,
) {
    (
        files_view(files),
        match current {
            Some(j) => Some(files[j as int].name@),
            None => None,
        },
    )
}

spec fn state_ok(files: Seq<FileLines>, current: Option<usize>) -> bool {
    distinct_names(files) && (current matches Some(j) ==> j < files.len())
}

/// The bounds of the line that starts at `pos`, and where the next one starts.
fn next_line(t: &Vec<char>, pos: usize) -> (r: (usize, usize))
    requires
        pos < t.len(),
    ensures
        pos <= r.0 <= r.1 <= t.len(),
        pos < r.1,
        lines_of(t@.skip(pos as int)) == seq![t@.subrange(pos as int, r.0 as int)] + lines_of(
            t@.skip(r.1 as int),
        ),
{
    let nl = find_char_in(t, '\n', pos, t.len());
    let ghost u = t@.skip(pos as int);
    assert(t@.subrange(pos as int, t.len() as int) =~= u);
    match nl {
        Some(i) => {
            let ghost raw = t@.subrange(pos as int, i as int);
            assert(u.take(i - pos) =~= raw);
            assert(u.skip(i - pos + 1) =~= t@.skip(i + 1));
            if i > pos && t[i - 1] == '\r' {
                assert(raw.drop_last() =~= t@.subrange(pos as int, i - 1));
                (i - 1, i + 1)
            } else {
                (i, i + 1)
            }
        },
        None => {
            assert(t@.subrange(pos as int, t.len() as int) =~= u);
            assert(t@.skip(t.len() as int) =~= seq![]);
            (t.len(), t.len())
        },
    }
}

/// The index of the file called `name`, added with no counts if it is new.
fn open_file(files: &mut Vec<FileLines>, name: String) -> (j: usize)
    requires
        distinct_names(old(files)@),
    ensures
        distinct_names(final(files)@),
        j < final(files)@.len(),
        final(files)@[j as int].name@ == name@,
        files_view(final(files)@) == if files_view(old(files)@).contains_key(name@) {
            files_view(old(files)@)
        } else {
            files_view(old(files)@).insert(name@, Map::empty())
        },
{
    let mut k: usize = 0;
    while k < files.len()
        invariant
            k <= files.len(),
            distinct_names(files@),
            forall|q: int| 0 <= q < k ==> (#[trigger] files@[q]).name@ != name@,
        decreases files.len() - k,
    {
        if files[k].name == name {
            proof {
                lemma_files_view_at(files@, k as int);
            }
            return k;
        }
        k = k + 1;
    }
    assert(!files_view(files@).contains_key(name@));
    let ghost old_files = files@;
    let f = FileLines { name, lines: HashMap::new() };
    proof {
        lemma_files_view_push(old_files, f);
    }
    files.push(f);
    files.len() - 1
}

/// The line and count of the record `t[pos..end]`, which starts with `DA:`.
fn read_record(t: &Vec<char>, pos: usize, end: usize) -> (r: Option<(usize, u64)>)
    requires
        pos + 3 <= end <= t.len(),
    ensures
        r == line_record(t@.subrange(pos as int, end as int)),
{
    let ghost line = t@.subrange(pos as int, end as int);
    let lo = pos + 3;
    let ghost data = t@.subrange(lo as int, end as int);
    assert(line.skip(3) =~= data);
    let c1 = find_char_in(t, ',', lo, end);
    match c1 {
        None => {
            assert(first_fields(data) == (data, None::<Seq<char>>));
            None
        },
        Some(c) => {
            assert(data.take(c - lo) =~= t@.subrange(lo as int, c as int));
            assert(data.skip(c - lo + 1) =~= t@.subrange(c + 1, end as int));
            let c2 = find_char_in(t, ',', c + 1, end);
            let fend = match c2 {
                Some(q) => q,
                None => end,
            };
            match c2 {
                Some(q) => {
                    assert(t@.subrange(c + 1, end as int).take(q - (c + 1)) =~= t@.subrange(
                        c + 1,
                        q as int,
                    ));
                },
                None => {},
            }
            let lv = parse_unsigned_range(t, lo, c, usize::MAX as u64);
            let cv = parse_unsigned_range(t, c + 1, fend, u64::MAX);
            match (lv, cv) {
                (Some(l), Some(n)) => Some((l as usize, n)),
                _ => None,
            }
        },
    }
}

/// Applies the line `t[pos..end]` to the read state.
fn apply_line(
    t: &Vec<char>,
    pos: usize,
    end: usize,
    files: &mut Vec<FileLines>,
    current: &mut Option<usize>,
)
    requires
        pos <= end <= t.len(),
        state_ok(old(files)@, *old(current)),
    ensures
        state_ok(final(files)@, *final(current)),
        state_of(final(files)@, *final(current)) == lcov_step(
            state_of(old(files)@, *old(current)),
            t@.subrange(pos as int, end as int),
        ),
{
    let ghost line = t@.subrange(pos as int, end as int);
    if starts_with3(t, pos, end, 'S', 'F', ':') {
        let (a, b) = trim_range(t, pos + 3, end);
        assert(line.skip(3) =~= t@.subrange(pos + 3, end as int));
        let name = normalize_range(t, a, b);
        let j = open_file(files, name);
        *current = Some(j);
    } else if current.is_some() && starts_with3(t, pos, end, 'D', 'A', ':') {
        let j = current.unwrap();
        match read_record(t, pos, end) {
            Some((l, n)) => {
                proof {
                    lemma_files_view_at(files@, j as int);
                }
                let ghost old_files = files@;
                files[j].lines.insert(l, n);
                proof {
                    lemma_files_view_update(old_files, files@, j as int);
                }
            },
            None => {},
        }
    }
}

/// The coverage that an LCOV report gives, read from the report's text.
/// `report` names the report in the error, which comes when no file has a count
/// for any line.
pub fn parse_lcov(report: &str, text: &str) -> (r: Result<Coverage, Error>)
    ensures
        r matches Ok(c) ==> c@ == lcov_counts(text@) && has_line_data(lcov_counts(text@)),
        r matches Err(e) ==> !has_line_data(lcov_counts(text@)) && e == Error::Coverage(
            e->Coverage_0,
        ) && e->Coverage_0@ == report@ + " contains no executable line data"@,
{
    let t = chars_of(text);
    let mut files: Vec<FileLines> = Vec::new();
    let mut current: Option<usize> = None;
    let ghost mut done: Seq<Seq<char>> = seq![];
    let mut pos: usize = 0;
    assert(t@.skip(0) =~= t@);
    assert(files_view(files@) =~= Map::<Seq<char>, Map<usize, u64>>::empty());
    while pos < t.len()
        invariant
            pos <= t.len(),
            lines_of(t@) == done + lines_of(t@.skip(pos as int)),
            state_ok(files@, current),
            lcov_fold(done) == state_of(files@, current),
        decreases t.len() - pos,
    {
        let (end, next) = next_line(&t, pos);
        let ghost line = t@.subrange(pos as int, end as int);
        apply_line(&t, pos, end, &mut files, &mut current);
        proof {
            assert(done.push(line).drop_last() =~= done);
            assert(done.push(line) + lines_of(t@.skip(next as int)) =~= done + (seq![line]
                + lines_of(t@.skip(next as int))));
            done = done.push(line);
        }
        pos = next;
    }
    assert(t@.skip(pos as int) =~= seq![]);
    assert(done =~= lines_of(t@));
    // Refuse a report without any line data.
    let mut k: usize = 0;
    while k < files.len()
        invariant
            k <= files.len(),
            distinct_names(files@),
            t@ == text@,
            lcov_fold(lines_of(t@)).0 == files_view(files@),
            forall|q: int| 0 <= q < k ==> (#[trigger] files@[q]).lines@.is_empty(),
        decreases files.len() - k,
    {
        if !files[k].lines.is_empty() {
            proof {
                lemma_files_view_at(files@, k as int);
                let key = files@[k as int].name@;
                assert(files_view(files@).contains_key(key) && !files_view(files@)[key].is_empty());
            }
            let c = Coverage { files };
            return Ok(c);
        }
        k = k + 1;
    }
    assert(!has_line_data(files_view(files@))) by {
        if has_line_data(files_view(files@)) {
            let key = choose|key: Seq<char>|
                files_view(files@).contains_key(key) && !(#[trigger] files_view(files@)[key]).is_empty();
            let q = choose|q: int| 0 <= q < files@.len() && (#[trigger] files@[q]).name@ == key;
            lemma_files_view_at(files@, q);
        }
    }
    let mut message = report.to_owned();
    message.append(" contains no executable line data");
    Err(Error::Coverage(message))
}

// ----------------------------------------------------------------------
// Finding the counts of a source file
// ----------------------------------------------------------------------

/// The report's file `k` ends with `/` and then `name`.
pub open spec fn names_suffix(k: Seq<char>, name: Seq<char>) -> bool {
    is_suffix_of(seq!['/'] + name, k)
}

/// The only file of the report whose name ends with `/name`, if exactly one does.
pub open spec fn only_suffix_match(files: FileCounts, name: Seq<char>) -> Option<Seq<char>> {
    if exists|k: Seq<char>|
        files.contains_key(k) && names_suffix(k, name) && forall|k2: Seq<char>|
            files.contains_key(k2) && names_suffix(k2, name) ==> k2 == k {
        Some(
            choose|k: Seq<char>|
                files.contains_key(k) && names_suffix(k, name) && forall|k2: Seq<char>|
                    files.contains_key(k2) && names_suffix(k2, name) ==> k2 == k,
        )
    } else {
        None
    }
}

/// The line counts of the source `filename` (a path relative to `root`, or
/// absolute): the file of that normalised name, else the file named by the
/// normalised path under `root`, else the only file whose name ends with
/// `/` and the normalised name.
pub open spec fn lines_for(files: FileCounts, root: Seq<char>, filename: Seq<char>) -> Option<
    Map<usize, u64>,
> {
    let name = normalized(filename);
    let absolute = normalized(joined(root, filename));
    if files.contains_key(name) {
        Some(files[name])
    } else if files.contains_key(absolute) {
        Some(files[absolute])
    } else {
        match only_suffix_match(files, name) {
            Some(k) => Some(files[k]),
            None => None,
        }
    }
}

/// The index of the file named `name`, if there is one.
fn index_of(files: &Vec<FileLines>, name: &String) -> (r: Option<usize>)
    requires
        distinct_names(files@),
    ensures
        r matches Some(j) ==> j < files@.len() && files@[j as int].name@ == name@
            && files_view(files@).contains_key(name@) && files_view(files@)[name@]
            == files@[j as int].lines@,
        r is None ==> !files_view(files@).contains_key(name@),
{
    let mut k: usize = 0;
    while k < files.len()
        invariant
            k <= files.len(),
            distinct_names(files@),
            forall|q: int| 0 <= q < k ==> (#[trigger] files@[q]).name@ != name@,
        decreases files.len() - k,
    {
        if files[k].name == *name {
            proof {
                lemma_files_view_at(files@, k as int);
            }
            return Some(k);
        }
        k = k + 1;
    }
    None
}

/// The line counts that `coverage` holds for the source `filename`, found as
/// `lines_for` describes.
pub fn coverage_lines<'a>(coverage: &'a Coverage, root: &str, filename: &str) -> (r: Option<
    &'a HashMap<usize, u64>,
>)
    ensures
        r matches Some(m) ==> lines_for(coverage@, root@, filename@) == Some(m@),
        r is None ==> lines_for(coverage@, root@, filename@) is None,
{
    proof {
        use_type_invariant(coverage);
    }
    let files = &coverage.files;
    let name = normalize_path(filename);
    match index_of(files, &name) {
        Some(j) => {
            return Some(&files[j].lines);
        },
        None => {},
    }
    let joined_path = join_path(root, filename);
    let absolute = normalize_path(joined_path.as_str());
    match index_of(files, &absolute) {
        Some(j) => {
            return Some(&files[j].lines);
        },
        None => {},
    }
    // Look for exactly one file whose name ends with "/name".
    let mut suffix: Vec<char> = Vec::new();
    suffix.push('/');
    let nc = chars_of(name.as_str());
    let mut q: usize = 0;
    while q < nc.len()
        invariant
            q <= nc.len(),
            suffix@ == seq!['/'] + nc@.take(q as int),
        decreases nc.len() - q,
    {
        suffix.push(nc[q]);
        q = q + 1;
        assert(suffix@ =~= seq!['/'] + nc@.take(q as int));
    }
    assert(nc@.take(nc@.len() as int) =~= nc@);
    let ghost fv = files_view(files@);
    let mut found: Option<usize> = None;
    let mut many = false;
    let mut k: usize = 0;
    while k < files.len()
        invariant
            k <= files.len(),
            distinct_names(files@),
            fv == files_view(files@),
            suffix@ == seq!['/'] + name@,
            !many ==> (found matches Some(f) ==> f < k && names_suffix(files@[f as int].name@, name@)
                && forall|p: int|
                0 <= p < k && p != f ==> !names_suffix((#[trigger] files@[p]).name@, name@)),
            !many ==> (found is None ==> forall|p: int|
                0 <= p < k ==> !names_suffix((#[trigger] files@[p]).name@, name@)),
            many ==> exists|a: int, b: int|
                0 <= a < b < files@.len() && names_suffix((#[trigger] files@[a]).name@, name@)
                    && names_suffix((#[trigger] files@[b]).name@, name@),
        decreases files.len() - k,
    {
        let kc = chars_of(files[k].name.as_str());
        if ends_with_text(&kc, &suffix) {
            match found {
                Some(f) => {
                    if !many {
                        assert(names_suffix(files@[f as int].name@, name@));
                        assert(names_suffix(files@[k as int].name@, name@));
                    }
                    many = true;
                },
                None => {
                    found = Some(k);
                },
            }
        }
        k = k + 1;
    }
    if many {
        assert(only_suffix_match(fv, name@) is None) by {
            let (a, b) = choose|a: int, b: int|
                0 <= a < b < files@.len() && names_suffix((#[trigger] files@[a]).name@, name@)
                    && names_suffix((#[trigger] files@[b]).name@, name@);
            lemma_files_view_at(files@, a);
            lemma_files_view_at(files@, b);
            assert(files@[a].name@ != files@[b].name@);
        }
        return None;
    }
    match found {
        None => {
            assert(only_suffix_match(fv, name@) is None) by {
                if exists|key: Seq<char>| fv.contains_key(key) && names_suffix(key, name@) {
                    let key = choose|key: Seq<char>| fv.contains_key(key) && names_suffix(key, name@);
                    let p = choose|p: int| 0 <= p < files@.len() && (#[trigger] files@[p]).name@ == key;
                }
            }
            None
        },
        Some(f) => {
            proof {
                lemma_files_view_at(files@, f as int);
                let key = files@[f as int].name@;
                assert forall|k2: Seq<char>|
                    fv.contains_key(k2) && names_suffix(k2, name@) implies k2 == key by {
                    let p = choose|p: int| 0 <= p < files@.len() && (#[trigger] files@[p]).name@ == k2;
                    if p != f {
                        assert(!names_suffix(files@[p].name@, name@));
                    }
                }
                let chosen = choose|k: Seq<char>|
                    fv.contains_key(k) && names_suffix(k, name@) && forall|k2: Seq<char>|
                        fv.contains_key(k2) && names_suffix(k2, name@) ==> k2 == k;
                assert(chosen == key);
            }
            Some(&files[f].lines)
        },
    }
}

// ----------------------------------------------------------------------
// Laws of the report format
// ----------------------------------------------------------------------

/// A line record sets the count of its line in the current file, whatever the
/// report said of that line before: the last record for a line wins.
pub proof fn lemma_record_sets_count(lines: Seq<Seq<char>>, line: Seq<char>)
    requires
        lcov_fold(lines).1 is Some,
        !is_prefix_of(sf_tag(), line),
        is_prefix_of(da_tag(), line),
        line_record(line) is Some,
    ensures
        ({
            let file = lcov_fold(lines).1->0;
            let (l, n) = line_record(line)->0;
            &&& lcov_fold(lines.push(line)).0.contains_key(file)
            &&& lcov_fold(lines.push(line)).0[file].contains_key(l)
            &&& lcov_fold(lines.push(line)).0[file][l] == n
            &&& lcov_fold(lines.push(line)).1 == lcov_fold(lines).1
        }),
{
    assert(lines.push(line).drop_last() =~= lines);
}

/// Opening a file that the report already named keeps all counts read so far,
/// and later line records add to that file.
pub proof fn lemma_reopen_keeps_counts(lines: Seq<Seq<char>>, line: Seq<char>)
    requires
        is_prefix_of(sf_tag(), line),
        lcov_fold(lines).0.contains_key(normalized(trim(line.skip(3)))),
    ensures
        lcov_fold(lines.push(line)).0 == lcov_fold(lines).0,
        lcov_fold(lines.push(line)).1 == Some(normalized(trim(line.skip(3)))),
{
    assert(lines.push(line).drop_last() =~= lines);
}

/// A line that is neither a file record nor a line record changes nothing.
pub proof fn lemma_other_lines_ignored(lines: Seq<Seq<char>>, line: Seq<char>)
    requires
        !is_prefix_of(sf_tag(), line),
        !is_prefix_of(da_tag(), line),
    ensures
        lcov_fold(lines.push(line)) == lcov_fold(lines),
{
    assert(lines.push(line).drop_last() =~= lines);
}

/// A number written in decimal reads back as itself.
pub proof fn lemma_decimal_parses(n: nat, max: nat)
    requires
        n <= max,
    ensures
        parse_unsigned(crate::text::decimal(n), max) == Some(n),
{
    lemma_decimal_digits(n);
}

proof fn lemma_decimal_digits(n: nat)
    ensures
        all_digits(crate::text::decimal(n)),
        digits_value(crate::text::decimal(n)) == n,
        crate::text::decimal(n).len() > 0,
        crate::text::decimal(n)[0] != '+',
    decreases n,
{
    let d = crate::text::decimal(n);
    if n < 10 {
        assert(crate::text::digit_char(n) as u32 == n + ('0' as u32));
        assert(d.drop_last() =~= seq![]);
        assert(digits_value(d.drop_last()) == 0);
        assert(d.last() == crate::text::digit_char(n));
        assert(((d.last() as u32) - ('0' as u32)) as nat == n);
    } else {
        lemma_decimal_digits(n / 10);
        let p = crate::text::decimal(n / 10);
        assert(d.drop_last() =~= p);
        assert(crate::text::digit_char(n % 10) as u32 == n % 10 + ('0' as u32));
        assert(d.last() == crate::text::digit_char(n % 10));
        assert((n / 10) * 10 + n % 10 == n) by (nonlinear_arith);
        assert(((d.last() as u32) - ('0' as u32)) as nat == n % 10);
        assert(digits_value(d) == digits_value(p) * 10 + ((d.last() as u32) - ('0' as u32)) as nat);
        assert(d[0] == p[0]);
        assert forall|i: int| 0 <= i < d.len() implies '0' <= #[trigger] d[i] <= '9' by {
            if i < p.len() {
                assert(d[i] == p[i]);
            }
        }
    }
}

} // verus!
