//! Text edits anchored on known passages, for scripted source maintenance.
use vstd::prelude::*;
use crate::text::{chars_of, find_exec, find_text, lemma_find_text, occurs_at, string_of_range};

verus! {

/// `old` occurs in `text`, and not again after the end of its first occurrence.
pub open spec fn anchored_once(text: Seq<char>, old: Seq<char>) -> bool {
    find_text(text, old) matches Some(i) && find_text(text.skip(i + old.len()), old) is None
}

/// `text` with `text[a..b]` replaced by `mid`.
pub open spec fn spliced(text: Seq<char>, a: int, b: int, mid: Seq<char>) -> Seq<char> {
    text.take(a) + mid + text.skip(b)
}

/// `text` with the first occurrence of `old` replaced by `new`.
pub open spec fn replaced_once(text: Seq<char>, old: Seq<char>, new: Seq<char>) -> Seq<char> {
    let i = find_text(text, old)->0;
    spliced(text, i, i + old.len(), new)
}

/// Both anchors are found: `start`, then `end` at or after it.
pub open spec fn anchored_between(text: Seq<char>, start: Seq<char>, end: Seq<char>) -> bool {
    find_text(text, start) matches Some(from) && find_text(text.skip(from), end) is Some
}

/// `text` with the part from the first `start` up to the next `end` replaced by `new`.
pub open spec fn replaced_between(
    text: Seq<char>,
    start: Seq<char>,
    end: Seq<char>,
    new: Seq<char>,
) -> Seq<char> {
    let from = find_text(text, start)->0;
    let rel = find_text(text.skip(from), end)->0;
    spliced(text, from, from + rel, new)
}

/// `text` with `addition` put before the first occurrence of `marker`.
pub open spec fn inserted_before(text: Seq<char>, marker: Seq<char>, addition: Seq<char>) -> Seq<
    char,
> {
    let at = find_text(text, marker)->0;
    spliced(text, at, at, addition)
}

fn splice(t: &Vec<char>, a: usize, b: usize, mid: &str) -> (out: String)
    requires
        a <= b <= t.len(),
    ensures
        out@ == spliced(t@, a as int, b as int, mid@),
{
    let mut out = string_of_range(t, 0, a);
    out.append(mid);
    let tail = string_of_range(t, b, t.len());
    out.append(tail.as_str());
    assert(t@.subrange(0, a as int) =~= t@.take(a as int));
    assert(t@.subrange(b as int, t.len() as int) =~= t@.skip(b as int));
    out
}

fn skip_chars(t: &Vec<char>, from: usize) -> (out: Vec<char>)
    requires
        from <= t.len(),
    ensures
        out@ == t@.skip(from as int),
{
    let mut out: Vec<char> = Vec::new();
    let mut i = from;
    while i < t.len()
        invariant
            from <= i <= t.len(),
            out@ == t@.subrange(from as int, i as int),
        decreases t.len() - i,
    {
        out.push(t[i]);
        i = i + 1;
        assert(out@ =~= t@.subrange(from as int, i as int));
    }
    assert(out@ =~= t@.skip(from as int));
    out
}

/// Replaces the only occurrence of `anchor` in `text` by `new`. `label` names the
/// edit for whoever checks the anchor beforehand.
pub fn replace_once(text: &mut String, anchor: &str, new: &str, label: &str)
    requires
        anchored_once(old(text)@, anchor@),
    ensures
        final(text)@ == replaced_once(old(text)@, anchor@, new@),
{
    let t = chars_of(text.as_str());
    let o = chars_of(anchor);
    proof {
        lemma_find_text(t@, o@);
    }
    let i = find_exec(&t, &o).unwrap();
    assert(crate::text::occurs_at(t@, o@, i as int));
    let tl = t.len();
    assert(i + o@.len() <= tl);
    let j = i + o.len();
    *text = splice(&t, i, j, new);
}

/// Replaces the text from the first occurrence of `start` up to the next
/// occurrence of `end` (which stays) by `new`.
pub fn replace_between(text: &mut String, start: &str, end: &str, new: &str, label: &str)
    requires
        anchored_between(old(text)@, start@, end@),
    ensures
        final(text)@ == replaced_between(old(text)@, start@, end@, new@),
{
    let t = chars_of(text.as_str());
    let s = chars_of(start);
    let e = chars_of(end);
    proof {
        lemma_find_text(t@, s@);
    }
    let from = find_exec(&t, &s).unwrap();
    let rest = skip_chars(&t, from);
    proof {
        lemma_find_text(rest@, e@);
    }
    let rel = find_exec(&rest, &e).unwrap();
    assert(crate::text::occurs_at(rest@, e@, rel as int));
    *text = splice(&t, from, from + rel, new);
}

/// Puts `addition` before the first occurrence of `marker`.
pub fn insert_before(text: &mut String, marker: &str, addition: &str, label: &str)
    requires
        find_text(old(text)@, marker@) is Some,
    ensures
        final(text)@ == inserted_before(old(text)@, marker@, addition@),
{
    let t = chars_of(text.as_str());
    let m = chars_of(marker);
    proof {
        lemma_find_text(t@, m@);
    }
    let at = find_exec(&t, &m).unwrap();
    *text = splice(&t, at, at, addition);
}

/// After an edit, the new text stands where the replaced text stood, and the
/// text before and after it is what it was.
pub proof fn lemma_replace_once_places_new(text: Seq<char>, anchor: Seq<char>, new: Seq<char>)
    requires
        anchored_once(text, anchor),
    ensures
        ({
            let i = find_text(text, anchor)->0;
            let r = replaced_once(text, anchor, new);
            &&& occurs_at(r, new, i)
            &&& r.take(i) == text.take(i)
            &&& r.skip(i + new.len()) == text.skip(i + anchor.len())
            &&& r.len() == text.len() - anchor.len() + new.len()
        }),
{
    lemma_find_text(text, anchor);
    let i = find_text(text, anchor)->0;
    let r = replaced_once(text, anchor, new);
    assert(r.subrange(i, i + new.len()) =~= new);
    assert(r.take(i) =~= text.take(i));
    assert(r.skip(i + new.len()) =~= text.skip(i + anchor.len()));
}

/// Inserting before a marker keeps the marker, right after the addition.
pub proof fn lemma_insert_before_keeps_marker(text: Seq<char>, marker: Seq<char>, addition: Seq<char>)
    requires
        find_text(text, marker) is Some,
    ensures
        ({
            let at = find_text(text, marker)->0;
            let r = inserted_before(text, marker, addition);
            &&& occurs_at(r, addition, at)
            &&& occurs_at(r, marker, at + addition.len())
        }),
{
    lemma_find_text(text, marker);
    let at = find_text(text, marker)->0;
    let r = inserted_before(text, marker, addition);
    assert(r.subrange(at, at + addition.len()) =~= addition);
    assert(r.subrange(at + addition.len(), at + addition.len() + marker.len()) =~= text.subrange(
        at,
        at + marker.len(),
    ));
}

} // verus!
