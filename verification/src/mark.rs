//! Selection of badness rows for source annotation.
//!
//! Rows above a threshold are grouped by the source file of their
//! representative node and reduced to line numbers; an outside step does
//! the actual writing.

use vstd::prelude::*;

use crate::graph::clone_opt_loc;
use crate::graph::SourceLoc;
use crate::scanner::closure_marker;
use crate::taint::BadnessEntry;

verus! {

/// Options of the source-annotation step.
pub struct MarkOpts {
    /// The text to put above each bad function; nothing is marked without
    /// one.
    pub mark: Option<String>,
    /// Leave closures unmarked.
    pub no_mark_closures: bool,
    /// The least badness that gets a function marked.
    pub threshold: usize,
}

/// The label names a closure: it ends with the closure marker segment.
pub open spec fn spec_ends_with_closure(l: Seq<char>) -> bool {
    l.len() >= 11 && l.subrange(l.len() - 11, l.len() as int) == closure_marker()
}

/// The exec mirror of `spec_ends_with_closure`.
pub fn ends_with_closure(l: &str) -> (r: bool)
    ensures
        r == spec_ends_with_closure(l@),
{
    proof {
        reveal_strlit("{{closure}}");
        assert("{{closure}}"@ =~= closure_marker());
    }
    let n = l.unicode_len();
    if n < 11 {
        return false;
    }
    let tail = l.substring_char(n - 11, n);
    crate::strings::str_eq(tail, "{{closure}}")
}

/// A row is marked when closures are not excluded or it is none, its
/// badness reaches the threshold, and a source location is known.
pub open spec fn spec_marked(opts: MarkOpts, e: BadnessEntry) -> bool {
    &&& !opts.no_mark_closures || !spec_ends_with_closure(e.label@)
    &&& e.badness >= opts.threshold
    &&& e.debugloc is Some
}

/// The lines to mark, one per marked row, in row order.
pub open spec fn spec_mark_lines(entries: Seq<BadnessEntry>, opts: MarkOpts) -> Seq<usize>
    decreases entries.len(),
{
    if entries.len() == 0 {
        Seq::empty()
    } else {
        let rest = spec_mark_lines(entries.drop_last(), opts);
        if spec_marked(opts, entries.last()) {
            rest.push(entries.last().debugloc->Some_0.line as usize)
        } else {
            rest
        }
    }
}

/// The line numbers of all rows to mark, in ascending order.
pub fn extract_line_numbers(opts: &MarkOpts, badness: &Vec<BadnessEntry>) -> (r: Vec<usize>)
    ensures
        r@.to_multiset() == spec_mark_lines(badness@, *opts).to_multiset(),
        forall|p: int, q: int| 0 <= p < q < r.len() ==> #[trigger] r[p] <= #[trigger] r[q],
{
    let mut lines: Vec<usize> = Vec::new();
    let mut i: usize = 0;
    while i < badness.len()
        invariant
            i <= badness.len(),
            lines@ == spec_mark_lines(badness@.take(i as int), *opts),
        decreases badness.len() - i,
    {
        let ghost taken = badness@.take(i as int);
        proof {
            assert(badness@.take(i + 1 as int).drop_last() =~= taken);
            assert(badness@.take(i + 1 as int).last() == badness@[i as int]);
        }
        let e = &badness[i];
        let keep = (!opts.no_mark_closures || !ends_with_closure(e.label.as_str())) && e.badness
            >= opts.threshold;
        if keep {
            match &e.debugloc {
                Some(loc) => {
                    lines.push(loc.line as usize);
                },
                None => {},
            }
        }
        i = i + 1;
    }
    proof {
        assert(badness@.take(badness.len() as int) =~= badness@);
    }
    sort_usizes(lines)
}

/// Sorts line numbers ascending; the result is a permutation of the input.
fn sort_usizes(nums: Vec<usize>) -> (r: Vec<usize>)
    ensures
        r@.to_multiset() == nums@.to_multiset(),
        forall|p: int, q: int| 0 <= p < q < r.len() ==> #[trigger] r[p] <= #[trigger] r[q],
{
    broadcast use vstd::seq_lib::group_to_multiset_ensures;

    let mut rest = nums;
    let mut out: Vec<usize> = Vec::new();
    while rest.len() > 0
        invariant
            out@.to_multiset().add(rest@.to_multiset()) == nums@.to_multiset(),
            forall|p: int, q: int| 0 <= p < q < out.len() ==> #[trigger] out[p] <= #[trigger] out[q],
            forall|p: int, q: int|
                0 <= p < out.len() && 0 <= q < rest.len() ==> #[trigger] out[p]
                    <= #[trigger] rest[q],
        decreases rest.len(),
    {
        let mut m: usize = 0;
        let mut j: usize = 1;
        while j < rest.len()
            invariant
                rest.len() > 0,
                m < j <= rest.len(),
                forall|q: int| 0 <= q < j ==> rest[m as int] <= #[trigger] rest[q],
            decreases rest.len() - j,
        {
            if rest[j] < rest[m] {
                m = j;
            }
            j = j + 1;
        }
        let ghost rest_before = rest@;
        let e = rest.remove(m);
        let ghost out_before = out@;
        out.push(e);
        proof {
            rest_before.to_multiset_ensures();
            out_before.to_multiset_ensures();
            assert(rest@ == rest_before.remove(m as int));
            assert(rest_before.remove(m as int).to_multiset() =~= rest_before.to_multiset().remove(
                rest_before[m as int],
            ));
            assert(rest_before.to_multiset().count(e) > 0) by {
                assert(rest_before.contains(e)) by {
                    assert(rest_before[m as int] == e);
                }
            }
            assert(out@.to_multiset() =~= out_before.to_multiset().insert(e));
            assert(out@.to_multiset().add(rest@.to_multiset()) =~= nums@.to_multiset());
            assert forall|p: int, q: int|
                0 <= p < out.len() && 0 <= q < rest.len() implies #[trigger] out[p]
                <= #[trigger] rest[q] by {
                if p < out.len() - 1 {
                    if q < m {
                        assert(rest[q] == rest_before[q]);
                    } else {
                        assert(rest[q] == rest_before[q + 1]);
                    }
                } else {
                    assert(out[p] == e);
                    if q < m {
                        assert(rest[q] == rest_before[q]);
                    } else {
                        assert(rest[q] == rest_before[q + 1]);
                    }
                }
            }
        }
    }
    out
}

/// A blank character, as found in line indentation.
pub open spec fn spec_is_space(c: char) -> bool {
    c == ' ' || c == '\t' || c == '\n' || c == '\r' || c == '\u{000b}' || c == '\u{000c}'
}

/// How many blank characters the line starts with.
pub open spec fn spec_ws_len(l: Seq<char>) -> nat
    decreases l.len(),
{
    if l.len() == 0 || !spec_is_space(l.first()) {
        0
    } else {
        1 + spec_ws_len(l.skip(1))
    }
}

/// The leading blanks never outrun the line.
pub proof fn lemma_ws_len_le(l: Seq<char>)
    ensures
        spec_ws_len(l) <= l.len(),
    decreases l.len(),
{
    if l.len() > 0 && spec_is_space(l.first()) {
        lemma_ws_len_le(l.skip(1));
    }
}

/// The line's indentation: its leading blank characters.
pub open spec fn spec_ws_prefix(l: Seq<char>) -> Seq<char> {
    l.take(spec_ws_len(l) as int)
}

/// `v` holds the number `x`.
pub open spec fn has_num(nums: Seq<usize>, x: int) -> bool {
    exists|m: int| 0 <= m < nums.len() && #[trigger] nums[m] as int == x
}

/// The lines of a marked file: every line whose one-based number is listed
/// gains a copy of the mark text above it, indented like the line itself.
pub open spec fn spec_marked_lines(
    lines: Seq<Seq<char>>,
    nums: Seq<usize>,
    text: Seq<char>,
) -> Seq<Seq<char>>
    decreases lines.len(),
{
    if lines.len() == 0 {
        Seq::empty()
    } else {
        let rest = spec_marked_lines(lines.drop_last(), nums, text);
        let line = lines.last();
        if has_num(nums, lines.len() as int) {
            rest + seq![spec_ws_prefix(line) + text, line]
        } else {
            rest.push(line)
        }
    }
}

/// Whether the list holds this line number.
fn contains_num(nums: &Vec<usize>, x: usize) -> (r: bool)
    ensures
        r == has_num(nums@, x as int),
{
    let mut m: usize = 0;
    while m < nums.len()
        invariant
            m <= nums.len(),
            forall|m2: int| 0 <= m2 < m ==> #[trigger] nums[m2] != x,
        decreases nums.len() - m,
    {
        if nums[m] == x {
            return true;
        }
        m = m + 1;
    }
    false
}

/// The leading-first-blank characterization: scanning blanks up to the
/// first non-blank finds exactly the prefix length.
proof fn lemma_ws_len_at(l: Seq<char>, j: int)
    requires
        0 <= j <= l.len(),
        forall|k: int| 0 <= k < j ==> spec_is_space(#[trigger] l[k]),
        j == l.len() || !spec_is_space(l[j]),
    ensures
        spec_ws_len(l) == j,
    decreases j,
{
    if j == 0 {
    } else {
        assert(spec_is_space(l.first()));
        assert forall|k: int| 0 <= k < j - 1 implies spec_is_space(#[trigger] l.skip(1)[k]) by {
            assert(l.skip(1)[k] == l[k + 1]);
        }
        if j < l.len() {
            assert(l.skip(1)[j - 1] == l[j]);
        }
        lemma_ws_len_at(l.skip(1), j - 1);
    }
}

/// The line's indentation, as text.
fn leading_ws(l: &str) -> (r: String)
    ensures
        r@ == spec_ws_prefix(l@),
{
    let n = l.unicode_len();
    let mut j: usize = 0;
    while j < n
        invariant
            n == l@.len(),
            j <= n,
            forall|k: int| 0 <= k < j ==> spec_is_space(#[trigger] l@[k]),
        decreases n - j,
    {
        let c = l.get_char(j);
        let is_blank = c == ' ' || c == '\t' || c == '\n' || c == '\r' || c == '\u{000b}' || c
            == '\u{000c}';
        if !is_blank {
            proof {
                lemma_ws_len_at(l@, j as int);
            }
            let cut = l.substring_char(0, j);
            proof {
                assert(l@.subrange(0, j as int) =~= spec_ws_prefix(l@));
            }
            return cut.to_owned();
        }
        j = j + 1;
    }
    proof {
        lemma_ws_len_at(l@, n as int);
        assert(l@.subrange(0, n as int) =~= spec_ws_prefix(l@));
    }
    l.substring_char(0, n).to_owned()
}

/// Splices the mark text into a file's lines: above every line whose
/// one-based number is listed, a copy of the text, indented like the line.
pub fn insert_marks(lines: &Vec<String>, line_numbers: &Vec<usize>, text: &str) -> (r: Vec<
    String,
>)
    ensures
        r.deep_view() == spec_marked_lines(lines.deep_view(), line_numbers@, text@),
{
    let mut out: Vec<String> = Vec::new();
    let mut i: usize = 0;
    while i < lines.len()
        invariant
            i <= lines.len(),
            out.deep_view() == spec_marked_lines(
                lines.deep_view().take(i as int),
                line_numbers@,
                text@,
            ),
        decreases lines.len() - i,
    {
        let ghost taken = lines.deep_view().take(i as int);
        proof {
            assert(lines.deep_view().take(i + 1 as int).drop_last() =~= taken);
            assert(lines.deep_view().take(i + 1 as int).last() == lines.deep_view()[i as int]);
            assert(lines.deep_view().take(i + 1 as int).len() == i + 1);
        }
        let ghost out_before = out.deep_view();
        if contains_num(line_numbers, i + 1) {
            let mut marked = leading_ws(lines[i].as_str());
            marked.append(text);
            out.push(marked);
            out.push(lines[i].clone());
            proof {
                assert(out.deep_view() =~= out_before + seq![
                    spec_ws_prefix(lines.deep_view()[i as int]) + text@,
                    lines.deep_view()[i as int],
                ]);
            }
        } else {
            out.push(lines[i].clone());
            proof {
                assert(out.deep_view() =~= out_before.push(lines.deep_view()[i as int]));
            }
        }
        i = i + 1;
    }
    proof {
        assert(lines.deep_view().take(lines.len() as int) =~= lines.deep_view());
    }
    out
}

/// The file a location points at, as its two path pieces.
pub struct SourceKey {
    /// The directory part, when the debug information recorded one.
    pub directory: Option<String>,
    /// The file name.
    pub filename: String,
}

/// Two locations point at the same file.
pub open spec fn spec_same_file(a: SourceLoc, key: SourceKey) -> bool {
    &&& match (a.directory, key.directory) {
        (Some(d1), Some(d2)) => d1@ == d2@,
        (None, None) => true,
        _ => false,
    }
    &&& a.filename@ == key.filename@
}

/// One group of rows: all the rows whose representative node lives in one
/// source file.
pub struct FileGroup {
    /// The file.
    pub key: SourceKey,
    /// The rows found in it.
    pub entries: Vec<BadnessEntry>,
}

/// Two keys name the same file.
pub open spec fn spec_key_eq(a: SourceKey, b: SourceKey) -> bool {
    &&& match (a.directory, b.directory) {
        (Some(d1), Some(d2)) => d1@ == d2@,
        (None, None) => true,
        _ => false,
    }
    &&& a.filename@ == b.filename@
}

/// Whether two keys name the same file.
fn key_eq(a: &SourceKey, b: &SourceKey) -> (r: bool)
    ensures
        r == spec_key_eq(*a, *b),
{
    let dirs_match = match (&a.directory, &b.directory) {
        (Some(d1), Some(d2)) => crate::strings::str_eq(d1.as_str(), d2.as_str()),
        (None, None) => true,
        _ => false,
    };
    dirs_match && crate::strings::str_eq(a.filename.as_str(), b.filename.as_str())
}

/// A field-for-field copy of a badness row.
fn clone_entry(e: &BadnessEntry) -> (r: BadnessEntry)
    ensures
        r.label@ == e.label@,
        r.badness == e.badness,
        r.debugloc == e.debugloc,
{
    BadnessEntry {
        label: e.label.clone(),
        badness: e.badness,
        debugloc: clone_opt_loc(&e.debugloc),
    }
}

/// Two rows carry the same content.
pub open spec fn spec_entry_eq(a: BadnessEntry, b: BadnessEntry) -> bool {
    a.label@ == b.label@ && a.badness == b.badness && a.debugloc == b.debugloc
}

/// Groups the rows that carry a source location by source file. Every
/// group's rows all point at the group's file, no two groups name the same
/// file, every grouped row is one of the given rows, and every given row
/// with a location lands in the group of its file.
pub fn group_by_path(badness: &Vec<BadnessEntry>) -> (groups: Vec<FileGroup>)
    ensures
        forall|g1: int, g2: int|
            0 <= g1 < g2 < groups.len() ==> !spec_key_eq(
                (#[trigger] groups[g1]).key,
                (#[trigger] groups[g2]).key,
            ),
        forall|g: int, k: int|
            0 <= g < groups.len() && 0 <= k < (#[trigger] groups[g]).entries.len() ==> {
                &&& (#[trigger] groups[g].entries[k]).debugloc is Some
                &&& spec_same_file(groups[g].entries[k].debugloc->Some_0, groups[g].key)
                &&& exists|i: int|
                    0 <= i < badness.len() && spec_entry_eq(
                        #[trigger] badness[i],
                        groups[g].entries[k],
                    )
            },
        forall|i: int|
            0 <= i < badness.len() && (#[trigger] badness[i]).debugloc is Some ==> exists|
                g: int,
                k: int,
            |
                0 <= g < groups.len() && 0 <= k < groups[g].entries.len() && spec_same_file(
                    badness[i].debugloc->Some_0,
                    groups[g].key,
                ) && spec_entry_eq(badness[i], #[trigger] groups[g].entries[k]),
    {
    let mut groups: Vec<FileGroup> = Vec::new();
    let mut i: usize = 0;
    while i < badness.len()
        invariant
            i <= badness.len(),
            forall|g1: int, g2: int|
                0 <= g1 < g2 < groups.len() ==> !spec_key_eq(
                    (#[trigger] groups[g1]).key,
                    (#[trigger] groups[g2]).key,
                ),
            forall|g: int, k: int|
                0 <= g < groups.len() && 0 <= k < (#[trigger] groups[g]).entries.len() ==> {
                    &&& (#[trigger] groups[g].entries[k]).debugloc is Some
                    &&& spec_same_file(groups[g].entries[k].debugloc->Some_0, groups[g].key)
                    &&& exists|i2: int|
                        0 <= i2 < badness.len() && spec_entry_eq(
                            #[trigger] badness[i2],
                            groups[g].entries[k],
                        )
                },
            forall|i2: int|
                0 <= i2 < i && (#[trigger] badness[i2]).debugloc is Some ==> exists|
                    g: int,
                    k: int,
                |
                    0 <= g < groups.len() && 0 <= k < groups[g].entries.len() && spec_same_file(
                        badness[i2].debugloc->Some_0,
                        groups[g].key,
                    ) && spec_entry_eq(badness[i2], #[trigger] groups[g].entries[k]),
        decreases badness.len() - i,
    {
        let has_loc = match &badness[i].debugloc {
            Some(_) => true,
            None => false,
        };
        if has_loc {
            let loc = match &badness[i].debugloc {
                Some(loc) => loc.cloned(),
                None => SourceLoc {
                    directory: None,
                    filename: String::new(),
                    line: 0,
                    col: None,
                },
            };
            let key = SourceKey {
                directory: match &loc.directory {
                    Some(d) => Some(d.clone()),
                    None => None,
                },
                filename: loc.filename.clone(),
            };
            // find the group of this file, if one exists already
            let mut found: Option<usize> = None;
            let mut g: usize = 0;
            while g < groups.len()
                invariant
                    g <= groups.len(),
                    match found {
                        Some(gi) => gi < groups.len() && spec_key_eq(
                            groups[gi as int].key,
                            key,
                        ),
                        None => forall|g2: int|
                            0 <= g2 < g ==> !spec_key_eq((#[trigger] groups[g2]).key, key),
                    },
                decreases groups.len() - g,
            {
                if key_eq(&groups[g].key, &key) {
                    found = Some(g);
                    g = groups.len();
                } else {
                    g = g + 1;
                }
            }
            let ghost groups_before = groups@;
            let e = clone_entry(&badness[i]);
            proof {
                assert(spec_same_file(badness[i as int].debugloc->Some_0, key));
            }
            match found {
                Some(gi) => {
                    let ghost entries_before = groups@[gi as int].entries@;
                    groups[gi].entries.push(e);
                    proof {
                        assert(groups@[gi as int].entries@ =~= entries_before.push(e));
                        assert(groups@[gi as int].key == groups_before[gi as int].key);
                        assert forall|g2: int, k: int|
                            0 <= g2 < groups.len() && 0 <= k
                                < (#[trigger] groups[g2]).entries.len() implies {
                            &&& (#[trigger] groups[g2].entries[k]).debugloc is Some
                            &&& spec_same_file(
                                groups[g2].entries[k].debugloc->Some_0,
                                groups[g2].key,
                            )
                            &&& exists|i2: int|
                                0 <= i2 < badness.len() && spec_entry_eq(
                                    #[trigger] badness[i2],
                                    groups[g2].entries[k],
                                )
                        } by {
                            if g2 == gi && k == groups[g2].entries.len() - 1 {
                                assert(groups[g2].entries[k].debugloc
                                    == badness[i as int].debugloc);
                                assert(spec_entry_eq(badness[i as int], groups[g2].entries[k]));
                            } else {
                                assert(groups_before[g2].entries[k] == groups[g2].entries[k]);
                            }
                        }
                        assert forall|i2: int|
                            0 <= i2 < i + 1 && (#[trigger] badness[i2]).debugloc is Some implies exists|
                            g2: int,
                            k: int,
                        |
                            0 <= g2 < groups.len() && 0 <= k < groups[g2].entries.len()
                                && spec_same_file(
                                badness[i2].debugloc->Some_0,
                                groups[g2].key,
                            ) && spec_entry_eq(badness[i2], #[trigger] groups[g2].entries[k]) by {
                            if i2 == i {
                                let k = groups[gi as int].entries.len() - 1;
                                assert(spec_entry_eq(
                                    badness[i2],
                                    groups[gi as int].entries[k as int],
                                ));
                            } else {
                                let (g2, k) = choose|g2: int, k: int|
                                    0 <= g2 < groups_before.len() && 0 <= k
                                        < groups_before[g2].entries.len() && spec_same_file(
                                        badness[i2].debugloc->Some_0,
                                        groups_before[g2].key,
                                    ) && spec_entry_eq(
                                        badness[i2],
                                        #[trigger] groups_before[g2].entries[k],
                                    );
                                assert(groups[g2].entries[k] == groups_before[g2].entries[k]
                                    || g2 == gi);
                                if g2 == gi {
                                    assert(groups[g2].entries[k] == entries_before[k]);
                                }
                                assert(spec_entry_eq(badness[i2], groups[g2].entries[k]));
                                assert(spec_same_file(
                                    badness[i2].debugloc->Some_0,
                                    groups[g2].key,
                                ));
                            }
                        }
                    }
                },
                None => {
                    let mut entries: Vec<BadnessEntry> = Vec::new();
                    entries.push(e);
                    let fg = FileGroup { key, entries };
                    groups.push(fg);
                    proof {
                        assert(groups@ =~= groups_before.push(groups@[groups@.len() - 1]));
                        assert forall|i2: int|
                            0 <= i2 < i + 1 && (#[trigger] badness[i2]).debugloc is Some implies exists|
                            g2: int,
                            k: int,
                        |
                            0 <= g2 < groups.len() && 0 <= k < groups[g2].entries.len()
                                && spec_same_file(
                                badness[i2].debugloc->Some_0,
                                groups[g2].key,
                            ) && spec_entry_eq(badness[i2], #[trigger] groups[g2].entries[k]) by {
                            if i2 == i {
                                let g2 = groups.len() - 1;
                                assert(spec_entry_eq(
                                    badness[i2],
                                    groups[g2 as int].entries[0],
                                ));
                                assert(spec_same_file(
                                    badness[i2].debugloc->Some_0,
                                    groups[g2 as int].key,
                                ));
                            } else {
                                let (g2, k) = choose|g2: int, k: int|
                                    0 <= g2 < groups_before.len() && 0 <= k
                                        < groups_before[g2].entries.len() && spec_same_file(
                                        badness[i2].debugloc->Some_0,
                                        groups_before[g2].key,
                                    ) && spec_entry_eq(
                                        badness[i2],
                                        #[trigger] groups_before[g2].entries[k],
                                    );
                                assert(groups[g2].entries[k] == groups_before[g2].entries[k]);
                                assert(spec_entry_eq(badness[i2], groups[g2].entries[k]));
                            }
                        }
                    }
                },
            }
        }
        i = i + 1;
    }
    groups
}

} // verus!
