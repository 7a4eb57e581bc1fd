//! Laws of label canonicalization.
//!
//! The central facts the rest of the analysis relies on: a label without
//! trait-impl notation only loses its disambiguation suffix, trait-impl
//! labels reduce to the base trait name, and canonicalization is idempotent.

use vstd::prelude::*;

use crate::canon::as_sep;
use crate::canon::gt_sep;
use crate::canon::has_hash_suffix;
use crate::canon::lemma_find_props;
use crate::canon::occurs_at;
use crate::canon::path_sep;
use crate::canon::spec_base_trait;
use crate::canon::spec_canonical;
use crate::canon::spec_find;
use crate::canon::spec_join;
use crate::canon::spec_simplify;
use crate::canon::spec_split;
use crate::canon::spec_strip_hash;

verus! {

/// `sep` occurs nowhere in `s`.
pub open spec fn no_sep(s: Seq<char>, sep: Seq<char>) -> bool {
    forall|j: int| !occurs_at(s, sep, j)
}

/// `s` ends with the three characters `" as"`, so that appending `" as "`
/// would create an occurrence of the separator before the append point.
pub open spec fn ends_with_as(s: Seq<char>) -> bool {
    s.len() >= 3 && s[s.len() - 3] == ' ' && s[s.len() - 2] == 'a' && s[s.len() - 1] == 's'
}

/// An occurrence inside a suffix is an occurrence in the whole sequence.
proof fn lemma_occurs_skip(s: Seq<char>, sep: Seq<char>, a: int, j: int)
    requires
        0 <= a <= s.len(),
        0 <= j,
    ensures
        occurs_at(s.skip(a), sep, j) == occurs_at(s, sep, a + j),
{
    if 0 <= j && j + sep.len() <= s.skip(a).len() {
        assert(s.skip(a).subrange(j, j + sep.len() as int) =~= s.subrange(
            a + j,
            a + j + sep.len() as int,
        ));
    }
}

/// An occurrence inside a prefix is an occurrence in the whole sequence.
proof fn lemma_occurs_take(s: Seq<char>, sep: Seq<char>, b: int, j: int)
    requires
        0 <= b <= s.len(),
        occurs_at(s.take(b), sep, j),
    ensures
        occurs_at(s, sep, j),
{
    assert(s.take(b).subrange(j, j + sep.len() as int) =~= s.subrange(j, j + sep.len() as int));
}

/// Every segment produced by a split is free of the separator.
pub proof fn lemma_split_parts_no_sep(s: Seq<char>, sep: Seq<char>)
    requires
        sep.len() >= 1,
    ensures
        forall|k: int|
            0 <= k < spec_split(s, sep).len() ==> no_sep(#[trigger] spec_split(s, sep)[k], sep),
    decreases s.len(),
{
    lemma_find_props(s, sep);
    match spec_find(s, sep) {
        None => {
            assert forall|j: int| !occurs_at(s, sep, j) by {}
        },
        Some(i) => {
            assert forall|j: int| !occurs_at(s.take(i), sep, j) by {
                if occurs_at(s.take(i), sep, j) {
                    lemma_occurs_take(s, sep, i, j);
                }
            }
            lemma_split_parts_no_sep(s.skip(i + sep.len() as int), sep);
            assert forall|k: int|
                0 <= k < spec_split(s, sep).len() implies no_sep(
                #[trigger] spec_split(s, sep)[k],
                sep,
            ) by {
                if k >= 1 {
                    assert(spec_split(s, sep)[k] == spec_split(s.skip(i + sep.len() as int), sep)[
                        k - 1]);
                }
            }
        },
    }
}

/// Joining the segments of a split restores the original sequence.
pub proof fn lemma_join_split(s: Seq<char>, sep: Seq<char>)
    requires
        sep.len() >= 1,
    ensures
        spec_join(spec_split(s, sep), sep) == s,
    decreases s.len(),
{
    lemma_find_props(s, sep);
    match spec_find(s, sep) {
        None => {},
        Some(i) => {
            let rest = s.skip(i + sep.len() as int);
            lemma_join_split(rest, sep);
            let parts = spec_split(s, sep);
            assert(parts == seq![s.take(i)] + spec_split(rest, sep));
            assert(parts.len() >= 2);
            assert(parts.skip(1) =~= spec_split(rest, sep));
            assert(parts[0] == s.take(i));
            assert(spec_join(parts, sep) == s.take(i) + sep + rest);
            assert(s.take(i) + sep + rest =~= s) by {
                assert(s.subrange(i, i + sep.len() as int) == sep);
            }
        },
    }
}

/// A sequence without the separator splits into the single segment itself.
pub proof fn lemma_split_whole(s: Seq<char>, sep: Seq<char>)
    requires
        sep.len() >= 1,
        no_sep(s, sep),
    ensures
        spec_split(s, sep) == seq![s],
{
    lemma_find_props(s, sep);
}

/// Splitting a sequence assembled as `x + sep + y` peels off `x`, provided
/// no occurrence of the separator starts inside `x`.
pub proof fn lemma_split_concat(x: Seq<char>, y: Seq<char>, sep: Seq<char>)
    requires
        sep.len() >= 1,
        forall|i: int| 0 <= i < x.len() ==> !occurs_at(x + sep + y, sep, i),
    ensures
        spec_split(x + sep + y, sep) == seq![x] + spec_split(y, sep),
{
    let w = x + sep + y;
    assert(occurs_at(w, sep, x.len() as int)) by {
        assert(w.subrange(x.len() as int, x.len() + sep.len() as int) =~= sep);
    }
    lemma_find_props(w, sep);
    match spec_find(w, sep) {
        None => {
            assert(false);
        },
        Some(f) => {
            assert(f == x.len());
            assert(w.take(f) =~= x);
            assert(w.skip(f + sep.len() as int) =~= y);
        },
    }
}

/// No occurrence of `" as "` starts strictly inside `x` when `x` itself is
/// free of the separator and does not end with `" as"`.
pub proof fn lemma_as_boundary(x: Seq<char>, y: Seq<char>)
    requires
        no_sep(x, as_sep()),
        !ends_with_as(x),
    ensures
        forall|i: int| 0 <= i < x.len() ==> !occurs_at(x + as_sep() + y, as_sep(), i),
{
    let w = x + as_sep() + y;
    let sep = as_sep();
    assert forall|i: int| 0 <= i < x.len() implies !occurs_at(w, sep, i) by {
        if occurs_at(w, sep, i) {
            let win = w.subrange(i, i + 4);
            assert(win[0] == ' ' && win[1] == 'a' && win[2] == 's' && win[3] == ' ');
            if i + 4 <= x.len() {
                assert(occurs_at(x, sep, i)) by {
                    assert(x.subrange(i, i + 4) =~= win);
                }
            } else if i == x.len() - 3 {
                assert(x[x.len() - 3] == win[0]);
                assert(x[x.len() - 2] == win[1]);
                assert(x[x.len() - 1] == win[2]);
                assert(ends_with_as(x));
            } else if i == x.len() - 2 {
                assert(win[2] == w[i + 2] && w[i + 2] == sep[0]);
            } else {
                assert(i == x.len() - 1);
                assert(win[1] == w[i + 1] && w[i + 1] == sep[0]);
            }
        }
    }
}

/// In a split on `" as "`, no segment except possibly the last ends with
/// `" as"`: the leftmost-occurrence rule would have split three characters
/// earlier.
pub proof fn lemma_split_nonlast_not_ends_as(s: Seq<char>)
    ensures
        forall|k: int|
            0 <= k < spec_split(s, as_sep()).len() - 1 ==> !ends_with_as(
                #[trigger] spec_split(s, as_sep())[k],
            ),
    decreases s.len(),
{
    let sep = as_sep();
    lemma_find_props(s, sep);
    match spec_find(s, sep) {
        None => {},
        Some(i) => {
            let head = s.take(i);
            assert(!ends_with_as(head)) by {
                if ends_with_as(head) {
                    assert(occurs_at(s, sep, i - 3)) by {
                        assert(head[i - 3] == s[i - 3]);
                        assert(head[i - 2] == s[i - 2]);
                        assert(head[i - 1] == s[i - 1]);
                        assert(s.subrange(i, i + 4) == sep);
                        assert(s[i] == sep[0]);
                        assert(s.subrange(i - 3, i + 1) =~= sep);
                    }
                }
            }
            let rest = s.skip(i + 4);
            lemma_split_nonlast_not_ends_as(rest);
            assert forall|k: int|
                0 <= k < spec_split(s, sep).len() - 1 implies !ends_with_as(
                #[trigger] spec_split(s, sep)[k],
            ) by {
                if k >= 1 {
                    assert(spec_split(s, sep)[k] == spec_split(rest, sep)[k - 1]);
                }
            }
        },
    }
}

/// Splitting a join restores the segments, provided every segment is free
/// of `" as "` and no segment before the last ends with `" as"`.
pub proof fn lemma_split_join_inv(parts: Seq<Seq<char>>)
    requires
        parts.len() >= 1,
        forall|k: int| 0 <= k < parts.len() ==> no_sep(#[trigger] parts[k], as_sep()),
        forall|k: int| 0 <= k < parts.len() - 1 ==> !ends_with_as(#[trigger] parts[k]),
    ensures
        spec_split(spec_join(parts, as_sep()), as_sep()) == parts,
    decreases parts.len(),
{
    let sep = as_sep();
    if parts.len() == 1 {
        lemma_split_whole(parts[0], sep);
        assert(spec_split(spec_join(parts, sep), sep) =~= parts);
    } else {
        let rest = parts.skip(1);
        lemma_split_join_inv(rest);
        let y = spec_join(rest, sep);
        assert(spec_join(parts, sep) == parts[0] + sep + y);
        lemma_as_boundary(parts[0], y);
        lemma_split_concat(parts[0], y, sep);
        assert(seq![parts[0]] + spec_split(y, sep) =~= parts);
    }
}

/// The last segment of a split is a suffix of the input.
proof fn lemma_split_last_suffix(s: Seq<char>, sep: Seq<char>)
    requires
        sep.len() >= 1,
    ensures
        exists|a: int| 0 <= a <= s.len() && spec_split(s, sep).last() == s.skip(a),
    decreases s.len(),
{
    lemma_find_props(s, sep);
    match spec_find(s, sep) {
        None => {
            assert(spec_split(s, sep).last() == s);
            assert(s == s.skip(0)) by {
                assert(s.skip(0) =~= s);
            }
        },
        Some(i) => {
            let rest = s.skip(i + sep.len() as int);
            lemma_split_last_suffix(rest, sep);
            let a = choose|a: int| 0 <= a <= rest.len() && spec_split(rest, sep).last() == rest.skip(
                a,
            );
            assert(spec_split(s, sep).last() == spec_split(rest, sep).last());
            assert(rest.skip(a) =~= s.skip(i + sep.len() + a));
        },
    }
}

/// For a one-character separator, an occurrence is exactly a matching
/// character.
proof fn lemma_occurs_single(s: Seq<char>, sep: Seq<char>, j: int)
    requires
        sep.len() == 1,
    ensures
        occurs_at(s, sep, j) == (0 <= j < s.len() && s[j] == sep[0]),
{
    if 0 <= j < s.len() {
        if s[j] == sep[0] {
            assert(s.subrange(j, j + 1) =~= sep);
        } else {
            assert(s.subrange(j, j + 1)[0] == s[j]);
        }
    }
}

/// The shape of a base-trait reduction: the text before the first `>` is
/// replaced by its final `::`-separated segment, the rest is untouched.
proof fn lemma_base_shape(p: Seq<char>)
    ensures
        match spec_find(p, gt_sep()) {
            None => spec_base_trait(p) == spec_split(p, path_sep()).last(),
            Some(i) => spec_base_trait(p) == spec_split(p.take(i), path_sep()).last() + gt_sep()
                + p.skip(i + 1),
        },
{
    lemma_find_props(p, gt_sep());
    match spec_find(p, gt_sep()) {
        None => {
            let gt_parts = spec_split(p, gt_sep());
            assert(gt_parts == seq![p]);
            let bn = spec_split(p, path_sep()).last();
            assert(seq![bn] + gt_parts.skip(1) =~= seq![bn]);
            assert(spec_join(seq![bn], gt_sep()) == bn);
        },
        Some(i) => {
            let rest = p.skip(i + 1);
            let gt_parts = spec_split(p, gt_sep());
            assert(gt_parts == seq![p.take(i)] + spec_split(rest, gt_sep()));
            assert(gt_parts[0] == p.take(i));
            let bn = spec_split(p.take(i), path_sep()).last();
            let joined = seq![bn] + gt_parts.skip(1);
            assert(joined.skip(1) =~= spec_split(rest, gt_sep()));
            assert(joined.len() >= 2);
            assert(spec_join(joined, gt_sep()) == bn + gt_sep() + spec_join(
                spec_split(rest, gt_sep()),
                gt_sep(),
            ));
            lemma_join_split(rest, gt_sep());
        },
    }
}

/// Base-trait reduction preserves freedom from `" as "` and preserves not
/// ending with `" as"`.
proof fn lemma_base_trait_props(p: Seq<char>)
    requires
        no_sep(p, as_sep()),
    ensures
        no_sep(spec_base_trait(p), as_sep()),
        !ends_with_as(p) ==> !ends_with_as(spec_base_trait(p)),
{
    lemma_base_shape(p);
    lemma_find_props(p, gt_sep());
    match spec_find(p, gt_sep()) {
        None => {
            lemma_split_last_suffix(p, path_sep());
            let a = choose|a: int|
                0 <= a <= p.len() && spec_split(p, path_sep()).last() == p.skip(a);
            let bn = spec_split(p, path_sep()).last();
            assert forall|j: int| !occurs_at(bn, as_sep(), j) by {
                if 0 <= j && occurs_at(bn, as_sep(), j) {
                    lemma_occurs_skip(p, as_sep(), a, j);
                }
            }
            if !ends_with_as(p) && ends_with_as(bn) {
                assert(bn[bn.len() - 3] == p[p.len() - 3]);
                assert(bn[bn.len() - 2] == p[p.len() - 2]);
                assert(bn[bn.len() - 1] == p[p.len() - 1]);
            }
        },
        Some(i) => {
            let head = p.take(i);
            lemma_split_last_suffix(head, path_sep());
            let a = choose|a: int|
                0 <= a <= head.len() && spec_split(head, path_sep()).last() == head.skip(a);
            let bn = spec_split(head, path_sep()).last();
            let rest = p.skip(i + 1);
            let b = bn + gt_sep() + rest;
            let ll = bn.len() as int;
            assert forall|j: int| !occurs_at(bn, as_sep(), j) by {
                if 0 <= j && occurs_at(bn, as_sep(), j) {
                    lemma_occurs_skip(head, as_sep(), a, j);
                    lemma_occurs_take(p, as_sep(), i, a + j);
                }
            }
            assert forall|j: int| !occurs_at(rest, as_sep(), j) by {
                if 0 <= j && occurs_at(rest, as_sep(), j) {
                    lemma_occurs_skip(p, as_sep(), i + 1, j);
                }
            }
            assert(b[ll] == '>');
            assert forall|j: int| !occurs_at(b, as_sep(), j) by {
                if occurs_at(b, as_sep(), j) {
                    let win = b.subrange(j, j + 4);
                    if j + 4 <= ll {
                        assert(occurs_at(bn, as_sep(), j)) by {
                            assert(bn.subrange(j, j + 4) =~= win);
                        }
                    } else if j > ll {
                        assert(occurs_at(rest, as_sep(), j - ll - 1)) by {
                            assert(rest.subrange(j - ll - 1, j - ll - 1 + 4) =~= win);
                        }
                    } else {
                        assert(win[ll - j] == b[ll]);
                        assert(win[ll - j] != '>');
                    }
                }
            }
            if !ends_with_as(p) && ends_with_as(b) {
                if rest.len() >= 3 {
                    assert(b[b.len() - 3] == p[p.len() - 3]);
                    assert(b[b.len() - 2] == p[p.len() - 2]);
                    assert(b[b.len() - 1] == p[p.len() - 1]);
                } else {
                    let k = b.len() - 1 - ll;
                    assert(0 <= k <= 2);
                    assert(b[b.len() - 1 - k] == '>');
                }
            }
        },
    }
}

/// Base-trait reduction is idempotent.
proof fn lemma_base_idempotent(p: Seq<char>)
    ensures
        spec_base_trait(spec_base_trait(p)) == spec_base_trait(p),
{
    lemma_base_shape(p);
    lemma_find_props(p, gt_sep());
    match spec_find(p, gt_sep()) {
        None => {
            let bn = spec_split(p, path_sep()).last();
            lemma_split_parts_no_sep(p, path_sep());
            assert(no_sep(bn, path_sep()));
            assert(no_sep(p, gt_sep())) by {
                assert forall|j: int| !occurs_at(p, gt_sep(), j) by {
                    lemma_occurs_single(p, gt_sep(), j);
                    if 0 <= j < p.len() && p[j] == '>' {
                        assert(occurs_at(p, gt_sep(), j)) by {
                            lemma_occurs_single(p, gt_sep(), j);
                        }
                    }
                }
            }
            lemma_split_last_suffix(p, path_sep());
            let a = choose|a: int|
                0 <= a <= p.len() && spec_split(p, path_sep()).last() == p.skip(a);
            assert(no_sep(bn, gt_sep())) by {
                assert forall|j: int| !occurs_at(bn, gt_sep(), j) by {
                    if 0 <= j && occurs_at(bn, gt_sep(), j) {
                        lemma_occurs_skip(p, gt_sep(), a, j);
                    }
                }
            }
            lemma_base_shape(bn);
            lemma_find_props(bn, gt_sep());
            assert(spec_find(bn, gt_sep()) is None) by {
                if spec_find(bn, gt_sep()) is Some {
                    let f = spec_find(bn, gt_sep())->Some_0;
                    assert(occurs_at(bn, gt_sep(), f));
                }
            }
            lemma_split_whole(bn, path_sep());
            assert(spec_base_trait(bn) == seq![bn].last());
        },
        Some(i) => {
            let head = p.take(i);
            let bn = spec_split(head, path_sep()).last();
            let rest = p.skip(i + 1);
            let b = bn + gt_sep() + rest;
            let ll = bn.len() as int;
            lemma_split_parts_no_sep(head, path_sep());
            assert(no_sep(bn, path_sep()));
            lemma_split_last_suffix(head, path_sep());
            let a = choose|a: int|
                0 <= a <= head.len() && spec_split(head, path_sep()).last() == head.skip(a);
            assert(no_sep(bn, gt_sep())) by {
                assert forall|j: int| !occurs_at(bn, gt_sep(), j) by {
                    lemma_occurs_single(bn, gt_sep(), j);
                    if 0 <= j < bn.len() && bn[j] == '>' {
                        assert(bn[j] == head[a + j]);
                        assert(head[a + j] == p[a + j]);
                        assert(occurs_at(p, gt_sep(), a + j)) by {
                            lemma_occurs_single(p, gt_sep(), a + j);
                        }
                    }
                }
            }
            // the first `>` of the reduced segment sits right after the base name
            assert(occurs_at(b, gt_sep(), ll)) by {
                assert(b[ll] == '>');
                lemma_occurs_single(b, gt_sep(), ll);
            }
            lemma_find_props(b, gt_sep());
            assert(spec_find(b, gt_sep()) == Some(ll)) by {
                match spec_find(b, gt_sep()) {
                    None => {
                        assert(false);
                    },
                    Some(f) => {
                        assert(f <= ll);
                        if f < ll {
                            lemma_occurs_single(b, gt_sep(), f);
                            assert(b[f] == bn[f]);
                            assert(occurs_at(bn, gt_sep(), f)) by {
                                lemma_occurs_single(bn, gt_sep(), f);
                            }
                        }
                    },
                }
            }
            lemma_base_shape(b);
            assert(b.take(ll) =~= bn);
            assert(b.skip(ll + 1) =~= rest);
            lemma_split_whole(bn, path_sep());
            assert(spec_base_trait(b) == seq![bn].last() + gt_sep() + rest);
        },
    }
}

/// Trait-path reduction over a whole label is idempotent.
pub proof fn lemma_simplify_idempotent(s: Seq<char>)
    ensures
        spec_simplify(spec_simplify(s)) == spec_simplify(s),
{
    let sep = as_sep();
    let parts = spec_split(s, sep);
    if parts.len() != 1 {
        let n = parts.len() as int;
        let parts2 = Seq::new(
            parts.len(),
            |i: int| if i % 2 == 0 {
                parts[i]
            } else {
                spec_base_trait(parts[i])
            },
        );
        let r = spec_join(parts2, sep);
        assert(spec_simplify(s) == r);
        lemma_split_parts_no_sep(s, sep);
        lemma_split_nonlast_not_ends_as(s);
        assert forall|k: int| 0 <= k < n implies no_sep(#[trigger] parts2[k], sep) by {
            if k % 2 != 0 {
                lemma_base_trait_props(parts[k]);
            }
        }
        assert forall|k: int| 0 <= k < n - 1 implies !ends_with_as(#[trigger] parts2[k]) by {
            if k % 2 != 0 {
                lemma_base_trait_props(parts[k]);
            }
        }
        lemma_split_join_inv(parts2);
        assert(spec_split(r, sep) == parts2);
        let parts3 = Seq::new(
            parts2.len(),
            |i: int| if i % 2 == 0 {
                parts2[i]
            } else {
                spec_base_trait(parts2[i])
            },
        );
        assert(parts3 =~= parts2) by {
            assert forall|i: int| 0 <= i < n implies parts3[i] == parts2[i] by {
                if i % 2 != 0 {
                    lemma_base_idempotent(parts[i]);
                }
            }
        }
        assert(spec_simplify(r) == spec_join(parts3, sep));
    }
}

/// Canonicalization is idempotent on every label whose canonical form does
/// not itself end in a disambiguation suffix (a label can carry two such
/// suffixes back to back, and each strip removes exactly one).
pub proof fn lemma_canonical_idempotent(l: Seq<char>)
    requires
        !has_hash_suffix(spec_canonical(l)),
    ensures
        spec_canonical(spec_canonical(l)) == spec_canonical(l),
{
    let c = spec_canonical(l);
    assert(spec_strip_hash(c) == c);
    lemma_simplify_idempotent(spec_strip_hash(l));
}

/// When a sequence has the shape `x + sep + y` with no occurrence of the
/// separator at or after the end of `x` other than the known one, the last
/// segment of its split is exactly `y`.
proof fn lemma_split_last_concat(x: Seq<char>, y: Seq<char>, sep: Seq<char>)
    requires
        sep.len() >= 1,
        forall|j: int| j > x.len() ==> !occurs_at(x + sep + y, sep, j),
        forall|f: int|
            x.len() - sep.len() < f < x.len() ==> !occurs_at(x + sep + y, sep, f),
    ensures
        spec_split(x + sep + y, sep).last() == y,
    decreases x.len(),
{
    let w = x + sep + y;
    let m = sep.len() as int;
    assert(occurs_at(w, sep, x.len() as int)) by {
        assert(w.subrange(x.len() as int, x.len() + m) =~= sep);
    }
    lemma_find_props(w, sep);
    match spec_find(w, sep) {
        None => {
            assert(false);
        },
        Some(f) => {
            assert(f <= x.len());
            if f == x.len() {
                assert(w.skip(f + m) =~= y);
                assert(no_sep(y, sep)) by {
                    assert forall|j: int| !occurs_at(y, sep, j) by {
                        if 0 <= j && occurs_at(y, sep, j) {
                            lemma_occurs_skip(w, sep, f + m, j);
                        }
                    }
                }
                lemma_split_whole(y, sep);
                assert(spec_split(w, sep) == seq![w.take(f)] + seq![y]);
            } else {
                assert(f + m <= x.len());
                let x2 = x.skip(f + m);
                let w2 = w.skip(f + m);
                assert(w2 =~= x2 + sep + y);
                assert forall|j: int| j > x2.len() implies !occurs_at(x2 + sep + y, sep, j) by {
                    if j >= 0 && occurs_at(w2, sep, j) {
                        lemma_occurs_skip(w, sep, f + m, j);
                    }
                }
                assert forall|g: int|
                    x2.len() - m < g < x2.len() implies !occurs_at(x2 + sep + y, sep, g) by {
                    if g >= 0 && occurs_at(w2, sep, g) {
                        lemma_occurs_skip(w, sep, f + m, g);
                    }
                }
                lemma_split_last_concat(x2, y, sep);
                assert(spec_split(w, sep) == seq![w.take(f)] + spec_split(w2, sep));
                assert(spec_split(w, sep).last() == spec_split(w2, sep).last());
            }
        },
    }
}

/// The shape of a well-formed trait-impl label: a bracketed type, `" as "`,
/// a qualified trait path with a generic argument list, and a member name.
pub open spec fn trait_impl_tail(
    qual: Seq<char>,
    base: Seq<char>,
    args: Seq<char>,
    method: Seq<char>,
) -> Seq<char> {
    qual + path_sep() + base + seq!['<'] + args + seq!['>', '>'] + path_sep() + method
}

/// The whole trait-impl label `<Ty as qual::base<args>>::method`.
pub open spec fn trait_impl_label(
    ty: Seq<char>,
    qual: Seq<char>,
    base: Seq<char>,
    args: Seq<char>,
    method: Seq<char>,
) -> Seq<char> {
    seq!['<'] + ty + as_sep() + trait_impl_tail(qual, base, args, method)
}

/// Canonicalizing a well-formed trait-impl label
/// `<Ty as qual::base<args>>::method` reduces the qualified trait path to
/// its base name: `<Ty as base<args>>::method`.
#[verifier::rlimit(80)]
pub proof fn lemma_canonical_trait_impl(
    ty: Seq<char>,
    qual: Seq<char>,
    base: Seq<char>,
    args: Seq<char>,
    method: Seq<char>,
)
    requires
        no_sep(seq!['<'] + ty, as_sep()),
        !ends_with_as(seq!['<'] + ty),
        no_sep(trait_impl_tail(qual, base, args, method), as_sep()),
        forall|j: int| 0 <= j < qual.len() ==> qual[j] != '>',
        forall|j: int| 0 <= j < base.len() ==> base[j] != '>',
        forall|j: int| 0 <= j < args.len() ==> args[j] != '>',
        no_sep(base + seq!['<'] + args, path_sep()),
        base.len() >= 1,
        base[0] != ':',
        qual.len() == 0 || qual[qual.len() - 1] != ':',
        !has_hash_suffix(trait_impl_label(ty, qual, base, args, method)),
    ensures
        spec_canonical(trait_impl_label(ty, qual, base, args, method)) == seq!['<'] + ty
            + as_sep() + base + seq!['<'] + args + seq!['>', '>'] + path_sep() + method,
{
    let pre = seq!['<'] + ty;
    let tail = trait_impl_tail(qual, base, args, method);
    let label = trait_impl_label(ty, qual, base, args, method);
    let sep = as_sep();
    assert(label =~= pre + sep + tail);
    assert(spec_strip_hash(label) == label);

    // the label splits on " as " into the type part and the trait part
    lemma_as_boundary(pre, tail);
    assert(forall|i: int| 0 <= i < pre.len() ==> !occurs_at(label, sep, i)) by {
        assert(pre + sep + tail == label);
    }
    lemma_split_concat(pre, tail, sep);
    lemma_split_whole(tail, sep);
    let parts = spec_split(label, sep);
    assert(parts =~= seq![pre, tail]);
    assert(parts.len() == 2);

    // the trait part starts with everything up to the first `>`
    let z = base + seq!['<'] + args;
    let x_gt = qual + path_sep() + z;
    let rest = seq!['>'] + path_sep() + method;
    assert(tail =~= x_gt + gt_sep() + rest);
    assert forall|j: int| 0 <= j < x_gt.len() implies x_gt[j] != '>' by {
        if j < qual.len() {
            assert(x_gt[j] == qual[j]);
        } else if j < qual.len() + 2 {
            assert(x_gt[j] == ':');
        } else {
            let t = j - qual.len() - 2;
            if t < base.len() {
                assert(z[t] == base[t]);
            } else if t == base.len() {
                assert(z[t] == '<');
            } else {
                assert(z[t] == args[t - base.len() - 1]);
            }
            assert(x_gt[j] == z[t]);
        }
    }
    assert forall|i: int| 0 <= i < x_gt.len() implies !occurs_at(x_gt + gt_sep() + rest, gt_sep(), i) by {
        lemma_occurs_single(x_gt + gt_sep() + rest, gt_sep(), i);
        assert((x_gt + gt_sep() + rest)[i] == x_gt[i]);
    }
    lemma_split_concat(x_gt, rest, gt_sep());
    assert(spec_split(tail, gt_sep()) == seq![x_gt] + spec_split(rest, gt_sep()));

    // the base name of the trait part is the trait's final path segment,
    // generic arguments included
    assert forall|j: int| j > qual.len() implies !occurs_at(x_gt, path_sep(), j) by {
        if occurs_at(x_gt, path_sep(), j) {
            if j == qual.len() + 1 {
                assert(x_gt.subrange(j, j + 2)[1] == x_gt[j + 1]);
                assert(x_gt[j + 1] == z[0]);
                assert(z[0] == base[0]);
                assert(x_gt.subrange(j, j + 2)[1] == ':');
            } else {
                assert(occurs_at(z, path_sep(), j - qual.len() - 2)) by {
                    assert(z.subrange(j - qual.len() - 2, j - qual.len()) =~= x_gt.subrange(
                        j,
                        j + 2,
                    ));
                }
            }
        }
    }
    assert forall|f: int| qual.len() - 2 < f < qual.len() implies !occurs_at(
        x_gt,
        path_sep(),
        f,
    ) by {
        if occurs_at(x_gt, path_sep(), f) {
            assert(f == qual.len() - 1);
            assert(x_gt.subrange(f, f + 2)[0] == x_gt[f]);
            assert(x_gt[f] == qual[f]);
            assert(x_gt.subrange(f, f + 2)[0] == ':');
        }
    }
    assert(x_gt =~= qual + path_sep() + z);
    lemma_split_last_concat(qual, z, path_sep());
    assert(spec_split(x_gt, path_sep()).last() == z);

    // assemble the reduced trait part
    lemma_base_shape(tail);
    assert(occurs_at(tail, gt_sep(), x_gt.len() as int)) by {
        assert(tail[x_gt.len() as int] == '>');
        lemma_occurs_single(tail, gt_sep(), x_gt.len() as int);
    }
    lemma_find_props(tail, gt_sep());
    assert(spec_find(tail, gt_sep()) == Some(x_gt.len() as int)) by {
        match spec_find(tail, gt_sep()) {
            None => {
                assert(false);
            },
            Some(f) => {
                assert(f <= x_gt.len());
                if f < x_gt.len() {
                    lemma_occurs_single(tail, gt_sep(), f);
                    assert(tail[f] == x_gt[f]);
                }
            },
        }
    }
    assert(tail.take(x_gt.len() as int) =~= x_gt);
    assert(tail.skip(x_gt.len() + 1 as int) =~= rest);
    let reduced = z + gt_sep() + rest;
    assert(spec_base_trait(tail) == reduced);

    // stitch the two segments back together
    let parts2 = Seq::new(
        parts.len(),
        |i: int| if i % 2 == 0 {
            parts[i]
        } else {
            spec_base_trait(parts[i])
        },
    );
    assert(parts2 =~= seq![pre, reduced]);
    assert(parts2.skip(1) =~= seq![reduced]);
    assert(parts2[0] == pre);
    assert(spec_join(seq![reduced], sep) == reduced);
    assert(spec_join(parts2, sep) == parts2[0] + sep + spec_join(parts2.skip(1), sep));
    assert(spec_join(parts2, sep) == pre + sep + reduced);
    assert(spec_simplify(label) == pre + sep + reduced);
    assert(pre + sep + reduced =~= seq!['<'] + ty + as_sep() + base + seq!['<'] + args + seq![
        '>',
        '>',
    ] + path_sep() + method);
}

/// A label with no `" as "` keeps everything but its disambiguation suffix:
/// canonicalization is exactly the suffix strip.
pub proof fn lemma_canonical_no_trait_qual(l: Seq<char>)
    requires
        no_sep(l, as_sep()),
    ensures
        spec_canonical(l) == spec_strip_hash(l),
{
    let stripped = spec_strip_hash(l);
    assert(no_sep(stripped, as_sep())) by {
        if has_hash_suffix(l) {
            assert forall|j: int| !occurs_at(stripped, as_sep(), j) by {
                if occurs_at(stripped, as_sep(), j) {
                    lemma_occurs_take(l, as_sep(), l.len() - 19, j);
                }
            }
        }
    }
    lemma_split_whole(stripped, as_sep());
}

} // verus!
