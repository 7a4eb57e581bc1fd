//! Label canonicalization.
//!
//! A full label is the human-readable fully-qualified path of a compiled
//! function. Its canonical form is obtained by stripping a trailing
//! compiler-generated disambiguation suffix (`::h` followed by sixteen hex
//! digits) and reducing every fully-qualified trait path inside trait-impl
//! notation (`<Type as full::path::Trait>::method`) to the trait's base name
//! (`<Type as Trait>::method`). Two labels with the same canonical form name
//! the same logical function.

use vstd::prelude::*;

verus! {

/// The separator that introduces a trait path in trait-impl notation.
pub open spec fn as_sep() -> Seq<char> {
    seq![' ', 'a', 's', ' ']
}

/// The separator that closes a trait path.
pub open spec fn gt_sep() -> Seq<char> {
    seq!['>']
}

/// The separator between path segments.
pub open spec fn path_sep() -> Seq<char> {
    seq![':', ':']
}

/// `sep` occurs in `s` starting at index `i`.
pub open spec fn occurs_at(s: Seq<char>, sep: Seq<char>, i: int) -> bool {
    0 <= i && i + sep.len() <= s.len() && s.subrange(i, i + sep.len() as int) == sep
}

/// The index of the leftmost occurrence of `sep` in `s`, if any.
pub open spec fn spec_find(s: Seq<char>, sep: Seq<char>) -> Option<int>
    decreases s.len(),
{
    if sep.len() == 0 || s.len() < sep.len() {
        None
    } else if s.take(sep.len() as int) == sep {
        Some(0)
    } else {
        match spec_find(s.skip(1), sep) {
            None => None,
            Some(j) => Some(j + 1),
        }
    }
}

/// The segments of `s` between occurrences of `sep`, leftmost first.
pub open spec fn spec_split(s: Seq<char>, sep: Seq<char>) -> Seq<Seq<char>>
    decreases s.len(),
{
    match spec_find(s, sep) {
        None => seq![s],
        Some(i) => {
            if 0 <= i && sep.len() >= 1 && i + sep.len() <= s.len() {
                seq![s.take(i)] + spec_split(s.skip(i + sep.len() as int), sep)
            } else {
                // never reached: a found index is always in range (lemma_find_props)
                seq![s]
            }
        },
    }
}

/// The segments of `parts` stitched back together with `sep` between them.
pub open spec fn spec_join(parts: Seq<Seq<char>>, sep: Seq<char>) -> Seq<char>
    decreases parts.len(),
{
    if parts.len() == 0 {
        Seq::empty()
    } else if parts.len() == 1 {
        parts[0]
    } else {
        parts[0] + sep + spec_join(parts.skip(1), sep)
    }
}

/// A lowercase hexadecimal digit.
pub open spec fn is_hex_digit(c: char) -> bool {
    ('0' <= c && c <= '9') || ('a' <= c && c <= 'f')
}

/// `s` ends with a compiler-generated disambiguation suffix: two colons,
/// then a lowercase `h` followed by exactly sixteen hexadecimal digits.
pub open spec fn has_hash_suffix(s: Seq<char>) -> bool {
    &&& s.len() >= 19
    &&& s[s.len() - 19] == ':'
    &&& s[s.len() - 18] == ':'
    &&& s[s.len() - 17] == 'h'
    &&& forall|i: int| s.len() - 16 <= i < s.len() ==> is_hex_digit(#[trigger] s[i])
}

/// `s` with its disambiguation suffix removed, if it has one.
pub open spec fn spec_strip_hash(s: Seq<char>) -> Seq<char> {
    if has_hash_suffix(s) {
        s.take(s.len() - 19)
    } else {
        s
    }
}

/// The reduction of one trait-path segment (the text after one `" as "`)
/// to its base name: everything before the first `>` is replaced by its
/// final `::`-separated segment; the rest is untouched.
pub open spec fn spec_base_trait(seg: Seq<char>) -> Seq<char> {
    let gt_parts = spec_split(seg, gt_sep());
    let name_parts = spec_split(gt_parts[0], path_sep());
    spec_join(seq![name_parts.last()] + gt_parts.skip(1), gt_sep())
}

/// Trait-path reduction over a whole label: the label is split on `" as "`,
/// every odd-indexed segment is reduced to its base trait name, and the
/// segments are rejoined.
pub open spec fn spec_simplify(s: Seq<char>) -> Seq<char> {
    let parts = spec_split(s, as_sep());
    if parts.len() == 1 {
        s
    } else {
        spec_join(
            Seq::new(
                parts.len(),
                |i: int| if i % 2 == 0 {
                    parts[i]
                } else {
                    spec_base_trait(parts[i])
                },
            ),
            as_sep(),
        )
    }
}

/// The canonical matching key of a full label: the disambiguation suffix is
/// stripped first, then every trait path is reduced to its base name.
pub open spec fn spec_canonical(s: Seq<char>) -> Seq<char> {
    spec_simplify(spec_strip_hash(s))
}

/// A found index is the leftmost occurrence; `None` means no occurrence.
pub proof fn lemma_find_props(s: Seq<char>, sep: Seq<char>)
    requires
        sep.len() >= 1,
    ensures
        match spec_find(s, sep) {
            Some(i) => occurs_at(s, sep, i) && forall|j: int| 0 <= j < i ==> !occurs_at(s, sep, j),
            None => forall|j: int| !occurs_at(s, sep, j),
        },
    decreases s.len(),
{
    if s.len() < sep.len() {
        assert(forall|j: int| !occurs_at(s, sep, j));
    } else if s.take(sep.len() as int) == sep {
        assert(s.subrange(0, sep.len() as int) == s.take(sep.len() as int));
        assert(occurs_at(s, sep, 0));
    } else {
        lemma_find_props(s.skip(1), sep);
        assert forall|j: int| 1 <= j implies occurs_at(s, sep, j) == occurs_at(
            s.skip(1),
            sep,
            j - 1,
        ) by {
            if 0 <= j - 1 && j - 1 + sep.len() <= s.skip(1).len() {
                assert(s.skip(1).subrange(j - 1, j - 1 + sep.len() as int) == s.subrange(
                    j,
                    j + sep.len() as int,
                ));
            }
        }
        assert(!occurs_at(s, sep, 0)) by {
            if occurs_at(s, sep, 0) {
                assert(s.subrange(0, sep.len() as int) == s.take(sep.len() as int));
            }
        }
    }
}

/// The exec mirror of `spec_find`: the leftmost occurrence of `sep` in `s`.
pub fn find_str(s: &str, sep: &str) -> (r: Option<usize>)
    requires
        sep@.len() >= 1,
    ensures
        match r {
            Some(i) => spec_find(s@, sep@) == Some(i as int),
            None => spec_find(s@, sep@) is None,
        },
{
    proof {
        lemma_find_props(s@, sep@);
    }
    let n = s.unicode_len();
    let m = sep.unicode_len();
    if n < m {
        return None;
    }
    let mut i: usize = 0;
    while i <= n - m
        invariant
            m >= 1,
            m <= n == s@.len(),
            m == sep@.len(),
            i <= n - m + 1,
            forall|j: int| 0 <= j < i ==> !occurs_at(s@, sep@, j),
        decreases n - m + 1 - i,
    {
        let mut j: usize = 0;
        let mut matched = true;
        while j < m
            invariant
                m >= 1,
                m <= n == s@.len(),
                m == sep@.len(),
                i + m <= n,
                j <= m,
                matched <==> (forall|k: int| 0 <= k < j ==> s@[i + k] == sep@[k]),
            decreases m - j,
        {
            if s.get_char(i + j) != sep.get_char(j) {
                matched = false;
                j = m;
            } else {
                j = j + 1;
            }
        }
        if matched {
            proof {
                assert(s@.subrange(i as int, i + m) =~= sep@);
                assert(occurs_at(s@, sep@, i as int));
                lemma_find_props(s@, sep@);
            }
            return Some(i);
        }
        proof {
            assert(!occurs_at(s@, sep@, i as int)) by {
                if occurs_at(s@, sep@, i as int) {
                    let k = choose|k: int| 0 <= k < m && s@[i + k] != sep@[k];
                    assert(s@.subrange(i as int, i + m)[k] == s@[i + k]);
                }
            }
        }
        i = i + 1;
    }
    proof {
        lemma_find_props(s@, sep@);
        if spec_find(s@, sep@) is Some {
            let f = spec_find(s@, sep@)->Some_0;
            assert(occurs_at(s@, sep@, f));
        }
    }
    None
}

/// A split always yields at least one segment.
pub proof fn lemma_split_len(s: Seq<char>, sep: Seq<char>)
    ensures
        spec_split(s, sep).len() >= 1,
{
}

/// The exec mirror of `spec_split`.
pub fn split_str(s: &str, sep: &str) -> (parts: Vec<String>)
    requires
        sep@.len() >= 1,
    ensures
        parts.deep_view() == spec_split(s@, sep@),
        parts.len() >= 1,
{
    let mut parts: Vec<String> = Vec::new();
    let mut rest: String = s.to_owned();
    loop
        invariant
            sep@.len() >= 1,
            spec_split(s@, sep@) == parts.deep_view() + spec_split(rest@, sep@),
        decreases rest@.len(),
    {
        proof {
            lemma_find_props(rest@, sep@);
        }
        let ghost parts_before = parts.deep_view();
        let ghost rest_before = rest@;
        match find_str(rest.as_str(), sep) {
            None => {
                parts.push(rest);
                proof {
                    assert(spec_split(rest_before, sep@) =~= seq![rest_before]);
                    assert(parts.deep_view() =~= parts_before.push(rest_before));
                    assert(parts.deep_view() =~= parts_before + seq![rest_before]);
                }
                return parts;
            },
            Some(i) => {
                let m = sep.unicode_len();
                let n = rest.as_str().unicode_len();
                let head = rest.as_str().substring_char(0, i).to_owned();
                let tail = rest.as_str().substring_char(i + m, n).to_owned();
                parts.push(head);
                proof {
                    assert(rest_before.take(i as int) =~= rest_before.subrange(0, i as int));
                    assert(rest_before.skip(i + m) =~= rest_before.subrange(
                        i + m,
                        rest_before.len() as int,
                    ));
                    assert(parts.deep_view() =~= parts_before.push(rest_before.take(i as int)));
                    assert(parts.deep_view() + spec_split(rest_before.skip(i + m), sep@)
                        =~= parts_before + spec_split(rest_before, sep@));
                }
                rest = tail;
            },
        }
    }
}

/// Appending one more segment extends a join by one separator and the segment.
pub proof fn lemma_join_push(parts: Seq<Seq<char>>, sep: Seq<char>, x: Seq<char>)
    ensures
        spec_join(parts.push(x), sep) == if parts.len() == 0 {
            x
        } else {
            spec_join(parts, sep) + sep + x
        },
    decreases parts.len(),
{
    if parts.len() == 0 {
        assert(spec_join(parts.push(x), sep) == parts.push(x)[0]);
    } else if parts.len() == 1 {
        assert(parts.push(x).skip(1) =~= seq![x]);
        assert(spec_join(seq![x], sep) == x);
        assert(spec_join(parts.push(x), sep) == parts.push(x)[0] + sep + spec_join(
            parts.push(x).skip(1),
            sep,
        ));
        assert(spec_join(parts.push(x), sep) == parts[0] + sep + x);
    } else {
        lemma_join_push(parts.skip(1), sep, x);
        assert(parts.push(x).skip(1) =~= parts.skip(1).push(x));
        assert(spec_join(parts.push(x), sep) == parts[0] + sep + spec_join(
            parts.skip(1).push(x),
            sep,
        ));
        assert((parts[0] + sep + (spec_join(parts.skip(1), sep) + sep + x)) =~= (parts[0] + sep
            + spec_join(parts.skip(1), sep) + sep + x));
    }
}

/// The exec mirror of `spec_join`.
pub fn join_str(parts: &Vec<String>, sep: &str) -> (r: String)
    ensures
        r@ == spec_join(parts.deep_view(), sep@),
{
    if parts.len() == 0 {
        return String::new();
    }
    let mut r: String = parts[0].clone();
    let mut k: usize = 1;
    while k < parts.len()
        invariant
            1 <= k <= parts.len(),
            r@ == spec_join(parts.deep_view().take(k as int), sep@),
        decreases parts.len() - k,
    {
        let ghost before = parts.deep_view().take(k as int);
        r.append(sep);
        r.append(parts[k].as_str());
        proof {
            lemma_join_push(before, sep@, parts.deep_view()[k as int]);
            assert(before.push(parts.deep_view()[k as int]) =~= parts.deep_view().take(
                k + 1 as int,
            ));
        }
        k = k + 1;
    }
    proof {
        assert(parts.deep_view().take(parts.len() as int) =~= parts.deep_view());
    }
    r
}

/// The reduction of one trait-path segment to its base name.
fn base_trait_name(after_as: &str) -> (r: String)
    ensures
        r@ == spec_base_trait(after_as@),
{
    proof {
        reveal_strlit(">");
        reveal_strlit("::");
        assert(">"@ =~= gt_sep());
        assert("::"@ =~= path_sep());
    }
    let gt_parts = split_str(after_as, ">");
    let name_parts = split_str(gt_parts[0].as_str(), "::");
    let mut rebuilt: Vec<String> = Vec::new();
    rebuilt.push(name_parts[name_parts.len() - 1].clone());
    let mut k: usize = 1;
    while k < gt_parts.len()
        invariant
            1 <= k <= gt_parts.len(),
            name_parts.deep_view().len() >= 1,
            name_parts.deep_view() == spec_split(gt_parts.deep_view()[0], path_sep()),
            gt_parts.deep_view() == spec_split(after_as@, gt_sep()),
            rebuilt.deep_view() =~= seq![name_parts.deep_view().last()] + gt_parts.deep_view()
                .take(k as int).skip(1),
        decreases gt_parts.len() - k,
    {
        let ghost rdv = rebuilt.deep_view();
        rebuilt.push(gt_parts[k].clone());
        proof {
            assert(rebuilt.deep_view() =~= rdv.push(gt_parts.deep_view()[k as int]));
            assert(gt_parts.deep_view().take(k + 1 as int).skip(1) =~= gt_parts.deep_view().take(
                k as int,
            ).skip(1).push(gt_parts.deep_view()[k as int]));
            assert(rebuilt.deep_view() =~= seq![name_parts.deep_view().last()]
                + gt_parts.deep_view().take(k + 1 as int).skip(1));
        }
        k = k + 1;
    }
    proof {
        assert(gt_parts.deep_view().take(gt_parts.len() as int) =~= gt_parts.deep_view());
        assert(rebuilt.deep_view() =~= seq![name_parts.deep_view().last()] + gt_parts.deep_view()
            .skip(1));
    }
    join_str(&rebuilt, ">")
}

/// Takes a segment of a full label that follows a `" as "` separator and
/// strips the fully-qualified trait path at its start down to the base
/// trait name, leaving the remainder untouched.
pub fn get_base_trait_name(after_as: &str) -> (r: Option<String>)
    ensures
        r matches Some(b) && b@ == spec_base_trait(after_as@),
{
    Some(base_trait_name(after_as))
}

/// Strips a trailing compiler-generated disambiguation suffix (`::h` plus
/// sixteen lowercase hex digits), if the label ends with one.
pub fn strip_hash_suffix(label: &str) -> (r: String)
    ensures
        r@ == spec_strip_hash(label@),
{
    let n = label.unicode_len();
    if n < 19 {
        return label.to_owned();
    }
    if label.get_char(n - 19) != ':' || label.get_char(n - 18) != ':' || label.get_char(n - 17)
        != 'h' {
        return label.to_owned();
    }
    let mut i: usize = n - 16;
    while i < n
        invariant
            n == label@.len(),
            n >= 19,
            n - 16 <= i <= n,
            forall|j: int| n - 16 <= j < i ==> is_hex_digit(#[trigger] label@[j]),
        decreases n - i,
    {
        let c = label.get_char(i);
        if !(('0' <= c && c <= '9') || ('a' <= c && c <= 'f')) {
            return label.to_owned();
        }
        i = i + 1;
    }
    label.substring_char(0, n - 19).to_owned()
}

/// Strips every fully-qualified trait path in trait-impl notation down to
/// the base trait name: `<T as failure::as_fail::AsFail>::as_fail` becomes
/// `<T as AsFail>::as_fail`. A label without `" as "` is returned unchanged.
pub fn simplify_trait_paths(path: &str) -> (r: String)
    ensures
        r@ == spec_simplify(path@),
{
    proof {
        reveal_strlit(" as ");
        assert(" as "@ =~= as_sep());
    }
    let parts = split_str(path, " as ");
    if parts.len() == 1 {
        return path.to_owned();
    }
    let ghost partsv = spec_split(path@, as_sep());
    let mut new_parts: Vec<String> = Vec::new();
    let mut k: usize = 0;
    while k < parts.len()
        invariant
            k <= parts.len(),
            parts.deep_view() == partsv,
            new_parts.deep_view() =~= Seq::new(
                k as nat,
                |i: int| if i % 2 == 0 {
                    partsv[i]
                } else {
                    spec_base_trait(partsv[i])
                },
            ),
        decreases parts.len() - k,
    {
        let ghost ndv = new_parts.deep_view();
        if k % 2 == 0 {
            new_parts.push(parts[k].clone());
        } else {
            new_parts.push(base_trait_name(parts[k].as_str()));
        }
        proof {
            if k % 2 == 0 {
                assert(new_parts.deep_view() =~= ndv.push(partsv[k as int]));
            } else {
                assert(new_parts.deep_view() =~= ndv.push(spec_base_trait(partsv[k as int])));
            }
            assert(new_parts.deep_view() =~= Seq::new(
                (k + 1) as nat,
                |i: int| if i % 2 == 0 {
                    partsv[i]
                } else {
                    spec_base_trait(partsv[i])
                },
            ));
        }
        k = k + 1;
    }
    join_str(&new_parts, " as ")
}

/// The canonical matching key of a full label: the disambiguation suffix is
/// stripped, then trait paths are reduced to their base names.
pub fn canonicalize(label: &str) -> (r: String)
    ensures
        r@ == spec_canonical(label@),
{
    let stripped = strip_hash_suffix(label);
    simplify_trait_paths(stripped.as_str())
}

} // verus!
