//! Ordering of the badness map for reporting.
//!
//! Rows are sorted by badness, largest first, ties broken by label in
//! ascending character order.

use vstd::prelude::*;

use crate::taint::BadnessEntry;

verus! {

/// Lexicographic order on character sequences, by character value.
pub open spec fn lex_le(a: Seq<char>, b: Seq<char>) -> bool
    decreases a.len(),
{
    if a.len() == 0 {
        true
    } else if b.len() == 0 {
        false
    } else if a.first() != b.first() {
        a.first() < b.first()
    } else {
        lex_le(a.skip(1), b.skip(1))
    }
}

/// One of two sequences always precedes the other.
pub proof fn lemma_lex_le_total(a: Seq<char>, b: Seq<char>)
    ensures
        lex_le(a, b) || lex_le(b, a),
    decreases a.len(),
{
    if a.len() > 0 && b.len() > 0 {
        if a.first() == b.first() {
            lemma_lex_le_total(a.skip(1), b.skip(1));
        }
    }
}

/// The report's row order: higher badness first, ties by label.
pub open spec fn spec_row_le(a: BadnessEntry, b: BadnessEntry) -> bool {
    a.badness > b.badness || (a.badness == b.badness && lex_le(a.label@, b.label@))
}

/// Equal prefixes do not decide the order: it is decided from index `i` on.
proof fn lemma_lex_le_skip(a: Seq<char>, b: Seq<char>, i: int)
    requires
        0 <= i <= a.len(),
        0 <= i <= b.len(),
        forall|j: int| 0 <= j < i ==> a[j] == b[j],
    ensures
        lex_le(a, b) == lex_le(a.skip(i), b.skip(i)),
    decreases i,
{
    if i == 0 {
        assert(a.skip(0) =~= a);
        assert(b.skip(0) =~= b);
    } else {
        assert(a.len() > 0 && b.len() > 0 && a.first() == b.first());
        assert forall|j: int| 0 <= j < i - 1 implies a.skip(1)[j] == b.skip(1)[j] by {
            assert(a.skip(1)[j] == a[j + 1]);
            assert(b.skip(1)[j] == b[j + 1]);
        }
        lemma_lex_le_skip(a.skip(1), b.skip(1), i - 1);
        assert(a.skip(1).skip(i - 1) =~= a.skip(i));
        assert(b.skip(1).skip(i - 1) =~= b.skip(i));
    }
}

/// The exec mirror of `lex_le`.
pub fn str_le(a: &str, b: &str) -> (r: bool)
    ensures
        r == lex_le(a@, b@),
{
    let n = a.unicode_len();
    let m = b.unicode_len();
    let mut i: usize = 0;
    loop
        invariant
            n == a@.len(),
            m == b@.len(),
            i <= n,
            i <= m,
            forall|j: int| 0 <= j < i ==> a@[j] == b@[j],
        decreases n - i,
    {
        proof {
            lemma_lex_le_skip(a@, b@, i as int);
        }
        if i >= n {
            proof {
                assert(a@.skip(i as int).len() == 0);
            }
            return true;
        }
        if i >= m {
            proof {
                assert(b@.skip(i as int).len() == 0);
                assert(a@.skip(i as int).len() > 0);
            }
            return false;
        }
        let ca = a.get_char(i);
        let cb = b.get_char(i);
        proof {
            assert(a@.skip(i as int).first() == a@[i as int]);
            assert(b@.skip(i as int).first() == b@[i as int]);
        }
        if ca != cb {
            return ca < cb;
        }
        i = i + 1;
    }
}

/// Whether row `a` comes no later than row `b`.
fn row_le(a: &BadnessEntry, b: &BadnessEntry) -> (r: bool)
    ensures
        r == spec_row_le(*a, *b),
{
    if a.badness > b.badness {
        true
    } else if a.badness == b.badness {
        str_le(a.label.as_str(), b.label.as_str())
    } else {
        false
    }
}

/// Sorts the badness map for output: descending badness, ties broken by
/// label. The rows are a permutation of the input.
pub fn sort_badness(entries: Vec<BadnessEntry>) -> (r: Vec<BadnessEntry>)
    ensures
        r@.to_multiset() == entries@.to_multiset(),
        forall|p: int, q: int| 0 <= p < q < r.len() ==> spec_row_le(#[trigger] r[p], #[trigger] r[q]),
{
    broadcast use vstd::seq_lib::group_to_multiset_ensures;

    let mut rest = entries;
    let mut out: Vec<BadnessEntry> = Vec::new();
    while rest.len() > 0
        invariant
            out@.to_multiset().add(rest@.to_multiset()) == entries@.to_multiset(),
            forall|p: int, q: int|
                0 <= p < q < out.len() ==> spec_row_le(#[trigger] out[p], #[trigger] out[q]),
            forall|p: int, q: int|
                0 <= p < out.len() && 0 <= q < rest.len() ==> spec_row_le(
                    #[trigger] out[p],
                    #[trigger] rest[q],
                ),
        decreases rest.len(),
    {
        // find the first row of what is left
        let mut m: usize = 0;
        let mut j: usize = 1;
        proof {
            lemma_lex_le_total(rest[0].label@, rest[0].label@);
        }
        while j < rest.len()
            invariant
                rest.len() > 0,
                m < j <= rest.len(),
                forall|q: int| 0 <= q < j ==> spec_row_le(#[trigger] rest[m as int], rest[q]),
            decreases rest.len() - j,
        {
            if !row_le(&rest[m], &rest[j]) {
                proof {
                    lemma_lex_le_total(rest[m as int].label@, rest[j as int].label@);
                    lemma_lex_le_total(rest[j as int].label@, rest[j as int].label@);
                    assert forall|q: int| 0 <= q < j + 1 implies spec_row_le(
                        #[trigger] rest[j as int],
                        rest[q],
                    ) by {
                        if q < j {
                            assert(spec_row_le(rest[m as int], rest[q]));
                            if rest[j as int].badness == rest[q].badness {
                                lemma_lex_trans(
                                    rest[j as int].label@,
                                    rest[m as int].label@,
                                    rest[q].label@,
                                );
                            }
                        }
                    }
                }
                m = j;
            }
            j = j + 1;
        }
        let ghost rest_before = rest@;
        let e = rest.remove(m);
        proof {
            rest_before.to_multiset_ensures();
            out@.to_multiset_ensures();
            assert(rest@ == rest_before.remove(m as int));
            assert(rest_before.remove(m as int).to_multiset() =~= rest_before.to_multiset().remove(
                rest_before[m as int],
            ));
            assert(rest_before.to_multiset().count(e) > 0) by {
                assert(rest_before.contains(e)) by {
                    assert(rest_before[m as int] == e);
                }
            }
        }
        let ghost out_before = out@;
        out.push(e);
        proof {
            out_before.to_multiset_ensures();
            assert(out@.to_multiset() =~= out_before.to_multiset().insert(e));
            assert(out@.to_multiset().add(rest@.to_multiset()) =~= entries@.to_multiset());
            assert forall|p: int, q: int|
                0 <= p < out.len() && 0 <= q < rest.len() implies spec_row_le(
                #[trigger] out[p],
                #[trigger] rest[q],
            ) by {
                if p < out.len() - 1 {
                    if q < m {
                        assert(rest[q] == rest_before[q]);
                        assert(spec_row_le(out_before[p], rest_before[q]));
                    } else {
                        assert(rest[q] == rest_before[q + 1]);
                        assert(spec_row_le(out_before[p], rest_before[q + 1]));
                    }
                } else {
                    assert(out[p] == e);
                    if q < m {
                        assert(rest[q] == rest_before[q]);
                        assert(spec_row_le(e, rest_before[q]));
                    } else {
                        assert(rest[q] == rest_before[q + 1]);
                        assert(spec_row_le(e, rest_before[q + 1]));
                    }
                }
            }
        }
    }
    out
}

/// The decimal digit character of a value below ten.
pub open spec fn spec_digit(d: int) -> char {
    if d == 0 {
        '0'
    } else if d == 1 {
        '1'
    } else if d == 2 {
        '2'
    } else if d == 3 {
        '3'
    } else if d == 4 {
        '4'
    } else if d == 5 {
        '5'
    } else if d == 6 {
        '6'
    } else if d == 7 {
        '7'
    } else if d == 8 {
        '8'
    } else {
        '9'
    }
}

/// The decimal digits of a count, most significant first, no leading zeros
/// (a lone zero for zero).
pub open spec fn spec_decimal(n: int) -> Seq<char>
    decreases n,
{
    if n < 0 {
        Seq::empty()
    } else if n < 10 {
        seq![spec_digit(n)]
    } else {
        spec_decimal(n / 10).push(spec_digit(n % 10))
    }
}

/// The count as at least three digits, zero-padded on the left.
pub open spec fn spec_padded3(n: int) -> Seq<char> {
    let d = spec_decimal(n);
    if d.len() >= 3 {
        d
    } else if d.len() == 2 {
        seq!['0'] + d
    } else {
        seq!['0', '0'] + d
    }
}

/// One printed row of the badness table: four spaces, the zero-padded
/// count, two spaces, the label.
pub open spec fn spec_row(e: BadnessEntry) -> Seq<char> {
    seq![' ', ' ', ' ', ' '] + spec_padded3(e.badness as int) + seq![' ', ' '] + e.label@
}

/// The digit character of `d`, which is below ten.
fn digit_char(d: usize) -> (r: char)
    requires
        d < 10,
    ensures
        r == spec_digit(d as int),
{
    if d == 0 {
        '0'
    } else if d == 1 {
        '1'
    } else if d == 2 {
        '2'
    } else if d == 3 {
        '3'
    } else if d == 4 {
        '4'
    } else if d == 5 {
        '5'
    } else if d == 6 {
        '6'
    } else if d == 7 {
        '7'
    } else if d == 8 {
        '8'
    } else {
        '9'
    }
}

/// The decimal rendering of a count.
fn decimal_string(n: usize) -> (r: String)
    ensures
        r@ == spec_decimal(n as int),
    decreases n,
{
    if n < 10 {
        let mut r = String::new();
        crate::strings::push_char(&mut r, digit_char(n));
        proof {
            assert(r@ =~= seq![spec_digit(n as int)]);
        }
        r
    } else {
        let mut r = decimal_string(n / 10);
        crate::strings::push_char(&mut r, digit_char(n % 10));
        r
    }
}

/// Every count renders to at least one digit.
proof fn lemma_decimal_len_pos(n: int)
    requires
        n >= 0,
    ensures
        spec_decimal(n).len() >= 1,
    decreases n,
{
    if n >= 10 {
        lemma_decimal_len_pos(n / 10);
    }
}

/// Renders a count as at least three digits, zero-padded: the table's
/// count column.
pub fn render_count(n: usize) -> (r: String)
    ensures
        r@ == spec_padded3(n as int),
{
    let d = decimal_string(n);
    proof {
        lemma_decimal_len_pos(n as int);
        if n >= 100 {
            assert(n as int / 10 >= 10) by (nonlinear_arith)
                requires
                    n >= 100,
            ;
            lemma_decimal_len_pos(n as int / 10 / 10);
            assert(spec_decimal(n as int / 10).len() >= 2);
            assert(spec_decimal(n as int).len() >= 3);
        } else if n >= 10 {
            assert(n as int / 10 < 10) by (nonlinear_arith)
                requires
                    n < 100,
            ;
            assert(spec_decimal(n as int / 10).len() == 1);
            assert(spec_decimal(n as int).len() == 2);
        }
    }
    if n >= 100 {
        d
    } else if n >= 10 {
        let mut r = String::new();
        crate::strings::push_char(&mut r, '0');
        r.append(d.as_str());
        proof {
            assert(r@ =~= seq!['0'] + d@);
        }
        r
    } else {
        let mut r = String::new();
        crate::strings::push_char(&mut r, '0');
        crate::strings::push_char(&mut r, '0');
        r.append(d.as_str());
        proof {
            assert(r@ =~= seq!['0', '0'] + d@);
        }
        r
    }
}

/// Renders one table row: four spaces, the zero-padded count, two spaces,
/// the label.
pub fn render_row(e: &BadnessEntry) -> (r: String)
    ensures
        r@ == spec_row(*e),
{
    let mut r = String::new();
    crate::strings::push_char(&mut r, ' ');
    crate::strings::push_char(&mut r, ' ');
    crate::strings::push_char(&mut r, ' ');
    crate::strings::push_char(&mut r, ' ');
    let count = render_count(e.badness);
    r.append(count.as_str());
    crate::strings::push_char(&mut r, ' ');
    crate::strings::push_char(&mut r, ' ');
    r.append(e.label.as_str());
    proof {
        assert(r@ =~= spec_row(*e));
    }
    r
}

/// Lexicographic order is transitive.
proof fn lemma_lex_trans(a: Seq<char>, b: Seq<char>, c: Seq<char>)
    requires
        lex_le(a, b),
        lex_le(b, c),
    ensures
        lex_le(a, c),
    decreases a.len(),
{
    if a.len() > 0 && b.len() > 0 && c.len() > 0 {
        if a.first() == b.first() && b.first() == c.first() {
            lemma_lex_trans(a.skip(1), b.skip(1), c.skip(1));
        }
    }
}

} // verus!
