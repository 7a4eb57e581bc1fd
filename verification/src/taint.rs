//! Reverse reachability over the call graph.
//!
//! A node reaches a tainted origin when a chain of direct calls leads from
//! it to the origin; the traversal walks caller edges backwards from the
//! origin, visiting each node at most once.

use vstd::prelude::*;

use crate::graph::CallGraph;
use crate::graph::SourceLoc;

verus! {

/// Node `n` contains a direct call to node `x`: `n` is in `x`'s caller set.
pub open spec fn direct_caller(g: CallGraph, n: int, x: int) -> bool {
    exists|k: int|
        0 <= k < g.nodes[x].caller_labels.len() && #[trigger] g.nodes[x].caller_labels[k] as int
            == n
}

/// `p` is a chain of direct calls through `g` ending at `t`: each element
/// calls the next one.
pub open spec fn is_call_path(g: CallGraph, p: Seq<int>, t: int) -> bool {
    &&& p.len() >= 1
    &&& p.last() == t
    &&& forall|k: int| 0 <= k < p.len() ==> 0 <= #[trigger] p[k] < g.nodes.len()
    &&& forall|k: int| 0 <= k < p.len() - 1 ==> direct_caller(g, #[trigger] p[k], p[k + 1])
}

/// Node `n` can reach node `t` through zero or more direct calls.
pub open spec fn reaches(g: CallGraph, n: int, t: int) -> bool {
    exists|p: Seq<int>| is_call_path(g, p, t) && p.first() == n
}

/// Every node reaches itself (the empty chain of calls).
pub proof fn lemma_reaches_self(g: CallGraph, t: int)
    requires
        0 <= t < g.nodes.len(),
    ensures
        reaches(g, t, t),
{
    let p: Seq<int> = seq![t];
    assert(is_call_path(g, p, t) && p.first() == t);
}

/// A direct caller of a node that reaches `t` also reaches `t`.
pub proof fn lemma_reaches_step(g: CallGraph, n: int, x: int, t: int)
    requires
        0 <= n < g.nodes.len(),
        direct_caller(g, n, x),
        reaches(g, x, t),
    ensures
        reaches(g, n, t),
{
    let p = choose|p: Seq<int>| is_call_path(g, p, t) && p.first() == x;
    let q = seq![n] + p;
    assert(q.last() == t) by {
        assert(q[q.len() - 1] == p[p.len() - 1]);
    }
    assert forall|k: int| 0 <= k < q.len() - 1 implies direct_caller(g, #[trigger] q[k], q[k + 1]) by {
        if k == 0 {
            assert(q[0] == n && q[1] == p.first());
        } else {
            assert(q[k] == p[k - 1] && q[k + 1] == p[k]);
        }
    }
    assert(is_call_path(g, q, t) && q.first() == n);
}

/// How many entries of `s` are set.
pub open spec fn count_true(s: Seq<bool>) -> nat
    decreases s.len(),
{
    if s.len() == 0 {
        0
    } else {
        count_true(s.drop_last()) + if s.last() {
            1nat
        } else {
            0nat
        }
    }
}

/// Setting one unset entry raises the count by one.
proof fn lemma_count_true_update(s: Seq<bool>, i: int)
    requires
        0 <= i < s.len(),
        !s[i],
    ensures
        count_true(s.update(i, true)) == count_true(s) + 1,
    decreases s.len(),
{
    let u = s.update(i, true);
    if i == s.len() - 1 {
        assert(u.drop_last() =~= s.drop_last());
    } else {
        assert(u.drop_last() =~= s.drop_last().update(i, true));
        assert(u.last() == s.last());
        lemma_count_true_update(s.drop_last(), i);
    }
}

/// The count never exceeds the length.
proof fn lemma_count_true_le(s: Seq<bool>)
    ensures
        count_true(s) <= s.len(),
    decreases s.len(),
{
    if s.len() > 0 {
        lemma_count_true_le(s.drop_last());
    }
}

/// With one entry unset, the count stays below the length.
proof fn lemma_count_true_lt(s: Seq<bool>, i: int)
    requires
        0 <= i < s.len(),
        !s[i],
    ensures
        count_true(s) < s.len(),
    decreases s.len(),
{
    if i == s.len() - 1 {
        lemma_count_true_le(s.drop_last());
    } else {
        lemma_count_true_lt(s.drop_last(), i);
    }
}

/// `q` holds the value `x` somewhere.
pub open spec fn queue_has(q: Seq<usize>, x: int) -> bool {
    exists|qi: int| 0 <= qi < q.len() && #[trigger] q[qi] as int == x
}

/// A visited set that contains `t` and is closed under caller edges covers
/// every node with a call chain to `t`.
proof fn lemma_closed_covers_path(g: CallGraph, visited: Seq<bool>, t: int, p: Seq<int>)
    requires
        g.wf(),
        visited.len() == g.nodes.len(),
        0 <= t < g.nodes.len(),
        visited[t],
        forall|x: int, k: int|
            0 <= x < g.nodes.len() && visited[x] && 0 <= k < g.nodes[x].caller_labels.len()
                ==> visited[#[trigger] g.nodes[x].caller_labels[k] as int],
        is_call_path(g, p, t),
    ensures
        visited[p.first()],
    decreases p.len(),
{
    if p.len() == 1 {
        assert(p.first() == t);
    } else {
        let p2 = p.take(p.len() - 1);
        let t2 = p[p.len() - 2];
        assert(direct_caller(g, t2, p.last()));
        let k = choose|k: int|
            0 <= k < g.nodes[p.last()].caller_labels.len()
                && #[trigger] g.nodes[p.last()].caller_labels[k] as int == t2;
        assert(visited[t2]);
        assert(is_call_path(g, p2, t2)) by {
            assert(p2.last() == t2);
            assert forall|k2: int| 0 <= k2 < p2.len() - 1 implies direct_caller(
                g,
                #[trigger] p2[k2],
                p2[k2 + 1],
            ) by {
                assert(p2[k2] == p[k2] && p2[k2 + 1] == p[k2 + 1]);
            }
        }
        lemma_closed_covers_path(g, visited, t2, p2);
        assert(p2.first() == p.first());
    }
}

/// The set of nodes that can reach `t` through caller edges: a reverse
/// traversal from `t`, visiting each node at most once, so cycles are safe.
pub fn reachable_from(g: &CallGraph, t: usize) -> (visited: Vec<bool>)
    requires
        g.wf(),
        t < g.nodes.len(),
    ensures
        visited.len() == g.nodes.len(),
        forall|i: int| 0 <= i < g.nodes.len() ==> (visited[i] <==> reaches(*g, i, t as int)),
{
    let n = g.nodes.len();
    let mut visited: Vec<bool> = Vec::new();
    let mut i: usize = 0;
    while i < n
        invariant
            i <= n,
            visited.len() == i,
            forall|k: int| 0 <= k < i ==> !visited[k],
        decreases n - i,
    {
        visited.push(false);
        i = i + 1;
    }
    let mut queue: Vec<usize> = Vec::new();
    visited[t] = true;
    queue.push(t);
    proof {
        lemma_reaches_self(*g, t as int);
        lemma_count_true_le(visited@);
        assert(queue@[0] as int == t as int);
        assert(queue_has(queue@, t as int));
    }
    loop
        invariant
            g.wf(),
            t < n,
            n == g.nodes.len(),
            visited.len() == n,
            visited[t as int],
            forall|qi: int| 0 <= qi < queue.len() ==> #[trigger] queue[qi] < n,
            forall|qi: int| 0 <= qi < queue.len() ==> visited[#[trigger] queue[qi] as int],
            forall|x: int| 0 <= x < n && visited[x] ==> reaches(*g, x, t as int),
            forall|x: int, k: int|
                0 <= x < n && visited[x] && !queue_has(queue@, x) && 0 <= k
                    < g.nodes[x].caller_labels.len() ==> visited[
                    #[trigger] g.nodes[x].caller_labels[k] as int
                ],
        decreases n - count_true(visited@), queue.len(),
    {
        proof {
            lemma_count_true_le(visited@);
        }
        let ghost q_before = queue@;
        let ghost v_before = visited@;
        match queue.pop() {
            None => {
                proof {
                    assert forall|x: int|
                        0 <= x < n && !visited[x] implies !reaches(*g, x, t as int) by {
                        if reaches(*g, x, t as int) {
                            let p = choose|p: Seq<int>|
                                is_call_path(*g, p, t as int) && p.first() == x;
                            lemma_closed_covers_path(*g, visited@, t as int, p);
                        }
                    }
                }
                return visited;
            },
            Some(x) => {
                proof {
                    // dropping the last queue element only removes `x`
                    assert forall|y: int|
                        queue_has(q_before, y) implies queue_has(queue@, y) || y == x as int by {
                        let qi = choose|qi: int|
                            0 <= qi < q_before.len() && #[trigger] q_before[qi] as int == y;
                        if qi < q_before.len() - 1 {
                            assert(queue@[qi] as int == y);
                        }
                    }
                }
                let mut k: usize = 0;
                let callers_len = g.nodes[x].caller_labels.len();
                while k < callers_len
                    invariant
                        g.wf(),
                        t < n,
                        n == g.nodes.len(),
                        visited.len() == n,
                        visited[t as int],
                        x < n,
                        visited[x as int],
                        callers_len == g.nodes[x as int].caller_labels.len(),
                        k <= callers_len,
                        forall|qi: int| 0 <= qi < queue.len() ==> #[trigger] queue[qi] < n,
                        forall|qi: int|
                            0 <= qi < queue.len() ==> visited[#[trigger] queue[qi] as int],
                        forall|y: int| 0 <= y < n && visited[y] ==> reaches(*g, y, t as int),
                        forall|y: int, k2: int|
                            0 <= y < n && visited[y] && !queue_has(queue@, y) && y != x && 0 <= k2
                                < g.nodes[y].caller_labels.len() ==> visited[
                                #[trigger] g.nodes[y].caller_labels[k2] as int
                            ],
                        forall|k2: int|
                            0 <= k2 < k ==> visited[
                                #[trigger] g.nodes[x as int].caller_labels[k2] as int
                            ],
                        // progress: what was visited stays visited, and
                        // anything newly visited makes the measure drop
                        count_true(visited@) >= count_true(v_before),
                        count_true(visited@) <= n,
                        queue.len() > q_before.len() - 1 ==> count_true(visited@) > count_true(
                            v_before,
                        ),
                        queue.len() >= q_before.len() - 1,
                    decreases callers_len - k,
                {
                    let c = g.nodes[x].caller_labels[k];
                    if !visited[c] {
                        let ghost v_mid = visited@;
                        let ghost q_mid = queue@;
                        visited[c] = true;
                        queue.push(c);
                        proof {
                            lemma_count_true_lt(v_mid, c as int);
                            lemma_count_true_update(v_mid, c as int);
                            lemma_reaches_step(*g, c as int, x as int, t as int);
                            assert forall|y: int|
                                0 <= y < n && visited[y] implies reaches(*g, y, t as int) by {
                                if y != c as int {
                                    assert(v_mid[y]);
                                }
                            }
                            assert forall|y: int, k2: int|
                                0 <= y < n && visited[y] && !queue_has(queue@, y) && y != x as int
                                    && 0 <= k2 < g.nodes[y].caller_labels.len() implies visited[
                                #[trigger] g.nodes[y].caller_labels[k2] as int
                            ] by {
                                if y == c as int {
                                    assert(queue@[queue@.len() - 1] as int == y);
                                    assert(queue_has(queue@, y));
                                } else {
                                    assert(v_mid[y]);
                                    assert(!queue_has(q_mid, y)) by {
                                        if queue_has(q_mid, y) {
                                            let qi = choose|qi: int|
                                                0 <= qi < q_mid.len() && #[trigger] q_mid[qi] as int
                                                    == y;
                                            assert(queue@[qi] as int == y);
                                        }
                                    }
                                    assert(v_mid[g.nodes[y].caller_labels[k2] as int]);
                                }
                            }
                        }
                    }
                    k = k + 1;
                }
                proof {
                    // x's callers are now all visited, so dropping x from
                    // the queue keeps the visited set closed
                    assert forall|y: int, k2: int|
                        0 <= y < n && visited[y] && !queue_has(queue@, y) && 0 <= k2
                            < g.nodes[y].caller_labels.len() implies visited[
                        #[trigger] g.nodes[y].caller_labels[k2] as int
                    ] by {
                        if y != x as int {
                        }
                    }
                }
            },
        }
    }
}

} // verus!

verus! {

pub use crate::strings::replace_dashes;
pub use crate::strings::spec_underscored;

/// The label belongs to the target namespace: after any leading `<` signs
/// (from trait-impl notation) it starts with the crate prefix followed by
/// `::`.
pub open spec fn in_namespace(label: Seq<char>, prefix: Seq<char>) -> bool {
    exists|k: int|
        0 <= k && k + prefix.len() + 2 <= label.len() && (forall|j: int|
            0 <= j < k ==> #[trigger] label[j] == '<') && #[trigger] label.subrange(
            k,
            k + prefix.len() as int,
        ) == prefix && label[k + prefix.len()] == ':' && label[k + prefix.len() + 1] == ':'
}

/// Node `i` is a tainted origin: its canonical label matches the canonical
/// form of one of the scanner's tainted names.
pub open spec fn tainted_node(g: CallGraph, names: Seq<Seq<char>>, i: int) -> bool {
    0 <= i < g.nodes.len() && exists|m: int|
        0 <= m < names.len() && g.nodes[i].short_label@ == crate::canon::spec_canonical(
            #[trigger] names[m],
        )
}

/// The tainted origins among the first `n` nodes, in ascending order.
pub open spec fn taint_origins_upto(g: CallGraph, names: Seq<Seq<char>>, n: int) -> Seq<int>
    decreases n,
{
    if n <= 0 {
        Seq::empty()
    } else {
        let rest = taint_origins_upto(g, names, n - 1);
        if tainted_node(g, names, n - 1) {
            rest.push(n - 1)
        } else {
            rest
        }
    }
}

/// All tainted origins of the graph, in ascending order.
pub open spec fn taint_origins(g: CallGraph, names: Seq<Seq<char>>) -> Seq<int> {
    taint_origins_upto(g, names, g.nodes.len() as int)
}

/// Some node with canonical label `c` can reach the origin `t`.
pub open spec fn origin_reaches_label(g: CallGraph, t: int, c: Seq<char>) -> bool {
    exists|i: int|
        0 <= i < g.nodes.len() && #[trigger] g.nodes[i].short_label@ == c && reaches(g, i, t)
}

/// How many of the given origins some node with canonical label `c` can
/// reach: each origin contributes at most one, however many nodes share the
/// label and however many call paths lead there.
pub open spec fn badness_count(g: CallGraph, origins: Seq<int>, c: Seq<char>) -> nat
    decreases origins.len(),
{
    if origins.len() == 0 {
        0
    } else {
        badness_count(g, origins.drop_last(), c) + if origin_reaches_label(g, origins.last(), c) {
            1nat
        } else {
            0nat
        }
    }
}

/// The badness of canonical label `c`: the number of distinct tainted
/// origins reachable from nodes carrying `c`.
pub open spec fn spec_badness(g: CallGraph, names: Seq<Seq<char>>, c: Seq<char>) -> nat {
    badness_count(g, taint_origins(g, names), c)
}

/// The count is bounded by the number of origins.
pub proof fn lemma_badness_count_le(g: CallGraph, origins: Seq<int>, c: Seq<char>)
    ensures
        badness_count(g, origins, c) <= origins.len(),
    decreases origins.len(),
{
    if origins.len() > 0 {
        lemma_badness_count_le(g, origins.drop_last(), c);
    }
}

/// One row of the badness map: a canonical label, its badness, and the
/// location of one representative node, when debug information had one.
pub struct BadnessEntry {
    /// The canonical label.
    pub label: String,
    /// The number of distinct tainted origins this label can reach.
    pub badness: usize,
    /// The location of one node carrying this label.
    pub debugloc: Option<SourceLoc>,
}

/// No two entries share a label.
pub open spec fn unique_labels(entries: Seq<BadnessEntry>) -> bool {
    forall|q1: int, q2: int|
        0 <= q1 < q2 < entries.len() ==> #[trigger] entries[q1].label@ != #[trigger] entries[q2].label@
}

/// Some entry carries the label `c`.
pub open spec fn has_entry(entries: Seq<BadnessEntry>, c: Seq<char>) -> bool {
    exists|q: int| 0 <= q < entries.len() && #[trigger] entries[q].label@ == c
}

/// The badness recorded for `c`: the entry's count, or zero without one.
pub open spec fn label_badness(entries: Seq<BadnessEntry>, c: Seq<char>) -> nat
    decreases entries.len(),
{
    if entries.len() == 0 {
        0
    } else if entries.last().label@ == c {
        entries.last().badness as nat
    } else {
        label_badness(entries.drop_last(), c)
    }
}

/// A label with no entry has badness zero.
proof fn lemma_label_badness_absent(entries: Seq<BadnessEntry>, c: Seq<char>)
    requires
        !has_entry(entries, c),
    ensures
        label_badness(entries, c) == 0,
    decreases entries.len(),
{
    if entries.len() > 0 {
        assert(entries.last().label@ != c) by {
            assert(entries[entries.len() - 1] == entries.last());
        }
        assert(!has_entry(entries.drop_last(), c)) by {
            if has_entry(entries.drop_last(), c) {
                let q = choose|q: int|
                    0 <= q < entries.drop_last().len() && #[trigger] entries.drop_last()[q].label@
                        == c;
                assert(entries[q].label@ == c);
            }
        }
        lemma_label_badness_absent(entries.drop_last(), c);
    }
}

/// With unique labels, the recorded badness is the entry's own count.
proof fn lemma_label_badness_at(entries: Seq<BadnessEntry>, c: Seq<char>, q: int)
    requires
        unique_labels(entries),
        0 <= q < entries.len(),
        entries[q].label@ == c,
    ensures
        label_badness(entries, c) == entries[q].badness as nat,
    decreases entries.len(),
{
    if q == entries.len() - 1 {
    } else {
        assert(entries.last().label@ != c) by {
            assert(entries[entries.len() - 1] == entries.last());
        }
        assert(unique_labels(entries.drop_last())) by {
            assert forall|q1: int, q2: int|
                0 <= q1 < q2 < entries.drop_last().len() implies #[trigger] entries.drop_last()[q1].label@
                != #[trigger] entries.drop_last()[q2].label@ by {
                assert(entries[q1].label@ != entries[q2].label@);
            }
        }
        assert(entries.drop_last()[q] == entries[q]);
        lemma_label_badness_at(entries.drop_last(), c, q);
    }
}

/// Replacing one entry with one of the same label moves the recorded
/// badness of that label alone.
proof fn lemma_label_badness_update(
    entries: Seq<BadnessEntry>,
    q: int,
    e2: BadnessEntry,
    c: Seq<char>,
)
    requires
        unique_labels(entries),
        0 <= q < entries.len(),
        e2.label@ == entries[q].label@,
    ensures
        unique_labels(entries.update(q, e2)),
        label_badness(entries.update(q, e2), c) == if c == entries[q].label@ {
            e2.badness as nat
        } else {
            label_badness(entries, c)
        },
        forall|c2: Seq<char>| has_entry(entries.update(q, e2), c2) == has_entry(entries, c2),
{
    let u = entries.update(q, e2);
    assert(unique_labels(u)) by {
        assert forall|q1: int, q2: int|
            0 <= q1 < q2 < u.len() implies #[trigger] u[q1].label@ != #[trigger] u[q2].label@ by {
            assert(u[q1].label@ == entries[q1].label@);
            assert(u[q2].label@ == entries[q2].label@);
            assert(entries[q1].label@ != entries[q2].label@);
        }
    }
    assert forall|c2: Seq<char>| has_entry(u, c2) == has_entry(entries, c2) by {
        if has_entry(u, c2) {
            let q2 = choose|q2: int| 0 <= q2 < u.len() && #[trigger] u[q2].label@ == c2;
            assert(entries[q2].label@ == c2);
        }
        if has_entry(entries, c2) {
            let q2 = choose|q2: int| 0 <= q2 < entries.len() && #[trigger] entries[q2].label@ == c2;
            assert(u[q2].label@ == c2);
        }
    }
    if c == entries[q].label@ {
        lemma_label_badness_at(u, c, q);
    } else {
        if has_entry(entries, c) {
            let q2 = choose|q2: int| 0 <= q2 < entries.len() && #[trigger] entries[q2].label@ == c;
            assert(q2 != q);
            assert(u[q2] == entries[q2]);
            lemma_label_badness_at(entries, c, q2);
            lemma_label_badness_at(u, c, q2);
        } else {
            lemma_label_badness_absent(entries, c);
            assert(!has_entry(u, c));
            lemma_label_badness_absent(u, c);
        }
    }
}

/// Appending an entry records its label and count and nothing else.
proof fn lemma_label_badness_push(entries: Seq<BadnessEntry>, e: BadnessEntry, c: Seq<char>)
    ensures
        label_badness(entries.push(e), c) == if e.label@ == c {
            e.badness as nat
        } else {
            label_badness(entries, c)
        },
        forall|c2: Seq<char>|
            has_entry(entries.push(e), c2) == (has_entry(entries, c2) || e.label@ == c2),
{
    assert(entries.push(e).drop_last() =~= entries);
    assert(entries.push(e).last() == e);
    assert forall|c2: Seq<char>|
        has_entry(entries.push(e), c2) == (has_entry(entries, c2) || e.label@ == c2) by {
        if has_entry(entries.push(e), c2) {
            let q = choose|q: int|
                0 <= q < entries.push(e).len() && #[trigger] entries.push(e)[q].label@ == c2;
            if q < entries.len() {
                assert(entries[q].label@ == c2);
            }
        }
        if has_entry(entries, c2) {
            let q = choose|q: int| 0 <= q < entries.len() && #[trigger] entries[q].label@ == c2;
            assert(entries.push(e)[q].label@ == c2);
        }
        if e.label@ == c2 {
            assert(entries.push(e)[entries.len() as int].label@ == c2);
        }
    }
}

/// Every entry's location, when present, is the debug location of some node
/// carrying the entry's canonical label.
pub open spec fn entries_loc_ok(g: CallGraph, entries: Seq<BadnessEntry>) -> bool {
    forall|q: int|
        0 <= q < entries.len() && (#[trigger] entries[q]).debugloc is Some ==> exists|i: int|
            0 <= i < g.nodes.len() && #[trigger] g.nodes[i].short_label@ == entries[q].label@
                && g.nodes[i].debugloc == entries[q].debugloc
}

/// The exec mirror of `in_namespace`.
pub fn label_in_namespace(label: &str, prefix: &str) -> (r: bool)
    ensures
        r == in_namespace(label@, prefix@),
{
    let n = label.unicode_len();
    let m = prefix.unicode_len();
    let mut k: usize = 0;
    loop
        invariant
            n == label@.len(),
            m == prefix@.len(),
            k <= n,
            forall|j: int| 0 <= j < k ==> #[trigger] label@[j] == '<',
            forall|k2: int|
                0 <= k2 < k ==> !(k2 + m + 2 <= n && #[trigger] label@.subrange(k2, k2 + m as int)
                    == prefix@ && label@[k2 + m] == ':' && label@[k2 + m + 1] == ':'),
        decreases n - k,
    {
        if m <= n && 2 <= n - m && k <= n - m - 2 {
            let mut j: usize = 0;
            let mut matched = true;
            while j < m
                invariant
                    n == label@.len(),
                    m == prefix@.len(),
                    k + m + 2 <= n,
                    j <= m,
                    matched <==> (forall|j2: int| 0 <= j2 < j ==> label@[k + j2] == prefix@[j2]),
                decreases m - j,
            {
                if label.get_char(k + j) != prefix.get_char(j) {
                    matched = false;
                    j = m;
                } else {
                    j = j + 1;
                }
            }
            if matched && label.get_char(k + m) == ':' && label.get_char(k + m + 1) == ':' {
                proof {
                    assert(label@.subrange(k as int, k + m) =~= prefix@);
                    assert(in_namespace(label@, prefix@));
                }
                return true;
            }
            proof {
                if label@.subrange(k as int, k + m) == prefix@ && label@[k + m] == ':' && label@[k
                    + m + 1] == ':' {
                    let j2 = choose|j2: int| 0 <= j2 < m && label@[k + j2] != prefix@[j2];
                    assert(label@.subrange(k as int, k + m)[j2] == label@[k + j2]);
                }
            }
        }
        if k >= n || label.get_char(k) != '<' {
            proof {
                assert(!in_namespace(label@, prefix@)) by {
                    if in_namespace(label@, prefix@) {
                        let k2 = choose|k2: int|
                            0 <= k2 && k2 + m + 2 <= n && (forall|j: int|
                                0 <= j < k2 ==> #[trigger] label@[j] == '<')
                                && #[trigger] label@.subrange(k2, k2 + m as int) == prefix@
                                && label@[k2 + m] == ':' && label@[k2 + m + 1] == ':';
                        if k2 > k {
                            assert(label@[k as int] == '<');
                        }
                    }
                }
            }
            return false;
        }
        k = k + 1;
    }
}

} // verus!

verus! {

/// Some element of `s` views to `c`.
pub open spec fn names_has(s: Seq<String>, c: Seq<char>) -> bool {
    exists|m: int| 0 <= m < s.len() && #[trigger] s[m]@ == c
}

/// Canonicalizes every tainted name once.
fn canonical_names(names: &Vec<String>) -> (r: Vec<String>)
    ensures
        r.len() == names.len(),
        forall|m: int| 0 <= m < names.len() ==> #[trigger] r[m]@ == crate::canon::spec_canonical(
            names.deep_view()[m],
        ),
{
    let mut r: Vec<String> = Vec::new();
    let mut m: usize = 0;
    while m < names.len()
        invariant
            m <= names.len(),
            r.len() == m,
            forall|m2: int| 0 <= m2 < m ==> #[trigger] r[m2]@ == crate::canon::spec_canonical(
                names.deep_view()[m2],
            ),
        decreases names.len() - m,
    {
        r.push(crate::canon::canonicalize(names[m].as_str()));
        proof {
            assert(names.deep_view()[m as int] == names[m as int]@);
        }
        m = m + 1;
    }
    r
}

/// Whether some element of `v` equals `s`.
fn contains_str(v: &Vec<String>, s: &String) -> (r: bool)
    ensures
        r == exists|m: int| 0 <= m < v.len() && #[trigger] v[m]@ == s@,
{
    let mut m: usize = 0;
    while m < v.len()
        invariant
            m <= v.len(),
            forall|m2: int| 0 <= m2 < m ==> #[trigger] v[m2]@ != s@,
        decreases v.len() - m,
    {
        if v[m] == *s {
            return true;
        }
        m = m + 1;
    }
    false
}

/// The index of the entry carrying this label, if there is one.
fn find_entry(acc: &Vec<BadnessEntry>, label: &String) -> (r: Option<usize>)
    ensures
        match r {
            Some(j) => j < acc.len() && acc[j as int].label@ == label@,
            None => !has_entry(acc@, label@),
        },
{
    let mut j: usize = 0;
    while j < acc.len()
        invariant
            j <= acc.len(),
            forall|q: int| 0 <= q < j ==> #[trigger] acc[q].label@ != label@,
        decreases acc.len() - j,
    {
        if acc[j].label == *label {
            return Some(j);
        }
        j = j + 1;
    }
    None
}

/// Resolves the tainted names to graph nodes: every node whose canonical
/// label matches the canonical form of one of the names, in ascending
/// order of node index.
fn taint_origin_ids(g: &CallGraph, names: &Vec<String>) -> (ids: Vec<usize>)
    requires
        g.wf(),
    ensures
        ids@.map_values(|u: usize| u as int) == taint_origins(*g, names.deep_view()),
        forall|q: int| 0 <= q < ids.len() ==> #[trigger] ids[q] < g.nodes.len(),
{
    let canon = canonical_names(names);
    let mut ids: Vec<usize> = Vec::new();
    let mut i: usize = 0;
    while i < g.nodes.len()
        invariant
            g.wf(),
            canon.len() == names.len(),
            forall|m: int| 0 <= m < names.len() ==> #[trigger] canon[m]@
                == crate::canon::spec_canonical(names.deep_view()[m]),
            i <= g.nodes.len(),
            ids@.map_values(|u: usize| u as int) == taint_origins_upto(
                *g,
                names.deep_view(),
                i as int,
            ),
            forall|q: int| 0 <= q < ids.len() ==> #[trigger] ids[q] < g.nodes.len(),
        decreases g.nodes.len() - i,
    {
        let ghost before = ids@.map_values(|u: usize| u as int);
        if contains_str(&canon, &g.nodes[i].short_label) {
            ids.push(i);
            proof {
                assert(tainted_node(*g, names.deep_view(), i as int)) by {
                    let m = choose|m: int|
                        0 <= m < canon.len() && #[trigger] canon[m]@ == g.nodes[i as int].short_label@;
                    assert(g.nodes[i as int].short_label@ == crate::canon::spec_canonical(
                        names.deep_view()[m],
                    ));
                }
                assert(ids@.map_values(|u: usize| u as int) =~= before.push(i as int));
            }
        } else {
            proof {
                assert(!tainted_node(*g, names.deep_view(), i as int)) by {
                    if tainted_node(*g, names.deep_view(), i as int) {
                        let m = choose|m: int|
                            0 <= m < names.deep_view().len() && g.nodes[i as int].short_label@
                                == crate::canon::spec_canonical(#[trigger] names.deep_view()[m]);
                        assert(canon[m]@ == g.nodes[i as int].short_label@);
                    }
                }
            }
        }
        i = i + 1;
    }
    ids
}

/// Credits one tainted origin: every canonical label carried by a node
/// that can reach `t` has its badness raised by one, exactly once, however
/// many nodes share the label.
fn count_origin(acc: &mut Vec<BadnessEntry>, g: &CallGraph, t: usize, Ghost(bound): Ghost<nat>)
    requires
        g.wf(),
        t < g.nodes.len(),
        unique_labels(old(acc)@),
        entries_loc_ok(*g, old(acc)@),
        forall|q: int| 0 <= q < old(acc).len() ==> (#[trigger] old(acc)[q].badness as nat) <= bound,
        bound + 1 <= usize::MAX,
    ensures
        unique_labels(final(acc)@),
        entries_loc_ok(*g, final(acc)@),
        forall|q: int| 0 <= q < final(acc).len() ==> (#[trigger] final(acc)[q].badness as nat)
            <= bound + 1,
        forall|c: Seq<char>|
            label_badness(final(acc)@, c) == label_badness(old(acc)@, c) + (
            if origin_reaches_label(*g, t as int, c) {
                1nat
            } else {
                0nat
            }),
        forall|c: Seq<char>|
            has_entry(final(acc)@, c) <==> has_entry(old(acc)@, c) || origin_reaches_label(
                *g,
                t as int,
                c,
            ),
{
    let visited = reachable_from(g, t);
    let ghost acc0 = old(acc)@;
    let mut seen: Vec<String> = Vec::new();
    let n = g.nodes.len();
    let mut i: usize = 0;
    while i < n
        invariant
            g.wf(),
            t < n,
            n == g.nodes.len(),
            visited.len() == n,
            forall|i2: int| 0 <= i2 < n ==> (visited[i2] <==> reaches(*g, i2, t as int)),
            i <= n,
            unique_labels(acc@),
            entries_loc_ok(*g, acc@),
            forall|q: int| 0 <= q < acc.len() ==> (#[trigger] acc[q].badness as nat) <= bound + 1,
            bound + 1 <= usize::MAX,
            forall|q: int| 0 <= q < acc0.len() ==> (#[trigger] acc0[q].badness as nat) <= bound,
            forall|c: Seq<char>|
                #[trigger] names_has(seen@, c) <==> (exists|i2: int|
                    0 <= i2 < i && visited[i2] && #[trigger] g.nodes[i2].short_label@ == c),
            forall|c: Seq<char>|
                #[trigger] label_badness(acc@, c) == label_badness(acc0, c) + (
                if names_has(seen@, c) {
                    1nat
                } else {
                    0nat
                }),
            forall|c: Seq<char>|
                #[trigger] has_entry(acc@, c) <==> has_entry(acc0, c) || names_has(seen@, c),
        decreases n - i,
    {
        if visited[i] {
            let lab = g.nodes[i].short_label.clone();
            if !contains_str(&seen, &lab) {
                let ghost seen_before = seen@;
                let ghost acc_before = acc@;
                seen.push(lab.clone());
                proof {
                    assert forall|c: Seq<char>|
                        #[trigger] names_has(seen@, c) <==> (names_has(seen_before, c) || c
                            == lab@) by {
                        if names_has(seen@, c) {
                            let m = choose|m: int|
                                0 <= m < seen@.len() && #[trigger] seen@[m]@ == c;
                            if m < seen_before.len() {
                                assert(seen_before[m]@ == c);
                            }
                        }
                        if names_has(seen_before, c) {
                            let m = choose|m: int|
                                0 <= m < seen_before.len() && #[trigger] seen_before[m]@ == c;
                            assert(seen@[m]@ == c);
                        }
                        if c == lab@ {
                            assert(seen@[seen@.len() - 1]@ == c);
                        }
                    }
                }
                match find_entry(acc, &lab) {
                    Some(j) => {

                        proof {
                            lemma_label_badness_at(acc@, lab@, j as int);
                            // this label was not credited for this origin yet,
                            // so its count is still the base count, which is
                            // bounded
                            assert(!names_has(seen_before, lab@));
                            assert(label_badness(acc@, lab@) == label_badness(acc0, lab@));
                            lemma_label_badness_bound(acc0, lab@, bound);
                            assert(acc@[j as int].badness as nat <= bound);
                        }
                        let new_badness = acc[j].badness + 1;
                        let loc = crate::graph::clone_opt_loc(&acc[j].debugloc);
                        let lab2 = acc[j].label.clone();
                        let e2 = BadnessEntry { label: lab2, badness: new_badness, debugloc: loc };
                        acc[j] = e2;
                        proof {
                            assert forall|c: Seq<char>|
                                label_badness(acc@, c) == label_badness(acc_before, c) + (
                                if c == lab@ {
                                    1nat
                                } else {
                                    0nat
                                }) by {
                                lemma_label_badness_update(acc_before, j as int, acc@[j as int], c);
                                if c != lab@ {
                                } else {
                                    lemma_label_badness_at(acc_before, c, j as int);
                                }
                            }
                            lemma_label_badness_update(acc_before, j as int, acc@[j as int], lab@);
                            assert(acc@[j as int].label@ == lab@);
                            assert(has_entry(acc@, lab@));
                            assert(has_entry(acc_before, lab@));
                            assert forall|c: Seq<char>|
                                has_entry(acc@, c) <==> has_entry(acc0, c) || names_has(seen@, c) by {
                                if has_entry(acc@, c) {
                                    let q = choose|q: int|
                                        0 <= q < acc@.len() && #[trigger] acc@[q].label@ == c;
                                    assert(acc_before[q].label@ == c);
                                    assert(has_entry(acc_before, c));
                                }
                                if has_entry(acc0, c) || names_has(seen_before, c) {
                                    assert(has_entry(acc_before, c));
                                    let q = choose|q: int|
                                        0 <= q < acc_before.len() && #[trigger] acc_before[q].label@
                                            == c;
                                    assert(acc@[q].label@ == c);
                                    assert(has_entry(acc@, c));
                                }
                                if c == lab@ {
                                    assert(has_entry(acc@, c));
                                    assert(names_has(seen@, c));
                                }
                            }
                            assert(entries_loc_ok(*g, acc@)) by {
                                assert forall|q: int|
                                    0 <= q < acc.len() && (#[trigger] acc[q]).debugloc is Some implies exists|i2: int|
                                    0 <= i2 < g.nodes.len() && #[trigger] g.nodes[i2].short_label@
                                        == acc[q].label@ && g.nodes[i2].debugloc == acc[q].debugloc by {
                                    if q == j {
                                        assert(acc_before[q].debugloc is Some);
                                        assert(acc_before[q].label@ == acc[q].label@);
                                    } else {
                                        assert(acc_before[q] == acc[q]);
                                    }
                                }
                            }
                        }
                    },
                    None => {
                        proof {
                            lemma_label_badness_absent(acc_before, lab@);
                        }
                        let loc = crate::graph::clone_opt_loc(&g.nodes[i].debugloc);
                        let e = BadnessEntry { label: lab, badness: 1, debugloc: loc };
                        acc.push(e);
                        proof {
                            lemma_label_badness_push(acc_before, acc@[acc@.len() - 1], lab@);
                            assert forall|c: Seq<char>|
                                has_entry(acc@, c) <==> has_entry(acc0, c) || names_has(seen@, c) by {
                                if has_entry(acc@, c) {
                                    let q = choose|q: int|
                                        0 <= q < acc@.len() && #[trigger] acc@[q].label@ == c;
                                    if q < acc_before.len() {
                                        assert(acc_before[q].label@ == c);
                                        assert(has_entry(acc_before, c));
                                    } else {
                                        assert(c == lab@);
                                    }
                                }
                                if has_entry(acc0, c) || names_has(seen_before, c) {
                                    assert(has_entry(acc_before, c));
                                    let q = choose|q: int|
                                        0 <= q < acc_before.len() && #[trigger] acc_before[q].label@
                                            == c;
                                    assert(acc@[q].label@ == c);
                                    assert(has_entry(acc@, c));
                                }
                                if c == lab@ {
                                    assert(acc@[acc@.len() - 1].label@ == c);
                                    assert(has_entry(acc@, c));
                                    assert(names_has(seen@, c));
                                }
                            }
                            assert forall|c: Seq<char>|
                                label_badness(acc@, c) == label_badness(acc_before, c) + (
                                if c == lab@ {
                                    1nat
                                } else {
                                    0nat
                                }) by {
                                lemma_label_badness_push(acc_before, acc@[acc@.len() - 1], c);
                                if c == lab@ {
                                    assert(label_badness(acc_before, c) == 0);
                                }
                            }
                            assert(unique_labels(acc@)) by {
                                assert forall|q1: int, q2: int|
                                    0 <= q1 < q2 < acc.len() implies #[trigger] acc[q1].label@
                                    != #[trigger] acc[q2].label@ by {
                                    if q2 == acc.len() - 1 {
                                        assert(!has_entry(acc_before, lab@));
                                        assert(acc_before[q1].label@ != lab@);
                                    } else {
                                        assert(acc_before[q1].label@ != acc_before[q2].label@);
                                    }
                                }
                            }
                            assert(entries_loc_ok(*g, acc@)) by {
                                assert forall|q: int|
                                    0 <= q < acc.len() && (#[trigger] acc[q]).debugloc is Some implies exists|i2: int|
                                    0 <= i2 < g.nodes.len() && #[trigger] g.nodes[i2].short_label@
                                        == acc[q].label@ && g.nodes[i2].debugloc == acc[q].debugloc by {
                                    if q == acc.len() - 1 {
                                        assert(g.nodes[i as int].short_label@ == acc[q].label@);
                                        assert(g.nodes[i as int].debugloc == acc[q].debugloc);
                                    } else {
                                        assert(acc_before[q] == acc[q]);
                                    }
                                }
                            }
                        }
                    },
                }
            }
        }
        i = i + 1;
    }
    proof {
        assert forall|c: Seq<char>|
            #[trigger] names_has(seen@, c) <==> origin_reaches_label(
            *g,
            t as int,
            c,
        ) by {
            if names_has(seen@, c) {
                let i2 = choose|i2: int|
                    0 <= i2 < n && visited[i2] && #[trigger] g.nodes[i2].short_label@ == c;
                assert(reaches(*g, i2, t as int));
            }
            if origin_reaches_label(*g, t as int, c) {
                let i2 = choose|i2: int|
                    0 <= i2 < g.nodes.len() && #[trigger] g.nodes[i2].short_label@ == c && reaches(
                        *g,
                        i2,
                        t as int,
                    );
                assert(visited[i2]);
            }
        }
    }
}

/// The recorded badness never exceeds the largest entry count.
proof fn lemma_label_badness_bound(entries: Seq<BadnessEntry>, c: Seq<char>, bound: nat)
    requires
        forall|q: int| 0 <= q < entries.len() ==> (#[trigger] entries[q].badness as nat) <= bound,
    ensures
        label_badness(entries, c) <= bound,
    decreases entries.len(),
{
    if entries.len() > 0 {
        assert(entries[entries.len() - 1] == entries.last());
        lemma_label_badness_bound(entries.drop_last(), c, bound);
    }
}

} // verus!

verus! {

/// The taint propagation engine: resolves the scanner's tainted names to
/// graph nodes, credits every canonical label that can reach each tainted
/// origin with one unit of badness per origin, and keeps only the labels of
/// the target crate's own namespace.
///
/// Every returned entry's count is exactly the number of distinct tainted
/// origins reachable from nodes carrying its label, every such label of the
/// target namespace is returned, and no label outside the namespace is.
pub fn trace_unsafety(
    callgraph: &CallGraph,
    crate_name: &str,
    tainted_function_names: &Vec<String>,
) -> (r: Vec<BadnessEntry>)
    requires
        callgraph.wf(),
    ensures
        unique_labels(r@),
        entries_loc_ok(*callgraph, r@),
        forall|q: int|
            0 <= q < r.len() ==> in_namespace(
                (#[trigger] r[q]).label@,
                spec_underscored(crate_name@),
            ) && r[q].badness as nat == spec_badness(
                *callgraph,
                tainted_function_names.deep_view(),
                r[q].label@,
            ) && r[q].badness >= 1,
        forall|c: Seq<char>|
            in_namespace(c, spec_underscored(crate_name@)) && spec_badness(
                *callgraph,
                tainted_function_names.deep_view(),
                c,
            ) > 0 ==> has_entry(r@, c),
{
    let ghost names = tainted_function_names.deep_view();
    let ghost origins = taint_origins(*callgraph, names);
    let ids = taint_origin_ids(callgraph, tainted_function_names);
    let mut acc: Vec<BadnessEntry> = Vec::new();
    let mut o: usize = 0;
    while o < ids.len()
        invariant
            callgraph.wf(),
            names == tainted_function_names.deep_view(),
            origins == taint_origins(*callgraph, names),
            ids@.map_values(|u: usize| u as int) == origins,
            forall|q: int| 0 <= q < ids.len() ==> #[trigger] ids[q] < callgraph.nodes.len(),
            o <= ids.len(),
            unique_labels(acc@),
            entries_loc_ok(*callgraph, acc@),
            forall|c: Seq<char>|
                #[trigger] label_badness(acc@, c) == badness_count(
                    *callgraph,
                    origins.take(o as int),
                    c,
                ),
            forall|c: Seq<char>|
                #[trigger] has_entry(acc@, c) <==> badness_count(
                    *callgraph,
                    origins.take(o as int),
                    c,
                ) > 0,
            forall|q: int| 0 <= q < acc.len() ==> (#[trigger] acc[q].badness as nat) <= o,
        decreases ids.len() - o,
    {
        let ghost acc_before = acc@;
        proof {
            assert forall|q: int|
                0 <= q < acc.len() implies (#[trigger] acc[q].badness as nat) <= o as nat by {}
        }
        count_origin(&mut acc, callgraph, ids[o], Ghost(o as nat));
        proof {
            let t = origins[o as int];
            assert(t == ids[o as int] as int);
            assert(origins.take(o + 1 as int).drop_last() =~= origins.take(o as int));
            assert(origins.take(o + 1 as int).last() == t);
            assert forall|c: Seq<char>|
                #[trigger] label_badness(acc@, c) == badness_count(
                    *callgraph,
                    origins.take(o + 1 as int),
                    c,
                ) by {
                assert(label_badness(acc_before, c) == badness_count(
                    *callgraph,
                    origins.take(o as int),
                    c,
                ));
            }
            assert forall|c: Seq<char>|
                #[trigger] has_entry(acc@, c) <==> badness_count(
                    *callgraph,
                    origins.take(o + 1 as int),
                    c,
                ) > 0 by {
                assert(has_entry(acc_before, c) <==> badness_count(
                    *callgraph,
                    origins.take(o as int),
                    c,
                ) > 0);
            }
        }
        o = o + 1;
    }
    proof {
        assert(origins.take(ids.len() as int) =~= origins);
    }
    let prefix = replace_dashes(crate_name);
    let mut out: Vec<BadnessEntry> = Vec::new();
    let mut q: usize = 0;
    while q < acc.len()
        invariant
            callgraph.wf(),
            names == tainted_function_names.deep_view(),
            origins == taint_origins(*callgraph, names),
            prefix@ == spec_underscored(crate_name@),
            q <= acc.len(),
            unique_labels(acc@),
            entries_loc_ok(*callgraph, acc@),
            forall|c: Seq<char>|
                #[trigger] label_badness(acc@, c) == badness_count(*callgraph, origins, c),
            forall|c: Seq<char>|
                #[trigger] has_entry(acc@, c) <==> badness_count(*callgraph, origins, c) > 0,
            unique_labels(out@),
            forall|p: int|
                0 <= p < out.len() ==> exists|q2: int|
                    0 <= q2 < q && (#[trigger] out[p]).label@ == acc[q2].label@ && out[p].badness
                        == acc[q2].badness && out[p].debugloc == acc[q2].debugloc,
            forall|p: int|
                0 <= p < out.len() ==> in_namespace((#[trigger] out[p]).label@, prefix@),
            forall|q2: int|
                0 <= q2 < q && in_namespace((#[trigger] acc[q2]).label@, prefix@) ==> has_entry(
                    out@,
                    acc[q2].label@,
                ),
        decreases acc.len() - q,
    {
        let ghost out_before = out@;
        if label_in_namespace(acc[q].label.as_str(), prefix.as_str()) {
            let e = BadnessEntry {
                label: acc[q].label.clone(),
                badness: acc[q].badness,
                debugloc: crate::graph::clone_opt_loc(&acc[q].debugloc),
            };
            out.push(e);
            proof {
                assert(out@[out@.len() - 1].label@ == acc[q as int].label@);
                assert(unique_labels(out@)) by {
                    assert forall|p1: int, p2: int|
                        0 <= p1 < p2 < out.len() implies #[trigger] out[p1].label@
                        != #[trigger] out[p2].label@ by {
                        if p2 == out.len() - 1 {
                            let q2 = choose|q2: int|
                                0 <= q2 < q && (#[trigger] out_before[p1]).label@
                                    == acc[q2].label@ && out_before[p1].badness
                                    == acc[q2].badness && out_before[p1].debugloc
                                    == acc[q2].debugloc;
                            assert(acc[q2].label@ != acc[q as int].label@);
                        } else {
                            assert(out_before[p1].label@ != out_before[p2].label@);
                        }
                    }
                }
                assert forall|q2: int|
                    0 <= q2 < q + 1 && in_namespace(
                        (#[trigger] acc[q2]).label@,
                        prefix@,
                    ) implies has_entry(out@, acc[q2].label@) by {
                    if q2 == q {
                        assert(out@[out@.len() - 1].label@ == acc[q2].label@);
                    } else {
                        assert(has_entry(out_before, acc[q2].label@));
                        let p = choose|p: int|
                            0 <= p < out_before.len() && #[trigger] out_before[p].label@
                                == acc[q2].label@;
                        assert(out@[p].label@ == acc[q2].label@);
                    }
                }
            }
        } else {
            proof {
                assert forall|q2: int|
                    0 <= q2 < q + 1 && in_namespace(
                        (#[trigger] acc[q2]).label@,
                        prefix@,
                    ) implies has_entry(out@, acc[q2].label@) by {
                    if q2 < q {
                        assert(has_entry(out@, acc[q2].label@));
                    }
                }
            }
        }
        q = q + 1;
    }
    proof {
        assert forall|p: int|
            0 <= p < out.len() implies in_namespace(
            (#[trigger] out[p]).label@,
            spec_underscored(crate_name@),
        ) && out[p].badness as nat == spec_badness(*callgraph, names, out[p].label@)
            && out[p].badness >= 1 by {
            let q2 = choose|q2: int|
                0 <= q2 < acc.len() && (#[trigger] out[p]).label@ == acc[q2].label@
                    && out[p].badness == acc[q2].badness && out[p].debugloc == acc[q2].debugloc;
            lemma_label_badness_at(acc@, acc[q2 as int].label@, q2);
            assert(has_entry(acc@, acc[q2 as int].label@));
        }
        assert forall|c: Seq<char>|
            in_namespace(c, spec_underscored(crate_name@)) && spec_badness(*callgraph, names, c)
                > 0 implies has_entry(out@, c) by {
            assert(has_entry(acc@, c));
            let q2 = choose|q2: int| 0 <= q2 < acc.len() && #[trigger] acc[q2].label@ == c;
            assert(in_namespace(acc[q2].label@, spec_underscored(crate_name@)));
            assert(has_entry(out@, acc[q2].label@));
        }
        assert(entries_loc_ok(*callgraph, out@)) by {
            assert forall|p: int|
                0 <= p < out.len() && (#[trigger] out@[p]).debugloc is Some implies exists|i: int|
                0 <= i < callgraph.nodes.len() && #[trigger] callgraph.nodes[i].short_label@
                    == out@[p].label@ && callgraph.nodes[i].debugloc == out@[p].debugloc by {
                let q2 = choose|q2: int|
                    0 <= q2 < acc.len() && (#[trigger] out[p]).label@ == acc[q2].label@
                        && out[p].badness == acc[q2].badness && out[p].debugloc
                        == acc[q2].debugloc;
                assert(acc@[q2].debugloc is Some);
                let i = choose|i: int|
                    0 <= i < callgraph.nodes.len() && #[trigger] callgraph.nodes[i].short_label@
                        == acc@[q2].label@ && callgraph.nodes[i].debugloc == acc@[q2].debugloc;
                assert(callgraph.nodes[i].short_label@ == out@[p].label@);
            }
        }
    }
    out
}

} // verus!
