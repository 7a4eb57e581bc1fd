//! Laws of taint propagation.
//!
//! What the badness score guarantees: a tainted function always scores at
//! least one, callers of callers of tainted functions score, distinct
//! origins add up, a single origin is counted once however many call paths
//! (or cycles) lead to it, and nothing outside the target namespace is
//! reported.

use vstd::prelude::*;

use crate::graph::CallGraph;
use crate::taint::badness_count;
use crate::taint::direct_caller;
use crate::taint::has_entry;
use crate::taint::in_namespace;
use crate::taint::lemma_reaches_self;
use crate::taint::lemma_reaches_step;
use crate::taint::origin_reaches_label;
use crate::taint::reaches;
use crate::taint::spec_badness;
use crate::taint::spec_underscored;
use crate::taint::taint_origins;
use crate::taint::taint_origins_upto;
use crate::taint::tainted_node;
use crate::taint::BadnessEntry;

verus! {

/// The origin list enumerates node indices in strictly ascending order,
/// all below `n`.
proof fn lemma_origins_upto_range(g: CallGraph, names: Seq<Seq<char>>, n: int)
    ensures
        forall|q: int|
            0 <= q < taint_origins_upto(g, names, n).len() ==> 0 <= #[trigger] taint_origins_upto(
                g,
                names,
                n,
            )[q] < n,
        forall|q1: int, q2: int|
            0 <= q1 < q2 < taint_origins_upto(g, names, n).len() ==> taint_origins_upto(
                g,
                names,
                n,
            )[q1] < taint_origins_upto(g, names, n)[q2],
    decreases n,
{
    if n > 0 {
        lemma_origins_upto_range(g, names, n - 1);
        let prev = taint_origins_upto(g, names, n - 1);
        let cur = taint_origins_upto(g, names, n);
        assert forall|q1: int, q2: int| 0 <= q1 < q2 < cur.len() implies cur[q1] < cur[q2] by {
            if q2 < prev.len() {
                assert(cur[q1] == prev[q1] && cur[q2] == prev[q2]);
            } else {
                assert(cur[q2] == n - 1);
                assert(cur[q1] == prev[q1]);
            }
        }
    }
}

/// A tainted node appears in the origin list.
proof fn lemma_origins_upto_contains(g: CallGraph, names: Seq<Seq<char>>, n: int, t: int)
    requires
        0 <= t < n,
        tainted_node(g, names, t),
    ensures
        exists|q: int|
            0 <= q < taint_origins_upto(g, names, n).len() && #[trigger] taint_origins_upto(
                g,
                names,
                n,
            )[q] == t,
    decreases n,
{
    let cur = taint_origins_upto(g, names, n);
    if t == n - 1 {
        assert(cur[cur.len() - 1] == t);
    } else {
        lemma_origins_upto_contains(g, names, n - 1, t);
        let prev = taint_origins_upto(g, names, n - 1);
        let q = choose|q: int| 0 <= q < prev.len() && #[trigger] prev[q] == t;
        assert(cur[q] == t);
    }
}

/// One origin that some node with label `c` reaches makes the count
/// positive.
proof fn lemma_badness_count_pos(g: CallGraph, origins: Seq<int>, c: Seq<char>, q: int)
    requires
        0 <= q < origins.len(),
        origin_reaches_label(g, origins[q], c),
    ensures
        badness_count(g, origins, c) >= 1,
    decreases origins.len(),
{
    if q < origins.len() - 1 {
        assert(origins.drop_last()[q] == origins[q]);
        lemma_badness_count_pos(g, origins.drop_last(), c, q);
    }
}

/// Two distinct origins that label `c` reaches make the count at least two.
proof fn lemma_badness_count_two(g: CallGraph, origins: Seq<int>, c: Seq<char>, q1: int, q2: int)
    requires
        0 <= q1 < q2 < origins.len(),
        origin_reaches_label(g, origins[q1], c),
        origin_reaches_label(g, origins[q2], c),
    ensures
        badness_count(g, origins, c) >= 2,
    decreases origins.len(),
{
    if q2 == origins.len() - 1 {
        assert(origins.drop_last()[q1] == origins[q1]);
        lemma_badness_count_pos(g, origins.drop_last(), c, q1);
    } else {
        assert(origins.drop_last()[q1] == origins[q1]);
        assert(origins.drop_last()[q2] == origins[q2]);
        lemma_badness_count_two(g, origins.drop_last(), c, q1, q2);
    }
}

/// A tainted node's own canonical label always has badness at least one:
/// it reaches itself.
pub proof fn lemma_tainted_self_badness(g: CallGraph, names: Seq<Seq<char>>, t: int)
    requires
        g.wf(),
        tainted_node(g, names, t),
    ensures
        spec_badness(g, names, g.nodes[t].short_label@) >= 1,
{
    let n = g.nodes.len() as int;
    let origins = taint_origins(g, names);
    lemma_origins_upto_contains(g, names, n, t);
    let q = choose|q: int| 0 <= q < origins.len() && #[trigger] origins[q] == t;
    lemma_reaches_self(g, t);
    assert(origin_reaches_label(g, t, g.nodes[t].short_label@));
    lemma_badness_count_pos(g, origins, g.nodes[t].short_label@, q);
}

/// Taint climbs the whole caller chain: when `x` calls `y`, `y` calls the
/// tainted node `z`, both `x`'s and `y`'s canonical labels score at least
/// one from that origin.
pub proof fn lemma_badness_transitive(g: CallGraph, names: Seq<Seq<char>>, x: int, y: int, z: int)
    requires
        g.wf(),
        0 <= x < g.nodes.len(),
        0 <= y < g.nodes.len(),
        direct_caller(g, x, y),
        direct_caller(g, y, z),
        tainted_node(g, names, z),
    ensures
        spec_badness(g, names, g.nodes[x].short_label@) >= 1,
        spec_badness(g, names, g.nodes[y].short_label@) >= 1,
{
    let n = g.nodes.len() as int;
    let origins = taint_origins(g, names);
    lemma_origins_upto_contains(g, names, n, z);
    let q = choose|q: int| 0 <= q < origins.len() && #[trigger] origins[q] == z;
    lemma_reaches_self(g, z);
    lemma_reaches_step(g, y, z, z);
    lemma_reaches_step(g, x, y, z);
    assert(origin_reaches_label(g, z, g.nodes[x].short_label@));
    assert(origin_reaches_label(g, z, g.nodes[y].short_label@));
    lemma_badness_count_pos(g, origins, g.nodes[x].short_label@, q);
    lemma_badness_count_pos(g, origins, g.nodes[y].short_label@, q);
}

/// Distinct tainted origins add up: a label that reaches two different
/// tainted nodes scores at least two.
pub proof fn lemma_badness_two_origins(
    g: CallGraph,
    names: Seq<Seq<char>>,
    z: int,
    w: int,
    c: Seq<char>,
)
    requires
        g.wf(),
        z != w,
        tainted_node(g, names, z),
        tainted_node(g, names, w),
        origin_reaches_label(g, z, c),
        origin_reaches_label(g, w, c),
    ensures
        spec_badness(g, names, c) >= 2,
{
    let n = g.nodes.len() as int;
    let origins = taint_origins(g, names);
    lemma_origins_upto_contains(g, names, n, z);
    lemma_origins_upto_contains(g, names, n, w);
    let qz = choose|q: int| 0 <= q < origins.len() && #[trigger] origins[q] == z;
    let qw = choose|q: int| 0 <= q < origins.len() && #[trigger] origins[q] == w;
    if qz < qw {
        lemma_badness_count_two(g, origins, c, qz, qw);
    } else {
        lemma_badness_count_two(g, origins, c, qw, qz);
    }
}

/// One tainted origin is counted exactly once per canonical label, however
/// many call paths reach it: with `b` the only tainted node (a caller cycle
/// through `b` included), every label's badness is one or zero.
pub proof fn lemma_single_origin_once(g: CallGraph, names: Seq<Seq<char>>, b: int, c: Seq<char>)
    requires
        g.wf(),
        forall|i: int| tainted_node(g, names, i) <==> i == b,
    ensures
        spec_badness(g, names, c) == if origin_reaches_label(g, b, c) {
            1nat
        } else {
            0nat
        },
{
    assert(tainted_node(g, names, b));
    assert(0 <= b < g.nodes.len());
    lemma_origins_single(g, names, g.nodes.len() as int, b);
    let origins = taint_origins(g, names);
    assert(origins =~= seq![b]);
    assert(origins.drop_last() =~= Seq::<int>::empty());
    assert(origins.last() == b);
    assert(badness_count(g, origins.drop_last(), c) == 0);
}

/// With a single tainted node below `n`, the origin list is that node alone.
proof fn lemma_origins_single(g: CallGraph, names: Seq<Seq<char>>, n: int, b: int)
    requires
        forall|i: int| tainted_node(g, names, i) <==> i == b,
        0 <= b,
    ensures
        taint_origins_upto(g, names, n) =~= if b < n {
            seq![b]
        } else {
            Seq::<int>::empty()
        },
    decreases n,
{
    if n > 0 {
        lemma_origins_single(g, names, n - 1, b);
    }
}

/// Labels outside the target namespace never appear in the badness map,
/// however much unsafety they can reach: the engine's contract admits only
/// namespace labels, so a label that is not one has no entry.
pub proof fn lemma_filter_excludes(
    result: Seq<BadnessEntry>,
    crate_name: Seq<char>,
    c: Seq<char>,
)
    requires
        forall|q: int|
            0 <= q < result.len() ==> in_namespace(
                (#[trigger] result[q]).label@,
                spec_underscored(crate_name),
            ),
        !in_namespace(c, spec_underscored(crate_name)),
    ensures
        !has_entry(result, c),
{
    if has_entry(result, c) {
        let q = choose|q: int| 0 <= q < result.len() && #[trigger] result[q].label@ == c;
        assert(in_namespace(result[q].label@, spec_underscored(crate_name)));
    }
}

} // verus!
