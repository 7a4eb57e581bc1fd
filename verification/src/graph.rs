//! The call graph model.
//!
//! One node per compiled function, keyed by its demangled full label, with
//! the canonical label cached, the set of direct callers kept as a reverse
//! edge relation, and the source location from debug information when one
//! is available. Built once from an introspection of the compiled program;
//! read-only afterwards.

use vstd::prelude::*;

use crate::canon::canonicalize;
use crate::canon::spec_canonical;
use crate::demangle::demangle_symbol;
use crate::demangle::demangled_of;

verus! {

/// A source location taken from debug information.
pub struct SourceLoc {
    /// The directory the file path is relative to, when recorded.
    pub directory: Option<String>,
    /// The file the function is defined in.
    pub filename: String,
    /// The line of the definition.
    pub line: u32,
    /// The column of the definition, when recorded.
    pub col: Option<u32>,
}

impl SourceLoc {
    /// A field-for-field copy.
    pub fn cloned(&self) -> (r: SourceLoc)
        ensures
            r == *self,
    {
        let r = SourceLoc {
            directory: match &self.directory {
                Some(d) => Some(d.clone()),
                None => None,
            },
            filename: self.filename.clone(),
            line: self.line,
            col: self.col,
        };
        r
    }
}

/// A field-for-field copy of an optional source location.
pub fn clone_opt_loc(l: &Option<SourceLoc>) -> (r: Option<SourceLoc>)
    ensures
        r == *l,
{
    match l {
        Some(loc) => Some(loc.cloned()),
        None => None,
    }
}

/// One call graph node: a compiled function, its labels, its direct
/// callers (as indices into the graph's node list), and its location.
pub struct LabelInfo {
    /// The demangled full label; unique within one graph.
    pub full_label: String,
    /// The canonical label, cached: `spec_canonical` of the full label.
    pub short_label: String,
    /// Indices of the nodes that contain a direct call to this node.
    pub caller_labels: Vec<usize>,
    /// Where the function is defined, when debug information has it.
    pub debugloc: Option<SourceLoc>,
}

impl LabelInfo {
    /// A blank node: empty labels, no callers, no location. The empty
    /// label's canonical form is itself, so the cached field is right.
    pub fn new() -> (r: LabelInfo)
        ensures
            r.full_label@ == Seq::<char>::empty(),
            r.short_label@ == spec_canonical(r.full_label@),
            r.caller_labels.len() == 0,
            r.debugloc is None,
    {
        let r = LabelInfo {
            full_label: String::new(),
            short_label: String::new(),
            caller_labels: Vec::new(),
            debugloc: None,
        };
        proof {
            crate::canon::lemma_find_props(Seq::<char>::empty(), crate::canon::as_sep());
        }
        r
    }
}

/// The call graph: every node of the compiled program, keyed by full label.
pub struct CallGraph {
    /// The nodes; full labels are unique across the list.
    pub nodes: Vec<LabelInfo>,
}

impl CallGraph {
    /// Well-formed: labels unique, canonical labels cached correctly, and
    /// every caller index in range.
    pub open spec fn wf(self) -> bool {
        &&& forall|i: int, j: int|
            0 <= i < j < self.nodes.len() ==> #[trigger] self.nodes[i].full_label@
                != #[trigger] self.nodes[j].full_label@
        &&& forall|i: int|
            0 <= i < self.nodes.len() ==> #[trigger] self.nodes[i].short_label@ == spec_canonical(
                self.nodes[i].full_label@,
            )
        &&& forall|i: int, k: int|
            0 <= i < self.nodes.len() && 0 <= k < self.nodes[i].caller_labels.len()
                ==> #[trigger] self.nodes[i].caller_labels[k] < self.nodes.len()
    }

    /// Some node carries this full label.
    pub open spec fn has_label(self, l: Seq<char>) -> bool {
        exists|i: int| 0 <= i < self.nodes.len() && #[trigger] self.nodes[i].full_label@ == l
    }

    /// The function labelled `caller` contains a direct call to the
    /// function labelled `callee`.
    pub open spec fn has_edge(self, caller: Seq<char>, callee: Seq<char>) -> bool {
        exists|i: int, k: int|
            0 <= i < self.nodes.len() && self.nodes[i].full_label@ == callee && 0 <= k
                < self.nodes[i].caller_labels.len()
                && self.nodes[#[trigger] self.nodes[i].caller_labels[k] as int].full_label@
                == caller
    }

    /// An empty graph.
    pub fn new() -> (g: CallGraph)
        ensures
            g.wf(),
            g.nodes.len() == 0,
    {
        CallGraph { nodes: Vec::new() }
    }

    /// The index of the node with this full label, if one exists.
    pub fn find_node(&self, label: &String) -> (r: Option<usize>)
        ensures
            match r {
                Some(i) => i < self.nodes.len() && self.nodes[i as int].full_label@ == label@,
                None => !self.has_label(label@),
            },
    {
        let mut i: usize = 0;
        while i < self.nodes.len()
            invariant
                i <= self.nodes.len(),
                forall|k: int| 0 <= k < i ==> #[trigger] self.nodes[k].full_label@ != label@,
            decreases self.nodes.len() - i,
        {
            if self.nodes[i].full_label == *label {
                return Some(i);
            }
            i = i + 1;
        }
        None
    }

    /// The index of the node with this full label, creating the node if it
    /// is not yet known (a call target may be registered before its
    /// definition is visited).
    pub fn ensure_node(&mut self, label: String) -> (i: usize)
        requires
            old(self).wf(),
        ensures
            final(self).wf(),
            i < final(self).nodes.len(),
            final(self).nodes[i as int].full_label@ == label@,
            old(self).nodes.len() <= final(self).nodes.len() <= old(self).nodes.len() + 1,
            forall|k: int|
                0 <= k < old(self).nodes.len() ==> final(self).nodes[k] == old(self).nodes[k],
            final(self).nodes.len() == old(self).nodes.len() + 1 ==> i == old(self).nodes.len()
                && final(self).nodes[i as int].caller_labels.len() == 0
                && final(self).nodes[i as int].debugloc is None,
            final(self).nodes.len() == old(self).nodes.len() ==> final(self).nodes == old(self).nodes,
            forall|l: Seq<char>|
                final(self).has_label(l) <==> old(self).has_label(l) || l == label@,
            forall|a: Seq<char>, b: Seq<char>|
                final(self).has_edge(a, b) <==> old(self).has_edge(a, b),
    {
        match self.find_node(&label) {
            Some(i) => {
                proof {
                    assert(self.has_label(label@));
                }
                i
            },
            None => {
                let i = self.nodes.len();
                let short = canonicalize(label.as_str());
                let node = LabelInfo {
                    full_label: label,
                    short_label: short,
                    caller_labels: Vec::new(),
                    debugloc: None,
                };
                self.nodes.push(node);
                proof {
                    let cur = *self;
                    let prev = *old(self);
                    assert forall|l: Seq<char>|
                        cur.has_label(l) <==> (prev.has_label(l) || l
                            == cur.nodes[i as int].full_label@) by {
                        if cur.has_label(l) {
                            let k = choose|k: int|
                                0 <= k < cur.nodes.len() && #[trigger] cur.nodes[k].full_label@
                                    == l;
                            if k < i {
                                assert(prev.nodes[k].full_label@ == l);
                            }
                        }
                        if prev.has_label(l) {
                            let k = choose|k: int|
                                0 <= k < prev.nodes.len() && #[trigger] prev.nodes[k].full_label@
                                    == l;
                            assert(cur.nodes[k].full_label@ == l);
                        }
                    }
                    assert forall|a: Seq<char>, b: Seq<char>|
                        cur.has_edge(a, b) <==> prev.has_edge(a, b) by {
                        if cur.has_edge(a, b) {
                            let (x, k) = choose|x: int, k: int|
                                0 <= x < cur.nodes.len() && cur.nodes[x].full_label@
                                    == b && 0 <= k < cur.nodes[x].caller_labels.len()
                                    && cur.nodes[#[trigger] cur.nodes[x].caller_labels[k] as int].full_label@
                                    == a;
                            assert(x < i);
                            assert(prev.nodes[x].caller_labels[k] < prev.nodes.len());
                            assert(prev.has_edge(a, b));
                        }
                        if prev.has_edge(a, b) {
                            let (x, k) = choose|x: int, k: int|
                                0 <= x < prev.nodes.len() && prev.nodes[x].full_label@
                                    == b && 0 <= k < prev.nodes[x].caller_labels.len()
                                    && prev.nodes[#[trigger] prev.nodes[x].caller_labels[k] as int].full_label@
                                    == a;
                            assert(cur.nodes[x].full_label@ == b);
                            assert(cur.has_edge(a, b));
                        }
                    }
                }
                i
            },
        }
    }
}

} // verus!

verus! {

impl CallGraph {
    /// Registers a defined function: creates or finds its node and records
    /// its source location from debug information.
    pub fn register_function(&mut self, label: String, loc: Option<SourceLoc>) -> (i: usize)
        requires
            old(self).wf(),
        ensures
            final(self).wf(),
            i < final(self).nodes.len(),
            final(self).nodes[i as int].full_label@ == label@,
            final(self).nodes[i as int].debugloc == loc,
            forall|k: int|
                0 <= k < final(self).nodes.len() && k != i ==> k < old(self).nodes.len()
                    && final(self).nodes[k] == old(self).nodes[k],
            forall|l: Seq<char>|
                final(self).has_label(l) <==> old(self).has_label(l) || l == label@,
            forall|a: Seq<char>, b: Seq<char>|
                final(self).has_edge(a, b) <==> old(self).has_edge(a, b),
    {
        let ghost mid0 = *old(self);
        let i = self.ensure_node(label);
        let ghost mid = *self;
        self.nodes[i].debugloc = loc;
        proof {
            let cur = *self;
            assert(cur.nodes[i as int].full_label == mid.nodes[i as int].full_label);
            assert forall|l: Seq<char>| cur.has_label(l) <==> mid.has_label(l) by {
                if cur.has_label(l) {
                    let k = choose|k: int|
                        0 <= k < cur.nodes.len() && #[trigger] cur.nodes[k].full_label@ == l;
                    assert(mid.nodes[k].full_label@ == l);
                }
                if mid.has_label(l) {
                    let k = choose|k: int|
                        0 <= k < mid.nodes.len() && #[trigger] mid.nodes[k].full_label@ == l;
                    assert(cur.nodes[k].full_label@ == l);
                }
            }
            assert forall|a: Seq<char>, b: Seq<char>| cur.has_edge(a, b) <==> mid.has_edge(a, b) by {
                if cur.has_edge(a, b) {
                    let (x, k) = choose|x: int, k: int|
                        0 <= x < cur.nodes.len() && cur.nodes[x].full_label@ == b && 0 <= k
                            < cur.nodes[x].caller_labels.len()
                            && cur.nodes[#[trigger] cur.nodes[x].caller_labels[k] as int].full_label@
                            == a;
                    assert(mid.nodes[x].full_label@ == b);
                    assert(mid.nodes[x].caller_labels == cur.nodes[x].caller_labels);
                    assert(mid.nodes[mid.nodes[x].caller_labels[k] as int].full_label@ == a);
                    assert(mid.has_edge(a, b));
                }
                if mid.has_edge(a, b) {
                    let (x, k) = choose|x: int, k: int|
                        0 <= x < mid.nodes.len() && mid.nodes[x].full_label@ == b && 0 <= k
                            < mid.nodes[x].caller_labels.len()
                            && mid.nodes[#[trigger] mid.nodes[x].caller_labels[k] as int].full_label@
                            == a;
                    assert(cur.nodes[x].full_label@ == b);
                    assert(cur.nodes[cur.nodes[x].caller_labels[k] as int].full_label@ == a);
                    assert(cur.has_edge(a, b));
                }
            }
        }
        i
    }

    /// Records one direct call: the node labelled `caller` is added to the
    /// caller set of the node labelled `callee`. Both nodes are created on
    /// demand; self-calls are legal and kept.
    pub fn add_caller(&mut self, callee: String, caller: String)
        requires
            old(self).wf(),
        ensures
            final(self).wf(),
            forall|l: Seq<char>|
                final(self).has_label(l) <==> old(self).has_label(l) || l == callee@ || l
                    == caller@,
            forall|a: Seq<char>, b: Seq<char>|
                final(self).has_edge(a, b) <==> old(self).has_edge(a, b) || (a == caller@ && b
                    == callee@),
            forall|k: int|
                0 <= k < old(self).nodes.len() ==> final(self).nodes[k].full_label
                    == old(self).nodes[k].full_label && final(self).nodes[k].debugloc
                    == old(self).nodes[k].debugloc,
            forall|k: int|
                old(self).nodes.len() <= k < final(self).nodes.len()
                    ==> final(self).nodes[k].debugloc is None,
            old(self).nodes.len() <= final(self).nodes.len(),
    {
        let ghost g0 = *old(self);
        let t = self.ensure_node(callee);
        let ghost g1 = *self;
        let c = self.ensure_node(caller);
        let ghost g2 = *self;
        proof {
            // the callee node keeps its label through the second insertion
            assert(g2.nodes[t as int].full_label@ == callee@);
        }
        self.nodes[t].caller_labels.push(c);
        proof {
            let cur = *self;
            assert(cur.nodes[t as int].caller_labels@ == g2.nodes[t as int].caller_labels@.push(c));
            assert(cur.wf()) by {
                assert forall|x: int, k: int|
                    0 <= x < cur.nodes.len() && 0 <= k < cur.nodes[x].caller_labels.len() implies #[trigger] cur.nodes[x].caller_labels[k]
                    < cur.nodes.len() by {
                    if x == t && k == cur.nodes[x].caller_labels.len() - 1 {
                    } else {
                        assert(g2.nodes[x].caller_labels[k] < g2.nodes.len());
                    }
                }
            }
            assert forall|l: Seq<char>| cur.has_label(l) <==> g2.has_label(l) by {
                if cur.has_label(l) {
                    let k = choose|k: int|
                        0 <= k < cur.nodes.len() && #[trigger] cur.nodes[k].full_label@ == l;
                    assert(g2.nodes[k].full_label@ == l);
                }
                if g2.has_label(l) {
                    let k = choose|k: int|
                        0 <= k < g2.nodes.len() && #[trigger] g2.nodes[k].full_label@ == l;
                    assert(cur.nodes[k].full_label@ == l);
                }
            }
            assert forall|a: Seq<char>, b: Seq<char>|
                cur.has_edge(a, b) <==> (g2.has_edge(a, b) || (a == caller@ && b == callee@)) by {
                if cur.has_edge(a, b) {
                    let (x, k) = choose|x: int, k: int|
                        0 <= x < cur.nodes.len() && cur.nodes[x].full_label@ == b && 0 <= k
                            < cur.nodes[x].caller_labels.len()
                            && cur.nodes[#[trigger] cur.nodes[x].caller_labels[k] as int].full_label@
                            == a;
                    if x == t && k == cur.nodes[x].caller_labels.len() - 1 {
                        assert(cur.nodes[x].caller_labels[k] == c);
                        assert(a == caller@ && b == callee@);
                    } else {
                        assert(g2.nodes[x].caller_labels[k] == cur.nodes[x].caller_labels[k]);
                        assert(g2.has_edge(a, b));
                    }
                }
                if g2.has_edge(a, b) {
                    let (x, k) = choose|x: int, k: int|
                        0 <= x < g2.nodes.len() && g2.nodes[x].full_label@ == b && 0 <= k
                            < g2.nodes[x].caller_labels.len()
                            && g2.nodes[#[trigger] g2.nodes[x].caller_labels[k] as int].full_label@
                            == a;
                    assert(cur.nodes[x].full_label@ == b);
                    assert(cur.nodes[x].caller_labels[k] == g2.nodes[x].caller_labels[k]);
                    assert(cur.has_edge(a, b));
                }
                if a == caller@ && b == callee@ {
                    let k = cur.nodes[t as int].caller_labels.len() - 1;
                    assert(cur.nodes[t as int].caller_labels[k] == c);
                    assert(cur.nodes[c as int].full_label@ == caller@);
                    assert(cur.has_edge(a, b));
                }
            }
        }
    }
}

/// One compiled function as read from the program's introspection artifact:
/// its mangled symbol name, the mangled names of its direct call targets
/// (call, invoke and call-with-fallback instructions whose target resolves
/// to a known global function), and its debug location if one was recorded.
pub struct RawFunction {
    /// The mangled symbol name of the defined function.
    pub name: String,
    /// The mangled symbol names of its direct call targets.
    pub callees: Vec<String>,
    /// Where the function is defined, when debug information has it.
    pub debugloc: Option<SourceLoc>,
}

/// One of the first `n` raw functions demangles to `l`.
pub open spec fn raw_defines(funcs: Seq<RawFunction>, n: int, l: Seq<char>) -> bool {
    exists|f: int| 0 <= f < n && demangled_of(#[trigger] funcs[f].name@) == l
}

/// A call edge among the first `n` raw functions (plus the first `c` call
/// targets of function `n` itself) demangles to `caller` -> `callee`.
pub open spec fn raw_calls(
    funcs: Seq<RawFunction>,
    n: int,
    c: int,
    caller: Seq<char>,
    callee: Seq<char>,
) -> bool {
    exists|x: int, y: int|
        0 <= x < funcs.len() && 0 <= y < funcs[x].callees.len() && (x < n || (x == n && y < c))
            && demangled_of(funcs[x].name@) == caller && demangled_of(
            #[trigger] funcs[x].callees[y]@,
        ) == callee
}

/// A call target among the first `n` raw functions (plus the first `c`
/// targets of function `n`) demangles to `l`.
pub open spec fn raw_target(funcs: Seq<RawFunction>, n: int, c: int, l: Seq<char>) -> bool {
    exists|x: int, y: int|
        0 <= x < funcs.len() && 0 <= y < funcs[x].callees.len() && (x < n || (x == n && y < c))
            && demangled_of(#[trigger] funcs[x].callees[y]@) == l
}

/// Builds the call graph from the raw introspection records: every defined
/// function is registered under its demangled label with its location, and
/// every direct call target gains the calling function as a caller, with
/// target nodes created on demand.
pub fn build_graph(funcs: &Vec<RawFunction>) -> (g: CallGraph)
    ensures
        g.wf(),
        forall|a: Seq<char>, b: Seq<char>|
            g.has_edge(a, b) <==> raw_calls(funcs@, funcs@.len() as int, 0, a, b),
        forall|l: Seq<char>|
            g.has_label(l) <==> raw_defines(funcs@, funcs@.len() as int, l) || raw_target(
                funcs@,
                funcs@.len() as int,
                0,
                l,
            ),
        forall|k: int|
            0 <= k < g.nodes.len() && g.nodes[k].debugloc is Some ==> exists|x: int|
                0 <= x < funcs@.len() && demangled_of(#[trigger] funcs@[x].name@)
                    == g.nodes[k].full_label@ && funcs@[x].debugloc == g.nodes[k].debugloc,
{
    let mut g = CallGraph::new();
    let mut f: usize = 0;
    while f < funcs.len()
        invariant
            g.wf(),
            f <= funcs.len(),
            forall|a: Seq<char>, b: Seq<char>|
                g.has_edge(a, b) <==> raw_calls(funcs@, f as int, 0, a, b),
            forall|l: Seq<char>|
                g.has_label(l) <==> raw_defines(funcs@, f as int, l) || raw_target(
                    funcs@,
                    f as int,
                    0,
                    l,
                ),
            forall|k: int|
                0 <= k < g.nodes.len() && g.nodes[k].debugloc is Some ==> exists|x: int|
                    0 <= x < f && demangled_of(#[trigger] funcs@[x].name@)
                        == g.nodes[k].full_label@ && funcs@[x].debugloc == g.nodes[k].debugloc,
        decreases funcs.len() - f,
    {
        let dem = demangle_symbol(funcs[f].name.as_str());
        g.register_function(dem.clone(), clone_opt_loc(&funcs[f].debugloc));
        proof {
            assert forall|l: Seq<char>|
                g.has_label(l) <==> raw_defines(funcs@, f + 1 as int, l) || raw_target(
                    funcs@,
                    f as int,
                    0,
                    l,
                ) by {
                if raw_defines(funcs@, f + 1 as int, l) {
                    let x = choose|x: int| 0 <= x < f + 1 && demangled_of(funcs@[x].name@) == l;
                    if x == f {
                        assert(l == dem@);
                    } else {
                        assert(raw_defines(funcs@, f as int, l));
                    }
                }
            }
        }
        let mut c: usize = 0;
        while c < funcs[f].callees.len()
            invariant
                g.wf(),
                f < funcs.len(),
                c <= funcs[f as int].callees.len(),
                dem@ == demangled_of(funcs@[f as int].name@),
                forall|a: Seq<char>, b: Seq<char>|
                    g.has_edge(a, b) <==> raw_calls(funcs@, f as int, c as int, a, b),
                forall|l: Seq<char>|
                    g.has_label(l) <==> raw_defines(funcs@, f + 1 as int, l) || raw_target(
                        funcs@,
                        f as int,
                        c as int,
                        l,
                    ),
                forall|k: int|
                    0 <= k < g.nodes.len() && g.nodes[k].debugloc is Some ==> exists|x: int|
                        0 <= x < f + 1 && demangled_of(#[trigger] funcs@[x].name@)
                            == g.nodes[k].full_label@ && funcs@[x].debugloc == g.nodes[k].debugloc,
            decreases funcs[f as int].callees.len() - c,
        {
            let dem_callee = demangle_symbol(funcs[f].callees[c].as_str());
            g.add_caller(dem_callee, dem.clone());
            proof {
                assert forall|a: Seq<char>, b: Seq<char>|
                    g.has_edge(a, b) <==> raw_calls(funcs@, f as int, c + 1 as int, a, b) by {
                    if g.has_edge(a, b) {
                        if raw_calls(funcs@, f as int, c as int, a, b) {
                            assert(raw_calls(funcs@, f as int, c + 1 as int, a, b));
                        } else {
                            assert(funcs@[f as int].callees[c as int]
                                == funcs@[f as int].callees@[c as int]);
                            assert(raw_calls(funcs@, f as int, c + 1 as int, a, b));
                        }
                    }
                    if raw_calls(funcs@, f as int, c + 1 as int, a, b) {
                        let (x, y) = choose|x: int, y: int|
                            0 <= x < funcs@.len() && 0 <= y < funcs@[x].callees.len() && (x < f
                                || (x == f && y < c + 1)) && demangled_of(funcs@[x].name@) == a
                                && demangled_of(#[trigger] funcs@[x].callees[y]@) == b;
                        if x == f && y == c {
                            assert(g.has_edge(a, b));
                        } else {
                            assert(raw_calls(funcs@, f as int, c as int, a, b));
                        }
                    }
                }
                assert forall|l: Seq<char>|
                    g.has_label(l) <==> raw_defines(funcs@, f + 1 as int, l) || raw_target(
                        funcs@,
                        f as int,
                        c + 1 as int,
                        l,
                    ) by {
                    if g.has_label(l) {
                        if !(raw_defines(funcs@, f + 1 as int, l) || raw_target(
                            funcs@,
                            f as int,
                            c as int,
                            l,
                        )) {
                            assert(l == dem_callee@ || l == dem@);
                            if l == dem_callee@ {
                                assert(raw_target(funcs@, f as int, c + 1 as int, l));
                            } else {
                                assert(raw_defines(funcs@, f + 1 as int, l));
                            }
                        } else if raw_target(funcs@, f as int, c as int, l) {
                            assert(raw_target(funcs@, f as int, c + 1 as int, l));
                        }
                    }
                    if raw_target(funcs@, f as int, c + 1 as int, l) {
                        let (x, y) = choose|x: int, y: int|
                            0 <= x < funcs@.len() && 0 <= y < funcs@[x].callees.len() && (x < f
                                || (x == f && y < c + 1)) && demangled_of(
                                #[trigger] funcs@[x].callees[y]@,
                            ) == l;
                        if x == f && y == c {
                            assert(l == dem_callee@);
                            assert(g.has_label(l));
                        } else {
                            assert(raw_target(funcs@, f as int, c as int, l));
                        }
                    }
                }
            }
            c = c + 1;
        }
        proof {
            assert forall|a: Seq<char>, b: Seq<char>|
                g.has_edge(a, b) <==> raw_calls(funcs@, f + 1 as int, 0, a, b) by {
                if g.has_edge(a, b) {
                    assert(raw_calls(
                        funcs@,
                        f as int,
                        funcs@[f as int].callees.len() as int,
                        a,
                        b,
                    ));
                    assert(raw_calls(funcs@, f + 1 as int, 0, a, b));
                }
                if raw_calls(funcs@, f + 1 as int, 0, a, b) {
                    let (x, y) = choose|x: int, y: int|
                        0 <= x < funcs@.len() && 0 <= y < funcs@[x].callees.len() && (x < f + 1)
                            && demangled_of(funcs@[x].name@) == a && demangled_of(
                            #[trigger] funcs@[x].callees[y]@,
                        ) == b;
                    assert(raw_calls(
                        funcs@,
                        f as int,
                        funcs@[f as int].callees.len() as int,
                        a,
                        b,
                    ));
                }
            }
            assert forall|l: Seq<char>|
                g.has_label(l) <==> raw_defines(funcs@, f + 1 as int, l) || raw_target(
                    funcs@,
                    f + 1 as int,
                    0,
                    l,
                ) by {
                if raw_target(funcs@, f + 1 as int, 0, l) {
                    let (x, y) = choose|x: int, y: int|
                        0 <= x < funcs@.len() && 0 <= y < funcs@[x].callees.len() && (x < f + 1)
                            && demangled_of(#[trigger] funcs@[x].callees[y]@) == l;
                    assert(raw_target(
                        funcs@,
                        f as int,
                        funcs@[f as int].callees.len() as int,
                        l,
                    ));
                }
                if raw_target(funcs@, f as int, funcs@[f as int].callees.len() as int, l) {
                    assert(raw_target(funcs@, f + 1 as int, 0, l));
                }
            }
        }
        f = f + 1;
    }
    g
}

} // verus!
