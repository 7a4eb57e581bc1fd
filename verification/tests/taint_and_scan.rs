//! The call graph, the taint propagation and the scanner state.

use siderophile::astpath::AstArg;
use siderophile::astpath::AstPath;
use siderophile::astpath::AstSegment;
use siderophile::astpath::fmt_syn_path;
use siderophile::graph::build_graph;
use siderophile::graph::CallGraph;
use siderophile::graph::RawFunction;
use siderophile::graph::SourceLoc;
use siderophile::mark::extract_line_numbers;
use siderophile::mark::group_by_path;
use siderophile::mark::insert_marks;
use siderophile::mark::MarkOpts;
use siderophile::report::render_count;
use siderophile::report::render_row;
use siderophile::report::sort_badness;
use siderophile::scanner::fmt_mod_path;
use siderophile::scanner::is_test_fn;
use siderophile::scanner::is_test_mod;
use siderophile::scanner::meta_is_word_test;
use siderophile::scanner::module_prefix;
use siderophile::scanner::MetaItem;
use siderophile::scanner::RsFile;
use siderophile::scanner::SiderophileSynVisitor;
use siderophile::taint::trace_unsafety;
use siderophile::taint::BadnessEntry;

fn badness_of(entries: &[BadnessEntry], label: &str) -> Option<usize> {
    entries.iter().find(|e| e.label == label).map(|e| e.badness)
}

/// A graph whose nodes carry plain (already demangled) labels.
fn plain_graph(edges: &[(&str, &str)]) -> CallGraph {
    let mut g = CallGraph::new();
    for (caller, callee) in edges {
        g.add_caller(callee.to_string(), caller.to_string());
    }
    g
}

#[test]
fn safe_fn_calling_risky_fn() {
    // scanning finds the unsafe function; the graph has the one edge
    // crate::safe_fn -> crate::risky_fn
    let mut v = SiderophileSynVisitor::new("crate".to_string(), false);
    v.push_segment("risky_fn".to_string());
    v.record_unsafe();
    v.pop_segment();
    let tainted = v.into_items().0;
    assert_eq!(tainted, vec!["crate::risky_fn".to_string()]);

    let g = plain_graph(&[("crate::safe_fn", "crate::risky_fn")]);
    let badness = trace_unsafety(&g, "crate", &tainted);
    assert_eq!(badness.len(), 2);
    assert_eq!(badness_of(&badness, "crate::risky_fn"), Some(1));
    assert_eq!(badness_of(&badness, "crate::safe_fn"), Some(1));
}

#[test]
fn chain_and_second_origin() {
    // x calls y calls z (tainted); x also calls the tainted w
    let g = plain_graph(&[
        ("crate::x", "crate::y"),
        ("crate::y", "crate::z"),
        ("crate::x", "crate::w"),
    ]);
    let tainted = vec!["crate::z".to_string(), "crate::w".to_string()];
    let badness = trace_unsafety(&g, "crate", &tainted);
    assert_eq!(badness_of(&badness, "crate::x"), Some(2));
    assert_eq!(badness_of(&badness, "crate::y"), Some(1));
    assert_eq!(badness_of(&badness, "crate::z"), Some(1));
    assert_eq!(badness_of(&badness, "crate::w"), Some(1));
}

#[test]
fn caller_cycle_counts_once() {
    // a calls b, b calls a, b is tainted: no double counting, no hang
    let g = plain_graph(&[("crate::a", "crate::b"), ("crate::b", "crate::a")]);
    let badness = trace_unsafety(&g, "crate", &vec!["crate::b".to_string()]);
    assert_eq!(badness_of(&badness, "crate::a"), Some(1));
    assert_eq!(badness_of(&badness, "crate::b"), Some(1));
}

#[test]
fn self_call_counts_once() {
    let g = plain_graph(&[("crate::rec", "crate::rec")]);
    let badness = trace_unsafety(&g, "crate", &vec!["crate::rec".to_string()]);
    assert_eq!(badness_of(&badness, "crate::rec"), Some(1));
}

#[test]
fn namespace_filter_excludes_foreign_labels() {
    // dep::helper reaches the taint but is not reported; the trait impl
    // label of the own crate is reported despite its leading `<`
    let g = plain_graph(&[
        ("dep::helper", "crate::risky"),
        ("<crate::T as Trait>::m", "crate::risky"),
        ("cratefake::f", "crate::risky"),
    ]);
    let badness = trace_unsafety(&g, "crate", &vec!["crate::risky".to_string()]);
    assert_eq!(badness_of(&badness, "dep::helper"), None);
    assert_eq!(badness_of(&badness, "cratefake::f"), None);
    assert_eq!(badness_of(&badness, "<crate::T as Trait>::m"), Some(1));
    assert_eq!(badness_of(&badness, "crate::risky"), Some(1));
}

#[test]
fn generic_instantiations_share_one_label() {
    // two monomorphized copies of crate::generic; only one is on a tainted
    // path; the shared canonical label is credited once
    let mut g = CallGraph::new();
    g.register_function("crate::bad::h0000000000000099".to_string(), None);
    g.add_caller(
        "crate::bad::h0000000000000099".to_string(),
        "crate::generic::h0000000000000001".to_string(),
    );
    g.register_function("crate::generic::h0000000000000002".to_string(), None);
    let badness = trace_unsafety(&g, "crate", &vec!["crate::bad".to_string()]);
    assert_eq!(badness_of(&badness, "crate::generic"), Some(1));
    assert_eq!(badness_of(&badness, "crate::bad"), Some(1));
}

#[test]
fn dashes_in_crate_name_match_underscored_labels() {
    let g = plain_graph(&[("my_tool::caller", "my_tool::bad")]);
    let badness = trace_unsafety(&g, "my-tool", &vec!["my_tool::bad".to_string()]);
    assert_eq!(badness_of(&badness, "my_tool::caller"), Some(1));
}

#[test]
fn tainted_names_are_canonicalized_before_matching() {
    // the scanner reports the source-level label; the graph holds the
    // hash-suffixed compiled label; they meet at the canonical key
    let g = plain_graph(&[(
        "crate::caller::h1111111111111111",
        "<crate::T as some::path::Tr>::m::h2222222222222222",
    )]);
    let tainted = vec!["<crate::T as Tr>::m".to_string()];
    let badness = trace_unsafety(&g, "crate", &tainted);
    assert_eq!(badness_of(&badness, "crate::caller"), Some(1));
    assert_eq!(badness_of(&badness, "<crate::T as Tr>::m"), Some(1));
}

#[test]
fn build_graph_demangles_symbols() {
    // relies on the real demangler: a mangled definition and callee must
    // come out under their human-readable labels
    let funcs = vec![
        RawFunction {
            name: "_ZN3foo3barE".to_string(),
            callees: vec!["_ZN4testE".to_string()],
            debugloc: None,
        },
    ];
    let g = build_graph(&funcs);
    let badness = trace_unsafety(&g, "foo", &vec!["test".to_string()]);
    assert_eq!(badness_of(&badness, "foo::bar"), Some(1));
}

#[test]
fn scanner_emits_joined_paths() {
    let mut v = SiderophileSynVisitor::new("mycrate".to_string(), false);
    v.push_segment("outer".to_string());
    v.push_segment("f".to_string());
    v.record_unsafe();
    v.push_closure_segment();
    v.record_unsafe();
    v.pop_segment();
    v.pop_segment();
    v.pop_segment();
    let items = v.into_items();
    assert_eq!(
        items.0,
        vec!["mycrate::outer::f".to_string(), "mycrate::outer::f::{{closure}}".to_string()]
    );
}

#[test]
fn scanner_trait_impl_path() {
    let mut v = SiderophileSynVisitor::new("parking_lot_core::util".to_string(), false);
    let saved = v.enter_trait_impl("Option<T>".to_string(), "UncheckedOptionExt<T>".to_string());
    v.push_segment("unchecked_unwrap".to_string());
    v.record_unsafe();
    v.pop_segment();
    v.restore_path(saved);
    v.push_segment("after".to_string());
    v.record_unsafe();
    let items = v.into_items();
    assert_eq!(
        items.0,
        vec![
            "<parking_lot_core::util::Option<T> as UncheckedOptionExt<T>>::unchecked_unwrap"
                .to_string(),
            "parking_lot_core::util::after".to_string(),
        ]
    );
}

#[test]
fn fmt_mod_path_joins_segments() {
    let path = vec!["a".to_string(), "b".to_string(), "c".to_string()];
    assert_eq!(fmt_mod_path(&path), "a::b::c");
    assert_eq!(fmt_mod_path(&vec!["solo".to_string()]), "solo");
}

#[test]
fn test_attribute_detection() {
    let word_test = MetaItem::Path { segments: vec!["test".to_string()] };
    assert!(meta_is_word_test(&word_test));
    let other = MetaItem::Path { segments: vec!["tokio".to_string(), "test".to_string()] };
    assert!(!meta_is_word_test(&other));

    assert!(is_test_fn(&vec![
        MetaItem::Lit,
        MetaItem::Path { segments: vec!["test".to_string()] },
    ]));
    assert!(!is_test_fn(&vec![MetaItem::Path { segments: vec!["cfg".to_string()] }]));

    let cfg_test = MetaItem::List {
        segments: vec!["cfg".to_string()],
        nested: vec![MetaItem::Path { segments: vec!["test".to_string()] }],
    };
    assert!(is_test_mod(&vec![cfg_test]));
    let cfg_unix = MetaItem::List {
        segments: vec!["cfg".to_string()],
        nested: vec![MetaItem::Path { segments: vec!["unix".to_string()] }],
    };
    assert!(!is_test_mod(&vec![cfg_unix]));
}

#[test]
fn module_prefix_from_components() {
    let comps = vec![
        "home".to_string(),
        "proj".to_string(),
        "src".to_string(),
        "sub-mod".to_string(),
        "thing.rs".to_string(),
    ];
    assert_eq!(module_prefix(&comps, "mycrate"), "mycrate::sub_mod::thing");

    let root = vec!["proj".to_string(), "src".to_string(), "lib.rs".to_string()];
    assert_eq!(module_prefix(&root, "mycrate"), "mycrate");

    let no_src = vec!["elsewhere".to_string(), "thing.rs".to_string()];
    assert_eq!(module_prefix(&no_src, "mycrate"), "mycrate");
}

#[test]
fn rs_file_keeps_its_path() {
    assert_eq!(RsFile::LibRoot("src/lib.rs".to_string()).as_path_buf(), "src/lib.rs");
    assert_eq!(RsFile::Other("src/util.rs".to_string()).as_path_buf(), "src/util.rs");
}

#[test]
fn lifetimes_are_stripped_from_paths() {
    // lock_api::mutex::MutexGuard<'a,R,T> renders without the lifetime
    let p = AstPath {
        leading_colon: false,
        segments: vec![
            AstSegment { ident: "lock_api".to_string(), args: vec![] },
            AstSegment { ident: "mutex".to_string(), args: vec![] },
            AstSegment {
                ident: "MutexGuard".to_string(),
                args: vec![
                    AstArg::Lifetime("a".to_string()),
                    AstArg::Other("R".to_string()),
                    AstArg::Other("T".to_string()),
                ],
            },
        ],
    };
    assert_eq!(fmt_syn_path(&p), "lock_api::mutex::MutexGuard<R,T>");
}

#[test]
fn empty_argument_list_loses_its_brackets() {
    let p = AstPath {
        leading_colon: false,
        segments: vec![
            AstSegment {
                ident: "HdrName".to_string(),
                args: vec![AstArg::Lifetime("a".to_string())],
            },
        ],
    };
    assert_eq!(fmt_syn_path(&p), "HdrName");
}

#[test]
fn nested_type_arguments_are_stripped_too() {
    // From<HdrName<'a>> keeps the nested type but loses its lifetime
    let inner = AstPath {
        leading_colon: false,
        segments: vec![
            AstSegment {
                ident: "HdrName".to_string(),
                args: vec![AstArg::Lifetime("a".to_string())],
            },
        ],
    };
    let p = AstPath {
        leading_colon: false,
        segments: vec![
            AstSegment { ident: "From".to_string(), args: vec![AstArg::Ty(inner)] },
        ],
    };
    assert_eq!(fmt_syn_path(&p), "From<HdrName>");
}

#[test]
fn leading_colons_are_kept() {
    let p = AstPath {
        leading_colon: true,
        segments: vec![
            AstSegment { ident: "protobuf".to_string(), args: vec![] },
            AstSegment { ident: "Message".to_string(), args: vec![] },
        ],
    };
    assert_eq!(fmt_syn_path(&p), "::protobuf::Message");
}

#[test]
fn report_rows_sort_by_badness_then_label() {
    let rows = vec![
        BadnessEntry { label: "crate::b".to_string(), badness: 1, debugloc: None },
        BadnessEntry { label: "crate::a".to_string(), badness: 1, debugloc: None },
        BadnessEntry { label: "crate::c".to_string(), badness: 7, debugloc: None },
    ];
    let sorted = sort_badness(rows);
    let view: Vec<(&str, usize)> =
        sorted.iter().map(|e| (e.label.as_str(), e.badness)).collect();
    assert_eq!(view, vec![("crate::c", 7), ("crate::a", 1), ("crate::b", 1)]);
}

#[test]
fn rows_render_with_padded_counts() {
    assert_eq!(render_count(0), "000");
    assert_eq!(render_count(7), "007");
    assert_eq!(render_count(42), "042");
    assert_eq!(render_count(100), "100");
    assert_eq!(render_count(1234), "1234");
    let e = BadnessEntry { label: "crate::f".to_string(), badness: 3, debugloc: None };
    assert_eq!(render_row(&e), "    003  crate::f");
}

fn loc(file: &str, line: u32) -> SourceLoc {
    SourceLoc { directory: Some("proj".to_string()), filename: file.to_string(), line, col: None }
}

#[test]
fn line_numbers_honour_threshold_and_closures() {
    let rows = vec![
        BadnessEntry { label: "crate::low".to_string(), badness: 1, debugloc: Some(loc("a.rs", 30)) },
        BadnessEntry { label: "crate::high".to_string(), badness: 5, debugloc: Some(loc("a.rs", 10)) },
        BadnessEntry {
            label: "crate::f::{{closure}}".to_string(),
            badness: 5,
            debugloc: Some(loc("a.rs", 20)),
        },
        BadnessEntry { label: "crate::unlocated".to_string(), badness: 5, debugloc: None },
    ];
    let opts = MarkOpts { mark: Some("// caution".to_string()), no_mark_closures: true, threshold: 2 };
    assert_eq!(extract_line_numbers(&opts, &rows), vec![10]);

    let opts_all = MarkOpts { mark: Some("// caution".to_string()), no_mark_closures: false, threshold: 0 };
    assert_eq!(extract_line_numbers(&opts_all, &rows), vec![10, 20, 30]);
}

#[test]
fn marks_are_spliced_above_listed_lines() {
    let lines = vec![
        "fn top() {}".to_string(),
        "    fn indented() {}".to_string(),
        "\tfn tabbed() {}".to_string(),
    ];
    let nums = vec![2, 3];
    let out = insert_marks(&lines, &nums, "// caution");
    assert_eq!(
        out,
        vec![
            "fn top() {}".to_string(),
            "    // caution".to_string(),
            "    fn indented() {}".to_string(),
            "\t// caution".to_string(),
            "\tfn tabbed() {}".to_string(),
        ]
    );
}

#[test]
fn grouping_splits_rows_by_file() {
    let rows = vec![
        BadnessEntry { label: "crate::a".to_string(), badness: 1, debugloc: Some(loc("a.rs", 1)) },
        BadnessEntry { label: "crate::b".to_string(), badness: 2, debugloc: Some(loc("b.rs", 2)) },
        BadnessEntry { label: "crate::c".to_string(), badness: 3, debugloc: Some(loc("a.rs", 3)) },
        BadnessEntry { label: "crate::nowhere".to_string(), badness: 4, debugloc: None },
    ];
    let groups = group_by_path(&rows);
    assert_eq!(groups.len(), 2);
    let total: usize = groups.iter().map(|g| g.entries.len()).sum();
    assert_eq!(total, 3);
    for g in &groups {
        for e in &g.entries {
            match &e.debugloc {
                Some(l) => assert_eq!(l.filename, g.key.filename),
                None => panic!("grouped row without a location"),
            }
        }
    }
}
