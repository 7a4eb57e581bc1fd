//! Type paths as the scanner sees them.
//!
//! Compiled call graphs carry no lifetimes, so the scanner strips every
//! lifetime argument from a type path before formatting it into a label;
//! an argument list left empty by the stripping loses its angle brackets.

use vstd::prelude::*;

verus! {

/// One generic argument of a path segment.
pub enum AstArg {
    /// A lifetime argument, by its name without the tick.
    Lifetime(String),
    /// A type argument that is itself a path.
    Ty(AstPath),
    /// Any other argument, kept as its rendered text.
    Other(String),
}

/// One segment of a type path: an identifier and its generic arguments.
pub struct AstSegment {
    /// The segment's identifier.
    pub ident: String,
    /// The generic arguments; an empty list renders without brackets.
    pub args: Vec<AstArg>,
}

/// A type path, as in `http::header::HeaderName`.
pub struct AstPath {
    /// Whether the path starts with `::`.
    pub leading_colon: bool,
    /// The segments, in order.
    pub segments: Vec<AstSegment>,
}

/// The mathematical shape of a generic argument.
pub ghost enum ArgModel {
    /// A lifetime argument.
    Lifetime(Seq<char>),
    /// A nested type path.
    Ty(PathModel),
    /// Any other argument text.
    Other(Seq<char>),
}

/// The mathematical shape of a segment.
pub ghost struct SegModel {
    /// The identifier.
    pub ident: Seq<char>,
    /// The arguments.
    pub args: Seq<ArgModel>,
}

/// The mathematical shape of a path.
pub ghost struct PathModel {
    /// Whether the path starts with `::`.
    pub leading_colon: bool,
    /// The segments.
    pub segments: Seq<SegModel>,
}

/// The model of a generic argument.
pub open spec fn arg_model(a: AstArg) -> ArgModel
    decreases a, 2int,
{
    match a {
        AstArg::Lifetime(s) => ArgModel::Lifetime(s@),
        AstArg::Ty(p) => ArgModel::Ty(path_model(p)),
        AstArg::Other(s) => ArgModel::Other(s@),
    }
}

/// The models of a list of arguments.
pub open spec fn args_model(args: Seq<AstArg>) -> Seq<ArgModel>
    decreases args, 3int,
{
    if args.len() == 0 {
        Seq::empty()
    } else {
        args_model(args.drop_last()).push(arg_model(args.last()))
    }
}

/// The model of a segment.
pub open spec fn seg_model(s: AstSegment) -> SegModel
    decreases s, 4int,
{
    SegModel { ident: s.ident@, args: args_model(s.args@) }
}

/// The models of a list of segments.
pub open spec fn segs_model(segs: Seq<AstSegment>) -> Seq<SegModel>
    decreases segs, 5int,
{
    if segs.len() == 0 {
        Seq::empty()
    } else {
        segs_model(segs.drop_last()).push(seg_model(segs.last()))
    }
}

/// The model of a path.
pub open spec fn path_model(p: AstPath) -> PathModel
    decreases p, 6int,
{
    PathModel { leading_colon: p.leading_colon, segments: segs_model(p.segments@) }
}

/// Lifetime arguments removed from an argument list; type arguments are
/// stripped recursively, everything else is kept.
pub open spec fn strip_args(args: Seq<ArgModel>) -> Seq<ArgModel>
    decreases args, 3int,
{
    if args.len() == 0 {
        Seq::empty()
    } else {
        let rest = strip_args(args.drop_last());
        match args.last() {
            ArgModel::Lifetime(_) => rest,
            ArgModel::Ty(p) => rest.push(ArgModel::Ty(strip_path(p))),
            ArgModel::Other(s) => rest.push(ArgModel::Other(s)),
        }
    }
}

/// A segment with its lifetime arguments removed.
pub open spec fn strip_seg(s: SegModel) -> SegModel
    decreases s, 4int,
{
    SegModel { ident: s.ident, args: strip_args(s.args) }
}

/// Segments with their lifetime arguments removed.
pub open spec fn strip_segs(segs: Seq<SegModel>) -> Seq<SegModel>
    decreases segs, 5int,
{
    if segs.len() == 0 {
        Seq::empty()
    } else {
        strip_segs(segs.drop_last()).push(strip_seg(segs.last()))
    }
}

/// A path with every lifetime argument removed, at every nesting depth.
pub open spec fn strip_path(p: PathModel) -> PathModel
    decreases p, 6int,
{
    PathModel { leading_colon: p.leading_colon, segments: strip_segs(p.segments) }
}

/// The rendered text of one argument.
pub open spec fn fmt_arg(a: ArgModel) -> Seq<char>
    decreases a, 2int,
{
    match a {
        ArgModel::Lifetime(n) => seq!['\''] + n,
        ArgModel::Ty(p) => fmt_path(p),
        ArgModel::Other(s) => s,
    }
}

/// The rendered text of an argument list, comma-separated.
pub open spec fn fmt_args(args: Seq<ArgModel>) -> Seq<char>
    decreases args, 3int,
{
    if args.len() == 0 {
        Seq::empty()
    } else if args.len() == 1 {
        fmt_arg(args.last())
    } else {
        fmt_args(args.drop_last()) + seq![','] + fmt_arg(args.last())
    }
}

/// The rendered text of one segment: the identifier, with a bracketed
/// argument list when any arguments remain.
pub open spec fn fmt_seg(s: SegModel) -> Seq<char>
    decreases s, 4int,
{
    s.ident + if s.args.len() == 0 {
        Seq::<char>::empty()
    } else {
        seq!['<'] + fmt_args(s.args) + seq!['>']
    }
}

/// The rendered text of a segment list, `::`-separated.
pub open spec fn fmt_segs(segs: Seq<SegModel>) -> Seq<char>
    decreases segs, 5int,
{
    if segs.len() == 0 {
        Seq::empty()
    } else if segs.len() == 1 {
        fmt_seg(segs.last())
    } else {
        fmt_segs(segs.drop_last()) + seq![':', ':'] + fmt_seg(segs.last())
    }
}

/// The rendered text of a whole path, with its leading `::` when it has
/// one: how the scanner writes a type into a label.
pub open spec fn fmt_path(p: PathModel) -> Seq<char>
    decreases p, 6int,
{
    (if p.leading_colon {
        seq![':', ':']
    } else {
        Seq::<char>::empty()
    }) + fmt_segs(p.segments)
}

/// Removes every lifetime argument from a type path, recursing into type
/// arguments, so the path matches what a compiled call graph shows; an
/// argument list left empty loses its brackets when rendered.
pub fn without_lifetimes(path: &AstPath) -> (r: AstPath)
    ensures
        path_model(r) == strip_path(path_model(*path)),
    decreases *path,
{
    let mut segments: Vec<AstSegment> = Vec::new();
    let mut i: usize = 0;
    while i < path.segments.len()
        invariant
            i <= path.segments.len(),
            segs_model(segments@) == strip_segs(segs_model(path.segments@.take(i as int))),
        decreases path.segments.len() - i,
    {
        let seg = &path.segments[i];
        let mut args: Vec<AstArg> = Vec::new();
        let mut j: usize = 0;
        while j < seg.args.len()
            invariant
                i < path.segments.len(),
                *seg == path.segments@[i as int],
                j <= seg.args.len(),
                args_model(args@) == strip_args(args_model(seg.args@.take(j as int))),
            decreases seg.args.len() - j,
        {
            let ghost args_before = args@;
            let ghost taken = args_model(seg.args@.take(j as int));
            proof {
                assert(seg.args@.take(j + 1 as int).drop_last() =~= seg.args@.take(j as int));
                assert(seg.args@.take(j + 1 as int).last() == seg.args@[j as int]);
                assert(args_model(seg.args@.take(j + 1 as int)) == taken.push(
                    arg_model(seg.args@[j as int]),
                ));
                assert(taken.push(arg_model(seg.args@[j as int])).drop_last() =~= taken);
                assert(taken.push(arg_model(seg.args@[j as int])).last() == arg_model(
                    seg.args@[j as int],
                ));
            }
            match &seg.args[j] {
                AstArg::Lifetime(_) => {
                    proof {
                        assert(seg.args@[j as int] is Lifetime);
                        assert(arg_model(seg.args@[j as int]) is Lifetime);
                        assert(args_model(args@) == strip_args(
                            args_model(seg.args@.take(j + 1 as int)),
                        ));
                    }
                },
                AstArg::Ty(inner) => {
                    proof {
                        assert(decreases_to!(*path => path.segments));
                        assert(decreases_to!(path.segments => path.segments@));
                        assert(decreases_to!(path.segments@ => path.segments@[i as int]));
                        assert(decreases_to!(path.segments@[i as int] => path.segments@[i as int].args));
                        assert(decreases_to!(path.segments@[i as int].args => path.segments@[i as int].args@));
                        assert(decreases_to!(path.segments@[i as int].args@ => path.segments@[i as int].args@[j as int]));
                        assert(decreases_to!(path.segments@[i as int].args@[j as int] => *inner));
                    }
                    let stripped = without_lifetimes(inner);
                    args.push(AstArg::Ty(stripped));
                    proof {
                        assert(args@.drop_last() =~= args_before);
                        assert(args@.last() == AstArg::Ty(stripped));
                        assert(seg.args@[j as int] == AstArg::Ty(*inner));
                        assert(arg_model(seg.args@[j as int]) == ArgModel::Ty(path_model(*inner)));
                        assert(args@.len() > 0);
                        assert(args_model(args@) == args_model(args@.drop_last()).push(
                            arg_model(args@.last()),
                        ));
                        assert(arg_model(args@.last()) == ArgModel::Ty(path_model(stripped)));
                        assert(args_model(args@.drop_last()) == args_model(args_before));
                        assert(args_model(args@) == args_model(args_before).push(
                            ArgModel::Ty(path_model(stripped)),
                        ));
                        assert(args_model(args@) == strip_args(
                            args_model(seg.args@.take(j + 1 as int)),
                        ));
                    }
                },
                AstArg::Other(s) => {
                    args.push(AstArg::Other(s.clone()));
                    proof {
                        assert(args@.drop_last() =~= args_before);
                        assert(seg.args@[j as int] matches AstArg::Other(o) && o@ == s@);
                        assert(args_model(args@) == strip_args(
                            args_model(seg.args@.take(j + 1 as int)),
                        ));
                    }
                },
            }
            j = j + 1;
        }
        proof {
            assert(seg.args@.take(seg.args.len() as int) =~= seg.args@);
        }
        let new_seg = AstSegment { ident: seg.ident.clone(), args };
        let ghost segs_before = segments@;
        segments.push(new_seg);
        proof {
            assert(segments@.drop_last() =~= segs_before);
            assert(seg_model(segments@.last()) == strip_seg(seg_model(path.segments@[i as int])));
            assert(path.segments@.take(i + 1 as int).drop_last() =~= path.segments@.take(i as int));
            assert(path.segments@.take(i + 1 as int).last() == path.segments@[i as int]);
            assert(segs_model(path.segments@.take(i + 1 as int)) == segs_model(
                path.segments@.take(i as int),
            ).push(seg_model(path.segments@[i as int])));
            assert(segs_model(path.segments@.take(i as int)).push(
                seg_model(path.segments@[i as int]),
            ).drop_last() =~= segs_model(path.segments@.take(i as int)));
            assert(segs_model(segments@).drop_last() =~= segs_model(segments@).drop_last());
            assert(segs_model(segments@) == segs_model(segs_before).push(
                seg_model(segments@.last()),
            )) by {
                assert(segments@.last() == segments@[segments@.len() - 1]);
            }
        }
        i = i + 1;
    }
    proof {
        assert(path.segments@.take(path.segments.len() as int) =~= path.segments@);
    }
    let r = AstPath { leading_colon: path.leading_colon, segments };
    r
}

/// Renders a type path the way the scanner writes it into labels: segments
/// joined with `::`, argument lists bracketed and comma-separated, with no
/// spaces.
pub fn fmt_ast_path(path: &AstPath) -> (r: String)
    ensures
        r@ == fmt_path(path_model(*path)),
    decreases *path,
{
    let mut r = String::new();
    if path.leading_colon {
        r.append("::");
        proof {
            reveal_strlit("::");
            assert(r@ =~= seq![':', ':']);
        }
    }
    let ghost lead: Seq<char> = if path.leading_colon {
        seq![':', ':']
    } else {
        Seq::<char>::empty()
    };
    proof {
        assert(r@ =~= lead);
    }
    let mut i: usize = 0;
    while i < path.segments.len()
        invariant
            i <= path.segments.len(),
            lead == (if path.leading_colon {
                seq![':', ':']
            } else {
                Seq::<char>::empty()
            }),
            r@ == lead + fmt_segs(segs_model(path.segments@.take(i as int))),
        decreases path.segments.len() - i,
    {
        proof {
            assert(path.segments@.take(i + 1 as int).drop_last() =~= path.segments@.take(i as int));
            assert(path.segments@.take(i + 1 as int).last() == path.segments@[i as int]);
            assert(segs_model(path.segments@.take(i + 1 as int)) == segs_model(
                path.segments@.take(i as int),
            ).push(seg_model(path.segments@[i as int])));
            assert(segs_model(path.segments@.take(i as int)).push(
                seg_model(path.segments@[i as int]),
            ).drop_last() =~= segs_model(path.segments@.take(i as int)));
            assert(segs_model(path.segments@.take(i as int)).len() == i) by {
                lemma_segs_model_len(path.segments@.take(i as int));
            }
        }
        if i > 0 {
            r.append("::");
            proof {
                reveal_strlit("::");
            }
        }
        let seg = &path.segments[i];
        r.append(seg.ident.as_str());
        if seg.args.len() > 0 {
            r.append("<");
            proof {
                reveal_strlit("<");
                assert("<"@ =~= seq!['<']);
            }
            let ghost base = r@;
            let mut j: usize = 0;
            while j < seg.args.len()
                invariant
                    i < path.segments.len(),
                    *seg == path.segments@[i as int],
                    j <= seg.args.len(),
                    j == 0 ==> r@ == base,
                    j >= 1 ==> r@ == base + fmt_args(args_model(seg.args@.take(j as int))),
                decreases seg.args.len() - j,
            {
                proof {
                    assert(seg.args@.take(j + 1 as int).drop_last() =~= seg.args@.take(j as int));
                    assert(seg.args@.take(j + 1 as int).last() == seg.args@[j as int]);
                    assert(args_model(seg.args@.take(j + 1 as int)) == args_model(
                        seg.args@.take(j as int),
                    ).push(arg_model(seg.args@[j as int])));
                    lemma_args_model_len(seg.args@.take(j as int));
                    assert(args_model(seg.args@.take(j as int)).push(
                        arg_model(seg.args@[j as int]),
                    ).drop_last() =~= args_model(seg.args@.take(j as int)));
                }
                if j > 0 {
                    r.append(",");
                    proof {
                        reveal_strlit(",");
                        assert(","@ =~= seq![',']);
                    }
                }
                match &seg.args[j] {
                    AstArg::Lifetime(n) => {
                        crate::strings::push_char(&mut r, '\'');
                        r.append(n.as_str());
                        proof {
                            assert(seg.args@[j as int] == AstArg::Lifetime(*n));
                            assert(fmt_arg(arg_model(seg.args@[j as int])) =~= seq!['\''] + n@);
                        }
                    },
                    AstArg::Ty(inner) => {
                        proof {
                            assert(decreases_to!(*path => path.segments));
                            assert(decreases_to!(path.segments => path.segments@));
                            assert(decreases_to!(path.segments@ => path.segments@[i as int]));
                            assert(decreases_to!(path.segments@[i as int] => path.segments@[i as int].args));
                            assert(decreases_to!(path.segments@[i as int].args => path.segments@[i as int].args@));
                            assert(decreases_to!(path.segments@[i as int].args@ => path.segments@[i as int].args@[j as int]));
                            assert(decreases_to!(path.segments@[i as int].args@[j as int] => *inner));
                        }
                        let t = fmt_ast_path(inner);
                        r.append(t.as_str());
                        proof {
                            assert(seg.args@[j as int] == AstArg::Ty(*inner));
                            assert(fmt_arg(arg_model(seg.args@[j as int])) == fmt_path(
                                path_model(*inner),
                            ));
                        }
                    },
                    AstArg::Other(s) => {
                        r.append(s.as_str());
                        proof {
                            assert(seg.args@[j as int] == AstArg::Other(*s));
                            assert(fmt_arg(arg_model(seg.args@[j as int])) == s@);
                        }
                    },
                }
                proof {
                    let m = arg_model(seg.args@[j as int]);
                    let amodel = args_model(seg.args@.take(j + 1 as int));
                    assert(amodel.len() == j + 1);
                    assert(amodel.last() == m);
                    assert(amodel.drop_last() =~= args_model(seg.args@.take(j as int)));
                    if j == 0 {
                        assert(fmt_args(amodel) == fmt_arg(m));
                    } else {
                        assert(fmt_args(amodel) == fmt_args(args_model(seg.args@.take(j as int)))
                            + seq![','] + fmt_arg(m));
                    }
                }
                proof {
                    if j == 0 {
                        assert(r@ =~= base + fmt_args(args_model(seg.args@.take(1))));
                    } else {
                        assert(r@ =~= base + fmt_args(args_model(seg.args@.take(j + 1 as int))));
                    }
                }
                j = j + 1;
            }
            proof {
                assert(seg.args@.take(seg.args.len() as int) =~= seg.args@);
                lemma_args_model_len(seg.args@);
            }
            r.append(">");
            proof {
                reveal_strlit(">");
                assert(">"@ =~= seq!['>']);
            }
        }
        proof {
            assert(seg_model(path.segments@[i as int]).args.len() == path.segments@[i as int].args@.len())
                by {
                lemma_args_model_len(path.segments@[i as int].args@);
            }
            let sm = seg_model(path.segments@[i as int]);
            if seg.args.len() == 0 {
                assert(fmt_seg(sm) =~= seg.ident@);
            } else {
                assert(fmt_seg(sm) =~= seg.ident@ + seq!['<'] + fmt_args(args_model(seg.args@))
                    + seq!['>']);
            }
            let smodel = segs_model(path.segments@.take(i + 1 as int));
            assert(smodel.len() == i + 1) by {
                lemma_segs_model_len(path.segments@.take(i + 1 as int));
            }
            assert(smodel.last() == sm);
            assert(smodel.drop_last() =~= segs_model(path.segments@.take(i as int)));
            if i == 0 {
                assert(fmt_segs(smodel) == fmt_seg(sm));
                assert(r@ =~= lead + fmt_segs(segs_model(path.segments@.take(1))));
            } else {
                assert(fmt_segs(smodel) == fmt_segs(segs_model(path.segments@.take(i as int)))
                    + seq![':', ':'] + fmt_seg(sm));
                assert(r@ =~= lead + fmt_segs(segs_model(path.segments@.take(i + 1 as int))));
            }
        }
        i = i + 1;
    }
    proof {
        assert(path.segments@.take(path.segments.len() as int) =~= path.segments@);
    }
    r
}

/// Model and list have the same length.
proof fn lemma_args_model_len(args: Seq<AstArg>)
    ensures
        args_model(args).len() == args.len(),
    decreases args.len(),
{
    if args.len() > 0 {
        lemma_args_model_len(args.drop_last());
    }
}

/// Model and list have the same length.
proof fn lemma_segs_model_len(segs: Seq<AstSegment>)
    ensures
        segs_model(segs).len() == segs.len(),
    decreases segs.len(),
{
    if segs.len() > 0 {
        lemma_segs_model_len(segs.drop_last());
    }
}

/// Formats a type path for a label, lifetimes stripped: what the scanner
/// emits for the type or trait of an impl block.
pub fn fmt_syn_path(path: &AstPath) -> (r: String)
    ensures
        r@ == fmt_path(strip_path(path_model(*path))),
{
    let stripped = without_lifetimes(path);
    fmt_ast_path(&stripped)
}

} // verus!
