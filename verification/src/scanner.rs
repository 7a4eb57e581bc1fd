//! The unsafe entity scanner's state.
//!
//! Walking a source tree is driven from outside; this module owns the
//! lexical path stack and the emission of tainted full labels, so that the
//! labels produced match the call graph's full-label convention exactly.

use vstd::prelude::*;

use crate::canon::as_sep;
use crate::canon::join_str;
use crate::canon::path_sep;
use crate::canon::spec_join;

verus! {

/// A formatted list of Rust entities that are unsafe.
pub struct UnsafeItems(pub Vec<String>);

/// The synthetic path segment pushed when a closure expression is entered.
pub open spec fn closure_marker() -> Seq<char> {
    seq!['{', '{', 'c', 'l', 'o', 's', 'u', 'r', 'e', '}', '}']
}

/// The single path segment a trait impl collapses the whole stack into:
/// `<path::to::Type as Trait>`.
pub open spec fn trait_impl_segment(
    path: Seq<Seq<char>>,
    for_path: Seq<char>,
    trait_path: Seq<char>,
) -> Seq<char> {
    seq!['<'] + spec_join(path.push(for_path), path_sep()) + as_sep() + trait_path + seq!['>']
}

/// Formats a module path: its segments joined with `::`.
pub fn fmt_mod_path(mod_path: &Vec<String>) -> (r: String)
    ensures
        r@ == spec_join(mod_path.deep_view(), path_sep()),
{
    proof {
        reveal_strlit("::");
        assert("::"@ =~= path_sep());
    }
    join_str(mod_path, "::")
}

/// A segment-for-segment copy of a path stack.
fn clone_segments(v: &Vec<String>) -> (r: Vec<String>)
    ensures
        r.deep_view() == v.deep_view(),
{
    let mut r: Vec<String> = Vec::new();
    let mut i: usize = 0;
    while i < v.len()
        invariant
            i <= v.len(),
            r.deep_view() =~= v.deep_view().take(i as int),
        decreases v.len() - i,
    {
        let ghost before = r.deep_view();
        r.push(v[i].clone());
        proof {
            assert(r.deep_view() =~= before.push(v[i as int]@));
            assert(r.deep_view() =~= v.deep_view().take(i + 1 as int));
        }
        i = i + 1;
    }
    proof {
        assert(v.deep_view().take(v.len() as int) =~= v.deep_view());
    }
    r
}

/// A parsed attribute argument, mirroring what an attribute's meta item
/// holds: a bare path, a parenthesised list, a name-value pair, or a
/// literal.
pub enum MetaItem {
    /// A bare path such as `test`.
    Path {
        /// The path's segments.
        segments: Vec<String>,
    },
    /// A list such as `cfg(test)`.
    List {
        /// The path before the parentheses.
        segments: Vec<String>,
        /// The nested meta items inside the parentheses.
        nested: Vec<MetaItem>,
    },
    /// A name-value pair such as `path = "x.rs"`.
    NameValue {
        /// The path before the equals sign.
        segments: Vec<String>,
    },
    /// A literal argument.
    Lit,
}

/// The identifier that marks a test function.
pub open spec fn test_ident() -> Seq<char> {
    seq!['t', 'e', 's', 't']
}

/// The identifier of the conditional-compilation attribute.
pub open spec fn cfg_ident() -> Seq<char> {
    seq!['c', 'f', 'g']
}

/// The meta item is the bare word `test`.
pub open spec fn spec_meta_is_word_test(m: MetaItem) -> bool {
    match m {
        MetaItem::Path { segments } => segments.deep_view() == seq![test_ident()],
        _ => false,
    }
}

/// The list is a `cfg(...)` whose arguments contain the bare word `test`.
pub open spec fn spec_meta_list_is_cfg_test(segments: Seq<Seq<char>>, nested: Seq<MetaItem>) -> bool {
    segments == seq![cfg_ident()] && exists|i: int|
        0 <= i < nested.len() && spec_meta_is_word_test(#[trigger] nested[i])
}

/// Some attribute is the bare word `test`.
pub open spec fn spec_is_test_fn(attrs: Seq<MetaItem>) -> bool {
    exists|i: int| 0 <= i < attrs.len() && spec_meta_is_word_test(#[trigger] attrs[i])
}

/// Some attribute is a `cfg(test)`.
pub open spec fn spec_is_test_mod(attrs: Seq<MetaItem>) -> bool {
    exists|i: int|
        0 <= i < attrs.len() && match #[trigger] attrs[i] {
            MetaItem::List { segments, nested } => spec_meta_list_is_cfg_test(
                segments.deep_view(),
                nested@,
            ),
            _ => false,
        }
}

/// Whether a meta item is the bare word `test`.
pub fn meta_is_word_test(m: &MetaItem) -> (r: bool)
    ensures
        r == spec_meta_is_word_test(*m),
{
    proof {
        reveal_strlit("test");
        assert("test"@ =~= test_ident());
    }
    match m {
        MetaItem::Path { segments } => {
            if segments.len() != 1 {
                proof {
                    assert(segments.deep_view().len() == segments.len());
                }
                return false;
            }
            let r = crate::strings::str_eq(segments[0].as_str(), "test");
            proof {
                assert(segments.deep_view()[0] == segments[0]@);
                if r {
                    assert(segments.deep_view() =~= seq![test_ident()]);
                }
            }
            r
        },
        _ => false,
    }
}

/// Whether a meta list is a `cfg(...)` that names `test`: true for
/// `#[cfg(test)]`-decorated items.
pub fn meta_list_is_cfg_test(segments: &Vec<String>, nested: &Vec<MetaItem>) -> (r: bool)
    ensures
        r == spec_meta_list_is_cfg_test(segments.deep_view(), nested@),
{
    proof {
        reveal_strlit("cfg");
        assert("cfg"@ =~= cfg_ident());
        assert(segments.deep_view().len() == segments.len());
    }
    if segments.len() != 1 {
        return false;
    }
    proof {
        assert(segments.deep_view()[0] == segments[0]@);
    }
    if !crate::strings::str_eq(segments[0].as_str(), "cfg") {
        return false;
    }
    proof {
        assert(segments.deep_view() =~= seq![cfg_ident()]);
    }
    let mut i: usize = 0;
    while i < nested.len()
        invariant
            segments.deep_view() == seq![cfg_ident()],
            i <= nested.len(),
            forall|j: int| 0 <= j < i ==> !spec_meta_is_word_test(#[trigger] nested@[j]),
        decreases nested.len() - i,
    {
        if meta_is_word_test(&nested[i]) {
            proof {
                assert(spec_meta_is_word_test(nested@[i as int]));
            }
            return true;
        }
        i = i + 1;
    }
    false
}

/// Whether an item's attributes mark it as a test function.
pub fn is_test_fn(attrs: &Vec<MetaItem>) -> (r: bool)
    ensures
        r == spec_is_test_fn(attrs@),
{
    let mut i: usize = 0;
    while i < attrs.len()
        invariant
            i <= attrs.len(),
            forall|j: int| 0 <= j < i ==> !spec_meta_is_word_test(#[trigger] attrs@[j]),
        decreases attrs.len() - i,
    {
        if meta_is_word_test(&attrs[i]) {
            return true;
        }
        i = i + 1;
    }
    false
}

/// Whether a module's attributes mark it as test-only (`#[cfg(test)]`).
pub fn is_test_mod(attrs: &Vec<MetaItem>) -> (r: bool)
    ensures
        r == spec_is_test_mod(attrs@),
{
    let mut i: usize = 0;
    while i < attrs.len()
        invariant
            i <= attrs.len(),
            forall|j: int|
                0 <= j < i ==> !(match #[trigger] attrs@[j] {
                    MetaItem::List { segments, nested } => spec_meta_list_is_cfg_test(
                        segments.deep_view(),
                        nested@,
                    ),
                    _ => false,
                }),
        decreases attrs.len() - i,
    {
        match &attrs[i] {
            MetaItem::List { segments, nested } => {
                if meta_list_is_cfg_test(segments, nested) {
                    return true;
                }
            },
            _ => {},
        }
        i = i + 1;
    }
    false
}

/// The scanner's visitor state: the findings so far, the current lexical
/// path, and whether test-only code is to be scanned too.
pub struct SiderophileSynVisitor {
    /// Full labels of entities found to contain unsafe, in discovery order.
    pub buf: Vec<String>,
    /// The current module path: one segment per enclosing module, type,
    /// function, trait or closure.
    pub cur_mod_path: Vec<String>,
    /// Whether unsafe usage inside test-only code counts.
    pub include_tests: bool,
}

impl SiderophileSynVisitor {
    /// A fresh state whose path holds the file's module prefix alone.
    pub fn new(prefix: String, include_tests: bool) -> (v: Self)
        ensures
            v.buf.deep_view() == Seq::<Seq<char>>::empty(),
            v.cur_mod_path.deep_view() == seq![prefix@],
            v.include_tests == include_tests,
    {
        let mut cur_mod_path: Vec<String> = Vec::new();
        cur_mod_path.push(prefix);
        let buf = Vec::new();
        let v = Self { buf, cur_mod_path, include_tests };
        proof {
            assert(v.cur_mod_path.deep_view() =~= seq![v.cur_mod_path[0]@]);
            assert(v.buf.deep_view() =~= Seq::<Seq<char>>::empty());
        }
        v
    }

    /// Enters a named scope: module, function, method, trait or type.
    pub fn push_segment(&mut self, name: String)
        ensures
            final(self).cur_mod_path.deep_view() == old(self).cur_mod_path.deep_view().push(name@),
            final(self).buf == old(self).buf,
            final(self).include_tests == old(self).include_tests,
    {
        self.cur_mod_path.push(name);
        proof {
            assert(self.cur_mod_path.deep_view() =~= old(
                self,
            ).cur_mod_path.deep_view().push(self.cur_mod_path[self.cur_mod_path.len() - 1]@));
        }
    }

    /// Leaves the innermost scope.
    pub fn pop_segment(&mut self)
        requires
            old(self).cur_mod_path.len() >= 1,
        ensures
            final(self).cur_mod_path.deep_view() == old(self).cur_mod_path.deep_view().drop_last(),
            final(self).buf == old(self).buf,
            final(self).include_tests == old(self).include_tests,
    {
        self.cur_mod_path.pop();
        proof {
            assert(self.cur_mod_path.deep_view() =~= old(
                self,
            ).cur_mod_path.deep_view().drop_last());
        }
    }

    /// Enters a closure expression: pushes the synthetic marker segment.
    pub fn push_closure_segment(&mut self)
        ensures
            final(self).cur_mod_path.deep_view() == old(self).cur_mod_path.deep_view().push(
                closure_marker(),
            ),
            final(self).buf == old(self).buf,
            final(self).include_tests == old(self).include_tests,
    {
        proof {
            reveal_strlit("{{closure}}");
            assert("{{closure}}"@ =~= closure_marker());
        }
        self.push_segment("{{closure}}".to_owned());
    }

    /// Emits the current path as tainted: an unsafe entity was found here.
    pub fn record_unsafe(&mut self)
        ensures
            final(self).buf.deep_view() == old(self).buf.deep_view().push(
                spec_join(old(self).cur_mod_path.deep_view(), path_sep()),
            ),
            final(self).cur_mod_path == old(self).cur_mod_path,
            final(self).include_tests == old(self).include_tests,
    {
        let pp = fmt_mod_path(&self.cur_mod_path);
        self.buf.push(pp);
        proof {
            assert(self.buf.deep_view() =~= old(self).buf.deep_view().push(
                self.buf[self.buf.len() - 1]@,
            ));
        }
    }

    /// Enters a trait impl block `impl Trait for Type`: the whole path is
    /// collapsed into the single synthetic segment
    /// `<current::path::Type as Trait>`, and the previous path is handed
    /// back for restoring on exit.
    pub fn enter_trait_impl(&mut self, for_path: String, trait_path: String) -> (saved: Vec<
        String,
    >)
        ensures
            saved.deep_view() == old(self).cur_mod_path.deep_view(),
            final(self).cur_mod_path.deep_view() == seq![
                trait_impl_segment(old(self).cur_mod_path.deep_view(), for_path@, trait_path@),
            ],
            final(self).buf == old(self).buf,
            final(self).include_tests == old(self).include_tests,
    {
        proof {
            reveal_strlit(" as ");
            assert(" as "@ =~= as_sep());
        }
        let saved = clone_segments(&self.cur_mod_path);
        self.cur_mod_path.push(for_path);
        proof {
            assert(self.cur_mod_path.deep_view() =~= old(self).cur_mod_path.deep_view().push(
                self.cur_mod_path[self.cur_mod_path.len() - 1]@,
            ));
        }
        let joined = fmt_mod_path(&self.cur_mod_path);
        let mut full = String::new();
        crate::strings::push_char(&mut full, '<');
        full.append(joined.as_str());
        full.append(" as ");
        full.append(trait_path.as_str());
        crate::strings::push_char(&mut full, '>');
        proof {
            assert(full@ =~= trait_impl_segment(
                old(self).cur_mod_path.deep_view(),
                for_path@,
                trait_path@,
            ));
        }
        self.cur_mod_path = Vec::new();
        self.cur_mod_path.push(full);
        proof {
            assert(self.cur_mod_path.deep_view() =~= seq![
                trait_impl_segment(old(self).cur_mod_path.deep_view(), for_path@, trait_path@),
            ]);
        }
        saved
    }

    /// Leaves a trait impl block: restores the saved path.
    pub fn restore_path(&mut self, saved: Vec<String>)
        ensures
            final(self).cur_mod_path == saved,
            final(self).buf == old(self).buf,
            final(self).include_tests == old(self).include_tests,
    {
        self.cur_mod_path = saved;
    }

    /// Hands out the findings.
    pub fn into_items(self) -> (r: UnsafeItems)
        ensures
            r.0 == self.buf,
    {
        UnsafeItems(self.buf)
    }
}

} // verus!

verus! {

/// The path component that marks a crate's source directory.
pub open spec fn src_ident() -> Seq<char> {
    seq!['s', 'r', 'c']
}

/// The file name of a library crate root.
pub open spec fn lib_rs_ident() -> Seq<char> {
    seq!['l', 'i', 'b', '.', 'r', 's']
}

/// The file name of a directory module's root.
pub open spec fn mod_rs_ident() -> Seq<char> {
    seq!['m', 'o', 'd', '.', 'r', 's']
}

/// `s` cut off at its first dot, keeping everything when there is none.
pub open spec fn spec_truncate_dot(s: Seq<char>) -> Seq<char> {
    match crate::canon::spec_find(s, seq!['.']) {
        None => s,
        Some(i) => s.take(i),
    }
}

/// The path components after the last `src` component.
pub open spec fn spec_after_last_src(comps: Seq<Seq<char>>) -> Seq<Seq<char>>
    decreases comps.len(),
{
    if comps.len() == 0 {
        Seq::empty()
    } else if comps.last() == src_ident() {
        Seq::empty()
    } else {
        spec_after_last_src(comps.drop_last()).push(comps.last())
    }
}

/// Some component is `src`.
pub open spec fn spec_has_src(comps: Seq<Seq<char>>) -> bool {
    exists|i: int| 0 <= i < comps.len() && #[trigger] comps[i] == src_ident()
}

/// A transformed component survives into the module path when it is not a
/// crate-root file name.
pub open spec fn spec_keep_component(c: Seq<char>) -> bool {
    c != lib_rs_ident() && c != mod_rs_ident()
}

/// The module path segments a file path contributes: the components after
/// the last `src`, dashes replaced by underscores, root file names dropped,
/// extensions cut off.
pub open spec fn spec_mod_segments_of(sub: Seq<Seq<char>>) -> Seq<Seq<char>>
    decreases sub.len(),
{
    if sub.len() == 0 {
        Seq::empty()
    } else {
        let rest = spec_mod_segments_of(sub.drop_last());
        let u = crate::strings::spec_underscored(sub.last());
        if spec_keep_component(u) {
            rest.push(spec_truncate_dot(u))
        } else {
            rest
        }
    }
}

/// The full module prefix of a file: the crate name, extended by the
/// file's module path when the file sits under a `src` directory.
pub open spec fn spec_module_prefix(comps: Seq<Seq<char>>, crate_name: Seq<char>) -> Seq<char> {
    let prefix = if spec_has_src(comps) {
        spec_join(spec_mod_segments_of(spec_after_last_src(comps)), path_sep())
    } else {
        Seq::<char>::empty()
    };
    if prefix.len() == 0 {
        crate_name
    } else {
        crate_name + path_sep() + prefix
    }
}

/// Past the last `src`, the remaining components are the tail of the list.
proof fn lemma_after_last_src(comps: Seq<Seq<char>>, j: int)
    requires
        0 <= j < comps.len(),
        comps[j] == src_ident(),
        forall|k: int| j < k < comps.len() ==> #[trigger] comps[k] != src_ident(),
    ensures
        spec_after_last_src(comps) == comps.skip(j + 1),
    decreases comps.len(),
{
    if j == comps.len() - 1 {
        assert(comps.skip(j + 1) =~= Seq::<Seq<char>>::empty());
    } else {
        assert(comps.last() != src_ident()) by {
            assert(comps[comps.len() - 1] == comps.last());
        }
        assert(comps.drop_last()[j] == comps[j]);
        lemma_after_last_src(comps.drop_last(), j);
        assert(comps.skip(j + 1) =~= comps.drop_last().skip(j + 1).push(comps.last()));
    }
}

/// Extending the component list extends the module path segment by
/// segment.
proof fn lemma_mod_segments_push(sub: Seq<Seq<char>>, x: Seq<char>)
    ensures
        spec_mod_segments_of(sub.push(x)) == if spec_keep_component(
            crate::strings::spec_underscored(x),
        ) {
            spec_mod_segments_of(sub).push(
                spec_truncate_dot(crate::strings::spec_underscored(x)),
            )
        } else {
            spec_mod_segments_of(sub)
        },
{
    assert(sub.push(x).drop_last() =~= sub);
    assert(sub.push(x).last() == x);
}

/// The module prefix of a scanned file, from its path components: the
/// components after the last `src` become module path segments (dashes to
/// underscores, `lib.rs` and `mod.rs` dropped, extensions cut), appended
/// to the crate name.
pub fn module_prefix(components: &Vec<String>, crate_name: &str) -> (r: String)
    ensures
        r@ == spec_module_prefix(components.deep_view(), crate_name@),
{
    proof {
        reveal_strlit("src");
        reveal_strlit("lib.rs");
        reveal_strlit("mod.rs");
        reveal_strlit(".");
        reveal_strlit("::");
        assert("src"@ =~= src_ident());
        assert("lib.rs"@ =~= lib_rs_ident());
        assert("mod.rs"@ =~= mod_rs_ident());
        assert("."@ =~= seq!['.']);
        assert("::"@ =~= path_sep());
    }
    let ghost comps = components.deep_view();
    // find the last `src` component
    let mut last_src: Option<usize> = None;
    let mut i: usize = 0;
    while i < components.len()
        invariant
            comps == components.deep_view(),
            i <= components.len(),
            match last_src {
                Some(j) => j < i && comps[j as int] == src_ident() && (forall|k: int|
                    j < k < i ==> #[trigger] comps[k] != src_ident()),
                None => forall|k: int| 0 <= k < i ==> #[trigger] comps[k] != src_ident(),
            },
        decreases components.len() - i,
    {
        proof {
            reveal_strlit("src");
            assert("src"@ =~= src_ident());
        }
        if crate::strings::str_eq(components[i].as_str(), "src") {
            last_src = Some(i);
        }
        i = i + 1;
    }
    match last_src {
        None => {
            proof {
                assert(!spec_has_src(comps));
            }
            crate_name.to_owned()
        },
        Some(j) => {
            proof {
                assert(spec_has_src(comps));
                lemma_after_last_src(comps, j as int);
            }
            let ghost sub = comps.skip(j + 1);
            let mut mods: Vec<String> = Vec::new();
            let mut k: usize = j + 1;
            while k < components.len()
                invariant
                    comps == components.deep_view(),
                    j < k <= components.len(),
                    sub == comps.skip(j + 1),
                    mods.deep_view() == spec_mod_segments_of(sub.take(k - j - 1)),
                decreases components.len() - k,
            {
                let ghost taken = sub.take(k - j - 1);
                proof {
                    reveal_strlit("lib.rs");
                    reveal_strlit("mod.rs");
                    reveal_strlit(".");
                    assert("lib.rs"@ =~= lib_rs_ident());
                    assert("mod.rs"@ =~= mod_rs_ident());
                    assert("."@ =~= seq!['.']);
                    assert(sub.take(k - j) =~= taken.push(comps[k as int]));
                    lemma_mod_segments_push(taken, comps[k as int]);
                }
                let u = crate::strings::replace_dashes(components[k].as_str());
                let keep = !crate::strings::str_eq(u.as_str(), "lib.rs") && !crate::strings::str_eq(
                    u.as_str(),
                    "mod.rs",
                );
                if keep {
                    let t = match crate::canon::find_str(u.as_str(), ".") {
                        None => u,
                        Some(d) => {
                            proof {
                                crate::canon::lemma_find_props(u@, "."@);
                            }
                            let cut = u.as_str().substring_char(0, d);
                            proof {
                                assert(u@.take(d as int) =~= u@.subrange(0, d as int));
                            }
                            cut.to_owned()
                        },
                    };
                    let ghost before = mods.deep_view();
                    mods.push(t);
                    proof {
                        assert(mods.deep_view() =~= before.push(
                            mods[mods.len() - 1]@,
                        ));
                    }
                }
                k = k + 1;
            }
            proof {
                assert(sub.take(components.len() - j - 1) =~= sub);
            }
            let prefix = join_str(&mods, "::");
            if prefix.as_str().is_empty() {
                crate_name.to_owned()
            } else {
                let mut r = crate_name.to_owned();
                r.append("::");
                r.append(prefix.as_str());
                r
            }
        },
    }
}

/// One source file of a scanned package, tagged by the role its path plays
/// in the package's build targets.
pub enum RsFile {
    /// A library crate root, usually `src/lib.rs`.
    LibRoot(String),
    /// An executable crate root, usually `src/main.rs`.
    BinRoot(String),
    /// A build-script root.
    CustomBuildRoot(String),
    /// Any other source file.
    Other(String),
}

/// The path a source file record carries, whatever its role.
pub open spec fn spec_rs_file_path(f: RsFile) -> Seq<char> {
    match f {
        RsFile::LibRoot(p) => p@,
        RsFile::BinRoot(p) => p@,
        RsFile::CustomBuildRoot(p) => p@,
        RsFile::Other(p) => p@,
    }
}

impl RsFile {
    /// The wrapped path, whatever the file's role.
    pub fn as_path_buf(&self) -> (r: &String)
        ensures
            r@ == spec_rs_file_path(*self),
    {
        match self {
            RsFile::LibRoot(pb) => pb,
            RsFile::BinRoot(pb) => pb,
            RsFile::CustomBuildRoot(pb) => pb,
            RsFile::Other(pb) => pb,
        }
    }
}

} // verus!
