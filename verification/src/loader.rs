//! Loading: reads a component file and, in turn, the files it imports, each
//! once. The loader decides what to find and read next; its host finds and
//! reads the files and hands back what it got.

use vstd::prelude::*;
use crate::ast::Import;
use crate::issue::Issue;
use crate::parser::{Component as ParserComponent, CompileStatus, component_at, element_at, element_has_shape, first_decls,
    imports_spec, import_view, parse_source, named_file, parsed_from, prop_decls_spec, path_stem, upper_camel_case};
use crate::tokens::{Lexeme, lex_all, lex_failed};
use crate::source_file::Span;
use crate::table::{Table, find, lookup, unique_names};

verus! {

/// Why loading stopped.
pub enum LoadFailure {
    /// No file was found for this path (named by the import at the span,
    /// if it was an import).
    NotFound { path: String, span: Option<Span> },
    /// The file at this path could not be read.
    Unreadable(String),
    /// The file did not parse; these are the errors.
    Parse(Vec<Issue>),
    /// The host answered a request that was not made.
    OutOfOrder,
}

/// What the loader needs next.
pub enum LoadRequest {
    /// Find the file that `path` names, with or without the `.ui`
    /// extension; a relative path is taken from the directory of the file
    /// `importer`, if there is one. Answer with `found`.
    Find { path: String, importer: Option<String>, span: Option<Span> },
    /// Read the file at this path (as `found` gave it). Answer with `read`.
    Read { path: String },
    /// Everything is loaded; this is the path of the first file.
    Done { root: String },
    /// Loading failed.
    Failed(LoadFailure),
}

/// A loaded file whose imports are being loaded: its path, its component's
/// name, the imports left, and the alias of the import being loaded.
struct Frame {
    path: String,
    name: String,
    imports: Vec<Import>,
    alias: Option<String>,
}

/// What the loader waits for.
enum Awaiting {
    Found { path: String, span: Option<Span> },
    Read { path: String },
    Nothing,
}

/// Loads a component file and all the files it imports.
pub struct Loader {
    trees: Table<ParserComponent>,
    frames: Vec<Frame>,
    awaiting: Awaiting,
    /// The import declarations of each file loaded: path and alias.
    decls: Ghost<Map<Seq<char>, Seq<(Seq<char>, Option<Seq<char>>)>>>,
    /// For each file loaded, its imports resolved so far, in the order they
    /// were: the key recorded and the path of the file found.
    resolved: Ghost<Map<Seq<char>, Seq<(Seq<char>, Seq<char>)>>>,
    /// Whether the innermost file being loaded waits for one of its imports.
    inflight: Ghost<bool>,
}

/// The path recorded last under key `k` among the resolutions `res`.
pub open spec fn last_key(res: Seq<(Seq<char>, Seq<char>)>, k: Seq<char>) -> Option<Seq<char>>
    decreases res.len(),
{
    if res.len() == 0 {
        None
    } else if res.last().0 == k {
        Some(res.last().1)
    } else {
        last_key(res.drop_last(), k)
    }
}

/// The path recorded last under a key is that of the last resolution with
/// that key.
pub proof fn lemma_last_key(res: Seq<(Seq<char>, Seq<char>)>, j: int)
    requires
        0 <= j < res.len(),
        forall|i: int| j < i < res.len() ==> (#[trigger] res[i]).0 != res[j].0,
    ensures
        last_key(res, res[j].0) == Some(res[j].1),
    decreases res.len(),
{
    if j < res.len() - 1 {
        assert(res.last() == res[res.len() - 1]);
        lemma_last_key(res.drop_last(), j);
    }
}

/// The key an import is recorded under: its alias, or else the name of the
/// component imported.
pub open spec fn key_of(alias: Option<Seq<char>>, name: Seq<char>) -> Seq<char> {
    match alias {
        Some(a) => a,
        None => name,
    }
}

/// The text of an optional string.
pub open spec fn opt_view(o: Option<String>) -> Option<Seq<char>> {
    match o {
        Some(s) => Some(s@),
        None => None,
    }
}

/// The component `c` holds what the tokens `t` of a whole file read: a
/// component that reads without error, its property declarations, its root
/// element, and nothing built yet.
pub open spec fn read_from(c: ParserComponent, t: Seq<Lexeme>) -> bool {
    let imports = imports_spec(t, 0);
    let decls = prop_decls_spec(t, imports.1);
    &&& component_at(t, 0)
    &&& first_decls(c.props.entries@, decls.0)
    &&& element_at(t, decls.1) matches Some((root, _)) && element_has_shape(c.root, root)
    &&& c.status == CompileStatus::Ready
}

/// `after` keeps every component of `before` under its path, with only the
/// imports recorded for it changed.
pub open spec fn kept_components(after: Seq<(String, ParserComponent)>, before: Seq<(String, ParserComponent)>) -> bool {
    forall|p: Seq<char>| #[trigger] lookup(before, p) is Some ==> (lookup(after, p) matches Some(c)
        && c == (ParserComponent { imports_map: c.imports_map, ..lookup(before, p)->0 }))
}

/// Keeping the components is transitive.
proof fn lemma_kept_trans(a: Seq<(String, ParserComponent)>, b: Seq<(String, ParserComponent)>, c: Seq<(String, ParserComponent)>)
    requires
        kept_components(a, b),
        kept_components(b, c),
    ensures
        kept_components(a, c),
{
    assert forall|p: Seq<char>| #[trigger] lookup(c, p) is Some implies (lookup(a, p) matches Some(x)
        && x == (ParserComponent { imports_map: x.imports_map, ..lookup(c, p)->0 })) by {
        assert(lookup(b, p) is Some);
    }
}

/// The paths loaded.
pub open spec fn loaded(trees: Seq<(String, ParserComponent)>, p: Seq<char>) -> bool {
    lookup(trees, p) is Some
}

impl Loader {
    /// The loader's consistency: each path is loaded once, every file whose
    /// imports are being loaded is loaded once on the stack, and the imports
    /// recorded are those resolved.
    pub closed spec fn wf(&self) -> bool {
        &&& unique_names(self.trees.entries@)
        &&& forall|k: int| 0 <= k < self.trees.entries@.len() ==> unique_names((#[trigger] self.trees.entries@[k]).1.imports_map.entries@)
        &&& forall|k: int| 0 <= k < self.frames@.len() ==> loaded(self.trees.entries@, (#[trigger] self.frames@[k]).path@)
        &&& self.awaiting matches Awaiting::Read { path } ==> !loaded(self.trees.entries@, path@)
        &&& self.awaiting is Found ==> self.frames@.len() > 0 || self.trees.entries@.len() == 0
        &&& forall|p: Seq<char>| #[trigger] loaded(self.trees.entries@, p) <==> self.decls@.contains_key(p)
        &&& forall|p: Seq<char>| #[trigger] self.resolved@.contains_key(p) <==> self.decls@.contains_key(p)
        &&& self.imports_resolved()
        &&& forall|f1: int, f2: int| 0 <= f1 < f2 < self.frames@.len() ==> (#[trigger] self.frames@[f1]).path@ != (#[trigger] self.frames@[f2]).path@
        &&& forall|f: int| 0 <= f < self.frames@.len() ==> #[trigger] self.frame_ok(f)
        &&& forall|p: Seq<char>| #[trigger] loaded(self.trees.entries@, p) && !self.in_frames(p)
            ==> self.resolved@[p].len() == self.decls@[p].len()
        &&& (self.awaiting is Found || self.awaiting is Read) && self.frames@.len() > 0 ==> self.inflight@
    }

    /// Some file being loaded has the path `p`.
    pub closed spec fn in_frames(&self, p: Seq<char>) -> bool {
        exists|f: int| 0 <= f < self.frames@.len() && (#[trigger] self.frames@[f]).path@ == p
    }

    /// Whether the file `f` places from the bottom of the stack waits for one
    /// of its imports: every file but the innermost does.
    pub closed spec fn waits(&self, f: int) -> bool {
        f < self.frames@.len() - 1 || self.inflight@
    }

    /// The file `f` places from the bottom of the stack has its first
    /// imports left, the one it waits for after them, and the rest resolved.
    pub closed spec fn frame_ok(&self, f: int) -> bool {
        let fr = self.frames@[f];
        let d = self.decls@[fr.path@];
        let m = fr.imports@.len() as int;
        &&& fr.imports@.map_values(|i: Import| import_view(i)) == d.take(m)
        &&& self.resolved@[fr.path@].len() + m + (if self.waits(f) { 1int } else { 0int }) == d.len()
        &&& self.waits(f) ==> opt_view(fr.alias) == d[m].1
        &&& fr.name@ == self.name_of(fr.path@)
    }

    /// The import declarations of the file loaded from `p`: path and alias.
    pub closed spec fn declarations(&self, p: Seq<char>) -> Seq<(Seq<char>, Option<Seq<char>>)> {
        self.decls@[p]
    }

    /// The imports of the file loaded from `p` resolved so far, the last
    /// declared first: the key recorded for each, and the path of the file
    /// found for it.
    pub closed spec fn resolutions(&self, p: Seq<char>) -> Seq<(Seq<char>, Seq<char>)> {
        self.resolved@[p]
    }

    /// The name of the component loaded from `p`.
    pub open spec fn name_of(&self, p: Seq<char>) -> Seq<char> {
        lookup(self.tree_entries(), p)->0.name@
    }

    /// The imports recorded for the file loaded from `p`.
    pub open spec fn imports_of(&self, p: Seq<char>) -> Seq<(String, String)> {
        lookup(self.tree_entries(), p)->0.imports_map.entries@
    }

    /// The file loaded from `p` records, under each key, the path resolved
    /// last under it; and each import resolved is recorded under its alias,
    /// or else under the name of the component found for it.
    pub open spec fn resolved_well(&self, p: Seq<char>) -> bool {
        &&& forall|k: Seq<char>| #[trigger] opt_view(lookup(self.imports_of(p), k)) == last_key(self.resolutions(p), k)
        &&& forall|j: int| 0 <= j < self.resolutions(p).len() ==> {
            let d = self.declarations(p);
            &&& j < d.len()
            &&& loaded(self.tree_entries(), (#[trigger] self.resolutions(p)[j]).1)
            &&& self.resolutions(p)[j].0 == key_of(d[d.len() - 1 - j].1, self.name_of(self.resolutions(p)[j].1))
        }
    }

    /// Every file loaded records the imports resolved for it.
    pub open spec fn imports_resolved(&self) -> bool {
        forall|p: Seq<char>| loaded(self.tree_entries(), p) ==> #[trigger] self.resolved_well(p)
    }

    /// Once every import is resolved, an import declaration of a file is
    /// recorded, under its alias or else the name of the component found for
    /// it, as the path found for it, unless an earlier declaration of the
    /// file takes the same key.
    pub proof fn lemma_import_recorded(&self, p: Seq<char>, k: int)
        requires
            self.imports_resolved(),
            self.all_resolved(),
            loaded(self.tree_entries(), p),
            0 <= k < self.declarations(p).len(),
            forall|k2: int| 0 <= k2 < k ==> (#[trigger] self.resolutions(p)[self.declarations(p).len() - 1 - k2]).0
                != self.resolutions(p)[self.declarations(p).len() - 1 - k].0,
        ensures
            ({
                let n = self.declarations(p).len();
                let r = self.resolutions(p)[n - 1 - k];
                &&& r.0 == key_of(self.declarations(p)[k].1, self.name_of(r.1))
                &&& opt_view(lookup(self.imports_of(p), r.0)) == Some(r.1)
            }),
    {
        let n = self.declarations(p).len();
        let res = self.resolutions(p);
        let j = n - 1 - k;
        assert(self.resolved_well(p));
        assert(res.len() == n);
        assert(res[j] == self.resolutions(p)[j]);
        assert forall|i: int| j < i < res.len() implies (#[trigger] res[i]).0 != res[j].0 by {
            let k2 = n - 1 - i;
            assert(res[n - 1 - k2] == res[i]);
        }
        lemma_last_key(res, j);
        assert(opt_view(lookup(self.imports_of(p), res[j].0)) == last_key(self.resolutions(p), res[j].0));
    }

    /// Every import of every file loaded is resolved.
    pub open spec fn all_resolved(&self) -> bool {
        forall|p: Seq<char>| loaded(self.tree_entries(), p) ==> #[trigger] self.resolutions(p).len() == self.declarations(p).len()
    }

    /// The files loaded so far, by path.
    pub closed spec fn tree_entries(&self) -> Seq<(String, ParserComponent)> {
        self.trees.entries@
    }

    /// The files loaded so far, by path.
    pub fn trees(&self) -> (r: &Table<ParserComponent>)
        ensures
            r.entries@ == self.tree_entries(),
    {
        &self.trees
    }

    /// Gives up the files loaded, by path.
    pub fn into_trees(self) -> (r: Table<ParserComponent>)
        ensures
            r.entries@ == self.tree_entries(),
    {
        self.trees
    }

    /// Whether the loader waits for the answer to a `Find` request.
    pub closed spec fn awaits_find(&self) -> bool {
        self.awaiting is Found
    }

    /// The path of the file the loader waits to find or read.
    pub closed spec fn awaited_path(&self) -> Seq<char> {
        match self.awaiting {
            Awaiting::Found { path, .. } => path@,
            Awaiting::Read { path } => path@,
            Awaiting::Nothing => Seq::empty(),
        }
    }

    /// Whether the loader waits for the answer to a `Read` request.
    pub closed spec fn awaits_read(&self) -> bool {
        self.awaiting is Read
    }

    /// A loader that starts from the file `path`, and its first request.
    pub fn new(path: String) -> (r: (Loader, LoadRequest))
        ensures
            r.0.wf(),
            r.0.tree_entries().len() == 0,
            r.0.awaits_find(),
            r.0.awaited_path() == path@,
            r.1 matches LoadRequest::Find { path: p, importer, span } && p@ == path@ && importer is None && span is None,
    {
        let request = LoadRequest::Find { path: path.clone(), importer: None, span: None };
        let loader = Loader {
            trees: Table::new(),
            frames: Vec::new(),
            awaiting: Awaiting::Found { path, span: None },
            decls: Ghost(Map::empty()),
            resolved: Ghost(Map::empty()),
            inflight: Ghost(false),
        };
        (loader, request)
    }

    /// The resolutions of `before` are kept in `after`, perhaps with more.
    pub open spec fn grows(after: &Loader, before: &Loader) -> bool {
        forall|p: Seq<char>| loaded(before.tree_entries(), p) ==> (#[trigger] after.resolutions(p)).len() >= before.resolutions(p).len()
            && after.resolutions(p).take(before.resolutions(p).len() as int) == before.resolutions(p)
    }

    /// A loader that differs from a consistent one only in what it waits
    /// for is consistent, where what it waits for fits.
    proof fn lemma_wf_moved(a: &Loader, b: &Loader)
        requires
            b.wf(),
            a.trees == b.trees,
            a.frames == b.frames,
            a.decls == b.decls,
            a.resolved == b.resolved,
            a.inflight == b.inflight,
            (a.awaiting is Found || a.awaiting is Read) && a.frames@.len() > 0 ==> a.inflight@,
            a.awaiting matches Awaiting::Read { path } ==> !loaded(a.trees.entries@, path@),
            a.awaiting is Found ==> a.frames@.len() > 0 || a.trees.entries@.len() == 0,
        ensures
            a.wf(),
            Self::grows(a, b),
    {
        assert forall|f: int| 0 <= f < a.frames@.len() implies #[trigger] a.frame_ok(f) by {
            assert(b.frame_ok(f));
        }
        assert forall|p: Seq<char>| loaded(a.tree_entries(), p) implies #[trigger] a.resolved_well(p) by {
            assert(b.resolved_well(p));
        }
        assert forall|p: Seq<char>| #[trigger] loaded(a.trees.entries@, p) && !a.in_frames(p)
            implies a.resolved@[p].len() == a.decls@[p].len() by {
            assert(!b.in_frames(p)) by {
                if b.in_frames(p) {
                    let f = choose|f: int| 0 <= f < b.frames@.len() && (#[trigger] b.frames@[f]).path@ == p;
                    assert(a.frames@[f].path@ == p);
                }
            }
        }
        assert forall|p: Seq<char>| loaded(b.tree_entries(), p) implies (#[trigger] a.resolutions(p)).len() >= b.resolutions(p).len()
            && a.resolutions(p).take(b.resolutions(p).len() as int) == b.resolutions(p) by {
            assert(a.resolutions(p).take(b.resolutions(p).len() as int) =~= b.resolutions(p));
        }
    }

    /// Loaders with the same files, declarations and resolutions record the
    /// same imports, and one grows from the other.
    proof fn lemma_same_records(a: &Loader, b: &Loader)
        requires
            b.imports_resolved(),
            a.trees == b.trees,
            a.decls == b.decls,
            a.resolved == b.resolved,
        ensures
            a.imports_resolved(),
            Self::grows(a, b),
    {
        assert forall|p: Seq<char>| loaded(a.tree_entries(), p) implies #[trigger] a.resolved_well(p) by {
            assert(b.resolved_well(p));
        }
        assert forall|p: Seq<char>| loaded(b.tree_entries(), p) implies (#[trigger] a.resolutions(p)).len() >= b.resolutions(p).len()
            && a.resolutions(p).take(b.resolutions(p).len() as int) == b.resolutions(p) by {
            assert(a.resolutions(p).take(b.resolutions(p).len() as int) =~= b.resolutions(p));
        }
    }

    /// Takes up the next import of the innermost file whose imports are
    /// being loaded; once a file has none left, its loading is complete and
    /// it is recorded as the import of the file that imported it.
    fn next(&mut self) -> (r: LoadRequest)
        requires
            old(self).wf(),
            !old(self).inflight@,
        ensures
            final(self).wf(),
            forall|p: Seq<char>| loaded(old(self).trees.entries@, p) ==> #[trigger] loaded(final(self).trees.entries@, p),
            r is Done ==> final(self).awaiting is Nothing && final(self).frames@.len() == 0,
            r matches LoadRequest::Done { root } ==> loaded(final(self).trees.entries@, root@),
            r is Done ==> final(self).all_resolved(),
            r is Find ==> final(self).awaits_find(),
            r matches LoadRequest::Find { path, .. } ==> final(self).awaited_path() == path@,
            !(r is Read),
            r matches LoadRequest::Failed(f) ==> f is OutOfOrder,
            old(self).frames@.len() > 0 ==> !(r is Failed),
            kept_components(final(self).trees.entries@, old(self).trees.entries@),
            Self::grows(&*final(self), &*old(self)),
            final(self).decls == old(self).decls,
    {
        self.awaiting = Awaiting::Nothing;
        proof {
            Self::lemma_wf_moved(&*self, &*old(self));
        }
        loop
            invariant
                self.wf(),
                !self.inflight@,
                forall|p: Seq<char>| loaded(old(self).trees.entries@, p) ==> #[trigger] loaded(self.trees.entries@, p),
                old(self).frames@.len() > 0 ==> self.frames@.len() > 0,
                kept_components(self.trees.entries@, old(self).trees.entries@),
                Self::grows(&*self, &*old(self)),
                self.decls == old(self).decls,
                self.awaiting is Nothing,
            decreases self.frames@.len(),
        {
            if self.frames.len() == 0 {
                self.awaiting = Awaiting::Nothing;
                return LoadRequest::Failed(LoadFailure::OutOfOrder);
            }
            let top = self.frames.len() - 1;
            let ghost fs = self.frames@;
            let ghost before = *self;
            let mut frame = self.frames.pop().unwrap();
            proof {
                assert(frame == fs[top as int]);
                assert(loaded(self.trees.entries@, frame.path@));
                assert(before.frame_ok(top as int));
            }
            let ghost fi = frame.imports@;
            match frame.imports.pop() {
                Some(import) => {
                    frame.alias = import.alias;
                    let importer = frame.path.clone();
                    let ghost fs4 = self.frames@;
                    let ghost fp = frame.path;
                    self.frames.push(frame);
                    proof {
                        self.inflight = Ghost(true);
                    }
                    self.awaiting = Awaiting::Found { path: import.path.clone(), span: Some(import.span.duplicate()) };
                    proof {
                        let d = self.decls@[fp@];
                        let m = fi.len() as int;
                        assert(fi.map_values(|i: Import| import_view(i)) == d.take(m));
                        assert(fi.map_values(|i: Import| import_view(i))[m - 1] == import_view(import));
                        assert(self.frames@[top as int].imports@ =~= fi.drop_last());
                        assert(fi.drop_last().map_values(|i: Import| import_view(i)) =~= d.take(m - 1));
                        assert forall|k: int| 0 <= k < self.frames@.len() implies loaded(self.trees.entries@, (#[trigger] self.frames@[k]).path@) by {
                            if k < fs4.len() {
                                assert(self.frames@[k] == fs4[k]);
                                assert(fs4[k] == fs[k]);
                            }
                        }
                        assert forall|f: int| 0 <= f < self.frames@.len() implies #[trigger] self.frame_ok(f) by {
                            if f < top {
                                assert(self.frames@[f] == fs[f]);
                                assert(before.frame_ok(f));
                            }
                        }
                        assert forall|f1: int, f2: int| 0 <= f1 < f2 < self.frames@.len() implies
                            (#[trigger] self.frames@[f1]).path@ != (#[trigger] self.frames@[f2]).path@ by {
                            assert(before.frames@[f1] == fs[f1]);
                            assert(before.frames@[f2] == fs[f2]);
                            if f2 < top {
                                assert(self.frames@[f2] == fs[f2]);
                            }
                            assert(self.frames@[f1] == fs[f1]);
                        }
                        assert forall|p: Seq<char>| #[trigger] loaded(self.trees.entries@, p) && !self.in_frames(p)
                            implies self.resolved@[p].len() == self.decls@[p].len() by {
                            if before.in_frames(p) {
                                let f = choose|f: int| 0 <= f < before.frames@.len() && (#[trigger] before.frames@[f]).path@ == p;
                                if f < top {
                                    assert(self.frames@[f] == fs[f]);
                                } else {
                                    assert(self.frames@[top as int].path@ == fs[top as int].path@);
                                }
                            }
                        }
                        Self::lemma_same_records(&*self, &before);
                        Self::lemma_grows_trans(&*self, &before, &*old(self));
                    }
                    return LoadRequest::Find { path: import.path, importer: Some(importer), span: Some(import.span) };
                },
                None => {
                    proof {
                        assert(self.resolved@[frame.path@].len() == self.decls@[frame.path@].len());
                        assert forall|f1: int, f2: int| 0 <= f1 < f2 < self.frames@.len() implies
                            (#[trigger] self.frames@[f1]).path@ != (#[trigger] self.frames@[f2]).path@ by {
                            assert(self.frames@[f1] == fs[f1]);
                            assert(self.frames@[f2] == fs[f2]);
                        }
                        assert forall|p: Seq<char>| #[trigger] loaded(self.trees.entries@, p) && !self.in_frames(p)
                            implies self.resolved@[p].len() == self.decls@[p].len() by {
                            if p != frame.path@ {
                                assert(!before.in_frames(p)) by {
                                    if before.in_frames(p) {
                                        let f = choose|f: int| 0 <= f < before.frames@.len() && (#[trigger] before.frames@[f]).path@ == p;
                                        assert(f != top);
                                        assert(self.frames@[f] == fs[f]);
                                    }
                                }
                            }
                        }
                        assert forall|k: int| 0 <= k < self.frames@.len() implies loaded(self.trees.entries@, (#[trigger] self.frames@[k]).path@) by {
                            assert(self.frames@[k] == fs[k]);
                        }
                    }
                    if self.frames.len() == 0 {
                        self.awaiting = Awaiting::Nothing;
                        proof {
                            Self::lemma_same_records(&*self, &before);
                            Self::lemma_grows_trans(&*self, &before, &*old(self));
                            assert forall|p: Seq<char>| loaded(self.tree_entries(), p) implies
                                #[trigger] self.resolutions(p).len() == self.declarations(p).len() by {
                                assert(loaded(self.trees.entries@, p));
                            }
                        }
                        return LoadRequest::Done { root: frame.path };
                    }
                    proof {
                        self.inflight = Ghost(true);
                        Self::lemma_same_records(&*self, &before);
                        Self::lemma_grows_trans(&*self, &before, &*old(self));
                        assert forall|f: int| 0 <= f < self.frames@.len() implies #[trigger] self.frame_ok(f) by {
                            assert(self.frames@[f] == fs[f]);
                            assert(before.frame_ok(f));
                            assert(before.waits(f));
                        }
                    }
                    let ghost before_resolve = *self;
                    self.resolve_top(frame.name, frame.path);
                    proof {
                        lemma_kept_trans(self.trees.entries@, before_resolve.trees.entries@, old(self).trees.entries@);
                        Self::lemma_grows_trans(&*self, &before_resolve, &*old(self));
                    }
                },
            }
        }
    }

    /// Growing is transitive.
    proof fn lemma_grows_trans(a: &Loader, b: &Loader, c: &Loader)
        requires
            Self::grows(a, b),
            Self::grows(b, c),
            forall|p: Seq<char>| loaded(c.tree_entries(), p) ==> #[trigger] loaded(b.tree_entries(), p),
        ensures
            Self::grows(a, c),
    {
        assert forall|p: Seq<char>| loaded(c.tree_entries(), p) implies (#[trigger] a.resolutions(p)).len() >= c.resolutions(p).len()
            && a.resolutions(p).take(c.resolutions(p).len() as int) == c.resolutions(p) by {
            assert(loaded(b.tree_entries(), p));
            assert(a.resolutions(p).take(c.resolutions(p).len() as int)
                =~= a.resolutions(p).take(b.resolutions(p).len() as int).take(c.resolutions(p).len() as int));
        }
    }

    /// The innermost file being loaded, which waits for an import, gets the
    /// file `path`, whose component is named `name`, as that import: it is
    /// recorded under the import's alias, or else under `name`.
    fn resolve_top(&mut self, name: String, path: String)
        requires
            old(self).wf(),
            old(self).frames@.len() > 0,
            old(self).inflight@,
            old(self).awaiting is Nothing,
            loaded(old(self).trees.entries@, path@),
            name@ == old(self).name_of(path@),
        ensures
            final(self).wf(),
            !final(self).inflight@,
            final(self).awaiting is Nothing,
            final(self).frames@.len() == old(self).frames@.len(),
            forall|p: Seq<char>| #[trigger] loaded(final(self).trees.entries@, p) == loaded(old(self).trees.entries@, p),
            kept_components(final(self).trees.entries@, old(self).trees.entries@),
            Self::grows(&*final(self), &*old(self)),
            final(self).decls == old(self).decls,
            ({
                let q = old(self).frames@.last().path@;
                &&& final(self).resolutions(q).len() == old(self).resolutions(q).len() + 1
                &&& final(self).resolutions(q).last().1 == path@
            }),
    {
        let top = self.frames.len() - 1;
        let ghost fs = self.frames@;
        let ghost before = *self;
        let mut parent = self.frames.pop().unwrap();
        proof {
            assert(parent == fs[top as int]);
            assert(before.frame_ok(top as int));
        }
        let key = match parent.alias {
            Some(a) => a,
            None => name,
        };
        parent.alias = None;
        let ghost q = parent.path@;
        let ghost before_record = self.trees.entries@;
        self.record(&parent.path, key, path);
        let ghost fs3 = self.frames@;
        self.frames.push(parent);
        proof {
            let old_res = before.resolved@[q];
            let new_res = old_res.push((key@, path@));
            self.resolved = Ghost(self.resolved@.insert(q, new_res));
            self.inflight = Ghost(false);
            let d = self.decls@[q];
            assert(self.frames@ =~= fs.update(top as int, parent));
            assert(key@ == key_of(d[d.len() - 1 - old_res.len()].1, name@));
            assert forall|p: Seq<char>| #[trigger] lookup(self.trees.entries@, p) == lookup(before.trees.entries@, p) || p == q by {}
            assert forall|p: Seq<char>| loaded(self.tree_entries(), p) implies #[trigger] self.resolved_well(p) by {
                assert(before.resolved_well(p));
                if p == q {
                    assert forall|k: Seq<char>| #[trigger] opt_view(lookup(self.imports_of(p), k)) == last_key(self.resolutions(p), k) by {
                        assert(new_res.drop_last() =~= old_res);
                        assert(opt_view(lookup(before.imports_of(p), k)) == last_key(old_res, k));
                    }
                    assert forall|j: int| 0 <= j < self.resolutions(p).len() implies {
                        let dd = self.declarations(p);
                        &&& j < dd.len()
                        &&& loaded(self.tree_entries(), (#[trigger] self.resolutions(p)[j]).1)
                        &&& self.resolutions(p)[j].0 == key_of(dd[dd.len() - 1 - j].1, self.name_of(self.resolutions(p)[j].1))
                    } by {
                        if j < old_res.len() {
                            assert(self.resolutions(p)[j] == old_res[j]);
                            assert(before.resolutions(p)[j] == old_res[j]);
                            assert(self.name_of(old_res[j].1) == before.name_of(old_res[j].1));
                        }
                    }
                } else {
                    assert(self.resolutions(p) == before.resolutions(p));
                    assert(self.imports_of(p) == before.imports_of(p));
                    assert forall|j: int| 0 <= j < self.resolutions(p).len() implies
                        self.name_of((#[trigger] self.resolutions(p)[j]).1) == before.name_of(self.resolutions(p)[j].1) by {
                        assert(lookup(before.trees.entries@, self.resolutions(p)[j].1) is Some);
                    }
                }
            }
            assert forall|f: int| 0 <= f < self.frames@.len() implies #[trigger] self.frame_ok(f) by {
                assert(before.frame_ok(f));
                if f < top {
                    assert(self.frames@[f] == fs[f]);
                    assert(self.name_of(fs[f].path@) == before.name_of(fs[f].path@));
                } else {
                    assert(self.name_of(q) == before.name_of(q));
                }
            }
            assert forall|f1: int, f2: int| 0 <= f1 < f2 < self.frames@.len() implies
                (#[trigger] self.frames@[f1]).path@ != (#[trigger] self.frames@[f2]).path@ by {
                assert(before.frames@[f1] == fs[f1]);
                assert(before.frames@[f2] == fs[f2]);
            }
            assert forall|p: Seq<char>| #[trigger] loaded(self.trees.entries@, p) && !self.in_frames(p)
                implies self.resolved@[p].len() == self.decls@[p].len() by {
                assert(!before.in_frames(p)) by {
                    if before.in_frames(p) {
                        let f = choose|f: int| 0 <= f < before.frames@.len() && (#[trigger] before.frames@[f]).path@ == p;
                        assert(self.frames@[f].path@ == p);
                    }
                }
                assert(p != q) by {
                    assert(self.frames@[top as int].path@ == q);
                }
            }
            assert forall|k: int| 0 <= k < self.frames@.len() implies loaded(self.trees.entries@, (#[trigger] self.frames@[k]).path@) by {
                assert(loaded(before.trees.entries@, fs[k].path@));
            }
            assert forall|p: Seq<char>| loaded(before.tree_entries(), p) implies (#[trigger] self.resolutions(p)).len() >= before.resolutions(p).len()
                && self.resolutions(p).take(before.resolutions(p).len() as int) == before.resolutions(p) by {
                if p == q {
                    assert(new_res.take(old_res.len() as int) =~= old_res);
                } else {
                    assert(self.resolutions(p).take(before.resolutions(p).len() as int) =~= before.resolutions(p));
                }
            }
        }
    }

    /// Records that the file `importer` imports the file `path` as `key`.
    fn record(&mut self, importer: &String, key: String, path: String)
        requires
            unique_names(old(self).trees.entries@),
            forall|k: int| 0 <= k < old(self).trees.entries@.len() ==> unique_names((#[trigger] old(self).trees.entries@[k]).1.imports_map.entries@),
        ensures
            unique_names(final(self).trees.entries@),
            forall|k: int| 0 <= k < final(self).trees.entries@.len() ==> unique_names((#[trigger] final(self).trees.entries@[k]).1.imports_map.entries@),
            final(self).frames == old(self).frames,
            final(self).awaiting == old(self).awaiting,
            final(self).decls == old(self).decls,
            final(self).resolved == old(self).resolved,
            final(self).inflight == old(self).inflight,
            forall|p: Seq<char>| #[trigger] loaded(final(self).trees.entries@, p) == loaded(old(self).trees.entries@, p),
            kept_components(final(self).trees.entries@, old(self).trees.entries@),
            forall|p: Seq<char>| p != importer@ ==> #[trigger] lookup(final(self).trees.entries@, p) == lookup(old(self).trees.entries@, p),
            lookup(old(self).trees.entries@, importer@) is Some ==> {
                let c = lookup(old(self).trees.entries@, importer@)->0;
                let c2 = lookup(final(self).trees.entries@, importer@)->0;
                &&& c2 == (ParserComponent { imports_map: c2.imports_map, ..c })
                &&& lookup(c2.imports_map.entries@, key@) == Some(path)
                &&& forall|n: Seq<char>| n != key@ ==> #[trigger] lookup(c2.imports_map.entries@, n) == lookup(c.imports_map.entries@, n)
            },
    {
        if let Some(i) = self.trees.position(importer.as_str()) {
            let ghost before = self.trees.entries@;
            let mut entry = self.trees.entries.remove(i);
            proof {
                assert(entry == before[i as int]);
                crate::table::lemma_find_from(before, importer@, 0);
            }
            entry.1.imports_map.insert(key, path);
            let ghost e = entry;
            self.trees.entries.insert(i, entry);
            proof {
                assert(self.trees.entries@ =~= before.update(i as int, e));
                crate::table::lemma_same_keys(self.trees.entries@, before);
                let after = self.trees.entries@;
                assert forall|p: Seq<char>| #[trigger] lookup(before, p) is Some implies (lookup(after, p) matches Some(c)
                    && c == (ParserComponent { imports_map: c.imports_map, ..lookup(before, p)->0 })) by {
                    assert forall|j: int| 0 <= j < after.len() implies (#[trigger] after[j].0@ == p) == (before[j].0@ == p) by {
                        if j != i {
                            assert(after[j] == before[j]);
                        }
                    }
                    crate::table::lemma_find_same(after, before, p, 0);
                    crate::table::lemma_find_from(before, p, 0);
                    let f = find(before, p);
                    if f != i {
                        assert(after[f] == before[f]);
                    }
                }
                assert forall|p: Seq<char>| p != importer@ implies #[trigger] lookup(after, p) == lookup(before, p) by {
                    assert forall|j: int| 0 <= j < after.len() implies (#[trigger] after[j].0@ == p) == (before[j].0@ == p) by {
                        if j != i {
                            assert(after[j] == before[j]);
                        }
                    }
                    crate::table::lemma_find_same(after, before, p, 0);
                    crate::table::lemma_find_from(before, p, 0);
                    let f = find(before, p);
                    if 0 <= f {
                        assert(f != i);
                        assert(after[f] == before[f]);
                    }
                }
                crate::table::lemma_find_from(before, importer@, 0);
                assert forall|j: int| 0 <= j < after.len() implies (#[trigger] after[j].0@ == importer@) == (before[j].0@ == importer@) by {
                    if j != i {
                        assert(after[j] == before[j]);
                    }
                }
                crate::table::lemma_find_same(after, before, importer@, 0);
                assert forall|k: int| 0 <= k < self.trees.entries@.len() implies unique_names((#[trigger] self.trees.entries@[k]).1.imports_map.entries@) by {
                    if k != i {
                        assert(self.trees.entries@[k] == before[k]);
                    }
                }
            }
        }
    }

    /// Takes the host's answer to a `Find` request: the path of the file
    /// found, or nothing. A file found again is not read again: it is the
    /// import at once.
    pub fn found(&mut self, path: Option<String>) -> (r: LoadRequest)
        requires
            old(self).wf(),
        ensures
            final(self).wf(),
            final(self).imports_resolved(),
            forall|p: Seq<char>| loaded(old(self).tree_entries(), p) ==> #[trigger] loaded(final(self).tree_entries(), p),
            !old(self).awaits_find() ==> r matches LoadRequest::Failed(LoadFailure::OutOfOrder),
            old(self).awaits_find() && path is None ==> r matches LoadRequest::Failed(LoadFailure::NotFound { .. }),
            old(self).awaits_find() ==> (path matches Some(p) ==> (!loaded(old(self).tree_entries(), p@)
                ==> (r matches LoadRequest::Read { path: q } && q@ == p@ && final(self).awaits_read()
                && final(self).awaited_path() == p@))),
            old(self).awaits_find() ==> (path matches Some(p) ==> (loaded(old(self).tree_entries(), p@) ==> !(r is Read))),
            r matches LoadRequest::Done { root } ==> loaded(final(self).tree_entries(), root@),
            r is Done ==> final(self).all_resolved(),
            r matches LoadRequest::Find { path, .. } ==> final(self).awaits_find() && final(self).awaited_path() == path@,
            old(self).awaits_find() ==> (path matches Some(p) ==> (loaded(old(self).tree_entries(), p@) ==> !(r is Failed))),
            kept_components(final(self).tree_entries(), old(self).tree_entries()),
            Self::grows(&*final(self), &*old(self)),
            old(self).awaits_find() ==> (path matches Some(p) ==> (loaded(old(self).tree_entries(), p@) ==> (old(self).importer()
                matches Some(q) ==> (final(self).resolutions(q).len() > old(self).resolutions(q).len()
                && final(self).resolutions(q)[old(self).resolutions(q).len() as int].1 == p@)))),
    {
        let (requested, span) = match &self.awaiting {
            Awaiting::Found { path, span } => (path.clone(), match span {
                Some(s) => Some(s.duplicate()),
                None => None,
            }),
            _ => {
                self.awaiting = Awaiting::Nothing;
                proof {
                    Self::lemma_wf_moved(&*self, &*old(self));
                }
                return LoadRequest::Failed(LoadFailure::OutOfOrder);
            },
        };
        match path {
            None => {
                self.awaiting = Awaiting::Nothing;
                proof {
                    Self::lemma_wf_moved(&*self, &*old(self));
                }
                LoadRequest::Failed(LoadFailure::NotFound { path: requested, span })
            },
            Some(p) => {
                match self.trees.get(p.as_str()) {
                    Some(component) => {
                        let name = component.name.clone();
                        self.complete(name, p)
                    },
                    None => {
                        self.awaiting = Awaiting::Read { path: p.clone() };
                        proof {
                            Self::lemma_wf_moved(&*self, &*old(self));
                        }
                        LoadRequest::Read { path: p }
                    },
                }
            },
        }
    }

    /// The path of the innermost file being loaded, if any.
    pub closed spec fn importer(&self) -> Option<Seq<char>> {
        if self.frames@.len() > 0 {
            Some(self.frames@.last().path@)
        } else {
            None
        }
    }

    /// The file `path`, whose component is named `name`, is loaded with all
    /// it imports: records it as the import of the file that imported it,
    /// and takes up what is next.
    fn complete(&mut self, name: String, path: String) -> (r: LoadRequest)
        requires
            old(self).wf(),
            loaded(old(self).trees.entries@, path@),
            name@ == old(self).name_of(path@),
            old(self).frames@.len() > 0 ==> old(self).inflight@,
        ensures
            final(self).wf(),
            forall|p: Seq<char>| loaded(old(self).trees.entries@, p) ==> #[trigger] loaded(final(self).trees.entries@, p),
            r matches LoadRequest::Done { root } ==> loaded(final(self).trees.entries@, root@),
            r is Done ==> final(self).all_resolved(),
            !(r is Read),
            !(r is Failed),
            r matches LoadRequest::Find { path, .. } ==> final(self).awaits_find() && final(self).awaited_path() == path@,
            kept_components(final(self).trees.entries@, old(self).trees.entries@),
            Self::grows(&*final(self), &*old(self)),
            final(self).decls == old(self).decls,
            old(self).importer() matches Some(q) ==> (final(self).resolutions(q).len() > old(self).resolutions(q).len()
                && final(self).resolutions(q)[old(self).resolutions(q).len() as int].1 == path@),
    {
        self.awaiting = Awaiting::Nothing;
        proof {
            Self::lemma_wf_moved(&*self, &*old(self));
        }
        if self.frames.len() == 0 {
            proof {
                assert forall|p: Seq<char>| loaded(self.tree_entries(), p) implies
                    #[trigger] self.resolutions(p).len() == self.declarations(p).len() by {
                    assert(loaded(self.trees.entries@, p));
                    assert(!self.in_frames(p));
                }
            }
            return LoadRequest::Done { root: path };
        }
        let ghost moved = *self;
        self.resolve_top(name, path);
        let ghost resolved_state = *self;
        let r = self.next();
        proof {
            let q = old(self).frames@.last().path@;
            assert(loaded(old(self).tree_entries(), q));
            lemma_kept_trans(resolved_state.trees.entries@, moved.trees.entries@, old(self).trees.entries@);
            lemma_kept_trans(self.trees.entries@, resolved_state.trees.entries@, old(self).trees.entries@);
            Self::lemma_grows_trans(&resolved_state, &moved, &*old(self));
            Self::lemma_grows_trans(&*self, &resolved_state, &*old(self));
            assert(resolved_state.resolutions(q).last().1 == path@);
            assert(loaded(resolved_state.tree_entries(), q));
            assert(self.resolutions(q).take(resolved_state.resolutions(q).len() as int)[old(self).resolutions(q).len() as int]
                == self.resolutions(q)[old(self).resolutions(q).len() as int]);
        }
        r
    }

    /// Takes the host's answer to a `Read` request: the text of the file, or
    /// nothing if it could not be read. The file is parsed, and its imports
    /// are taken up, the last first.
    pub fn read(&mut self, contents: Option<String>) -> (r: LoadRequest)
        requires
            old(self).wf(),
        ensures
            final(self).wf(),
            final(self).imports_resolved(),
            forall|p: Seq<char>| loaded(old(self).tree_entries(), p) ==> #[trigger] loaded(final(self).tree_entries(), p),
            !old(self).awaits_read() ==> r matches LoadRequest::Failed(LoadFailure::OutOfOrder),
            old(self).awaits_read() && contents is None ==> r matches LoadRequest::Failed(LoadFailure::Unreadable(_)),
            r matches LoadRequest::Failed(LoadFailure::Parse(issues)) ==> issues@.len() > 0,
            r matches LoadRequest::Done { root } ==> loaded(final(self).tree_entries(), root@),
            r is Done ==> final(self).all_resolved(),
            !(r is Read),
            old(self).awaits_read() && !(r is Failed) ==> loaded(final(self).tree_entries(), old(self).awaited_path()),
            r matches LoadRequest::Find { path, .. } ==> final(self).awaits_find() && final(self).awaited_path() == path@,
            kept_components(final(self).tree_entries(), old(self).tree_entries()),
            Self::grows(&*final(self), &*old(self)),
            old(self).awaits_read() ==> (contents matches Some(text) ==> (text@.len() < usize::MAX ==> {
                let t = lex_all(text@, 0);
                let path = old(self).awaited_path();
                &&& r is Failed ==> (r matches LoadRequest::Failed(LoadFailure::Parse(_)))
                &&& lex_failed(text@, 0) || !component_at(t, 0) ==> (r matches LoadRequest::Failed(LoadFailure::Parse(_)))
                &&& !lex_failed(text@, 0) && component_at(t, 0) && named_file(path) ==> !(r is Failed)
                &&& !(r is Failed) ==> (lookup(final(self).tree_entries(), path) matches Some(c) && read_from(c, t)
                    && (named_file(path) ==> c.name@ == upper_camel_case(path_stem(path)))
                    && final(self).declarations(path) == imports_spec(t, 0).0)
            })),
    {
        let path = match &self.awaiting {
            Awaiting::Read { path } => path.clone(),
            _ => {
                self.awaiting = Awaiting::Nothing;
                proof {
                    Self::lemma_wf_moved(&*self, &*old(self));
                }
                return LoadRequest::Failed(LoadFailure::OutOfOrder);
            },
        };
        self.awaiting = Awaiting::Nothing;
        proof {
            Self::lemma_wf_moved(&*self, &*old(self));
        }
        let text = match contents {
            Some(t) => t,
            None => {
                return LoadRequest::Failed(LoadFailure::Unreadable(path));
            },
        };
        if crate::text::chars_of(text.as_str()).len() == usize::MAX {
            return LoadRequest::Failed(LoadFailure::Unreadable(path));
        }
        let ghost tx = text@;
        let mut component = match parse_source(path.clone(), text) {
            Ok(c) => c,
            Err(issues) => {
                return LoadRequest::Failed(LoadFailure::Parse(issues));
            },
        };
        let mut imports: Vec<Import> = Vec::new();
        std::mem::swap(&mut imports, &mut component.import_decls);
        let name = component.name.clone();
        if self.trees.contains_key(path.as_str()) {
            return self.complete(name, path);
        }
        let ghost moved = *self;
        let ghost before_insert = self.trees.entries@;
        let ghost inserted = component;
        self.trees.insert(path.clone(), component);
        assert(loaded(self.trees.entries@, path@));
        proof {
            assert forall|p: Seq<char>| #[trigger] lookup(before_insert, p) is Some implies (lookup(self.trees.entries@, p) matches Some(c)
                && c == (ParserComponent { imports_map: c.imports_map, ..lookup(before_insert, p)->0 })) by {
                assert(p != path@);
            }
        }
        let ghost before_next = *self;
        self.frames.push(Frame { path, name, imports, alias: None });
        proof {
            let ds = imports@.map_values(|i: Import| import_view(i));
            self.decls = Ghost(self.decls@.insert(path@, ds));
            self.resolved = Ghost(self.resolved@.insert(path@, Seq::empty()));
            self.inflight = Ghost(false);
            let top = self.frames@.len() - 1;
            assert(!moved.in_frames(path@)) by {
                if moved.in_frames(path@) {
                    let f = choose|f: int| 0 <= f < moved.frames@.len() && (#[trigger] moved.frames@[f]).path@ == path@;
                    assert(loaded(moved.trees.entries@, moved.frames@[f].path@));
                }
            }
            assert forall|p: Seq<char>| p != path@ implies #[trigger] lookup(self.trees.entries@, p) == lookup(moved.trees.entries@, p) by {}
            assert forall|p: Seq<char>| #[trigger] loaded(self.trees.entries@, p) <==> self.decls@.contains_key(p) by {
                if p != path@ {
                    assert(lookup(self.trees.entries@, p) == lookup(moved.trees.entries@, p));
                    assert(loaded(moved.trees.entries@, p) <==> moved.decls@.contains_key(p));
                }
            }
            assert forall|p: Seq<char>| #[trigger] self.resolved@.contains_key(p) <==> self.decls@.contains_key(p) by {
                if p != path@ {
                    assert(moved.resolved@.contains_key(p) <==> moved.decls@.contains_key(p));
                }
            }
            assert forall|k: int| 0 <= k < self.frames@.len() implies loaded(self.trees.entries@, (#[trigger] self.frames@[k]).path@) by {
                if k < top {
                    assert(self.frames@[k] == moved.frames@[k]);
                    assert(loaded(moved.trees.entries@, moved.frames@[k].path@));
                }
            }
            assert forall|f1: int, f2: int| 0 <= f1 < f2 < self.frames@.len() implies
                (#[trigger] self.frames@[f1]).path@ != (#[trigger] self.frames@[f2]).path@ by {
                assert(self.frames@[f1] == moved.frames@[f1]);
                if f2 < top {
                    assert(self.frames@[f2] == moved.frames@[f2]);
                } else {
                    assert(loaded(moved.trees.entries@, moved.frames@[f1].path@));
                }
            }
            assert forall|f: int| 0 <= f < self.frames@.len() implies #[trigger] self.frame_ok(f) by {
                if f < top {
                    assert(self.frames@[f] == moved.frames@[f]);
                    assert(moved.frame_ok(f));
                    assert(loaded(moved.trees.entries@, moved.frames@[f].path@));
                    assert(moved.frames@[f].path@ != path@);
                    if f == top - 1 {
                        assert(moved.waits(f));
                    }
                } else {
                    assert(imports@.map_values(|i: Import| import_view(i)) =~= ds.take(imports@.len() as int));
                }
            }
            assert forall|p: Seq<char>| loaded(self.tree_entries(), p) implies #[trigger] self.resolved_well(p) by {
                if p != path@ {
                    assert(loaded(moved.trees.entries@, p));
                    assert(moved.resolved_well(p));
                    assert forall|j: int| 0 <= j < self.resolutions(p).len() implies
                        self.name_of((#[trigger] self.resolutions(p)[j]).1) == moved.name_of(self.resolutions(p)[j].1) by {
                        assert(loaded(moved.tree_entries(), moved.resolutions(p)[j].1));
                    }
                } else {
                    assert(inserted.imports_map.entries@.len() == 0);
                    assert forall|k: Seq<char>| #[trigger] opt_view(lookup(self.imports_of(p), k)) == last_key(self.resolutions(p), k) by {
                        assert(lookup(inserted.imports_map.entries@, k) is None);
                    }
                }
            }
            assert forall|p: Seq<char>| #[trigger] loaded(self.trees.entries@, p) && !self.in_frames(p)
                implies self.resolved@[p].len() == self.decls@[p].len() by {
                assert(p != path@) by {
                    assert(self.frames@[top].path@ == path@);
                }
                assert(!moved.in_frames(p)) by {
                    if moved.in_frames(p) {
                        let f = choose|f: int| 0 <= f < moved.frames@.len() && (#[trigger] moved.frames@[f]).path@ == p;
                        assert(self.frames@[f] == moved.frames@[f]);
                    }
                }
                assert(loaded(moved.trees.entries@, p));
            }
            assert forall|p: Seq<char>| loaded(moved.tree_entries(), p) implies (#[trigger] self.resolutions(p)).len() >= moved.resolutions(p).len()
                && self.resolutions(p).take(moved.resolutions(p).len() as int) == moved.resolutions(p) by {
                assert(p != path@);
                assert(self.resolutions(p).take(moved.resolutions(p).len() as int) =~= moved.resolutions(p));
            }
        }
        let ghost pushed = *self;
        let r = self.next();
        proof {
            lemma_kept_trans(self.trees.entries@, before_next.trees.entries@, old(self).trees.entries@);
            Self::lemma_grows_trans(&pushed, &moved, &*old(self));
            Self::lemma_grows_trans(&*self, &pushed, &*old(self));
            assert(lookup(before_next.trees.entries@, path@) == Some(inserted));
        }
        r
    }
}

} // verus!
