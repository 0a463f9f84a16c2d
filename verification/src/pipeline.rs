//! Building: checks the loaded components in the order of their imports and
//! generates the code of each, once.

use vstd::prelude::*;
use crate::checker::{Component as CheckedComponent, check_component, element_checks, element_result};
use crate::ast::PropDecl;
use crate::codegen::{kebab_case, module_js};
use crate::scope::{Names, builtin_table};
use crate::codegen::{generate, module_file_name};
use crate::issue::{Issue, IssueLevel};
use crate::parser::{CompileStatus, Component as ParserComponent};
use crate::scope::Module;
use crate::table::{Table, find, lookup, unique_names, lemma_find_from, lemma_find_same};

verus! {

/// Why a build stopped.
pub enum BuildFailure {
    /// Checking a component reported these issues (the last is an error).
    Check(Vec<Issue>),
    /// The component at this path imports itself, directly or not.
    RecursiveImport(String),
    /// No component was loaded from this path.
    NotLoaded(String),
    /// Part of the named component has no code.
    NoCode(String),
}

/// What a build produced: the file name and text of each generated module,
/// and the warnings reported on the way.
pub struct Build {
    pub outputs: Vec<(String, String)>,
    pub warnings: Vec<Issue>,
}

/// The number of components still waiting to be built.
pub open spec fn ready_count(s: Seq<(String, ParserComponent)>) -> nat
    decreases s.len(),
{
    if s.len() == 0 {
        0
    } else {
        ready_count(s.drop_last()) + if s.last().1.status == CompileStatus::Ready {
            1nat
        } else {
            0nat
        }
    }
}

/// The number of components that are done.
pub open spec fn done_count(s: Seq<(String, ParserComponent)>) -> nat
    decreases s.len(),
{
    if s.len() == 0 {
        0
    } else {
        done_count(s.drop_last()) + if s.last().1.status == CompileStatus::Done {
            1nat
        } else {
            0nat
        }
    }
}

/// Changing one component's status changes the count of done ones by what
/// it was and what it becomes.
pub proof fn lemma_done_count_update(s: Seq<(String, ParserComponent)>, i: int, x: (String, ParserComponent))
    requires
        0 <= i < s.len(),
    ensures
        done_count(s.update(i, x)) + (if s[i].1.status == CompileStatus::Done { 1int } else { 0int })
            == done_count(s) + (if x.1.status == CompileStatus::Done { 1int } else { 0int }),
    decreases s.len(),
{
    if i < s.len() - 1 {
        assert(s.update(i, x).drop_last() =~= s.drop_last().update(i, x));
        lemma_done_count_update(s.drop_last(), i, x);
    } else {
        assert(s.update(i, x).drop_last() =~= s.drop_last());
    }
}

/// Where no component is done, none is counted.
proof fn lemma_none_done(s: Seq<(String, ParserComponent)>)
    requires
        forall|k: int| 0 <= k < s.len() ==> (#[trigger] s[k]).1.status != CompileStatus::Done,
    ensures
        done_count(s) == 0,
    decreases s.len(),
{
    if s.len() > 0 {
        assert forall|k: int| 0 <= k < s.drop_last().len() implies (#[trigger] s.drop_last()[k]).1.status != CompileStatus::Done by {
            assert(s.drop_last()[k] == s[k]);
        }
        lemma_none_done(s.drop_last());
    }
}

/// A prefix of a prefix is a prefix.
proof fn lemma_prefix_of_prefix<A>(a: Seq<A>, b: Seq<A>, c: Seq<A>)
    requires
        b.len() <= a.len(),
        a.take(b.len() as int) == b,
        c.len() <= b.len(),
        b.take(c.len() as int) == c,
    ensures
        a.take(c.len() as int) == c,
{
    assert(a.take(c.len() as int) =~= b.take(c.len() as int));
}

/// Changing one component's status changes the count of waiting ones by
/// what it was and what it becomes.
pub proof fn lemma_ready_count_update(s: Seq<(String, ParserComponent)>, i: int, x: (String, ParserComponent))
    requires
        0 <= i < s.len(),
    ensures
        ready_count(s.update(i, x)) + (if s[i].1.status == CompileStatus::Ready { 1int } else { 0int })
            == ready_count(s) + (if x.1.status == CompileStatus::Ready { 1int } else { 0int }),
    decreases s.len(),
{
    if i < s.len() - 1 {
        assert(s.update(i, x).drop_last() =~= s.drop_last().update(i, x));
        lemma_ready_count_update(s.drop_last(), i, x);
    } else {
        assert(s.update(i, x).drop_last() =~= s.drop_last());
    }
}

/// Every component that is done has been built.
pub open spec fn done_are_built(trees: Seq<(String, ParserComponent)>, built: Seq<(String, CheckedComponent)>) -> bool {
    forall|k: int| 0 <= k < trees.len() && (#[trigger] trees[k]).1.status == CompileStatus::Done
        ==> lookup(built, trees[k].0@) is Some
}

/// `after` has the components of `before` under the same paths, in the same
/// order, and none that was done is waiting again.
pub open spec fn same_components(after: Seq<(String, ParserComponent)>, before: Seq<(String, ParserComponent)>) -> bool {
    &&& after.len() == before.len()
    &&& forall|k: int| 0 <= k < after.len() ==> (#[trigger] after[k]).0 == before[k].0
        && after[k].1.imports_map == before[k].1.imports_map
        && after[k].1 == (ParserComponent { status: after[k].1.status, ..before[k].1 })
    &&& forall|k: int| 0 <= k < after.len() && (#[trigger] before[k]).1.status == CompileStatus::Done
        ==> after[k].1.status == CompileStatus::Done
    &&& forall|k: int| 0 <= k < after.len() && (#[trigger] before[k]).1.status != CompileStatus::Ready
        ==> after[k].1.status != CompileStatus::Ready
}

/// The status of the component loaded from `p`, if there is one.
pub open spec fn status_of(trees: Seq<(String, ParserComponent)>, p: Seq<char>) -> Option<CompileStatus> {
    match lookup(trees, p) {
        Some(c) => Some(c.status),
        None => None,
    }
}

/// Everything that a component that is done imports is done too.
pub open spec fn imports_done(trees: Seq<(String, ParserComponent)>) -> bool {
    forall|k: int, j: int| 0 <= k < trees.len() && (#[trigger] trees[k]).1.status == CompileStatus::Done
        && 0 <= j < trees[k].1.imports_map.entries@.len()
        ==> status_of(trees, #[trigger] trees[k].1.imports_map.entries@[j].1@) == Some(CompileStatus::Done)
}

/// A component that is done stays done while the statuses only move on.
proof fn lemma_done_stays(after: Seq<(String, ParserComponent)>, before: Seq<(String, ParserComponent)>, p: Seq<char>)
    requires
        same_components(after, before),
        status_of(before, p) == Some(CompileStatus::Done),
    ensures
        status_of(after, p) == Some(CompileStatus::Done),
{
    assert forall|j: int| 0 <= j < after.len() implies (#[trigger] after[j].0@ == p) == (before[j].0@ == p) by {
        assert(after[j].0 == before[j].0);
    }
    lemma_find_same(after, before, p, 0);
    lemma_find_from(before, p, 0);
    let k = find(before, p);
    assert(before[k].1.status == CompileStatus::Done);
}

/// Components kept under the same paths are found at the same places.
proof fn lemma_same_places(after: Seq<(String, ParserComponent)>, before: Seq<(String, ParserComponent)>, p: Seq<char>)
    requires
        same_components(after, before),
    ensures
        find(after, p) == find(before, p),
        lookup(after, p) is Some <==> lookup(before, p) is Some,
{
    assert forall|j: int| 0 <= j < after.len() implies (#[trigger] after[j].0@ == p) == (before[j].0@ == p) by {
        assert(after[j].0 == before[j].0);
    }
    lemma_find_same(after, before, p, 0);
    lemma_find_from(before, p, 0);
    lemma_find_from(after, p, 0);
}

/// Sets the status of the `i`th component.
fn set_status(trees: &mut Table<ParserComponent>, i: usize, status: CompileStatus)
    requires
        i < old(trees).entries@.len(),
    ensures
        final(trees).entries@.len() == old(trees).entries@.len(),
        final(trees).entries@[i as int].0 == old(trees).entries@[i as int].0,
        final(trees).entries@[i as int].1.status == status,
        final(trees).entries@[i as int].1.imports_map == old(trees).entries@[i as int].1.imports_map,
        final(trees).entries@[i as int].1 == (ParserComponent { status, ..old(trees).entries@[i as int].1 }),
        forall|k: int| 0 <= k < final(trees).entries@.len() && k != i ==> #[trigger] final(trees).entries@[k] == old(trees).entries@[k],
        ready_count(final(trees).entries@) + (if old(trees).entries@[i as int].1.status == CompileStatus::Ready { 1int } else { 0int })
            == ready_count(old(trees).entries@) + (if status == CompileStatus::Ready { 1int } else { 0int }),
        done_count(final(trees).entries@) + (if old(trees).entries@[i as int].1.status == CompileStatus::Done { 1int } else { 0int })
            == done_count(old(trees).entries@) + (if status == CompileStatus::Done { 1int } else { 0int }),
{
    let mut entry = trees.entries.remove(i);
    entry.1.status = status;
    let ghost e = entry;
    trees.entries.insert(i, entry);
    proof {
        assert(trees.entries@ =~= old(trees).entries@.update(i as int, e));
        lemma_ready_count_update(old(trees).entries@, i as int, e);
        lemma_done_count_update(old(trees).entries@, i as int, e);
    }
}

/// The paths a component imports, in the order they were resolved.
fn import_paths(imports: &Table<String>) -> (r: Vec<String>)
    ensures
        r@.len() == imports.entries@.len(),
        forall|k: int| 0 <= k < r@.len() ==> #[trigger] r@[k] == imports.entries@[k].1,
{
    let mut r: Vec<String> = Vec::new();
    let mut k: usize = 0;
    while k < imports.entries.len()
        invariant
            k <= imports.entries@.len(),
            r@.len() == k,
            forall|j: int| 0 <= j < k ==> #[trigger] r@[j] == imports.entries@[j].1,
        decreases imports.entries@.len() - k,
    {
        r.push(imports.entries[k].1.clone());
        k = k + 1;
    }
    r
}

/// The checked component `c` is what checking the component `tree` gives,
/// with some table of the builtin items and no scope open.
pub open spec fn checked_from(tree: ParserComponent, c: CheckedComponent) -> bool {
    exists|b: Seq<(String, PropDecl)>| #[trigger] builtin_table(b) && {
        let n: Names = (b, Seq::empty(), tree.props.entries@);
        &&& element_result(n, tree.root, c.root)
        &&& c.name == tree.name
        &&& c.props@.len() == tree.props.entries@.len()
        &&& forall|i: int| 0 <= i < c.props@.len() ==> (#[trigger] c.props@[i]).name == tree.props.entries@[i].1.name
            && c.props@[i].prop_type == tree.props.entries@[i].1.prop_type
            && c.props@[i].is_pub == tree.props.entries@[i].1.is_pub
    }
}

/// The component `tree` builds: it checks with the builtin items, and every
/// checked form of it has code.
pub open spec fn builds(tree: ParserComponent) -> bool {
    &&& forall|b: Seq<(String, PropDecl)>| #[trigger] builtin_table(b)
        ==> element_checks((b, Seq::empty(), tree.props.entries@), tree.root)
    &&& forall|c: CheckedComponent| #[trigger] checked_from(tree, c) ==> module_js(c) is Some
}

/// Every loaded component builds.
pub open spec fn all_build(trees: Seq<(String, ParserComponent)>) -> bool {
    forall|k: int| 0 <= k < trees.len() ==> builds(#[trigger] trees[k].1)
}

/// Every import of a loaded component is loaded, and `rank` puts it below
/// the component that imports it: the imports hold no cycle.
pub open spec fn ranked(trees: Seq<(String, ParserComponent)>, rank: spec_fn(Seq<char>) -> int) -> bool {
    forall|k: int, j: int| #![trigger trees[k].1.imports_map.entries@[j]]
        0 <= k < trees.len() && 0 <= j < trees[k].1.imports_map.entries@.len()
        ==> lookup(trees, trees[k].1.imports_map.entries@[j].1@) is Some
            && rank(trees[k].1.imports_map.entries@[j].1@) < rank(trees[k].0@)
}

/// Every component whose build is under way ranks above `p`.
pub open spec fn under_way_above(trees: Seq<(String, ParserComponent)>, rank: spec_fn(Seq<char>) -> int, p: Seq<char>) -> bool {
    forall|k: int| 0 <= k < trees.len() && (#[trigger] trees[k]).1.status == CompileStatus::Building
        ==> rank(trees[k].0@) > rank(p)
}

/// Some loaded component does not check with some table of the builtins.
pub open spec fn some_check_fails(trees: Seq<(String, ParserComponent)>) -> bool {
    exists|k: int, b: Seq<(String, PropDecl)>| 0 <= k < trees.len() && #[trigger] builtin_table(b)
        && !element_checks((b, Seq::empty(), (#[trigger] trees[k]).1.props.entries@), trees[k].1.root)
}

/// Some loaded component has a checked form without code.
pub open spec fn some_code_fails(trees: Seq<(String, ParserComponent)>) -> bool {
    exists|k: int, c: CheckedComponent| 0 <= k < trees.len() && #[trigger] checked_from((#[trigger] trees[k]).1, c)
        && module_js(c) is None
}

/// Components kept apart from their statuses rank, build and fail alike.
proof fn lemma_kept_alike(after: Seq<(String, ParserComponent)>, before: Seq<(String, ParserComponent)>)
    requires
        same_components(after, before),
    ensures
        forall|rank: spec_fn(Seq<char>) -> int| ranked(before, rank) ==> #[trigger] ranked(after, rank),
        all_build(before) ==> all_build(after),
        some_check_fails(after) ==> some_check_fails(before),
        some_code_fails(after) ==> some_code_fails(before),
{
    assert forall|rank: spec_fn(Seq<char>) -> int| ranked(before, rank) implies #[trigger] ranked(after, rank) by {
        assert forall|k: int, j: int| #![trigger after[k].1.imports_map.entries@[j]]
            0 <= k < after.len() && 0 <= j < after[k].1.imports_map.entries@.len()
            implies lookup(after, after[k].1.imports_map.entries@[j].1@) is Some
                && rank(after[k].1.imports_map.entries@[j].1@) < rank(after[k].0@) by {
            assert(after[k].1.imports_map == before[k].1.imports_map);
            assert(before[k].1.imports_map.entries@[j] == after[k].1.imports_map.entries@[j]);
            lemma_same_places(after, before, after[k].1.imports_map.entries@[j].1@);
        }
    }
    if all_build(before) {
        assert forall|k: int| 0 <= k < after.len() implies builds(#[trigger] after[k].1) by {
            assert(builds(before[k].1));
            assert forall|c: CheckedComponent| #[trigger] checked_from(after[k].1, c) implies module_js(c) is Some by {
                let b = choose|b: Seq<(String, PropDecl)>| #[trigger] builtin_table(b) && {
                    let n: Names = (b, Seq::empty(), after[k].1.props.entries@);
                    &&& element_result(n, after[k].1.root, c.root)
                    &&& c.name == after[k].1.name
                    &&& c.props@.len() == after[k].1.props.entries@.len()
                    &&& forall|i: int| 0 <= i < c.props@.len() ==> (#[trigger] c.props@[i]).name == after[k].1.props.entries@[i].1.name
                        && c.props@[i].prop_type == after[k].1.props.entries@[i].1.prop_type
                        && c.props@[i].is_pub == after[k].1.props.entries@[i].1.is_pub
                };
                assert(checked_from(before[k].1, c));
            }
        }
    }
    if some_check_fails(after) {
        let (k, b) = choose|k: int, b: Seq<(String, PropDecl)>| 0 <= k < after.len() && #[trigger] builtin_table(b)
            && !element_checks((b, Seq::empty(), (#[trigger] after[k]).1.props.entries@), after[k].1.root);
        assert(before[k].1.props == after[k].1.props);
        assert(!element_checks((b, Seq::empty(), before[k].1.props.entries@), before[k].1.root));
    }
    if some_code_fails(after) {
        let (k, c) = choose|k: int, c: CheckedComponent| 0 <= k < after.len() && #[trigger] checked_from((#[trigger] after[k]).1, c)
            && module_js(c) is None;
        let b = choose|b: Seq<(String, PropDecl)>| #[trigger] builtin_table(b) && {
            let n: Names = (b, Seq::empty(), after[k].1.props.entries@);
            &&& element_result(n, after[k].1.root, c.root)
            &&& c.name == after[k].1.name
            &&& c.props@.len() == after[k].1.props.entries@.len()
            &&& forall|i: int| 0 <= i < c.props@.len() ==> (#[trigger] c.props@[i]).name == after[k].1.props.entries@[i].1.name
                && c.props@[i].prop_type == after[k].1.props.entries@[i].1.prop_type
                && c.props@[i].is_pub == after[k].1.props.entries@[i].1.is_pub
        };
        assert(checked_from(before[k].1, c));
    }
}

/// The output `o` is the module of a checked form of a component of
/// `trees`: its file name in kebab case with `.ts`, and its code.
pub open spec fn output_of(trees: Seq<(String, ParserComponent)>, o: (String, String)) -> bool {
    exists|j: int, c: CheckedComponent| 0 <= j < trees.len() && #[trigger] checked_from((#[trigger] trees[j]).1, c)
        && o.0@ == kebab_case(c.name@) + ".ts"@ && module_js(c) == Some(o.1@)
}

/// An output stays the module of a component while only statuses change.
proof fn lemma_output_kept(after: Seq<(String, ParserComponent)>, before: Seq<(String, ParserComponent)>, o: (String, String))
    requires
        same_components(after, before),
        output_of(before, o),
    ensures
        output_of(after, o),
{
    let (j, c) = choose|j: int, c: CheckedComponent| 0 <= j < before.len() && #[trigger] checked_from((#[trigger] before[j]).1, c)
        && o.0@ == kebab_case(c.name@) + ".ts"@ && module_js(c) == Some(o.1@);
    let b = choose|b: Seq<(String, PropDecl)>| #[trigger] builtin_table(b) && {
        let n: Names = (b, Seq::empty(), before[j].1.props.entries@);
        &&& element_result(n, before[j].1.root, c.root)
        &&& c.name == before[j].1.name
        &&& c.props@.len() == before[j].1.props.entries@.len()
        &&& forall|i: int| 0 <= i < c.props@.len() ==> (#[trigger] c.props@[i]).name == before[j].1.props.entries@[i].1.name
            && c.props@[i].prop_type == before[j].1.props.entries@[i].1.prop_type
            && c.props@[i].is_pub == before[j].1.props.entries@[i].1.is_pub
    };
    assert(checked_from(after[j].1, c));
}

/// No component's build is under way.
pub open spec fn none_under_way(trees: Seq<(String, ParserComponent)>) -> bool {
    forall|k: int| 0 <= k < trees.len() ==> (#[trigger] trees[k]).1.status != CompileStatus::Building
}

/// While the component `i` of `ot` waits for its imports, each import
/// ranks below every build under way, is loaded, and the ranking still holds.
proof fn lemma_dep_under_way(
    ot: Seq<(String, ParserComponent)>,
    started: Seq<(String, ParserComponent)>,
    before: Seq<(String, ParserComponent)>,
    i: int,
    j: int,
    rank: spec_fn(Seq<char>) -> int,
)
    requires
        0 <= i < ot.len(),
        same_components(started, ot),
        same_components(before, started),
        forall|k: int| 0 <= k < started.len() && k != i ==> #[trigger] started[k] == ot[k],
        forall|k: int| 0 <= k < before.len() && (#[trigger] before[k]).1.status == CompileStatus::Building
            ==> started[k].1.status == CompileStatus::Building,
        0 <= j < ot[i].1.imports_map.entries@.len(),
        ranked(ot, rank),
        under_way_above(ot, rank, ot[i].0@),
    ensures
        ranked(before, rank),
        under_way_above(before, rank, ot[i].1.imports_map.entries@[j].1@),
        lookup(before, ot[i].1.imports_map.entries@[j].1@) is Some,
{
    let dep = ot[i].1.imports_map.entries@[j].1@;
    assert(lookup(ot, dep) is Some && rank(dep) < rank(ot[i].0@));
    lemma_kept_alike(started, ot);
    lemma_kept_alike(before, started);
    lemma_same_places(started, ot, dep);
    lemma_same_places(before, started, dep);
    assert forall|k: int| 0 <= k < before.len() && (#[trigger] before[k]).1.status == CompileStatus::Building
        implies rank(before[k].0@) > rank(dep) by {
        assert(before[k].0 == started[k].0 && started[k].0 == ot[k].0);
        if k != i {
            assert(started[k] == ot[k]);
        }
    }
}

/// Builds the component loaded from `path` after the components it
/// imports: checks it, and generates its code, unless it was built already.
/// A component whose build is under way when it is reached again imports
/// itself.
pub fn build_impl(
    path: &str,
    parse_trees: &mut Table<ParserComponent>,
    components: &mut Table<CheckedComponent>,
    build: &mut Build,
) -> (r: Result<(), BuildFailure>)
    requires
        unique_names(old(components).entries@),
        done_are_built(old(parse_trees).entries@, old(components).entries@),
        imports_done(old(parse_trees).entries@),
    ensures
        unique_names(final(components).entries@),
        imports_done(final(parse_trees).entries@),
        final(build).outputs@.len() == old(build).outputs@.len() + done_count(final(parse_trees).entries@)
            - done_count(old(parse_trees).entries@),
        forall|k: int| 0 <= k < old(parse_trees).entries@.len() && (#[trigger] old(parse_trees).entries@[k]).1.status
            == CompileStatus::Building ==> final(parse_trees).entries@[k].1.status == CompileStatus::Building,
        final(build).outputs@.len() >= old(build).outputs@.len(),
        final(build).warnings@.len() >= old(build).warnings@.len(),
        final(build).outputs@.take(old(build).outputs@.len() as int) == old(build).outputs@,
        final(build).warnings@.take(old(build).warnings@.len() as int) == old(build).warnings@,
        forall|k: int| old(build).warnings@.len() <= k < final(build).warnings@.len()
            ==> #[trigger] final(build).warnings@[k].level == IssueLevel::Warning,
        done_are_built(final(parse_trees).entries@, final(components).entries@),
        same_components(final(parse_trees).entries@, old(parse_trees).entries@),
        ready_count(final(parse_trees).entries@) <= ready_count(old(parse_trees).entries@),
        forall|n: Seq<char>| #[trigger] lookup(old(components).entries@, n) is Some ==> lookup(final(components).entries@, n) is Some,
        match lookup(old(parse_trees).entries@, path@) {
            None => r matches Err(BuildFailure::NotLoaded(p)) && p@ == path@,
            Some(c) => c.status == CompileStatus::Building ==> (r matches Err(BuildFailure::RecursiveImport(p)) && p@ == path@),
        },
        r matches Err(BuildFailure::NotLoaded(p)) ==> lookup(old(parse_trees).entries@, p@) is None,
        r matches Err(BuildFailure::RecursiveImport(p)) ==> lookup(old(parse_trees).entries@, p@) is Some,
        r matches Err(BuildFailure::Check(issues)) ==> issues@.len() > 0 && issues@.last().level == IssueLevel::Error,
        forall|rank: spec_fn(Seq<char>) -> int| ranked(old(parse_trees).entries@, rank)
            && #[trigger] under_way_above(old(parse_trees).entries@, rank, path@)
            && lookup(old(parse_trees).entries@, path@) is Some
            ==> !(r matches Err(BuildFailure::RecursiveImport(_))) && !(r matches Err(BuildFailure::NotLoaded(_))),
        r matches Err(BuildFailure::Check(_)) ==> some_check_fails(old(parse_trees).entries@),
        forall|k: int| old(build).outputs@.len() <= k < final(build).outputs@.len()
            ==> output_of(final(parse_trees).entries@, #[trigger] final(build).outputs@[k]),
        r matches Err(BuildFailure::NoCode(_)) ==> some_code_fails(old(parse_trees).entries@),
        r is Ok ==> forall|k: int| 0 <= k < final(parse_trees).entries@.len()
            && (#[trigger] final(parse_trees).entries@[k]).1.status == CompileStatus::Building
            ==> old(parse_trees).entries@[k].1.status == CompileStatus::Building,
        r is Ok ==> {
            &&& lookup(final(parse_trees).entries@, path@) matches Some(c) && c.status == CompileStatus::Done
            &&& lookup(final(components).entries@, path@) is Some
            &&& lookup(old(parse_trees).entries@, path@) matches Some(c) && forall|j: int| 0 <= j < c.imports_map.entries@.len()
                ==> status_of(final(parse_trees).entries@, #[trigger] c.imports_map.entries@[j].1@) == Some(CompileStatus::Done)
        },
    decreases ready_count(old(parse_trees).entries@),
{
    let i = match parse_trees.position(path) {
        Some(i) => i,
        None => {
            return Err(BuildFailure::NotLoaded(path.to_owned()));
        },
    };
    proof {
        lemma_find_from(parse_trees.entries@, path@, 0);
    }
    match parse_trees.entries[i].1.status {
        CompileStatus::Ready => {},
        CompileStatus::Building => {
            proof {
                let t = parse_trees.entries@;
                assert forall|rank: spec_fn(Seq<char>) -> int| !#[trigger] under_way_above(t, rank, path@) by {
                    assert(t[i as int].1.status == CompileStatus::Building);
                }
            }
            return Err(BuildFailure::RecursiveImport(path.to_owned()));
        },
        CompileStatus::Done => {
            proof {
                let c = old(parse_trees).entries@[i as int].1;
                assert forall|j: int| 0 <= j < c.imports_map.entries@.len()
                    implies status_of(parse_trees.entries@, #[trigger] c.imports_map.entries@[j].1@) == Some(CompileStatus::Done) by {
                    assert(parse_trees.entries@[i as int].1.imports_map.entries@[j] == c.imports_map.entries@[j]);
                }
            }
            return Ok(());
        },
    }
    set_status(parse_trees, i, CompileStatus::Building);
    let ghost started = parse_trees.entries@;
    proof {
        assert(same_components(started, old(parse_trees).entries@));
        let ot = old(parse_trees).entries@;
        assert forall|k: int, j: int| 0 <= k < started.len() && (#[trigger] started[k]).1.status == CompileStatus::Done
            && 0 <= j < started[k].1.imports_map.entries@.len()
            implies status_of(started, #[trigger] started[k].1.imports_map.entries@[j].1@) == Some(CompileStatus::Done) by {
            assert(k != i);
            assert(started[k] == ot[k]);
            let m = started[k].1.imports_map.entries@[j].1@;
            assert(status_of(ot, m) == Some(CompileStatus::Done));
            lemma_done_stays(started, ot, m);
        }
        assert(done_are_built(started, components.entries@)) by {
            assert forall|k: int| 0 <= k < started.len() && (#[trigger] started[k]).1.status == CompileStatus::Done
                implies lookup(components.entries@, started[k].0@) is Some by {
                assert(k != i);
                assert(started[k] == old(parse_trees).entries@[k]);
            }
        }
    }
    let deps = import_paths(&parse_trees.entries[i].1.imports_map);
    let mut d: usize = 0;
    while d < deps.len()
        invariant
            d <= deps@.len(),
            i < parse_trees.entries@.len(),
            unique_names(components.entries@),
            done_are_built(parse_trees.entries@, components.entries@),
            same_components(parse_trees.entries@, started),
            same_components(started, old(parse_trees).entries@),
            started[i as int].0@ == path@,
            parse_trees.entries@[i as int].1.status != CompileStatus::Ready,
            ready_count(parse_trees.entries@) < ready_count(old(parse_trees).entries@),
            lookup(old(parse_trees).entries@, path@) matches Some(c) && c.status == CompileStatus::Ready,
            forall|n: Seq<char>| #[trigger] lookup(old(components).entries@, n) is Some ==> lookup(components.entries@, n) is Some,
            imports_done(parse_trees.entries@),
            build.outputs@.len() == old(build).outputs@.len() + done_count(parse_trees.entries@) - done_count(old(parse_trees).entries@),
            forall|k: int| 0 <= k < started.len() && (#[trigger] started[k]).1.status == CompileStatus::Building
                ==> parse_trees.entries@[k].1.status == CompileStatus::Building,
            forall|k: int| 0 <= k < old(parse_trees).entries@.len() && (#[trigger] old(parse_trees).entries@[k]).1.status
                == CompileStatus::Building ==> started[k].1.status == CompileStatus::Building,
            build.outputs@.len() >= old(build).outputs@.len(),
            build.warnings@.len() >= old(build).warnings@.len(),
            build.outputs@.take(old(build).outputs@.len() as int) == old(build).outputs@,
            build.warnings@.take(old(build).warnings@.len() as int) == old(build).warnings@,
            forall|k: int| old(build).warnings@.len() <= k < build.warnings@.len()
                ==> #[trigger] build.warnings@[k].level == IssueLevel::Warning,
            deps@.len() == started[i as int].1.imports_map.entries@.len(),
            forall|k: int| 0 <= k < deps@.len() ==> #[trigger] deps@[k] == started[i as int].1.imports_map.entries@[k].1,
            forall|k: int| 0 <= k < d ==> status_of(parse_trees.entries@, #[trigger] deps@[k]@) == Some(CompileStatus::Done),
            forall|k: int| 0 <= k < started.len() && k != i ==> #[trigger] started[k] == old(parse_trees).entries@[k],
            forall|k: int| 0 <= k < parse_trees.entries@.len() && (#[trigger] parse_trees.entries@[k]).1.status
                == CompileStatus::Building ==> started[k].1.status == CompileStatus::Building,
            old(parse_trees).entries@[i as int].0@ == path@,
            forall|k: int| old(build).outputs@.len() <= k < build.outputs@.len()
                ==> output_of(parse_trees.entries@, #[trigger] build.outputs@[k]),
        decreases deps@.len() - d,
    {
        let ghost before = parse_trees.entries@;
        let ghost before_outputs = build.outputs@;
        let ghost before_warnings = build.warnings@;
        let built = build_impl(deps[d].as_str(), parse_trees, components, build);
        proof {
            assert forall|k: int| old(build).outputs@.len() <= k < build.outputs@.len()
                implies output_of(parse_trees.entries@, #[trigger] build.outputs@[k]) by {
                if k < before_outputs.len() {
                    assert(build.outputs@[k] == build.outputs@.take(before_outputs.len() as int)[k]);
                    lemma_output_kept(parse_trees.entries@, before, build.outputs@[k]);
                }
            }
            lemma_prefix_of_prefix(build.outputs@, before_outputs, old(build).outputs@);
            lemma_prefix_of_prefix(build.warnings@, before_warnings, old(build).warnings@);
            assert forall|k: int| old(build).warnings@.len() <= k < build.warnings@.len()
                implies #[trigger] build.warnings@[k].level == IssueLevel::Warning by {
                if k < before_warnings.len() {
                    assert(build.warnings@[k] == build.warnings@.take(before_warnings.len() as int)[k]);
                }
            }
        }
        if built.is_err() {
            proof {
                match &built {
                    Err(BuildFailure::NotLoaded(p)) => {
                        lemma_same_places(before, old(parse_trees).entries@, p@);
                    },
                    Err(BuildFailure::RecursiveImport(p)) => {
                        lemma_same_places(before, old(parse_trees).entries@, p@);
                    },
                    _ => {},
                }
                let ot = old(parse_trees).entries@;
                assert(ot[i as int].1.imports_map == started[i as int].1.imports_map);
                assert(deps@[d as int]@ == ot[i as int].1.imports_map.entries@[d as int].1@);
                assert forall|rank: spec_fn(Seq<char>) -> int| ranked(ot, rank)
                    && #[trigger] under_way_above(ot, rank, path@) && lookup(ot, path@) is Some
                    implies !(built matches Err(BuildFailure::RecursiveImport(_))) && !(built matches Err(BuildFailure::NotLoaded(_))) by {
                    lemma_dep_under_way(ot, started, before, i as int, d as int, rank);
                }
                lemma_kept_alike(before, started);
                lemma_kept_alike(started, ot);
            }
            return built;
        }
        proof {
            assert(before[i as int].1.status != CompileStatus::Ready);
            assert(parse_trees.entries@[i as int].1.status != CompileStatus::Ready);
            assert forall|k: int| 0 <= k < d + 1 implies status_of(parse_trees.entries@, #[trigger] deps@[k]@) == Some(CompileStatus::Done) by {
                if k < d {
                    lemma_done_stays(parse_trees.entries@, before, deps@[k]@);
                }
            }
        }
        d = d + 1;
    }
    let component = {
        let tree = &parse_trees.entries[i].1;
        let mut module = Module::new(&tree.props);
        proof {
            assert(module.scopes() =~= Seq::<Seq<(String, PropDecl)>>::empty());
        }
        let ghost names0 = module.names();
        let ghost tree0 = *tree;
        match check_component(&mut module, tree) {
            Ok(c) => {
                let mut warnings = module.take_issues();
                let ghost before_warnings = build.warnings@;
                build.warnings.append(&mut warnings);
                proof {
                    assert(build.warnings@.take(before_warnings.len() as int) =~= before_warnings);
                    lemma_prefix_of_prefix(build.warnings@, before_warnings, old(build).warnings@);
                    assert forall|k: int| old(build).warnings@.len() <= k < build.warnings@.len()
                        implies #[trigger] build.warnings@[k].level == IssueLevel::Warning by {
                        if k < before_warnings.len() {
                            assert(build.warnings@[k] == before_warnings[k]);
                        }
                    }
                }
                c
            },
            Err(()) => {
                proof {
                    let cur = parse_trees.entries@;
                    assert(builtin_table(names0.0) && !element_checks((names0.0, Seq::empty(), cur[i as int].1.props.entries@), cur[i as int].1.root));
                    assert(some_check_fails(cur));
                    lemma_kept_alike(cur, started);
                    lemma_kept_alike(started, old(parse_trees).entries@);
                }
                return Err(BuildFailure::Check(module.take_issues()));
            },
        }
    };
    let code = match generate(&component) {
        Some(code) => code,
        None => {
            proof {
                let cur = parse_trees.entries@;
                assert(checked_from(cur[i as int].1, component));
                assert(some_code_fails(cur));
                lemma_kept_alike(cur, started);
                lemma_kept_alike(started, old(parse_trees).entries@);
            }
            return Err(BuildFailure::NoCode(component.name.clone()));
        },
    };
    let ghost before_outputs = build.outputs@;
    let ghost checked = component;
    let ghost tree_i = parse_trees.entries@[i as int].1;
    build.outputs.push((module_file_name(component.name.as_str()), code));
    proof {
        assert(checked_from(tree_i, checked));
        assert(output_of(parse_trees.entries@, build.outputs@.last()));
    }
    proof {
        assert(build.outputs@.take(before_outputs.len() as int) =~= before_outputs);
        lemma_prefix_of_prefix(build.outputs@, before_outputs, old(build).outputs@);
    }
    let ghost before_done = parse_trees.entries@;
    set_status(parse_trees, i, CompileStatus::Done);
    let key = parse_trees.entries[i].0.clone();
    components.insert(key, component);
    proof {
        let t = parse_trees.entries@;
        assert(same_components(t, before_done));
        assert forall|k: int| old(build).outputs@.len() <= k < build.outputs@.len()
            implies output_of(t, #[trigger] build.outputs@[k]) by {
            if k < before_outputs.len() {
                assert(build.outputs@[k] == before_outputs[k]);
            }
            lemma_output_kept(t, before_done, build.outputs@[k]);
        }
        assert(t[i as int].0@ == path@);
        assert(same_components(t, old(parse_trees).entries@));
        assert forall|k: int| 0 <= k < t.len() && (#[trigger] t[k]).1.status == CompileStatus::Done
            implies lookup(components.entries@, t[k].0@) is Some by {
            if k != i {
                assert(t[k] == before_done[k]);
                if t[k].0@ != path@ {
                    assert(lookup(components.entries@, t[k].0@) is Some);
                }
            }
        }
        assert forall|j: int| 0 <= j < t.len() implies (#[trigger] t[j].0@ == path@) == (old(parse_trees).entries@[j].0@ == path@) by {
            assert(t[j].0 == old(parse_trees).entries@[j].0);
        }
        lemma_find_same(t, old(parse_trees).entries@, path@, 0);
        assert(find(t, path@) == i);
        assert(same_components(t, before_done));
        assert forall|k: int, j: int| 0 <= k < t.len() && (#[trigger] t[k]).1.status == CompileStatus::Done
            && 0 <= j < t[k].1.imports_map.entries@.len()
            implies status_of(t, #[trigger] t[k].1.imports_map.entries@[j].1@) == Some(CompileStatus::Done) by {
            let m = t[k].1.imports_map.entries@[j].1@;
            if k == i {
                assert(t[k].1.imports_map == started[i as int].1.imports_map);
                assert(deps@[j]@ == m);
                assert(status_of(before_done, deps@[j]@) == Some(CompileStatus::Done));
            } else {
                assert(t[k] == before_done[k]);
                assert(status_of(before_done, m) == Some(CompileStatus::Done));
            }
            lemma_done_stays(t, before_done, m);
        }
        let c = old(parse_trees).entries@[i as int].1;
        assert forall|j: int| 0 <= j < c.imports_map.entries@.len()
            implies status_of(t, #[trigger] c.imports_map.entries@[j].1@) == Some(CompileStatus::Done) by {
            assert(c.imports_map == started[i as int].1.imports_map);
            assert(deps@[j]@ == c.imports_map.entries@[j].1@);
            assert(status_of(before_done, deps@[j]@) == Some(CompileStatus::Done));
            lemma_done_stays(t, before_done, deps@[j]@);
        }
    }
    Ok(())
}

/// `p` is among the paths `v`.
pub open spec fn lists_path(v: Seq<String>, p: Seq<char>) -> bool {
    exists|k: int| 0 <= k < v.len() && (#[trigger] v[k])@ == p
}

/// Builds the component loaded from `root` and everything it imports, in
/// the order of their imports; gives the modules generated and the warnings
/// reported up to the end of the build or up to its failure, and, unless
/// the build failed, the paths of the components built.
pub fn build(root: &str, parse_trees: &mut Table<ParserComponent>) -> (r: (Build, Result<Vec<String>, BuildFailure>))
    requires
        forall|k: int| 0 <= k < old(parse_trees).entries@.len() ==> (#[trigger] old(parse_trees).entries@[k]).1.status
            != CompileStatus::Done,
    ensures
        lookup(old(parse_trees).entries@, root@) is None ==> (r.1 matches Err(BuildFailure::NotLoaded(p)) && p@ == root@),
        r.1 matches Err(BuildFailure::NotLoaded(p)) ==> lookup(old(parse_trees).entries@, p@) is None,
        r.1 matches Err(BuildFailure::RecursiveImport(p)) ==> lookup(old(parse_trees).entries@, p@) is Some,
        r.1 matches Err(BuildFailure::Check(issues)) ==> issues@.len() > 0 && issues@.last().level == IssueLevel::Error,
        r.1 matches Ok(paths) ==> lists_path(paths@, root@),
        r.0.outputs@.len() == done_count(final(parse_trees).entries@),
        forall|k: int| 0 <= k < r.0.warnings@.len() ==> #[trigger] r.0.warnings@[k].level == IssueLevel::Warning,
        r.1 matches Ok(paths) ==> (lookup(old(parse_trees).entries@, root@) matches Some(c)
            && forall|j: int| 0 <= j < c.imports_map.entries@.len() ==> lists_path(paths@, #[trigger] c.imports_map.entries@[j].1@)),
        forall|k: int| 0 <= k < r.0.outputs@.len() ==> output_of(final(parse_trees).entries@, #[trigger] r.0.outputs@[k]),
        r.1 matches Err(BuildFailure::Check(_)) ==> some_check_fails(old(parse_trees).entries@),
        r.1 matches Err(BuildFailure::NoCode(_)) ==> some_code_fails(old(parse_trees).entries@),
        none_under_way(old(parse_trees).entries@) ==> (r.1 matches Err(BuildFailure::RecursiveImport(_))
            ==> forall|rank: spec_fn(Seq<char>) -> int| !#[trigger] ranked(old(parse_trees).entries@, rank)),
        forall|rank: spec_fn(Seq<char>) -> int| #[trigger] ranked(old(parse_trees).entries@, rank)
            && none_under_way(old(parse_trees).entries@) && all_build(old(parse_trees).entries@)
            && lookup(old(parse_trees).entries@, root@) is Some ==> r.1 is Ok,
{
    let mut components: Table<CheckedComponent> = Table::new();
    let mut result = Build { outputs: Vec::new(), warnings: Vec::new() };
    proof {
        assert(done_are_built(parse_trees.entries@, components.entries@));
        assert(unique_names(components.entries@));
        assert(imports_done(parse_trees.entries@));
        lemma_none_done(parse_trees.entries@);
    }
    let ghost ot = parse_trees.entries@;
    let built = build_impl(root, parse_trees, &mut components, &mut result);
    proof {
        if none_under_way(ot) {
            assert forall|rank: spec_fn(Seq<char>) -> int| #[trigger] ranked(ot, rank) && lookup(ot, root@) is Some
                implies !(built matches Err(BuildFailure::RecursiveImport(_))) && !(built matches Err(BuildFailure::NotLoaded(_))) by {
                assert(under_way_above(ot, rank, root@));
            }
            if built matches Err(BuildFailure::RecursiveImport(_)) {
                assert(lookup(ot, root@) is Some);
            }
        }
        if all_build(ot) {
            if some_check_fails(ot) {
                let (k, b) = choose|k: int, b: Seq<(String, PropDecl)>| 0 <= k < ot.len() && #[trigger] builtin_table(b)
                    && !element_checks((b, Seq::empty(), (#[trigger] ot[k]).1.props.entries@), ot[k].1.root);
                assert(builds(ot[k].1));
            }
            if some_code_fails(ot) {
                let (k, c) = choose|k: int, c: CheckedComponent| 0 <= k < ot.len() && #[trigger] checked_from((#[trigger] ot[k]).1, c)
                    && module_js(c) is None;
                assert(builds(ot[k].1));
            }
        }
    }
    match built {
        Ok(()) => {},
        Err(e) => {
            return (result, Err(e));
        },
    }
    let mut paths: Vec<String> = Vec::new();
    let ghost built = components.entries@;
    let ghost trees = parse_trees.entries@;
    let mut k: usize = 0;
    while k < components.entries.len()
        invariant
            k <= components.entries@.len(),
            paths@.len() == k,
            forall|j: int| 0 <= j < k ==> #[trigger] paths@[j] == components.entries@[j].0,
            built == components.entries@,
            lookup(built, root@) is Some,
        decreases components.entries@.len() - k,
    {
        paths.push(components.entries[k].0.clone());
        k = k + 1;
    }
    let ghost ix = find(components.entries@, root@);
    proof {
        lemma_find_from(components.entries@, root@, 0);
        assert(0 <= ix < paths@.len());
        assert(paths@[ix] == components.entries@[ix].0);
        assert(paths@[ix]@ == root@);
        assert(lists_path(paths@, root@));
        let c = lookup(old(parse_trees).entries@, root@)->0;
        assert forall|j: int| 0 <= j < c.imports_map.entries@.len() implies lists_path(paths@, #[trigger] c.imports_map.entries@[j].1@) by {
            let m = c.imports_map.entries@[j].1@;
            assert(status_of(trees, m) == Some(CompileStatus::Done));
            lemma_find_from(trees, m, 0);
            let k = find(trees, m);
            assert(trees[k].1.status == CompileStatus::Done);
            assert(lookup(built, m) is Some);
            lemma_find_from(built, m, 0);
            let b = find(built, m);
            assert(paths@[b] == built[b].0);
        }
    }
    (result, Ok(paths))
}

/// What to change in the set of watched files after a build.
pub struct WatchPlan {
    /// The files to stop watching.
    pub unwatch: Vec<String>,
    /// The files to start watching.
    pub watch: Vec<String>,
    /// The files built, to remember for the next build.
    pub built: Vec<String>,
}

/// After a build that gave the files `built` (or failed), with the files
/// `prev` of the last successful build being watched: a successful build
/// swaps the watched files for the ones it built; a failed one watches the
/// first file if nothing is watched yet.
pub fn plan_watch(prev: &Vec<String>, built: Option<Vec<String>>, root: &str) -> (r: WatchPlan)
    ensures
        built matches Some(b) ==> r.unwatch@ == prev@ && r.watch@ == b@ && r.built@ == b@,
        built is None ==> {
            &&& r.unwatch@.len() == 0
            &&& r.built@ == prev@
            &&& (if prev@.len() == 0 { r.watch@.len() == 1 && r.watch@[0]@ == root@ } else { r.watch@.len() == 0 })
        },
{
    match built {
        Some(b) => {
            let watch = b.clone();
            assert(watch@ =~= b@);
            WatchPlan { unwatch: prev.clone(), watch, built: b }
        },
        None => {
            let mut watch: Vec<String> = Vec::new();
            if prev.len() == 0 {
                watch.push(root.to_owned());
            }
            WatchPlan { unwatch: Vec::new(), watch, built: prev.clone() }
        },
    }
}

} // verus!
