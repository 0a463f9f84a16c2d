//! Name resolution: the builtin items, the properties of the component being
//! checked, and the nested scopes of bindings that the checker declares.

use std::rc::Rc;
use vstd::prelude::*;
use vstd::string::StringExecFns;
use crate::ast::{ChildRules, ComponentDef, Ctx, ModuleDef, PropDecl, PropDef, Type, same_type, type_label};
use crate::issue::{Issue, IssueLevel};
use crate::parser::{Element, string_views};
use crate::source_file::Span;
use crate::table::{Table, get_entry, lookup, unique_names};
use crate::text::concat;

verus! {

/// The outcome of resolving a path in one table.
pub enum Resolution {
    /// The first segment names nothing.
    Absent,
    /// The path names an item of this type.
    Found(Type),
    /// The first segment names something, but the rest of the path leads
    /// nowhere.
    Broken,
}

/// Resolves the segments of `path` from `i` on in `entries`: each segment
/// after the first names an item of the module that the segment before it
/// names.
pub open spec fn resolve_from(path: Seq<Seq<char>>, i: int, entries: Seq<(String, PropDecl)>) -> Resolution
    decreases path.len() - i,
{
    if i < 0 || i >= path.len() {
        Resolution::Absent
    } else {
        match lookup(entries, path[i]) {
            None => if i == 0 {
                Resolution::Absent
            } else {
                Resolution::Broken
            },
            Some(p) => if i == path.len() - 1 {
                Resolution::Found(p.prop_type)
            } else {
                match p.prop_type {
                    Type::Module(def) => resolve_from(path, i + 1, def.props@),
                    _ => Resolution::Broken,
                }
            },
        }
    }
}

/// The outcome of looking a path up in all the places a name can come from.
pub enum Lookup {
    /// Nothing has the path's first segment as its name.
    Absent,
    /// The path names an item of this type, found there.
    Found(Ctx, Type),
    /// The path's first segment names something, but the rest leads nowhere.
    Broken,
}

/// Looks `path` up in the scopes from the `depth`th innermost outwards, and
/// then among the component's properties.
pub open spec fn lookup_scopes(
    stack: Seq<Seq<(String, PropDecl)>>,
    props: Seq<(String, PropDecl)>,
    path: Seq<Seq<char>>,
    depth: int,
) -> Lookup
    decreases stack.len() - depth,
{
    if depth < 0 || depth >= stack.len() {
        match resolve_from(path, 0, props) {
            Resolution::Absent => Lookup::Absent,
            Resolution::Found(t) => Lookup::Found(Ctx::Component, t),
            Resolution::Broken => Lookup::Broken,
        }
    } else {
        match resolve_from(path, 0, stack[stack.len() - 1 - depth]) {
            Resolution::Absent => lookup_scopes(stack, props, path, depth + 1),
            Resolution::Found(t) => Lookup::Found(Ctx::Scope(depth as usize), t),
            Resolution::Broken => Lookup::Broken,
        }
    }
}

/// Looks `path` up among the builtins first, then in the scopes from the
/// innermost outwards, then among the component's properties.
pub open spec fn lookup_path(
    builtins: Seq<(String, PropDecl)>,
    stack: Seq<Seq<(String, PropDecl)>>,
    props: Seq<(String, PropDecl)>,
    path: Seq<Seq<char>>,
) -> Lookup {
    match resolve_from(path, 0, builtins) {
        Resolution::Absent => lookup_scopes(stack, props, path, 0),
        Resolution::Found(t) => Lookup::Found(Ctx::Builtin, t),
        Resolution::Broken => Lookup::Broken,
    }
}

/// The view of a builtin component's property: its name, its type, and the
/// names of the properties it overrides.
pub open spec fn prop_def_view(e: (String, PropDef)) -> (Seq<char>, Type, Seq<Seq<char>>) {
    (e.0@, e.1.prop_type, string_views(e.1.children@))
}

/// `e` declares the builtin component `name` with the given properties.
pub open spec fn builtin_component(
    e: (String, PropDecl),
    name: Seq<char>,
    container: bool,
    props: Seq<(Seq<char>, Type, Seq<Seq<char>>)>,
) -> bool {
    &&& e.0@ == name
    &&& e.1.name@ == name
    &&& e.1.is_pub
    &&& e.1.prop_type matches Type::Component(d) && d.name@ == name && d.container == container
        && d.props@.map_values(|p: (String, PropDef)| prop_def_view(p)) == props
}

/// `e` declares the builtin module `name` with a single function `f`.
pub open spec fn builtin_module(e: (String, PropDecl), name: Seq<char>, f: Seq<char>, args: Seq<Type>, ret: Type) -> bool {
    &&& e.0@ == name
    &&& e.1.name@ == name
    &&& e.1.is_pub
    &&& e.1.prop_type is Module
    &&& e.1.prop_type->Module_0.name@ == name
    &&& e.1.prop_type->Module_0.props@.len() == 1
    &&& e.1.prop_type->Module_0.props@[0].0@ == f
    &&& e.1.prop_type->Module_0.props@[0].1.name@ == f
    &&& e.1.prop_type->Module_0.props@[0].1.prop_type matches Type::Function(a, r) && (*a)@ == args && *r == ret
}

/// The child rules of the builtin component declared by `e`.
pub open spec fn builtin_rules(e: (String, PropDecl)) -> ChildRules {
    match e.1.prop_type {
        Type::Component(d) => d.child_rules,
        _ => ChildRules::Any,
    }
}

/// A builtin component property that overrides nothing.
fn plain_prop(name: &str, t: Type) -> (r: (String, PropDef))
    ensures
        prop_def_view(r) == (name@, t, Seq::<Seq<char>>::empty()),
{
    let children: Vec<String> = Vec::new();
    assert(string_views(children@) == Seq::<Seq<char>>::empty());
    (name.to_owned(), PropDef { prop_type: t, children })
}

/// The builtin items: the components `Rect`, `Layout`, `Pane` and `Text`,
/// and the modules `Brush` (with `rgb`) and `Math` (with `random`).
pub open spec fn builtin_table(e: Seq<(String, PropDecl)>) -> bool {
    &&& unique_names(e)
    &&& e.len() == 6
    &&& builtin_component(e[0], "Rect"@, true, seq![
        ("x1"@, Type::Length, Seq::empty()),
        ("y1"@, Type::Length, Seq::empty()),
        ("x2"@, Type::Length, Seq::empty()),
        ("y2"@, Type::Length, Seq::empty()),
        ("scaleToParent"@, Type::Float, seq!["x1"@, "y1"@, "x2"@, "y2"@]),
        ("fill"@, Type::Brush, Seq::empty()),
    ])
    &&& builtin_rules(e[0]) is Any
    &&& builtin_component(e[1], "Layout"@, true, seq![
        ("layout"@, Type::EnumLayout, Seq::empty()),
        ("padding"@, Type::Length, Seq::empty()),
    ])
    &&& builtin_rules(e[1]) matches ChildRules::AnyOf(v) && string_views(v@) == seq!["Pane"@]
    &&& builtin_component(e[2], "Pane"@, true, Seq::empty())
    &&& builtin_rules(e[2]) is Any
    &&& builtin_component(e[3], "Text"@, false, seq![("content"@, Type::String, Seq::empty())])
    &&& builtin_rules(e[3]) is Nothing
    &&& builtin_module(e[4], "Brush"@, "rgb"@, seq![Type::Float, Type::Float, Type::Float], Type::Brush)
    &&& builtin_module(e[5], "Math"@, "random"@, Seq::empty(), Type::Float)
}

/// The table of builtin items.
pub fn init_builtins() -> (r: Table<PropDecl>)
    ensures
        builtin_table(r.entries@),
{
    let mut rect_props: Vec<(String, PropDef)> = Vec::new();
    rect_props.push(plain_prop("x1", Type::Length));
    rect_props.push(plain_prop("y1", Type::Length));
    rect_props.push(plain_prop("x2", Type::Length));
    rect_props.push(plain_prop("y2", Type::Length));
    let mut scaled: Vec<String> = Vec::new();
    scaled.push("x1".to_owned());
    scaled.push("y1".to_owned());
    scaled.push("x2".to_owned());
    scaled.push("y2".to_owned());
    assert(string_views(scaled@) == seq!["x1"@, "y1"@, "x2"@, "y2"@]);
    rect_props.push(("scaleToParent".to_owned(), PropDef { prop_type: Type::Float, children: scaled }));
    rect_props.push(plain_prop("fill", Type::Brush));
    assert(rect_props@.map_values(|p: (String, PropDef)| prop_def_view(p)) =~= seq![
        ("x1"@, Type::Length, Seq::empty()),
        ("y1"@, Type::Length, Seq::empty()),
        ("x2"@, Type::Length, Seq::empty()),
        ("y2"@, Type::Length, Seq::empty()),
        ("scaleToParent"@, Type::Float, seq!["x1"@, "y1"@, "x2"@, "y2"@]),
        ("fill"@, Type::Brush, Seq::empty()),
    ]);
    let rect = PropDecl::component(ComponentDef {
        name: "Rect".to_owned(),
        props: rect_props,
        container: true,
        child_rules: ChildRules::any(),
    });

    let mut layout_props: Vec<(String, PropDef)> = Vec::new();
    layout_props.push(plain_prop("layout", Type::EnumLayout));
    layout_props.push(plain_prop("padding", Type::Length));
    assert(layout_props@.map_values(|p: (String, PropDef)| prop_def_view(p)) =~= seq![
        ("layout"@, Type::EnumLayout, Seq::empty()),
        ("padding"@, Type::Length, Seq::empty()),
    ]);
    let mut panes: Vec<String> = Vec::new();
    panes.push("Pane".to_owned());
    assert(string_views(panes@) == seq!["Pane"@]);
    let layout = PropDecl::component(ComponentDef {
        name: "Layout".to_owned(),
        props: layout_props,
        container: true,
        child_rules: ChildRules::any_of(panes),
    });

    let pane_props: Vec<(String, PropDef)> = Vec::new();
    assert(pane_props@.map_values(|p: (String, PropDef)| prop_def_view(p)) =~= Seq::empty());
    let pane = PropDecl::component(ComponentDef {
        name: "Pane".to_owned(),
        props: pane_props,
        container: true,
        child_rules: ChildRules::any(),
    });

    let mut text_props: Vec<(String, PropDef)> = Vec::new();
    text_props.push(plain_prop("content", Type::String));
    assert(text_props@.map_values(|p: (String, PropDef)| prop_def_view(p)) =~= seq![("content"@, Type::String, Seq::empty())]);
    let text = PropDecl::component(ComponentDef {
        name: "Text".to_owned(),
        props: text_props,
        container: false,
        child_rules: ChildRules::none(),
    });

    let mut rgb_args: Vec<Type> = Vec::new();
    rgb_args.push(Type::Float);
    rgb_args.push(Type::Float);
    rgb_args.push(Type::Float);
    assert(rgb_args@ =~= seq![Type::Float, Type::Float, Type::Float]);
    let mut brush_items: Vec<(String, PropDecl)> = Vec::new();
    brush_items.push(("rgb".to_owned(), PropDecl::function("rgb".to_owned(), rgb_args, Box::new(Type::Brush))));
    let brush = PropDecl::module(ModuleDef { name: "Brush".to_owned(), props: brush_items });

    let mut math_items: Vec<(String, PropDecl)> = Vec::new();
    math_items.push(("random".to_owned(), PropDecl::function("random".to_owned(), Vec::new(), Box::new(Type::Float))));
    let math = PropDecl::module(ModuleDef { name: "Math".to_owned(), props: math_items });

    let mut entries: Vec<(String, PropDecl)> = Vec::new();
    entries.push(("Rect".to_owned(), rect));
    entries.push(("Layout".to_owned(), layout));
    entries.push(("Pane".to_owned(), pane));
    entries.push(("Text".to_owned(), text));
    entries.push(("Brush".to_owned(), brush));
    entries.push(("Math".to_owned(), math));
    proof {
        reveal_strlit("Rect");
        reveal_strlit("Layout");
        reveal_strlit("Pane");
        reveal_strlit("Text");
        reveal_strlit("Brush");
        reveal_strlit("Math");
        let firsts = seq!['R', 'L', 'P', 'T', 'B', 'M'];
        assert forall|i: int| 0 <= i < 6 implies #[trigger] entries@[i].0@[0] == firsts[i] by {}
        assert forall|i: int, j: int| 0 <= i < j < entries@.len() implies entries@[i].0@ != entries@[j].0@ by {
            assert(entries@[i].0@[0] != entries@[j].0@[0]);
        }
    }
    Table { entries }
}

/// The names visible while a component is checked: the builtin items, the
/// component's own properties, and a stack of scopes of bindings. The
/// errors and warnings found on the way are collected.
pub struct Module<'a> {
    builtins: Table<PropDecl>,
    props: &'a Table<PropDecl>,
    stack: Vec<Table<PropDecl>>,
    issues: Vec<Issue>,
}

/// Everything a lookup reads: the builtin items, the scopes (the innermost
/// last) and the component's properties.
pub type Names = (Seq<(String, PropDecl)>, Seq<Seq<(String, PropDecl)>>, Seq<(String, PropDecl)>);

/// What `path` names in `n`.
pub open spec fn names_lookup(n: Names, path: Seq<Seq<char>>) -> Lookup {
    lookup_path(n.0, n.1, n.2, path)
}

/// A result of `lookup` agrees with what `lookup_path` finds: nothing for
/// nothing, an error for a broken path, and otherwise the same place and a
/// copy of the type.
pub open spec fn lookup_agrees(r: Result<Option<(Ctx, Type)>, ()>, l: Lookup) -> bool {
    match l {
        Lookup::Absent => r matches Ok(None),
        Lookup::Found(c, t) => r matches Ok(Some((c2, t2))) && c2 == c && t2 == t,
        Lookup::Broken => r is Err,
    }
}

/// The scopes `stack` after `binding` is bound, in the innermost scope, to
/// a value of type `t` declared at `span`.
pub open spec fn declared(stack: Seq<Seq<(String, PropDecl)>>, binding: String, t: Type, span: Span) -> Seq<Seq<(String, PropDecl)>> {
    stack.drop_last().push(stack.last().push((binding, PropDecl { is_pub: false, name: binding, prop_type: t, default: None, span })))
}

/// A binding may be declared where it names neither a builtin item nor a
/// binding of the innermost scope.
pub open spec fn may_declare(n: Names, binding: Seq<char>) -> bool {
    !(names_lookup(n, seq![binding]) matches Lookup::Found(c, _) && (c == Ctx::Builtin || c == Ctx::Scope(0)))
}

impl<'a> Module<'a> {
    /// The builtin items.
    pub closed spec fn builtin_entries(&self) -> Seq<(String, PropDecl)> {
        self.builtins.entries@
    }

    /// The properties of the component being checked.
    pub closed spec fn prop_entries(&self) -> Seq<(String, PropDecl)> {
        self.props.entries@
    }

    /// The scopes of bindings, the innermost last.
    pub closed spec fn scopes(&self) -> Seq<Seq<(String, PropDecl)>> {
        self.stack@.map_values(|t: Table<PropDecl>| t.entries@)
    }

    /// The errors and warnings reported so far.
    pub closed spec fn issue_list(&self) -> Seq<Issue> {
        self.issues@
    }

    /// No scope binds a name twice.
    pub closed spec fn wf(&self) -> bool {
        forall|i: int| 0 <= i < self.stack@.len() ==> unique_names(#[trigger] self.stack@[i].entries@)
    }

    /// What `path` names here.
    pub open spec fn resolves(&self, path: Seq<Seq<char>>) -> Lookup {
        lookup_path(self.builtin_entries(), self.scopes(), self.prop_entries(), path)
    }

    /// Everything a lookup reads here.
    pub open spec fn names(&self) -> Names {
        (self.builtin_entries(), self.scopes(), self.prop_entries())
    }

    /// `self` names the same things as `other` and is as consistent.
    pub open spec fn same_names(&self, other: &Module) -> bool {
        &&& self.builtin_entries() == other.builtin_entries()
        &&& self.prop_entries() == other.prop_entries()
        &&& self.scopes() == other.scopes()
        &&& self.wf() == other.wf()
    }

    /// `self` has every issue of `old`, in order, and possibly more.
    pub open spec fn keeps_issues(&self, old: &Module) -> bool {
        &&& self.issue_list().len() >= old.issue_list().len()
        &&& self.issue_list().take(old.issue_list().len() as int) == old.issue_list()
    }

    /// Every issue of `self` from the `n`th on is a warning.
    pub open spec fn warnings_from(&self, n: int) -> bool {
        forall|i: int| n <= i < self.issue_list().len() ==> #[trigger] self.issue_list()[i].level == IssueLevel::Warning
    }

    /// `self` has the issues of `old` and more, the last of them an error.
    pub open spec fn more_errors(&self, old: &Module) -> bool {
        &&& self.issue_list().len() > old.issue_list().len()
        &&& self.issue_list().take(old.issue_list().len() as int) == old.issue_list()
        &&& self.issue_list().last().level == IssueLevel::Error
    }

    /// The names visible in a component with the properties `props`, with
    /// no scope open yet.
    pub fn new(props: &'a Table<PropDecl>) -> (r: Module<'a>)
        ensures
            r.wf(),
            builtin_table(r.builtin_entries()),
            r.prop_entries() == props.entries@,
            r.scopes().len() == 0,
            r.issue_list().len() == 0,
    {
        let r = Module { builtins: init_builtins(), props, stack: Vec::new(), issues: Vec::new() };
        assert(r.scopes() =~= Seq::<Seq<(String, PropDecl)>>::empty());
        r
    }

    /// Records an error or a warning.
    pub fn report(&mut self, issue: Issue)
        ensures
            final(self).issue_list() == old(self).issue_list().push(issue),
            final(self).builtin_entries() == old(self).builtin_entries(),
            final(self).prop_entries() == old(self).prop_entries(),
            final(self).scopes() == old(self).scopes(),
            final(self).wf() == old(self).wf(),
    {
        self.issues.push(issue);
    }

    /// Hands over the errors and warnings reported so far.
    pub fn take_issues(&mut self) -> (r: Vec<Issue>)
        ensures
            r@ == old(self).issue_list(),
            final(self).issue_list().len() == 0,
            final(self).builtin_entries() == old(self).builtin_entries(),
            final(self).prop_entries() == old(self).prop_entries(),
            final(self).scopes() == old(self).scopes(),
            final(self).wf() == old(self).wf(),
    {
        let mut taken: Vec<Issue> = Vec::new();
        std::mem::swap(&mut taken, &mut self.issues);
        taken
    }

    /// Opens a new, empty innermost scope.
    pub fn push_scope(&mut self)
        requires
            old(self).wf(),
        ensures
            final(self).wf(),
            final(self).scopes() == old(self).scopes().push(Seq::empty()),
            final(self).builtin_entries() == old(self).builtin_entries(),
            final(self).prop_entries() == old(self).prop_entries(),
            final(self).issue_list() == old(self).issue_list(),
    {
        let ghost before = self.scopes();
        self.stack.push(Table::new());
        assert(self.stack@.last().entries@ =~= Seq::<(String, PropDecl)>::empty());
        assert(self.scopes() =~= before.push(Seq::empty()));
    }

    /// Closes the innermost scope.
    pub fn pop_scope(&mut self)
        requires
            old(self).wf(),
            old(self).scopes().len() > 0,
        ensures
            final(self).wf(),
            final(self).scopes() == old(self).scopes().drop_last(),
            final(self).builtin_entries() == old(self).builtin_entries(),
            final(self).prop_entries() == old(self).prop_entries(),
            final(self).issue_list() == old(self).issue_list(),
    {
        let ghost before = self.scopes();
        let _ = self.stack.pop();
        assert(self.scopes() =~= before.drop_last());
    }

    /// Resolves `path` in the table `map`: the first segment must name an
    /// entry of it, and each further segment an item of the module that the
    /// segment before names.
    fn lookup_in_map(&self, path: &Vec<String>, map: &Vec<(String, PropDecl)>, span: &Span) -> (r: Result<Option<Type>, Issue>)
        requires
            path@.len() >= 1,
        ensures
            match resolve_from(string_views(path@), 0, map@) {
                Resolution::Absent => r matches Ok(None),
                Resolution::Found(t) => r matches Ok(Some(u)) && u == t,
                Resolution::Broken => r matches Err(issue) && issue.level == IssueLevel::Error && issue.span == *span,
            },
    {
        let ghost p = string_views(path@);
        let mut entries = map;
        let mut i: usize = 0;
        let mut prop = match get_entry(entries, path[0].as_str()) {
            Some(prop) => prop,
            None => {
                return Ok(None);
            },
        };
        loop
            invariant
                p == string_views(path@),
                p.len() == path@.len(),
                0 <= i < path@.len(),
                lookup(entries@, p[i as int]) == Some(*prop),
                resolve_from(p, 0, map@) == resolve_from(p, i as int, entries@),
            decreases path@.len() - i,
        {
            if i == path.len() - 1 {
                return Ok(Some(prop.prop_type.duplicate()));
            }
            match &prop.prop_type {
                Type::Module(def) => {
                    entries = &def.props;
                },
                _ => {
                    let mut message = concat("`", prop.name.as_str());
                    message.append("` (type `");
                    message.append(prop.prop_type.name().as_str());
                    message.append("`) has no child properties");
                    return Err(Issue::error(message, span.duplicate()));
                },
            }
            i = i + 1;
            prop = match get_entry(entries, path[i].as_str()) {
                Some(prop) => prop,
                None => {
                    let mut message = concat("property `", path[i].as_str());
                    message.append("` does not exist");
                    return Err(Issue::error(message, span.duplicate()));
                },
            };
        }
    }

    /// What `path` names: the builtins come first, then the scopes from the
    /// innermost out, then the component's properties. A path that starts
    /// with a name but leads nowhere is reported as an error.
    pub fn lookup(&mut self, path: &Vec<String>, span: &Span) -> (r: Result<Option<(Ctx, Type)>, ()>)
        requires
            path@.len() >= 1,
        ensures
            lookup_agrees(r, old(self).resolves(string_views(path@))),
            final(self).builtin_entries() == old(self).builtin_entries(),
            final(self).prop_entries() == old(self).prop_entries(),
            final(self).scopes() == old(self).scopes(),
            final(self).wf() == old(self).wf(),
            r is Ok ==> final(self).issue_list() == old(self).issue_list(),
            r is Err ==> final(self).issue_list().len() == old(self).issue_list().len() + 1
                && final(self).issue_list().drop_last() == old(self).issue_list()
                && final(self).issue_list().last().level == IssueLevel::Error
                && final(self).issue_list().last().span == *span,
    {
        let ghost p = string_views(path@);
        match self.lookup_in_map(path, &self.builtins.entries, span) {
            Err(issue) => {
                self.issues.push(issue);
                assert(self.issues@.drop_last() =~= old(self).issues@);
                return Err(());
            },
            Ok(Some(t)) => {
                return Ok(Some((Ctx::Builtin, t)));
            },
            Ok(None) => {},
        }
        let n = self.stack.len();
        let mut depth: usize = 0;
        while depth < n
            invariant
                n == self.stack@.len(),
                depth <= n,
                *self == *old(self),
                p == string_views(path@),
                path@.len() >= 1,
                old(self).resolves(p) == lookup_scopes(self.scopes(), self.prop_entries(), p, depth as int),
            decreases n - depth,
        {
            let ghost scope = self.stack@[n - 1 - depth].entries@;
            assert(self.scopes()[n - 1 - depth] == scope);
            match self.lookup_in_map(path, &self.stack[n - 1 - depth].entries, span) {
                Err(issue) => {
                    self.issues.push(issue);
                    assert(self.issues@.drop_last() =~= old(self).issues@);
                    return Err(());
                },
                Ok(Some(t)) => {
                    return Ok(Some((Ctx::Scope(depth), t)));
                },
                Ok(None) => {},
            }
            depth = depth + 1;
        }
        match self.lookup_in_map(path, &self.props.entries, span) {
            Err(issue) => {
                self.issues.push(issue);
                assert(self.issues@.drop_last() =~= old(self).issues@);
                Err(())
            },
            Ok(Some(t)) => Ok(Some((Ctx::Component, t))),
            Ok(None) => Ok(None),
        }
    }

    /// Binds `binding` to a value of type `t` in the innermost scope.
    ///
    /// A binding may not hide a builtin item or another binding of the same
    /// scope: that is an error and nothing is bound. Hiding a property of the
    /// component or a binding of an outer scope is allowed with a warning.
    pub fn declare(&mut self, binding: String, t: &Type, span: &Span) -> (r: Result<(), ()>)
        requires
            old(self).wf(),
            old(self).scopes().len() > 0,
        ensures
            final(self).wf(),
            final(self).builtin_entries() == old(self).builtin_entries(),
            final(self).prop_entries() == old(self).prop_entries(),
            final(self).scopes().len() == old(self).scopes().len(),
            ({
                let found = old(self).resolves(seq![binding@]);
                &&& (r is Err <==> (found matches Lookup::Found(c, _) && (c == Ctx::Builtin || c == Ctx::Scope(0))))
                &&& found is Found ==> {
                    &&& final(self).issue_list().len() == old(self).issue_list().len() + 1
                    &&& final(self).issue_list().drop_last() == old(self).issue_list()
                    &&& final(self).issue_list().last().message@ == redeclared_message(binding@, found->Found_0)
                    &&& final(self).issue_list().last().span == *span
                    &&& final(self).issue_list().last().level == (if r is Err {
                        IssueLevel::Error
                    } else {
                        IssueLevel::Warning
                    })
                }
                &&& !(found is Found) ==> final(self).issue_list() == old(self).issue_list()
            }),
            r is Err ==> final(self).scopes() == old(self).scopes(),
            r is Ok ==> {
                &&& final(self).scopes() == declared(old(self).scopes(), binding, *t, *span)
                &&& final(self).scopes().drop_last() == old(self).scopes().drop_last()
                &&& lookup(final(self).scopes().last(), binding@) matches Some(d)
                    && !d.is_pub && d.name == binding && d.prop_type == *t && d.default is None && d.span == *span
                &&& forall|n: Seq<char>| n != binding@ ==> #[trigger] lookup(final(self).scopes().last(), n)
                    == lookup(old(self).scopes().last(), n)
                &&& final(self).resolves(seq![binding@]) matches Lookup::Found(c, u) && c == Ctx::Scope(0) && u == *t
            },
    {
        let mut path: Vec<String> = Vec::new();
        path.push(binding.clone());
        assert(string_views(path@) =~= seq![binding@]);
        proof {
            lemma_single_name_not_broken(self.scopes(), self.prop_entries(), binding@, 0);
        }
        let found = self.lookup(&path, span);
        if let Ok(Some((ctx, _))) = found {
            let (part, fail) = match ctx {
                Ctx::Builtin => ("as a builtin item", true),
                Ctx::Component => ("as a component property", false),
                Ctx::Scope(0) => ("in this scope", true),
                Ctx::Scope(_) => ("in an outer scope", false),
            };
            let mut message = concat("binding `", binding.as_str());
            message.append("` already exists ");
            message.append(part);
            if fail {
                self.report(Issue::error(message, span.duplicate()));
                assert(self.issues@.drop_last() =~= old(self).issues@);
                return Err(());
            } else {
                self.report(Issue::warning(message, span.duplicate()));
                assert(self.issues@.drop_last() =~= old(self).issues@);
            }
        }
        let ghost before = self.stack@;
        let mut top = self.stack.pop().unwrap();
        proof {
            assert(unique_names(before[before.len() - 1].entries@));
        }
        top.insert(binding.clone(), PropDecl {
            is_pub: false,
            name: binding,
            prop_type: t.duplicate(),
            default: None,
            span: span.duplicate(),
        });
        self.stack.push(top);
        proof {
            assert(self.scopes() =~= declared(old(self).scopes(), binding, *t, *span));
            assert(self.stack@.drop_last() == before.drop_last());
            assert(self.scopes().drop_last() =~= old(self).scopes().drop_last());
            assert forall|i: int| 0 <= i < self.stack@.len() implies unique_names(#[trigger] self.stack@[i].entries@) by {
                if i < self.stack@.len() - 1 {
                    assert(self.stack@[i] == before[i]);
                }
            }
        }
        Ok(())
    }

    /// The definition of the component that `element` instantiates.
    pub fn get_component_def(&mut self, element: &Element) -> (r: Result<Rc<ComponentDef>, ()>)
        requires
            element.path@.len() >= 1,
        ensures
            final(self).builtin_entries() == old(self).builtin_entries(),
            final(self).prop_entries() == old(self).prop_entries(),
            final(self).scopes() == old(self).scopes(),
            final(self).wf() == old(self).wf(),
            match old(self).resolves(string_views(element.path@)) {
                Lookup::Found(_, Type::Component(d)) => r matches Ok(x) && x == d,
                _ => r is Err,
            },
            r is Ok ==> final(self).issue_list() == old(self).issue_list(),
            r is Err ==> {
                &&& final(self).issue_list().len() == old(self).issue_list().len() + 1
                &&& final(self).issue_list().drop_last() == old(self).issue_list()
                &&& final(self).issue_list().last().level == IssueLevel::Error
                &&& final(self).issue_list().last().span == element.name_span
            },
    {
        let prop = self.lookup(&element.path, &element.name_span)?;
        match prop {
            Some((_, Type::Component(def))) => Ok(def),
            Some((_, t)) => {
                let mut message = concat("`", join_path(&element.path).as_str());
                message.append("` (type `");
                message.append(t.name().as_str());
                message.append("`) is not a component");
                self.report(Issue::error(message, element.name_span.duplicate()));
                assert(self.issues@.drop_last() =~= old(self).issues@);
                Err(())
            },
            None => {
                let mut message = concat("`", join_path(&element.path).as_str());
                message.append("`: component not found");
                self.report(Issue::error(message, element.name_span.duplicate()));
                assert(self.issues@.drop_last() =~= old(self).issues@);
                Err(())
            },
        }
    }
}

/// A path of a single name never leads nowhere: it names something or
/// nothing.
pub proof fn lemma_single_name_not_broken(
    stack: Seq<Seq<(String, PropDecl)>>,
    props: Seq<(String, PropDecl)>,
    b: Seq<char>,
    depth: int,
)
    requires
        0 <= depth,
    ensures
        !(lookup_scopes(stack, props, seq![b], depth) is Broken),
    decreases stack.len() - depth,
{
    if depth < stack.len() {
        lemma_single_name_not_broken(stack, props, b, depth + 1);
    }
}

/// Keeping the issues of a list that kept those of another keeps those too.
pub proof fn lemma_issues_kept(a: Seq<Issue>, b: Seq<Issue>, c: Seq<Issue>)
    requires
        b.len() >= c.len(),
        b.take(c.len() as int) == c,
        a.len() >= b.len(),
        a.take(b.len() as int) == b,
    ensures
        a.take(c.len() as int) == c,
{
    assert forall|i: int| 0 <= i < c.len() implies #[trigger] a.take(c.len() as int)[i] == c[i] by {
        assert(a.take(b.len() as int)[i] == b[i]);
        assert(b.take(c.len() as int)[i] == c[i]);
    }
    assert(a.take(c.len() as int) =~= c);
}

/// Warnings added after warnings leave only warnings from `base` on.
pub proof fn lemma_warnings_kept(a: Seq<Issue>, b: Seq<Issue>, base: int)
    requires
        0 <= base <= b.len() <= a.len(),
        a.take(b.len() as int) == b,
        forall|i: int| base <= i < b.len() ==> #[trigger] b[i].level == IssueLevel::Warning,
        forall|i: int| b.len() <= i < a.len() ==> #[trigger] a[i].level == IssueLevel::Warning,
    ensures
        forall|i: int| base <= i < a.len() ==> #[trigger] a[i].level == IssueLevel::Warning,
{
    assert forall|i: int| base <= i < a.len() implies #[trigger] a[i].level == IssueLevel::Warning by {
        if i < b.len() {
            assert(a.take(b.len() as int)[i] == b[i]);
        }
    }
}

/// Adding an issue keeps the ones before.
pub proof fn lemma_push_keeps(s: Seq<Issue>, x: Issue)
    ensures
        s.push(x).take(s.len() as int) == s,
        s.push(x).drop_last() == s,
{
    assert(s.push(x).take(s.len() as int) =~= s);
    assert(s.push(x).drop_last() =~= s);
}

/// What a lookup finds once one more scope is open inside all the others: a
/// binding is one scope further out; anything else is unchanged.
pub open spec fn one_scope_out(l: Lookup) -> Lookup {
    match l {
        Lookup::Found(Ctx::Scope(d), t) => Lookup::Found(Ctx::Scope((d + 1) as usize), t),
        _ => l,
    }
}

/// Looking up from scope `depth + 1` with one more scope inside finds what
/// looking up from scope `depth` finds without it, one scope further out.
proof fn lemma_scopes_shift(
    stack: Seq<Seq<(String, PropDecl)>>,
    inner: Seq<(String, PropDecl)>,
    props: Seq<(String, PropDecl)>,
    path: Seq<Seq<char>>,
    depth: int,
)
    requires
        0 <= depth <= stack.len(),
        stack.len() < usize::MAX,
    ensures
        lookup_scopes(stack.push(inner), props, path, depth + 1) == one_scope_out(lookup_scopes(stack, props, path, depth)),
    decreases stack.len() - depth,
{
    if depth < stack.len() {
        assert(stack.push(inner)[stack.len() + 1 - 1 - (depth + 1)] == stack[stack.len() - 1 - depth]);
        lemma_scopes_shift(stack, inner, props, path, depth + 1);
    }
}

/// Opening a new scope hides nothing: every path names what it named
/// before, and a binding is found one scope further out.
pub proof fn lemma_fresh_scope_hides_nothing(
    builtins: Seq<(String, PropDecl)>,
    stack: Seq<Seq<(String, PropDecl)>>,
    props: Seq<(String, PropDecl)>,
    path: Seq<Seq<char>>,
)
    requires
        stack.len() < usize::MAX,
    ensures
        lookup_path(builtins, stack.push(Seq::empty()), props, path) == one_scope_out(lookup_path(builtins, stack, props, path)),
{
    lemma_scopes_shift(stack, Seq::empty(), props, path, 0);
    assert(resolve_from(path, 0, stack.push(Seq::empty())[stack.len() as int]) is Absent);
}

/// Closing a scope undoes opening it: whatever was bound in the scope in
/// between, the scopes are as they were before it was opened.
pub proof fn lemma_closed_scope_forgets(stack: Seq<Seq<(String, PropDecl)>>, inner: Seq<(String, PropDecl)>)
    ensures
        stack.push(inner).drop_last() == stack,
{
    assert(stack.push(inner).drop_last() =~= stack);
}

/// The message for a binding that already exists where `ctx` says.
pub open spec fn redeclared_message(binding: Seq<char>, ctx: Ctx) -> Seq<char> {
    "binding `"@ + binding + "` already exists "@ + match ctx {
        Ctx::Builtin => "as a builtin item"@,
        Ctx::Component => "as a component property"@,
        Ctx::Scope(d) => if d == 0 {
            "in this scope"@
        } else {
            "in an outer scope"@
        },
    }
}

/// The segments of a path joined by dots.
pub open spec fn joined(p: Seq<Seq<char>>) -> Seq<char>
    decreases p.len(),
{
    if p.len() == 0 {
        Seq::empty()
    } else if p.len() == 1 {
        p[0]
    } else {
        joined(p.drop_last()) + "."@ + p.last()
    }
}

/// Joins the segments of a path with dots.
pub fn join_path(path: &Vec<String>) -> (r: String)
    ensures
        r@ == joined(string_views(path@)),
{
    let mut s = String::new();
    let mut i: usize = 0;
    while i < path.len()
        invariant
            i <= path@.len(),
            s@ == joined(string_views(path@).take(i as int)),
        decreases path@.len() - i,
    {
        if i > 0 {
            s.append(".");
        }
        s.append(path[i].as_str());
        proof {
            let v = string_views(path@);
            assert(v.take(i + 1).drop_last() =~= v.take(i as int));
        }
        i = i + 1;
    }
    assert(string_views(path@).take(path@.len() as int) =~= string_views(path@));
    s
}

} // verus!
