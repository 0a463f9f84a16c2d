//! The type checker: resolves the names in a parsed component, checks the
//! type of every expression and property, and the rules on children.

use std::rc::Rc;
use vstd::prelude::*;
use vstd::string::StringExecFns;
use crate::ast::{ChildRules, ComponentDef, Ctx, Expr, ExprValue, NumberLiteral, PropDecl, Type, iter_item_type, same_type, type_label};
use crate::issue::{Issue, IssueLevel};
use crate::parser::{Children, PropAsgn, opt_name, string_views};
use crate::parser::Component as ParserComponent;
use crate::parser::Content as ParserContent;
use crate::parser::Element as ParserElement;
use crate::scope::{Lookup, Module, Names, declared, may_declare, names_lookup};
use crate::source_file::Span;
use crate::table::{Table, get_entry, has_name, lookup, unique_names};
use crate::text::{concat, str_equal, usize_to_string};

verus! {

/// An expression with its type and the component properties it reads.
pub struct CheckedExpr {
    pub expr: Expr,
    pub expr_type: Type,
    pub bindings: Vec<String>,
}

impl CheckedExpr {
    /// A literal of the given type; it reads no property.
    pub fn primitive(expr: Expr, expr_type: Type) -> (r: CheckedExpr)
        ensures
            r.expr == expr,
            r.expr_type == expr_type,
            r.bindings@.len() == 0,
    {
        CheckedExpr { expr, expr_type, bindings: Vec::new() }
    }
}

/// The type a checked expression of type `t0` ends up with where a value of
/// type `implicit` is expected: an integer literal becomes a float where a
/// float is expected, and anything becomes a string where a string is.
pub open spec fn coerced_type(t0: Type, is_int_literal: bool, implicit: Option<Type>) -> Type {
    match implicit {
        None => t0,
        Some(t) => if same_type(t0, t) {
            t0
        } else if t is Float && is_int_literal {
            Type::Float
        } else if t is String {
            Type::String
        } else {
            t0
        },
    }
}

/// A checked argument fits a parameter of type `t`.
pub open spec fn fits(r: Option<Type>, t: Type) -> bool {
    r matches Some(u) && same_type(u, t)
}

/// The type `e` has before any implicit conversion, when it is checked
/// where a value of type `implicit` is expected (if any), with the names `n`
/// in view; `None` where checking reports an error.
pub open spec fn base_type(n: Names, e: Expr, implicit: Option<Type>) -> Option<Type>
    decreases e, 1int, 0int,
{
    match e.value {
        ExprValue::Px(_) => Some(Type::Length),
        ExprValue::Float(_) => Some(Type::Float),
        ExprValue::Int(_) => Some(Type::Int),
        ExprValue::Color(..) => Some(Type::Brush),
        ExprValue::String(_) => Some(Type::String),
        ExprValue::Boolean(_) => Some(Type::Boolean),
        ExprValue::Enum(name, _) => match implicit {
            Some(Type::EnumLayout) => if name@ == "row"@ || name@ == "column"@ {
                Some(Type::EnumLayout)
            } else {
                None
            },
            _ => None,
        },
        ExprValue::Path(p, _) => if p@.len() == 0 {
            None
        } else {
            match names_lookup(n, string_views(p@)) {
                Lookup::Found(_, t) => Some(t),
                _ => None,
            }
        },
        ExprValue::Coerce(..) => None,
        ExprValue::FunctionCall(f, args) => match checked_type(n, *f, implicit) {
            Some(Type::Function(params, ret)) => if args@.len() == params@.len() && args_fit(n, e, params@, args@.len() as int) {
                Some(*ret)
            } else {
                None
            },
            _ => None,
        },
    }
}

/// The first `k` arguments of the call `e` check as the parameters `params`.
pub open spec fn args_fit(n: Names, e: Expr, params: Seq<Type>, k: int) -> bool
    decreases e, 0int, k,
{
    match e.value {
        ExprValue::FunctionCall(_, args) => if k <= 0 || k > args@.len() || k > params.len() {
            true
        } else {
            args_fit(n, e, params, k - 1) && fits(checked_type(n, args@[k - 1], Some(params[k - 1])), params[k - 1])
        },
        _ => true,
    }
}

/// An argument that does not check makes the arguments up to it and beyond
/// not check either.
pub proof fn lemma_args_fit_prefix(n: Names, e: Expr, params: Seq<Type>, j: int, k: int)
    requires
        e.value is FunctionCall,
        0 <= j < k <= params.len(),
        k <= e.value->FunctionCall_1@.len(),
        args_fit(n, e, params, k),
    ensures
        fits(checked_type(n, e.value->FunctionCall_1@[j], Some(params[j])), params[j]),
    decreases k,
{
    if j < k - 1 {
        lemma_args_fit_prefix(n, e, params, j, k - 1);
    }
}

/// The type `e` has when it is checked where a value of type `implicit` is
/// expected (if any), with the names `n` in view, after the implicit
/// conversion to the expected type; `None` where checking reports an error.
pub open spec fn checked_type(n: Names, e: Expr, implicit: Option<Type>) -> Option<Type>
    decreases e, 2int, 0int,
{
    match base_type(n, e, implicit) {
        Some(t0) => Some(coerced_type(t0, e.value is Int, implicit)),
        None => None,
    }
}

/// `out` is what checking `e` gives before any implicit conversion, where a
/// value of type `implicit` is expected (if any), with the names `n` in
/// view: the same value and span, with each path marked with where it was
/// found, an enum member marked as a member of `Layout`, and the callee and
/// arguments of a call checked in turn.
pub open spec fn checked_base(n: Names, e: Expr, implicit: Option<Type>, out: Expr) -> bool
    decreases e, 3int, 0int,
{
    &&& out.span == e.span
    &&& match e.value {
        ExprValue::Enum(name, _) => out.value matches ExprValue::Enum(m, Some(k)) && m@ == name@ && k@ == "Layout"@,
        ExprValue::Path(p, _) => out.value matches ExprValue::Path(q, ctx) && q@ == p@
            && (names_lookup(n, string_views(p@)) matches Lookup::Found(c, _) && ctx == c),
        ExprValue::FunctionCall(f, args) => out.value matches ExprValue::FunctionCall(g, ys)
            && checked_expr(n, *f, implicit, *g) && ys@.len() == args@.len() && match checked_type(n, *f, implicit) {
                Some(Type::Function(params, _)) => args_checked(n, e, params@, ys@, args@.len() as int),
                _ => false,
            },
        _ => out.value == e.value,
    }
}

/// `out` is what checking `e` gives, after the implicit conversion to the
/// expected type `implicit` (if any): a conversion to a string wraps the
/// checked expression, and an integer literal becomes a float.
pub open spec fn checked_expr(n: Names, e: Expr, implicit: Option<Type>, out: Expr) -> bool
    decreases e, 4int, 0int,
{
    match (implicit, base_type(n, e, implicit)) {
        (Some(t), Some(t0)) => if same_type(t0, t) {
            checked_base(n, e, implicit, out)
        } else if t is String {
            &&& out.span == e.span
            &&& out.value matches ExprValue::Coerce(inner, u) && u == Type::String && checked_base(n, e, implicit, *inner)
        } else if t is Float && e.value is Int {
            out.span == e.span && out.value == ExprValue::Float(e.value->Int_0)
        } else {
            checked_base(n, e, implicit, out)
        },
        _ => checked_base(n, e, implicit, out),
    }
}

/// The first `k` arguments of the call `e`, checked as the parameters
/// `params`, give `ys`.
pub open spec fn args_checked(n: Names, e: Expr, params: Seq<Type>, ys: Seq<Expr>, k: int) -> bool
    decreases e, 2int, k,
{
    match e.value {
        ExprValue::FunctionCall(_, args) => if k <= 0 || k > args@.len() || k > params.len() || k > ys.len() {
            true
        } else {
            args_checked(n, e, params, ys, k - 1) && checked_expr(n, args@[k - 1], Some(params[k - 1]), ys[k - 1])
        },
        _ => true,
    }
}

/// Checking one more argument keeps the ones checked before.
proof fn lemma_args_checked_push(n: Names, e: Expr, params: Seq<Type>, ys: Seq<Expr>, y: Expr, k: int)
    requires
        0 <= k <= ys.len(),
        e.value matches ExprValue::FunctionCall(_, args) && k <= args@.len(),
        k <= params.len(),
        args_checked(n, e, params, ys, k),
    ensures
        args_checked(n, e, params, ys.push(y), k),
    decreases k,
{
    if k > 0 {
        lemma_args_checked_push(n, e, params, ys, y, k - 1);
        assert(ys.push(y)[k - 1] == ys[k - 1]);
    }
}

/// A path read through `n` reads the component properties `b`: the path
/// itself where it names a property of the component, nothing otherwise.
pub open spec fn reads_bindings(n: Names, p: Seq<String>, b: Seq<String>) -> bool {
    names_lookup(n, string_views(p)) matches Lookup::Found(ctx, _) && b == (if ctx == Ctx::Component {
        p
    } else {
        Seq::empty()
    })
}

/// The component properties that `e` reads, when it is checked where a
/// value of type `implicit` is expected (if any), with the names `n` in
/// view: the segments of each path that names a property of the component,
/// in the order the paths occur.
pub open spec fn bindings_of(n: Names, e: Expr, implicit: Option<Type>) -> Seq<String>
    decreases e, 1int, 0int,
{
    match e.value {
        ExprValue::Path(p, _) => if names_lookup(n, string_views(p@)) matches Lookup::Found(Ctx::Component, _) {
            p@
        } else {
            Seq::empty()
        },
        ExprValue::FunctionCall(f, args) => match checked_type(n, *f, implicit) {
            Some(Type::Function(params, _)) => bindings_of(n, *f, implicit) + args_bindings(n, e, params@, args@.len() as int),
            _ => Seq::empty(),
        },
        _ => Seq::empty(),
    }
}

/// The component properties that the first `k` arguments of the call `e`
/// read, checked as the parameters `params`.
pub open spec fn args_bindings(n: Names, e: Expr, params: Seq<Type>, k: int) -> Seq<String>
    decreases e, 0int, k,
{
    match e.value {
        ExprValue::FunctionCall(_, args) => if k <= 0 || k > args@.len() || k > params.len() {
            Seq::empty()
        } else {
            args_bindings(n, e, params, k - 1) + bindings_of(n, args@[k - 1], Some(params[k - 1]))
        },
        _ => Seq::empty(),
    }
}

/// The expected type, if any, as a value.
pub open spec fn expected(t: Option<&Type>) -> Option<Type> {
    match t {
        Some(x) => Some(*x),
        None => None,
    }
}

/// Converts `value` to the type `t` where the language does so implicitly:
/// an integer literal to a float, anything to a string. Otherwise the
/// value is left as it is.
pub fn try_coerce(value: CheckedExpr, t: &Type) -> (r: CheckedExpr)
    ensures
        r.expr_type == coerced_type(value.expr_type, value.expr.value is Int, Some(*t)),
        r.expr.span == value.expr.span,
        r.bindings == value.bindings,
        same_type(value.expr_type, *t) ==> r == value,
        !same_type(value.expr_type, *t) && *t is String ==> r.expr.value == ExprValue::Coerce(Box::new(value.expr), Type::String),
        !same_type(value.expr_type, *t) && *t is Float ==> (value.expr.value matches ExprValue::Int(n)
            ==> r.expr.value == ExprValue::Float(n)),
        !same_type(value.expr_type, *t) && !(*t is String) && !(*t is Float && value.expr.value is Int) ==> r == value,
{
    if value.expr_type.same(t) {
        return value;
    }
    let CheckedExpr { expr, expr_type, bindings } = value;
    let Expr { value: v, span } = expr;
    match t {
        Type::Float => match v {
            ExprValue::Int(n) => CheckedExpr { expr: Expr { value: ExprValue::Float(n), span }, expr_type: Type::Float, bindings },
            other => CheckedExpr { expr: Expr { value: other, span }, expr_type, bindings },
        },
        Type::String => {
            let inner = Expr { value: v, span };
            let span = inner.span.duplicate();
            CheckedExpr { expr: Expr { value: ExprValue::Coerce(Box::new(inner), Type::String), span }, expr_type: Type::String, bindings }
        },
        _ => CheckedExpr { expr: Expr { value: v, span }, expr_type, bindings },
    }
}

/// Checks an expression where a value of type `implicit_type` is expected
/// (if any): finds its type, resolves its paths, and converts it to the
/// expected type where the language does so implicitly. Reports an error
/// for the first thing that does not check.
pub fn check_expr(scope: &mut Module, expr: &Expr, implicit_type: Option<&Type>) -> (r: Result<CheckedExpr, ()>)
    ensures
        final(scope).same_names(&*old(scope)),
        ({
            let t = checked_type(old(scope).names(), *expr, expected(implicit_type));
            &&& r is Ok <==> t is Some
            &&& r matches Ok(c) ==> c.expr_type == t->0 && c.expr.span == expr.span
        }),
        r matches Ok(c) ==> c.bindings@ == bindings_of(old(scope).names(), *expr, expected(implicit_type)),
        r matches Ok(c) ==> checked_expr(old(scope).names(), *expr, expected(implicit_type), c.expr),
        r matches Ok(c) ==> (expr.value matches ExprValue::Path(p, _) ==> reads_bindings(old(scope).names(), p@, c.bindings@)),
        r is Ok ==> final(scope).issue_list() == old(scope).issue_list(),
        r is Err ==> final(scope).more_errors(&*old(scope)),
    decreases *expr, 0int,
{
    let ghost n = scope.names();
    let span = expr.span.duplicate();
    let checked: CheckedExpr = match &expr.value {
        ExprValue::Px(x) => CheckedExpr::primitive(Expr { value: ExprValue::Px(x.duplicate()), span }, Type::Length),
        ExprValue::Float(x) => CheckedExpr::primitive(Expr { value: ExprValue::Float(x.duplicate()), span }, Type::Float),
        ExprValue::Int(x) => CheckedExpr::primitive(Expr { value: ExprValue::Int(x.duplicate()), span }, Type::Int),
        ExprValue::Color(r, g, b, a) => CheckedExpr::primitive(Expr { value: ExprValue::Color(*r, *g, *b, *a), span }, Type::Brush),
        ExprValue::String(x) => CheckedExpr::primitive(Expr { value: ExprValue::String(x.clone()), span }, Type::String),
        ExprValue::Boolean(x) => CheckedExpr::primitive(Expr { value: ExprValue::Boolean(*x), span }, Type::Boolean),
        ExprValue::Enum(name, _) => {
            let it = match implicit_type {
                Some(m) => m,
                None => {
                    scope.report(Issue::error("enum expression is illegal in this context".to_owned(), span));
                    assert(scope.issue_list().take(old(scope).issue_list().len() as int) =~= old(scope).issue_list());
                    return Err(());
                },
            };
            let is_layout = match it {
                Type::EnumLayout => true,
                _ => false,
            };
            if !is_layout {
                let mut message = concat("expected type `", it.name().as_str());
                message.append("`, found unknown enum type");
                scope.report(Issue::error(message, span));
                assert(scope.issue_list().take(old(scope).issue_list().len() as int) =~= old(scope).issue_list());
                return Err(());
            }
            if !(str_equal(name.as_str(), "row") || str_equal(name.as_str(), "column")) {
                let mut message = concat("`", name.as_str());
                message.append("` is not a valid member of enum type `Layout`");
                scope.report(Issue::error(message, span));
                assert(scope.issue_list().take(old(scope).issue_list().len() as int) =~= old(scope).issue_list());
                return Err(());
            }
            CheckedExpr {
                expr: Expr { value: ExprValue::Enum(name.clone(), Some("Layout".to_owned())), span },
                expr_type: it.duplicate(),
                bindings: Vec::new(),
            }
        },
        ExprValue::Coerce(..) => {
            scope.report(Issue::error("a converted expression cannot be checked again".to_owned(), span));
            assert(scope.issue_list().take(old(scope).issue_list().len() as int) =~= old(scope).issue_list());
            return Err(());
        },
        ExprValue::Path(path, _) => {
            if path.len() == 0 {
                scope.report(Issue::error("empty path".to_owned(), span));
                assert(scope.issue_list().take(old(scope).issue_list().len() as int) =~= old(scope).issue_list());
                return Err(());
            }
            let found = scope.lookup(path, &span);
            match found {
                Err(()) => {
                    assert(scope.issue_list().take(old(scope).issue_list().len() as int) =~= old(scope).issue_list());
                    return Err(());
                },
                Ok(Some((ctx, t))) => {
                    let bindings = if ctx == Ctx::Component {
                        path.clone()
                    } else {
                        Vec::new()
                    };
                    CheckedExpr { expr: Expr { value: ExprValue::Path(path.clone(), ctx), span }, expr_type: t, bindings }
                },
                Ok(None) => {
                    let mut message = concat("property not found: `", path[0].as_str());
                    message.append("`");
                    scope.report(Issue::error(message, span));
                    assert(scope.issue_list().take(old(scope).issue_list().len() as int) =~= old(scope).issue_list());
                    return Err(());
                },
            }
        },
        ExprValue::FunctionCall(fn_expr, received_args) => {
            proof {
                assert(decreases_to!(*expr => expr.value));
                assert(decreases_to!(expr.value => (expr.value)->FunctionCall_0));
            }
            let checked_fn = check_expr(scope, fn_expr, implicit_type)?;
            let mut bindings = checked_fn.bindings.clone();
            let fn_span = checked_fn.expr.span.duplicate();
            match &checked_fn.expr_type {
                Type::Function(expected_args, ret) => {
                    let params: &Vec<Type> = &**expected_args;
                    if received_args.len() != params.len() {
                        let mut message = concat("expected ", usize_to_string(params.len()).as_str());
                        message.append(" arguments, received ");
                        message.append(usize_to_string(received_args.len()).as_str());
                        scope.report(Issue::error(message, span));
                        assert(scope.issue_list().take(old(scope).issue_list().len() as int) =~= old(scope).issue_list());
                        return Err(());
                    }
                    let mut checked_args: Vec<Expr> = Vec::new();
                    let mut i: usize = 0;
                    while i < received_args.len()
                        invariant
                            i <= received_args@.len(),
                            received_args@.len() == params@.len(),
                            scope.same_names(&*old(scope)),
                            scope.issue_list() == old(scope).issue_list(),
                            n == old(scope).names(),
                            expr.value == ExprValue::FunctionCall(*fn_expr, *received_args),
                            *params == **expected_args,
                            checked_type(n, **fn_expr, expected(implicit_type)) == Some(Type::Function(*expected_args, *ret)),
                            args_fit(n, *expr, params@, i as int),
                            bindings@ == bindings_of(n, **fn_expr, expected(implicit_type)) + args_bindings(n, *expr, params@, i as int),
                            checked_args@.len() == i,
                            args_checked(n, *expr, params@, checked_args@, i as int),
                        decreases received_args@.len() - i,
                    {
                        proof {
                            assert(decreases_to!(*expr => expr.value));
                            assert(decreases_to!(expr.value => (expr.value)->FunctionCall_1));
                            assert(decreases_to!(*received_args => received_args@[i as int]));
                        }
                        let checked_arg = match type_check(scope, &received_args[i], &params[i]) {
                            Ok(c) => c,
                            Err(()) => {
                                assert(!fits(checked_type(n, received_args@[i as int], Some(params@[i as int])), params@[i as int]));
                                proof {
                                    if args_fit(n, *expr, params@, received_args@.len() as int) {
                                        lemma_args_fit_prefix(n, *expr, params@, i as int, received_args@.len() as int);
                                    }
                                }
                                return Err(());
                            },
                        };
                        let mut more = checked_arg.bindings;
                        bindings.append(&mut more);
                        proof {
                            assert(bindings@ =~= bindings_of(n, **fn_expr, expected(implicit_type)) + args_bindings(n, *expr, params@, i + 1));
                        }
                        let ghost before_args = checked_args@;
                        checked_args.push(checked_arg.expr);
                        proof {
                            lemma_args_checked_push(n, *expr, params@, before_args, checked_args@.last(), i as int);
                        }
                        i = i + 1;
                    }
                    CheckedExpr {
                        expr: Expr { value: ExprValue::FunctionCall(Box::new(checked_fn.expr), checked_args), span },
                        expr_type: Type::duplicate(ret),
                        bindings,
                    }
                },
                _ => {
                    let mut message = concat("expression of type `", checked_fn.expr_type.name().as_str());
                    message.append("` is not callable");
                    scope.report(Issue::error(message, fn_span));
                    assert(scope.issue_list().take(old(scope).issue_list().len() as int) =~= old(scope).issue_list());
                    return Err(());
                },
            }
        },
    };
    assert(base_type(n, *expr, expected(implicit_type)) == Some(checked.expr_type));
    assert(checked.expr.value is Int <==> expr.value is Int);
    assert(checked_base(n, *expr, expected(implicit_type), checked.expr));
    match implicit_type {
        Some(t) => Ok(try_coerce(checked, t)),
        None => Ok(checked),
    }
}

/// Checks that `expr` has the type `t` (after the implicit conversions).
pub fn type_check(scope: &mut Module, expr: &Expr, t: &Type) -> (r: Result<CheckedExpr, ()>)
    ensures
        final(scope).same_names(&*old(scope)),
        r is Ok <==> fits(checked_type(old(scope).names(), *expr, Some(*t)), *t),
        r matches Ok(c) ==> c.expr_type == checked_type(old(scope).names(), *expr, Some(*t))->0
            && c.expr.span == expr.span && c.bindings@ == bindings_of(old(scope).names(), *expr, Some(*t))
            && checked_expr(old(scope).names(), *expr, Some(*t), c.expr),
        r is Ok ==> final(scope).issue_list() == old(scope).issue_list(),
        r is Err ==> final(scope).more_errors(&*old(scope)),
    decreases *expr, 1int,
{
    let checked = check_expr(scope, expr, Some(t))?;
    if !checked.expr_type.same(t) {
        let mut message = concat("expected type `", t.name().as_str());
        message.append("`, found `");
        message.append(checked.expr_type.name().as_str());
        message.append("`");
        scope.report(Issue::error(message, checked.expr.span.duplicate()));
        assert(scope.issue_list().take(old(scope).issue_list().len() as int) =~= old(scope).issue_list());
        Err(())
    } else {
        Ok(checked)
    }
}

/// A checked `for index, item in collection` clause.
pub struct CheckedRepeater {
    pub collection: CheckedExpr,
    pub index: Option<String>,
    pub item: Option<String>,
    pub item_type: Type,
    pub root_type: String,
}

/// The content of a checked element.
pub enum Content {
    Element(Element),
    Children(Children),
}

/// The component an element instantiates.
pub struct ElementTag {
    pub path: Vec<String>,
    pub import_path: Option<String>,
}

/// A checked element. Properties that override others (presets) are kept
/// apart from the plain ones.
pub struct Element {
    pub tag: ElementTag,
    pub data: Option<CheckedExpr>,
    pub condition: Option<CheckedExpr>,
    pub repeater: Option<CheckedRepeater>,
    pub props: Table<CheckedExpr>,
    pub presets: Table<CheckedExpr>,
    pub children: Vec<Content>,
}

/// A checked component.
pub struct Component {
    pub name: String,
    pub root: Element,
    pub props: Vec<PropDecl>,
}

/// Whether `name` is among the names `v`.
fn contains_name(v: &Vec<String>, name: &str) -> (r: bool)
    ensures
        r == string_views(v@).contains(name@),
{
    let mut i: usize = 0;
    while i < v.len()
        invariant
            i <= v@.len(),
            forall|j: int| 0 <= j < i ==> v@[j]@ != name@,
        decreases v@.len() - i,
    {
        if str_equal(v[i].as_str(), name) {
            assert(string_views(v@)[i as int] == name@);
            return true;
        }
        i = i + 1;
    }
    proof {
        if string_views(v@).contains(name@) {
            let j = choose|j: int| 0 <= j < string_views(v@).len() && string_views(v@)[j] == name@;
            assert(v@[j]@ == name@);
        }
    }
    false
}

/// Checks a child element against the rules of its parent's component:
/// gives the rules back where the child is permitted, and otherwise the
/// error to report.
pub fn check_child_rules(
    child: &Element,
    def: &ComponentDef,
    parent_span: &Span,
    child_span: &Span,
    rules: ChildRules,
) -> (r: Result<ChildRules, Issue>)
    requires
        child.tag.path@.len() >= 1,
    ensures
        match rules {
            ChildRules::Any => r is Ok,
            ChildRules::AnyOf(v) => r is Ok <==> string_views(v@).contains(child.tag.path@.last()@),
            ChildRules::Nothing => r is Err,
        },
        r matches Ok(x) ==> x == rules,
        r matches Err(issue) ==> issue.level == IssueLevel::Error && issue.span == (if rules is Nothing {
            *parent_span
        } else {
            *child_span
        }),
{
    match &rules {
        ChildRules::Any => Ok(rules),
        ChildRules::AnyOf(v) => {
            let last = child.tag.path.len() - 1;
            if !contains_name(v, child.tag.path[last].as_str()) {
                let mut permitted = String::new();
                let mut i: usize = 0;
                while i < v.len()
                    decreases v@.len() - i,
                {
                    if i > 0 {
                        permitted.append(", ");
                    }
                    permitted.append("`");
                    permitted.append(v[i].as_str());
                    permitted.append("`");
                    i = i + 1;
                }
                let mut message = concat("invalid child element for `", def.name.as_str());
                message.append("` (permitted elements: ");
                message.append(permitted.as_str());
                message.append(")");
                return Err(Issue::error(message, child_span.duplicate()));
            }
            Ok(rules)
        },
        ChildRules::Nothing => {
            let mut message = concat("`", def.name.as_str());
            message.append("` component cannot contain children");
            Err(Issue::error(message, parent_span.duplicate()))
        },
    }
}

/// The properties of a checked element are properties of the component `d`
/// of the right types: plain ones among `props`, ones that override other
/// properties among `presets`.
pub open spec fn props_fit(d: ComponentDef, props: Seq<(String, CheckedExpr)>, presets: Seq<(String, CheckedExpr)>) -> bool {
    &&& forall|k: Seq<char>| #[trigger] lookup(props, k) is Some ==> (lookup(d.props@, k) matches Some(pd)
        && pd.children@.len() == 0 && same_type(lookup(props, k)->0.expr_type, pd.prop_type))
    &&& forall|k: Seq<char>| #[trigger] lookup(presets, k) is Some ==> (lookup(d.props@, k) matches Some(pd)
        && pd.children@.len() > 0 && same_type(lookup(presets, k)->0.expr_type, pd.prop_type))
}

/// No property that a preset of `d` overrides is set as well.
pub open spec fn no_overrides(d: ComponentDef, props: Seq<(String, CheckedExpr)>, presets: Seq<(String, CheckedExpr)>) -> bool {
    forall|p: int, c: int| 0 <= p < presets.len() && (#[trigger] lookup(d.props@, presets[p].0@)) is Some
        && 0 <= c < lookup(d.props@, presets[p].0@)->0.children@.len() ==> {
            let victim = #[trigger] lookup(d.props@, presets[p].0@)->0.children@[c]@;
            lookup(props, victim) is None && lookup(presets, victim) is None
        }
}

/// Two copies of the same child rules.
pub open spec fn same_rules(a: ChildRules, b: ChildRules) -> bool {
    match (a, b) {
        (ChildRules::Any, ChildRules::Any) => true,
        (ChildRules::Nothing, ChildRules::Nothing) => true,
        (ChildRules::AnyOf(x), ChildRules::AnyOf(y)) => x@ == y@,
        _ => false,
    }
}

/// The child `c` is permitted by the rules: any element where any is, an
/// element named by one of the names where only those are, none where none
/// is; a placeholder for children passed in is not checked.
pub open spec fn children_permitted(rules: ChildRules, c: Content) -> bool {
    match c {
        Content::Element(e) => e.tag.path@.len() >= 1 && match rules {
            ChildRules::Any => true,
            ChildRules::AnyOf(v) => string_views(v@).contains(e.tag.path@.last()@),
            ChildRules::Nothing => false,
        },
        Content::Children(_) => true,
    }
}

/// The issues of `m` are those of `old`, followed by an error.
pub open spec fn failed_after(m: &Module, old: &Module) -> bool {
    &&& m.keeps_issues(old)
    &&& m.issue_list().len() > old.issue_list().len()
    &&& m.issue_list().last().level == IssueLevel::Error
}

/// The names `n` with a new, empty innermost scope.
pub open spec fn with_scope(n: Names) -> Names {
    (n.0, n.1.push(Seq::empty()), n.2)
}

/// The names `n` after the bindings of the `for` clause of `e`, if it has
/// one, are declared in the innermost scope: the index as an integer, the
/// item as an item of the collection.
pub open spec fn repeater_names(n: Names, e: ParserElement) -> Names {
    match e.repeater {
        None => n,
        Some(rp) => {
            let item_type = iter_item_type(checked_type(n, rp.collection, None)->0)->0;
            let n2 = match rp.index {
                Some((b, sp)) => (n.0, declared(n.1, b, Type::Int, sp), n.2),
                None => n,
            };
            match rp.item {
                Some((b, sp)) => (n2.0, declared(n2.1, b, item_type, sp), n2.2),
                None => n2,
            }
        },
    }
}

/// The `for` clause of `e`, if it has one, checks with the names `n`: its
/// collection can be iterated, its bindings may be declared, and the element
/// is named by a single name.
pub open spec fn repeater_checks(n: Names, e: ParserElement) -> bool {
    match e.repeater {
        None => true,
        Some(rp) => {
            let n2 = match rp.index {
                Some((b, sp)) => (n.0, declared(n.1, b, Type::Int, sp), n.2),
                None => n,
            };
            &&& checked_type(n, rp.collection, None) matches Some(c) && iter_item_type(c) is Some
            &&& rp.index matches Some((b, _)) ==> may_declare(n, b@)
            &&& rp.item matches Some((b, _)) ==> may_declare(n2, b@)
            &&& e.path@.len() == 1
        },
    }
}

/// Each property set in `entries` is a property of the component `d`, with
/// a value of its type under the names `n`.
pub open spec fn props_check(n: Names, d: ComponentDef, entries: Seq<(String, PropAsgn)>) -> bool {
    forall|i: int| 0 <= i < entries.len() ==> (lookup(d.props@, (#[trigger] entries[i]).0@) matches Some(pd)
        && fits(checked_type(n, entries[i].1.expr, Some(pd.prop_type)), pd.prop_type))
}

/// No property set in `entries` is overridden by another one set there.
pub open spec fn no_clobber(d: ComponentDef, entries: Seq<(String, PropAsgn)>) -> bool {
    forall|i: int, c: int| 0 <= i < entries.len() && (#[trigger] lookup(d.props@, entries[i].0@)) is Some
        && 0 <= c < lookup(d.props@, entries[i].0@)->0.children@.len()
        ==> !has_name(entries, #[trigger] lookup(d.props@, entries[i].0@)->0.children@[c]@)
}

/// A child element named by `path` is permitted by the rules.
pub open spec fn rules_permit(rules: ChildRules, path: Seq<String>) -> bool {
    match rules {
        ChildRules::Any => true,
        ChildRules::AnyOf(v) => string_views(v@).contains(path.last()@),
        ChildRules::Nothing => false,
    }
}

/// The element `e` checks with the names `n` in view: it is not both
/// conditional and repeated; its condition is a boolean; its `for` clause
/// checks; its path names a component; the properties it sets are
/// properties of that component with values of their types, none
/// overridden by another; and each child element checks and is permitted by
/// the component's rules. Properties, children and the element's own name
/// are read with the bindings of the `for` clause in view.
pub open spec fn element_checks(n: Names, e: ParserElement) -> bool
    decreases e, 1int, 0int,
{
    let n1 = with_scope(n);
    let n3 = repeater_names(n1, e);
    &&& !(e.condition is Some && e.repeater is Some)
    &&& e.condition matches Some(c) ==> fits(checked_type(n1, c.expr, Some(Type::Boolean)), Type::Boolean)
    &&& repeater_checks(n1, e)
    &&& e.path@.len() >= 1
    &&& names_lookup(n3, string_views(e.path@)) matches Lookup::Found(_, Type::Component(d))
        && props_check(n3, *d, e.props.entries@)
        && no_clobber(*d, e.props.entries@)
        && children_check(n3, d.child_rules, e.children@, e.children@.len() as int)
}

/// The child rules of a component.
pub open spec fn rules_of(d: &ComponentDef) -> ChildRules {
    d.child_rules
}

/// The first `k` contents `cs` check with the names `n` in view: each
/// element among them checks and is permitted by the rules.
pub open spec fn children_check(n: Names, rules: ChildRules, cs: Seq<ParserContent>, k: int) -> bool
    decreases cs, 0int, k,
{
    if k <= 0 || k > cs.len() {
        true
    } else {
        children_check(n, rules, cs, k - 1) && match cs[k - 1] {
            ParserContent::Element(c) => element_checks(n, c) && rules_permit(rules, c.path@),
            ParserContent::Children(_) => true,
        }
    }
}

/// The name held in an optional name, if any.
pub open spec fn opt_view(o: Option<String>) -> Option<Seq<char>> {
    match o {
        Some(n) => Some(n@),
        None => None,
    }
}

/// `out` is what checking `e` gives, with the type `t` expected and the
/// names `n` in view: its type, the properties it reads, and the checked
/// expression.
pub open spec fn checked_as(n: Names, e: Expr, t: Option<Type>, out: CheckedExpr) -> bool {
    &&& out.expr_type == checked_type(n, e, t)->0
    &&& out.bindings@ == bindings_of(n, e, t)
    &&& checked_expr(n, e, t, out.expr)
}

/// The checked property `k` of an element, if it is set: a preset where the
/// property of the component `d` overrides others, a plain one otherwise.
pub open spec fn checked_prop(
    d: ComponentDef,
    props: Seq<(String, CheckedExpr)>,
    presets: Seq<(String, CheckedExpr)>,
    k: Seq<char>,
) -> Option<CheckedExpr> {
    if lookup(d.props@, k)->0.children@.len() > 0 {
        lookup(presets, k)
    } else {
        lookup(props, k)
    }
}

/// Where no property is set twice, each property set in `entries` is checked
/// as the property of that name of the component `d`, with the names `n` in
/// view, and kept among `props` or `presets`.
pub open spec fn props_result(
    n: Names,
    d: ComponentDef,
    entries: Seq<(String, PropAsgn)>,
    props: Seq<(String, CheckedExpr)>,
    presets: Seq<(String, CheckedExpr)>,
) -> bool {
    unique_names(entries) ==> forall|k: Seq<char>| #[trigger] lookup(entries, k) is Some
        ==> (checked_prop(d, props, presets, k) matches Some(ce)
            && checked_as(n, lookup(entries, k)->0.expr, Some(lookup(d.props@, k)->0.prop_type), ce))
}

/// `out` is what checking the element `e` gives, with the names `n` in view:
/// its path; its condition and its `for` clause checked; its properties
/// checked as the properties of the component its path names, with the
/// bindings of the `for` clause in view; and its children checked in turn.
pub open spec fn element_result(n: Names, e: ParserElement, out: Element) -> bool
    decreases e, 1int, 0int,
{
    let n1 = with_scope(n);
    let n3 = repeater_names(n1, e);
    &&& string_views(out.tag.path@) == string_views(e.path@)
    &&& out.tag.import_path is None
    &&& out.data is None
    &&& match e.condition {
        None => out.condition is None,
        Some(c) => out.condition matches Some(oc) && checked_as(n1, c.expr, Some(Type::Boolean), oc),
    }
    &&& match e.repeater {
        None => out.repeater is None,
        Some(rp) => out.repeater matches Some(orp) && checked_as(n1, rp.collection, None, orp.collection)
            && opt_view(orp.index) == opt_name(rp.index) && opt_view(orp.item) == opt_name(rp.item)
            && orp.item_type == iter_item_type(checked_type(n1, rp.collection, None)->0)->0
            && orp.root_type@ == e.path@[0]@,
    }
    &&& names_lookup(n3, string_views(e.path@)) matches Lookup::Found(_, Type::Component(d))
        && props_result(n3, *d, e.props.entries@, out.props.entries@, out.presets.entries@)
    &&& out.children@.len() == e.children@.len()
    &&& children_results(n3, e.children@, out.children@, e.children@.len() as int)
}

/// The first `k` contents `outs` are what checking the contents `ins` gives,
/// with the names `n` in view: each element checked, each placeholder for
/// children copied.
pub open spec fn children_results(n: Names, ins: Seq<ParserContent>, outs: Seq<Content>, k: int) -> bool
    decreases ins, 0int, k,
{
    if k <= 0 || k > ins.len() || k > outs.len() {
        true
    } else {
        children_results(n, ins, outs, k - 1) && match ins[k - 1] {
            ParserContent::Element(c) => outs[k - 1] matches Content::Element(o) && element_result(n, c, o),
            ParserContent::Children(ch) => outs[k - 1] matches Content::Children(och) && och.single == ch.single
                && (och.filter is Some <==> ch.filter is Some)
                && (ch.filter matches Some(v) ==> (och.filter matches Some(w) && w@ == v@)),
        }
    }
}

/// Checking one more content keeps the ones checked before.
proof fn lemma_children_results_push(n: Names, ins: Seq<ParserContent>, outs: Seq<Content>, o: Content, k: int)
    requires
        0 <= k <= outs.len(),
        k <= ins.len(),
        children_results(n, ins, outs, k),
    ensures
        children_results(n, ins, outs.push(o), k),
    decreases k,
{
    if k > 0 {
        lemma_children_results_push(n, ins, outs, o, k - 1);
        assert(outs.push(o)[k - 1] == outs[k - 1]);
    }
}

/// Contents that check up to `k` check up to any `j` before, and the one
/// just before `j` checks.
proof fn lemma_children_check_prefix(n: Names, rules: ChildRules, cs: Seq<ParserContent>, j: int, k: int)
    requires
        0 < j <= k <= cs.len(),
        children_check(n, rules, cs, k),
    ensures
        children_check(n, rules, cs, j),
        match cs[j - 1] {
            ParserContent::Element(c) => element_checks(n, c) && rules_permit(rules, c.path@),
            ParserContent::Children(_) => true,
        },
    decreases k,
{
    if j < k {
        lemma_children_check_prefix(n, rules, cs, j, k - 1);
    }
}

/// Reports `issue`, an error, and gives `Err`.
fn fail<T>(scope: &mut Module, issue: Issue) -> (r: Result<T, ()>)
    requires
        issue.level == IssueLevel::Error,
    ensures
        r is Err,
        final(scope).same_names(&*old(scope)),
        final(scope).issue_list() == old(scope).issue_list().push(issue),
        failed_after(&*final(scope), &*old(scope)),
{
    scope.report(issue);
    proof {
        crate::scope::lemma_push_keeps(old(scope).issue_list(), issue);
    }
    Err(())
}

/// Checks an element and, in turn, its children: the condition must be a
/// boolean, the collection of a repeater iterable, the element must name a
/// component, each property must be one of the component's with a value of
/// its type, no property may be set together with one that overrides it,
/// and each child must be permitted by the component. The bindings of a
/// repeater are visible in the element's own scope only.
#[verifier::rlimit(100)]
pub fn check_element(scope: &mut Module, unchecked: &ParserElement) -> (r: Result<Element, ()>)
    requires
        old(scope).wf(),
    ensures
        final(scope).wf(),
        final(scope).builtin_entries() == old(scope).builtin_entries(),
        final(scope).prop_entries() == old(scope).prop_entries(),
        final(scope).keeps_issues(&*old(scope)),
        r is Ok ==> {
            &&& final(scope).scopes() == old(scope).scopes()
            &&& final(scope).warnings_from(old(scope).issue_list().len() as int)
        },
        r is Err ==> failed_after(&*final(scope), &*old(scope)),
        r is Ok <==> element_checks(old(scope).names(), *unchecked),
        r matches Ok(e) ==> element_result(old(scope).names(), *unchecked, e),
        r matches Ok(e) ==> {
            &&& string_views(e.tag.path@) == string_views(unchecked.path@)
            &&& e.tag.path@.len() >= 1
            &&& e.tag.import_path is None
            &&& e.data is None
            &&& (e.condition is Some <==> unchecked.condition is Some)
            &&& (e.repeater is Some <==> unchecked.repeater is Some)
            &&& e.condition matches Some(c) ==> c.expr_type == Type::Boolean
            &&& e.children@.len() == unchecked.children@.len()
            &&& unique_names(e.props.entries@)
            &&& unique_names(e.presets.entries@)
            &&& forall|k: Seq<char>| #[trigger] lookup(unchecked.props.entries@, k) is Some
                <==> (lookup(e.props.entries@, k) is Some || lookup(e.presets.entries@, k) is Some)
            &&& forall|j: int| 0 <= j < e.children@.len() ==> ((#[trigger] e.children@[j]) is Children <==> unchecked.children@[j] is Children)
            &&& exists|d: ComponentDef| props_fit(d, e.props.entries@, e.presets.entries@)
                && no_overrides(d, e.props.entries@, e.presets.entries@)
                && forall|j: int| 0 <= j < e.children@.len() ==> children_permitted(d.child_rules, #[trigger] e.children@[j])
        },
    decreases unchecked,
{
    let ghost start = *scope;
    let ghost base = old(scope).issue_list().len() as int;
    let ghost n0 = old(scope).names();
    let ghost n1 = with_scope(n0);
    let ghost n3 = repeater_names(n1, *unchecked);
    let mut children: Vec<Content> = Vec::new();
    scope.push_scope();
    assert(scope.issue_list().take(base) =~= old(scope).issue_list());
    assert(scope.names() == n1);
    if unchecked.condition.is_some() && unchecked.repeater.is_some() {
        let span = match &unchecked.condition {
            Some(c) => c.span.duplicate(),
            None => unchecked.name_span.duplicate(),
        };
        let ghost before_fail = *scope;
        let r = fail(scope, Issue::error("an element cannot be both conditional and repeated".to_owned(), span));
        proof {
            crate::scope::lemma_issues_kept(scope.issue_list(), before_fail.issue_list(), old(scope).issue_list());
        }
        return r;
    }
    let condition = match &unchecked.condition {
        Some(condition) => {
            let ghost before = *scope;
            match type_check(scope, &condition.expr, &Type::Boolean) {
                Ok(c) => {
                    assert(same_type(c.expr_type, Type::Boolean));
                    Some(c)
                },
                Err(()) => {
                    proof {
                        crate::scope::lemma_issues_kept(scope.issue_list(), before.issue_list(), old(scope).issue_list());
                    }
                    return Err(());
                },
            }
        },
        None => None,
    };
    proof {
        if condition is Some {
            assert(same_type(condition->0.expr_type, Type::Boolean));
        }
    }
    assert(match unchecked.condition {
        None => condition is None,
        Some(c) => condition matches Some(oc) && checked_as(n1, c.expr, Some(Type::Boolean), oc),
    });
    let ghost before_repeater = *scope;
    let repeater = match &unchecked.repeater {
        Some(repeater) => {
            let collection = match check_expr(scope, &repeater.collection, None) {
                Ok(c) => c,
                Err(()) => {
                    proof {
                        crate::scope::lemma_issues_kept(scope.issue_list(), before_repeater.issue_list(), old(scope).issue_list());
                    }
                    return Err(());
                },
            };
            let item_type = match collection.expr_type.iter_type() {
                Some(t) => t,
                None => {
                    let mut message = concat("type `", collection.expr_type.name().as_str());
                    message.append("` is not iterable");
                    let ghost before_fail = *scope;
                    let r = fail(scope, Issue::error(message, collection.expr.span.duplicate()));
                    proof {
                        crate::scope::lemma_issues_kept(scope.issue_list(), before_fail.issue_list(), old(scope).issue_list());
                    }
                    return r;
                },
            };
            if let Some((binding, span)) = &repeater.index {
                let ghost before = *scope;
                let declared = scope.declare(binding.clone(), &Type::Int, span);
                proof {
                    if scope.issue_list() != before.issue_list() {
                        crate::scope::lemma_push_keeps(before.issue_list(), scope.issue_list().last());
                        assert(scope.issue_list() =~= before.issue_list().push(scope.issue_list().last()));
                    } else {
                        assert(scope.issue_list().take(scope.issue_list().len() as int) =~= scope.issue_list());
                    }
                    crate::scope::lemma_issues_kept(scope.issue_list(), before.issue_list(), old(scope).issue_list());
                    if declared.is_ok() {
                        crate::scope::lemma_warnings_kept(scope.issue_list(), before.issue_list(), base);
                    }
                }
                if declared.is_err() {
                    return Err(());
                }
            }
            if let Some((binding, span)) = &repeater.item {
                let ghost before = *scope;
                let declared = scope.declare(binding.clone(), &item_type, span);
                proof {
                    if scope.issue_list() != before.issue_list() {
                        crate::scope::lemma_push_keeps(before.issue_list(), scope.issue_list().last());
                        assert(scope.issue_list() =~= before.issue_list().push(scope.issue_list().last()));
                    } else {
                        assert(scope.issue_list().take(scope.issue_list().len() as int) =~= scope.issue_list());
                    }
                    crate::scope::lemma_issues_kept(scope.issue_list(), before.issue_list(), old(scope).issue_list());
                    if declared.is_ok() {
                        crate::scope::lemma_warnings_kept(scope.issue_list(), before.issue_list(), base);
                    }
                }
                if declared.is_err() {
                    return Err(());
                }
            }
            if unchecked.path.len() != 1 {
                let ghost before_fail = *scope;
                let r = fail(scope, Issue::error("a repeated element must be named by a single name".to_owned(), unchecked.name_span.duplicate()));
                proof {
                    crate::scope::lemma_issues_kept(scope.issue_list(), before_fail.issue_list(), old(scope).issue_list());
                }
                return r;
            }
            let checked_repeater = CheckedRepeater {
                index: match &repeater.index {
                    Some((s, _)) => Some(s.clone()),
                    None => None,
                },
                item: match &repeater.item {
                    Some((s, _)) => Some(s.clone()),
                    None => None,
                },
                collection,
                item_type,
                root_type: unchecked.path[0].clone(),
            };
            assert(checked_as(n1, repeater.collection, None, checked_repeater.collection));
            Some(checked_repeater)
        },
        None => None,
    };
    assert(match unchecked.repeater {
        None => repeater is None,
        Some(rp) => repeater matches Some(orp) && checked_as(n1, rp.collection, None, orp.collection)
            && opt_view(orp.index) == opt_name(rp.index) && opt_view(orp.item) == opt_name(rp.item)
            && orp.item_type == iter_item_type(checked_type(n1, rp.collection, None)->0)->0
            && orp.root_type@ == unchecked.path@[0]@,
    });
    proof {
        assert(scope.scopes().drop_last() == old(scope).scopes());
        assert(scope.names() == n3);
        assert(repeater_checks(n1, *unchecked));
    }
    if unchecked.path.len() == 0 {
        let ghost before_fail = *scope;
        let r = fail(scope, Issue::error("an element must name a component".to_owned(), unchecked.name_span.duplicate()));
        proof {
            crate::scope::lemma_issues_kept(scope.issue_list(), before_fail.issue_list(), old(scope).issue_list());
        }
        return r;
    }
    let ghost before_def = *scope;
    let component_def = match scope.get_component_def(unchecked) {
        Ok(d) => d,
        Err(()) => {
            proof {
                assert(scope.issue_list() =~= before_def.issue_list().push(scope.issue_list().last()));
                crate::scope::lemma_push_keeps(before_def.issue_list(), scope.issue_list().last());
                crate::scope::lemma_issues_kept(scope.issue_list(), before_def.issue_list(), old(scope).issue_list());
            }
            return Err(());
        },
    };
    let ghost mid = *scope;
    let mut checked_props: Table<CheckedExpr> = Table::new();
    let mut checked_presets: Table<CheckedExpr> = Table::new();
    let mut spans: Table<Span> = Table::new();
    let entries = &unchecked.props.entries;
    let mut i: usize = 0;
    while i < entries.len()
        invariant
            i <= entries@.len(),
            *entries == unchecked.props.entries,
            scope.wf(),
            scope.builtin_entries() == old(scope).builtin_entries(),
            scope.prop_entries() == old(scope).prop_entries(),
            scope.scopes() == mid.scopes(),
            mid.scopes().len() > 0,
            mid.scopes().drop_last() == old(scope).scopes(),
            scope.keeps_issues(&*old(scope)),
            scope.warnings_from(base),
            base == old(scope).issue_list().len(),
            unique_names(checked_props.entries@),
            unique_names(checked_presets.entries@),
            unique_names(spans.entries@),
            props_fit(*component_def, checked_props.entries@, checked_presets.entries@),
            forall|k: Seq<char>| (#[trigger] lookup(checked_props.entries@, k) is Some || lookup(checked_presets.entries@, k) is Some)
                <==> has_name(entries@.take(i as int), k),
            n0 == old(scope).names(),
            n3 == repeater_names(with_scope(n0), *unchecked),
            scope.names() == n3,
            names_lookup(n3, string_views(unchecked.path@)) matches Lookup::Found(_, Type::Component(d)) && d == component_def,
            forall|j: int| 0 <= j < i ==> (lookup(component_def.props@, (#[trigger] entries@[j]).0@) matches Some(pd)
                && fits(checked_type(n3, entries@[j].1.expr, Some(pd.prop_type)), pd.prop_type)),
            unique_names(entries@) ==> forall|j: int| 0 <= j < i ==> (checked_prop(*component_def, checked_props.entries@,
                checked_presets.entries@, (#[trigger] entries@[j]).0@) matches Some(ce) && checked_as(n3, entries@[j].1.expr,
                Some(lookup(component_def.props@, entries@[j].0@)->0.prop_type), ce)),
        decreases entries@.len() - i,
    {
        let k = &entries[i].0;
        let p = &entries[i].1;
        let prop_def = match get_entry(&component_def.props, k.as_str()) {
            Some(d) => d,
            None => {
                let mut message = k.clone();
                message.append(": no such property");
                let ghost before_fail = *scope;
                let r = fail(scope, Issue::error(message, p.span.duplicate()));
                proof {
                    crate::scope::lemma_issues_kept(scope.issue_list(), before_fail.issue_list(), old(scope).issue_list());
                    assert(entries@[i as int].0 == *k);
                    assert(!props_check(n3, *component_def, unchecked.props.entries@));
                }
                return r;
            },
        };
        let ghost before = *scope;
        let expr = match type_check(scope, &p.expr, &prop_def.prop_type) {
            Ok(e) => e,
            Err(()) => {
                proof {
                    crate::scope::lemma_issues_kept(scope.issue_list(), before.issue_list(), old(scope).issue_list());
                    assert(entries@[i as int].0 == *k);
                    assert(!props_check(n3, *component_def, unchecked.props.entries@));
                }
                return Err(());
            },
        };
        let ghost old_props = checked_props.entries@;
        let ghost old_presets = checked_presets.entries@;
        let ghost checked_value = expr;
        spans.insert(k.clone(), p.span.duplicate());
        if prop_def.children.len() > 0 {
            checked_presets.insert(k.clone(), expr);
        } else {
            checked_props.insert(k.clone(), expr);
        }
        proof {
            let t = entries@.take(i as int);
            let t2 = entries@.take(i + 1);
            assert(t2 =~= t.push(entries@[i as int]));
            assert forall|n: Seq<char>| has_name(t2, n) <==> (has_name(t, n) || n == k@) by {
                if has_name(t2, n) {
                    let j = choose|j: int| 0 <= j < t2.len() && (#[trigger] t2[j]).0@ == n;
                    if j < t.len() {
                        assert(t[j] == t2[j]);
                    }
                }
                if has_name(t, n) {
                    let j = choose|j: int| 0 <= j < t.len() && (#[trigger] t[j]).0@ == n;
                    assert(t2[j] == t[j]);
                }
                if n == k@ {
                    assert(t2[i as int].0@ == n);
                }
            }
            assert forall|n: Seq<char>| (#[trigger] lookup(checked_props.entries@, n) is Some || lookup(checked_presets.entries@, n) is Some)
                <==> has_name(t2, n) by {
                if n != k@ {
                    assert(lookup(checked_props.entries@, n) == lookup(old_props, n));
                    assert(lookup(checked_presets.entries@, n) == lookup(old_presets, n));
                }
            }
            assert forall|n: Seq<char>| #[trigger] lookup(checked_props.entries@, n) is Some implies (lookup(component_def.props@, n) matches Some(pd)
                && pd.children@.len() == 0 && same_type(lookup(checked_props.entries@, n)->0.expr_type, pd.prop_type)) by {
                if n != k@ {
                    assert(lookup(checked_props.entries@, n) == lookup(old_props, n));
                }
            }
            assert forall|n: Seq<char>| #[trigger] lookup(checked_presets.entries@, n) is Some implies (lookup(component_def.props@, n) matches Some(pd)
                && pd.children@.len() > 0 && same_type(lookup(checked_presets.entries@, n)->0.expr_type, pd.prop_type)) by {
                if n != k@ {
                    assert(lookup(checked_presets.entries@, n) == lookup(old_presets, n));
                }
            }
            if unique_names(entries@) {
                assert forall|j: int| 0 <= j < i + 1 implies (checked_prop(*component_def, checked_props.entries@,
                    checked_presets.entries@, (#[trigger] entries@[j]).0@) matches Some(ce) && checked_as(n3, entries@[j].1.expr,
                    Some(lookup(component_def.props@, entries@[j].0@)->0.prop_type), ce)) by {
                    let kj = entries@[j].0@;
                    if j < i {
                        assert(kj != k@);
                        assert(lookup(checked_props.entries@, kj) == lookup(old_props, kj));
                        assert(lookup(checked_presets.entries@, kj) == lookup(old_presets, kj));
                    } else {
                        assert(checked_prop(*component_def, checked_props.entries@, checked_presets.entries@, kj) == Some(checked_value));
                    }
                }
            }
        }
        i = i + 1;
    }
    let ghost after_props = *scope;
    proof {
        assert(entries@.take(entries@.len() as int) =~= entries@);
    }
    let mut q: usize = 0;
    while q < checked_presets.entries.len()
        invariant
            q <= checked_presets.entries@.len(),
            *scope == after_props,
            after_props.wf(),
            after_props.builtin_entries() == old(scope).builtin_entries(),
            after_props.prop_entries() == old(scope).prop_entries(),
            after_props.keeps_issues(&*old(scope)),
            forall|p: int, c: int| 0 <= p < q && (#[trigger] lookup(component_def.props@, checked_presets.entries@[p].0@)) is Some
                && 0 <= c < lookup(component_def.props@, checked_presets.entries@[p].0@)->0.children@.len() ==> {
                    let victim = #[trigger] lookup(component_def.props@, checked_presets.entries@[p].0@)->0.children@[c]@;
                    lookup(checked_props.entries@, victim) is None && lookup(checked_presets.entries@, victim) is None
                },
            forall|k: Seq<char>| (#[trigger] lookup(checked_props.entries@, k) is Some || lookup(checked_presets.entries@, k) is Some)
                <==> has_name(unchecked.props.entries@, k),
            n0 == old(scope).names(),
            n3 == repeater_names(with_scope(n0), *unchecked),
            names_lookup(n3, string_views(unchecked.path@)) matches Lookup::Found(_, Type::Component(d)) && d == component_def,
        decreases checked_presets.entries@.len() - q,
    {
        let clobberer = &checked_presets.entries[q].0;
        if let Some(prop_def) = get_entry(&component_def.props, clobberer.as_str()) {
            let mut c: usize = 0;
            while c < prop_def.children.len()
                invariant
                    c <= prop_def.children@.len(),
                    *scope == after_props,
                    after_props.wf(),
                    after_props.builtin_entries() == old(scope).builtin_entries(),
                    after_props.prop_entries() == old(scope).prop_entries(),
                    after_props.keeps_issues(&*old(scope)),
                    *clobberer == checked_presets.entries@[q as int].0,
                    lookup(component_def.props@, clobberer@) == Some(*prop_def),
                    q < checked_presets.entries@.len(),
                    forall|k: Seq<char>| (#[trigger] lookup(checked_props.entries@, k) is Some || lookup(checked_presets.entries@, k) is Some)
                        <==> has_name(unchecked.props.entries@, k),
                    n0 == old(scope).names(),
                    n3 == repeater_names(with_scope(n0), *unchecked),
                    names_lookup(n3, string_views(unchecked.path@)) matches Lookup::Found(_, Type::Component(d)) && d == component_def,
                    forall|cc: int| 0 <= cc < c ==> {
                        let victim = #[trigger] prop_def.children@[cc]@;
                        lookup(checked_props.entries@, victim) is None && lookup(checked_presets.entries@, victim) is None
                    },
                decreases prop_def.children@.len() - c,
            {
                let victim = &prop_def.children[c];
                if checked_props.contains_key(victim.as_str()) || checked_presets.contains_key(victim.as_str()) {
                    let mut message = concat("`", victim.as_str());
                    message.append("` is overridden by property `");
                    message.append(clobberer.as_str());
                    message.append("`");
                    let span = match spans.get(victim.as_str()) {
                        Some(sp) => sp.duplicate(),
                        None => unchecked.name_span.duplicate(),
                    };
                    let ghost before_fail = *scope;
                    let r = fail(scope, Issue::error(message, span));
                    proof {
                        crate::scope::lemma_issues_kept(scope.issue_list(), before_fail.issue_list(), old(scope).issue_list());
                        let es = unchecked.props.entries@;
                        crate::table::lemma_lookup_iff_has_name(checked_presets.entries@, clobberer@);
                        assert(checked_presets.entries@[q as int].0@ == clobberer@);
                        assert(lookup(checked_props.entries@, clobberer@) is Some || lookup(checked_presets.entries@, clobberer@) is Some);
                        assert(has_name(es, clobberer@));
                        crate::table::lemma_lookup_iff_has_name(checked_props.entries@, victim@);
                        crate::table::lemma_lookup_iff_has_name(checked_presets.entries@, victim@);
                        let j = choose|j: int| 0 <= j < es.len() && (#[trigger] es[j]).0@ == clobberer@;
                        assert(lookup(component_def.props@, es[j].0@)->0.children@[c as int]@ == victim@);
                        assert(has_name(es, victim@));
                        assert(!no_clobber(*component_def, es));
                    }
                    return r;
                }
                c = c + 1;
            }
        }
        q = q + 1;
    }
    proof {
        assert(no_overrides(*component_def, checked_props.entries@, checked_presets.entries@));
        let es = unchecked.props.entries@;
        let pr = checked_props.entries@;
        let ps = checked_presets.entries@;
        assert forall|i: int, c: int| 0 <= i < es.len() && (#[trigger] lookup(component_def.props@, es[i].0@)) is Some
            && 0 <= c < lookup(component_def.props@, es[i].0@)->0.children@.len()
            implies !has_name(es, #[trigger] lookup(component_def.props@, es[i].0@)->0.children@[c]@) by {
            let k = es[i].0@;
            assert(has_name(es, k));
            assert(lookup(pr, k) is None);
            crate::table::lemma_find_from(ps, k, 0);
            let p = crate::table::find(ps, k);
            assert(ps[p].0@ == k);
            let victim = lookup(component_def.props@, ps[p].0@)->0.children@[c]@;
            assert(lookup(pr, victim) is None && lookup(ps, victim) is None);
        }
        assert(no_clobber(*component_def, es));
        if unique_names(es) {
            assert forall|k: Seq<char>| #[trigger] lookup(es, k) is Some implies (checked_prop(*component_def, pr, ps, k) matches Some(ce)
                && checked_as(n3, lookup(es, k)->0.expr, Some(lookup(component_def.props@, k)->0.prop_type), ce)) by {
                crate::table::lemma_find_from(es, k, 0);
                let j = crate::table::find(es, k);
                assert(es[j].0@ == k);
            }
        }
        assert(props_result(n3, *component_def, es, pr, ps));
    }
    let ghost d_rules = rules_of(&*component_def);
    let mut rules = component_def.child_rules.duplicate();
    let mut n: usize = 0;
    while n < unchecked.children.len()
        invariant
            n <= unchecked.children@.len(),
            children@.len() == n,
            scope.wf(),
            scope.builtin_entries() == old(scope).builtin_entries(),
            scope.prop_entries() == old(scope).prop_entries(),
            scope.scopes() == mid.scopes(),
            mid.scopes().len() > 0,
            mid.scopes().drop_last() == old(scope).scopes(),
            scope.keeps_issues(&*old(scope)),
            scope.warnings_from(base),
            base == old(scope).issue_list().len(),
            same_rules(rules, component_def.child_rules),
            n0 == old(scope).names(),
            n3 == repeater_names(with_scope(n0), *unchecked),
            scope.names() == n3,
            d_rules == component_def.child_rules,
            names_lookup(n3, string_views(unchecked.path@)) matches Lookup::Found(_, Type::Component(d)) && d == component_def,
            children_check(n3, d_rules, unchecked.children@, n as int),
            children_results(n3, unchecked.children@, children@, n as int),
            forall|j: int| 0 <= j < n ==> ((#[trigger] children@[j]) is Children <==> unchecked.children@[j] is Children),
            forall|j: int| 0 <= j < n ==> children_permitted(component_def.child_rules, #[trigger] children@[j]),
        decreases unchecked.children@.len() - n,
    {
        let ghost old_children = children@;
        match &unchecked.children[n] {
            ParserContent::Children(ch) => {
                let copy = ch.duplicate();
                proof {
                    lemma_children_results_push(n3, unchecked.children@, children@, Content::Children(copy), n as int);
                }
                children.push(Content::Children(copy));
            },
            ParserContent::Element(e) => {
                proof {
                    assert(decreases_to!(*unchecked => unchecked.children));
                    assert(decreases_to!(unchecked.children => unchecked.children@[n as int]));
                    assert(decreases_to!(unchecked.children@[n as int] => (unchecked.children@[n as int])->Element_0));
                }
                let ghost before = *scope;
                let checked = match check_element(scope, e) {
                    Ok(c) => c,
                    Err(()) => {
                        proof {
                            crate::scope::lemma_issues_kept(scope.issue_list(), before.issue_list(), old(scope).issue_list());
                            let cs = unchecked.children@;
                            if children_check(n3, d_rules, cs, cs.len() as int) {
                                lemma_children_check_prefix(n3, d_rules, cs, n + 1, cs.len() as int);
                            }
                        }
                        return Err(());
                    },
                };
                proof {
                    crate::scope::lemma_issues_kept(scope.issue_list(), before.issue_list(), old(scope).issue_list());
                    crate::scope::lemma_warnings_kept(scope.issue_list(), before.issue_list(), base);
                }
                rules = match check_child_rules(&checked, &component_def, &unchecked.name_span, &e.name_span, rules) {
                    Ok(rules) => rules,
                    Err(issue) => {
                        let ghost before2 = *scope;
                        let r = fail(scope, issue);
                        proof {
                            crate::scope::lemma_issues_kept(scope.issue_list(), before2.issue_list(), old(scope).issue_list());
                            let cs = unchecked.children@;
                            if children_check(n3, d_rules, cs, cs.len() as int) {
                                lemma_children_check_prefix(n3, d_rules, cs, n + 1, cs.len() as int);
                            }
                            assert(string_views(checked.tag.path@).last() == checked.tag.path@.last()@);
                            assert(string_views(e.path@).last() == e.path@.last()@);
                        }
                        return r;
                    },
                };
                proof {
                    assert(string_views(checked.tag.path@).last() == checked.tag.path@.last()@);
                    assert(string_views(e.path@).last() == e.path@.last()@);
                    assert(rules_permit(d_rules, e.path@));
                    assert(element_checks(n3, *e));
                    lemma_children_results_push(n3, unchecked.children@, children@, Content::Element(checked), n as int);
                }
                children.push(Content::Element(checked));
            },
        }
        proof {
            assert forall|j: int| 0 <= j < n + 1 implies ((#[trigger] children@[j]) is Children <==> unchecked.children@[j] is Children)
                && children_permitted(component_def.child_rules, children@[j]) by {
                if j < n {
                    assert(children@[j] == old_children[j]);
                }
            }
        }
        n = n + 1;
    }
    scope.pop_scope();
    let path = unchecked.path.clone();
    proof {
        assert(props_fit(*component_def, checked_props.entries@, checked_presets.entries@));
        assert(entries@.take(entries@.len() as int) =~= entries@);
        assert forall|k: Seq<char>| #[trigger] lookup(unchecked.props.entries@, k) is Some
            <==> (lookup(checked_props.entries@, k) is Some || lookup(checked_presets.entries@, k) is Some) by {
            crate::table::lemma_lookup_iff_has_name(unchecked.props.entries@, k);
        }
        assert(string_views(path@) =~= string_views(unchecked.path@));
    }
    Ok(Element {
        tag: ElementTag { path, import_path: None },
        data: None,
        condition,
        repeater,
        props: checked_props,
        presets: checked_presets,
        children,
    })
}

/// Checks a parsed component: its root element and everything in it.
pub fn check_component(scope: &mut Module, unchecked: &ParserComponent) -> (r: Result<Component, ()>)
    requires
        old(scope).wf(),
    ensures
        final(scope).wf(),
        final(scope).builtin_entries() == old(scope).builtin_entries(),
        final(scope).prop_entries() == old(scope).prop_entries(),
        final(scope).issue_list().take(old(scope).issue_list().len() as int) == old(scope).issue_list(),
        r is Err ==> final(scope).issue_list().len() > old(scope).issue_list().len()
            && final(scope).issue_list().last().level == IssueLevel::Error,
        r is Ok <==> element_checks(old(scope).names(), unchecked.root),
        r matches Ok(c) ==> element_result(old(scope).names(), unchecked.root, c.root),
        r is Ok ==> forall|i: int| old(scope).issue_list().len() <= i < final(scope).issue_list().len()
            ==> #[trigger] final(scope).issue_list()[i].level == IssueLevel::Warning,
        r matches Ok(c) ==> {
            &&& c.name == unchecked.name
            &&& string_views(c.root.tag.path@) == string_views(unchecked.root.path@)
            &&& c.props@.len() == unchecked.props.entries@.len()
            &&& forall|i: int| 0 <= i < c.props@.len() ==> (#[trigger] c.props@[i]).name == unchecked.props.entries@[i].1.name
                && c.props@[i].prop_type == unchecked.props.entries@[i].1.prop_type
                && c.props@[i].is_pub == unchecked.props.entries@[i].1.is_pub
        },
{
    let root = check_element(scope, &unchecked.root)?;
    let mut props: Vec<PropDecl> = Vec::new();
    let mut i: usize = 0;
    while i < unchecked.props.entries.len()
        invariant
            i <= unchecked.props.entries@.len(),
            props@.len() == i,
            forall|j: int| 0 <= j < i ==> (#[trigger] props@[j]).name == unchecked.props.entries@[j].1.name
                && props@[j].prop_type == unchecked.props.entries@[j].1.prop_type
                && props@[j].is_pub == unchecked.props.entries@[j].1.is_pub,
        decreases unchecked.props.entries@.len() - i,
    {
        props.push(unchecked.props.entries[i].1.duplicate());
        i = i + 1;
    }
    Ok(Component { name: unchecked.name.clone(), root, props })
}

} // verus!
