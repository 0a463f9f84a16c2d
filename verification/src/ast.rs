//! The compiler's shared data model: types, expressions, property declarations
//! and component definitions.

use std::rc::Rc;
use vstd::prelude::*;
use crate::source_file::{Span, rc_clone};

verus! {

/// Where a path in an expression was found.
#[derive(PartialEq, Eq, Structural, Clone, Copy)]
pub enum Ctx {
    Builtin,
    Component,
    Scope(usize),
}

/// The layout enumeration of the language (`.row`, `.column`).
#[derive(PartialEq, Eq, Structural, Clone, Copy)]
pub enum EnumLayout {
    Row,
    Column,
}

/// A numeric literal as written: its digits (with an optional fractional
/// part) and whether a `-` sign preceded it.
pub struct NumberLiteral {
    pub digits: String,
    pub negative: bool,
}

impl NumberLiteral {
    /// A copy of the literal.
    pub fn duplicate(&self) -> (r: NumberLiteral)
        ensures
            r == *self,
    {
        NumberLiteral { digits: self.digits.clone(), negative: self.negative }
    }
}

/// The type of a property or an expression.
pub enum Type {
    Int,
    Float,
    Length,
    Brush,
    String,
    Boolean,
    EnumLayout,
    Iter(Rc<Type>),
    Component(Rc<ComponentDef>),
    Module(Rc<ModuleDef>),
    Function(Rc<Vec<Type>>, Rc<Type>),
    Callback,
}

/// A property declaration: a name, a type, and where it was declared.
pub struct PropDecl {
    pub is_pub: bool,
    pub name: String,
    pub prop_type: Type,
    pub default: Option<Expr>,
    pub span: Span,
}

/// A property of a builtin component: its type and the properties it overrides.
pub struct PropDef {
    pub prop_type: Type,
    pub children: Vec<String>,
}

/// Which children a component accepts.
pub enum ChildRules {
    /// Any element.
    Any,
    /// Only elements with one of these names.
    AnyOf(Vec<String>),
    /// No children at all.
    Nothing,
}

/// A component that elements can instantiate.
pub struct ComponentDef {
    pub name: String,
    pub props: Vec<(String, PropDef)>,
    pub container: bool,
    pub child_rules: ChildRules,
}

/// A builtin module: a named group of items.
pub struct ModuleDef {
    pub name: String,
    pub props: Vec<(String, PropDecl)>,
}

/// An import declaration: `import "path" as Alias;`.
pub struct Import {
    pub path: String,
    pub alias: Option<String>,
    pub span: Span,
}

/// An expression and the span it came from.
pub struct Expr {
    pub value: ExprValue,
    pub span: Span,
}

/// The kinds of expressions.
pub enum ExprValue {
    Px(NumberLiteral),
    Float(NumberLiteral),
    Int(NumberLiteral),
    /// Red, green, blue and alpha channels, each from 0 to 255.
    Color(u8, u8, u8, u8),
    String(String),
    Enum(String, Option<String>),
    Boolean(bool),
    Path(Vec<String>, Ctx),
    Coerce(Box<Expr>, Type),
    FunctionCall(Box<Expr>, Vec<Expr>),
}

/// Two types are the same type: components and modules are identified by
/// name, everything else structurally.
pub open spec fn same_type(a: Type, b: Type) -> bool
    decreases a,
{
    match (a, b) {
        (Type::Int, Type::Int) => true,
        (Type::Float, Type::Float) => true,
        (Type::Length, Type::Length) => true,
        (Type::Brush, Type::Brush) => true,
        (Type::String, Type::String) => true,
        (Type::Boolean, Type::Boolean) => true,
        (Type::EnumLayout, Type::EnumLayout) => true,
        (Type::Callback, Type::Callback) => true,
        (Type::Iter(x), Type::Iter(y)) => same_type(*x, *y),
        (Type::Component(x), Type::Component(y)) => x.name@ == y.name@,
        (Type::Module(x), Type::Module(y)) => x.name@ == y.name@,
        (Type::Function(xs, xr), Type::Function(ys, yr)) => {
            &&& xs@.len() == ys@.len()
            &&& forall|i: int| 0 <= i < xs@.len() ==> same_type(#[trigger] xs@[i], ys@[i])
            &&& same_type(*xr, *yr)
        },
        _ => false,
    }
}

impl Type {
    /// Whether `self` and `other` are the same type (see `same_type`).
    pub fn same(&self, other: &Type) -> (r: bool)
        ensures
            r == same_type(*self, *other),
        decreases *self,
    {
        match (self, other) {
            (Type::Int, Type::Int) => true,
            (Type::Float, Type::Float) => true,
            (Type::Length, Type::Length) => true,
            (Type::Brush, Type::Brush) => true,
            (Type::String, Type::String) => true,
            (Type::Boolean, Type::Boolean) => true,
            (Type::EnumLayout, Type::EnumLayout) => true,
            (Type::Callback, Type::Callback) => true,
            (Type::Iter(x), Type::Iter(y)) => x.same(y),
            (Type::Component(x), Type::Component(y)) => x.name == y.name,
            (Type::Module(x), Type::Module(y)) => x.name == y.name,
            (Type::Function(xs, xr), Type::Function(ys, yr)) => {
                let xv: &Vec<Type> = &**xs;
                let yv: &Vec<Type> = &**ys;
                if xv.len() != yv.len() {
                    return false;
                }
                let mut i: usize = 0;
                while i < xv.len()
                    invariant
                        *self == Type::Function(*xs, *xr),
                        *other == Type::Function(*ys, *yr),
                        *xv == **xs,
                        *yv == **ys,
                        xv@.len() == yv@.len(),
                        i <= xv@.len(),
                        forall|j: int| 0 <= j < i ==> same_type(#[trigger] xv@[j], yv@[j]),
                    decreases xv@.len() - i,
                {
                    proof {
                        assert(decreases_to!(*self => (*self)->Function_0));
                        assert(decreases_to!(*self => **xs));
                        assert(decreases_to!(**xs => xv[i as int]));
                        assert(decreases_to!(*self => xv[i as int]));
                    }
                    if !xv[i].same(&yv[i]) {
                        assert(!same_type(xv@[i as int], yv@[i as int]));
                        return false;
                    }
                    i = i + 1;
                }
                xr.same(yr)
            },
            _ => false,
        }
    }

    /// A copy of this type.
    pub fn duplicate(&self) -> (r: Type)
        ensures
            r == *self,
    {
        match self {
            Type::Int => Type::Int,
            Type::Float => Type::Float,
            Type::Length => Type::Length,
            Type::Brush => Type::Brush,
            Type::String => Type::String,
            Type::Boolean => Type::Boolean,
            Type::EnumLayout => Type::EnumLayout,
            Type::Callback => Type::Callback,
            Type::Iter(t) => Type::Iter(rc_clone(t)),
            Type::Component(d) => Type::Component(rc_clone(d)),
            Type::Module(d) => Type::Module(rc_clone(d)),
            Type::Function(args, ret) => Type::Function(rc_clone(args), rc_clone(ret)),
        }
    }
}

/// The name of a type as it is shown in messages.
pub open spec fn type_label(t: Type) -> Seq<char>
    decreases t,
{
    match t {
        Type::Int => "Int"@,
        Type::Float => "Float"@,
        Type::Length => "Length"@,
        Type::Brush => "Brush"@,
        Type::String => "String"@,
        Type::Boolean => "Boolean"@,
        Type::EnumLayout => "Alignment"@,
        Type::Iter(x) => "["@ + type_label(*x) + "]"@,
        Type::Component(d) => d.name@,
        Type::Module(_) => "Module"@,
        Type::Function(..) => "Function"@,
        Type::Callback => "Callback"@,
    }
}

/// The type of the items of a collection of type `t`: counting up to an
/// integer gives integers.
pub open spec fn iter_item_type(t: Type) -> Option<Type> {
    match t {
        Type::Int => Some(Type::Int),
        Type::Iter(x) => Some(*x),
        _ => None,
    }
}

impl Type {
    /// The name of the type as it is shown in messages.
    pub fn name(&self) -> (r: String)
        ensures
            r@ == type_label(*self),
        decreases *self,
    {
        match self {
            Type::Int => "Int".to_owned(),
            Type::Float => "Float".to_owned(),
            Type::Length => "Length".to_owned(),
            Type::Brush => "Brush".to_owned(),
            Type::String => "String".to_owned(),
            Type::Boolean => "Boolean".to_owned(),
            Type::EnumLayout => "Alignment".to_owned(),
            Type::Iter(t) => {
                let inner = t.name();
                let mut s = crate::text::concat("[", inner.as_str());
                s.append("]");
                s
            },
            Type::Component(def) => def.name.clone(),
            Type::Module(_) => "Module".to_owned(),
            Type::Function(..) => "Function".to_owned(),
            Type::Callback => "Callback".to_owned(),
        }
    }

    /// The type of the items when iterating over a value of this type.
    pub fn iter_type(&self) -> (r: Option<Type>)
        ensures
            r == iter_item_type(*self),
    {
        match self {
            Type::Int => Some(Type::Int),
            Type::Iter(t) => Some(Type::duplicate(t)),
            _ => None,
        }
    }

    /// Whether this is an iterator type.
    pub fn is_iter(&self) -> (r: bool)
        ensures
            r == (*self is Iter),
    {
        match self {
            Type::Iter(_) => true,
            _ => false,
        }
    }
}

impl ChildRules {
    /// Accepts any children.
    pub fn any() -> (r: ChildRules)
        ensures
            r is Any,
    {
        ChildRules::Any
    }

    /// Accepts no children.
    pub fn none() -> (r: ChildRules)
        ensures
            r is Nothing,
    {
        ChildRules::Nothing
    }

    /// Accepts only children with one of the given names.
    pub fn any_of(names: Vec<String>) -> (r: ChildRules)
        ensures
            r == ChildRules::AnyOf(names),
    {
        ChildRules::AnyOf(names)
    }

    /// Whether a component with these rules can have children at all.
    pub fn is_container(&self) -> (r: bool)
        ensures
            r == (*self is Any || (*self matches ChildRules::AnyOf(v) && v@.len() > 0)),
    {
        match self {
            ChildRules::Any => true,
            ChildRules::AnyOf(v) => v.len() > 0,
            ChildRules::Nothing => false,
        }
    }
}

impl PropDecl {
    /// The declaration of a builtin component.
    pub fn component(def: ComponentDef) -> (r: PropDecl)
        ensures
            r.is_pub,
            r.name == def.name,
            r.prop_type == Type::Component(Rc::new(def)),
            r.default is None,
            r.span.source_file.internal,
    {
        let name = def.name.clone();
        PropDecl { is_pub: true, name, prop_type: Type::Component(Rc::new(def)), default: None, span: Span::internal() }
    }

    /// The declaration of a builtin module.
    pub fn module(def: ModuleDef) -> (r: PropDecl)
        ensures
            r.is_pub,
            r.name == def.name,
            r.prop_type == Type::Module(Rc::new(def)),
            r.default is None,
            r.span.source_file.internal,
    {
        let name = def.name.clone();
        PropDecl { is_pub: true, name, prop_type: Type::Module(Rc::new(def)), default: None, span: Span::internal() }
    }

    /// The declaration of a builtin function.
    pub fn function(name: String, args: Vec<Type>, ret: Box<Type>) -> (r: PropDecl)
        ensures
            r.is_pub,
            r.name == name,
            r.prop_type == Type::Function(Rc::new(args), Rc::new(*ret)),
            r.default is None,
            r.span.source_file.internal,
    {
        PropDecl { is_pub: true, name, prop_type: Type::Function(Rc::new(args), Rc::new(*ret)), default: None, span: Span::internal() }
    }
}

/// `b` is a copy of the expression `a`: the same span, and the same value,
/// with its paths, callee, arguments and converted expression copied in turn.
pub open spec fn same_expr(a: Expr, b: Expr) -> bool
    decreases a, 1int, 0int,
{
    &&& a.span == b.span
    &&& match a.value {
        ExprValue::Path(p, c) => b.value matches ExprValue::Path(q, d) && q@ == p@ && d == c,
        ExprValue::Coerce(x, t) => b.value matches ExprValue::Coerce(y, u) && same_expr(*x, *y) && u == t,
        ExprValue::FunctionCall(f, xs) => b.value matches ExprValue::FunctionCall(g, ys) && same_expr(*f, *g)
            && ys@.len() == xs@.len() && same_args(a, ys@, xs@.len() as int),
        _ => b.value == a.value,
    }
}

/// The first `k` arguments of the call `a` are copied as `ys`.
pub open spec fn same_args(a: Expr, ys: Seq<Expr>, k: int) -> bool
    decreases a, 0int, k,
{
    match a.value {
        ExprValue::FunctionCall(_, xs) => if k <= 0 || k > xs@.len() || k > ys.len() {
            true
        } else {
            same_args(a, ys, k - 1) && same_expr(xs@[k - 1], ys[k - 1])
        },
        _ => true,
    }
}

/// Copying one more argument keeps the ones copied before.
proof fn lemma_same_args_push(a: Expr, ys: Seq<Expr>, y: Expr, k: int)
    requires
        0 <= k <= ys.len(),
        a.value matches ExprValue::FunctionCall(_, xs) && k <= xs@.len(),
        same_args(a, ys, k),
    ensures
        same_args(a, ys.push(y), k),
    decreases k,
{
    if k > 0 {
        lemma_same_args_push(a, ys, y, k - 1);
        assert(ys.push(y)[k - 1] == ys[k - 1]);
    }
}

impl Expr {
    /// A copy of the expression.
    pub fn duplicate(&self) -> (r: Expr)
        ensures
            r.span == self.span,
            !(self.value is Path) && !(self.value is FunctionCall) && !(self.value is Coerce) ==> r == *self,
            self.value matches ExprValue::Path(p, c) ==> (r.value matches ExprValue::Path(q, d) && q@ == p@ && d == c),
            self.value is FunctionCall ==> r.value is FunctionCall,
            self.value is Coerce ==> r.value is Coerce,
            same_expr(*self, r),
        decreases *self,
    {
        let value = match &self.value {
            ExprValue::Px(n) => ExprValue::Px(n.duplicate()),
            ExprValue::Float(n) => ExprValue::Float(n.duplicate()),
            ExprValue::Int(n) => ExprValue::Int(n.duplicate()),
            ExprValue::Color(r, g, b, a) => ExprValue::Color(*r, *g, *b, *a),
            ExprValue::String(s) => ExprValue::String(s.clone()),
            ExprValue::Enum(s, t) => ExprValue::Enum(s.clone(), match t {
                Some(t) => Some(t.clone()),
                None => None,
            }),
            ExprValue::Boolean(b) => ExprValue::Boolean(*b),
            ExprValue::Path(p, c) => ExprValue::Path(p.clone(), *c),
            ExprValue::Coerce(e, t) => {
                proof {
                    assert(decreases_to!(*self => self.value));
                    assert(decreases_to!(self.value => (self.value)->Coerce_0));
                }
                ExprValue::Coerce(Box::new(e.duplicate()), t.duplicate())
            },
            ExprValue::FunctionCall(f, args) => {
                proof {
                    assert(decreases_to!(*self => self.value));
                    assert(decreases_to!(self.value => (self.value)->FunctionCall_0));
                }
                let g = f.duplicate();
                let mut copies: Vec<Expr> = Vec::new();
                let mut i: usize = 0;
                while i < args.len()
                    invariant
                        i <= args@.len(),
                        self.value == ExprValue::FunctionCall(*f, *args),
                        copies@.len() == i,
                        same_args(*self, copies@, i as int),
                    decreases args@.len() - i,
                {
                    proof {
                        assert(decreases_to!(*self => self.value));
                        assert(decreases_to!(self.value => (self.value)->FunctionCall_1));
                        assert(decreases_to!(*args => args@[i as int]));
                    }
                    let ghost before = copies@;
                    copies.push(args[i].duplicate());
                    proof {
                        lemma_same_args_push(*self, before, copies@.last(), i as int);
                    }
                    i = i + 1;
                }
                ExprValue::FunctionCall(Box::new(g), copies)
            },
        };
        Expr { value, span: self.span.duplicate() }
    }
}

impl PropDecl {
    /// A copy of the declaration.
    pub fn duplicate(&self) -> (r: PropDecl)
        ensures
            r.is_pub == self.is_pub,
            r.name == self.name,
            r.prop_type == self.prop_type,
            r.span == self.span,
            r.default is Some <==> self.default is Some,
            self.default matches Some(e) ==> (r.default matches Some(f) && same_expr(e, f)),
    {
        PropDecl {
            is_pub: self.is_pub,
            name: self.name.clone(),
            prop_type: self.prop_type.duplicate(),
            default: match &self.default {
                Some(e) => Some(e.duplicate()),
                None => None,
            },
            span: self.span.duplicate(),
        }
    }
}

impl ChildRules {
    /// A copy of the rules.
    pub fn duplicate(&self) -> (r: ChildRules)
        ensures
            self is Any ==> r is Any,
            self is Nothing ==> r is Nothing,
            self matches ChildRules::AnyOf(v) ==> (r matches ChildRules::AnyOf(w) && w@ == v@),
    {
        match self {
            ChildRules::Any => ChildRules::Any,
            ChildRules::AnyOf(v) => ChildRules::AnyOf(v.clone()),
            ChildRules::Nothing => ChildRules::Nothing,
        }
    }
}

} // verus!
