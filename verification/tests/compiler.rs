use ui_compiler::ast::{ChildRules, ExprValue, NumberLiteral, Type};
use ui_compiler::checker::check_component;
use ui_compiler::codegen::{generate, module_file_name, number_to_js, integer_to_js, static_value_to_js, StaticValue};
use ui_compiler::issue::{Issue, IssueLevel};
use ui_compiler::parser::{color_from_hex, hex_to_int, parse_source, Content};
use ui_compiler::scope::{init_builtins, join_path, Module};
use ui_compiler::source_file::{SourceFile, Span};
use ui_compiler::table::Table;
use ui_compiler::tokens::{Tokenizer, TT};

fn tokens_of(text: &str) -> Result<Vec<TT>, Vec<Issue>> {
    let source = SourceFile::from_contents("test.ui".to_owned(), text.to_owned());
    Tokenizer::new(source).tokenize().map(|ts| ts.into_iter().map(|t| t.tok).collect())
}

fn names_of(tokens: &[TT]) -> Vec<String> {
    tokens.iter().map(|t| t.desc()).collect()
}

#[test]
fn tokenizes_an_element() {
    let toks = tokens_of("Rect { x1: 10px; fill: #fff; }").ok().unwrap();
    assert_eq!(toks.len(), 12);
    assert!(matches!(&toks[0], TT::Name(n) if n == "Rect"));
    assert!(matches!(&toks[1], TT::LBrace));
    assert!(matches!(&toks[2], TT::Name(n) if n == "x1"));
    assert!(matches!(&toks[3], TT::Colon));
    assert!(matches!(&toks[4], TT::Number((d, false, s)) if d == "10" && s == "px"));
    assert!(matches!(&toks[5], TT::Semicolon));
    assert!(matches!(&toks[8], TT::HexColor(h) if h == "fff"));
    assert!(matches!(&toks[10], TT::RBrace));
    assert!(matches!(&toks[11], TT::Eof));
}

#[test]
fn tokenizes_keywords_strings_and_enums() {
    let toks = tokens_of("import \"a.ui\" as A; pub x: Int; .row 1.5 true").ok().unwrap();
    assert!(matches!(&toks[0], TT::Import));
    assert!(matches!(&toks[1], TT::String(s) if s == "a.ui"));
    assert!(matches!(&toks[2], TT::As));
    assert!(matches!(&toks[5], TT::Pub));
    assert!(matches!(&toks[10], TT::Enum(e) if e == "row"));
    assert!(matches!(&toks[11], TT::Number((d, true, s)) if d == "1.5" && s.is_empty()));
    assert!(matches!(&toks[12], TT::True));
    assert!(matches!(toks.last(), Some(TT::Eof)));
}

#[test]
fn skips_comments() {
    let toks = tokens_of("// line\nA /* block /* nested */ */ B").ok().unwrap();
    assert_eq!(toks.len(), 3);
    assert!(matches!(&toks[0], TT::Name(n) if n == "A"));
    assert!(matches!(&toks[1], TT::Name(n) if n == "B"));
}

#[test]
fn reports_a_bad_hex_color() {
    let issues = tokens_of("Rect { fill: #12345; }").err().unwrap();
    assert!(!issues.is_empty());
    assert!(issues.iter().all(|i| i.level == IssueLevel::Error));
}

#[test]
fn reports_an_unterminated_string() {
    let issues = tokens_of("Text { \"abc }").err().unwrap();
    assert!(!issues.is_empty());
}

#[test]
fn describes_token_types() {
    let toks = tokens_of("{ } ( ) : ;").ok().unwrap();
    let names = names_of(&toks);
    assert_eq!(names.len(), 7);
    assert!(names.iter().all(|n| !n.is_empty()));
}

#[test]
fn hex_digits_have_their_values() {
    assert_eq!(hex_to_int(b'0'), 0);
    assert_eq!(hex_to_int(b'9'), 9);
    assert_eq!(hex_to_int(b'a'), 10);
    assert_eq!(hex_to_int(b'F'), 15);
}

#[test]
fn colors_are_read_from_hex() {
    assert!(matches!(color_from_hex("fff"), ExprValue::Color(255, 255, 255, 255)));
    assert!(matches!(color_from_hex("1234"), ExprValue::Color(0x11, 0x22, 0x33, 0x44)));
    assert!(matches!(color_from_hex("a0b1c2"), ExprValue::Color(0xa0, 0xb1, 0xc2, 255)));
    assert!(matches!(color_from_hex("01020304"), ExprValue::Color(1, 2, 3, 4)));
}

#[test]
fn merged_spans_cover_both() {
    let file = SourceFile::from_contents("m.ui".to_owned(), "abc\ndef\n".to_owned());
    let a = Span { start_line: 1, start_column: 2, end_line: 1, end_column: 3, source_file: file.clone() };
    let b = Span { start_line: 1, start_column: 1, end_line: 1, end_column: 4, source_file: file.clone() };
    let m = a.merge(&b);
    assert_eq!((m.start_line, m.start_column, m.end_line, m.end_column), (1, 1, 1, 4));
    let c = Span { start_line: 2, start_column: 3, end_line: 2, end_column: 4, source_file: file.clone() };
    let m2 = a.merge(&c);
    assert_eq!((m2.start_line, m2.start_column, m2.end_line, m2.end_column), (1, 2, 2, 4));
    let same = a.merge(&a);
    assert_eq!((same.start_line, same.start_column, same.end_line, same.end_column), (1, 2, 1, 3));
}

#[test]
fn internal_span_is_empty() {
    let s = Span::internal();
    assert_eq!((s.start_line, s.start_column, s.end_line, s.end_column), (0, 0, 0, 0));
    assert!(s.source_file.internal);
    assert_eq!(s.source_file.file_path, "<internal>");
    assert!(SourceFile::internal().lines.is_empty());
}

#[test]
fn source_lines_start_at_one() {
    let file = SourceFile::from_contents("m.ui".to_owned(), "a\r\nbc".to_owned());
    assert_eq!(file.lines, vec!["".to_owned(), "a".to_owned(), "bc".to_owned(), "".to_owned()]);
}

#[test]
fn parses_a_component() {
    let c = parse_source("my-button.ui".to_owned(), "import \"x.ui\" as X;\npub label: String;\nsize: Length;\nRect { x1: 10px; fill: #ff0000; Text { content: \"hi\"; } }\n".to_owned()).ok().unwrap();
    assert_eq!(c.name, "MyButton");
    assert_eq!(c.root.path, vec!["Rect".to_owned()]);
    assert_eq!(c.import_decls.len(), 1);
    assert_eq!(c.import_decls[0].path, "x.ui");
    assert_eq!(c.import_decls[0].alias.as_deref(), Some("X"));
    assert_eq!(c.props.entries.len(), 2);
    assert_eq!(c.props.entries[0].0, "label");
    assert!(c.props.entries[0].1.is_pub);
    assert!(matches!(c.props.entries[0].1.prop_type, Type::String));
    assert!(!c.props.entries[1].1.is_pub);
    assert_eq!(c.root.props.entries.len(), 2);
    assert_eq!(c.root.children.len(), 1);
    assert!(c.imports_map.entries.is_empty());
}

#[test]
fn parses_repeaters() {
    let c = parse_source("list.ui".to_owned(), "Pane { Rect for i, item in 3 { } }".to_owned()).ok().unwrap();
    match &c.root.children[0] {
        ui_compiler::parser::Content::Element(e) => {
            let r = e.repeater.as_ref().unwrap();
            assert_eq!(r.index.as_ref().map(|x| x.0.clone()), Some("i".to_owned()));
            assert_eq!(r.item.as_ref().map(|x| x.0.clone()), Some("item".to_owned()));
        },
        _ => panic!("expected an element"),
    }
}

fn first_error(text: &str) -> String {
    let issues = parse_source("main.ui".to_owned(), text.to_owned()).err().unwrap();
    issues[0].message.clone()
}

#[test]
fn a_component_has_one_root() {
    assert_eq!(first_error("Rect { } Rect { }"), "the component must have a single root element");
}

#[test]
fn declarations_come_first() {
    assert_eq!(first_error("Rect { } x: Int;"), "property declarations must occur before any content definitions");
}

#[test]
fn assignments_come_before_children() {
    assert_eq!(first_error("Rect { Pane { } x1: 1px; }"), "property assignments must occur before any content definitions");
}

#[test]
fn properties_are_declared_once() {
    assert_eq!(first_error("x: Int; x: Float; Rect { }"), "property `x` declared more than once");
}

#[test]
fn properties_are_assigned_once() {
    assert_eq!(first_error("Rect { x1: 1px; x1: 2px; }"), "property `x1` assigned more than once");
}

#[test]
fn nested_assignments_are_refused() {
    assert_eq!(first_error("Rect { a.b: 1px; }"), "assignments to nested properties are not supported");
}

#[test]
fn every_assignment_is_read_before_any_is_checked() {
    assert_eq!(first_error("Rect { x1: 1px; x1: 2px; y1: ; }"), "expected value expression, found `;`");
}

#[test]
fn children_hold_text_and_elements() {
    let c = parse_source("main.ui".to_owned(), "Pane { \"hi\" (label) Rect { x1: 1px; } }".to_owned()).ok().unwrap();
    assert_eq!(c.root.children.len(), 3);
    match &c.root.children[0] {
        Content::Element(e) => {
            assert_eq!(e.path, vec!["Text".to_owned()]);
            assert_eq!(e.props.entries[0].0, "content");
        },
        _ => panic!("expected a text element"),
    }
    match &c.root.children[2] {
        Content::Element(e) => {
            assert_eq!(e.path, vec!["Rect".to_owned()]);
            assert_eq!(e.props.entries.len(), 1);
        },
        _ => panic!("expected an element"),
    }
}

#[test]
fn unknown_types_are_reported() {
    assert_eq!(first_error("x: Number; Rect { }"), "unrecognized type: Number");
}

#[test]
fn unknown_suffixes_are_reported() {
    assert_eq!(first_error("Rect { x1: 1em; }"), "unrecognized numerical suffix: `em`");
}

#[test]
fn the_root_is_not_repeated() {
    assert_eq!(first_error("Rect for i in 3 { }"), "`for ... in ...` cannot be used on the root of the component");
}

#[test]
fn a_missing_brace_is_reported() {
    assert_eq!(first_error("Rect { x1: 1px; "), "expected }, found `end of file`");
}

fn checked(text: &str) -> Result<ui_compiler::checker::Component, Vec<Issue>> {
    let parsed = parse_source("main.ui".to_owned(), text.to_owned()).ok().unwrap();
    let mut module = Module::new(&parsed.props);
    match check_component(&mut module, &parsed) {
        Ok(c) => Ok(c),
        Err(()) => Err(module.take_issues()),
    }
}

fn check_error(text: &str) -> String {
    let issues = checked(text).err().unwrap();
    issues.last().unwrap().message.clone()
}

#[test]
fn checks_property_types() {
    assert_eq!(check_error("Rect { x1: \"a\"; }"), "expected type `Length`, found `String`");
}

#[test]
fn checks_property_names() {
    assert_eq!(check_error("Rect { width: 1px; }"), "width: no such property");
}

#[test]
fn checks_component_names() {
    assert_eq!(check_error("Circle { }"), "`Circle`: component not found");
}

#[test]
fn text_has_no_children() {
    assert_eq!(check_error("Text { Rect { } }"), "`Text` component cannot contain children");
}

#[test]
fn layouts_hold_panes_only() {
    assert_eq!(check_error("Layout { Rect { } }"), "invalid child element for `Layout` (permitted elements: `Pane`)");
    assert!(checked("Layout { layout: .row; Pane { } }").is_ok());
}

#[test]
fn enums_are_checked() {
    assert_eq!(check_error("Layout { layout: .diagonal; }"), "`diagonal` is not a valid member of enum type `Layout`");
}

#[test]
fn overridden_properties_are_reported() {
    assert_eq!(check_error("Rect { x1: 1px; scaleToParent: 1.0; }"), "`x1` is overridden by property `scaleToParent`");
}

#[test]
fn integers_become_floats() {
    let c = checked("Rect { scaleToParent: 2; }").ok().unwrap();
    let e = &c.root.presets.entries[0].1;
    assert!(matches!(e.expr_type, Type::Float));
    assert!(matches!(&e.expr.value, ExprValue::Float(n) if n.digits == "2"));
}

#[test]
fn values_become_strings() {
    let c = checked("Text { content: 5; }").ok().unwrap();
    let e = &c.root.props.entries[0].1;
    assert!(matches!(e.expr_type, Type::String));
    assert!(matches!(&e.expr.value, ExprValue::Coerce(_, Type::String)));
}

#[test]
fn component_properties_are_bindings() {
    let c = checked("label: String; Text { content: (label); }").ok().unwrap();
    let e = &c.root.props.entries[0].1;
    assert_eq!(e.bindings, vec!["label".to_owned()]);
}

#[test]
fn repeated_bindings_shadow_with_a_warning() {
    let parsed = parse_source("main.ui".to_owned(), "n: Int; Pane { Rect for n in 3 { } }".to_owned()).ok().unwrap();
    let mut module = Module::new(&parsed.props);
    assert!(check_component(&mut module, &parsed).is_ok());
    let issues = module.take_issues();
    assert_eq!(issues.len(), 1);
    assert!(issues[0].level == IssueLevel::Warning);
    assert_eq!(issues[0].message, "binding `n` already exists as a component property");
}

#[test]
fn builtins_cannot_be_rebound() {
    assert_eq!(check_error("Pane { Rect for Math in 3 { } }"), "binding `Math` already exists as a builtin item");
}

#[test]
fn declared_bindings_are_found_in_the_innermost_scope() {
    let props: Table<ui_compiler::ast::PropDecl> = Table::new();
    let mut module = Module::new(&props);
    module.push_scope();
    assert!(module.declare("i".to_owned(), &Type::Int, &Span::internal()).is_ok());
    let found = module.lookup(&vec!["i".to_owned()], &Span::internal()).ok().unwrap();
    assert!(matches!(found, Some((ui_compiler::ast::Ctx::Scope(0), Type::Int))));
    module.push_scope();
    let found = module.lookup(&vec!["i".to_owned()], &Span::internal()).ok().unwrap();
    assert!(matches!(found, Some((ui_compiler::ast::Ctx::Scope(1), Type::Int))));
    module.pop_scope();
    module.pop_scope();
    assert!(module.lookup(&vec!["i".to_owned()], &Span::internal()).ok().unwrap().is_none());
}

#[test]
fn builtins_are_six() {
    let b = init_builtins();
    let names: Vec<&str> = b.entries.iter().map(|e| e.0.as_str()).collect();
    assert_eq!(names, vec!["Rect", "Layout", "Pane", "Text", "Brush", "Math"]);
}

#[test]
fn paths_are_joined_with_dots() {
    assert_eq!(join_path(&vec!["Brush".to_owned(), "rgb".to_owned()]), "Brush.rgb");
}

#[test]
fn numbers_are_written_as_the_runtime_writes_them() {
    let n = |d: &str, neg: bool| NumberLiteral { digits: d.to_owned(), negative: neg };
    assert_eq!(number_to_js(&n("10", false)), "10");
    assert_eq!(number_to_js(&n("007.500", false)), "7.5");
    assert_eq!(number_to_js(&n("2.0", true)), "-2");
    assert_eq!(number_to_js(&n("0.25", false)), "0.25");
    assert_eq!(integer_to_js(&n("0042", false)), "42");
    assert_eq!(integer_to_js(&n("0", true)), "0");
    assert_eq!(integer_to_js(&n("3", true)), "-3");
}

#[test]
fn static_values_are_written_as_code() {
    assert_eq!(static_value_to_js(&StaticValue::Color(255, 0, 51, 255)), "Dom.Brush.rgba(1,0,0.2,1)");
    assert_eq!(static_value_to_js(&StaticValue::String("a\nb\t\"".to_owned())), "Dom.String.from(\"a\\nb\\t\"\")");
    assert_eq!(static_value_to_js(&StaticValue::Boolean(true)), "Dom.Boolean.true");
    assert_eq!(
        static_value_to_js(&StaticValue::Px(NumberLiteral { digits: "1.50".to_owned(), negative: false })),
        "Dom.Length.px(1.5)"
    );
}

#[test]
fn generates_a_module() {
    let c = checked("Rect { x1: 10px; }").ok().unwrap();
    let code = generate(&c).unwrap();
    let expected = "import * as Dom from '../dom';\nexport default class Main extends Dom.Component<Dom.Rect> {#model = new Dom.Model({}); readonly root: Dom.Rect; readonly events: Dom.Rect['events']; constructor(dom: Dom.Dom) {super(); this.root = (() => {\n\t\t\tlet e = dom.Rect();\n\t\t\te.props.x1 = Dom.Length.px(10); \n\t\t\treturn e;\n\t\t})(); this.events = this.root.events; } get props() { return this.#model.props; } get bindings() { return this.#model.bindings; } getRoots() { return [this.root]; } get children() { return this.root.children } inject(deps: { [key: string]: any }) { this.root.inject(deps); }}\n";
    assert_eq!(code, expected);
}

#[test]
fn generates_connections_and_children() {
    let c = checked("label: String; Pane { Text { content: (label); } }").ok().unwrap();
    let code = generate(&c).unwrap();
    assert!(code.contains("#model = new Dom.Model({label: new Dom.Binding(Dom.String),});"));
    assert!(code.contains("e.children.append((() => {\n\t\t\tlet e = dom.Text();\n\t\t\te.bindings.content.connect([this.bindings.label,], ([label]) => label); \n\t\t\treturn e;\n\t\t})());"));
}

#[test]
fn generates_repeaters() {
    let c = checked("Pane { Rect for i in 3 { } }").ok().unwrap();
    let code = generate(&c).unwrap();
    assert!(code.contains("let e = dom.Repeater<Dom.Int, Dom.Rect>\n\t\t\t\t(Dom.Int, (_$unused_index, i) => {\n\t\t\t\t\treturn [(() => {\n\t\t\tlet e = dom.Rect();"));
    assert!(code.contains("e.props.collection = Dom.Int.from(3); \n\t\t\t\treturn e;\n\t\t\t})()"));
}

#[test]
fn alignment_properties_have_no_runtime_class() {
    let c = checked("a: Alignment; Pane { }").ok().unwrap();
    assert!(generate(&c).is_none());
}

#[test]
fn module_files_are_named_in_kebab_case() {
    assert_eq!(module_file_name("MyButton"), "my-button.ts");
}

#[test]
fn issues_show_their_source() {
    let file = SourceFile::from_contents("m.ui".to_owned(), "one\ntwo\nthree\nfour\n".to_owned());
    let span = Span { start_line: 3, start_column: 2, end_line: 3, end_column: 4, source_file: file };
    let issue = Issue::error("bad".to_owned(), span);
    let layout = issue.layout();
    assert!(layout.is_error);
    assert_eq!(layout.location, "m.ui:3:2");
    assert_eq!(layout.gutter_width, 4);
    let numbers: Vec<usize> = layout.lines.iter().map(|l| l.number).collect();
    assert_eq!(numbers, vec![1, 2, 3, 4, 5]);
    assert_eq!(layout.lines[2].before, "t");
    assert_eq!(layout.lines[2].highlight, "hr");
    assert_eq!(layout.lines[2].after, "ee");
    assert_eq!(
        issue.to_plain_string(),
        "error: bad\n --> m.ui:3:2\n1 | one\n2 | two\n3 | three\n4 | four\n5 | "
    );
}

#[test]
fn warnings_are_not_errors() {
    let issue = Issue::warning("careful".to_owned(), Span::internal());
    assert!(issue.level == IssueLevel::Warning);
    assert!(!issue.layout().is_error);
    assert!(issue.to_plain_string().starts_with("warning: careful"));
}

#[test]
fn types_have_names_and_items() {
    let iter = Type::Iter(std::rc::Rc::new(Type::String));
    assert_eq!(iter.name(), "[String]");
    assert_eq!(Type::EnumLayout.name(), "Alignment");
    assert!(iter.is_iter());
    assert!(!Type::Int.is_iter());
    assert!(matches!(iter.iter_type(), Some(Type::String)));
    assert!(matches!(Type::Int.iter_type(), Some(Type::Int)));
    assert!(Type::Boolean.iter_type().is_none());
    assert!(Type::Int.same(&Type::Int));
    assert!(!Type::Int.same(&Type::Float));
    assert!(ChildRules::any().is_container());
    assert!(!ChildRules::none().is_container());
    assert!(ChildRules::any_of(vec!["Pane".to_owned()]).is_container());
    assert!(!ChildRules::any_of(vec![]).is_container());
}

#[test]
fn tokens_know_their_kind() {
    let source = SourceFile::from_contents("t.ui".to_owned(), "\"s\" .e name".to_owned());
    let toks = Tokenizer::new(source).tokenize().ok().unwrap();
    assert!(toks[0].is_string());
    assert!(toks[1].is_enum());
    assert!(toks[2].is_name());
    assert!(!toks[2].is_string());
    assert!(toks[3].is(TT::Eof));
    assert_eq!(toks[0].to_display_string(), "`\"s\"`");
}

#[test]
fn a_table_reads_back_what_was_set() {
    let mut t: Table<u32> = Table::new();
    t.insert("a".to_owned(), 1);
    t.insert("b".to_owned(), 2);
    t.insert("a".to_owned(), 3);
    assert_eq!(t.get("a"), Some(&3));
    assert_eq!(t.get("b"), Some(&2));
    assert_eq!(t.get("c"), None);
    assert_eq!(t.entries.len(), 2);
    assert!(t.contains_key("b"));
}

fn span_of(s: &Span) -> (usize, usize, usize, usize) {
    (s.start_line, s.start_column, s.end_line, s.end_column)
}

#[test]
fn a_token_spans_its_columns() {
    let mut t = Tokenizer::new(SourceFile::from_contents("t.ui".to_owned(), "1.5px".to_owned()));
    let first = t.next().unwrap();
    assert!(matches!(&first.tok, TT::Number((d, true, s)) if d == "1.5" && s == "px"));
    assert_eq!(span_of(&first.span), (1, 1, 1, 6));
    let eof = t.next().unwrap();
    assert!(matches!(eof.tok, TT::Eof));
    assert_eq!(span_of(&eof.span), (1, 6, 1, 6));
    assert!(t.next().is_none());
}

#[test]
fn spans_follow_lines_and_comments() {
    let mut t = Tokenizer::new(SourceFile::from_contents("t.ui".to_owned(), "  a /* x\n y */ bc\n".to_owned()));
    let a = t.next().unwrap();
    assert_eq!(span_of(&a.span), (1, 3, 1, 4));
    let bc = t.next().unwrap();
    assert_eq!(span_of(&bc.span), (2, 7, 2, 9));
    let eof = t.next().unwrap();
    assert!(matches!(eof.tok, TT::Eof));
    assert_eq!(span_of(&eof.span), (3, 1, 3, 1));
}

#[test]
fn error_tokens_report_where_and_why() {
    let mut t1 = Tokenizer::new(SourceFile::from_contents("t.ui".to_owned(), "1.".to_owned()));
    let e1 = t1.next().unwrap();
    assert!(matches!(&e1.tok, TT::Error(s) if s == "1."));
    assert_eq!(span_of(&e1.span), (1, 1, 1, 3));
    let issues1 = t1.tokenize().err().unwrap();
    assert_eq!(issues1.len(), 1);
    assert_eq!(issues1[0].message, "expected digits following decimal point");
    assert_eq!(span_of(&issues1[0].span), (1, 1, 1, 3));

    let mut t2 = Tokenizer::new(SourceFile::from_contents("t.ui".to_owned(), "\"abc".to_owned()));
    let e2 = t2.next().unwrap();
    assert!(matches!(&e2.tok, TT::Error(s) if s == "abc"));
    assert_eq!(span_of(&e2.span), (1, 1, 1, 5));
    let issues2 = t2.tokenize().err().unwrap();
    assert_eq!(issues2[0].message, "encountered unterminated string literal");
}

#[test]
fn token_starts_strictly_increase() {
    let source = SourceFile::from_contents("t.ui".to_owned(), "Rect {\n  x1: 10px; // c\n  Text { \"a\" }\n}\n".to_owned());
    let ts = Tokenizer::new(source).tokenize().ok().unwrap();
    for w in ts.windows(2) {
        let a = (w[0].span.start_line, w[0].span.start_column);
        let b = (w[1].span.start_line, w[1].span.start_column);
        assert!(a < b);
    }
    assert!(matches!(ts.last().unwrap().tok, TT::Eof));
}

#[test]
fn a_component_is_named_after_its_file_stem() {
    let c = parse_source("my_widget.ui".to_owned(), "Pane { }".to_owned()).ok().unwrap();
    assert_eq!(c.name, "MyWidget");
}

#[test]
fn a_misplaced_assignment_is_reported_at_its_name() {
    let issues = parse_source("t.ui".to_owned(), "Rect { \"hi\" x1: 1px; }".to_owned()).err().unwrap();
    assert_eq!(issues.len(), 1);
    assert_eq!(issues[0].message, "property assignments must occur before any content definitions");
    assert_eq!(span_of(&issues[0].span), (1, 13, 1, 15));
}

#[test]
fn a_repeated_declaration_keeps_the_first() {
    let issues = parse_source("t.ui".to_owned(), "a: Int; pub a: Float; Pane { }".to_owned()).err().unwrap();
    assert_eq!(issues.len(), 1);
    assert_eq!(issues[0].message, "property `a` declared more than once");
}

#[test]
fn an_unknown_suffix_is_reported_on_the_number() {
    let issues = parse_source("t.ui".to_owned(), "Pane { x: -5em; }".to_owned()).err().unwrap();
    assert_eq!(issues[0].message, "unrecognized numerical suffix: `em`");
    assert_eq!(span_of(&issues[0].span), (1, 11, 1, 15));
}

#[test]
fn a_path_spans_all_its_names() {
    let c = parse_source("t.ui".to_owned(), "Pane { Layout.Row { } }".to_owned()).ok().unwrap();
    match &c.root.children[0] {
        Content::Element(e) => {
            assert_eq!(e.path, vec!["Layout".to_owned(), "Row".to_owned()]);
            assert_eq!(span_of(&e.name_span), (1, 8, 1, 18));
        },
        _ => panic!("expected an element"),
    }
}

#[test]
fn a_component_is_named_after_the_file_a_path_names() {
    let c = parse_source("/home/user/ui/my_widget.ui".to_owned(), "Pane { }".to_owned()).ok().unwrap();
    assert_eq!(c.name, "MyWidget");
    let d = parse_source("./parts/side-bar.ui".to_owned(), "Pane { }".to_owned()).ok().unwrap();
    assert_eq!(d.name, "SideBar");
}

#[test]
fn tokenize_reports_each_error_where_it_is() {
    let source = SourceFile::from_contents("t.ui".to_owned(), "a 1. b\n\"x".to_owned());
    let issues = Tokenizer::new(source).tokenize().err().unwrap();
    assert_eq!(issues.len(), 2);
    assert_eq!(issues[0].message, "expected digits following decimal point");
    assert_eq!(span_of(&issues[0].span), (1, 3, 1, 5));
    assert_eq!(issues[1].message, "encountered unterminated string literal");
    assert_eq!(span_of(&issues[1].span), (2, 1, 2, 3));
}

#[test]
fn the_end_of_file_comes_once_and_last() {
    let mut t = Tokenizer::new(SourceFile::from_contents("t.ui".to_owned(), "a b".to_owned()));
    assert!(matches!(t.next().unwrap().tok, TT::Name(_)));
    assert!(matches!(t.next().unwrap().tok, TT::Name(_)));
    let end = t.next().unwrap();
    assert!(matches!(end.tok, TT::Eof));
    assert_eq!((end.span.start_line, end.span.start_column), (end.span.end_line, end.span.end_column));
    assert!(t.next().is_none());
    assert!(t.next().is_none());
}
