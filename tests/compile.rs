use ravensone::{compile_component, version, CompileError, LexError, ParseError, Span};

#[test]
fn compiles_simple_component() {
    let source = "component App() { return <div>Hello</div> }";
    let output = compile_component(source).unwrap();
    assert!(output.contains("export function App"));
    assert!(output.contains("<div>Hello</div>"));
}

#[test]
fn compiles_component_without_params() {
    let output = compile_component("component App() { return <div>Hello</div>; }").unwrap();
    assert_eq!(output, "export function App() {\n  return <div>Hello</div>;\n}\n");
}

#[test]
fn compiles_component_with_params() {
    let output =
        compile_component("component Card(title) { return <div><h1>{title}</h1></div>; }").unwrap();
    assert_eq!(output, "export function Card({ title }) {\n  return <div><h1>{title}</h1></div>;\n}\n");
}

#[test]
fn drops_type_annotations_and_empty_params() {
    let output =
        compile_component("component Row(a: string, b:number, ,) { return (<i/>); }").unwrap();
    assert_eq!(output, "export function Row({ a, b }) {\n  return <i />;\n}\n");
}

#[test]
fn keeps_parentheses_that_do_not_wrap_the_whole_markup() {
    let kept = compile_component("component A() { return (x) + (y); }").unwrap();
    assert_eq!(kept, "export function A() {\n  return (x) + (y);\n}\n");
    let output = compile_component("component A() { return ({a}) }").unwrap();
    assert_eq!(output, "export function A() {\n  return {a};\n}\n");
}

#[test]
fn missing_keyword_is_a_component_error() {
    let err = compile_component("function App() { return <a/>; }").unwrap_err();
    assert_eq!(err, CompileError::Component("expected `component` keyword".into()));
}

#[test]
fn missing_params_is_a_component_error() {
    let err = compile_component("component App { return <a/>; }").unwrap_err();
    assert_eq!(err, CompileError::Component("missing parameter list".into()));
}

#[test]
fn missing_name_is_a_component_error() {
    let err = compile_component("component () { return <a/>; }").unwrap_err();
    assert_eq!(err, CompileError::Component("missing component name".into()));
}

#[test]
fn unclosed_params_is_a_component_error() {
    let err = compile_component("component A(x { return <a/>; }").unwrap_err();
    assert_eq!(err, CompileError::Component("unclosed `(` in parameter list".into()));
}

#[test]
fn missing_block_is_a_component_error() {
    let err = compile_component("component A() return <a/>;").unwrap_err();
    assert_eq!(err, CompileError::Component("expected `{`".into()));
}

#[test]
fn unclosed_block_is_a_component_error() {
    let err = compile_component("component A() { return <a/>;").unwrap_err();
    assert_eq!(err, CompileError::Component("unclosed `{` in component body".into()));
}

#[test]
fn missing_return_is_a_component_error() {
    let err = compile_component("component A() { <a/> }").unwrap_err();
    assert_eq!(err, CompileError::Component("missing `return` in component body".into()));
}

#[test]
fn empty_return_is_a_component_error() {
    let err = compile_component("component A() { return ; }").unwrap_err();
    assert_eq!(err, CompileError::Component("empty return body".into()));
}

#[test]
fn lex_errors_are_wrapped() {
    let err = compile_component("component A() { return <a t=\"x/>; }").unwrap_err();
    assert_eq!(err, CompileError::Lex(LexError::Invalid(Span { line: 1, col: 6, offset: 5, len: 4 })));
}

#[test]
fn parse_errors_are_wrapped() {
    let err = compile_component("component A() { return <div>; }").unwrap_err();
    assert_eq!(
        err,
        CompileError::Parse(ParseError::UnclosedTag("div".into(), Span { line: 1, col: 1, offset: 0, len: 1 }))
    );
}

#[test]
fn version_is_the_package_version() {
    assert_eq!(version(), "0.1.0");
}

fn markup_round(markup: &str) -> String {
    let tokens = ravensone::lex(markup).expect("lexing succeeded");
    let doc = ravensone::parse(&tokens, markup).expect("parsing succeeded");
    ravensone::to_tsx(&doc)
}

#[test]
fn compiles_basic_program() {
    let source = "component App() {\n  return (\n    <div class=\"app\">\n      <h1>Hello</h1>\n    </div>\n  );\n}\n";
    let expected = "export function App() {\n  return <div class=\"app\"><h1>Hello</h1></div>;\n}\n";
    assert_eq!(compile_component(source).unwrap(), expected);
    assert_eq!(
        markup_round("<div class=\"app\">\n      <h1>Hello</h1>\n    </div>"),
        "<div class=\"app\"><h1>Hello</h1></div>"
    );
}

#[test]
fn compiles_button_component() {
    let source = "component Button(label: string, onClick) {\n  return <button class=\"btn\" onClick={onClick}>{label}</button>;\n}";
    let expected = "export function Button({ label, onClick }) {\n  return <button class=\"btn\" onClick={onClick}>{label}</button>;\n}\n";
    assert_eq!(compile_component(source).unwrap(), expected);
}
