use slabkit::evaluator::{DirectiveError, Evaluator};
use slabkit::logger::Logger;
use slabkit::parser::{HtmlElement, Node, Parser};
use slabkit::scope::{split_path, Scope};
use slabkit::utils::get_action;

fn parse(text: &str) -> Node {
    Parser::new(text.to_string()).parse().unwrap()
}

fn obj(entries: Vec<(&str, Scope)>) -> Scope {
    Scope::Object(entries.into_iter().map(|(k, v)| (k.to_string(), v)).collect())
}

fn s(text: &str) -> Scope {
    Scope::Str(text.to_string())
}

fn text_of(node: &Node) -> String {
    match node {
        Node::Text(t) => t.clone(),
        other => panic!("expected text, found {:?}", other),
    }
}

fn element(node: Node) -> HtmlElement {
    match node {
        Node::Element(e) => e,
        other => panic!("expected element, found {:?}", other),
    }
}

#[test]
fn unresolved_placeholder_is_left_as_text() {
    let node = parse("!{a.b}!");
    let out = Evaluator::new(obj(vec![])).evaluate(node).unwrap();
    assert_eq!(text_of(&out), "!{a.b}!");
}

#[test]
fn placeholder_in_element_is_resolved() {
    let node = parse("<p>!{name}!</p>");
    let out = element(Evaluator::new(obj(vec![("name", s("Ann"))])).evaluate(node).unwrap());
    assert_eq!(out.tag, "p");
    assert_eq!(out.children.len(), 1);
    assert_eq!(text_of(&out.children[0]), "Ann");
}

#[test]
fn nested_paths_and_scalars_are_rendered() {
    let scope = obj(vec![
        ("user", obj(vec![("name", s("Bo")), ("age", Scope::Number("42".to_string()))])),
        ("ok", Scope::Bool(true)),
        ("list", Scope::Array(vec![s("x")])),
    ]);
    let mut ev = Evaluator::new(scope);
    assert_eq!(
        ev.replace_placeholders("a!{user.name}!-!{user.age}!,!{ok}!".to_string()),
        "aBo-42,true"
    );
    assert_eq!(ev.replace_placeholders("!{list}!!{user}!".to_string()), "!{list}!!{user}!");
    assert_eq!(ev.replace_placeholders("!{}!!{ok}".to_string()), "!{}!!{ok}");
    assert_eq!(ev.replace_placeholders("!!{ok}!!".to_string()), "!true!");
}

#[test]
fn attributes_are_resolved_against_the_scope() {
    let node = parse("<a href='u-!{id}!' k='v'>x</a>");
    let out = element(Evaluator::new(obj(vec![("id", Scope::Number("7".to_string()))])).evaluate(node).unwrap());
    assert_eq!(
        out.attributes,
        vec![("href".to_string(), "u-7".to_string()), ("k".to_string(), "v".to_string())]
    );
}

fn list_template() -> Node {
    parse("<slk-datamap data='!{items}!' selector='!{item}!' class='list'><li>!{item.name}!</li></slk-datamap>")
}

#[test]
fn directive_repeats_its_item_template() {
    let items = Scope::Array(vec![obj(vec![("name", s("a"))]), obj(vec![("name", s("b"))])]);
    let out = element(Evaluator::new(obj(vec![("items", items)])).evaluate(list_template()).unwrap());
    assert_eq!(out.tag, "div");
    assert_eq!(out.attributes, vec![("class".to_string(), "list".to_string())]);
    assert_eq!(out.children.len(), 2);
    let first = element(out.children.into_iter().next().unwrap());
    assert_eq!(first.tag, "li");
    assert_eq!(text_of(&first.children[0]), "a");
}

#[test]
fn directive_over_empty_array_has_no_children() {
    let out = element(
        Evaluator::new(obj(vec![("items", Scope::Array(vec![]))])).evaluate(list_template()).unwrap(),
    );
    assert_eq!(out.tag, "div");
    assert!(out.children.is_empty());
}

#[test]
fn directive_without_item_template_is_unchanged() {
    let node = parse("<slk-datamap data='!{items}!' selector='!{item}!' class='c'></slk-datamap>");
    let out = element(
        Evaluator::new(obj(vec![("items", Scope::Array(vec![s("x")]))])).evaluate(node.duplicate()).unwrap(),
    );
    assert_eq!(Node::Element(out), node);
}

#[test]
fn directive_over_non_array_passes_through() {
    let out = element(Evaluator::new(obj(vec![("items", s("no"))])).evaluate(list_template()).unwrap());
    assert_eq!(out.tag, "slk-datamap");
    assert_eq!(out.attributes, vec![("class".to_string(), "list".to_string())]);
    assert_eq!(out.children.len(), 1);
}

#[test]
fn directive_with_two_templates_is_an_error() {
    let node = parse("<slk-datamap data='!{items}!' selector='!{i}!'><a>x</a><b>y</b></slk-datamap>");
    let err = Evaluator::new(obj(vec![])).evaluate(node).unwrap_err();
    assert_eq!(err, DirectiveError::MultipleItemTemplates);
    assert_eq!(err.message(), "slk-datamap can only have one child element");
}

#[test]
fn directive_without_data_is_unchanged() {
    let node = parse("<slk-datamap selector='!{i}!'><a>x</a></slk-datamap>");
    let out = element(Evaluator::new(obj(vec![])).process_datamap(element(node)).unwrap());
    assert_eq!(out.tag, "slk-datamap");
    assert_eq!(out.attributes, vec![("selector".to_string(), "!{i}!".to_string())]);
}

#[test]
fn plain_template_is_unchanged() {
    let node = parse("<div id='x'><p>Hello</p>World</div>");
    let out = Evaluator::new(obj(vec![("a", s("b"))])).evaluate(node.duplicate()).unwrap();
    assert_eq!(out, node);
}

#[test]
fn evaluating_twice_changes_nothing() {
    let mut ev = Evaluator::new(obj(vec![("name", s("Ann"))]));
    let once = ev.evaluate(parse("<p t='!{name}!'>!{name}! !{x}!</p>")).unwrap();
    let twice = ev.evaluate(once.duplicate()).unwrap();
    assert_eq!(twice, once);
    assert_eq!(once.node_to_html(), "<p t=\"Ann\">Ann!{x}!</p>");
}

#[test]
fn literal_lookup_results() {
    let mut ev = Evaluator::new(obj(vec![("a", obj(vec![("b", Scope::Bool(false))])), ("n", Scope::Null)]));
    assert_eq!(ev.get_literal_from_template("a.b".to_string()), Ok("false".to_string()));
    assert_eq!(
        ev.get_literal_from_template("a.c".to_string()),
        Err("Path 'a.c' not found in JSON template.".to_string())
    );
    assert_eq!(ev.get_literal_from_template("n".to_string()), Err("Value not found".to_string()));
    assert_eq!(ev.get_literal_from_template("a".to_string()), Err("Value not found".to_string()));
}

#[test]
fn array_and_object_lookup() {
    let mut ev = Evaluator::new(obj(vec![("xs", Scope::Array(vec![s("1"), s("2")])), ("o", obj(vec![("k", s("v"))]))]));
    assert_eq!(ev.get_array_from_template("xs".to_string()).unwrap().len(), 2);
    assert_eq!(ev.get_array_from_template("o".to_string()).unwrap_err(), "Value not found");
    assert_eq!(ev.get_object_from_template("o".to_string()).unwrap().len(), 1);
    assert_eq!(
        ev.get_object_from_template("zz".to_string()).unwrap_err(),
        "Path 'zz' not found in JSON template."
    );
}

#[test]
fn markers_are_stripped_from_names() {
    let mut ev = Evaluator::new(Scope::Null);
    assert_eq!(ev.unwrap_placeholders("!{ item.list }!".to_string()), "item.list");
}

#[test]
fn paths_split_on_dots() {
    let parts = split_path(&"a..b".to_string());
    assert_eq!(parts, vec!["a".to_string(), String::new(), "b".to_string()]);
    assert_eq!(split_path(&String::new()), vec![String::new()]);
}

#[test]
fn scope_copies_are_equal() {
    let v = obj(vec![("a", Scope::Array(vec![Scope::Null, Scope::Bool(true)]))]);
    assert_eq!(format!("{:?}", v.duplicate()), format!("{:?}", v));
}

#[test]
fn action_defaults_to_dev() {
    assert_eq!(get_action(&Some("compile".to_string())), "compile");
    assert_eq!(get_action(&Some("dev".to_string())), "dev");
    assert_eq!(get_action(&Some("other".to_string())), "dev");
    assert_eq!(get_action(&None), "dev");
}

#[test]
fn logger_keeps_its_settings() {
    let l = Logger::new("INFO".to_string(), "log.txt".to_string());
    assert_eq!(l.level, "INFO");
    assert_eq!(l.output_file, "log.txt");
}

#[test]
fn evaluated_tree_renders_as_markup() {
    let node = parse("<ul class='c'><li>!{x}!</li><li>b</li></ul>");
    let out = Evaluator::new(obj(vec![("x", s("a"))])).evaluate(node).unwrap();
    assert_eq!(out.node_to_html(), "<ul class=\"c\"><li>a</li><li>b</li></ul>");
    assert_eq!(Node::Text("t".to_string()).node_to_html(), "t");
}
