use filedrop::template::{Bindings, Template, TemplateError};

fn bind(pairs: &[(&str, &str)]) -> Bindings {
    let mut b = Bindings::new();
    for (k, v) in pairs {
        b.insert(k, v);
    }
    b
}

#[test]
fn render_without_placeholders_returns_text_unchanged() {
    let texts = [
        "",
        "Hello world!",
        "a@b no braces here",
        "line one\nline two\n",
        "closing } alone and -- dashes",
    ];
    for text in texts {
        let t = Template::one(text);
        let out = t.render(&bind(&[])).unwrap();
        assert_eq!(out, *text);
    }
}

#[test]
fn escaped_placeholder_escapes_html() {
    let t = Template::one("Hi {name}!");
    let out = t.render(&bind(&[("name", "<b>")])).unwrap();
    assert_eq!(out, "Hi &lt;b&gt;!");
}

#[test]
fn raw_placeholder_keeps_html() {
    let t = Template::one("Hi @{name}!");
    let out = t.render(&bind(&[("name", "<b>")])).unwrap();
    assert_eq!(out, "Hi <b>!");
}

#[test]
fn all_escaped_characters() {
    let t = Template::one("{x}");
    let out = t.render(&bind(&[("x", "&<>\"'")])).unwrap();
    assert_eq!(out, "&amp;&lt;&gt;&quot;&#39;");
}

#[test]
fn html_escape_function() {
    assert_eq!(filedrop::template::html_escape("a&b"), "a&amp;b");
    assert_eq!(filedrop::template::html_escape("plain"), "plain");
    assert_eq!(filedrop::template::html_escape("<>\"'"), "&lt;&gt;&quot;&#39;");
}

#[test]
fn missing_binding_fails_with_undefined_variable() {
    let t = Template::one("value: {x}");
    let err = t.render(&bind(&[("y", "1")])).unwrap_err();
    let TemplateError::UndefinedVariable(name) = err;
    assert_eq!(name, "x");
}

#[test]
fn missing_binding_fails_even_with_empty_bindings() {
    let t = Template::one("{x}");
    assert!(t.render(&bind(&[])).is_err());
}

#[test]
fn render_many_empty_is_empty_string() {
    let t = Template::one("row {n}\n");
    let out = t.render_many(&Vec::new()).unwrap();
    assert_eq!(out, "");
}

#[test]
fn render_many_concatenates_single_renders() {
    let t = Template::one("[{n}]");
    let rows = vec![
        bind(&[("n", "1")]),
        bind(&[("n", "2")]),
        bind(&[("n", "3")]),
    ];
    let out = t.render_many(&rows).unwrap();
    let mut expected = String::new();
    for r in &rows {
        expected.push_str(&t.render(r).unwrap());
    }
    assert_eq!(out, expected);
    assert_eq!(out, "[1][2][3]");
}

#[test]
fn render_many_fails_on_first_missing_binding() {
    let t = Template::one("[{n}]");
    let rows = vec![bind(&[("n", "1")]), bind(&[("m", "2")])];
    let TemplateError::UndefinedVariable(name) = t.render_many(&rows).unwrap_err();
    assert_eq!(name, "n");
}

#[test]
fn split_yields_independent_templates() {
    let templates = Template::many("A\n---\nB");
    assert_eq!(templates.len(), 2);
    let first = templates[0].render(&bind(&[])).unwrap();
    let second = templates[1].render(&bind(&[])).unwrap();
    assert_eq!(first, "A\n");
    assert_eq!(second, "\nB");
}

#[test]
fn split_segments_use_only_their_own_bindings() {
    let templates = Template::many("Hello {a}\n---\n{b} world");
    assert_eq!(templates.len(), 2);
    let first = templates[0].render(&bind(&[("a", "x")])).unwrap();
    let second = templates[1].render(&bind(&[("b", "y")])).unwrap();
    assert_eq!(first, "Hello x\n");
    assert_eq!(second, "\ny world");
    // the other segment's bindings play no part
    let first_again = templates[0].render(&bind(&[("a", "x"), ("b", "z")])).unwrap();
    assert_eq!(first_again, first);
}

#[test]
fn split_at_edges_keeps_empty_segments() {
    let templates = Template::many("---\nB");
    assert_eq!(templates.len(), 2);
    assert_eq!(templates[0].render(&bind(&[])).unwrap(), "");
    assert_eq!(templates[1].render(&bind(&[])).unwrap(), "\nB");

    let templates = Template::many("A\n---");
    assert_eq!(templates.len(), 2);
    assert_eq!(templates[0].render(&bind(&[])).unwrap(), "A\n");
    assert_eq!(templates[1].render(&bind(&[])).unwrap(), "");
}

#[test]
fn dashes_inside_a_line_do_not_split() {
    let templates = Template::many("A --- B");
    assert_eq!(templates.len(), 1);
    assert_eq!(templates[0].render(&bind(&[])).unwrap(), "A --- B");
}

#[test]
fn removal_rescan_finds_revealed_markers() {
    // removing the inner marker joins "{" and "b}" into a new marker
    let t = Template::one("{{a}b}");
    let out = t.render(&bind(&[("a", "A"), ("b", "B")])).unwrap();
    assert_eq!(out, "BA");
}

#[test]
fn later_binding_of_same_name_wins() {
    let t = Template::one("{k}");
    let mut b = Bindings::new();
    b.insert("k", "1");
    b.insert("k", "2");
    assert_eq!(t.render(&b).unwrap(), "2");
}

#[test]
fn bindings_get_looks_names_up() {
    let b = bind(&[("a", "1"), ("b", "2")]);
    assert_eq!(b.get("a").unwrap().as_str(), "1");
    assert_eq!(b.get("b").unwrap().as_str(), "2");
    assert!(b.get("c").is_none());
}
