use component_translations::patterns::{regex_captures_of, ENTRY, PATH};
use component_translations::strings::{join_strings, split_on_char, strip_leading_char, trim_text};
use component_translations::structure::utilities::{
    capture_first, capture_group, replace_extension, selector_to_component_name, uppercase_first_letter,
};

fn s(x: &str) -> String {
    x.to_string()
}

#[test]
fn replace_extension_replaces_text_after_last_dot() {
    assert_eq!(replace_extension(&s("app/app.component.ts"), "html"), "app/app.component.html");
    assert_eq!(replace_extension(&s("lazy.module"), "routing.ts"), "lazy.routing.ts");
}

#[test]
fn replace_extension_without_dot_replaces_whole_name() {
    assert_eq!(replace_extension(&s("readme"), "html"), "html");
    assert_eq!(replace_extension(&s(""), "html"), "html");
}

#[test]
fn replace_extension_trailing_dot() {
    assert_eq!(replace_extension(&s("name."), "ts"), "name.ts");
}

#[test]
fn selector_to_component_name_capitalises_words() {
    assert_eq!(selector_to_component_name("app-user-list"), "UserListComponent");
    assert_eq!(selector_to_component_name("app-home"), "HomeComponent");
}

#[test]
fn selector_to_component_name_edge_cases() {
    assert_eq!(selector_to_component_name("app"), "Component");
    assert_eq!(selector_to_component_name("app-a--b"), "ABComponent");
    assert_eq!(selector_to_component_name(""), "Component");
}

#[test]
fn uppercase_first_letter_cases() {
    assert_eq!(uppercase_first_letter("foo"), "Foo");
    assert_eq!(uppercase_first_letter(""), "");
    assert_eq!(uppercase_first_letter("Foo"), "Foo");
    assert_eq!(uppercase_first_letter("1abc"), "1abc");
    assert_eq!(uppercase_first_letter("\u{df}x"), "SSx");
}

#[test]
fn capture_group_takes_group_one_of_first_match() {
    let caps = vec![
        vec![Some(s("path: 'a'")), Some(s("a"))],
        vec![Some(s("path: 'b'")), Some(s("b"))],
    ];
    assert_eq!(capture_group(&caps), Some(s("a")));
    let none: Vec<Vec<Option<String>>> = vec![];
    assert_eq!(capture_group(&none), None);
    let missing = vec![vec![Some(s("x")), None]];
    assert_eq!(capture_group(&missing), None);
    let only_whole = vec![vec![Some(s("x"))]];
    assert_eq!(capture_group(&only_whole), None);
}

#[test]
fn capture_first_runs_the_pattern() {
    assert_eq!(capture_first(PATH, "{ path: 'home', component: X }"), Some(s("home")));
    assert_eq!(capture_first(PATH, "{ component: X }"), None);
}

#[test]
fn regex_captures_lists_every_match() {
    let caps = regex_captures_of(PATH, "path: 'a' path: \"b\"").unwrap();
    assert_eq!(caps.len(), 2);
    assert_eq!(caps[1][1], Some(s("b")));
    assert!(regex_captures_of("(", "x").is_none());
}

#[test]
fn entry_list_is_captured_greedily() {
    let ts = "entryComponents: [\n    FooComponent,\n    BarComponent\n  ]";
    assert_eq!(capture_first(ENTRY, ts), Some(s("FooComponent,\n    BarComponent\n  ")));
}

#[test]
fn split_and_join_round_trip() {
    let parts = split_on_char("a.b..c.", '.');
    assert_eq!(parts, vec![s("a"), s("b"), s(""), s("c"), s("")]);
    assert_eq!(join_strings(&parts, "."), "a.b..c.");
    assert_eq!(split_on_char("", '.'), vec![s("")]);
}

#[test]
fn strip_and_trim() {
    assert_eq!(strip_leading_char("\n\n  x \n", '\n'), "  x \n");
    assert_eq!(trim_text("  x y \n"), "x y");
    assert_eq!(trim_text("\u{3000}\u{a0}x\u{2029}\t"), "x");
    assert_eq!(trim_text(" \n "), "");
    assert_eq!(trim_text("\u{200b}x"), "\u{200b}x");
}
