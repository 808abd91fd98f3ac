use rlauncher_cache::parser::parse;
use rlauncher_cache::parser::ParseError;

#[test]
fn full_descriptor_fields_verbatim() {
    let src = "[Desktop Entry]\nName=Firefox\nExec=firefox %u\nComment=Browse the web\nCategories=Network;WebBrowser;\nKeywords=web;browser;\nTerminal=false\n";
    let app = parse(src).unwrap();
    assert_eq!(app.name, "Firefox");
    assert_eq!(app.exec_cmd, "firefox %u");
    assert_eq!(app.comment.as_deref(), Some("Browse the web"));
    assert_eq!(app.categories.as_deref(), Some("Network;WebBrowser;"));
    assert_eq!(app.keywords.as_deref(), Some("web;browser;"));
    assert!(!app.use_terminal);
}

#[test]
fn absent_optionals_stay_absent() {
    let src = "[Desktop Entry]\nName=Foo\nExec=foo\n";
    let app = parse(src).unwrap();
    assert_eq!(app.name, "Foo");
    assert_eq!(app.exec_cmd, "foo");
    assert_eq!(app.comment, None);
    assert_eq!(app.categories, None);
    assert_eq!(app.keywords, None);
    assert!(!app.use_terminal);
}

#[test]
fn empty_value_is_present_and_empty() {
    let src = "[Desktop Entry]\nName=Foo\nExec=foo\nComment=\n";
    let app = parse(src).unwrap();
    assert_eq!(app.comment.as_deref(), Some(""));
}

#[test]
fn value_keeps_later_equals_signs() {
    let src = "[Desktop Entry]\nName=Foo\nExec=env A=1 foo\n";
    let app = parse(src).unwrap();
    assert_eq!(app.exec_cmd, "env A=1 foo");
}

#[test]
fn missing_exec_fails() {
    let src = "[Desktop Entry]\nName=Foo\nComment=no command here\n";
    assert_eq!(parse(src), Err(ParseError::MissingExec));
}

#[test]
fn empty_text_fails_with_missing_exec() {
    assert_eq!(parse(""), Err(ParseError::MissingExec));
}

#[test]
fn missing_name_fails() {
    let src = "[Desktop Entry]\nExec=foo\n";
    assert_eq!(parse(src), Err(ParseError::MissingName));
}

#[test]
fn terminal_true_exactly() {
    let src = "[Desktop Entry]\nName=Foo\nExec=foo\nTerminal=true\n";
    assert!(parse(src).unwrap().use_terminal);
}

#[test]
fn terminal_other_values_are_false() {
    for v in ["True", "1", "yes", "TRUE", " true", "true ", "false", ""] {
        let src = format!("[Desktop Entry]\nName=Foo\nExec=foo\nTerminal={}\n", v);
        let app = parse(&src).unwrap();
        assert!(!app.use_terminal, "Terminal={:?} must yield false", v);
    }
}

#[test]
fn terminal_absent_is_false() {
    let src = "[Desktop Entry]\nName=Foo\nExec=foo\n";
    assert!(!parse(src).unwrap().use_terminal);
}

#[test]
fn unrecognized_attributes_and_sections_ignored() {
    let src = "[Desktop Entry]\nName=Foo\nExec=foo\nIcon=foo.png\nX-Custom=1\n\n[Desktop Action new]\nName=Other\nExec=other\n";
    let app = parse(src).unwrap();
    assert_eq!(app.name, "Foo");
    assert_eq!(app.exec_cmd, "foo");
}

#[test]
fn attributes_outside_desktop_entry_ignored() {
    let src = "[Other]\nName=Foo\nExec=foo\n";
    assert_eq!(parse(src), Err(ParseError::MissingExec));
}

#[test]
fn attribute_before_any_section_ignored() {
    let src = "Name=Foo\n[Desktop Entry]\nName=Bar\nExec=bar\n";
    let app = parse(src).unwrap();
    assert_eq!(app.name, "Bar");
}

#[test]
fn first_occurrence_wins() {
    let src = "[Desktop Entry]\nName=First\nName=Second\nExec=first\nExec=second\n";
    let app = parse(src).unwrap();
    assert_eq!(app.name, "First");
    assert_eq!(app.exec_cmd, "first");
}

#[test]
fn reentered_desktop_entry_section_still_read() {
    let src = "[Desktop Entry]\nName=Foo\n[Other]\nExec=wrong\n[Desktop Entry]\nExec=right\n";
    let app = parse(src).unwrap();
    assert_eq!(app.name, "Foo");
    assert_eq!(app.exec_cmd, "right");
}

#[test]
fn comments_and_blank_lines_ignored() {
    let src = "# a comment with = sign\n\n[Desktop Entry]\n# another\nName=Foo\n\nExec=foo\n";
    let app = parse(src).unwrap();
    assert_eq!(app.name, "Foo");
    assert_eq!(app.exec_cmd, "foo");
}

#[test]
fn malformed_line_fails() {
    let src = "[Desktop Entry]\nName=Foo\nExec=foo\nthis line has no equals sign\n";
    assert_eq!(parse(src), Err(ParseError::MalformedLine));
}

#[test]
fn malformed_line_reported_before_missing_exec() {
    let src = "garbage\n[Desktop Entry]\nName=Foo\n";
    assert_eq!(parse(src), Err(ParseError::MalformedLine));
}

#[test]
fn key_is_case_sensitive() {
    let src = "[Desktop Entry]\nname=Foo\nexec=foo\nName=Bar\nExec=bar\n";
    let app = parse(src).unwrap();
    assert_eq!(app.name, "Bar");
    assert_eq!(app.exec_cmd, "bar");
}

#[test]
fn section_name_is_exact() {
    let src = "[desktop entry]\nName=Foo\nExec=foo\n";
    assert_eq!(parse(src), Err(ParseError::MissingExec));
}
