use refactor::error::{Error, ErrorKind};
use refactor::language::Language;
use refactor::name::QualifiedName;
use refactor::rewrite::rewrite_occurrences;
use refactor::scaffold::plan_mod_names;

#[test]
fn rewrite_replaces_complete_tokens_only() {
    let text = "a.b a.bx xa.b q.a.b.z then a.b;";
    let (out, count) = rewrite_occurrences(text, "a.b", "a.c");
    assert_eq!(out, "a.c a.bx xa.b q.a.b.z then a.c;");
    assert_eq!(count, 2);
}

#[test]
fn rewrite_leaves_deceptive_near_matches_alone() {
    let text = "a.bcd xa.b.c w_a.b a.b_w";
    let (out, count) = rewrite_occurrences(text, "a.b", "a.c");
    assert_eq!(out, text);
    assert_eq!(count, 0);
}

#[test]
fn rewrite_replaces_leading_segment_group_of_longer_chain() {
    let (out, count) = rewrite_occurrences("import a.b.SomeClass;", "a.b", "a.c");
    assert_eq!(out, "import a.c.SomeClass;");
    assert_eq!(count, 1);
}

#[test]
fn rewrite_handles_start_and_end_of_text() {
    let (out, count) = rewrite_occurrences("a.b says a.b", "a.b", "x.y");
    assert_eq!(out, "x.y says x.y");
    assert_eq!(count, 2);
}

#[test]
fn rewrite_of_empty_text_is_empty() {
    let (out, count) = rewrite_occurrences("", "a.b", "x.y");
    assert_eq!(out, "");
    assert_eq!(count, 0);
}

#[test]
fn rewrite_to_itself_changes_nothing() {
    let text = "import a.b; use a.b and a.bc";
    let (out, count) = rewrite_occurrences(text, "a.b", "a.b");
    assert_eq!(out, text);
    assert_eq!(count, 2);
}

#[test]
fn rewrite_replacement_may_be_longer() {
    let (out, count) = rewrite_occurrences("x(a.b)", "a.b", "net.fabricmc.example");
    assert_eq!(out, "x(net.fabricmc.example)");
    assert_eq!(count, 1);
}

#[test]
fn qualified_name_parses_and_joins() {
    let q = QualifiedName::from_dotted("net.fabricmc.example").unwrap();
    assert_eq!(q.segments.len(), 3);
    assert_eq!(q.segments[0], "net");
    assert_eq!(q.segments[1], "fabricmc");
    assert_eq!(q.segments[2], "example");
    assert_eq!(q.dotted(), "net.fabricmc.example");
}

#[test]
fn qualified_name_single_segment_is_valid() {
    let q = QualifiedName::from_dotted("example").unwrap();
    assert_eq!(q.segments.len(), 1);
    assert_eq!(q.dotted(), "example");
}

#[test]
fn qualified_name_rejects_empty_string() {
    let e = QualifiedName::from_dotted("").unwrap_err();
    assert_eq!(e.kind, ErrorKind::MalformedName);
}

#[test]
fn qualified_name_rejects_empty_segments() {
    assert_eq!(
        QualifiedName::from_dotted("a..b").unwrap_err().kind,
        ErrorKind::MalformedName
    );
    assert_eq!(
        QualifiedName::from_dotted(".a").unwrap_err().kind,
        ErrorKind::MalformedName
    );
    assert_eq!(
        QualifiedName::from_dotted("a.").unwrap_err().kind,
        ErrorKind::MalformedName
    );
}

#[test]
fn qualified_name_rejects_path_separator() {
    let e = QualifiedName::from_dotted("a.b/c").unwrap_err();
    assert_eq!(e.kind, ErrorKind::MalformedName);
}

#[test]
fn qualified_name_parent_and_last() {
    let q = QualifiedName::from_dotted("net.fabricmc.example").unwrap();
    let p = q.parent().unwrap();
    assert_eq!(p.dotted(), "net.fabricmc");
    assert_eq!(q.last(), "example");
}

#[test]
fn qualified_name_parent_of_single_segment_fails() {
    let q = QualifiedName::from_dotted("example").unwrap();
    assert_eq!(q.parent().unwrap_err().kind, ErrorKind::MalformedName);
}

#[test]
fn language_profiles() {
    assert_eq!(Language::Java.source_dir_name(), "java");
    assert_eq!(Language::Java.extension(), "java");
    assert_eq!(Language::Kotlin.source_dir_name(), "kotlin");
    assert_eq!(Language::Kotlin.extension(), "kt");
}

#[test]
fn language_package_declarations() {
    assert_eq!(
        Language::Java.package_decl("net.fabricmc.example"),
        "package net.fabricmc.example;"
    );
    assert_eq!(
        Language::Kotlin.package_decl("net.fabricmc.example"),
        "package net.fabricmc.example"
    );
}

#[test]
fn language_class_declarations() {
    assert_eq!(Language::Java.class_decl("ExampleMod"), "class ExampleMod");
    assert_eq!(Language::Kotlin.class_decl("ExampleMod"), "object ExampleMod");
}

#[test]
fn plan_mod_names_from_main_class() {
    let p = plan_mod_names("net.fabricmc.example.ExampleMod2").unwrap();
    assert_eq!(p.new_package, "net.fabricmc.example");
    assert_eq!(p.old_class, "net.fabricmc.example.ExampleMod");
    assert_eq!(p.group, "net.fabricmc");
    assert_eq!(p.base_name, "example");
}

#[test]
fn plan_mod_names_needs_three_segments() {
    assert_eq!(
        plan_mod_names("Example").unwrap_err().kind,
        ErrorKind::MalformedName
    );
    assert_eq!(
        plan_mod_names("com.Example").unwrap_err().kind,
        ErrorKind::MalformedName
    );
    assert_eq!(
        plan_mod_names("com..Example").unwrap_err().kind,
        ErrorKind::MalformedName
    );
}

#[test]
fn error_carries_kind_and_message() {
    let e = Error::new(ErrorKind::Io, String::from("disk trouble"));
    assert_eq!(e.kind, ErrorKind::Io);
    assert_eq!(e.message, "disk trouble");
}
