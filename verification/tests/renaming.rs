use refactor::error::ErrorKind;
use refactor::language::Language;
use refactor::rename::{rename_class, rename_package};
use refactor::tree::{SourceFile, SourceTree};

fn path(p: &str) -> Vec<String> {
    p.split('/').map(|s| s.to_string()).collect()
}

fn file(p: &str, content: &str) -> SourceFile {
    SourceFile { path: path(p), content: content.to_string() }
}

fn find<'a>(t: &'a SourceTree, p: &str) -> Option<&'a SourceFile> {
    let want = path(p);
    t.files.iter().find(|f| f.path == want)
}

fn has_dir(t: &SourceTree, d: &str) -> bool {
    let want = path(d);
    t.dirs.iter().any(|x| *x == want)
}

fn example_tree() -> SourceTree {
    SourceTree {
        dirs: vec![
            path("src"),
            path("src/main"),
            path("src/main/java"),
            path("src/main/java/net"),
            path("src/main/java/net/fabricmc"),
            path("src/main/java/net/fabricmc/example"),
        ],
        files: vec![
            file(
                "src/main/java/net/fabricmc/example/ExampleMod.java",
                "package net.fabricmc.example;\n\npublic class ExampleMod {\n}\n",
            ),
            file(
                "src/main/java/net/fabricmc/Other.java",
                "package net.fabricmc;\n\nimport net.fabricmc.example.ExampleMod;\n",
            ),
        ],
    }
}

#[test]
fn package_rename_moves_files_and_rewrites_declaration() {
    let t = example_tree();
    let t2 = rename_package(&t, &Language::Java, "net.fabricmc.example", "net.fabricmc.example2")
        .unwrap();
    let moved = find(&t2, "src/main/java/net/fabricmc/example2/ExampleMod.java").unwrap();
    assert_eq!(
        moved.content,
        "package net.fabricmc.example2;\n\npublic class ExampleMod {\n}\n"
    );
    assert!(find(&t2, "src/main/java/net/fabricmc/example/ExampleMod.java").is_none());
    assert!(has_dir(&t2, "src/main/java/net/fabricmc/example2"));
    assert!(!has_dir(&t2, "src/main/java/net/fabricmc/example"));
}

#[test]
fn package_rename_rewrites_references_in_unmoved_files() {
    let t = example_tree();
    let t2 = rename_package(&t, &Language::Java, "net.fabricmc.example", "net.fabricmc.example2")
        .unwrap();
    let other = find(&t2, "src/main/java/net/fabricmc/Other.java").unwrap();
    assert_eq!(
        other.content,
        "package net.fabricmc;\n\nimport net.fabricmc.example2.ExampleMod;\n"
    );
}

#[test]
fn package_rename_removes_emptied_ancestors() {
    let t = example_tree();
    let t2 = rename_package(&t, &Language::Java, "net.fabricmc.example", "com.acme").unwrap();
    assert!(has_dir(&t2, "src/main/java/com"));
    assert!(has_dir(&t2, "src/main/java/com/acme"));
    assert!(find(&t2, "src/main/java/com/acme/ExampleMod.java").is_some());
    // net/fabricmc still holds Other.java, so it and net stay
    assert!(has_dir(&t2, "src/main/java/net/fabricmc"));
    assert!(has_dir(&t2, "src/main/java/net"));
    assert!(!has_dir(&t2, "src/main/java/net/fabricmc/example"));
}

#[test]
fn package_rename_keeps_ancestors_with_sibling_packages() {
    let mut t = example_tree();
    t.files.remove(1); // drop Other.java so net/fabricmc would otherwise empty out
    t.dirs.push(path("src/main/java/net/fabricmc/sibling"));
    t.files.push(file(
        "src/main/java/net/fabricmc/sibling/Keep.java",
        "package net.fabricmc.sibling;\n",
    ));
    let t2 = rename_package(&t, &Language::Java, "net.fabricmc.example", "com.acme").unwrap();
    assert!(has_dir(&t2, "src/main/java/net/fabricmc"));
    assert!(has_dir(&t2, "src/main/java/net"));
    assert!(has_dir(&t2, "src/main/java/net/fabricmc/sibling"));
}

#[test]
fn package_rename_drops_all_emptied_ancestors() {
    let mut t = example_tree();
    t.files.remove(1); // only the example package remains under net
    let t2 = rename_package(&t, &Language::Java, "net.fabricmc.example", "com.acme").unwrap();
    assert!(!has_dir(&t2, "src/main/java/net/fabricmc/example"));
    assert!(!has_dir(&t2, "src/main/java/net/fabricmc"));
    assert!(!has_dir(&t2, "src/main/java/net"));
    assert!(has_dir(&t2, "src/main/java"));
}

#[test]
fn package_rename_to_itself_is_identity() {
    let t = example_tree();
    let t2 = rename_package(&t, &Language::Java, "net.fabricmc.example", "net.fabricmc.example")
        .unwrap();
    assert_eq!(t2.files.len(), t.files.len());
    for (a, b) in t.files.iter().zip(t2.files.iter()) {
        assert_eq!(a.path, b.path);
        assert_eq!(a.content, b.content);
    }
    assert_eq!(t.dirs, t2.dirs);
}

#[test]
fn package_rename_missing_package_is_not_found() {
    let t = example_tree();
    let e = rename_package(&t, &Language::Java, "net.missing", "net.other").unwrap_err();
    assert_eq!(e.kind, ErrorKind::NotFound);
}

#[test]
fn package_rename_malformed_name_is_rejected() {
    let t = example_tree();
    let e = rename_package(&t, &Language::Java, "net..bad", "net.other").unwrap_err();
    assert_eq!(e.kind, ErrorKind::MalformedName);
    let e2 = rename_package(&t, &Language::Java, "net.fabricmc.example", "").unwrap_err();
    assert_eq!(e2.kind, ErrorKind::MalformedName);
}

#[test]
fn package_rename_into_existing_directory_conflicts() {
    let mut t = example_tree();
    t.dirs.push(path("src/main/java/net/fabricmc/taken"));
    let e = rename_package(&t, &Language::Java, "net.fabricmc.example", "net.fabricmc.taken")
        .unwrap_err();
    assert_eq!(e.kind, ErrorKind::Conflict);
}

#[test]
fn package_rename_into_own_subtree_conflicts() {
    let t = example_tree();
    let e = rename_package(
        &t,
        &Language::Java,
        "net.fabricmc.example",
        "net.fabricmc.example.inner",
    )
    .unwrap_err();
    assert_eq!(e.kind, ErrorKind::Conflict);
}

#[test]
fn class_rename_relocates_file_and_rewrites_declaration() {
    let t = example_tree();
    let t2 = rename_class(
        &t,
        &Language::Java,
        "net.fabricmc.example.ExampleMod",
        "net.fabricmc.Renamed",
    )
    .unwrap();
    let moved = find(&t2, "src/main/java/net/fabricmc/Renamed.java").unwrap();
    assert_eq!(
        moved.content,
        "package net.fabricmc.example;\n\npublic class Renamed {\n}\n"
    );
    assert!(find(&t2, "src/main/java/net/fabricmc/example/ExampleMod.java").is_none());
    let other = find(&t2, "src/main/java/net/fabricmc/Other.java").unwrap();
    assert_eq!(
        other.content,
        "package net.fabricmc;\n\nimport net.fabricmc.Renamed;\n"
    );
}

#[test]
fn class_rename_to_itself_is_identity() {
    let t = example_tree();
    let t2 = rename_class(
        &t,
        &Language::Java,
        "net.fabricmc.example.ExampleMod",
        "net.fabricmc.example.ExampleMod",
    )
    .unwrap();
    for (a, b) in t.files.iter().zip(t2.files.iter()) {
        assert_eq!(a.path, b.path);
        assert_eq!(a.content, b.content);
    }
    assert_eq!(t.dirs, t2.dirs);
}

#[test]
fn class_rename_missing_file_is_not_found() {
    let t = example_tree();
    let e = rename_class(
        &t,
        &Language::Java,
        "net.fabricmc.example.Missing",
        "net.fabricmc.example.Found",
    )
    .unwrap_err();
    assert_eq!(e.kind, ErrorKind::NotFound);
}

#[test]
fn class_rename_missing_target_package_is_not_found() {
    let t = example_tree();
    let e = rename_class(
        &t,
        &Language::Java,
        "net.fabricmc.example.ExampleMod",
        "com.elsewhere.ExampleMod",
    )
    .unwrap_err();
    assert_eq!(e.kind, ErrorKind::NotFound);
}

#[test]
fn class_rename_onto_existing_file_conflicts() {
    let t = example_tree();
    let e = rename_class(
        &t,
        &Language::Java,
        "net.fabricmc.example.ExampleMod",
        "net.fabricmc.Other",
    )
    .unwrap_err();
    assert_eq!(e.kind, ErrorKind::Conflict);
}

#[test]
fn class_rename_without_package_is_malformed() {
    let t = example_tree();
    let e = rename_class(&t, &Language::Java, "ExampleMod", "Renamed").unwrap_err();
    assert_eq!(e.kind, ErrorKind::MalformedName);
}

#[test]
fn kotlin_rename_uses_kotlin_conventions() {
    let t = SourceTree {
        dirs: vec![
            path("src"),
            path("src/main"),
            path("src/main/kotlin"),
            path("src/main/kotlin/net"),
            path("src/main/kotlin/net/fabricmc"),
            path("src/main/kotlin/net/fabricmc/example"),
        ],
        files: vec![file(
            "src/main/kotlin/net/fabricmc/example/ExampleMod.kt",
            "package net.fabricmc.example\n\nobject ExampleMod {\n}\n",
        )],
    };
    let t2 = rename_package(&t, &Language::Kotlin, "net.fabricmc.example", "net.fabricmc.example2")
        .unwrap();
    let t3 = rename_class(
        &t2,
        &Language::Kotlin,
        "net.fabricmc.example2.ExampleMod",
        "net.fabricmc.example2.ExampleMod2",
    )
    .unwrap();
    let moved = find(&t3, "src/main/kotlin/net/fabricmc/example2/ExampleMod2.kt").unwrap();
    assert_eq!(
        moved.content,
        "package net.fabricmc.example2\n\nobject ExampleMod2 {\n}\n"
    );
}

#[test]
fn end_to_end_package_then_class_rename() {
    let t = example_tree();
    let t2 = rename_package(&t, &Language::Java, "net.fabricmc.example", "net.fabricmc.example2")
        .unwrap();
    let t3 = rename_class(
        &t2,
        &Language::Java,
        "net.fabricmc.example2.ExampleMod",
        "net.fabricmc.example2.ExampleMod2",
    )
    .unwrap();
    let moved = find(&t3, "src/main/java/net/fabricmc/example2/ExampleMod2.java").unwrap();
    assert_eq!(
        moved.content,
        "package net.fabricmc.example2;\n\npublic class ExampleMod2 {\n}\n"
    );
    assert!(find(&t3, "src/main/java/net/fabricmc/example/ExampleMod.java").is_none());
    assert!(find(&t3, "src/main/java/net/fabricmc/example2/ExampleMod.java").is_none());
    let other = find(&t3, "src/main/java/net/fabricmc/Other.java").unwrap();
    assert_eq!(
        other.content,
        "package net.fabricmc;\n\nimport net.fabricmc.example2.ExampleMod2;\n"
    );
}
