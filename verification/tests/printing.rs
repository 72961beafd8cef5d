// Printing trees that are held in memory.

use tree::error::TreeError;
use tree::model::{Location, Node};
use tree::patterns::{DEFAULT_IGNORE, IGNORE_FILE};
use tree::render::print_directory_tree_recursive_short;
use tree::{print, print_directory_tree, print_with_options, validate_root};

fn file(name: &str) -> Node {
    Node::file(name, "content")
}

fn dir(name: &str, children: Vec<Node>) -> Node {
    Node::directory(name, children)
}

/// A small project: sources, build output, documentation and a manifest.
fn create_test_directory() -> Location {
    Location::directory(
        "/tmp/project",
        vec![
            dir("src", vec![Node::file("main.rs", "fn main() {}"), Node::file("lib.rs", "// lib")]),
            dir("target", vec![Node::file("debug.log", "debug")]),
            dir("docs", vec![Node::file("README.md", "# Docs")]),
            Node::file("Cargo.toml", "[package]\nname = \"test\""),
        ],
    )
}

fn patterns(names: &[&str]) -> Vec<String> {
    names.iter().map(|name| name.to_string()).collect()
}

fn draw(root: &Location, prefix: &str, ignore_patterns: &[String]) -> (String, Result<(), TreeError>) {
    let mut output = String::new();
    let result = print_directory_tree_recursive_short(
        root.node.as_ref().unwrap(),
        &root.text,
        prefix,
        &mut output,
        ignore_patterns,
        true,
    );
    (output, result)
}

#[test]
fn test_print_directory_tree_recursive_short() {
    let root = create_test_directory();
    let (output_str, result) = draw(&root, "", &[]);
    result.expect("Should print tree");

    assert!(output_str.contains("src"));
    assert!(output_str.contains("docs"));
    assert!(output_str.contains("Cargo.toml"));
    assert!(output_str.contains("├──") || output_str.contains("└──"));
    assert_eq!(
        output_str,
        "├── docs/\n\
         │   └── README.md\n\
         ├── src/\n\
         │   ├── lib.rs\n\
         │   └── main.rs\n\
         ├── target/\n\
         │   └── debug.log\n\
         └── Cargo.toml\n"
    );
}

#[test]
fn test_print_directory_tree_with_ignored_paths() {
    let root = create_test_directory();
    let (output_str, result) = draw(&root, "", &patterns(&["target"]));
    result.expect("Should print tree");

    assert!(output_str.contains("src"));
    assert!(output_str.contains("docs"));
    assert!(!output_str.contains("target"));
    assert!(!output_str.contains("debug.log"));
}

#[test]
fn test_print_directory_tree_creates_ignore_file() {
    let mut root = create_test_directory();
    let mut out = String::new();
    print_directory_tree(&mut root, &mut out).expect("Should print tree");

    let ignore_file = root.find(&[".tree_ignore"]).expect("the ignore file exists");
    assert!(ignore_file.content.contains("target"));
    assert!(ignore_file.content.contains("node_modules"));
    assert_eq!(ignore_file.content, DEFAULT_IGNORE);
}

#[test]
fn test_print_directory_tree_uses_existing_ignore_file() {
    let mut root = create_test_directory();
    let custom_ignore = "custom_dir\nother_dir";
    root.node.as_mut().unwrap().children.push(Node::file(".tree_ignore", custom_ignore));

    let mut out = String::new();
    print_directory_tree(&mut root, &mut out).expect("Should print tree");

    let content = &root.find(&[".tree_ignore"]).expect("Should read file").content;
    assert_eq!(content, custom_ignore);
    // With that file nothing of the project is hidden.
    assert!(out.contains("target/"));
}

#[test]
fn test_print_directory_tree_recursive_short_empty_directory() {
    let root = Location::directory("/tmp/empty", vec![]);
    let (output_str, result) = draw(&root, "", &[]);
    result.expect("Should print empty tree");
    assert!(output_str.is_empty() || output_str.trim().is_empty());
    assert_eq!(output_str, "");
}

#[test]
fn test_print_directory_tree_recursive_short_with_files_only() {
    let root = Location::directory("/tmp/files", vec![file("file1.txt"), file("file2.txt")]);
    let (output_str, result) = draw(&root, "", &[]);
    result.expect("Should print tree");

    assert!(output_str.contains("file1.txt"));
    assert!(output_str.contains("file2.txt"));
    assert!(output_str.contains("├──") || output_str.contains("└──"));
    assert_eq!(output_str, "├── file1.txt\n└── file2.txt\n");
}

#[test]
fn test_print_directory_tree_recursive_short_sorting() {
    let root = Location::directory(
        "/tmp/sorting",
        vec![file("z_file.txt"), file("a_file.txt"), dir("z_dir", vec![]), dir("a_dir", vec![])],
    );
    let (output_str, result) = draw(&root, "", &[]);
    result.expect("Should print tree");

    let lines: Vec<&str> = output_str.lines().collect();
    let a_dir = lines.iter().position(|line| line.contains("a_dir")).unwrap();
    let z_dir = lines.iter().position(|line| line.contains("z_dir")).unwrap();
    let a_file = lines.iter().position(|line| line.contains("a_file.txt")).unwrap();
    let z_file = lines.iter().position(|line| line.contains("z_file.txt")).unwrap();

    assert!(a_dir < z_dir, "Directories should be sorted alphabetically");
    assert!(z_dir < a_file, "Directories should come before files");
    assert!(a_file < z_file, "Files should be sorted alphabetically");
}

#[test]
fn test_print_directory_tree_recursive_short_sorting_edge_case() {
    let root = Location::directory(
        "/tmp/sorting",
        vec![dir("a_dir", vec![]), dir("z_dir", vec![]), file("a_file.txt"), file("z_file.txt")],
    );
    let (output_str, result) = draw(&root, "", &[]);
    result.expect("Should print tree with sorting");
    assert_eq!(output_str, "├── a_dir/\n├── z_dir/\n├── a_file.txt\n└── z_file.txt\n");
}

#[test]
fn test_print_directory_tree_recursive_short_with_prefix() {
    let root = Location::directory("/tmp/prefixed", vec![file("file.txt")]);
    let (output_str, result) = draw(&root, "  ", &[]);
    result.expect("Should print tree with prefix");

    assert!(output_str.contains("file.txt"));
    assert!(output_str.contains("  "));
    assert_eq!(output_str, "  └── file.txt\n");
}

#[test]
fn test_print_directory_tree_recursive_short_mixed_content() {
    let root = Location::directory(
        "/tmp/mixed",
        vec![dir("subdir", vec![file("nested_file.txt")]), file("root_file.txt")],
    );
    let (output_str, result) = draw(&root, "", &[]);
    result.expect("Should print mixed tree");

    assert!(output_str.contains("subdir"));
    assert!(output_str.contains("nested_file.txt"));
    assert!(output_str.contains("root_file.txt"));
    assert_eq!(output_str, "├── subdir/\n│   └── nested_file.txt\n└── root_file.txt\n");
}

#[test]
fn test_print_directory_tree_error_handling() {
    let mut root = create_test_directory();
    let ignore_content = "target\nsrc";
    root.node.as_mut().unwrap().children.push(Node::file(".tree_ignore", ignore_content));

    let mut out = String::new();
    print_directory_tree(&mut root, &mut out).expect("Should print tree with custom patterns");

    let content = &root.find(&[".tree_ignore"]).expect("Should read ignore file").content;
    assert_eq!(content, ignore_content);
    assert_eq!(
        out,
        "/tmp/project\n\
         ├── docs/\n\
         │   └── README.md\n\
         ├── .tree_ignore\n\
         └── Cargo.toml\n"
    );
}

#[test]
fn test_print_directory_tree_with_gitignore_integration() {
    // What the rules `target/` and `*.log` of version control exclude is
    // marked on the entries.
    let mut root = Location::directory(
        "/tmp/repo",
        vec![
            dir("src", vec![Node::file("main.rs", "fn main() {}")]),
            dir("target", vec![Node::file("debug", "debug info")]).ignored_by_vcs(),
            Node::file(".gitignore", "target/\n*.log"),
        ],
    );
    let mut out = String::new();
    print_directory_tree(&mut root, &mut out).expect("Should print tree with gitignore");

    assert!(root.find(&[".tree_ignore"]).is_some());
    assert!(!out.contains("target"));
}

#[test]
fn test_print_directory_tree_recursive_short_io_error_handling() {
    let root = Location::directory("/tmp/simple", vec![file("test.txt")]);
    let (output_str, result) = draw(&root, "", &[]);
    assert!(result.is_ok());
    assert!(output_str.contains("test.txt"));
}

#[test]
fn test_print_directory_tree_recursive_short_deep_recursion() {
    let root = Location::directory(
        "/tmp/deep",
        vec![dir("level1", vec![dir("level2", vec![dir("level3", vec![file("deep_file.txt")])])])],
    );
    let (output_str, result) = draw(&root, "", &[]);
    assert!(result.is_ok());

    assert!(output_str.contains("level1"));
    assert!(output_str.contains("level2"));
    assert!(output_str.contains("level3"));
    assert!(output_str.contains("deep_file.txt"));
    assert_eq!(
        output_str,
        "└── level1/\n    └── level2/\n        └── level3/\n            └── deep_file.txt\n"
    );
}

#[test]
fn test_print_directory_tree_recursive_short_with_partial_ignore() {
    let root = Location::directory(
        "/tmp/partial",
        vec![
            dir("keep_dir", vec![file("keep_file.txt")]),
            dir("ignore_dir", vec![file("ignore_file.txt")]),
        ],
    );
    let (output_str, result) = draw(&root, "", &patterns(&["ignore_dir"]));
    assert!(result.is_ok());

    assert!(output_str.contains("keep_dir"));
    assert!(output_str.contains("keep_file.txt"));
    assert!(!output_str.contains("ignore_dir"));
    assert!(!output_str.contains("ignore_file.txt"));
}

#[test]
fn test_print_directory_tree_all_branches() {
    let mut root = Location::directory(
        "/tmp/branches",
        vec![
            dir("subdir1", vec![dir("subdir2", vec![file("file3.txt")]), file("file2.txt")]),
            file("file1.txt"),
        ],
    );

    let mut out = String::new();
    let result = print_directory_tree(&mut root, &mut out);
    assert!(result.is_ok());
    assert!(root.find(&[".tree_ignore"]).is_some());

    // The file is edited by hand between two printings.
    let custom_content = "custom_pattern\nanother_pattern";
    let children = &mut root.node.as_mut().unwrap().children;
    let at = children.iter().position(|node| node.name == ".tree_ignore").unwrap();
    children[at].content = custom_content.to_string();

    let mut again = String::new();
    let result = print_directory_tree(&mut root, &mut again);
    assert!(result.is_ok());

    let content = &root.find(&[".tree_ignore"]).expect("Should read file").content;
    assert_eq!(content, custom_content);
}

#[test]
fn test_main_function_integration() {
    let mut root = create_test_directory();
    let mut out = String::new();
    print_directory_tree(&mut root, &mut out).expect("Should print tree successfully");
    assert!(root.find(&[".tree_ignore"]).is_some());
}

#[test]
fn test_main_function_normal_path_success() {
    let mut root = create_test_directory();
    assert!(root.is_present());
    assert!(root.is_dir());

    let mut out = String::new();
    print_directory_tree(&mut root, &mut out).expect("Should print tree successfully");
    assert!(root.find(&[".tree_ignore"]).is_some());
}

#[test]
fn test_print_creates_ignore_file_when_missing() {
    let mut root =
        Location::directory("/tmp/fresh", vec![dir("src", vec![Node::file("main.rs", "fn main() {}")])]);
    assert!(root.find(&[".tree_ignore"]).is_none());

    let mut output = String::new();
    print(&mut root, &mut output).unwrap();

    assert!(root.find(&[".tree_ignore"]).is_some());
    assert!(output.contains("src/"));
    assert!(output.contains("main.rs"));
}

#[test]
fn test_read_ignore_patterns_file_missing() {
    let mut root = Location::directory("/tmp/fresh", vec![dir("subdir", vec![])]);
    let mut output = String::new();
    print(&mut root, &mut output).unwrap();
    assert!(root.find(&[".tree_ignore"]).is_some());
}

#[test]
fn test_deep_directory_structure() {
    let mut root = Location::directory(
        "/tmp/deep",
        vec![
            dir(
                "level1",
                vec![
                    dir(
                        "level2",
                        vec![dir(
                            "level3",
                            vec![dir("level4", vec![Node::file("deep_file.txt", "deep content")])],
                        )],
                    ),
                    Node::file(".tree_ignore", "level2\n"),
                ],
            ),
            Node::file(".tree_ignore", "*.tmp\n"),
        ],
    );

    let mut output = String::new();
    print(&mut root, &mut output).unwrap();
    assert!(output.contains("level1/"));
    // Only the patterns of the root's own file apply, at every level.
    assert!(output.contains("level2/"));

    let removed = tree::clear(&mut root).unwrap();
    assert!(removed >= 1);
    assert_eq!(removed, 2);
}

#[test]
fn test_special_characters_in_filenames() {
    let mut root = Location::directory(
        "/tmp/special",
        vec![dir(
            "src",
            vec![
                file("file-with-dashes.rs"),
                file("file_with_underscores.rs"),
                file("file.with.dots.rs"),
            ],
        )],
    );
    let mut output = String::new();
    print(&mut root, &mut output).unwrap();

    assert!(output.contains("file-with-dashes.rs"));
    assert!(output.contains("file_with_underscores.rs"));
    assert!(output.contains("file.with.dots.rs"));
}

#[test]
fn test_empty_directories() {
    let mut root = Location::directory(
        "/tmp/empties",
        vec![dir("empty1", vec![]), dir("empty2", vec![]), dir("not_empty", vec![file("file.txt")])],
    );
    let mut output = String::new();
    print(&mut root, &mut output).unwrap();

    assert!(output.contains("empty1/"));
    assert!(output.contains("empty2/"));
    assert!(output.contains("not_empty/"));
    assert!(output.contains("file.txt"));
}

#[test]
fn test_complex_ignore_patterns() {
    let ignore_content = "# Comments should be ignored
target_file
*.tmp

# Empty lines should be ignored too

src/lib.rs
";
    let mut root = Location::directory(
        "/tmp/complex",
        vec![
            dir("src", vec![Node::file("main.rs", "// main"), Node::file("lib.rs", "// lib")]),
            Node::file("target_file", "// target"),
            Node::file("temp.tmp", "// temp"),
            Node::file(".tree_ignore", ignore_content),
        ],
    );
    let mut output = String::new();
    print(&mut root, &mut output).unwrap();

    assert!(output.contains("main.rs"));
    assert!(output.contains("src/"));
    // Patterns are names, neither globs nor paths.
    assert!(!output.contains("target_file"));
    assert!(output.contains("temp.tmp"));
    assert!(output.contains("lib.rs"));
}

#[test]
fn patterns_are_loaded_from_existing_file() {
    let mut root = Location::directory(
        "/tmp/existing",
        vec![
            Node::file(".tree_ignore", "hidden.txt"),
            Node::file("visible.txt", "ok"),
            Node::file("hidden.txt", "secret"),
        ],
    );
    let mut out = String::new();
    print(&mut root, &mut out).unwrap();

    assert!(out.contains("visible.txt"));
    assert!(!out.contains("hidden.txt"));
}

#[test]
fn gitignore_patterns_are_honoured() {
    let mut root = Location::directory(
        "/tmp/repo",
        vec![
            dir(".git", vec![]),
            Node::file(".gitignore", "secret.log\n"),
            Node::file("normal.log", "keep"),
            Node::file("secret.log", "drop").ignored_by_vcs(),
        ],
    );
    let mut out = String::new();
    print(&mut root, &mut out).unwrap();

    assert!(out.contains("normal.log"));
    assert!(!out.is_empty());
    assert!(!out.contains("secret.log"));
}

#[test]
fn empty_directory_prints_header_only() {
    let mut root = Location::directory("/tmp/empty", vec![]);
    let mut output = String::new();
    print(&mut root, &mut output).unwrap();

    assert!(output.contains(&root.text));
    assert!(output.contains(".tree_ignore"));
    assert!(output.lines().count() >= 1);
    // The new file matches none of its own patterns, so it is drawn.
    assert_eq!(output, "/tmp/empty\n└── .tree_ignore\n");
}

#[test]
fn read_ignore_patterns_no_file_exists() {
    let mut root = Location::directory("/tmp/plain", vec![file("test.txt")]);
    let mut out = String::new();
    print(&mut root, &mut out).unwrap();

    assert!(root.find(&[".tree_ignore"]).is_some());
    assert!(out.contains("test.txt"));
}

#[test]
fn recursive_directory_rendering() {
    let mut root = Location::directory(
        "/tmp/nested",
        vec![dir("level1", vec![dir("level2", vec![file("file2.txt")]), file("file1.txt")])],
    );
    let mut output = String::new();
    print(&mut root, &mut output).unwrap();

    assert!(output.contains("level1/"));
    assert!(output.contains("level2/"));
    assert!(output.contains("file1.txt"));
    assert!(output.contains("file2.txt"));
}

#[test]
fn directory_file_sorting_order() {
    let mut root = Location::directory(
        "/tmp/order",
        vec![file("a_file.txt"), dir("z_directory", vec![file("nested.txt")])],
    );
    let mut output = String::new();
    print(&mut root, &mut output).unwrap();

    let dir_pos = output.find("z_directory/").unwrap();
    let file_pos = output.find("a_file.txt").unwrap();
    assert!(dir_pos < file_pos, "Directory should come before file in output");
}

#[test]
fn directories_are_rendered_with_slash_suffix() {
    let mut root =
        Location::directory("/tmp/slash", vec![dir("src", vec![Node::file("main.rs", "fn main() {}")])]);
    let mut out = String::new();
    print(&mut root, &mut out).unwrap();
    assert!(out.contains("src/"));
    assert!(!out.contains("main.rs/"));
}

#[test]
fn render_sorting_and_order() {
    let mut root = Location::directory(
        "/tmp/shuffled",
        vec![file("b_file.txt"), file("a_file.txt"), dir("z_dir", vec![]), dir("m_dir", vec![])],
    );
    let mut text = String::new();
    print(&mut root, &mut text).unwrap();

    let m_pos = text.find("m_dir/").unwrap();
    let z_pos = text.find("z_dir/").unwrap();
    let a_pos = text.find("a_file.txt").unwrap();
    let b_pos = text.find("b_file.txt").unwrap();
    assert!(m_pos < z_pos && z_pos < a_pos && a_pos < b_pos);
}

#[test]
fn print_draws_the_whole_tree_exactly() {
    let mut root = create_test_directory();
    let mut out = String::new();
    print(&mut root, &mut out).unwrap();
    // `target` is one of the default patterns.
    assert_eq!(
        out,
        "/tmp/project\n\
         ├── docs/\n\
         │   └── README.md\n\
         ├── src/\n\
         │   ├── lib.rs\n\
         │   └── main.rs\n\
         ├── .tree_ignore\n\
         └── Cargo.toml\n"
    );
}

#[test]
fn print_appends_to_what_the_writer_holds() {
    let mut root = Location::directory("/r", vec![file("a")]);
    root.node.as_mut().unwrap().children.push(Node::file(IGNORE_FILE, ""));
    let mut out = String::from("before\n");
    print(&mut root, &mut out).unwrap();
    assert_eq!(out, "before\n/r\n├── .tree_ignore\n└── a\n");
}

#[test]
fn print_is_repeatable() {
    let mut root = create_test_directory();
    let mut first = String::new();
    print(&mut root, &mut first).unwrap();
    let after_first = create_test_directory_with_default_file();
    assert_eq!(root, after_first);

    let mut second = String::new();
    print(&mut root, &mut second).unwrap();
    assert_eq!(first, second);
    assert_eq!(root, after_first);
}

fn create_test_directory_with_default_file() -> Location {
    let mut root = create_test_directory();
    root.node.as_mut().unwrap().children.push(Node::file(IGNORE_FILE, DEFAULT_IGNORE));
    root
}

#[test]
fn print_creates_exactly_one_ignore_file() {
    let mut root = create_test_directory();
    let mut out = String::new();
    print(&mut root, &mut out).unwrap();
    print(&mut root, &mut out).unwrap();
    let children = &root.node.as_ref().unwrap().children;
    assert_eq!(children.iter().filter(|node| node.name == IGNORE_FILE).count(), 1);
    // No directory further down gets one.
    assert!(root.find(&["src", IGNORE_FILE]).is_none());
}

#[test]
fn print_refuses_a_missing_root() {
    let mut root = Location::missing("/nonexistent");
    let mut out = String::new();
    let result = print(&mut root, &mut out);
    assert_eq!(result, Err(TreeError::PathMissing("/nonexistent".to_string())));
    assert_eq!(out, "");
    assert_eq!(root, Location::missing("/nonexistent"));
}

#[test]
fn print_refuses_a_file_as_root() {
    let mut root = Location::holding("/tmp/notes.txt", Node::file("notes.txt", "text"));
    let mut out = String::new();
    let result = print(&mut root, &mut out);
    assert_eq!(result, Err(TreeError::NotADirectory("/tmp/notes.txt".to_string())));
    assert_eq!(out, "");
}

#[test]
fn print_refuses_a_symlink_as_root() {
    let mut root = Location::holding("/tmp/link", Node::symlink("link"));
    let mut out = String::new();
    let result = print(&mut root, &mut out);
    assert_eq!(result, Err(TreeError::NotADirectory("/tmp/link".to_string())));
}

#[test]
fn validate_root_tells_the_three_cases_apart() {
    assert_eq!(validate_root(&Location::directory("/d", vec![])), Ok(()));
    assert_eq!(
        validate_root(&Location::missing("/m")),
        Err(TreeError::PathMissing("/m".to_string()))
    );
    assert_eq!(
        validate_root(&Location::holding("/f", file("f"))),
        Err(TreeError::NotADirectory("/f".to_string()))
    );
}

#[test]
fn print_without_files_draws_directories_only() {
    let mut root = create_test_directory();
    let mut out = String::new();
    print_with_options(&mut root, &mut out, false).unwrap();
    assert_eq!(out, "/tmp/project\n├── docs/\n└── src/\n");
    // The ignore file is written all the same.
    assert!(root.find(&[IGNORE_FILE]).is_some());
}

#[test]
fn print_with_files_is_print() {
    let mut one = create_test_directory();
    let mut two = create_test_directory();
    let mut with_option = String::new();
    let mut plain = String::new();
    print_with_options(&mut one, &mut with_option, true).unwrap();
    print(&mut two, &mut plain).unwrap();
    assert_eq!(with_option, plain);
}

#[test]
fn a_directory_that_cannot_be_listed_ends_the_printing() {
    let mut root = Location::directory(
        "/r",
        vec![
            dir("a", vec![file("one")]),
            dir("b", vec![file("two")]).refusing_access(),
            dir("c", vec![file("three")]),
            Node::file(IGNORE_FILE, ""),
        ],
    );
    let mut out = String::new();
    let result = print(&mut root, &mut out);
    assert_eq!(result, Err(TreeError::Io("Failed to read directory: /r/b".to_string())));
    // What was written before stays written.
    assert_eq!(out, "/r\n├── a/\n│   └── one\n├── b/\n");
}

#[test]
fn a_hidden_directory_is_never_listed() {
    let mut root = Location::directory(
        "/r",
        vec![dir("secret", vec![file("inside")]).refusing_access(), Node::file(IGNORE_FILE, "secret\n")],
    );
    let mut out = String::new();
    assert_eq!(print(&mut root, &mut out), Ok(()));
    assert_eq!(out, "/r\n└── .tree_ignore\n");
}

#[test]
fn a_root_that_refuses_access_cannot_get_its_ignore_file() {
    let mut root = Location::holding("/r", dir("r", vec![file("a")]).refusing_access());
    let mut out = String::new();
    let result = print(&mut root, &mut out);
    assert_eq!(result, Err(TreeError::Io("Failed to create ignore file: /r/.tree_ignore".to_string())));
    assert_eq!(out, "/r\n");
}

#[test]
fn an_ignore_file_that_cannot_be_opened_ends_the_printing() {
    let mut root = Location::directory(
        "/r",
        vec![file("a"), Node::file(IGNORE_FILE, "a\n").refusing_access()],
    );
    let mut out = String::new();
    let result = print(&mut root, &mut out);
    assert_eq!(result, Err(TreeError::Io("Failed to read ignore file: /r/.tree_ignore".to_string())));
    assert_eq!(out, "/r\n");
}

#[test]
fn print_directory_tree_writes_the_header_before_it_fails() {
    let mut root = Location::missing("/gone");
    let mut out = String::new();
    let result = print_directory_tree(&mut root, &mut out);
    assert_eq!(
        result,
        Err(TreeError::Io("Failed to create ignore file: /gone/.tree_ignore".to_string()))
    );
    assert_eq!(out, "/gone\n");
}

#[test]
fn a_link_to_a_directory_is_drawn_as_a_directory() {
    let mut root = Location::directory(
        "/r",
        vec![
            Node::directory_link("link", vec![file("inside")]),
            dir("d", vec![]),
            Node::file(IGNORE_FILE, ""),
        ],
    );
    let mut out = String::new();
    print(&mut root, &mut out).unwrap();
    assert_eq!(out, "/r\n├── d/\n├── link/\n│   └── inside\n└── .tree_ignore\n");

    let mut linked = Location::holding("/l", Node::directory_link("l", vec![file("a")]));
    assert_eq!(validate_root(&linked), Ok(()));
    let mut out = String::new();
    print_with_options(&mut linked, &mut out, false).unwrap();
    assert_eq!(out, "/l\n");
    assert!(linked.find(&[IGNORE_FILE]).is_some());
}

#[test]
fn symbolic_links_are_drawn_as_files() {
    let mut root =
        Location::directory("/r", vec![Node::symlink("link"), dir("d", vec![]), Node::file(IGNORE_FILE, "")]);
    let mut out = String::new();
    print(&mut root, &mut out).unwrap();
    assert_eq!(out, "/r\n├── d/\n├── .tree_ignore\n└── link\n");
}

#[test]
fn the_last_entry_of_each_level_hangs_on_a_corner() {
    let mut root = Location::directory(
        "/r",
        vec![
            dir("a", vec![dir("x", vec![file("deep")]), file("y")]),
            dir("b", vec![file("z")]),
            Node::file(IGNORE_FILE, ".tree_ignore\n"),
        ],
    );
    let mut out = String::new();
    print(&mut root, &mut out).unwrap();
    assert_eq!(
        out,
        "/r\n\
         ├── a/\n\
         │   ├── x/\n\
         │   │   └── deep\n\
         │   └── y\n\
         └── b/\n    \
             └── z\n"
    );
}

#[test]
fn names_are_ordered_by_their_bytes() {
    let mut root = Location::directory(
        "/r",
        vec![file("b"), file("a"), file("B"), file("_"), file("10"), file("9"), file("é"), file("ab")],
    );
    root.node.as_mut().unwrap().children.push(Node::file(IGNORE_FILE, ".tree_ignore"));
    let mut out = String::new();
    print(&mut root, &mut out).unwrap();
    assert_eq!(out, "/r\n├── 10\n├── 9\n├── B\n├── _\n├── a\n├── ab\n├── b\n└── é\n");
}
