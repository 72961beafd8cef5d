// What the command line asks for, carried out on trees held in memory.

use tree::cli::{check_path, clear_ignore_files, removal_line, run_app, Cli};
use tree::error::TreeError;
use tree::model::{Location, Node};
use tree::text::decimal;

fn dir(name: &str, children: Vec<Node>) -> Node {
    Node::directory(name, children)
}

/// A small project with an ignore file at its root and one in `src`.
fn create_test_directory() -> Location {
    Location::directory(
        "/tmp/project",
        vec![
            dir(
                "src",
                vec![Node::file("main.rs", "fn main() {}"), Node::file(".tree_ignore", "test_file")],
            ),
            dir("target", vec![Node::file("debug.log", "debug")]),
            Node::file(".tree_ignore", "target\nnode_modules"),
        ],
    )
}

fn clear_at(path: &mut Location) -> Result<(), TreeError> {
    let mut out = String::new();
    clear_ignore_files(path, &mut out)
}

#[test]
fn test_clear_ignore_files_success() {
    let mut base_path = create_test_directory();

    assert!(base_path.find(&[".tree_ignore"]).is_some());
    assert!(base_path.find(&["src", ".tree_ignore"]).is_some());

    clear_at(&mut base_path).expect("Should clear files successfully");

    assert!(base_path.find(&[".tree_ignore"]).is_none());
    assert!(base_path.find(&["src", ".tree_ignore"]).is_none());
}

#[test]
fn test_clear_ignore_files_no_files() {
    let mut base_path = Location::directory(
        "/tmp/clean",
        vec![dir("src", vec![Node::file("main.rs", "fn main() {}")])],
    );
    let mut out = String::new();
    clear_ignore_files(&mut base_path, &mut out).expect("Should handle no files gracefully");
    assert_eq!(out, "Removed 0 .tree_ignore file(s)\n");
}

#[test]
fn test_clear_ignore_files_nonexistent_path() {
    let mut nonexistent_path = Location::missing("/nonexistent/path/that/does/not/exist");

    let result = clear_at(&mut nonexistent_path);
    assert!(result.is_err());

    let error_msg = result.unwrap_err().message();
    assert!(error_msg.contains("does not exist"));
    assert_eq!(error_msg, "Path '/nonexistent/path/that/does/not/exist' does not exist");
}

#[test]
fn test_clear_ignore_files_not_directory() {
    let mut file_path =
        Location::holding("/tmp/test_file.txt", Node::file("test_file.txt", "test content"));

    let result = clear_at(&mut file_path);
    assert!(result.is_err());

    let error_msg = result.unwrap_err().message();
    assert!(error_msg.contains("is not a directory"));
    assert_eq!(error_msg, "Path '/tmp/test_file.txt' is not a directory");
}

#[test]
fn test_clear_with_permission_errors() {
    let mut base_path = create_test_directory();
    clear_at(&mut base_path).expect("Should clear files successfully");
    assert!(base_path.find(&[".tree_ignore"]).is_none());
}

#[test]
fn test_nested_directory_clear() {
    let mut base_path = Location::directory(
        "/tmp/nested",
        vec![
            dir(
                "level1",
                vec![
                    dir(
                        "level2",
                        vec![
                            dir("level3", vec![Node::file(".tree_ignore", "level3")]),
                            Node::file(".tree_ignore", "level2"),
                        ],
                    ),
                    Node::file(".tree_ignore", "level1"),
                ],
            ),
            Node::file(".tree_ignore", "root"),
        ],
    );

    clear_at(&mut base_path).expect("Should clear all nested files");

    assert!(base_path.find(&[".tree_ignore"]).is_none());
    assert!(base_path.find(&["level1", ".tree_ignore"]).is_none());
    assert!(base_path.find(&["level1", "level2", ".tree_ignore"]).is_none());
    assert!(base_path.find(&["level1", "level2", "level3", ".tree_ignore"]).is_none());
    assert!(base_path.find(&["level1", "level2", "level3"]).is_some());
}

#[test]
fn test_main_with_clear_flag() {
    let mut cli = Cli { path: create_test_directory(), clear: true };

    assert!(cli.path.find(&[".tree_ignore"]).is_some());
    assert!(cli.path.find(&["src", ".tree_ignore"]).is_some());

    if cli.clear {
        clear_at(&mut cli.path).expect("Should clear files successfully");
    }

    assert!(cli.path.find(&[".tree_ignore"]).is_none());
    assert!(cli.path.find(&["src", ".tree_ignore"]).is_none());
}

#[test]
fn test_main_with_normal_mode_nonexistent_path() {
    let nonexistent_path = Location::missing("/nonexistent/path/that/does/not/exist");

    let cli = Cli { path: nonexistent_path, clear: false };

    // What makes the program refuse the path.
    assert!(!cli.path.is_present());
}

#[test]
fn test_main_with_normal_mode_file_instead_of_directory() {
    let file_path =
        Location::holding("/tmp/test_file.txt", Node::file("test_file.txt", "test content"));

    let cli = Cli { path: file_path, clear: false };

    assert!(cli.path.is_present());
    assert!(!cli.path.is_dir());
}

#[test]
fn test_clear_ignore_files_with_walkdir_errors() {
    let mut base_path = create_test_directory();
    base_path
        .node
        .as_mut()
        .unwrap()
        .children
        .push(Node::file("test.tree_ignore", "test content"));

    clear_at(&mut base_path).expect("Should clear files successfully");
    assert!(base_path.find(&["test.tree_ignore"]).is_some());
}

#[test]
fn test_clear_ignore_files_detailed_output() {
    let mut base_path = Location::directory(
        "/tmp/counting",
        vec![
            dir(
                "dir1",
                vec![
                    dir("dir2", vec![Node::file(".tree_ignore", "dir2")]),
                    Node::file(".tree_ignore", "dir1"),
                ],
            ),
            Node::file(".tree_ignore", "root"),
        ],
    );

    let mut out = String::new();
    clear_ignore_files(&mut base_path, &mut out).expect("Should clear all files");

    assert!(base_path.find(&[".tree_ignore"]).is_none());
    assert!(base_path.find(&["dir1", ".tree_ignore"]).is_none());
    assert!(base_path.find(&["dir1", "dir2", ".tree_ignore"]).is_none());
    assert_eq!(out, "Removed 3 .tree_ignore file(s)\n");
}

#[test]
fn test_clear_ignore_files_error_branch_coverage() {
    let mut base_path = Location::directory(
        "/tmp/branches",
        vec![dir("subdir", vec![Node::file(".tree_ignore", "test")]), Node::file(".tree_ignore", "test")],
    );

    clear_at(&mut base_path).expect("Should clear files");

    assert!(base_path.find(&[".tree_ignore"]).is_none());
    assert!(base_path.find(&["subdir", ".tree_ignore"]).is_none());
}

#[test]
fn test_clear_ignore_files_with_errors_branch() {
    let mut base_path = Location::directory(
        "/tmp/normal",
        vec![dir("normal_dir", vec![Node::file(".tree_ignore", "test")])],
    );

    clear_at(&mut base_path).expect("Should clear files");
    assert!(base_path.find(&["normal_dir", ".tree_ignore"]).is_none());
}

#[test]
fn test_main_function_execution_paths() {
    // Clear mode.
    {
        let mut cli = Cli { path: create_test_directory(), clear: true };
        if cli.clear {
            let result = clear_at(&mut cli.path);
            assert!(result.is_ok());
        }
    }

    // Normal mode on a directory.
    {
        let mut cli = Cli { path: create_test_directory(), clear: false };
        if !cli.clear {
            assert!(cli.path.is_present());
            assert!(cli.path.is_dir());

            let mut out = String::new();
            let result = tree::print_directory_tree(&mut cli.path, &mut out);
            assert!(result.is_ok());
        }
    }

    // Normal mode on a path that does not exist.
    {
        let cli =
            Cli { path: Location::missing("/nonexistent/path/that/does/not/exist"), clear: false };
        if !cli.clear {
            assert!(!cli.path.is_present());
        }
    }

    // Normal mode on a file.
    {
        let cli = Cli {
            path: Location::holding("/tmp/test_file.txt", Node::file("test_file.txt", "test")),
            clear: false,
        };
        if !cli.clear {
            assert!(cli.path.is_present());
            assert!(!cli.path.is_dir());
        }
    }
}

#[test]
fn test_clear_ignore_files_error_handling_branches() {
    let mut base_path = Location::directory(
        "/tmp/complex",
        vec![
            dir(
                "level1",
                vec![
                    dir("level2", vec![Node::file(".tree_ignore", "test3")]),
                    Node::file(".tree_ignore", "test2"),
                    Node::file("another_file.txt", "content"),
                ],
            ),
            Node::file(".tree_ignore", "test1"),
            Node::file("regular_file.txt", "content"),
        ],
    );

    let result = clear_at(&mut base_path);
    assert!(result.is_ok());

    assert!(base_path.find(&[".tree_ignore"]).is_none());
    assert!(base_path.find(&["level1", ".tree_ignore"]).is_none());
    assert!(base_path.find(&["level1", "level2", ".tree_ignore"]).is_none());

    assert!(base_path.find(&["regular_file.txt"]).is_some());
    assert!(base_path.find(&["level1", "another_file.txt"]).is_some());
}

#[test]
fn test_run_app_function_clear_mode() {
    let mut cli = Cli { path: create_test_directory(), clear: true };
    let mut out = String::new();

    let result = run_app(&mut cli, &mut out);
    assert!(result.is_ok());

    assert!(cli.path.find(&[".tree_ignore"]).is_none());
    assert!(cli.path.find(&["src", ".tree_ignore"]).is_none());
    assert_eq!(out, "Removed 2 .tree_ignore file(s)\n");
}

#[test]
fn test_run_app_function_normal_mode() {
    let mut cli = Cli {
        path: Location::directory(
            "/tmp/project",
            vec![
                dir("src", vec![Node::file("main.rs", "fn main() {}")]),
                dir("target", vec![Node::file("debug.log", "debug")]),
            ],
        ),
        clear: false,
    };
    let mut out = String::new();

    let result = run_app(&mut cli, &mut out);
    assert!(result.is_ok());

    assert!(cli.path.find(&[".tree_ignore"]).is_some());
    assert_eq!(out, "/tmp/project\n├── src/\n│   └── main.rs\n└── .tree_ignore\n");
}

#[test]
fn test_run_app_function_nonexistent_path() {
    let nonexistent_path = Location::missing("/nonexistent/path/that/does/not/exist");

    let mut cli = Cli { path: nonexistent_path, clear: false };
    let mut out = String::new();

    let result = run_app(&mut cli, &mut out);
    assert!(result.is_err());

    let error_msg = result.unwrap_err().message();
    assert!(error_msg.contains("does not exist"));
    assert_eq!(error_msg, "Path '/nonexistent/path/that/does/not/exist' does not exist");
    assert!(out.is_empty());
    assert_eq!(cli.path, Location::missing("/nonexistent/path/that/does/not/exist"));
}

#[test]
fn test_run_app_function_file_instead_of_directory() {
    let file_path =
        Location::holding("/tmp/test_file.txt", Node::file("test_file.txt", "test content"));

    let mut cli = Cli { path: file_path, clear: false };
    let mut out = String::new();

    let result = run_app(&mut cli, &mut out);
    assert!(result.is_err());

    let error_msg = result.unwrap_err().message();
    assert!(error_msg.contains("is not a directory"));
    assert_eq!(error_msg, "Path '/tmp/test_file.txt' is not a directory");
}

#[test]
fn test_main_function_via_run_app() {
    let mut cli = Cli { path: create_test_directory(), clear: false };
    let mut out = String::new();
    let result = run_app(&mut cli, &mut out);
    assert!(result.is_ok());
}

#[test]
fn test_cli_basic_tree_printing() {
    let mut cli = Cli {
        path: Location::directory(
            "/tmp/basic",
            vec![dir("src", vec![Node::file("main.rs", "fn main() {}")]), Node::file("README.md", "# Test")],
        ),
        clear: false,
    };
    let mut stdout = String::new();
    run_app(&mut cli, &mut stdout).unwrap();
    assert!(stdout.contains("src"));
    assert!(stdout.contains("README.md"));
}

#[test]
fn test_cli_clear_functionality() {
    let mut cli = Cli {
        path: Location::directory(
            "/tmp/clearing",
            vec![
                Node::file(".tree_ignore", "target\nnode_modules"),
                dir("subdir", vec![Node::file(".tree_ignore", "test")]),
            ],
        ),
        clear: true,
    };
    assert!(cli.path.find(&[".tree_ignore"]).is_some());
    assert!(cli.path.find(&["subdir", ".tree_ignore"]).is_some());

    let mut stdout = String::new();
    run_app(&mut cli, &mut stdout).unwrap();
    assert!(stdout.contains("Removed 2 .tree_ignore file(s)"));

    assert!(cli.path.find(&[".tree_ignore"]).is_none());
    assert!(cli.path.find(&["subdir", ".tree_ignore"]).is_none());
}

#[test]
fn test_cli_nonexistent_path() {
    let mut cli =
        Cli { path: Location::missing("/nonexistent/path/that/does/not/exist"), clear: false };
    let mut stdout = String::new();
    let failure = run_app(&mut cli, &mut stdout).unwrap_err();
    assert!(failure.message().contains("does not exist"));
}

#[test]
fn test_cli_file_instead_of_directory() {
    let mut cli = Cli {
        path: Location::holding("/tmp/test_file.txt", Node::file("test_file.txt", "test content")),
        clear: false,
    };
    let mut stdout = String::new();
    let failure = run_app(&mut cli, &mut stdout).unwrap_err();
    assert!(failure.message().contains("is not a directory"));
}

#[test]
fn test_cli_creates_tree_ignore_file() {
    let mut cli = Cli {
        path: Location::directory(
            "/tmp/creating",
            vec![dir("src", vec![Node::file("main.rs", "fn main() {}")])],
        ),
        clear: false,
    };
    assert!(cli.path.find(&[".tree_ignore"]).is_none());

    let mut stdout = String::new();
    run_app(&mut cli, &mut stdout).unwrap();

    let content = &cli.path.find(&[".tree_ignore"]).unwrap().content;
    assert!(content.contains("target"));
    assert!(content.contains("node_modules"));
}

#[test]
fn test_cli_clear_short_flag() {
    let mut cli = Cli {
        path: Location::directory("/tmp/short", vec![Node::file(".tree_ignore", "test")]),
        clear: true,
    };
    let mut stdout = String::new();
    run_app(&mut cli, &mut stdout).unwrap();
    assert!(stdout.contains("Removed 1 .tree_ignore file(s)"));
}

#[test]
fn test_clear_with_no_ignore_files() {
    let mut cli = Cli {
        path: Location::directory(
            "/tmp/none",
            vec![
                dir("src", vec![Node::file("main.rs", "fn main() {}")]),
                Node::file("Cargo.toml", "[package]\nname = \"test\""),
            ],
        ),
        clear: true,
    };
    let mut stdout = String::new();
    run_app(&mut cli, &mut stdout).unwrap();
    assert!(stdout.contains("Removed 0 .tree_ignore file(s)"));
}

#[test]
fn test_print_with_no_existing_ignore_file() {
    let mut cli = Cli {
        path: Location::directory(
            "/tmp/printing",
            vec![dir("src", vec![Node::file("lib.rs", "// library code")])],
        ),
        clear: false,
    };
    let mut stdout = String::new();
    run_app(&mut cli, &mut stdout).unwrap();
    assert!(stdout.contains("src/"));
    assert!(stdout.contains("lib.rs"));
    assert!(cli.path.find(&[".tree_ignore"]).is_some());
}

#[test]
fn the_command_line_refuses_with_its_own_words() {
    let mut missing = Location::missing("/nonexistent/path/that/does/not/exist");
    assert_eq!(
        clear_at(&mut missing),
        Err(TreeError::Other(
            "Path '/nonexistent/path/that/does/not/exist' does not exist".to_string()
        ))
    );
    assert_eq!(missing, Location::missing("/nonexistent/path/that/does/not/exist"));

    let a_file = || Location::holding("/tmp/test_file.txt", Node::file("test_file.txt", "test content"));
    let mut path = a_file();
    assert_eq!(
        clear_at(&mut path),
        Err(TreeError::Other("Path '/tmp/test_file.txt' is not a directory".to_string()))
    );
    assert_eq!(path, a_file());

    for clear in [false, true] {
        let mut cli = Cli { path: a_file(), clear };
        let mut out = String::new();
        assert_eq!(
            run_app(&mut cli, &mut out),
            Err(TreeError::Other("Path '/tmp/test_file.txt' is not a directory".to_string()))
        );
        assert_eq!(out, "");
        assert_eq!(cli.path, a_file());

        let mut cli = Cli { path: Location::missing("/gone"), clear };
        assert_eq!(
            run_app(&mut cli, &mut out),
            Err(TreeError::Other("Path '/gone' does not exist".to_string()))
        );
        assert_eq!(out, "");
    }

    assert_eq!(check_path(&Location::directory("/d", vec![])), Ok(()));
    // The library's own operations keep their wording.
    assert_eq!(
        tree::clear(&mut Location::missing("/gone")).unwrap_err().message(),
        "Path `/gone` does not exist"
    );
}

#[test]
fn a_failed_clearing_reports_nothing() {
    let mut cli = Cli {
        path: Location::directory(
            "/r",
            vec![Node::file(".tree_ignore", "").refusing_access()],
        ),
        clear: true,
    };
    let mut out = String::new();
    let result = run_app(&mut cli, &mut out);
    assert_eq!(result, Err(TreeError::Io("Failed to remove /r/.tree_ignore".to_string())));
    assert_eq!(out, "");
}

#[test]
fn numbers_are_written_in_decimal() {
    assert_eq!(decimal(0), "0");
    assert_eq!(decimal(7), "7");
    assert_eq!(decimal(10), "10");
    assert_eq!(decimal(1203), "1203");
    assert_eq!(decimal(u64::MAX), "18446744073709551615");
}

#[test]
fn the_report_names_the_count_and_the_file() {
    assert_eq!(removal_line(0), "Removed 0 .tree_ignore file(s)\n");
    assert_eq!(removal_line(12), "Removed 12 .tree_ignore file(s)\n");
}
