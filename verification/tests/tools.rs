use noya::tools::filesystem::{
    check_within, git_diff_arguments, is_within, read_range, workspace_path,
};
use noya::tools::lsp::{
    bounded_results, fallback_results, language_for_path, languages_for_workspace, location_item,
    location_path, message_header, path_to_uri, read_header_line, server_command, uri_to_path,
    HeaderLine, NavigationItem, Operation,
};
use noya::tools::patch::{apply_edits, Edit};
use noya::tools::{ToolApprovalMode, ToolPolicy, ToolRegistry, ToolRisk};

fn edit(old_text: &str, new_text: &str) -> Edit {
    Edit {
        old_text: Some(old_text.to_string()),
        new_text: Some(new_text.to_string()),
    }
}

fn refused(original: &str, edits: Vec<Edit>) -> String {
    apply_edits(original, &edits).unwrap_err().message
}

#[test]
fn default_policy_requires_approval_for_mutating_tools() {
    let registry = ToolRegistry::coding_defaults();

    assert_eq!(registry.requires_approval("read_file"), Some(false));
    assert_eq!(registry.requires_approval("list_dir"), Some(false));
    assert_eq!(registry.requires_approval("search_text"), Some(false));
    assert_eq!(registry.requires_approval("code_navigation"), Some(false));
    assert_eq!(registry.requires_approval("apply_patch"), Some(true));
    assert_eq!(registry.requires_approval("git_status"), Some(false));
    assert_eq!(registry.requires_approval("git_diff"), Some(false));
    assert_eq!(registry.requires_approval("write_file"), Some(true));
    assert_eq!(registry.requires_approval("run_command"), Some(true));
    assert_eq!(registry.requires_approval("no_such_tool"), None);
}

#[test]
fn policy_can_disable_approval_and_block_tools() {
    let policy = ToolPolicy {
        approval_mode: ToolApprovalMode::Never,
        blocked_tools: vec!["run_command".to_string()],
    };
    let registry = ToolRegistry::coding_defaults().with_policy(policy);

    assert_eq!(registry.requires_approval("write_file"), Some(false));
    assert!(registry.is_blocked("run_command"));
    assert!(!registry.is_blocked("write_file"));
    assert_eq!(registry.policy().approval_mode, ToolApprovalMode::Never);
}

#[test]
fn every_mode_has_its_rule() {
    for (mode, name, expected) in [
        (ToolApprovalMode::Never, "never", [false, false, false]),
        (ToolApprovalMode::Mutating, "mutating", [false, true, true]),
        (ToolApprovalMode::Always, "always", [true, true, true]),
    ] {
        let policy = ToolPolicy {
            approval_mode: mode,
            blocked_tools: Vec::new(),
        };
        assert_eq!(mode.as_str(), name);
        assert_eq!(
            [
                policy.requires_approval(ToolRisk::ReadOnly),
                policy.requires_approval(ToolRisk::Mutating),
                policy.requires_approval(ToolRisk::Dangerous),
            ],
            expected
        );
    }
    assert_eq!(ToolApprovalMode::default(), ToolApprovalMode::Mutating);
}

#[test]
fn blocked_names_are_trimmed() {
    let policy = ToolPolicy::default().with_blocked_tools(vec![
        " b ".to_string(),
        "".to_string(),
        "a".to_string(),
        "b".to_string(),
    ]);
    assert_eq!(policy.blocked_tools, ["a", "b"]);
    assert!(policy.is_blocked("b"));
    assert!(!policy.is_blocked(" b "));
}

#[test]
fn coding_defaults_publish_the_complete_tool_catalog() {
    let registry = ToolRegistry::coding_defaults();
    let names = registry
        .definitions()
        .into_iter()
        .map(|definition| definition.function.name)
        .collect::<Vec<_>>();

    assert_eq!(
        names,
        [
            "read_file",
            "list_dir",
            "search_text",
            "code_navigation",
            "apply_patch",
            "write_file",
            "git_status",
            "git_diff",
            "run_command",
        ]
    );
}

#[test]
fn every_tool_describes_its_arguments_in_json() {
    for definition in ToolRegistry::coding_defaults().definitions() {
        let value: serde_json::Value =
            serde_json::from_str(&definition.function.parameters).unwrap();
        assert_eq!(value["type"], "object");
        assert_eq!(definition.tool_type, "function");
        assert!(!definition.function.description.is_empty());
    }
}

#[test]
fn read_file_returns_a_line_range_with_pagination_metadata() {
    let range = read_range("one\ntwo\nthree\nfour", 1, Some(2)).unwrap();
    assert_eq!(range.content, "two\nthree\n");
    assert_eq!(range.returned_lines, 2);
    assert_eq!(range.total_lines, 4);
    assert_eq!(range.next_offset, Some(3));
    assert!(range.truncated);
}

#[test]
fn a_range_may_reach_the_end() {
    let whole = read_range("one\ntwo", 0, None).unwrap();
    assert_eq!(whole.content, "one\ntwo");
    assert_eq!(whole.next_offset, None);
    assert!(!whole.truncated);
    let past = read_range("one\ntwo", 9, None).unwrap();
    assert_eq!(past.content, "");
    assert_eq!(past.returned_lines, 0);
    assert_eq!(
        read_range("one", 0, Some(0)).unwrap_err().message,
        "limit must be greater than zero"
    );
}

#[test]
fn workspace_path_rejects_symlinks_that_escape_the_workspace() {
    let error = check_within("/elsewhere", "/workspace", "outside/file.txt")
        .unwrap_err()
        .message;

    assert!(error.contains("outside workspace"));
}

#[test]
fn workspace_path_rejects_parent_directory_traversal() {
    let error = workspace_path("/workspace", "../outside.txt")
        .unwrap_err()
        .message;

    assert!(error.contains("outside workspace"));
}

#[test]
fn paths_stay_inside() {
    assert_eq!(
        workspace_path("/workspace", "src/a.rs").unwrap(),
        "/workspace/src/a.rs"
    );
    assert!(workspace_path("/workspace", "/etc/passwd").is_err());
    assert!(workspace_path("/workspace", "a/../../b").is_err());
    assert!(is_within("/workspace/a", "/workspace"));
    assert!(is_within("/workspace", "/workspace"));
    assert!(!is_within("/workspaces", "/workspace"));
    assert!(check_within("/workspace/a", "/workspace", "a").is_ok());
}

#[test]
fn a_diff_is_asked_for() {
    assert_eq!(
        git_diff_arguments(true, Some("a".to_string())),
        ["diff", "--no-ext-diff", "--cached", "--", "a"]
    );
    assert_eq!(
        git_diff_arguments(false, None),
        ["diff", "--no-ext-diff", "--"]
    );
}

#[test]
fn applies_multiple_exact_edits_atomically() {
    let edits = vec![edit("alpha", "first"), edit("gamma", "third")];
    assert_eq!(
        apply_edits("alpha\nbeta\ngamma\n", &edits).unwrap(),
        "first\nbeta\nthird\n"
    );
}

#[test]
fn ambiguous_or_missing_context_leaves_the_file_unchanged() {
    let error = refused(
        "same\nsame\nlast\n",
        vec![edit("last", "changed"), edit("same", "duplicate")],
    );
    assert!(error.contains("matched 2 times"));
}

#[test]
fn bad_edits_are_refused() {
    assert_eq!(refused("a", Vec::new()), "edits must not be empty");
    assert_eq!(
        refused("a", vec![edit("", "x")]),
        "edits[0].old_text must not be empty"
    );
    assert_eq!(
        refused("a", vec![edit("a", "b"), edit("b", "b")]),
        "edits[1] does not change the file"
    );
    assert_eq!(
        refused("a", vec![edit("z", "b")]),
        "edits[0] context was not found; file was not changed"
    );
    assert_eq!(apply_edits("aaa", &vec![edit("aa", "b")]).unwrap(), "ba");
    assert_eq!(
        refused(
            "a",
            vec![Edit {
                old_text: None,
                new_text: None
            }]
        ),
        "edits[0].old_text must be a string"
    );
    assert_eq!(
        refused(
            "a",
            vec![Edit {
                old_text: Some("a".to_string()),
                new_text: None
            }]
        ),
        "edits[0].new_text must be a string"
    );
}

#[test]
fn maps_supported_extensions_to_languages() {
    assert_eq!(language_for_path("src/main.rs"), Some("rust"));
    assert_eq!(language_for_path("src/main.ts"), Some("typescript"));
    assert_eq!(language_for_path("src/Main.java"), Some("java"));
    assert_eq!(language_for_path("README.md"), None);
}

#[test]
fn extensions_are_read_as_paths_are() {
    assert_eq!(language_for_path(".rs"), None);
    assert_eq!(language_for_path("a.rs/"), Some("rust"));
    assert_eq!(language_for_path("a.tar.go"), Some("go"));
    assert_eq!(language_for_path(""), None);
}

#[test]
fn a_workspace_lists_its_languages_once() {
    let paths = vec![
        "b.rs".to_string(),
        "a.py".to_string(),
        "c.rs".to_string(),
        "x".to_string(),
    ];
    assert_eq!(languages_for_workspace(&paths), ["rust", "python"]);
}

#[test]
fn result_is_bounded_and_sorted() {
    let results: Vec<NavigationItem> = (0..150)
        .rev()
        .map(|line| NavigationItem {
            path: format!("z/{line}"),
            line,
            json: String::new(),
        })
        .collect();
    let page = bounded_results(&results);
    assert_eq!(page.returned, 100);
    assert!(page.truncated);
    assert_eq!(page.total, 150);
    assert!(page
        .results
        .windows(2)
        .all(|pair| (&pair[0].path, pair[0].line) <= (&pair[1].path, pair[1].line)));
    assert_eq!(page.results[0].path, "z/0");
}

#[test]
fn operations_are_named() {
    for (operation, name, method) in [
        (
            Operation::Definition,
            "definition",
            "textDocument/definition",
        ),
        (
            Operation::References,
            "references",
            "textDocument/references",
        ),
        (
            Operation::WorkspaceSymbols,
            "workspace_symbols",
            "workspace/symbol",
        ),
    ] {
        assert_eq!(Operation::parse(name).unwrap(), operation);
        assert_eq!(operation.as_str(), name);
        assert_eq!(operation.method(), method);
    }
    assert_eq!(
        Operation::parse("rename").unwrap_err().message,
        "operation must be definition, references, or workspace_symbols"
    );
}

#[test]
fn servers_are_chosen() {
    let server = server_command("python", None).unwrap();
    assert_eq!(server.program, "pyright-langserver");
    assert_eq!(server.args, ["--stdio"]);
    let own = server_command("python", Some("pylsp -v  --check".to_string())).unwrap();
    assert_eq!(own.program, "pylsp");
    assert_eq!(own.args, ["-v", "--check"]);
    assert_eq!(
        server_command("cobol", None).unwrap_err().message,
        "unsupported language: cobol"
    );
}

#[test]
fn paths_become_addresses() {
    assert_eq!(path_to_uri("/a/b.rs"), "file:///a/b.rs");
    assert_eq!(
        uri_to_path("file:///a%20b/c%23d"),
        Some("/a b/c#d".to_string())
    );
    assert_eq!(uri_to_path("http://x"), None);
    assert_eq!(
        location_path("/workspace", "file:///workspace/a.rs"),
        Some("/workspace/a.rs".to_string())
    );
    assert_eq!(location_path("/workspace", "file:///other/a.rs"), None);
}

#[test]
fn messages_are_framed() {
    assert_eq!(message_header(12), "Content-Length: 12\r\n\r\n");
    assert_eq!(
        read_header_line("Content-Length: 12\r\n").unwrap(),
        HeaderLine::Length(12)
    );
    assert_eq!(read_header_line("\r\n").unwrap(), HeaderLine::End);
    assert_eq!(
        read_header_line("Content-Type: x\r\n").unwrap(),
        HeaderLine::Other
    );
    assert!(read_header_line("Content-Length: x\r\n").is_err());
}

#[test]
fn a_place_is_told_in_json() {
    let item = location_item(
        "/workspace",
        "/workspace/src/a.rs",
        1,
        2,
        Some("one\n  two\"\n".to_string()),
        None,
    );
    assert_eq!(item.path, "src/a.rs");
    let value: serde_json::Value = serde_json::from_str(&item.json).unwrap();
    assert_eq!(value["path"], "src/a.rs");
    assert_eq!(value["line"], 2);
    assert_eq!(value["character"], 3);
    assert!(item.json.contains("two\\\""));
}

#[test]
fn matches_are_read_from_a_search() {
    let page = fallback_results("b.rs:2:fn b\na.rs:10:fn a\n");
    assert_eq!(page.total, 2);
    assert_eq!(page.results[0].path, "b.rs");
    assert_eq!(page.results[1].line, 10);
    assert!(!page.truncated);
}

#[test]
fn paths_are_compared_by_their_parts() {
    for (a, b) in [
        ("/w", "/w/"),
        ("/w/x", "//w/./x/."),
        ("a/b", "a//b/"),
        ("./a", "./a/."),
        ("", ""),
        ("/", "/."),
    ] {
        assert!(noya::paths::is_same_path(a, b));
        assert_eq!(std::path::Path::new(a), std::path::Path::new(b));
    }
    for (a, b) in [("/w", "w"), ("./a", "a"), ("/w/..", "/"), ("/w", "/W"), (".", ""), ("/a", "/a/b")] {
        assert!(!noya::paths::is_same_path(a, b));
        assert_ne!(std::path::Path::new(a), std::path::Path::new(b));
    }
}
