use code_blocks::error::{Error, InstallStage, InstallationError};
use code_blocks::installer::{
    get_compiled_lib_path, running_line, disable_language_fn_mangle, install_language, install_parser, installation_error, join_lines,
    mark_each, split_command, InstallLanguageArgs, InstallStep, InstallationStatus,
    ParserInstaller, SupportedLanguage, SupportedParser, BUILD_CMD,
};

fn installer(download_cmd: &str, symbol: &[u8], name: &str) -> ParserInstaller {
    ParserInstaller {
        download_cmd: download_cmd.to_string(),
        symbol: symbol.to_vec(),
        name: name.to_string(),
    }
}

#[test]
fn each_supported_parser_has_its_installer() {
    assert_eq!(
        SupportedParser::Rust.get_installer(),
        installer(
            "git clone https://github.com/tree-sitter/tree-sitter-rust",
            b"language",
            "tree_sitter_rust"
        )
    );
    assert_eq!(
        SupportedParser::TypeScript.get_installer(),
        installer(
            "git clone https://github.com/tree-sitter/tree-sitter-typescript",
            b"language_typescript",
            "tree_sitter_typescript"
        )
    );
    assert_eq!(
        SupportedParser::TSX.get_installer(),
        installer(
            "git clone https://github.com/tree-sitter/tree-sitter-typescript",
            b"language_tsx",
            "tree_sitter_typescript"
        )
    );
    assert_eq!(
        SupportedParser::Svelte.get_installer(),
        installer(
            "git clone https://github.com/Himujjal/tree-sitter-svelte",
            b"language",
            "tree_sitter_svelte"
        )
    );
    assert_eq!(
        SupportedParser::Python.get_installer(),
        installer(
            "git clone https://github.com/tree-sitter/tree-sitter-python",
            b"language",
            "tree_sitter_python"
        )
    );
    assert_eq!(
        SupportedLanguage::Rust.get_installer(),
        SupportedParser::Rust.get_installer()
    );
}

#[test]
fn command_is_split_at_runs_of_spaces() {
    assert_eq!(
        split_command("git clone https://example.org/repo"),
        vec!["git", "clone", "https://example.org/repo"]
    );
    assert_eq!(
        split_command("  a\t\tb\nc\r\n d\x0Ce  "),
        vec!["a", "b", "c", "d", "e"]
    );
    assert_eq!(split_command("one"), vec!["one"]);
    assert_eq!(split_command(""), Vec::<String>::new());
    assert_eq!(split_command(" \t\n"), Vec::<String>::new());
    // Only the five separators of a command line split; other blanks do not.
    assert_eq!(split_command("a\u{a0}b é"), vec!["a\u{a0}b", "é"]);
}

fn words(all: &[&str]) -> Vec<String> {
    all.iter().map(|word| word.to_string()).collect()
}

fn plan_for(download_cmd: &str) -> Vec<InstallStep> {
    let command = words(&download_cmd.split_ascii_whitespace().collect::<Vec<_>>());
    vec![
        InstallStep::Report(InstallationStatus::Downloading("Start".to_string())),
        InstallStep::Download {
            program: command[0].clone(),
            arguments: command[1..].to_vec(),
        },
        InstallStep::Report(InstallationStatus::Downloading("Done".to_string())),
        InstallStep::Report(InstallationStatus::Patching),
        InstallStep::Patch,
        InstallStep::Report(InstallationStatus::Compiling("Start".to_string())),
        InstallStep::Compile {
            program: "cargo".to_string(),
            arguments: words(&["rustc", "--crate-type=dylib", "--release"]),
        },
    ]
}

#[test]
fn installation_fetches_patches_and_compiles() {
    let command = "git clone https://github.com/tree-sitter/tree-sitter-rust";
    let plan = install_parser(command);
    assert_eq!(plan, plan_for(command));
    assert_eq!(
        plan[1],
        InstallStep::Download {
            program: "git".to_string(),
            arguments: words(&["clone", "https://github.com/tree-sitter/tree-sitter-rust"]),
        }
    );
    assert_eq!(BUILD_CMD, "cargo rustc --crate-type=dylib --release");
}

#[test]
fn installation_without_a_command_fails_after_its_announcement() {
    assert_eq!(
        install_parser("   "),
        vec![
            InstallStep::Report(InstallationStatus::Downloading("Start".to_string())),
            InstallStep::Fail("got empty download command".to_string()),
        ]
    );
}

#[test]
fn installed_language_needs_no_step() {
    let args = InstallLanguageArgs {
        download_cmd: "git clone https://github.com/tree-sitter/tree-sitter-rust".to_string(),
        library_name: "tree_sitter_rust".to_string(),
        install_dir: "path_to_install_dir".to_string(),
    };
    assert_eq!(install_language(&args, true), vec![]);
    assert_eq!(install_language(&args, false), plan_for(&args.download_cmd));
}

#[test]
fn entry_function_is_marked_for_export() {
    let source = "use tree_sitter::Language;\n\npub fn language() -> Language {\n    unsafe { tree_sitter_rust() }\n}\n";
    assert_eq!(
        disable_language_fn_mangle(source),
        "use tree_sitter::Language;\n\n#[no_mangle]\npub fn language() -> Language {\n    unsafe { tree_sitter_rust() }\n}\n"
    );
    assert_eq!(
        disable_language_fn_mangle("pub fn language_typescript() {}\npub fn language_tsx() {}"),
        "#[no_mangle]\npub fn language_typescript() {}\n#[no_mangle]\npub fn language_tsx() {}"
    );
    assert_eq!(disable_language_fn_mangle("pub fn other() {}"), "pub fn other() {}");
    assert_eq!(disable_language_fn_mangle(""), "");
    assert_eq!(disable_language_fn_mangle("pub fn languag"), "pub fn languag");
    assert_eq!(
        disable_language_fn_mangle("é pub fn language"),
        "é #[no_mangle]\npub fn language"
    );
}

#[test]
fn marks_go_before_each_place_found_from_the_left() {
    assert_eq!(mark_each("aaaa", "aa", "-"), "-aa-aa");
    assert_eq!(mark_each("aaa", "aa", "-"), "-aaa");
    assert_eq!(mark_each("abc", "", "-"), "abc");
    assert_eq!(mark_each("abcabc", "bc", ""), "abcabc");
    assert_eq!(mark_each("xbcx", "bc", "[]"), "x[]bcx");
}

#[test]
fn failed_installation_keeps_stage_and_output() {
    let lines = words(&["Cloning into 'x'...", "fatal: repository not found", ""]);
    assert_eq!(
        join_lines(&lines),
        "Cloning into 'x'...\nfatal: repository not found\n"
    );
    assert_eq!(join_lines(&words(&["one"])), "one");
    assert_eq!(join_lines(&vec![]), "");
    assert_eq!(
        installation_error(InstallStage::Download, &lines),
        Error::InstallationError(InstallationError {
            stage: InstallStage::Download,
            output: "Cloning into 'x'...\nfatal: repository not found\n".to_string(),
        })
    );
    assert_eq!(
        installation_error(InstallStage::Compile, &vec![]),
        Error::InstallationError(InstallationError {
            stage: InstallStage::Compile,
            output: String::new(),
        })
    );
}

#[test]
fn fetching_command_is_announced_with_its_directory() {
    assert_eq!(
        running_line("git clone https://example.org/repo", "/tmp/grammar"),
        "Running command 'git clone https://example.org/repo /tmp/grammar'"
    );
    assert_eq!(running_line("", ""), "Running command ' '");
}

#[test]
fn compiled_library_lies_in_the_release_directory() {
    assert_eq!(
        get_compiled_lib_path("tree_sitter_rust", "lib", ".so"),
        vec!["target", "release", "libtree_sitter_rust.so"]
    );
    assert_eq!(
        get_compiled_lib_path("tree_sitter_rust", "", ".dll"),
        vec!["target", "release", "tree_sitter_rust.dll"]
    );
}
