use cargo_remove_unused_derives::error::ToolError;

fn io(msg: &str) -> std::io::Error {
    std::io::Error::other(msg.to_string())
}

#[test]
fn refusals_exit_with_two() {
    assert_eq!(ToolError::Dirty.exit_code(), 2);
    assert_eq!(ToolError::NoVcs.exit_code(), 2);
    let not_rust = ToolError::NotARustProject { cause: cargo_metadata::Error::Io(io("nope")) };
    assert_eq!(not_rust.exit_code(), 2);
    assert_eq!(ToolError::CargoCheck { cause: io("x") }.exit_code(), 1);
    assert_eq!(ToolError::RestoreNoProgress { unresolved: Vec::new() }.exit_code(), 1);
}

#[test]
fn fixed_messages_read_as_documented() {
    assert_eq!(
        ToolError::Dirty.describe(),
        "the working directory of this package has uncommitted changes; if you'd like to suppress this error pass `--allow-dirty`, or commit your changes"
    );
    assert_eq!(
        ToolError::NoVcs.describe(),
        "you are not in a git repository; if you'd like to suppress this error pass `--allow-no-vcs`"
    );
}

#[test]
fn causes_are_quoted_in_the_message() {
    let read = ToolError::ReadSource { path: "src/a.rs".to_string(), cause: io("denied") };
    assert_eq!(read.describe(), "failed to read src/a.rs: denied");
    let write = ToolError::WriteSource { path: "src/a.rs".to_string(), cause: io("full") };
    assert_eq!(write.describe(), "failed to write src/a.rs: full");
    assert_eq!(ToolError::CopySandbox { cause: io("gone") }.describe(), "failed to copy the project into a sandbox: gone");
    assert_eq!(ToolError::CargoCheck { cause: io("no cargo") }.describe(), "failed to run `cargo check`: no cargo");
    assert_eq!(
        ToolError::ParseCargoMessage { cause: io("bad json") }.describe(),
        "failed to parse cargo message output: bad json"
    );
    let meta = ToolError::SandboxMetadata { cause: cargo_metadata::Error::Io(io("boom")) };
    assert!(meta.describe().starts_with("failed to read cargo metadata from the sandbox copy: "));
    assert!(meta.describe().contains("boom"));
    let not_rust = ToolError::NotARustProject { cause: cargo_metadata::Error::Io(io("boom")) };
    assert!(not_rust.describe().starts_with(
        "could not read cargo metadata from the current directory; is this a Rust project? ("
    ));
    assert!(not_rust.describe().ends_with(")"));
    let parse = ToolError::ParseSource {
        path: "src/b.rs".to_string(),
        cause: syn::Error::new(proc_macro2::Span::call_site(), "expected identifier"),
    };
    assert_eq!(parse.describe(), "failed to parse src/b.rs: expected identifier");
}

#[test]
fn restore_failures_list_what_was_left() {
    let none = ToolError::UnableToRestore { max_attempts: 64, unresolved: Vec::new() };
    assert_eq!(none.describe(), "unable to restore the touched files; max restore attempts exceeded (64)\n");
    let some = ToolError::UnableToRestore {
        max_attempts: 64,
        unresolved: vec!["a".to_string(), "b".to_string()],
    };
    assert_eq!(
        some.describe(),
        "unable to restore the touched files; max restore attempts exceeded (64)\n2 diagnostic(s) from the last attempt could not be resolved:\n  - a\n  - b\n"
    );
    let stuck = ToolError::RestoreNoProgress { unresolved: vec!["c".to_string()] };
    assert_eq!(
        stuck.describe(),
        "unable to restore the touched files; no derives could be restored for the reported diagnostics, so re-running `cargo check` would produce the same output\n1 diagnostic(s) could not be resolved:\n  - c\n"
    );
}
