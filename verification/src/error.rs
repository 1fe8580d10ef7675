//! What can go wrong, the exit code each failure maps to, and how each is
//! described to the user.

use vstd::prelude::*;

use crate::text::{chars_of, decimal, decimal_of, push_all, string_of};

verus! {

/// `std::io::Error`, carried as the cause of an I/O failure.
#[verifier::external_type_specification]
#[verifier::external_body]
pub struct ExIoError(std::io::Error);

/// `cargo_metadata::Error`, carried as the cause of a failed
/// `cargo metadata` run.
#[verifier::external_type_specification]
#[verifier::external_body]
pub struct ExMetadataError(cargo_metadata::Error);

/// A failure of the tool. Paths are relative to the workspace root where
/// they name a sandbox file.
#[derive(Debug)]
pub enum ToolError {
    Dirty,
    NoVcs,
    NotARustProject { cause: cargo_metadata::Error },
    CopySandbox { cause: std::io::Error },
    SandboxMetadata { cause: cargo_metadata::Error },
    ReadSource { path: String, cause: std::io::Error },
    WriteSource { path: String, cause: std::io::Error },
    ParseSource { path: String, cause: syn::Error },
    CargoCheck { cause: std::io::Error },
    ParseCargoMessage { cause: std::io::Error },
    UnableToRestore { max_attempts: usize, unresolved: Vec<String> },
    RestoreNoProgress { unresolved: Vec<String> },
}

/// The text of an I/O error, as its `Display` impl writes it (`to_string`).
/// It may come from the operating system, so nothing is stated of it.
#[verifier::external_body]
fn io_error_text(e: &std::io::Error) -> (r: String) {
    e.to_string()
}

/// The text of a `cargo_metadata::Error`, as its `Display` impl writes it
/// (`to_string`). It embeds what `cargo` printed or an I/O error, so nothing
/// is stated of it.
#[verifier::external_body]
fn metadata_error_text(e: &cargo_metadata::Error) -> (r: String) {
    e.to_string()
}

/// The text of a `syn::Error`, as its `Display` impl writes it
/// (`to_string`): the message of its first error. The error is opaque here,
/// so nothing is stated of the text.
#[verifier::external_body]
fn syn_error_text(e: &syn::Error) -> (r: String) {
    e.to_string()
}

/// One line per unresolved diagnostic: two spaces, a dash, a space, the
/// message and a newline.
pub open spec fn bullet_lines(msgs: Seq<Seq<char>>) -> Seq<char>
    decreases msgs.len(),
{
    if msgs.len() == 0 {
        Seq::empty()
    } else {
        bullet_lines(msgs.drop_last()) + "  - "@ + msgs.last() + "\n"@
    }
}

/// The unresolved diagnostics under a head line that counts them; nothing
/// when there are none.
pub open spec fn unresolved_block(what: Seq<char>, msgs: Seq<Seq<char>>) -> Seq<char> {
    if msgs.len() == 0 {
        Seq::empty()
    } else {
        decimal(msgs.len()) + " diagnostic(s) "@ + what + "\n"@ + bullet_lines(msgs)
    }
}

/// The messages of unresolved diagnostics, as characters.
pub open spec fn msg_views(msgs: Seq<String>) -> Seq<Seq<char>> {
    msgs.map_values(|s: String| s@)
}

fn push_str(out: &mut Vec<char>, s: &str)
    ensures
        final(out)@ == old(out)@ + s@,
{
    let cs = chars_of(s);
    push_all(out, cs.as_slice());
}

fn push_unresolved_block(out: &mut Vec<char>, what: &str, msgs: &Vec<String>)
    ensures
        final(out)@ == old(out)@ + unresolved_block(what@, msg_views(msgs@)),
{
    if msgs.len() == 0 {
        assert(old(out)@ + unresolved_block(what@, msg_views(msgs@)) =~= old(out)@);
        return;
    }
    let ghost start = out@;
    let count = decimal_of(msgs.len());
    push_all(out, count.as_slice());
    push_str(out, " diagnostic(s) ");
    push_str(out, what);
    push_str(out, "\n");
    let ghost head = out@;
    let mut k: usize = 0;
    assert(msg_views(msgs@).take(0) =~= Seq::<Seq<char>>::empty());
    assert(head =~= head + bullet_lines(msg_views(msgs@).take(0)));
    while k < msgs.len()
        invariant
            k <= msgs@.len(),
            out@ == head + bullet_lines(msg_views(msgs@).take(k as int)),
        decreases msgs@.len() - k,
    {
        push_str(out, "  - ");
        push_str(out, msgs[k].as_str());
        push_str(out, "\n");
        proof {
            let t = msg_views(msgs@).take(k as int + 1);
            assert(t.drop_last() =~= msg_views(msgs@).take(k as int));
            assert(t.last() == msgs@[k as int]@);
            assert(out@ =~= head + bullet_lines(t));
        }
        k = k + 1;
    }
    proof {
        assert(msg_views(msgs@).take(msgs@.len() as int) =~= msg_views(msgs@));
        assert(out@ =~= start + unresolved_block(what@, msg_views(msgs@)));
    }
}

impl ToolError {
    /// 2 when the tool refused to start (the working tree is dirty or not
    /// under version control, or there is no Rust project), 1 otherwise.
    pub fn exit_code(&self) -> (r: i32)
        ensures
            r == (match self {
                ToolError::Dirty | ToolError::NoVcs | ToolError::NotARustProject { .. } => 2i32,
                _ => 1i32,
            }),
    {
        match self {
            ToolError::Dirty | ToolError::NoVcs | ToolError::NotARustProject { .. } => 2,
            _ => 1,
        }
    }

    /// What the error says to the user. Where the error has a cause, the
    /// cause's own text stands at the marked place.
    pub fn describe(&self) -> (r: String)
        ensures
            match self {
                ToolError::Dirty => r@
                    == "the working directory of this package has uncommitted changes; if you'd like to suppress this error pass `--allow-dirty`, or commit your changes"@,
                ToolError::NoVcs => r@
                    == "you are not in a git repository; if you'd like to suppress this error pass `--allow-no-vcs`"@,
                ToolError::NotARustProject { .. } => exists|c: Seq<char>|
                    r@
                        == "could not read cargo metadata from the current directory; is this a Rust project? ("@
                        + c + ")"@,
                ToolError::CopySandbox { .. } => exists|c: Seq<char>|
                    r@ == "failed to copy the project into a sandbox: "@ + c,
                ToolError::SandboxMetadata { .. } => exists|c: Seq<char>|
                    r@ == "failed to read cargo metadata from the sandbox copy: "@ + c,
                ToolError::ReadSource { path, .. } => exists|c: Seq<char>|
                    r@ == "failed to read "@ + path@ + ": "@ + c,
                ToolError::WriteSource { path, .. } => exists|c: Seq<char>|
                    r@ == "failed to write "@ + path@ + ": "@ + c,
                ToolError::ParseSource { path, .. } => exists|c: Seq<char>|
                    r@ == "failed to parse "@ + path@ + ": "@ + c,
                ToolError::CargoCheck { .. } => exists|c: Seq<char>|
                    r@ == "failed to run `cargo check`: "@ + c,
                ToolError::ParseCargoMessage { .. } => exists|c: Seq<char>|
                    r@ == "failed to parse cargo message output: "@ + c,
                ToolError::UnableToRestore { max_attempts, unresolved } => r@
                    == "unable to restore the touched files; max restore attempts exceeded ("@
                    + decimal(*max_attempts as nat) + ")\n"@ + unresolved_block(
                    "from the last attempt could not be resolved:"@,
                    msg_views(unresolved@),
                ),
                ToolError::RestoreNoProgress { unresolved } => r@
                    == "unable to restore the touched files; no derives could be restored for the reported diagnostics, so re-running `cargo check` would produce the same output\n"@
                    + unresolved_block("could not be resolved:"@, msg_views(unresolved@)),
            },
    {
        match self {
            ToolError::Dirty => {
                "the working directory of this package has uncommitted changes; if you'd like to suppress this error pass `--allow-dirty`, or commit your changes".to_owned()
            },
            ToolError::NoVcs => {
                "you are not in a git repository; if you'd like to suppress this error pass `--allow-no-vcs`".to_owned()
            },
            ToolError::NotARustProject { cause } => {
                let mut out: Vec<char> = Vec::new();
                push_str(
                    &mut out,
                    "could not read cargo metadata from the current directory; is this a Rust project? (",
                );
                let c = metadata_error_text(cause);
                push_str(&mut out, c.as_str());
                push_str(&mut out, ")");
                let r = string_of(out.as_slice());
                assert(r@ =~= "could not read cargo metadata from the current directory; is this a Rust project? ("@
                    + c@ + ")"@);
                r
            },
            ToolError::CopySandbox { cause } => {
                let mut out = chars_of("failed to copy the project into a sandbox: ");
                let c = io_error_text(cause);
                push_str(&mut out, c.as_str());
                string_of(out.as_slice())
            },
            ToolError::SandboxMetadata { cause } => {
                let mut out = chars_of("failed to read cargo metadata from the sandbox copy: ");
                let c = metadata_error_text(cause);
                push_str(&mut out, c.as_str());
                string_of(out.as_slice())
            },
            ToolError::ReadSource { path, cause } => {
                let mut out = chars_of("failed to read ");
                push_str(&mut out, path.as_str());
                push_str(&mut out, ": ");
                let c = io_error_text(cause);
                push_str(&mut out, c.as_str());
                let r = string_of(out.as_slice());
                assert(r@ =~= "failed to read "@ + path@ + ": "@ + c@);
                r
            },
            ToolError::WriteSource { path, cause } => {
                let mut out = chars_of("failed to write ");
                push_str(&mut out, path.as_str());
                push_str(&mut out, ": ");
                let c = io_error_text(cause);
                push_str(&mut out, c.as_str());
                let r = string_of(out.as_slice());
                assert(r@ =~= "failed to write "@ + path@ + ": "@ + c@);
                r
            },
            ToolError::ParseSource { path, cause } => {
                let mut out = chars_of("failed to parse ");
                push_str(&mut out, path.as_str());
                push_str(&mut out, ": ");
                let c = syn_error_text(cause);
                push_str(&mut out, c.as_str());
                let r = string_of(out.as_slice());
                assert(r@ =~= "failed to parse "@ + path@ + ": "@ + c@);
                r
            },
            ToolError::CargoCheck { cause } => {
                let mut out = chars_of("failed to run `cargo check`: ");
                let c = io_error_text(cause);
                push_str(&mut out, c.as_str());
                string_of(out.as_slice())
            },
            ToolError::ParseCargoMessage { cause } => {
                let mut out = chars_of("failed to parse cargo message output: ");
                let c = io_error_text(cause);
                push_str(&mut out, c.as_str());
                string_of(out.as_slice())
            },
            ToolError::UnableToRestore { max_attempts, unresolved } => {
                let mut out = chars_of(
                    "unable to restore the touched files; max restore attempts exceeded (",
                );
                let n = decimal_of(*max_attempts);
                push_all(&mut out, n.as_slice());
                push_str(&mut out, ")\n");
                push_unresolved_block(
                    &mut out,
                    "from the last attempt could not be resolved:",
                    unresolved,
                );
                let r = string_of(out.as_slice());
                assert(r@ =~= "unable to restore the touched files; max restore attempts exceeded ("@
                    + decimal(*max_attempts as nat) + ")\n"@ + unresolved_block(
                    "from the last attempt could not be resolved:"@,
                    msg_views(unresolved@),
                ));
                r
            },
            ToolError::RestoreNoProgress { unresolved } => {
                let mut out = chars_of(
                    "unable to restore the touched files; no derives could be restored for the reported diagnostics, so re-running `cargo check` would produce the same output\n",
                );
                push_unresolved_block(&mut out, "could not be resolved:", unresolved);
                string_of(out.as_slice())
            },
        }
    }
}

} // verus!
