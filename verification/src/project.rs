//! Which files of the project take part: what is copied into the sandbox,
//! which packages and `.rs` files are stripped, and when the tool may write
//! back into the working tree.

use vstd::prelude::*;

use crate::check::{strip_root, stripped_path};
use crate::error::ToolError;
use crate::items::strs;
use crate::path::{
    components, cur_dir_component, parent_dir_component, path_components, paths_equal,
    root_component, same_path,
};
use crate::text::{chars_of, same_chars, views};

verus! {

broadcast use {vstd::string::group_string_axioms, vstd::slice::group_slice_axioms};

/// A path component that is never copied to the sandbox: build output and
/// the repository's own data.
pub open spec fn always_excluded_component(c: Seq<char>) -> bool {
    c == "target"@ || c == ".git"@
}

/// Some component of `rel` is never copied to the sandbox.
pub open spec fn excluded(rel: Seq<char>) -> bool {
    exists|k: int|
        0 <= k < path_components(rel).len() && always_excluded_component(
            #[trigger] path_components(rel)[k],
        )
}

/// A component of `rel` is `target` or `.git`.
pub fn is_always_excluded(rel: &str) -> (r: bool)
    ensures
        r == excluded(rel@),
{
    let chars = chars_of(rel);
    let cs = components(chars.as_slice());
    let target = chars_of("target");
    let git = chars_of(".git");
    let ghost pc = path_components(rel@);
    let mut k: usize = 0;
    while k < cs.len()
        invariant
            views(cs@) == pc,
            pc == path_components(rel@),
            target@ == "target"@,
            git@ == ".git"@,
            k <= cs@.len(),
            forall|m: int| 0 <= m < k ==> !always_excluded_component(#[trigger] pc[m]),
        decreases cs@.len() - k,
    {
        proof {
            assert(pc[k as int] == cs@[k as int]@);
        }
        if same_chars(cs[k].as_slice(), target.as_slice()) || same_chars(
            cs[k].as_slice(),
            git.as_slice(),
        ) {
            return true;
        }
        k = k + 1;
    }
    false
}

/// Whether the entry at `rel` (relative to the project root) is copied
/// into the sandbox: not the root itself, and no excluded component.
pub fn copied_to_sandbox(rel: &str) -> (r: bool)
    ensures
        r == (rel@.len() > 0 && !excluded(rel@)),
{
    !rel.is_empty() && !is_always_excluded(rel)
}

/// The files (relative to the project root) that are copied into the
/// sandbox even when hidden or ignored, so that the sandbox builds the
/// same dependency graph.
pub fn always_included() -> (r: Vec<&'static str>)
    ensures
        r@.len() == 2,
        r@[0]@ == "Cargo.lock"@,
        r@[1]@ == ".cargo/config.toml"@,
{
    let mut r: Vec<&'static str> = Vec::new();
    r.push("Cargo.lock");
    r.push(".cargo/config.toml");
    r
}

/// Whether the directory walk enters an entry: the start always; below it,
/// any entry but a directory holding its own `Cargo.toml` (a nested project
/// such as a test fixture).
pub fn enters_entry(depth: usize, is_dir: bool, holds_manifest: bool) -> (r: bool)
    ensures
        r == (depth == 0 || !(is_dir && holds_manifest)),
{
    depth == 0 || !(is_dir && holds_manifest)
}

/// Whether a workspace package is processed: all of them when no package
/// was named, else the named ones.
pub fn package_selected(packages: &[String], name: &str) -> (r: bool)
    ensures
        r == (packages@.len() == 0 || strs(packages@).contains(name@)),
{
    if packages.len() == 0 {
        return true;
    }
    let wanted = name.to_owned();
    let mut k: usize = 0;
    while k < packages.len()
        invariant
            wanted@ == name@,
            k <= packages@.len(),
            forall|m: int| 0 <= m < k ==> packages@[m]@ != name@,
        decreases packages@.len() - k,
    {
        if packages[k] == wanted {
            proof {
                assert(strs(packages@)[k as int] == name@);
            }
            return true;
        }
        k = k + 1;
    }
    proof {
        if strs(packages@).contains(name@) {
            let m = choose|m: int| 0 <= m < strs(packages@).len() && strs(packages@)[m] == name@;
            assert(packages@[m]@ == name@);
        }
    }
    false
}

/// The last component of `path` when it is a name (`Path::file_name`).
pub open spec fn file_name(path: Seq<char>) -> Option<Seq<char>> {
    let cs = path_components(path);
    if cs.len() > 0 && cs.last() != root_component() && cs.last() != cur_dir_component()
        && cs.last() != parent_dir_component() {
        Some(cs.last())
    } else {
        None
    }
}

/// The file name ends in `.rs` with something before the dot: its
/// extension (`Path::extension`) is `rs`.
pub open spec fn rust_source(path: Seq<char>) -> bool {
    match file_name(path) {
        Some(n) => n.len() > 3 && n[n.len() - 3] == '.' && n[n.len() - 2] == 'r' && n[n.len()
            - 1] == 's',
        None => false,
    }
}

/// A `.rs` file of a package, other than its build script, as a path
/// relative to the sandbox root; `None` for any other file, or for one
/// outside `root`.
pub fn rust_file_in(path: &str, build_rs: &str, root: &str) -> (r: Option<String>)
    ensures
        match r {
            Some(rel) => rust_source(path@) && !same_path(path@, build_rs@) && stripped_path(
                path@,
                root@,
            ) == Some(rel@),
            None => !rust_source(path@) || same_path(path@, build_rs@) || stripped_path(
                path@,
                root@,
            ) is None,
        },
{
    let chars = chars_of(path);
    let cs = components(chars.as_slice());
    let n = cs.len();
    if n == 0 {
        return None;
    }
    let last = &cs[n - 1];
    let ln = last.len();
    proof {
        assert(path_components(path@)[n - 1] == last@);
        assert(path_components(path@).last() == last@);
    }
    if ln == 1 && last[0] == '/' {
        assert(last@ =~= root_component());
        return None;
    }
    if ln == 1 && last[0] == '.' {
        assert(last@ =~= cur_dir_component());
        return None;
    }
    if ln == 2 && last[0] == '.' && last[1] == '.' {
        assert(last@ =~= parent_dir_component());
        return None;
    }
    proof {
        if ln == 1 {
            assert(last@ != root_component() && last@ != cur_dir_component());
        }
        if ln == 2 {
            assert(last@ != parent_dir_component());
        }
        assert(file_name(path@) == Some(last@));
    }
    if !(ln > 3 && last[ln - 3] == '.' && last[ln - 2] == 'r' && last[ln - 1] == 's') {
        return None;
    }
    if paths_equal(path, build_rs) {
        return None;
    }
    strip_root(path, root)
}

/// Refuses to write into a working tree that git does not track, unless
/// allowed, or that has uncommitted changes, unless allowed. Only a run that
/// writes back is checked; `dirty` need only be known for a tracked tree
/// where dirt is not allowed.
pub fn check_vcs(write: bool, allow_no_vcs: bool, allow_dirty: bool, in_repo: bool, dirty: bool) -> (r:
    Result<(), ToolError>)
    ensures
        write && !in_repo && !allow_no_vcs ==> (r matches Err(ToolError::NoVcs)),
        write && in_repo && !allow_dirty && dirty ==> (r matches Err(ToolError::Dirty)),
        !(write && !in_repo && !allow_no_vcs) && !(write && in_repo && !allow_dirty && dirty) ==> (r matches Ok(())),
{
    if write {
        if !in_repo && !allow_no_vcs {
            return Err(ToolError::NoVcs);
        }
        if in_repo && !allow_dirty && dirty {
            return Err(ToolError::Dirty);
        }
    }
    Ok(())
}

} // verus!
