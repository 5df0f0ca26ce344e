//! Workspace configuration and module-path resolution.
//!
//! Module paths are handled as sequences of components; the caller performs
//! the file probing and hands the two existence answers in, so the
//! resolution decision itself is pure.
use vstd::prelude::*;

verus! {

use vstd::string::StringExecFns;

/// Marker for syntax trees fresh from the parser, carrying no extra
/// annotations yet.
#[derive(Debug)]
pub struct ParseMetadata;

/// The workspace manifest: an optional layer-properties file and extra
/// module roots, each a name with the path it maps to.
#[derive(Debug, Clone)]
pub struct Config {
    pub lyp: Option<String>,
    pub mods: Vec<(String, String)>,
}

impl Default for Config {
    fn default() -> (r: Config)
        ensures
            r.lyp is None,
            r.mods@.len() == 0,
    {
        Config { lyp: None, mods: Vec::new() }
    }
}

/// Messages the editor front end sends to the language server.
#[derive(Debug, Clone)]
pub enum GuiToLspMessage {
    Hello,
}

/// Messages the language server sends to the editor front end.
#[derive(Debug, Clone)]
pub enum LspToGuiMessage {
    ByeBye,
}

/// How a shape is filled when drawn.
#[derive(Debug, Clone, Copy, PartialEq, Eq, Structural)]
pub enum ShapeFill {
    Stippling,
    Solid,
}

/// The failures of module-path resolution.
#[derive(Clone, Copy, Debug, PartialEq, Eq, Structural)]
pub enum ModPathError {
    /// Both `<m>.ar` and `<m>/mod.ar` exist.
    BothExist,
    /// The direct candidate is the root library file itself.
    Circular,
}

/// Two component paths are equal elementwise.
pub open spec fn comps_eq(a: Seq<String>, b: Seq<String>) -> bool {
    a.len() == b.len() && forall|i: int| 0 <= i < a.len() ==> (#[trigger] a[i])@ == b[i]@
}

fn comps_equal(a: &Vec<String>, b: &Vec<String>) -> (r: bool)
    ensures
        r == comps_eq(a@, b@),
{
    if a.len() != b.len() {
        return false;
    }
    let mut i: usize = 0;
    while i < a.len()
        invariant
            i <= a@.len(),
            a@.len() == b@.len(),
            forall|t: int| 0 <= t < i ==> (#[trigger] a@[t])@ == b@[t]@,
        decreases a@.len() - i,
    {
        if a[i] != b[i] {
            return false;
        }
        i += 1;
    }
    true
}

/// Resolve a `mod` path against the root library file, both given as path
/// components.  The two booleans report whether the direct candidate
/// (`..., last` as a file) and the module-file candidate
/// (`..., last, "mod"`) exist on disk.  Both existing is an error, as is a
/// direct candidate naming the root file itself; otherwise the direct
/// candidate wins when it exists, else the module-file candidate is
/// returned.  The second component of a successful result says which
/// candidate was chosen (`true` for the direct file).  The resolved
/// components are the root library's directory, then the module path, then
/// `mod` for the module-file candidate.
pub fn get_mod(
    root_lib: &Vec<String>,
    path: &Vec<String>,
    direct_is_file: bool,
    base_is_file: bool,
) -> (r: Result<(Vec<String>, bool), ModPathError>)
    requires
        root_lib@.len() >= 1,
    ensures
        path@.len() == 0 ==> r is Ok && comps_eq(r.unwrap().0@, root_lib@) && r.unwrap().1,
        path@.len() > 0 && direct_is_file && base_is_file ==> r == Result::<
            (Vec<String>, bool),
            ModPathError,
        >::Err(ModPathError::BothExist),
        r is Ok && path@.len() > 0 ==> r.unwrap().1 == direct_is_file,
        r is Ok && path@.len() > 0 ==> {
            let c = r.unwrap().0@;
            let k = root_lib@.len() - 1;
            let p = path@.len();
            &&& c.len() == k + p + (if r.unwrap().1 {
                0int
            } else {
                1int
            })
            &&& (forall|t: int| 0 <= t < k ==> (#[trigger] c[t])@ == root_lib@[t]@)
            &&& (forall|t: int| 0 <= t < p ==> (#[trigger] c[k + t])@ == path@[t]@)
            &&& (!r.unwrap().1 ==> c[k + p]@ == "mod"@)
        },
        // a direct candidate naming the root library itself is circular
        path@.len() == 1 && direct_is_file && !base_is_file && path@[0]@ == root_lib@[root_lib@.len()
            - 1]@ ==> r == Result::<(Vec<String>, bool), ModPathError>::Err(ModPathError::Circular),
        // and these are the only failures
        r == Result::<(Vec<String>, bool), ModPathError>::Err(ModPathError::BothExist) ==> path@.len()
            > 0 && direct_is_file && base_is_file,
        r == Result::<(Vec<String>, bool), ModPathError>::Err(ModPathError::Circular) ==> path@.len()
            == 1 && direct_is_file && !base_is_file && path@[0]@ == root_lib@[root_lib@.len() - 1]@,
{
    if path.len() == 0 {
        let out = copy_comps(root_lib);
        proof {
            assert(comps_eq(out@, root_lib@));
        }
        return Ok((out, true));
    }
    if direct_is_file && base_is_file {
        return Err(ModPathError::BothExist);
    }
    // the directory of the root library plus the leading path components
    let mut dir: Vec<String> = copy_comps(root_lib);
    let _last_root = dir.pop();
    let ghost k = root_lib@.len() - 1;
    let mut i: usize = 0;
    while i < path.len() - 1
        invariant
            path@.len() >= 1,
            i <= path@.len() - 1,
            k == root_lib@.len() - 1,
            0 <= k,
            dir@.len() == k + i,
            forall|t: int| 0 <= t < k ==> (#[trigger] dir@[t])@ == root_lib@[t]@,
            forall|t: int| 0 <= t < i ==> (#[trigger] dir@[k + t])@ == path@[t]@,
        decreases path@.len() - 1 - i,
    {
        let ghost pre_dir = dir@;
        let c = clone_string(&path[i]);
        dir.push(c);
        proof {
            assert(dir@ == pre_dir.push(c));
            assert(pre_dir.len() == k + i);
            assert forall|t: int| 0 <= t < i + 1 implies (#[trigger] dir@[k + t])@ == path@[t]@
                by {
                if t < i {
                    assert(k + t < pre_dir.len());
                    assert(pre_dir.push(c)[k + t] == pre_dir[k + t]);
                    assert((pre_dir[k + t])@ == path@[t]@);
                } else {
                    assert(k + t == pre_dir.len());
                    assert(pre_dir.push(c)[k + t] == c);
                }
            }
        }
        i += 1;
    }
    let mut direct: Vec<String> = dir;
    direct.push(clone_string(&path[path.len() - 1]));
    if direct_is_file && comps_equal(&direct, root_lib) {
        proof {
            // component-wise equality with the root forces a one-step path
            // naming the root file itself
            assert(direct@.len() == k + path@.len());
            assert(path@.len() == 1);
            assert((direct@[k])@ == path@[0]@);
            assert((direct@[k])@ == root_lib@[k]@);
        }
        return Err(ModPathError::Circular);
    }
    proof {
        if path@.len() == 1 && direct_is_file && !base_is_file && path@[0]@ == root_lib@[
            root_lib@.len() - 1]@ {
            // then the direct candidate equals the root library, and the
            // branch above already returned
            assert(comps_eq(direct@, root_lib@));
            assert(false);
        }
    }
    if direct_is_file {
        Ok((direct, true))
    } else {
        let mut base = direct;
        base.push(String::from_str("mod"));
        Ok((base, false))
    }
}

fn clone_string(s: &String) -> (r: String)
    ensures
        r@ == s@,
{
    s.clone()
}

fn copy_comps(src: &Vec<String>) -> (out: Vec<String>)
    ensures
        out@.len() == src@.len(),
        forall|i: int| 0 <= i < src@.len() ==> (#[trigger] out@[i])@ == src@[i]@,
{
    let mut out: Vec<String> = Vec::new();
    let mut i: usize = 0;
    while i < src.len()
        invariant
            i <= src@.len(),
            out@.len() == i,
            forall|t: int| 0 <= t < i ==> (#[trigger] out@[t])@ == src@[t]@,
        decreases src@.len() - i,
    {
        out.push(clone_string(&src[i]));
        i += 1;
    }
    out
}

/// The state directory of the tool under the user's home directory; the
/// home lookup itself is the caller's business.
pub fn default_argon_home(home: Option<String>) -> (r: Option<String>)
    ensures
        r is Some <==> home is Some,
        r is Some ==> r.unwrap()@ == home.unwrap()@ + "/.local/state/argon"@,
{
    match home {
        None => None,
        Some(h) => {
            let mut out = h;
            out.append("/.local/state/argon");
            Some(out)
        },
    }
}

} // verus!
