//! Where the agent's files live.
//!
//! Paths are byte strings: the environment hands them out so, and nothing here looks inside a
//! component.

use vstd::prelude::*;
use vstd::utf8::*;

verus! {

/// Why no path could be resolved: neither the XDG variable nor `HOME` holds anything.
#[derive(Clone, Copy, Debug, PartialEq, Eq, Structural)]
pub enum PathError {
    NoConfigHome,
    NoStateHome,
}

impl PathError {
    /// What the error says.
    pub open spec fn text(self) -> Seq<char> {
        match self {
            PathError::NoConfigHome =>
                "neither XDG_CONFIG_HOME nor HOME is set; pass --config explicitly"@,
            PathError::NoStateHome => "neither XDG_STATE_HOME nor HOME is set"@,
        }
    }

    /// The message to show.
    pub fn message(&self) -> (r: String)
        ensures
            r@ == self.text(),
    {
        match self {
            PathError::NoConfigHome =>
                "neither XDG_CONFIG_HOME nor HOME is set; pass --config explicitly".to_owned(),
            PathError::NoStateHome => "neither XDG_STATE_HOME nor HOME is set".to_owned(),
        }
    }
}

/// The path separator.
pub const SLASH: u8 = 0x2F;

/// `name` below the directory `base`: a separator goes between them unless `base` is empty or
/// ends in one.
pub open spec fn below(base: Seq<u8>, name: Seq<char>) -> Seq<u8> {
    if base.len() > 0 && base.last() != SLASH {
        base.push(SLASH) + encode_utf8(name)
    } else {
        base + encode_utf8(name)
    }
}

/// The value of a variable that is set to something.
pub open spec fn set_value(v: Option<Vec<u8>>) -> Option<Seq<u8>> {
    match v {
        Some(b) => if b@.len() > 0 {
            Some(b@)
        } else {
            None
        },
        None => None,
    }
}

/// The configuration file below the given variables' directories.
pub open spec fn config_path(xdg: Option<Seq<u8>>, home: Option<Seq<u8>>) -> Option<Seq<u8>> {
    match (xdg, home) {
        (Some(x), _) => Some(below(below(x, "rustiferin"@), "config.yaml"@)),
        (None, Some(h)) => Some(
            below(below(below(h, ".config"@), "rustiferin"@), "config.yaml"@),
        ),
        (None, None) => None,
    }
}

/// The state directory below the given variables' directories.
pub open spec fn state_home(xdg: Option<Seq<u8>>, home: Option<Seq<u8>>) -> Option<Seq<u8>> {
    match (xdg, home) {
        (Some(x), _) => Some(x),
        (None, Some(h)) => Some(below(below(h, ".local"@), "state"@)),
        (None, None) => None,
    }
}

/// Whether a result is the given path, and the given error exactly when there is none.
pub open spec fn yields(
    r: Result<Vec<u8>, PathError>,
    path: Option<Seq<u8>>,
    missing: PathError,
) -> bool {
    match r {
        Ok(p) => path == Some(p@),
        Err(e) => path is None && e == missing,
    }
}

/// Appends a component to a path.
pub(crate) fn push_component(path: &mut Vec<u8>, name: &str)
    ensures
        final(path)@ == below(old(path)@, name@),
{
    if path.len() > 0 && path[path.len() - 1] != SLASH {
        path.push(SLASH);
    }
    path.extend_from_slice(name.as_bytes());
}

/// The configuration file: `$XDG_CONFIG_HOME/rustiferin/config.yaml`, or the same below
/// `$HOME/.config`. Empty variables count as unset.
pub fn resolve_default_path(xdg: Option<Vec<u8>>, home: Option<Vec<u8>>) -> (r: Result<
    Vec<u8>,
    PathError,
>)
    ensures
        yields(r, config_path(set_value(xdg), set_value(home)), PathError::NoConfigHome),
{
    if let Some(x) = xdg {
        if x.len() > 0 {
            let mut path: Vec<u8> = x;
            push_component(&mut path, "rustiferin");
            push_component(&mut path, "config.yaml");
            return Ok(path);
        }
    }
    if let Some(h) = home {
        if h.len() > 0 {
            let mut path: Vec<u8> = h;
            push_component(&mut path, ".config");
            push_component(&mut path, "rustiferin");
            push_component(&mut path, "config.yaml");
            return Ok(path);
        }
    }
    Err(PathError::NoConfigHome)
}

/// The state directory: `$XDG_STATE_HOME`, or `$HOME/.local/state`. Empty variables count as
/// unset.
pub fn xdg_state_home(xdg: Option<Vec<u8>>, home: Option<Vec<u8>>) -> (r: Result<Vec<u8>, PathError>)
    ensures
        yields(r, state_home(set_value(xdg), set_value(home)), PathError::NoStateHome),
{
    if let Some(x) = xdg {
        if x.len() > 0 {
            return Ok(x);
        }
    }
    if let Some(h) = home {
        if h.len() > 0 {
            let mut path: Vec<u8> = h;
            push_component(&mut path, ".local");
            push_component(&mut path, "state");
            return Ok(path);
        }
    }
    Err(PathError::NoStateHome)
}

/// The file that the portal's restore token is kept in.
pub fn restore_token_path(state: Vec<u8>) -> (path: Vec<u8>)
    ensures
        path@ == below(below(state@, "rustiferin"@), "restore_token"@),
{
    let mut path: Vec<u8> = state;
    push_component(&mut path, "rustiferin");
    push_component(&mut path, "restore_token");
    path
}

} // verus!
