//! Symlink policy for walking and serving source trees.
//!
//! A source tree is possibly-untrusted input, so what a symlink means is a policy
//! decision, not an accident of the walker: [`SymlinkMode`] selects it once and the
//! build preflight, the dev server, and the static router all obey the same choice.
//! The default, [`Follow`](SymlinkMode::Follow), is the safe one: a link resolves
//! only within its own source root.
//!
//! The mode governs **source-file discovery and request resolution only**. It never
//! relaxes a compiler or security sandbox: request-path traversal and the reject
//! list apply in every mode, and the build's output-escape guard is unconditional.

use vstd::prelude::*;

verus! {

/// How symlinks in a source tree behave, everywhere.
///
/// | Mode | build | serving |
/// |---|---|---|
/// | `Follow` (default) | a link resolving outside its root fails the build | 404 |
/// | `FollowUnsafe` | every link publishes; dangling warns and skips | dangling 404s |
/// | `Redirect` | links are skipped with a warning | `307`, the link content is the `Location` |
/// | `Move` | links are skipped with a warning | `308`, same `Location` rule |
#[derive(Clone, Copy, Debug, PartialEq, Eq, Structural)]
#[non_exhaustive]
pub enum SymlinkMode {
    /// Follow a symlink within its own source root; one that canonically resolves
    /// outside the root is refused (the build errors, serving 404s).
    Follow,
    /// Follow every symlink, wherever it points.
    FollowUnsafe,
    /// Do not follow: serving answers `307 Temporary Redirect` with the symlink's
    /// own content as the `Location`; the build skips the link with a warning.
    Redirect,
    /// [`Redirect`](SymlinkMode::Redirect), but permanent: `308 Permanent Redirect`.
    Move,
}

impl Default for SymlinkMode {
    fn default() -> (r: Self)
        ensures
            r == SymlinkMode::Follow,
    {
        SymlinkMode::Follow
    }
}

/// Command-line mirror of [`SymlinkMode`] (`--symlinks follow|follow-unsafe|redirect|move`),
/// kept separate so the domain enum stays `#[non_exhaustive]`.
#[derive(Clone, Copy, Debug, PartialEq, Eq, Structural)]
pub enum SymlinkModeArg {
    Follow,
    FollowUnsafe,
    Redirect,
    Move,
}

impl Default for SymlinkModeArg {
    fn default() -> (r: Self)
        ensures
            r == SymlinkModeArg::Follow,
    {
        SymlinkModeArg::Follow
    }
}

/// What a command-line value is called.
pub open spec fn arg_name(arg: SymlinkModeArg) -> Seq<char> {
    match arg {
        SymlinkModeArg::Follow => "follow"@,
        SymlinkModeArg::FollowUnsafe => "follow-unsafe"@,
        SymlinkModeArg::Redirect => "redirect"@,
        SymlinkModeArg::Move => "move"@,
    }
}

impl SymlinkModeArg {
    /// What the value is called on the command line.
    pub fn name(&self) -> (r: &'static str)
        ensures
            r@ == arg_name(*self),
    {
        match self {
            SymlinkModeArg::Follow => "follow",
            SymlinkModeArg::FollowUnsafe => "follow-unsafe",
            SymlinkModeArg::Redirect => "redirect",
            SymlinkModeArg::Move => "move",
        }
    }

    /// Every value, in the order the command line lists them.
    pub fn value_variants() -> (r: Vec<SymlinkModeArg>)
        ensures
            r@ == seq![
                SymlinkModeArg::Follow,
                SymlinkModeArg::FollowUnsafe,
                SymlinkModeArg::Redirect,
                SymlinkModeArg::Move,
            ],
    {
        let mut all: Vec<SymlinkModeArg> = Vec::new();
        all.push(SymlinkModeArg::Follow);
        all.push(SymlinkModeArg::FollowUnsafe);
        all.push(SymlinkModeArg::Redirect);
        all.push(SymlinkModeArg::Move);
        all
    }
}

/// The mode that a command-line value selects.
pub open spec fn selected(arg: SymlinkModeArg) -> SymlinkMode {
    match arg {
        SymlinkModeArg::Follow => SymlinkMode::Follow,
        SymlinkModeArg::FollowUnsafe => SymlinkMode::FollowUnsafe,
        SymlinkModeArg::Redirect => SymlinkMode::Redirect,
        SymlinkModeArg::Move => SymlinkMode::Move,
    }
}

impl From<SymlinkModeArg> for SymlinkMode {
    fn from(arg: SymlinkModeArg) -> (r: Self) {
        match arg {
            SymlinkModeArg::Follow => SymlinkMode::Follow,
            SymlinkModeArg::FollowUnsafe => SymlinkMode::FollowUnsafe,
            SymlinkModeArg::Redirect => SymlinkMode::Redirect,
            SymlinkModeArg::Move => SymlinkMode::Move,
        }
    }
}

impl vstd::std_specs::convert::FromSpecImpl<SymlinkModeArg> for SymlinkMode {
    open spec fn obeys_from_spec() -> bool {
        true
    }

    open spec fn from_spec(arg: SymlinkModeArg) -> Self {
        selected(arg)
    }
}

impl SymlinkMode {
    /// Whether a link is followed at all; one that is not becomes a redirect, which a
    /// static build has nothing to emit for.
    pub fn follows(&self) -> (r: bool)
        ensures
            r == (*self == SymlinkMode::Follow || *self == SymlinkMode::FollowUnsafe),
            r == followed(*self),
    {
        match self {
            SymlinkMode::Follow | SymlinkMode::FollowUnsafe => true,
            _ => false,
        }
    }
}

/// A command-line value selects the mode of its own name, and no two values share one or a name.
pub proof fn law_modes_by_name(a: SymlinkModeArg, b: SymlinkModeArg)
    ensures
        selected(a) == selected(b) ==> a == b,
        arg_name(a) == arg_name(b) ==> a == b,
        arg_name(a) == "follow"@ ==> selected(a) == SymlinkMode::Follow,
        arg_name(a) == "follow-unsafe"@ ==> selected(a) == SymlinkMode::FollowUnsafe,
        arg_name(a) == "redirect"@ ==> selected(a) == SymlinkMode::Redirect,
        arg_name(a) == "move"@ ==> selected(a) == SymlinkMode::Move,
{
    reveal_strlit("follow");
    reveal_strlit("follow-unsafe");
    reveal_strlit("redirect");
    reveal_strlit("move");
    assert("follow"@.len() != "follow-unsafe"@.len() && "follow"@.len() != "redirect"@.len()
        && "follow"@.len() != "move"@.len() && "follow-unsafe"@.len() != "redirect"@.len()
        && "follow-unsafe"@.len() != "move"@.len() && "redirect"@.len() != "move"@.len());
}

/// A link is followed in this mode.
pub open spec fn followed(mode: SymlinkMode) -> bool {
    match mode {
        SymlinkMode::Redirect | SymlinkMode::Move => false,
        _ => true,
    }
}

/// The two modes that follow do, and the two that redirect do not.
pub proof fn law_following_modes()
    ensures
        followed(SymlinkMode::Follow) && followed(SymlinkMode::FollowUnsafe),
        !followed(SymlinkMode::Redirect) && !followed(SymlinkMode::Move),
{
}

} // verus!
