//! Environment knobs for build-script policy flags.

use vstd::prelude::*;

use crate::text;

verus! {

/// What a policy flag says: an unset and an empty variable both mean `default`, `1` and `0`
/// are explicit, and anything else is refused, naming the variable.
pub open spec fn flagged(name: Seq<char>, value: Option<Seq<char>>, default: bool) -> Result<
    bool,
    Seq<char>,
> {
    match value {
        None => Ok(default),
        Some(v) => if v.len() == 0 {
            Ok(default)
        } else if v == "1"@ {
            Ok(true)
        } else if v == "0"@ {
            Ok(false)
        } else {
            Err(name + " must be \"1\", \"0\" or unset, got "@ + text::debug_form(v))
        },
    }
}

/// Read a boolean policy flag from the `value` that the environment holds under `name`.
///
/// Unset and empty both mean `default`: a Docker `ARG X=` passed through `ENV X=${X}` yields
/// an empty string, not an absent variable. `"1"` and `"0"` are explicit; anything else is an
/// error naming the variable, so a typo fails the build instead of silently picking a default.
pub fn flag(name: &str, value: Option<&str>, default: bool) -> (r: Result<bool, String>)
    ensures
        match value {
            Some(v) => match r {
                Ok(b) => flagged(name@, Some(v@), default) == Ok::<bool, Seq<char>>(b),
                Err(e) => flagged(name@, Some(v@), default) == Err::<bool, Seq<char>>(e@),
            },
            None => r == Ok::<bool, String>(default),
        },
{
    match value {
        None => Ok(default),
        Some(v) => {
            if v.is_empty() {
                Ok(default)
            } else if text::same(v, "1") {
                Ok(true)
            } else if text::same(v, "0") {
                Ok(false)
            } else {
                let got = text::debug_text(v);
                Err(
                    name.to_owned().concat(" must be \"1\", \"0\" or unset, got ").concat(
                        got.as_str(),
                    ),
                )
            }
        },
    }
}

/// A flag that is unset or empty is at its default, `1` and `0` are on and off whatever the default,
/// and anything else is an error that names the variable.
pub proof fn law_flags(name: Seq<char>, v: Seq<char>, default: bool)
    ensures
        flagged(name, None, default) == Ok::<bool, Seq<char>>(default),
        flagged(name, Some(Seq::empty()), default) == Ok::<bool, Seq<char>>(default),
        flagged(name, Some("1"@), default) == Ok::<bool, Seq<char>>(true),
        flagged(name, Some("0"@), default) == Ok::<bool, Seq<char>>(false),
        v.len() > 0 && v != "1"@ && v != "0"@ ==> (flagged(name, Some(v), default) matches Err(e)
            && name.is_prefix_of(e)),
{
    reveal_strlit("1");
    reveal_strlit("0");
    assert("1"@[0] == '1' && "0"@[0] == '0');
    let e = name + " must be \"1\", \"0\" or unset, got "@ + text::debug_form(v);
    assert(e.subrange(0, name.len() as int) =~= name);
}

} // verus!
