//! Paging: which pager to run, and how.

use vstd::prelude::*;

use crate::text::{push_str, string_of_str, words_from, words_of};
use crate::tokenizer::strings_view;

verus! {

/// Where to page output to. A custom environment variable, if set, names the
/// pager to try before `$PAGER`.
pub struct Pager {
    pub pager_env: Option<String>,
}

impl Pager {
    /// A pager that follows `$PAGER`, then tries `moar` and `less`.
    pub fn new() -> (r: Self)
        ensures
            r.pager_env is None,
    {
        return Pager { pager_env: None };
    }

    /// A pager that looks at the environment variable `pager_env` first.
    pub fn with_custom_pager_env_var(&mut self, pager_env: &str) -> (r: Self)
        ensures
            crate::ansi::opt_view(r.pager_env) == Some(pager_env@),
            *final(self) == *old(self),
    {
        return Pager { pager_env: Some(crate::text::string_of_str(pager_env)) };
    }
}

/// The command and the arguments of a pager setting like `less -R`.
pub fn pager_command_line(pager_space_separated: &str) -> (r: Vec<String>)
    ensures
        strings_view(r@) == words_from(pager_space_separated@, 0),
{
    words_of(pager_space_separated)
}

/// The variable that is set for a pager this program starts; while it is
/// set, no pager is started, which stops a pager set to this program from
/// starting itself over and over.
pub const PAGER_FORKBOMB_STOP: &'static str = "_RIFF_IGNORE_PAGER";

/// The environment to start a pager with: the fork bomb stop, and the
/// settings that git gives `less` and `lv` where the user has none.
pub fn pager_environment(less_is_set: bool, lv_is_set: bool) -> (r: Vec<(String, String)>)
    ensures
        pairs_view(r@) == seq![(PAGER_FORKBOMB_STOP@, "1"@)] + (if less_is_set {
            seq![]
        } else {
            seq![("LESS"@, "FRX"@)]
        }) + (if lv_is_set {
            seq![]
        } else {
            seq![("LV"@, "-c"@)]
        }),
{
    let mut r: Vec<(String, String)> = Vec::new();
    r.push((string_of_str(PAGER_FORKBOMB_STOP), string_of_str("1")));
    if !less_is_set {
        r.push((string_of_str("LESS"), string_of_str("FRX")));
    }
    if !lv_is_set {
        r.push((string_of_str("LV"), string_of_str("-c")));
    }
    assert(pairs_view(r@) =~= seq![(PAGER_FORKBOMB_STOP@, "1"@)] + (if less_is_set {
        seq![]
    } else {
        seq![("LESS"@, "FRX"@)]
    }) + (if lv_is_set {
        seq![]
    } else {
        seq![("LV"@, "-c"@)]
    }));
    r
}

/// The texts of name and value pairs.
pub open spec fn pairs_view(s: Seq<(String, String)>) -> Seq<(Seq<char>, Seq<char>)> {
    s.map_values(|p: (String, String)| (p.0@, p.1@))
}

/// The message for a pager that an environment variable asked for and that
/// could not be started.
pub fn pager_failure_message(variable: &str, value: &str) -> (r: String)
    ensures
        r@ == "Failed to page with $"@ + variable@ + "='"@ + value@ + "'"@,
{
    let mut r = String::new();
    push_str(&mut r, "Failed to page with $");
    push_str(&mut r, variable);
    push_str(&mut r, "='");
    push_str(&mut r, value);
    push_str(&mut r, "'");
    r
}

} // verus!
