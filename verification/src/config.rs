//! The configuration of the project, and what it says of each tool.

use vstd::prelude::*;

use crate::text;

verus! {

/// What the project sets for one tool.
#[derive(Debug, PartialEq, Eq)]
pub struct VibeToolConfig {
    pub enabled: Option<bool>,
    /// The risk threshold, as the decimal text that is handed to the tool.
    pub threshold: Option<String>,
    pub extra_args: Vec<String>,
}

/// What the project sets for all tools together.
#[derive(Debug, PartialEq, Eq)]
pub struct VibeSettings {
    /// The risk threshold, as the decimal text that is handed to the tool.
    pub threshold: Option<String>,
    pub token_budget: Option<usize>,
}

/// The configuration of the project.
#[derive(Debug, PartialEq, Eq)]
pub struct VibeConfig {
    pub vibe: VibeSettings,
    pub diff_risk: VibeToolConfig,
    pub cargo_impact: VibeToolConfig,
    pub spec_drift: VibeToolConfig,
    pub cargo_context: VibeToolConfig,
}

/// Whether a tool may run: unless the project says no.
pub open spec fn is_enabled(config: Option<&VibeToolConfig>) -> bool {
    match config {
        Some(c) => c.enabled != Some(false),
        None => true,
    }
}

/// The arguments that the project adds to those of a tool.
pub open spec fn extra_args_of(config: Option<&VibeToolConfig>) -> Seq<Seq<char>> {
    match config {
        Some(c) => text::texts(c.extra_args@),
        None => Seq::empty(),
    }
}

/// The threshold: the one that was asked for, or else that of the project for diff-risk,
/// or else that of the project for all tools, or else seven.
pub open spec fn threshold_of(
    given: Option<Seq<char>>,
    config: Option<&VibeConfig>,
) -> Seq<char> {
    match (given, config) {
        (Some(t), _) => t,
        (None, Some(c)) => match (text::opt_text(c.diff_risk.threshold), text::opt_text(
            c.vibe.threshold,
        )) {
            (Some(t), _) => t,
            (None, Some(t)) => t,
            (None, None) => "7"@,
        },
        (None, None) => "7"@,
    }
}

/// Whether `arg` is `flag`, alone or with a value behind an equals sign.
pub open spec fn sets_flag(arg: Seq<char>, flag: Seq<char>) -> bool {
    arg == flag || text::has_prefix(arg, flag) && text::has_prefix(arg.skip(flag.len() as int), "="@)
}

/// Whether one of `args` is `flag`.
pub open spec fn flag_is_set(args: Seq<Seq<char>>, flag: Seq<char>) -> bool {
    exists|i: int| 0 <= i < args.len() && sets_flag(#[trigger] args[i], flag)
}

/// A tool may run unless the project says no, and gets the arguments that the project sets,
/// all of them and in their order.
pub proof fn law_projects_set_what_tools_get(tool: VibeToolConfig)
    ensures
        is_enabled(None),
        is_enabled(Some(&tool)) <==> tool.enabled is None || tool.enabled == Some(true),
        extra_args_of(None) == Seq::<Seq<char>>::empty(),
        extra_args_of(Some(&tool)).len() == tool.extra_args@.len(),
        forall|i: int|
            0 <= i < tool.extra_args@.len() ==> #[trigger] extra_args_of(Some(&tool))[i]
                == tool.extra_args@[i]@,
{
    if let Some(enabled) = tool.enabled {
        assert(enabled == true || enabled == false);
    }
}

/// The threshold is the one that was asked for, whatever the project sets; else the one that
/// the project sets for diff-risk, whatever it sets for all tools; else the one for all
/// tools; else seven.
pub proof fn law_nearest_threshold_counts(given: Seq<char>, config: VibeConfig)
    ensures
        threshold_of(Some(given), None) == given,
        threshold_of(Some(given), Some(&config)) == given,
        config.diff_risk.threshold matches Some(own) ==> threshold_of(None, Some(&config)) == own@,
        config.diff_risk.threshold is None ==> (config.vibe.threshold matches Some(all)
            ==> threshold_of(None, Some(&config)) == all@),
        config.diff_risk.threshold is None && config.vibe.threshold is None ==> threshold_of(
            None,
            Some(&config),
        ) == "7"@,
        threshold_of(None, None) == "7"@,
{
}

/// A flag is set if and only if one of the arguments is the flag itself, or the flag, an
/// equals sign and a value.
pub proof fn law_flags_stand_alone_or_with_a_value(
    args: Seq<Seq<char>>,
    flag: Seq<char>,
    value: Seq<char>,
)
    ensures
        args.contains(flag) ==> flag_is_set(args, flag),
        args.contains(flag + seq!['='] + value) ==> flag_is_set(args, flag),
        flag_is_set(args, flag) ==> exists|i: int|
            0 <= i < args.len() && (#[trigger] args[i] == flag || args[i] == flag + seq!['=']
                + args[i].skip(flag.len() as int + 1)),
{
    reveal_strlit("=");
    assert("="@ =~= seq!['=']);
    if args.contains(flag) {
        let i = choose|i: int| 0 <= i < args.len() && args[i] == flag;
        assert(sets_flag(args[i], flag));
    }
    let with_value = flag + seq!['='] + value;
    if args.contains(with_value) {
        let i = choose|i: int| 0 <= i < args.len() && args[i] == with_value;
        assert(with_value.take(flag.len() as int) =~= flag);
        assert(with_value.skip(flag.len() as int).take(1) =~= seq!['=']);
        assert(sets_flag(args[i], flag));
    }
    if flag_is_set(args, flag) {
        let i = choose|i: int| 0 <= i < args.len() && sets_flag(#[trigger] args[i], flag);
        let arg = args[i];
        if arg != flag {
            let rest = arg.skip(flag.len() as int);
            assert(arg =~= arg.take(flag.len() as int) + rest);
            assert(rest =~= rest.take(1) + rest.skip(1));
            assert(arg =~= flag + seq!['='] + arg.skip(flag.len() as int + 1));
        }
    }
}

/// Whether a tool may run.
pub fn tool_enabled(config: Option<&VibeToolConfig>) -> (r: bool)
    ensures
        r == is_enabled(config),
{
    match config {
        Some(c) => match c.enabled {
            Some(enabled) => enabled,
            None => true,
        },
        None => true,
    }
}

/// The arguments that the project adds to those of a tool.
pub fn tool_extra_args(config: Option<&VibeToolConfig>) -> (r: &[String])
    ensures
        text::texts(r@) == extra_args_of(config),
{
    match config {
        Some(c) => c.extra_args.as_slice(),
        None => {
            let none: &[String] = &[];
            assert(text::texts(none@) =~= Seq::empty());
            none
        },
    }
}

/// Whether one of `args` is `flag`, alone or with a value behind an equals sign.
pub fn has_flag(args: &[String], flag: &str) -> (r: bool)
    ensures
        r == flag_is_set(text::texts(args@), flag@),
{
    let ghost all = text::texts(args@);
    for i in 0..args.len()
        invariant
            all == text::texts(args@),
            forall|k: int| 0 <= k < i ==> !sets_flag(#[trigger] all[k], flag@),
    {
        let arg = args[i].as_str();
        assert(all[i as int] == arg@);
        if text::same(arg, flag) {
            return true;
        }
        if let Some(rest) = text::strip_prefix(arg, flag) {
            if text::starts_with(rest, "=") {
                return true;
            }
        }
    }
    false
}

/// The threshold for diff-risk.
pub fn risk_threshold(given: Option<&str>, config: Option<&VibeConfig>) -> (r: String)
    ensures
        r@ == threshold_of(text::opt_str(given), config),
{
    if let Some(t) = given {
        return t.to_owned();
    }
    if let Some(c) = config {
        if let Some(t) = &c.diff_risk.threshold {
            return t.clone();
        }
        if let Some(t) = &c.vibe.threshold {
            return t.clone();
        }
    }
    "7".to_owned()
}

} // verus!
