//! The command lines of the tools. A tool that the project switched off has none.

use vstd::prelude::*;

use crate::config;
use crate::config::{VibeConfig, VibeToolConfig};
use crate::number;
use crate::text;

verus! {

/// What the project sets for diff-risk.
pub open spec fn diff_risk_of(config: Option<&VibeConfig>) -> Option<&VibeToolConfig> {
    match config {
        Some(c) => Some(&c.diff_risk),
        None => None,
    }
}

/// What the project sets for cargo-impact.
pub open spec fn cargo_impact_of(config: Option<&VibeConfig>) -> Option<&VibeToolConfig> {
    match config {
        Some(c) => Some(&c.cargo_impact),
        None => None,
    }
}

/// What the project sets for spec-drift.
pub open spec fn spec_drift_of(config: Option<&VibeConfig>) -> Option<&VibeToolConfig> {
    match config {
        Some(c) => Some(&c.spec_drift),
        None => None,
    }
}

/// What the project sets for cargo-context.
pub open spec fn cargo_context_of(config: Option<&VibeConfig>) -> Option<&VibeToolConfig> {
    match config {
        Some(c) => Some(&c.cargo_context),
        None => None,
    }
}

/// The command line of a tool: `args` and what the project adds, unless it is switched
/// off.
pub open spec fn planned(
    tool: Option<&VibeToolConfig>,
    args: Seq<Seq<char>>,
) -> Option<Seq<Seq<char>>> {
    if config::is_enabled(tool) {
        Some(args + config::extra_args_of(tool))
    } else {
        None
    }
}

/// The text of a command line.
pub open spec fn plan_text(plan: Option<Vec<String>>) -> Option<Seq<Seq<char>>> {
    match plan {
        Some(args) => Some(text::texts(args@)),
        None => None,
    }
}

/// How diff-risk is told its threshold.
pub open spec fn threshold_args(threshold: Seq<char>) -> Seq<Seq<char>> {
    seq!["--threshold"@, threshold]
}

/// How diff-risk is called for its own report.
pub open spec fn risk_args(threshold: Seq<char>, format: Seq<char>) -> Seq<Seq<char>> {
    seq!["--threshold"@, threshold, "--format"@, format]
}

/// How cargo-impact is called for a health check: it reports all of which it is at least
/// half sure, unless the project sets another bound.
pub open spec fn check_impact_args(config: Option<&VibeConfig>, since: Seq<char>) -> Seq<Seq<char>> {
    seq!["--since"@, since, "--format"@, "json"@] + if config::flag_is_set(
        config::extra_args_of(cargo_impact_of(config)),
        "--confidence-min"@,
    ) {
        Seq::empty()
    } else {
        seq!["--confidence-min"@, "0.5"@]
    }
}

/// How cargo-impact is called for its own report, or for the filter of tests to run.
pub open spec fn impact_args(since: Seq<char>, test: bool, format: Seq<char>) -> Seq<Seq<char>> {
    if test {
        seq!["--since"@, since, "--test"@]
    } else {
        seq!["--since"@, since, "--format"@, format]
    }
}

/// How spec-drift is called for its own report.
pub open spec fn drift_args(
    diff: Option<Seq<char>>,
    format: Seq<char>,
    deny: Seq<char>,
) -> Seq<Seq<char>> {
    seq!["--format"@, format, "--deny"@, deny] + match diff {
        Some(d) => seq!["--diff"@, d],
        None => Seq::empty(),
    }
}

/// The token budget: the one that was asked for, or else that of the project.
pub open spec fn budget_of(budget: Option<usize>, config: Option<&VibeConfig>) -> Option<usize> {
    match (budget, config) {
        (Some(b), _) => Some(b),
        (None, Some(c)) => c.vibe.token_budget,
        (None, None) => None,
    }
}

/// How cargo-context is called.
pub open spec fn context_args(preset: Seq<char>, budget: Option<usize>) -> Seq<Seq<char>> {
    seq!["--preset"@, preset] + match budget {
        Some(b) => seq!["--max-tokens"@, number::numeral(b as nat)],
        None => Seq::empty(),
    }
}

/// The command line of diff-risk for its own report.
pub open spec fn risk_plan(
    threshold: Option<Seq<char>>,
    format: Seq<char>,
    config: Option<&VibeConfig>,
) -> Option<Seq<Seq<char>>> {
    planned(diff_risk_of(config), risk_args(config::threshold_of(threshold, config), format))
}

/// The command line of diff-risk in a health check.
pub open spec fn check_risk_plan(config: Option<&VibeConfig>) -> Option<Seq<Seq<char>>> {
    planned(diff_risk_of(config), threshold_args(config::threshold_of(None, config)))
}

/// The command line of cargo-impact in a health check.
pub open spec fn check_impact_plan(
    since: Seq<char>,
    config: Option<&VibeConfig>,
) -> Option<Seq<Seq<char>>> {
    planned(cargo_impact_of(config), check_impact_args(config, since))
}

/// The command line of spec-drift in a health check.
pub open spec fn check_drift_plan(
    since: Seq<char>,
    config: Option<&VibeConfig>,
) -> Option<Seq<Seq<char>>> {
    planned(spec_drift_of(config), seq!["--format"@, "json"@, "--diff"@, since])
}

/// The command line of cargo-impact for its own report.
pub open spec fn impact_plan(
    since: Seq<char>,
    test: bool,
    format: Seq<char>,
    config: Option<&VibeConfig>,
) -> Option<Seq<Seq<char>>> {
    planned(cargo_impact_of(config), impact_args(since, test, format))
}

/// The command line of spec-drift for its own report.
pub open spec fn drift_plan(
    diff: Option<Seq<char>>,
    format: Seq<char>,
    deny: Seq<char>,
    config: Option<&VibeConfig>,
) -> Option<Seq<Seq<char>>> {
    planned(spec_drift_of(config), drift_args(diff, format, deny))
}

/// The command line of cargo-context.
pub open spec fn context_plan(
    preset: Seq<char>,
    budget: Option<usize>,
    config: Option<&VibeConfig>,
) -> Option<Seq<Seq<char>>> {
    planned(cargo_context_of(config), context_args(preset, budget_of(budget, config)))
}

/// How cargo-impact is called between two attempts of a fix.
pub open spec fn fix_impact_list(since: Seq<char>) -> Seq<Seq<char>> {
    seq!["--since"@, since, "--fail-on"@, "high"@]
}

/// A command line without the name of the subcommand.
pub open spec fn without_subcommand<T>(args: Seq<T>, first: Option<Seq<char>>) -> Seq<T> {
    if args.len() > 1 && first == Some("vibe"@) {
        args.remove(1)
    } else {
        args
    }
}

/// Where the project sets a bound of its own, that is the only one that cargo-impact gets
/// in a health check.
pub proof fn law_own_confidence_bound_wins(config: Option<&VibeConfig>, since: Seq<char>)
    requires
        config::flag_is_set(
            config::extra_args_of(cargo_impact_of(config)),
            "--confidence-min"@,
        ),
    ensures
        check_impact_args(config, since) == seq!["--since"@, since, "--format"@, "json"@],
{
}

/// A tool that is switched off is never run, whatever it would be called with, and all
/// others are.
pub proof fn law_disabled_tools_do_not_run(tool: Option<&VibeToolConfig>, args: Seq<Seq<char>>)
    ensures
        planned(tool, args) is None <==> (tool matches Some(c) && c.enabled == Some(false)),
{
}

/// What each tool is called with where the project adds nothing to it, for every threshold,
/// base, format, severity, preset and budget.
pub proof fn law_plans_of_the_tools(
    threshold: Seq<char>,
    since: Seq<char>,
    format: Seq<char>,
    deny: Seq<char>,
    preset: Seq<char>,
    budget: usize,
)
    ensures
        risk_plan(Some(threshold), format, None) == Some(
            seq!["--threshold"@, threshold, "--format"@, format],
        ),
        risk_plan(None, format, None) == Some(seq!["--threshold"@, "7"@, "--format"@, format]),
        check_risk_plan(None) == Some(seq!["--threshold"@, "7"@]),
        check_impact_plan(since, None) == Some(
            seq!["--since"@, since, "--format"@, "json"@, "--confidence-min"@, "0.5"@],
        ),
        check_drift_plan(since, None) == Some(
            seq!["--format"@, "json"@, "--diff"@, since],
        ),
        impact_plan(since, true, format, None) == Some(seq!["--since"@, since, "--test"@]),
        impact_plan(since, false, format, None) == Some(
            seq!["--since"@, since, "--format"@, format],
        ),
        drift_plan(None, format, deny, None) == Some(
            seq!["--format"@, format, "--deny"@, deny],
        ),
        drift_plan(Some(since), format, deny, None) == Some(
            seq!["--format"@, format, "--deny"@, deny, "--diff"@, since],
        ),
        context_plan(preset, None, None) == Some(seq!["--preset"@, preset]),
        context_plan(preset, Some(budget), None) == Some(
            seq!["--preset"@, preset, "--max-tokens"@, number::numeral(budget as nat)],
        ),
        fix_impact_list(since) == seq!["--since"@, since, "--fail-on"@, "high"@],
{
    let none = Seq::<Seq<char>>::empty();
    assert(risk_plan(Some(threshold), format, None)->0 =~= seq![
        "--threshold"@,
        threshold,
        "--format"@,
        format,
    ]);
    assert(risk_plan(None, format, None)->0 =~= seq!["--threshold"@, "7"@, "--format"@, format]);
    assert(check_risk_plan(None)->0 =~= seq!["--threshold"@, "7"@]);
    assert(!config::flag_is_set(none, "--confidence-min"@));
    assert(check_impact_plan(since, None)->0 =~= seq![
        "--since"@,
        since,
        "--format"@,
        "json"@,
        "--confidence-min"@,
        "0.5"@,
    ]);
    assert(check_drift_plan(since, None)->0 =~= seq!["--format"@, "json"@, "--diff"@, since]);
    assert(impact_plan(since, true, format, None)->0 =~= seq!["--since"@, since, "--test"@]);
    assert(impact_plan(since, false, format, None)->0 =~= seq![
        "--since"@,
        since,
        "--format"@,
        format,
    ]);
    assert(drift_plan(None, format, deny, None)->0 =~= seq!["--format"@, format, "--deny"@, deny]);
    assert(drift_plan(Some(since), format, deny, None)->0 =~= seq![
        "--format"@,
        format,
        "--deny"@,
        deny,
        "--diff"@,
        since,
    ]);
    assert(context_plan(preset, None, None)->0 =~= seq!["--preset"@, preset]);
    assert(context_plan(preset, Some(budget), None)->0 =~= seq![
        "--preset"@,
        preset,
        "--max-tokens"@,
        number::numeral(budget as nat),
    ]);
}

/// Whatever the project sets, a tool that it does not switch off is called with the arguments
/// of its command and, behind them, with all that the project adds for this tool; one that it
/// switches off is not called by any command.
pub proof fn law_plans_follow_the_project(
    config: VibeConfig,
    threshold: Option<Seq<char>>,
    since: Seq<char>,
    test: bool,
    diff: Option<Seq<char>>,
    format: Seq<char>,
    deny: Seq<char>,
    preset: Seq<char>,
    budget: Option<usize>,
)
    ensures
        config.diff_risk.enabled == Some(false) ==> {
            &&& risk_plan(threshold, format, Some(&config)) is None
            &&& check_risk_plan(Some(&config)) is None
        },
        config.diff_risk.enabled != Some(false) ==> {
            let extra = text::texts(config.diff_risk.extra_args@);
            let value = config::threshold_of(threshold, Some(&config));
            let own = config::threshold_of(None, Some(&config));
            &&& risk_plan(threshold, format, Some(&config)) == Some(
                seq!["--threshold"@, value, "--format"@, format] + extra,
            )
            &&& check_risk_plan(Some(&config)) == Some(seq!["--threshold"@, own] + extra)
        },
        config.cargo_impact.enabled == Some(false) ==> {
            &&& impact_plan(since, test, format, Some(&config)) is None
            &&& check_impact_plan(since, Some(&config)) is None
        },
        config.cargo_impact.enabled != Some(false) ==> {
            let extra = text::texts(config.cargo_impact.extra_args@);
            &&& impact_plan(since, test, format, Some(&config)) == Some(
                impact_args(since, test, format) + extra,
            )
            &&& check_impact_plan(since, Some(&config)) == Some(
                check_impact_args(Some(&config), since) + extra,
            )
        },
        config.spec_drift.enabled == Some(false) ==> {
            &&& drift_plan(diff, format, deny, Some(&config)) is None
            &&& check_drift_plan(since, Some(&config)) is None
        },
        config.spec_drift.enabled != Some(false) ==> {
            let extra = text::texts(config.spec_drift.extra_args@);
            &&& drift_plan(diff, format, deny, Some(&config)) == Some(
                drift_args(diff, format, deny) + extra,
            )
            &&& check_drift_plan(since, Some(&config)) == Some(
                seq!["--format"@, "json"@, "--diff"@, since] + extra,
            )
        },
        config.cargo_context.enabled == Some(false) ==> context_plan(
            preset,
            budget,
            Some(&config),
        ) is None,
        config.cargo_context.enabled != Some(false) ==> context_plan(
            preset,
            budget,
            Some(&config),
        ) == Some(
            context_args(preset, budget_of(budget, Some(&config))) + text::texts(
                config.cargo_context.extra_args@,
            ),
        ),
{
}

/// The name of the subcommand is dropped if and only if it is the first argument, and no other
/// argument is.
pub proof fn law_only_the_subcommand_is_dropped<T>(
    program: T,
    name: T,
    rest: Seq<T>,
    first: Option<Seq<char>>,
)
    ensures
        first == Some("vibe"@) ==> without_subcommand(seq![program, name] + rest, first)
            == seq![program] + rest,
        first != Some("vibe"@) ==> without_subcommand(seq![program, name] + rest, first)
            == seq![program, name] + rest,
        without_subcommand(seq![program], first) == seq![program],
{
    let args = seq![program, name] + rest;
    assert(args.remove(1) =~= seq![program] + rest);
}

/// A tool that may run gets its own arguments first and then those that the project adds, and
/// nothing else.
pub proof fn law_extra_arguments_come_last(
    tool: Option<&VibeToolConfig>,
    args: Seq<Seq<char>>,
)
    requires
        config::is_enabled(tool),
    ensures
        planned(tool, args) is Some,
        planned(tool, args)->0.len() == args.len() + config::extra_args_of(tool).len(),
        planned(tool, args)->0.take(args.len() as int) == args,
        planned(tool, args)->0.skip(args.len() as int) == config::extra_args_of(tool),
{
    let all = args + config::extra_args_of(tool);
    assert(all.take(args.len() as int) =~= args);
    assert(all.skip(args.len() as int) =~= config::extra_args_of(tool));
}

/// Each tool gets what the project sets for it, and none what is set for another.
pub proof fn law_each_tool_has_its_own_settings(config: VibeConfig)
    ensures
        diff_risk_of(Some(&config)) == Some(&config.diff_risk),
        cargo_impact_of(Some(&config)) == Some(&config.cargo_impact),
        spec_drift_of(Some(&config)) == Some(&config.spec_drift),
        cargo_context_of(Some(&config)) == Some(&config.cargo_context),
        diff_risk_of(None) is None,
        cargo_impact_of(None) is None,
        spec_drift_of(None) is None,
        cargo_context_of(None) is None,
{
}

/// The arguments of diff-risk name the threshold and, for its own report, the format.
pub proof fn law_arguments_of_diff_risk(threshold: Seq<char>, format: Seq<char>)
    ensures
        threshold_args(threshold) == seq!["--threshold"@].push(threshold),
        risk_args(threshold, format) == threshold_args(threshold).push("--format"@).push(format),
{
    assert(threshold_args(threshold) =~= seq!["--threshold"@].push(threshold));
    assert(risk_args(threshold, format) =~= threshold_args(threshold).push("--format"@).push(
        format,
    ));
}

/// The arguments of cargo-impact name the base; in a health check also JSON as the format
/// and, unless the project sets a bound of its own, one half as the lower bound of confidence;
/// for its own report either the format or that the tests are wanted.
pub proof fn law_arguments_of_cargo_impact(
    config: Option<&VibeConfig>,
    since: Seq<char>,
    format: Seq<char>,
)
    ensures
        ({
            let base = seq!["--since"@, since];
            let own = config::flag_is_set(
                config::extra_args_of(cargo_impact_of(config)),
                "--confidence-min"@,
            );
            &&& own ==> check_impact_args(config, since) == base + seq!["--format"@, "json"@]
            &&& !own ==> check_impact_args(config, since) == base + seq![
                "--format"@,
                "json"@,
                "--confidence-min"@,
                "0.5"@,
            ]
            &&& impact_args(since, true, format) == base.push("--test"@)
            &&& impact_args(since, false, format) == base.push("--format"@).push(format)
        }),
{
    let base = seq!["--since"@, since];
    assert(impact_args(since, true, format) =~= base.push("--test"@));
    assert(impact_args(since, false, format) =~= base.push("--format"@).push(format));
    assert(base + seq!["--format"@, "json"@] =~= seq!["--since"@, since, "--format"@, "json"@]);
    let own = config::flag_is_set(
        config::extra_args_of(cargo_impact_of(config)),
        "--confidence-min"@,
    );
    if own {
        assert(check_impact_args(config, since) =~= base + seq!["--format"@, "json"@]);
    } else {
        assert(check_impact_args(config, since) =~= base + seq![
            "--format"@,
            "json"@,
            "--confidence-min"@,
            "0.5"@,
        ]);
    }
}

/// The arguments of spec-drift name the format, the severity to fail on and, where one was
/// asked for, the base.
pub proof fn law_arguments_of_spec_drift(diff: Seq<char>, format: Seq<char>, deny: Seq<char>)
    ensures
        drift_args(None, format, deny) == seq!["--format"@, format, "--deny"@, deny],
        drift_args(Some(diff), format, deny) == drift_args(None, format, deny).push(
            "--diff"@,
        ).push(diff),
{
    assert(drift_args(None, format, deny) =~= seq!["--format"@, format, "--deny"@, deny]);
    assert(drift_args(Some(diff), format, deny) =~= drift_args(None, format, deny).push(
        "--diff"@,
    ).push(diff));
}

/// The arguments of cargo-context name the preset and, where there is one, the budget: the
/// one that was asked for, whatever the project sets, or else that of the project.
pub proof fn law_arguments_of_cargo_context(preset: Seq<char>, budget: usize, config: VibeConfig)
    ensures
        context_args(preset, None) == seq!["--preset"@, preset],
        context_args(preset, Some(budget)) == context_args(preset, None).push(
            "--max-tokens"@,
        ).push(number::numeral(budget as nat)),
        budget_of(Some(budget), Some(&config)) == Some(budget),
        budget_of(Some(budget), None) == Some(budget),
        budget_of(None, Some(&config)) == config.vibe.token_budget,
        budget_of(None, None) is None,
{
    assert(context_args(preset, None) =~= seq!["--preset"@, preset]);
    assert(context_args(preset, Some(budget)) =~= context_args(preset, None).push(
        "--max-tokens"@,
    ).push(number::numeral(budget as nat)));
}

/// Adds `arg` to a command line.
fn add_arg(args: &mut Vec<String>, arg: &str)
    ensures
        text::texts(final(args)@) == text::texts(old(args)@).push(arg@),
{
    let ghost before = text::texts(args@);
    args.push(arg.to_owned());
    assert(text::texts(args@) =~= before.push(arg@));
}

/// A command line of one option and its value.
fn option_args(name: &str, value: &str) -> (r: Vec<String>)
    ensures
        text::texts(r@) == seq![name@, value@],
{
    let mut r: Vec<String> = Vec::new();
    add_arg(&mut r, name);
    add_arg(&mut r, value);
    assert(text::texts(r@) =~= seq![name@, value@]);
    r
}

/// A command line of two options and their values.
fn two_option_args(name: &str, value: &str, second: &str, other: &str) -> (r: Vec<String>)
    ensures
        text::texts(r@) == seq![name@, value@, second@, other@],
{
    let mut r = option_args(name, value);
    add_arg(&mut r, second);
    add_arg(&mut r, other);
    assert(text::texts(r@) =~= seq![name@, value@, second@, other@]);
    r
}

/// The command line of a tool, unless it is switched off.
fn plan(tool: Option<&VibeToolConfig>, args: Vec<String>) -> (r: Option<Vec<String>>)
    ensures
        plan_text(r) == planned(tool, text::texts(args@)),
{
    if !config::tool_enabled(tool) {
        return None;
    }
    let ghost start = text::texts(args@);
    let extra = config::tool_extra_args(tool);
    let ghost all = text::texts(extra@);
    let mut r = args;
    assert(start + all.take(0) =~= start);
    for i in 0..extra.len()
        invariant
            all == text::texts(extra@),
            text::texts(r@) == start + all.take(i as int),
    {
        add_arg(&mut r, extra[i].as_str());
        assert(all[i as int] == extra@[i as int]@);
        assert(start + all.take(i + 1) =~= (start + all.take(i as int)).push(all[i as int]));
    }
    assert(all.take(extra.len() as int) =~= all);
    Some(r)
}

/// What the project sets for diff-risk.
fn diff_risk(config: Option<&VibeConfig>) -> (r: Option<&VibeToolConfig>)
    ensures
        r == diff_risk_of(config),
{
    match config {
        Some(c) => Some(&c.diff_risk),
        None => None,
    }
}

/// What the project sets for cargo-impact.
fn cargo_impact(config: Option<&VibeConfig>) -> (r: Option<&VibeToolConfig>)
    ensures
        r == cargo_impact_of(config),
{
    match config {
        Some(c) => Some(&c.cargo_impact),
        None => None,
    }
}

/// What the project sets for spec-drift.
fn spec_drift(config: Option<&VibeConfig>) -> (r: Option<&VibeToolConfig>)
    ensures
        r == spec_drift_of(config),
{
    match config {
        Some(c) => Some(&c.spec_drift),
        None => None,
    }
}

/// What the project sets for cargo-context.
fn cargo_context(config: Option<&VibeConfig>) -> (r: Option<&VibeToolConfig>)
    ensures
        r == cargo_context_of(config),
{
    match config {
        Some(c) => Some(&c.cargo_context),
        None => None,
    }
}

/// The command line of diff-risk for its own report, for a threshold that was asked for or
/// else the one of the project.
pub fn plan_risk(threshold: Option<&str>, format: &str, config: Option<&VibeConfig>) -> (r: Option<
    Vec<String>,
>)
    ensures
        plan_text(r) == risk_plan(text::opt_str(threshold), format@, config),
{
    let value = config::risk_threshold(threshold, config);
    plan(diff_risk(config), two_option_args("--threshold", value.as_str(), "--format", format))
}

/// The command line of diff-risk in a health check, for the threshold of the project.
pub fn plan_check_risk(config: Option<&VibeConfig>) -> (r: Option<Vec<String>>)
    ensures
        plan_text(r) == check_risk_plan(config),
{
    let value = config::risk_threshold(None, config);
    plan(diff_risk(config), option_args("--threshold", value.as_str()))
}

/// The command line of cargo-impact in a health check.
pub fn plan_check_impact(since: &str, config: Option<&VibeConfig>) -> (r: Option<Vec<String>>)
    ensures
        plan_text(r) == check_impact_plan(since@, config),
{
    let tool = cargo_impact(config);
    let mut args = two_option_args("--since", since, "--format", "json");
    if !config::has_flag(config::tool_extra_args(tool), "--confidence-min") {
        add_arg(&mut args, "--confidence-min");
        add_arg(&mut args, "0.5");
    }
    assert(text::texts(args@) =~= check_impact_args(config, since@));
    plan(tool, args)
}

/// The command line of spec-drift in a health check.
pub fn plan_check_drift(since: &str, config: Option<&VibeConfig>) -> (r: Option<Vec<String>>)
    ensures
        plan_text(r) == check_drift_plan(since@, config),
{
    plan(spec_drift(config), two_option_args("--format", "json", "--diff", since))
}

/// The command line of cargo-impact for its own report.
pub fn plan_impact(since: &str, test: bool, format: &str, config: Option<&VibeConfig>) -> (r: Option<
    Vec<String>,
>)
    ensures
        plan_text(r) == impact_plan(since@, test, format@, config),
{
    let mut args = option_args("--since", since);
    if test {
        add_arg(&mut args, "--test");
    } else {
        add_arg(&mut args, "--format");
        add_arg(&mut args, format);
    }
    assert(text::texts(args@) =~= impact_args(since@, test, format@));
    plan(cargo_impact(config), args)
}

/// The command line of spec-drift for its own report.
pub fn plan_drift(
    diff: Option<&str>,
    format: &str,
    deny: &str,
    config: Option<&VibeConfig>,
) -> (r: Option<Vec<String>>)
    ensures
        plan_text(r) == drift_plan(text::opt_str(diff), format@, deny@, config),
{
    let mut args = two_option_args("--format", format, "--deny", deny);
    if let Some(d) = diff {
        add_arg(&mut args, "--diff");
        add_arg(&mut args, d);
    }
    assert(text::texts(args@) =~= drift_args(text::opt_str(diff), format@, deny@));
    plan(spec_drift(config), args)
}

/// The command line of cargo-context.
pub fn plan_context(
    preset: &str,
    budget: Option<usize>,
    config: Option<&VibeConfig>,
) -> (r: Option<Vec<String>>)
    ensures
        plan_text(r) == context_plan(preset@, budget, config),
{
    let mut args = option_args("--preset", preset);
    let limit = match budget {
        Some(b) => Some(b),
        None => match config {
            Some(c) => c.vibe.token_budget,
            None => None,
        },
    };
    if let Some(b) = limit {
        add_arg(&mut args, "--max-tokens");
        add_arg(&mut args, number::number_text(b).as_str());
    }
    assert(text::texts(args@) =~= context_args(preset@, budget_of(budget, config)));
    plan(cargo_context(config), args)
}

/// How cargo-impact is called between two attempts of a fix: it fails on findings of high
/// severity.
pub fn fix_impact_args(since: &str) -> (r: Vec<String>)
    ensures
        text::texts(r@) == fix_impact_list(since@),
{
    two_option_args("--since", since, "--fail-on", "high")
}

/// How spec-drift is called between two attempts of a fix: it fails on warnings.
pub fn fix_drift_args() -> (r: Vec<String>)
    ensures
        text::texts(r@) == seq!["--format"@, "json"@, "--deny"@, "warning"@],
{
    two_option_args("--format", "json", "--deny", "warning")
}

/// How diff-risk is called between two attempts of a fix.
pub fn fix_risk_args(threshold: &str) -> (r: Vec<String>)
    ensures
        text::texts(r@) == threshold_args(threshold@),
{
    option_args("--threshold", threshold)
}

/// How cargo-context is called for a fix.
pub fn fix_context_args() -> (r: Vec<String>)
    ensures
        text::texts(r@) == seq!["--preset"@, "fix"@],
{
    option_args("--preset", "fix")
}

/// How cargo is called to lint everything and to report in JSON.
pub fn clippy_args() -> (r: Vec<String>)
    ensures
        text::texts(r@) == seq!["clippy"@, "--all-targets"@, "--message-format=json"@],
{
    let mut r = option_args("clippy", "--all-targets");
    add_arg(&mut r, "--message-format=json");
    assert(text::texts(r@) =~= seq!["clippy"@, "--all-targets"@, "--message-format=json"@]);
    r
}

/// Takes the name of the subcommand out of a command line: `cargo vibe` hands it over as
/// the first argument. `first` is that argument, where it is a text.
pub fn drop_subcommand<T>(args: &mut Vec<T>, first: Option<&str>)
    ensures
        final(args)@ == without_subcommand(old(args)@, text::opt_str(first)),
{
    if let Some(name) = first {
        if args.len() > 1 && text::same(name, "vibe") {
            let _ = args.remove(1);
        }
    }
}

} // verus!
