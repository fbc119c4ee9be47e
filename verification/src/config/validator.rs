//! Configuration validation: structural checks, logical consistency, and
//! uniqueness of names, run once after a configuration is loaded.
use vstd::prelude::*;

use crate::config::schema::ArgumentDefinition;
use crate::config::schema::ArgumentType;
use crate::config::schema::CommandDefinition;
use crate::config::schema::CommandsConfig;
use crate::config::schema::OptionDefinition;
use crate::config::schema::ValidationRule;
use crate::error::types::ConfigError;
use crate::error::types::DynamicCliError;
use crate::text::chars_of;
use crate::text::spec_trim;
use crate::text::str_eq;
use crate::text::trim_chars;

verus! {

// ---------------------------------------------------------------------------
// What a valid configuration is
// ---------------------------------------------------------------------------
/// Pairwise distinct character sequences.
pub open spec fn spec_distinct(s: Seq<Seq<char>>) -> bool {
    forall|i: int, j: int| 0 <= i < j < s.len() ==> s[i] != s[j]
}

/// No sequence of `a` occurs in `b`.
pub open spec fn spec_disjoint(a: Seq<Seq<char>>, b: Seq<Seq<char>>) -> bool {
    forall|i: int, j: int| 0 <= i < a.len() && 0 <= j < b.len() ==> a[i] != b[j]
}

/// All names a command claims: its canonical name, then its aliases.
pub open spec fn spec_cmd_names(c: CommandDefinition) -> Seq<Seq<char>> {
    seq![c.name@] + c.aliases@.map_values(|a: String| a@)
}

/// Required positionals precede optional ones.
pub open spec fn spec_args_ordered(args: Seq<ArgumentDefinition>) -> bool {
    forall|i: int, j: int| 0 <= i < j < args.len() && args[j].required ==> args[i].required
}

/// Argument names are non-blank and unique.
pub open spec fn spec_arg_names_ok(args: Seq<ArgumentDefinition>) -> bool {
    &&& forall|i: int| 0 <= i < args.len() ==> spec_trim(args[i].name@).len() > 0
    &&& forall|i: int, j: int| 0 <= i < j < args.len() ==> args[i].name@ != args[j].name@
}

/// A validation rule fits the type of the field that carries it, and range
/// bounds are ordered.
pub open spec fn spec_rule_consistent(t: ArgumentType, r: ValidationRule) -> bool {
    match r {
        ValidationRule::MustExist { .. } => t is Path,
        ValidationRule::Extensions { .. } => t is Path,
        ValidationRule::Range { min, max } => {
            &&& (t is Integer || t is Float)
            &&& (min matches Some(lo) ==> (max matches Some(hi) ==> lo <= hi))
        },
    }
}

pub open spec fn spec_arg_rules_ok(args: Seq<ArgumentDefinition>) -> bool {
    forall|i: int, j: int|
        0 <= i < args.len() && 0 <= j < args[i].validation.len() ==> spec_rule_consistent(
            args[i].arg_type,
            args[i].validation[j],
        )
}

/// One option is well-formed: non-blank unique name (uniqueness is stated
/// over the whole list below), a short or a long form, a default that is
/// within the choices, and no choices on a boolean.
pub open spec fn spec_option_ok(o: OptionDefinition) -> bool {
    &&& spec_trim(o.name@).len() > 0
    &&& (o.short is Some || o.long is Some)
    &&& (o.default matches Some(d) ==> o.choices.len() == 0 || exists|i: int|
        0 <= i < o.choices.len() && o.choices[i]@ == d@)
    &&& (o.option_type is Bool ==> o.choices.len() == 0)
}

pub open spec fn spec_options_ok(options: Seq<OptionDefinition>) -> bool {
    &&& forall|i: int| 0 <= i < options.len() ==> spec_option_ok(options[i])
    &&& forall|i: int, j: int|
        0 <= i < j < options.len() ==> options[i].name@ != options[j].name@
}

/// Short forms are single characters, long forms non-empty, and no two
/// options share a short or a long form.
pub open spec fn spec_flags_ok(options: Seq<OptionDefinition>) -> bool {
    &&& forall|i: int|
        0 <= i < options.len() ==> ((#[trigger] options[i]).short matches Some(s) ==> s@.len()
            == 1)
    &&& forall|i: int|
        0 <= i < options.len() ==> ((#[trigger] options[i]).long matches Some(l) ==> l@.len() > 0)
    &&& forall|i: int, j: int|
        #![trigger options[i].short, options[j].short]
        0 <= i < j < options.len() ==> !(options[i].short matches Some(a)
            && options[j].short matches Some(b) && a@ == b@)
    &&& forall|i: int, j: int|
        #![trigger options[i].long, options[j].long]
        0 <= i < j < options.len() ==> !(options[i].long matches Some(a)
            && options[j].long matches Some(b) && a@ == b@)
}

/// No option shares its name with a positional argument.
pub open spec fn spec_no_name_conflicts(
    args: Seq<ArgumentDefinition>,
    options: Seq<OptionDefinition>,
) -> bool {
    forall|i: int, j: int|
        0 <= i < args.len() && 0 <= j < options.len() ==> args[i].name@ != options[j].name@
}

/// Everything `validate_command` checks.
pub open spec fn spec_command_ok(c: CommandDefinition) -> bool {
    &&& spec_args_ordered(c.arguments@)
    &&& spec_arg_names_ok(c.arguments@)
    &&& spec_arg_rules_ok(c.arguments@)
    &&& spec_options_ok(c.options@)
    &&& spec_flags_ok(c.options@)
    &&& spec_no_name_conflicts(c.arguments@, c.options@)
}

/// Everything `validate_config` checks.
pub open spec fn spec_config_ok(c: CommandsConfig) -> bool {
    &&& forall|i: int| 0 <= i < c.commands.len() ==> spec_command_ok(c.commands[i])
    &&& forall|i: int|
        0 <= i < c.commands.len() ==> spec_trim(c.commands[i].name@).len() > 0 && spec_trim(
            c.commands[i].implementation@,
        ).len() > 0
    &&& forall|i: int| 0 <= i < c.commands.len() ==> spec_distinct(spec_cmd_names(c.commands[i]))
    &&& forall|i: int, j: int|
        0 <= i < j < c.commands.len() ==> spec_disjoint(
            spec_cmd_names(c.commands[i]),
            spec_cmd_names(c.commands[j]),
        )
    &&& spec_options_ok(c.global_options@)
}

// ---------------------------------------------------------------------------
// Helpers
// ---------------------------------------------------------------------------
fn is_blank_string(s: &String) -> (r: bool)
    ensures
        r == (spec_trim(s@).len() == 0),
{
    let cs = chars_of(s.as_str());
    let t = trim_chars(&cs);
    t.len() == 0
}

fn contains_string(v: &Vec<String>, s: &str) -> (r: bool)
    ensures
        r == exists|j: int| 0 <= j < v@.len() && v@[j]@ == s@,
{
    let mut j: usize = 0;
    while j < v.len()
        invariant
            0 <= j <= v@.len(),
            forall|k: int| 0 <= k < j ==> v@[k]@ != s@,
        decreases v@.len() - j,
    {
        if str_eq(v[j].as_str(), s) {
            return true;
        }
        j += 1;
    }
    false
}

// ---------------------------------------------------------------------------
// Validators
// ---------------------------------------------------------------------------
/// Checks that argument types are properly defined. Every declared type is
/// currently valid; the function exists for future extensibility.
pub fn validate_argument_types(args: &Vec<ArgumentDefinition>) -> (r: Result<
    (),
    DynamicCliError,
>)
    ensures
        r is Ok,
{
    Ok(())
}

/// Required positionals must come before optional ones.
fn validate_argument_ordering(args: &Vec<ArgumentDefinition>, context: &str) -> (r: Result<
    (),
    DynamicCliError,
>)
    ensures
        r is Ok <==> spec_args_ordered(args@),
        r matches Err(e) ==> e is Config,
{
    let mut seen_optional = false;
    let mut i: usize = 0;
    while i < args.len()
        invariant
            0 <= i <= args@.len(),
            seen_optional == exists|k: int| 0 <= k < i && !args@[k].required,
            spec_args_ordered(args@.take(i as int)),
        decreases args@.len() - i,
    {
        if !args[i].required {
            seen_optional = true;
        } else if seen_optional {
            assert(!spec_args_ordered(args@)) by {
                let k = choose|k: int| 0 <= k < i && !args@[k].required;
                assert(args@[k].required == false && args@[i as int].required);
            }
            return Err(
                DynamicCliError::Config(
                    ConfigError::InvalidSchema {
                        reason: "a required argument cannot come after optional arguments".to_owned(),
                        path: Some(context.to_owned()),
                    },
                ),
            );
        }
        assert(spec_args_ordered(args@.take(i + 1))) by {
            assert(forall|k: int| 0 <= k < i + 1 ==> args@.take(i + 1)[k] == args@[k]);
        }
        i += 1;
    }
    assert(args@.take(args@.len() as int) =~= args@);
    Ok(())
}

/// Argument names must be non-blank and unique within the command.
fn validate_argument_names(args: &Vec<ArgumentDefinition>, context: &str) -> (r: Result<
    (),
    DynamicCliError,
>)
    ensures
        r is Ok <==> spec_arg_names_ok(args@),
        r matches Err(e) ==> e is Config,
{
    let mut seen: Vec<String> = Vec::new();
    let mut i: usize = 0;
    while i < args.len()
        invariant
            0 <= i <= args@.len(),
            seen@.len() == i,
            forall|k: int| 0 <= k < i ==> seen@[k]@ == args@[k].name@,
            forall|k: int| 0 <= k < i ==> spec_trim(args@[k].name@).len() > 0,
            forall|k: int, l: int| 0 <= k < l < i ==> args@[k].name@ != args@[l].name@,
        decreases args@.len() - i,
    {
        if is_blank_string(&args[i].name) {
            return Err(
                DynamicCliError::Config(
                    ConfigError::InvalidSchema {
                        reason: "argument name cannot be empty".to_owned(),
                        path: Some(context.to_owned()),
                    },
                ),
            );
        }
        if contains_string(&seen, args[i].name.as_str()) {
            return Err(
                DynamicCliError::Config(
                    ConfigError::InvalidSchema {
                        reason: "duplicate argument name".to_owned(),
                        path: Some(context.to_owned()),
                    },
                ),
            );
        }
        proof {
            assert forall|k: int| 0 <= k < i implies args@[k].name@ != args@[i as int].name@ by {
                assert(seen@[k]@ == args@[k].name@);
            }
        }
        seen.push(args[i].name.clone());
        i += 1;
    }
    Ok(())
}

/// Each validation rule must fit the type of the argument that carries it.
fn validate_argument_validation_rules(args: &Vec<ArgumentDefinition>, context: &str) -> (r: Result<
    (),
    DynamicCliError,
>)
    ensures
        r is Ok <==> spec_arg_rules_ok(args@),
        r matches Err(e) ==> e is Config,
{
    let mut i: usize = 0;
    while i < args.len()
        invariant
            0 <= i <= args@.len(),
            forall|k: int, l: int|
                0 <= k < i && 0 <= l < args@[k].validation.len() ==> spec_rule_consistent(
                    args@[k].arg_type,
                    args@[k].validation[l],
                ),
        decreases args@.len() - i,
    {
        let arg = &args[i];
        let mut j: usize = 0;
        while j < arg.validation.len()
            invariant
                0 <= j <= arg.validation@.len(),
                arg == args@[i as int],
                0 <= i < args@.len(),
                forall|l: int|
                    0 <= l < j ==> spec_rule_consistent(arg.arg_type, arg.validation@[l]),
            decreases arg.validation@.len() - j,
        {
            let is_path = matches!(arg.arg_type, ArgumentType::Path);
            let is_numeric = matches!(arg.arg_type, ArgumentType::Integer) || matches!(
                arg.arg_type,
                ArgumentType::Float,
            );
            match &arg.validation[j] {
                ValidationRule::MustExist { must_exist: _ } => {
                    if !is_path {
                        return Err(
                            DynamicCliError::Config(
                                ConfigError::Inconsistency {
                                    details:
                                        "file rules can only be used with path-typed arguments".to_owned(),
                                },
                            ),
                        );
                    }
                },
                ValidationRule::Extensions { extensions: _ } => {
                    if !is_path {
                        return Err(
                            DynamicCliError::Config(
                                ConfigError::Inconsistency {
                                    details:
                                        "file rules can only be used with path-typed arguments".to_owned(),
                                },
                            ),
                        );
                    }
                },
                ValidationRule::Range { min, max } => {
                    if !is_numeric {
                        return Err(
                            DynamicCliError::Config(
                                ConfigError::Inconsistency {
                                    details:
                                        "range rules can only be used with numeric arguments".to_owned(),
                                },
                            ),
                        );
                    }
                    let mn: Option<i64> = *min;
                    let mx: Option<i64> = *max;
                    match (mn, mx) {
                        (Some(lo), Some(hi)) => {
                            if lo > hi {
                                return Err(
                                    DynamicCliError::Config(
                                        ConfigError::Inconsistency {
                                            details:
                                                "range lower bound exceeds its upper bound".to_owned(),
                                        },
                                    ),
                                );
                            }
                        },
                        _ => {},
                    }
                },
            }
            assert(spec_rule_consistent(arg.arg_type, arg.validation@[j as int]));
            j += 1;
        }
        i += 1;
    }
    Ok(())
}

/// Options must have non-blank unique names, a short or a long form, a
/// default within the choices, and no choices on booleans.
pub fn validate_options(options: &Vec<OptionDefinition>, context: &str) -> (r: Result<
    (),
    DynamicCliError,
>)
    ensures
        r is Ok <==> spec_options_ok(options@),
        r matches Err(e) ==> e is Config,
{
    let mut seen: Vec<String> = Vec::new();
    let mut i: usize = 0;
    while i < options.len()
        invariant
            0 <= i <= options@.len(),
            seen@.len() == i,
            forall|k: int| 0 <= k < i ==> seen@[k]@ == options@[k].name@,
            forall|k: int| 0 <= k < i ==> spec_option_ok(options@[k]),
            forall|k: int, l: int| 0 <= k < l < i ==> options@[k].name@ != options@[l].name@,
        decreases options@.len() - i,
    {
        let opt = &options[i];
        if is_blank_string(&opt.name) {
            return Err(
                DynamicCliError::Config(
                    ConfigError::InvalidSchema {
                        reason: "option name cannot be empty".to_owned(),
                        path: Some(context.to_owned()),
                    },
                ),
            );
        }
        if contains_string(&seen, opt.name.as_str()) {
            return Err(
                DynamicCliError::Config(
                    ConfigError::InvalidSchema {
                        reason: "duplicate option name".to_owned(),
                        path: Some(context.to_owned()),
                    },
                ),
            );
        }
        if opt.short.is_none() && opt.long.is_none() {
            return Err(
                DynamicCliError::Config(
                    ConfigError::InvalidSchema {
                        reason: "an option must have at least a short or long form".to_owned(),
                        path: Some(context.to_owned()),
                    },
                ),
            );
        }
        if let Some(default) = &opt.default {
            if opt.choices.len() > 0 && !contains_string(&opt.choices, default.as_str()) {
                return Err(
                    DynamicCliError::Config(
                        ConfigError::Inconsistency {
                            details: "the default value is not among the choices".to_owned(),
                        },
                    ),
                );
            }
        }
        if matches!(opt.option_type, ArgumentType::Bool) && opt.choices.len() > 0 {
            return Err(
                DynamicCliError::Config(
                    ConfigError::Inconsistency {
                        details: "a boolean option cannot have choices".to_owned(),
                    },
                ),
            );
        }
        proof {
            assert forall|k: int| 0 <= k < i implies options@[k].name@ != options@[i as int].name@
            by {
                assert(seen@[k]@ == options@[k].name@);
            }
        }
        seen.push(opt.name.clone());
        i += 1;
    }
    Ok(())
}

/// Short forms must be single characters and unique; long forms non-empty
/// and unique.
pub fn validate_option_flags(options: &Vec<OptionDefinition>, context: &str) -> (r: Result<
    (),
    DynamicCliError,
>)
    ensures
        r is Ok <==> spec_flags_ok(options@),
        r matches Err(e) ==> e is Config,
{
    let mut i: usize = 0;
    while i < options.len()
        invariant
            0 <= i <= options@.len(),
            forall|k: int|
                0 <= k < i ==> ((#[trigger] options@[k]).short matches Some(s) ==> s@.len() == 1),
            forall|k: int|
                0 <= k < i ==> ((#[trigger] options@[k]).long matches Some(l) ==> l@.len() > 0),
            forall|k: int, l: int|
                #![trigger options@[k].short, options@[l].short]
                0 <= k < l < i ==> !(options@[k].short matches Some(a)
                    && options@[l].short matches Some(b) && a@ == b@),
            forall|k: int, l: int|
                #![trigger options@[k].long, options@[l].long]
                0 <= k < l < i ==> !(options@[k].long matches Some(a)
                    && options@[l].long matches Some(b) && a@ == b@),
        decreases options@.len() - i,
    {
        let opt = &options[i];
        if let Some(short) = &opt.short {
            let sc = chars_of(short.as_str());
            if sc.len() != 1 {
                return Err(
                    DynamicCliError::Config(
                        ConfigError::InvalidSchema {
                            reason: "a short option form must be a single character".to_owned(),
                            path: Some(context.to_owned()),
                        },
                    ),
                );
            }
            let mut k: usize = 0;
            while k < i
                invariant
                    0 <= k <= i < options@.len(),
                    opt == options@[i as int],
                    options@[i as int].short matches Some(s) && s@ == short@,
                    forall|p: int|
                        #![trigger options@[p].short]
                        0 <= p < k ==> !(options@[p].short matches Some(a) && a@ == short@),
                decreases i - k,
            {
                if let Some(prev) = &options[k].short {
                    if str_eq(prev.as_str(), short.as_str()) {
                        return Err(
                            DynamicCliError::Config(
                                ConfigError::InvalidSchema {
                                    reason: "two options share a short form".to_owned(),
                                    path: Some(context.to_owned()),
                                },
                            ),
                        );
                    }
                }
                k += 1;
            }
        }
        if let Some(long) = &opt.long {
            let lc = chars_of(long.as_str());
            if lc.len() == 0 {
                return Err(
                    DynamicCliError::Config(
                        ConfigError::InvalidSchema {
                            reason: "a long option form cannot be empty".to_owned(),
                            path: Some(context.to_owned()),
                        },
                    ),
                );
            }
            let mut k: usize = 0;
            while k < i
                invariant
                    0 <= k <= i < options@.len(),
                    opt == options@[i as int],
                    options@[i as int].long matches Some(l) && l@ == long@,
                    forall|p: int|
                        #![trigger options@[p].long]
                        0 <= p < k ==> !(options@[p].long matches Some(a) && a@ == long@),
                decreases i - k,
            {
                if let Some(prev) = &options[k].long {
                    if str_eq(prev.as_str(), long.as_str()) {
                        return Err(
                            DynamicCliError::Config(
                                ConfigError::InvalidSchema {
                                    reason: "two options share a long form".to_owned(),
                                    path: Some(context.to_owned()),
                                },
                            ),
                        );
                    }
                }
                k += 1;
            }
        }
        i += 1;
    }
    Ok(())
}

/// No option may share its name with a positional argument.
fn check_name_conflicts(
    args: &Vec<ArgumentDefinition>,
    options: &Vec<OptionDefinition>,
    context: &str,
) -> (r: Result<(), DynamicCliError>)
    ensures
        r is Ok <==> spec_no_name_conflicts(args@, options@),
        r matches Err(e) ==> e is Config,
{
    let mut j: usize = 0;
    while j < options.len()
        invariant
            0 <= j <= options@.len(),
            forall|a: int, o: int|
                0 <= a < args@.len() && 0 <= o < j ==> args@[a].name@ != options@[o].name@,
        decreases options@.len() - j,
    {
        let mut a: usize = 0;
        while a < args.len()
            invariant
                0 <= a <= args@.len(),
                0 <= j < options@.len(),
                forall|k: int| 0 <= k < a ==> args@[k].name@ != options@[j as int].name@,
            decreases args@.len() - a,
        {
            if str_eq(args[a].name.as_str(), options[j].name.as_str()) {
                return Err(
                    DynamicCliError::Config(
                        ConfigError::InvalidSchema {
                            reason: "an option has the same name as an argument".to_owned(),
                            path: Some(context.to_owned()),
                        },
                    ),
                );
            }
            a += 1;
        }
        j += 1;
    }
    Ok(())
}

/// Validates a single command definition: argument ordering, name
/// uniqueness, rule consistency, option well-formedness and flag uniqueness.
pub fn validate_command(cmd: &CommandDefinition) -> (r: Result<(), DynamicCliError>)
    ensures
        r is Ok <==> spec_command_ok(*cmd),
        r matches Err(e) ==> e is Config,
{
    match validate_argument_types(&cmd.arguments) {
        Err(e) => {
            return Err(e);
        },
        Ok(_) => {},
    }
    match validate_argument_ordering(&cmd.arguments, cmd.name.as_str()) {
        Err(e) => {
            return Err(e);
        },
        Ok(_) => {},
    }
    match validate_argument_names(&cmd.arguments, cmd.name.as_str()) {
        Err(e) => {
            return Err(e);
        },
        Ok(_) => {},
    }
    match validate_argument_validation_rules(&cmd.arguments, cmd.name.as_str()) {
        Err(e) => {
            return Err(e);
        },
        Ok(_) => {},
    }
    match validate_options(&cmd.options, cmd.name.as_str()) {
        Err(e) => {
            return Err(e);
        },
        Ok(_) => {},
    }
    match validate_option_flags(&cmd.options, cmd.name.as_str()) {
        Err(e) => {
            return Err(e);
        },
        Ok(_) => {},
    }
    match check_name_conflicts(&cmd.arguments, &cmd.options, cmd.name.as_str()) {
        Err(e) => {
            return Err(e);
        },
        Ok(_) => {},
    }
    Ok(())
}

/// Whether `s` is a name or alias of one of the first `i` commands.
fn name_registered_before(cmds: &Vec<CommandDefinition>, i: usize, s: &str) -> (r: bool)
    requires
        i <= cmds@.len(),
    ensures
        r == exists|k: int, m: int|
            0 <= k < i && 0 <= m < spec_cmd_names(cmds@[k]).len() && (
            #[trigger] spec_cmd_names(cmds@[k])[m]) == s@,
{
    let mut k: usize = 0;
    while k < i
        invariant
            0 <= k <= i <= cmds@.len(),
            forall|p: int, m: int|
                #![trigger spec_cmd_names(cmds@[p])[m]]
                0 <= p < k && 0 <= m < spec_cmd_names(cmds@[p]).len() ==> spec_cmd_names(
                    cmds@[p],
                )[m] != s@,
        decreases i - k,
    {
        let ghost names_k = spec_cmd_names(cmds@[k as int]);
        assert(names_k[0] == cmds@[k as int].name@);
        if str_eq(cmds[k].name.as_str(), s) {
            return true;
        }
        let mut m: usize = 0;
        while m < cmds[k].aliases.len()
            invariant
                0 <= m <= cmds@[k as int].aliases@.len(),
                0 <= k < i <= cmds@.len(),
                names_k == spec_cmd_names(cmds@[k as int]),
                names_k[0] != s@,
                names_k.len() == 1 + cmds@[k as int].aliases@.len(),
                forall|q: int| 0 <= q < m + 1 ==> (#[trigger] names_k[q]) != s@,
            decreases cmds@[k as int].aliases@.len() - m,
        {
            assert(names_k[m + 1] == cmds@[k as int].aliases@[m as int]@);
            if str_eq(cmds[k].aliases[m].as_str(), s) {
                return true;
            }
            m += 1;
        }
        k += 1;
    }
    false
}

/// Whether `s` occurs among the first `upto` entries of `v`.
fn contains_prefix(v: &Vec<String>, upto: usize, s: &str) -> (r: bool)
    requires
        upto <= v@.len(),
    ensures
        r == exists|m: int| 0 <= m < upto && (#[trigger] v@[m])@ == s@,
{
    let mut m: usize = 0;
    while m < upto
        invariant
            0 <= m <= upto <= v@.len(),
            forall|q: int| 0 <= q < m ==> (#[trigger] v@[q])@ != s@,
        decreases upto - m,
    {
        if str_eq(v[m].as_str(), s) {
            return true;
        }
        m += 1;
    }
    false
}

/// Validates a whole configuration: every command is valid, command names
/// and implementation keys are non-blank, the union of all names and
/// aliases has no duplicate, and the global options are well-formed.
pub fn validate_config(config: &CommandsConfig) -> (r: Result<(), DynamicCliError>)
    ensures
        r is Ok <==> spec_config_ok(*config),
        r matches Err(e) ==> e is Config,
{
    let cmds = &config.commands;
    let mut i: usize = 0;
    while i < cmds.len()
        invariant
            0 <= i <= cmds@.len(),
            forall|k: int|
                0 <= k < i ==> spec_command_ok(cmds@[k]) && spec_trim(cmds@[k].name@).len() > 0
                    && spec_trim(cmds@[k].implementation@).len() > 0,
            forall|k: int| 0 <= k < i ==> spec_distinct(spec_cmd_names(cmds@[k])),
            forall|k: int, l: int|
                0 <= k < l < i ==> spec_disjoint(spec_cmd_names(cmds@[k]), spec_cmd_names(cmds@[l])),
        decreases cmds@.len() - i,
    {
        let command = &cmds[i];
        match validate_command(command) {
            Err(e) => {
                return Err(e);
            },
            Ok(_) => {},
        }
        let ghost names_i = spec_cmd_names(cmds@[i as int]);
        proof {
            assert(names_i[0] == command.name@);
            assert(names_i.len() == 1 + command.aliases@.len());
        }
        if name_registered_before(cmds, i, command.name.as_str()) {
            assert(!spec_config_ok(*config)) by {
                let (k, m) = choose|k: int, m: int|
                    0 <= k < i && 0 <= m < spec_cmd_names(cmds@[k]).len() && (
                    #[trigger] spec_cmd_names(cmds@[k])[m]) == command.name@;
                assert(!spec_disjoint(spec_cmd_names(cmds@[k]), names_i));
            }
            return Err(
                DynamicCliError::Config(ConfigError::DuplicateCommand { name: command.name.clone() }),
            );
        }
        let mut j: usize = 0;
        while j < command.aliases.len()
            invariant
                0 <= j <= command.aliases@.len(),
                command == cmds@[i as int],
                0 <= i < cmds@.len(),
                names_i == spec_cmd_names(cmds@[i as int]),
                names_i.len() == 1 + command.aliases@.len(),
                forall|k: int, m: int, p: int|
                    #![trigger spec_cmd_names(cmds@[k])[m], names_i[p]]
                    0 <= k < i && 0 <= m < spec_cmd_names(cmds@[k]).len() && 0 <= p < j + 1
                        ==> spec_cmd_names(cmds@[k])[m] != names_i[p],
                forall|p: int, q: int|
                    #![trigger names_i[p], names_i[q]]
                    0 <= p < q < j + 1 ==> names_i[p] != names_i[q],
            decreases command.aliases@.len() - j,
        {
            let alias = &command.aliases[j];
            assert(names_i[j + 1] == alias@);
            if name_registered_before(cmds, i, alias.as_str()) {
                assert(!spec_config_ok(*config)) by {
                    let (k, m) = choose|k: int, m: int|
                        0 <= k < i && 0 <= m < spec_cmd_names(cmds@[k]).len() && (
                        #[trigger] spec_cmd_names(cmds@[k])[m]) == alias@;
                    assert(!spec_disjoint(spec_cmd_names(cmds@[k]), names_i));
                }
                return Err(
                    DynamicCliError::Config(ConfigError::DuplicateCommand { name: alias.clone() }),
                );
            }
            if str_eq(alias.as_str(), command.name.as_str()) {
                assert(names_i[0] == names_i[j + 1]);
                assert(!spec_distinct(names_i));
                return Err(
                    DynamicCliError::Config(ConfigError::DuplicateCommand { name: alias.clone() }),
                );
            }
            if contains_prefix(&command.aliases, j, alias.as_str()) {
                assert(!spec_distinct(names_i)) by {
                    let m = choose|m: int| 0 <= m < j && (#[trigger] command.aliases@[m])@ == alias@;
                    assert(names_i[m + 1] == names_i[j + 1]);
                }
                return Err(
                    DynamicCliError::Config(ConfigError::DuplicateCommand { name: alias.clone() }),
                );
            }
            j += 1;
        }
        if is_blank_string(&command.name) {
            return Err(
                DynamicCliError::Config(
                    ConfigError::InvalidSchema {
                        reason: "command name cannot be empty".to_owned(),
                        path: Some(command.name.clone()),
                    },
                ),
            );
        }
        if is_blank_string(&command.implementation) {
            return Err(
                DynamicCliError::Config(
                    ConfigError::InvalidSchema {
                        reason: "command implementation cannot be empty".to_owned(),
                        path: Some(command.name.clone()),
                    },
                ),
            );
        }
        proof {
            assert forall|k: int| 0 <= k < i implies spec_disjoint(
                spec_cmd_names(cmds@[k]),
                names_i,
            ) by {
                assert(forall|m: int, p: int|
                    #![trigger spec_cmd_names(cmds@[k])[m], names_i[p]]
                    0 <= m < spec_cmd_names(cmds@[k]).len() && 0 <= p < names_i.len()
                        ==> spec_cmd_names(cmds@[k])[m] != names_i[p]);
            }
            assert(spec_distinct(names_i));
        }
        i += 1;
    }
    match validate_options(&config.global_options, "global_options") {
        Err(e) => {
            return Err(e);
        },
        Ok(_) => {},
    }
    Ok(())
}

} // verus!
