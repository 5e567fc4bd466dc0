//! The calls into `clap` that build commands from their descriptions and
//! match arguments. A built command carries the description it was built
//! from; only the builders here can make one, so a command stands for its
//! description.

use vstd::prelude::*;

use clap::builder::{Resettable, Str, StyledStr, ValueRange};
use clap::error::ErrorKind::{DisplayHelp, DisplayHelpOnMissingArgumentOrSubcommand, DisplayVersion};

use crate::clap_bridge::{clap_outcome, root_safe_along, ClapAnswer};
use crate::cli::{root_view, CliAction, CliArg, CliArgView, CliCommand, CliRoot};

verus! {

#[verifier::external_type_specification]
#[verifier::external_body]
pub struct ExClapCommand(clap::Command);

#[verifier::external_type_specification]
#[verifier::external_body]
pub struct ExClapArgMatches(clap::ArgMatches);

#[verifier::external_type_specification]
#[verifier::external_body]
pub struct ExClapArg(clap::Arg);

/// A `clap::Arg` and the description it was built from.
pub struct BuiltArg {
    arg: clap::Arg,
    source: Ghost<CliArgView>,
}

impl BuiltArg {
    /// The description this argument was built from.
    pub closed spec fn source(&self) -> CliArgView {
        self.source@
    }
}

/// A `clap::Command` and the description it was built from.
pub struct ClapTree {
    command: clap::Command,
    model: Ghost<CliCommand>,
}

impl ClapTree {
    /// The description this command was built from.
    pub closed spec fn model(&self) -> CliCommand {
        self.model@
    }
}

/// The root `clap::Command` and the description it was built from.
pub struct ClapRoot {
    command: clap::Command,
    model: Ghost<CliRoot>,
}

impl ClapRoot {
    /// The description this command was built from.
    pub closed spec fn model(&self) -> CliRoot {
        self.model@
    }
}

/// Builds a `clap::Arg` from the description of one argument with
/// `Arg::new`, `help`, `required`, `index`, `long`, `short`, `value_name`,
/// `num_args` (`1..` for a positional argument with several values) and
/// `action` (`Append`, `SetTrue` or clap's default), each set from the
/// field of the same name. The result records that description; `requires`
/// rules out the short name `-`, on which `Arg::short` asserts.
#[verifier::external_body]
pub(crate) fn clap_arg(a: &CliArg) -> (r: BuiltArg)
    requires
        a@.short != Some('-'),
    ensures
        r.source() == a@,
{
    let action = match a.action {
        Some(CliAction::Append) => Some(clap::ArgAction::Append),
        Some(CliAction::SetTrue) => Some(clap::ArgAction::SetTrue),
        None => None,
    };
    let arg = clap::Arg::new(a.id.clone()).help(a.help.clone()).required(a.required)
        .index(Resettable::from(a.index)).short(Resettable::from(a.short))
        .long(Resettable::from(a.long.clone().map(Str::from)))
        .value_name(Resettable::from(a.value_name.clone().map(Str::from)))
        .num_args(Resettable::from(a.at_least_one.then_some(ValueRange::new(1..))))
        .action(Resettable::from(action));
    BuiltArg { arg, source: Ghost(a@) }
}

/// Builds a `clap::Command` named after `level` with `Command::new`, `about`,
/// `long_about`, `args`, `subcommands`, and, for a group,
/// `subcommand_required` and `arg_required_else_help`. The arguments and
/// subcommands handed in must have been built from those of `level`, in
/// order; the result then is the command for `level`. These setters assert
/// nothing; clap checks the command when it builds it during matching.
#[verifier::external_body]
pub(crate) fn clap_command(level: &CliCommand, args: Vec<BuiltArg>, subcommands: Vec<ClapTree>) -> (r:
    ClapTree)
    requires
        args@.len() == level.args@.len(),
        forall|k: int| 0 <= k < args@.len() ==> (#[trigger] args@[k]).source() == level.args@[k]@,
        subcommands@.len() == level.subcommands@.len(),
        forall|i: int| 0 <= i < subcommands@.len() ==> (#[trigger] subcommands@[i]).model() == level.subcommands@[i],
    ensures
        r.model() == *level,
{
    let command = clap::Command::new(level.name.clone())
        .about(Resettable::from(level.about.clone().map(StyledStr::from)))
        .long_about(Resettable::from(level.long_about.clone().map(StyledStr::from)))
        .args(args.into_iter().map(|a| a.arg))
        .subcommands(subcommands.into_iter().map(|t| t.command))
        .subcommand_required(level.requires_subcommand)
        .arg_required_else_help(level.requires_subcommand);
    ClapTree { command, model: Ghost(*level) }
}

/// Builds the root `clap::Command` named after `root` with `Command::new`,
/// `disable_help_subcommand` (unless `root` asks for clap's help
/// subcommand), `subcommand_required`, `arg_required_else_help` (both where
/// `root` requires a subcommand) and `subcommands`. The subcommands handed in
/// must have been built from those of `root`, in order; the result then is
/// the command for `root`. These setters assert nothing.
#[verifier::external_body]
pub(crate) fn clap_root(root: &CliRoot, subcommands: Vec<ClapTree>) -> (r: ClapRoot)
    requires
        subcommands@.len() == root.subcommands@.len(),
        forall|i: int| 0 <= i < subcommands@.len() ==> (#[trigger] subcommands@[i]).model() == root.subcommands@[i],
    ensures
        r.model() == *root,
{
    let command = clap::Command::new(root.name.clone())
        .disable_help_subcommand(!root.help_subcommand)
        .subcommand_required(root.requires_subcommand)
        .arg_required_else_help(root.requires_subcommand)
        .subcommands(subcommands.into_iter().map(|t| t.command));
    ClapRoot { command, model: Ghost(*root) }
}

/// Calls `Command::try_get_matches_from` on `argv` with the command that
/// `root_to_clap` built. An error becomes its rendered text (`to_string`),
/// as help output where its `kind` is `DisplayHelp`,
/// `DisplayHelpOnMissingArgumentOrSubcommand` or `DisplayVersion`. Matches
/// become the names of the subcommands taken (`remove_subcommand`) and, for
/// the last one, each id (`ids`) with its raw values (`get_raw`). The
/// contract names the answer as a function of the description and `argv`.
/// Clap runs its debug assertions on each command when it builds it
/// (`Command::_build_self`): the root, each subcommand it matches
/// (`_build_subcommand`), and, where a long option is unknown, the
/// subcommands of the command being matched, to suggest a similar option
/// (`did_you_mean_flag`). `root_safe_along` keeps every such command to
/// those assertions; the command is the one `root_to_clap` built from the
/// model.
#[verifier::external_body]
pub(crate) fn clap_match(built: &ClapRoot, argv: Vec<String>) -> (r: ClapAnswer)
    requires
        root_safe_along(built.model(), crate::contract::strings_view(argv@)),
    ensures
        r@ == clap_outcome(root_view(built.model()), crate::contract::strings_view(argv@)),
{
    let mut m = match built.command.clone().try_get_matches_from(argv) {
        Ok(m) => m,
        Err(e) if matches!(e.kind(), DisplayHelp | DisplayHelpOnMissingArgumentOrSubcommand
            | DisplayVersion) => return ClapAnswer::Help(e.to_string()),
        Err(e) => return ClapAnswer::Failure(e.to_string()),
    };
    let mut path = Vec::new();
    while let Some((name, sub)) = m.remove_subcommand() {
        path.push(name);
        m = sub;
    }
    let values = m.ids().map(|id| (id.to_string(), m.get_raw(id.as_str()).into_iter().flatten()
        .map(|v| v.to_string_lossy().into_owned()).collect())).collect();
    ClapAnswer::Matched(path, values)
}

} // verus!
