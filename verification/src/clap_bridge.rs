//! The command-line description handed to `clap`: what clap asserts of a
//! command, building the clap commands for a description, matching
//! arguments, and reading what was matched.

use vstd::prelude::*;

use crate::clap_calls::{clap_arg, clap_command, clap_match, clap_root, BuiltArg, ClapRoot, ClapTree};
use crate::cli::{args_view, root_view, CliAction, CliArgView, CliCommand, CliRoot, CliRootView};

verus! {

/// How many of `args` before position `i` are positional.
pub open spec fn positionals_before(args: Seq<CliArgView>, i: int) -> nat
    decreases i,
{
    if i <= 0 {
        0
    } else {
        positionals_before(args, i - 1) + if args[i - 1].index is Some {
            1nat
        } else {
            0nat
        }
    }
}

/// A positional argument that takes several values is the last positional
/// one, or the one before a last one that is required and takes one value.
pub open spec fn repeated_positional_ok(args: Seq<CliArgView>, i: int) -> bool {
    ||| forall|j: int| i < j < args.len() ==> (#[trigger] args[j]).index is None
    ||| exists|j: int|
        i < j < args.len() && (#[trigger] args[j]).index is Some && args[j].required
            && !args[j].at_least_one && forall|k: int|
            i < k < args.len() && k != j ==> (#[trigger] args[k]).index is None
}

/// The arguments of one command keep to what clap asserts of a command
/// when it builds it: distinct ids, long and short names, none taken by the
/// built-in help flag, argument shapes that clap can build, positions 1, 2,
/// ... in order, no optional positional before a required one, and a
/// positional argument with several values only where clap can tell where
/// it ends.
pub open spec fn level_safe(args: Seq<CliArgView>) -> bool {
    &&& ids_ok(args)
    &&& longs_ok(args)
    &&& shorts_ok(args)
    &&& shapes_ok(args)
    &&& indexes_ok(args)
    &&& required_order_ok(args)
    &&& repeated_ok(args)
}

/// Each argument has a shape clap builds: a positional one has no names,
/// takes values, and collects several exactly when it takes one or more;
/// any other one has a long or a short name; and one that takes one or
/// more values collects them.
#[verifier::opaque]
pub open spec fn shapes_ok(args: Seq<CliArgView>) -> bool {
    forall|i: int|
        0 <= i < args.len() ==> {
            &&& (#[trigger] args[i]).index is Some ==> args[i].long is None && args[i].short is None
                && args[i].action != Some(CliAction::SetTrue) && (args[i].action == Some(
                CliAction::Append) <==> args[i].at_least_one)
            &&& args[i].index is None ==> args[i].long is Some || args[i].short is Some
            &&& args[i].at_least_one ==> args[i].action == Some(CliAction::Append)
        }
}

/// Distinct ids, none of them `help`.
#[verifier::opaque]
pub open spec fn ids_ok(args: Seq<CliArgView>) -> bool {
    &&& forall|i: int, j: int|
        0 <= i < j < args.len() ==> (#[trigger] args[i]).id != (#[trigger] args[j]).id
    &&& forall|i: int| 0 <= i < args.len() ==> (#[trigger] args[i]).id != "help"@
}

/// Distinct long names, none of them `help` and none starting with `-`.
#[verifier::opaque]
pub open spec fn longs_ok(args: Seq<CliArgView>) -> bool {
    &&& forall|i: int, j: int|
        0 <= i < j < args.len() && (#[trigger] args[i]).long is Some ==> args[i].long != (
        #[trigger] args[j]).long
    &&& forall|i: int|
        0 <= i < args.len() ==> (#[trigger] args[i]).long != Some("help"@) && !(args[i].long matches Some(
            l,
        ) && l.len() > 0 && l[0] == '-')
}

/// Distinct short names, none of them `h` or `-`.
#[verifier::opaque]
pub open spec fn shorts_ok(args: Seq<CliArgView>) -> bool {
    &&& forall|i: int, j: int|
        0 <= i < j < args.len() && (#[trigger] args[i]).short is Some ==> args[i].short != (
        #[trigger] args[j]).short
    &&& forall|i: int|
        0 <= i < args.len() ==> (#[trigger] args[i]).short != Some('h') && args[i].short != Some(
            '-',
        )
}

/// Positional arguments at positions 1, 2, ... in order.
#[verifier::opaque]
pub open spec fn indexes_ok(args: Seq<CliArgView>) -> bool {
    forall|i: int|
        0 <= i < args.len() && (#[trigger] args[i]).index is Some ==> args[i].index->0 == 1
            + positionals_before(args, i)
}

/// No optional positional argument before a required one.
#[verifier::opaque]
pub open spec fn required_order_ok(args: Seq<CliArgView>) -> bool {
    forall|i: int, j: int|
        0 <= i < j < args.len() && (#[trigger] args[i]).index is Some && (
        #[trigger] args[j]).index is Some && args[j].required ==> args[i].required
}

/// Several values only for a positional argument where clap can tell where they end.
#[verifier::opaque]
pub open spec fn repeated_ok(args: Seq<CliArgView>) -> bool {
    forall|i: int|
        0 <= i < args.len() && (#[trigger] args[i]).at_least_one ==> args[i].index is Some
            && repeated_positional_ok(args, i)
}

/// No two of `cs` have the same name.
pub open spec fn names_distinct(cs: Seq<CliCommand>) -> bool {
    forall|i: int, j: int| 0 <= i < j < cs.len() ==> (#[trigger] cs[i]).name@ != (#[trigger] cs[j]).name@
}

/// No argument of `args` has the short name `-`, on which `Arg::short` asserts.
pub open spec fn shorts_buildable(args: Seq<CliArgView>) -> bool {
    forall|i: int| 0 <= i < args.len() ==> (#[trigger] args[i]).short != Some('-')
}

/// Every argument of `c` and of the commands below it can be built.
pub open spec fn tree_buildable(c: CliCommand) -> bool
    decreases c,
{
    &&& shorts_buildable(args_view(c.args@))
    &&& forall|i: int|
        0 <= i < c.subcommands@.len() ==> tree_buildable(#[trigger] c.subcommands@[i])
}

/// Every argument of the commands below `root` can be built.
pub open spec fn root_buildable(root: CliRoot) -> bool {
    forall|i: int| 0 <= i < root.subcommands@.len() ==> tree_buildable(#[trigger] root.subcommands@[i])
}

/// `c` itself keeps to what clap asserts when it builds it: its arguments
/// are `level_safe` and no two of its subcommands have one name.
pub open spec fn command_safe(c: CliCommand) -> bool {
    &&& level_safe(args_view(c.args@))
    &&& names_distinct(c.subcommands@)
}

/// A long option other than clap's own `--help`: where a command has no
/// long option of that name, clap looks through its subcommands for a
/// similar one to suggest.
pub open spec fn unknown_long_option(a: Seq<char>) -> bool {
    a.len() > 2 && a[0] == '-' && a[1] == '-' && a != "--help"@
}

/// The commands below `subcommands` that clap builds, and so checks, while
/// it matches `rest` there are safe: the one named by the first of `rest`,
/// with those it builds below it for the remaining ones, and, where the first
/// of `rest` is a long option other than `--help`, each of `subcommands`
/// (clap builds them to look for a similar option name to suggest).
pub open spec fn subcommands_safe_along(subcommands: Seq<CliCommand>, rest: Seq<Seq<char>>) -> bool
    decreases subcommands,
{
    &&& forall|i: int|
        0 <= i < subcommands.len() && rest.len() > 0 && (#[trigger] subcommands[i]).name@ == rest[0]
            ==> command_safe(subcommands[i]) && subcommands_safe_along(
            subcommands[i].subcommands@,
            rest.drop_first(),
        )
    &&& (rest.len() > 0 && unknown_long_option(rest[0])) ==> forall|i: int|
        0 <= i < subcommands.len() ==> command_safe(#[trigger] subcommands[i])
}

/// What clap matches of `argv`: all but the binary name in front.
pub open spec fn matched_words(argv: Seq<Seq<char>>) -> Seq<Seq<char>> {
    if argv.len() > 0 {
        argv.drop_first()
    } else {
        argv
    }
}

/// The commands that clap builds, and so checks, while it matches `argv`
/// against the command built from `root` keep to its debug assertions: the
/// root, which has no arguments, has subcommands of distinct names, and
/// the commands it builds below are safe. Clap's own `help` subcommand is
/// off, so that no name can clash with it.
pub open spec fn root_safe_along(root: CliRoot, argv: Seq<Seq<char>>) -> bool {
    &&& !root.help_subcommand
    &&& names_distinct(root.subcommands@)
    &&& subcommands_safe_along(root.subcommands@, matched_words(argv))
}

/// What clap answers for one command line, as plain values: its help
/// output, its error, or the path of subcommands it matched together with
/// the raw values of the matched leaf command, by argument id.
pub enum ClapOutcome {
    Help(Seq<char>),
    Failure(Seq<char>),
    Matched(Seq<Seq<char>>, Seq<(Seq<char>, Seq<Seq<char>>)>),
}

/// The executable form of `ClapOutcome`.
#[derive(Debug)]
pub enum ClapAnswer {
    Help(String),
    Failure(String),
    Matched(Vec<String>, Vec<(String, Vec<String>)>),
}

/// The model of raw values by argument id.
pub open spec fn raw_values_view(values: Seq<(String, Vec<String>)>) -> Seq<(Seq<char>, Seq<Seq<char>>)> {
    values.map_values(|e: (String, Vec<String>)| (e.0@, crate::contract::strings_view(e.1@)))
}

impl View for ClapAnswer {
    type V = ClapOutcome;

    open spec fn view(&self) -> ClapOutcome {
        match self {
            ClapAnswer::Help(t) => ClapOutcome::Help(t@),
            ClapAnswer::Failure(t) => ClapOutcome::Failure(t@),
            ClapAnswer::Matched(path, values) => ClapOutcome::Matched(
                crate::contract::strings_view(path@),
                raw_values_view(values@),
            ),
        }
    }
}

/// What clap answers for `argv` on the command built from a description
/// with model `root`: a function of the model and the arguments alone.
pub uninterp spec fn clap_outcome(root: CliRootView, argv: Seq<Seq<char>>) -> ClapOutcome;

/// Builds the `clap::Command` for `c` and its subcommands.
pub fn to_clap(c: &CliCommand) -> (r: ClapTree)
    requires
        tree_buildable(*c),
    ensures
        r.model() == *c,
    decreases *c,
{
    let mut args: Vec<BuiltArg> = Vec::new();
    let mut k: usize = 0;
    while k < c.args.len()
        invariant
            tree_buildable(*c),
            k <= c.args.len(),
            args@.len() == k,
            forall|j: int| 0 <= j < k ==> (#[trigger] args@[j]).source() == c.args@[j]@,
        decreases c.args.len() - k,
    {
        proof {
            assert(args_view(c.args@)[k as int] == c.args@[k as int]@);
        }
        args.push(clap_arg(&c.args[k]));
        k = k + 1;
    }
    let mut subcommands: Vec<ClapTree> = Vec::new();
    let mut i: usize = 0;
    while i < c.subcommands.len()
        invariant
            tree_buildable(*c),
            i <= c.subcommands.len(),
            subcommands@.len() == i,
            forall|j: int| 0 <= j < i ==> (#[trigger] subcommands@[j]).model() == c.subcommands@[j],
        decreases c.subcommands.len() - i,
    {
        assert(tree_buildable(c.subcommands@[i as int]));
        let sub = to_clap(&c.subcommands[i]);
        subcommands.push(sub);
        i = i + 1;
    }
    clap_command(c, args, subcommands)
}

/// Builds the root `clap::Command` and the commands below it.
pub fn root_to_clap(root: &CliRoot) -> (r: ClapRoot)
    requires
        root_buildable(*root),
    ensures
        r.model() == *root,
{
    let mut subcommands: Vec<ClapTree> = Vec::new();
    let mut i: usize = 0;
    while i < root.subcommands.len()
        invariant
            root_buildable(*root),
            i <= root.subcommands.len(),
            subcommands@.len() == i,
            forall|j: int| 0 <= j < i ==> (#[trigger] subcommands@[j]).model() == root.subcommands@[j],
        decreases root.subcommands.len() - i,
    {
        assert(tree_buildable(root.subcommands@[i as int]));
        let sub = to_clap(&root.subcommands[i]);
        subcommands.push(sub);
        i = i + 1;
    }
    clap_root(root, subcommands)
}

/// Matches `argv` against the command built from `root`.
pub fn match_command_line(root: &CliRoot, argv: Vec<String>) -> (r: ClapAnswer)
    requires
        root_buildable(*root),
        root_safe_along(*root, crate::contract::strings_view(argv@)),
    ensures
        r@ == clap_outcome(root_view(*root), crate::contract::strings_view(argv@)),
{
    let built = root_to_clap(root);
    clap_match(&built, argv)
}

} // verus!
