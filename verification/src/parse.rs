//! Parsing a command line against a catalog: tokenizing, matching with clap,
//! and resolving the matched catalog command into its argument envelope.

use vstd::prelude::*;
use vstd::string::StrSliceExecFns;
use vstd::string::StringExecFns;

use crate::clap_bridge::{
    clap_outcome, match_command_line, raw_values_view, root_buildable, root_safe_along, ClapAnswer,
    ClapOutcome,
};
use crate::cli::{
    build_clap_command, build_tree, clap_safe_for, collected, dash_shorts_absent, found_view, has_arg_error,
    has_leaf_group, is_cli_command, is_tree_node, json_arg_id, least_arg_error, least_leaf_group,
    matches_catalog_path, msg_leaf_group, offers_json, params_arg_error, parameter_counts_fit,
    resolution, resolve_command, root_view, targets_catalog, tree_scan_error, CliRoot, CommandNode,
    FoundValue, FoundView, ParseError, ParseOutcome,
};
use crate::contract::{catalog_view, strings_view, CommandDefinition, CommandView, ParameterKind, ParameterView};
use crate::json::parses_as_json_object;
use crate::text::{joined_path, text_equal};

verus! {

// ---------------------------------------------------------------------------
// What clap's answer becomes
// ---------------------------------------------------------------------------

/// The raw values clap reports for argument `id`: those of the first entry
/// with that id.
pub open spec fn raw_lookup(values: Seq<(Seq<char>, Seq<Seq<char>>)>, id: Seq<char>) -> Option<
    Seq<Seq<char>>,
>
    decreases values.len(),
{
    if values.len() == 0 {
        None
    } else if values[0].0 == id {
        Some(values[0].1)
    } else {
        raw_lookup(values.drop_first(), id)
    }
}

/// A flag was given: clap reports `true` for it.
pub open spec fn flag_given(values: Seq<(Seq<char>, Seq<Seq<char>>)>, id: Seq<char>) -> bool {
    raw_lookup(values, id) == Some(seq!["true"@])
}

/// What the raw values give for parameter `p`.
pub open spec fn found_from(p: ParameterView, values: Seq<(Seq<char>, Seq<Seq<char>>)>) -> FoundView {
    if p.kind == ParameterKind::Flag {
        FoundView::Flag(flag_given(values, p.id))
    } else if p.multiple {
        FoundView::Many(raw_lookup(values, p.id))
    } else {
        FoundView::One(
            match raw_lookup(values, p.id) {
                Some(vs) => if vs.len() > 0 {
                    Some(vs[0])
                } else {
                    None
                },
                None => None,
            },
        )
    }
}

/// What the raw values give for each of the parameters `ps`.
pub open spec fn found_for(ps: Seq<ParameterView>, values: Seq<(Seq<char>, Seq<Seq<char>>)>) -> Seq<
    FoundView,
> {
    Seq::new(ps.len(), |i: int| found_from(ps[i], values))
}

/// `k` is the first command of `cs` whose path is `path`.
pub open spec fn first_with_path(cs: Seq<CommandView>, path: Seq<Seq<char>>, k: int) -> bool {
    &&& 0 <= k < cs.len()
    &&& cs[k].path == path
    &&& forall|j: int| 0 <= j < k ==> (#[trigger] cs[j]).path != path
}

pub open spec fn msg_not_a_leaf() -> Seq<char> {
    "parsed command does not identify a catalog leaf"@
}

/// `r` is what command `c` parses into, given the raw values clap reported
/// for it: the argument envelope of what they give for its parameters, or
/// the first choice error, with JSON output where `c` offers it and the flag
/// was given.
pub open spec fn leaf_result(
    c: CommandView,
    values: Seq<(Seq<char>, Seq<Seq<char>>)>,
    r: Result<ParseOutcome, ParseError>,
) -> bool {
    let found = found_for(c.parameters, values);
    let json = offers_json(c) && flag_given(values, json_arg_id());
    match collected(c.parameters, found) {
        Err(m) => r matches Err(e) && e@ == m,
        Ok(es) => r matches Ok(ParseOutcome::Command(p)) && resolution(c, found, json, p)
            && parses_as_json_object(p.arguments_json@),
    }
}

/// `r` is what clap's `outcome` becomes on catalog `cs`: its help, its error,
/// or, for matched subcommands, the first catalog command with their path
/// resolved from the raw values (an error where no command has that path).
pub open spec fn answer_result(
    cs: Seq<CommandView>,
    outcome: ClapOutcome,
    r: Result<ParseOutcome, ParseError>,
) -> bool {
    match outcome {
        ClapOutcome::Help(t) => r matches Ok(ParseOutcome::Help(h)) && h@ == t,
        ClapOutcome::Failure(t) => r matches Err(e) && e@ == t,
        ClapOutcome::Matched(path, values) => if forall|k: int|
            0 <= k < cs.len() ==> (#[trigger] cs[k]).path != path {
            r matches Err(e) && e@ == msg_not_a_leaf()
        } else {
            exists|k: int| first_with_path(cs, path, k) && leaf_result(cs[k], values, r)
        },
    }
}

/// The position of the first catalog command whose path is `path`.
pub fn find_leaf(catalog: &[CommandDefinition], path: &Vec<String>) -> (r: Result<usize, ParseError>)
    ensures
        ({
            let cs = catalog_view(catalog@);
            let p = strings_view(path@);
            &&& r matches Ok(k) ==> k < cs.len() && cs[k as int].path == p && forall|j: int|
                0 <= j < k ==> (#[trigger] cs[j]).path != p
            &&& r is Err <==> forall|j: int| 0 <= j < cs.len() ==> (#[trigger] cs[j]).path != p
            &&& r matches Err(e) ==> e@ == msg_not_a_leaf()
        }),
{
    let ghost cs = catalog_view(catalog@);
    let ghost p = strings_view(path@);
    let mut k: usize = 0;
    while k < catalog.len()
        invariant
            cs == catalog_view(catalog@),
            p == strings_view(path@),
            k <= catalog.len(),
            forall|j: int| 0 <= j < k ==> (#[trigger] cs[j]).path != p,
        decreases catalog.len() - k,
    {
        let candidate = &catalog[k].path;
        assert(cs[k as int].path == strings_view(candidate@));
        if candidate.len() == path.len() && crate::cli::agree_on_prefix(candidate, path.as_slice(), path.len()) {
            assert(strings_view(candidate@).subrange(0, path.len() as int) =~= strings_view(candidate@));
            assert(p.subrange(0, path.len() as int) =~= p);
            return Ok(k);
        }
        proof {
            if candidate.len() == path.len() {
                assert(strings_view(candidate@).subrange(0, path.len() as int) =~= strings_view(
                    candidate@,
                ));
                assert(p.subrange(0, path.len() as int) =~= p);
            }
        }
        k = k + 1;
    }
    Err(ParseError::new(String::from_str("parsed command does not identify a catalog leaf")))
}

/// The raw values for `id`, as `raw_lookup` gives them.
fn lookup_raw<'a>(values: &'a Vec<(String, Vec<String>)>, id: &str) -> (r: Option<&'a Vec<String>>)
    ensures
        match raw_lookup(raw_values_view(values@), id@) {
            Some(vs) => r matches Some(v) && strings_view(v@) == vs,
            None => r is None,
        },
{
    let ghost vv = raw_values_view(values@);
    assert(vv.subrange(0, vv.len() as int) =~= vv);
    let mut i: usize = 0;
    while i < values.len()
        invariant
            vv == raw_values_view(values@),
            i <= values.len(),
            raw_lookup(vv, id@) == raw_lookup(vv.subrange(i as int, vv.len() as int), id@),
        decreases values.len() - i,
    {
        let ghost rest = vv.subrange(i as int, vv.len() as int);
        assert(rest[0] == vv[i as int]);
        assert(rest.drop_first() =~= vv.subrange(i + 1, vv.len() as int));
        if text_equal(values[i].0.as_str(), id) {
            return Some(&values[i].1);
        }
        i = i + 1;
    }
    assert(vv.subrange(i as int, vv.len() as int).len() == 0);
    None
}

/// Whether the raw values report flag `id` as given.
fn flag_is_given(values: &Vec<(String, Vec<String>)>, id: &str) -> (r: bool)
    ensures
        r == flag_given(raw_values_view(values@), id@),
{
    proof {
        reveal_strlit("true");
    }
    match lookup_raw(values, id) {
        Some(v) => {
            let given = v.len() == 1 && text_equal(v[0].as_str(), "true");
            proof {
                let t = seq!["true"@];
                assert(t.len() == 1 && t[0] == "true"@);
                assert(strings_view(v@).len() == v.len());
                if v.len() == 1 {
                    assert(strings_view(v@)[0] == v@[0]@);
                    if v@[0]@ == "true"@ {
                        assert(strings_view(v@) =~= t);
                    }
                }
            }
            given
        },
        None => false,
    }
}

/// What the raw values give for each parameter of `definition`.
pub fn found_values(definition: &CommandDefinition, values: &Vec<(String, Vec<String>)>) -> (found: Vec<
    FoundValue,
>)
    ensures
        found_view(found@) == found_for(definition@.parameters, raw_values_view(values@)),
{
    let ghost ps = definition@.parameters;
    let ghost vv = raw_values_view(values@);
    let mut found: Vec<FoundValue> = Vec::new();
    let mut i: usize = 0;
    while i < definition.parameters.len()
        invariant
            ps == definition@.parameters,
            vv == raw_values_view(values@),
            i <= ps.len(),
            found@.len() == i,
            forall|j: int| 0 <= j < i ==> (#[trigger] found@[j])@ == found_from(ps[j], vv),
        decreases ps.len() - i,
    {
        let parameter = &definition.parameters[i];
        assert(ps[i as int] == parameter@);
        let id = parameter.id.as_str();
        let value = if parameter.kind == ParameterKind::Flag {
            FoundValue::Flag(flag_is_given(values, id))
        } else if parameter.multiple {
            FoundValue::Many(
                match lookup_raw(values, id) {
                    Some(v) => Some(crate::contract::copy_strings(v)),
                    None => None,
                },
            )
        } else {
            FoundValue::One(
                match lookup_raw(values, id) {
                    Some(v) => if v.len() > 0 {
                        assert(strings_view(v@)[0] == v@[0]@);
                        Some(v[0].clone())
                    } else {
                        None
                    },
                    None => None,
                },
            )
        };
        found.push(value);
        i = i + 1;
    }
    assert(found_view(found@) =~= found_for(ps, vv));
    found
}

/// What clap's answer becomes on `catalog`.
pub fn resolve_answer(catalog: &[CommandDefinition], answer: ClapAnswer) -> (r: Result<
    ParseOutcome,
    ParseError,
>)
    ensures
        answer_result(catalog_view(catalog@), answer@, r),
{
    let ghost cs = catalog_view(catalog@);
    match answer {
        ClapAnswer::Help(text) => Ok(ParseOutcome::Help(text)),
        ClapAnswer::Failure(text) => Err(ParseError::new(text)),
        ClapAnswer::Matched(path, values) => {
            let ghost vv = raw_values_view(values@);
            let index = match find_leaf(catalog, &path) {
                Ok(k) => k,
                Err(e) => {
                    return Err(e);
                },
            };
            let definition = &catalog[index];
            assert(cs[index as int] == definition@);
            assert(first_with_path(cs, strings_view(path@), index as int));
            let found = found_values(definition, &values);
            let json_requested = crate::cli::supports_output(
                definition,
                &crate::contract::OutputFormat::Json,
            ) && flag_is_given(&values, "__lenso_output_json");
            match resolve_command(definition, &found, json_requested) {
                Ok(p) => {
                    assert(leaf_result(cs[index as int], vv, Ok(ParseOutcome::Command(p))));
                    Ok(ParseOutcome::Command(p))
                },
                Err(e) => {
                    assert(leaf_result(cs[index as int], vv, Err(e)));
                    Err(e)
                },
            }
        },
    }
}

// ---------------------------------------------------------------------------
// The command-line description of a catalog
// ---------------------------------------------------------------------------

/// The catalog gets as far as clap: its tree builds, no command path is
/// also a group, and every parameter becomes an argument.
pub open spec fn reaches_clap(cs: Seq<CommandView>) -> bool {
    &&& tree_scan_error(cs) is None
    &&& !has_leaf_group(cs)
    &&& !has_arg_error(cs)
}

/// `root` is the command-line description of catalog `cs` under `binary`:
/// one subcommand for each child of the catalog's command tree.
pub open spec fn root_for(cs: Seq<CommandView>, binary: Seq<char>, root: CliRoot) -> bool {
    &&& root.name@ == binary
    &&& root.requires_subcommand
    &&& !root.help_subcommand
    &&& exists|t: CommandNode|
        #[trigger] is_tree_node(t, cs, Seq::empty()) && root.subcommands@.len() == t.children@.len()
            && forall|i: int|
            0 <= i < t.children@.len() ==> is_cli_command(
                #[trigger] root.subcommands@[i],
                t.children@[i].name@,
                t.children@[i].node,
                cs,
            )
}

/// `r` is what preparing catalog `cs` for the command line under `binary`
/// gives: the first duplicate id or path, the least command path that is
/// also a group, the parameter problem of the least command path that has
/// one, or the command-line description.
pub open spec fn preparation(cs: Seq<CommandView>, binary: Seq<char>, r: Result<CliRoot, ParseError>) -> bool {
    &&& r is Ok <==> reaches_clap(cs)
    &&& tree_scan_error(cs) matches Some(m) ==> (r matches Err(e) && e@ == m)
    &&& (tree_scan_error(cs) is None && has_leaf_group(cs)) ==> (r matches Err(e) && exists|p: Seq<Seq<char>>|
        least_leaf_group(cs, p) && e@ == msg_leaf_group(joined_path(p)))
    &&& (tree_scan_error(cs) is None && !has_leaf_group(cs) && has_arg_error(cs)) ==> (r matches Err(e)
        && exists|k: int| least_arg_error(cs, k) && params_arg_error(#[trigger] cs[k].parameters) == Some(e@))
    &&& r matches Ok(root) ==> root_for(cs, binary, root)
    &&& r matches Ok(root) ==> (dash_shorts_absent(cs) ==> root_buildable(root))
    &&& r matches Ok(root) ==> forall|args: Seq<Seq<char>>|
        #[trigger] clap_safe_for(cs, args) ==> root_safe_along(root, seq![binary] + args)
}

/// A catalog that places into the tree without a problem has no command at
/// the empty path.
proof fn lemma_scan_ok_nonempty(cs: Seq<CommandView>, k: int)
    requires
        tree_scan_error(cs) is None,
        0 <= k < cs.len(),
    ensures
        cs[k].path.len() > 0,
    decreases cs.len(),
{
    if k < cs.len() - 1 {
        assert(cs.drop_last()[k] == cs[k]);
        lemma_scan_ok_nonempty(cs.drop_last(), k);
    }
}

/// Builds the command tree of `catalog` and its command-line description
/// under `binary_name`, or reports why the catalog cannot reach clap.
pub fn prepare_command_line(catalog: &[CommandDefinition], binary_name: &str) -> (r: Result<
    CliRoot,
    ParseError,
>)
    requires
        parameter_counts_fit(catalog@),
    ensures
        preparation(catalog_view(catalog@), binary_name@, r),
{
    let ghost cs = catalog_view(catalog@);
    let tree = match build_tree(catalog) {
        Ok(t) => t,
        Err(e) => {
            return Err(e);
        },
    };
    proof {
        crate::cli::lemma_scan_ok_distinct(cs);
        if tree.definition is Some {
            lemma_scan_ok_nonempty(cs, tree.definition->0 as int);
        }
    }
    let root = match build_clap_command(binary_name, &tree, catalog) {
        Ok(c) => c,
        Err(e) => {
            proof {
                assert(crate::cli::node_arg_error(tree, cs) == Some(e@));
                let k = crate::cli::lemma_arg_error_least(tree, cs, Seq::empty());
                assert forall|j: int|
                    0 <= j < cs.len() && params_arg_error(#[trigger] cs[j].parameters) is Some
                        implies !crate::text::segments_lt(cs[j].path, cs[k].path) by {
                    assert(cs[j].path.subrange(0, 0) =~= Seq::<Seq<char>>::empty());
                }
                assert(least_arg_error(cs, k));
            }
            return Err(e);
        },
    };
    proof {
        if has_arg_error(cs) {
            let k = choose|k: int| 0 <= k < cs.len() && params_arg_error(#[trigger] cs[k].parameters) is Some;
            assert(cs[k].path.subrange(0, 0) =~= Seq::<Seq<char>>::empty());
            crate::cli::lemma_arg_error_reached(tree, cs, Seq::empty(), k);
        }
        assert forall|k: int| 0 <= k < cs.len() implies (#[trigger] cs[k]).parameters.len() < usize::MAX by {
            assert(catalog@[k].parameters.len() < usize::MAX);
        }
        assert(is_tree_node(tree, cs, Seq::empty()));
        crate::cli::lemma_cli_root_safe(root, tree, cs, binary_name@, Seq::empty());
        assert forall|args: Seq<Seq<char>>| #[trigger] clap_safe_for(cs, args) implies root_safe_along(
            root,
            seq![binary_name@] + args,
        ) by {
            crate::cli::lemma_cli_root_safe(root, tree, cs, binary_name@, args);
        }
    }
    Ok(root)
}

// ---------------------------------------------------------------------------
// Parsing
// ---------------------------------------------------------------------------

/// What a catalog must satisfy to be parsed with `args`: its parameters can
/// be counted, and where it gets as far as clap, clap accepts what it builds
/// of it while it matches `args` (see `clap_safe_for`).
pub open spec fn catalog_ready(catalog: Seq<CommandDefinition>, args: Seq<Seq<char>>) -> bool {
    &&& parameter_counts_fit(catalog)
    &&& reaches_clap(catalog_view(catalog)) ==> clap_safe_for(catalog_view(catalog), args)
}

/// What parsing `args` under `binary` against catalog `cs` returns.
/// Arguments that do not target the catalog are no match. Otherwise the
/// catalog's own problems come first: a duplicate id or path, then the least
/// command path that is also a group, then the parameter problem of the
/// least command path that has one. Past those, the catalog has a
/// command-line description (all of them have one model, see
/// `lemma_root_unique`), and clap's answer for the binary name followed by
/// `args` on it becomes help, an error, or the parsed command (see
/// `answer_result`).
pub open spec fn parse_result(
    cs: Seq<CommandView>,
    binary: Seq<char>,
    args: Seq<Seq<char>>,
    r: Result<ParseOutcome, ParseError>,
) -> bool {
    &&& (r == Ok::<ParseOutcome, ParseError>(ParseOutcome::NoMatch)) <==> !targets_catalog(cs, args)
    &&& targets_catalog(cs, args) ==> {
        &&& tree_scan_error(cs) matches Some(m) ==> (r matches Err(e) && e@ == m)
        &&& (tree_scan_error(cs) is None && has_leaf_group(cs)) ==> (r matches Err(e) && exists|
            p: Seq<Seq<char>>,
        | least_leaf_group(cs, p) && e@ == msg_leaf_group(joined_path(p)))
        &&& (tree_scan_error(cs) is None && !has_leaf_group(cs) && has_arg_error(cs)) ==> (
        r matches Err(e) && exists|k: int|
            least_arg_error(cs, k) && params_arg_error(#[trigger] cs[k].parameters) == Some(e@))
        &&& reaches_clap(cs) ==> exists|root: CliRoot| #[trigger] root_for(cs, binary, root)
        &&& reaches_clap(cs) ==> forall|root: CliRoot|
            #[trigger] root_for(cs, binary, root) ==> answer_result(
                cs,
                clap_outcome(root_view(root), seq![binary] + args),
                r,
            )
    }
}

/// The command-line descriptions of one catalog under one binary name
/// have one model.
pub proof fn lemma_root_unique(cs: Seq<CommandView>, binary: Seq<char>, r1: CliRoot, r2: CliRoot)
    requires
        root_for(cs, binary, r1),
        root_for(cs, binary, r2),
        crate::cli::distinct_paths(cs),
    ensures
        root_view(r1) == root_view(r2),
{
    let t1 = choose|t: CommandNode|
        #[trigger] is_tree_node(t, cs, Seq::empty()) && r1.subcommands@.len() == t.children@.len()
            && forall|i: int|
            0 <= i < t.children@.len() ==> is_cli_command(
                #[trigger] r1.subcommands@[i],
                t.children@[i].name@,
                t.children@[i].node,
                cs,
            );
    let t2 = choose|t: CommandNode|
        #[trigger] is_tree_node(t, cs, Seq::empty()) && r2.subcommands@.len() == t.children@.len()
            && forall|i: int|
            0 <= i < t.children@.len() ==> is_cli_command(
                #[trigger] r2.subcommands@[i],
                t.children@[i].name@,
                t.children@[i].node,
                cs,
            );
    crate::cli::lemma_same_children(t1, t2, cs, Seq::empty());
    assert(t1.children@.len() == crate::cli::child_names(t1).len());
    assert(t2.children@.len() == crate::cli::child_names(t2).len());
    let v1 = root_view(r1);
    let v2 = root_view(r2);
    assert forall|i: int| 0 <= i < v1.subcommands.len() implies v1.subcommands[i] == v2.subcommands[i] by {
        assert(crate::cli::child_names(t1)[i] == crate::cli::child_names(t2)[i]);
        let m = t1.children@[i].name@;
        assert(t2.children@[i].name@ == m);
        assert(is_cli_command(r1.subcommands@[i], m, t1.children@[i].node, cs));
        assert(is_cli_command(r2.subcommands@[i], m, t2.children@[i].node, cs));
        crate::cli::lemma_cli_command_unique(
            r1.subcommands@[i],
            r2.subcommands@[i],
            m,
            t1.children@[i].node,
            t2.children@[i].node,
            cs,
            Seq::<Seq<char>>::empty().push(m),
        );
    }
    assert(v1.subcommands =~= v2.subcommands);
}

/// Parses already-tokenized process arguments when they target a catalog leaf.
pub fn parse_args(catalog: &[CommandDefinition], binary_name: &str, args: &[String]) -> (r: Result<
    ParseOutcome,
    ParseError,
>)
    requires
        targets_catalog(catalog_view(catalog@), strings_view(args@)) ==> catalog_ready(
            catalog@,
            strings_view(args@),
        ),
    ensures
        parse_result(catalog_view(catalog@), binary_name@, strings_view(args@), r),
{
    let ghost cs = catalog_view(catalog@);
    let ghost av = strings_view(args@);
    if !matches_catalog_path(catalog, args) {
        return Ok(ParseOutcome::NoMatch);
    }
    let root = match prepare_command_line(catalog, binary_name) {
        Ok(root) => root,
        Err(e) => {
            return Err(e);
        },
    };
    let mut argv: Vec<String> = Vec::new();
    argv.push(String::from_str(binary_name));
    let mut i: usize = 0;
    while i < args.len()
        invariant
            i <= args.len(),
            av == strings_view(args@),
            strings_view(argv@) == seq![binary_name@] + av.subrange(0, i as int),
        decreases args.len() - i,
    {
        let ghost before = argv@;
        argv.push(args[i].clone());
        assert(strings_view(argv@) =~= strings_view(before).push(args@[i as int]@));
        assert(av.subrange(0, i + 1) =~= av.subrange(0, i as int).push(av[i as int]));
        i = i + 1;
    }
    assert(av.subrange(0, i as int) =~= av);
    assert(clap_safe_for(cs, av));
    let answer = match_command_line(&root, argv);
    let r = resolve_answer(catalog, answer);
    proof {
        assert(root_for(cs, binary_name@, root));
        crate::cli::lemma_scan_ok_distinct(cs);
        assert forall|other: CliRoot| #[trigger] root_for(cs, binary_name@, other) implies answer_result(
            cs,
            clap_outcome(root_view(other), seq![binary_name@] + av),
            r,
        ) by {
            lemma_root_unique(cs, binary_name@, root, other);
        }
    }
    r
}

/// The words that `shell_words::split` makes of `line`, or `None` where it
/// reports a missing closing quote.
pub uninterp spec fn shell_split(line: Seq<char>) -> Option<Seq<Seq<char>>>;

/// Calls `shell_words::split` on `line`. The words are named by
/// `shell_split`; its only error, `shell_words::ParseError`, is rendered as
/// the text its `Display` writes, `missing closing quote`.
#[verifier::external_body]
fn split_words(line: &str) -> (r: Result<Vec<String>, String>)
    ensures
        match shell_split(line@) {
            Some(words) => r matches Ok(v) && strings_view(v@) == words,
            None => r matches Err(t) && t@ == "missing closing quote"@,
        },
{
    shell_words::split(line).map_err(|e| e.to_string())
}

pub open spec fn msg_invalid_quoting(detail: Seq<char>) -> Seq<char> {
    "invalid command quoting: "@ + detail
}

/// Splits a TUI command line into words with POSIX shell quoting.
pub fn split_command_line(line: &str) -> (r: Result<Vec<String>, ParseError>)
    ensures
        match shell_split(line@) {
            Some(words) => r matches Ok(v) && strings_view(v@) == words,
            None => r matches Err(e) && e@ == msg_invalid_quoting("missing closing quote"@),
        },
{
    match split_words(line) {
        Ok(words) => Ok(words),
        Err(detail) => {
            let mut message = String::from_str("invalid command quoting: ");
            message.append(detail.as_str());
            Err(ParseError::new(message))
        },
    }
}

/// Tokenizes a TUI command line with POSIX shell quoting, then parses it.
pub fn parse_line(catalog: &[CommandDefinition], surface_name: &str, line: &str) -> (r: Result<
    ParseOutcome,
    ParseError,
>)
    requires
        shell_split(line@) matches Some(words) ==> (targets_catalog(catalog_view(catalog@), words)
            ==> catalog_ready(catalog@, words)),
    ensures
        match shell_split(line@) {
            Some(words) => parse_result(catalog_view(catalog@), surface_name@, words, r),
            None => r matches Err(e) && e@ == msg_invalid_quoting("missing closing quote"@),
        },
{
    match split_command_line(line) {
        Ok(words) => parse_args(catalog, surface_name, words.as_slice()),
        Err(e) => Err(e),
    }
}

/// Tokenizes a TUI command line and parses it, where the catalog may be
/// parsed with the words it gives; `None` where it may not, because clap
/// would assert on a command it builds while matching them.
pub fn parse_line_checked(catalog: &[CommandDefinition], surface_name: &str, line: &str) -> (r: Option<
    Result<ParseOutcome, ParseError>,
>)
    ensures
        r is None <==> (shell_split(line@) matches Some(words) && targets_catalog(
            catalog_view(catalog@),
            words,
        ) && !catalog_ready(catalog@, words)),
        r matches Some(x) ==> match shell_split(line@) {
            Some(words) => parse_result(catalog_view(catalog@), surface_name@, words, x),
            None => x matches Err(e) && e@ == msg_invalid_quoting("missing closing quote"@),
        },
{
    if let Ok(words) = split_command_line(line) {
        if matches_catalog_path(catalog, words.as_slice()) && !crate::accept::ready_to_parse(
            catalog,
            words.as_slice(),
        ) {
            return None;
        }
    }
    Some(parse_line(catalog, surface_name, line))
}

} // verus!
