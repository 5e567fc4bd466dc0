//! The catalog-driven command line: which arguments target the catalog, the
//! command tree a catalog describes, and the arguments a parsed command
//! carries to its provider.

use vstd::prelude::*;
use vstd::string::StrSliceExecFns;
use vstd::string::StringExecFns;

use crate::contract::{
    catalog_view, strings_view, CommandDefinition, CommandParameter, CommandView, OutputFormat,
    ParameterKind, ParameterView,
};
use crate::json::{json_object_text, render_json_object, JsonArgument, JsonArgumentView, JsonEntry, entries_view};
use crate::text::{concat3, concat5, join_path, join_strings, join_with, joined_path, text_equal};
use crate::catalog::present;

verus! {

/// One catalog command parsed into its provider-owned argument envelope.
#[derive(Clone, Debug, PartialEq)]
pub struct ParsedCommand {
    pub id: String,
    pub arguments_json: String,
    pub output_format: OutputFormat,
}

/// A parse can intentionally yield help instead of an invocation.
#[derive(Clone, Debug, PartialEq)]
pub enum ParseOutcome {
    NoMatch,
    Help(String),
    Command(ParsedCommand),
}

/// Catalog or command-line error suitable for a process or TUI surface.
#[derive(Clone, Debug, PartialEq, Eq)]
pub struct ParseError {
    message: String,
}

impl View for ParseError {
    type V = Seq<char>;

    closed spec fn view(&self) -> Seq<char> {
        self.message@
    }
}

impl ParseError {
    pub(crate) fn new(message: String) -> (r: ParseError)
        ensures
            r@ == message@,
    {
        ParseError { message }
    }

    /// The text of the error.
    pub fn message(&self) -> (r: &str)
        ensures
            r@ == self@,
    {
        self.message.as_str()
    }
}

// ---------------------------------------------------------------------------
// Which arguments target the catalog
// ---------------------------------------------------------------------------

pub open spec fn is_help_token(a: Seq<char>) -> bool {
    a == "-h"@ || a == "--help"@
}

/// The arguments without a trailing help request.
pub open spec fn group_arguments(args: Seq<Seq<char>>) -> Seq<Seq<char>> {
    if args.len() > 0 && is_help_token(args.last()) {
        args.drop_last()
    } else {
        args
    }
}

/// `args` start with the whole of `path`, or the arguments without a trailing
/// help request are a proper prefix of `path`.
pub open spec fn targets_path(path: Seq<Seq<char>>, args: Seq<Seq<char>>) -> bool {
    let group = group_arguments(args);
    ||| (args.len() >= path.len() && args.subrange(0, path.len() as int) == path)
    ||| (group.len() < path.len() && path.subrange(0, group.len() as int) == group)
}

/// Whether `args` name one complete catalog leaf or an exact catalog group prefix.
pub open spec fn targets_catalog(cs: Seq<CommandView>, args: Seq<Seq<char>>) -> bool {
    &&& group_arguments(args).len() > 0
    &&& exists|k: int| 0 <= k < cs.len() && targets_path(#[trigger] cs[k].path, args)
}

/// Whether `a` and `b` agree on their first `n` items.
pub(crate) fn agree_on_prefix(a: &Vec<String>, b: &[String], n: usize) -> (r: bool)
    requires
        n <= a.len(),
        n <= b@.len(),
    ensures
        r == (strings_view(a@).subrange(0, n as int) == strings_view(b@).subrange(0, n as int)),
{
    let mut i: usize = 0;
    while i < n
        invariant
            n <= a.len(),
            n <= b@.len(),
            i <= n,
            strings_view(a@).subrange(0, i as int) == strings_view(b@).subrange(0, i as int),
        decreases n - i,
    {
        if a[i] != b[i] {
            assert(strings_view(a@).subrange(0, n as int)[i as int] != strings_view(b@).subrange(
                0,
                n as int,
            )[i as int]);
            return false;
        }
        assert(strings_view(a@).subrange(0, i + 1) =~= strings_view(a@).subrange(0, i as int).push(
            a@[i as int]@,
        ));
        assert(strings_view(b@).subrange(0, i + 1) =~= strings_view(b@).subrange(0, i as int).push(
            b@[i as int]@,
        ));
        i = i + 1;
    }
    true
}

/// Returns true for one complete catalog leaf or an exact catalog group prefix.
///
/// A product may retain static siblings such as `sessions export` next to
/// contributed commands such as `sessions list`, so an unknown child remains a
/// no-match for the caller's parser.
pub fn matches_catalog_path(catalog: &[CommandDefinition], args: &[String]) -> (r: bool)
    ensures
        r == targets_catalog(catalog_view(catalog@), strings_view(args@)),
{
    let ghost av = strings_view(args@);
    let ghost cs = catalog_view(catalog@);
    proof {
        reveal_strlit("-h");
        reveal_strlit("--help");
    }
    let help_last = args.len() > 0 && (text_equal(args[args.len() - 1].as_str(), "-h")
        || text_equal(args[args.len() - 1].as_str(), "--help"));
    let group_len: usize = if help_last {
        args.len() - 1
    } else {
        args.len()
    };
    proof {
        if args.len() > 0 {
            assert(av.last() == args@[args.len() - 1]@);
        }
        let g = group_arguments(av);
        assert(g.len() == group_len);
        assert(g =~= av.subrange(0, group_len as int));
    }
    if group_len == 0 {
        return false;
    }
    let mut k: usize = 0;
    while k < catalog.len()
        invariant
            av == strings_view(args@),
            cs == catalog_view(catalog@),
            group_arguments(av) == av.subrange(0, group_len as int),
            group_len <= args.len(),
            group_len > 0,
            k <= catalog.len(),
            forall|j: int| 0 <= j < k ==> !targets_path(#[trigger] cs[j].path, av),
        decreases catalog.len() - k,
    {
        let path = &catalog[k].path;
        assert(cs[k as int].path == strings_view(path@));
        let leaf = args.len() >= path.len() && agree_on_prefix(path, args, path.len());
        let group = group_len < path.len() && agree_on_prefix(path, args, group_len);
        proof {
            let pv = strings_view(path@);
            assert(pv.subrange(0, pv.len() as int) =~= pv);
            assert(pv.len() == path.len());
            assert(av.len() == args.len());
        }
        assert((leaf || group) == targets_path(cs[k as int].path, av));
        if leaf || group {
            return true;
        }
        k = k + 1;
    }
    false
}

// ---------------------------------------------------------------------------
// Output selection and choices
// ---------------------------------------------------------------------------

/// Whether `definition` offers output format `expected`.
pub fn supports_output(definition: &CommandDefinition, expected: &OutputFormat) -> (r: bool)
    ensures
        r == definition@.output_formats.contains(*expected),
{
    let mut i: usize = 0;
    while i < definition.output_formats.len()
        invariant
            i <= definition.output_formats.len(),
            forall|k: int| 0 <= k < i ==> definition.output_formats@[k] != *expected,
        decreases definition.output_formats.len() - i,
    {
        if definition.output_formats[i] == *expected {
            return true;
        }
        i = i + 1;
    }
    false
}

pub open spec fn msg_invalid_choice(param: Seq<char>, choices: Seq<Seq<char>>) -> Seq<char> {
    "invalid value for `"@ + param + "`; expected one of "@ + join_with(choices, ", "@)
}

/// Every one of `values` is one of `choices`, or `choices` is empty.
pub open spec fn values_allowed(choices: Seq<Seq<char>>, values: Seq<Seq<char>>) -> bool {
    choices.len() == 0 || forall|i: int| 0 <= i < values.len() ==> choices.contains(
        #[trigger] values[i],
    )
}

/// Rejects a value that is not one of the parameter's choices.
pub fn validate_choices(parameter: &CommandParameter, values: &[String]) -> (r: Result<
    (),
    ParseError,
>)
    ensures
        r is Ok <==> values_allowed(parameter@.choices, strings_view(values@)),
        r is Ok <==> (parameter@.choices.len() == 0 || forall|i: int|
            0 <= i < values@.len() ==> parameter@.choices.contains(#[trigger] values@[i]@)),
        r matches Err(e) ==> e@ == msg_invalid_choice(parameter@.id, parameter@.choices),
{
    let ghost vs = strings_view(values@);
    assert(forall|i: int| 0 <= i < values@.len() ==> vs[i] == #[trigger] values@[i]@);
    if parameter.choices.len() == 0 {
        return Ok(());
    }
    let mut i: usize = 0;
    while i < values.len()
        invariant
            vs == strings_view(values@),
            parameter.choices.len() > 0,
            i <= values.len(),
            forall|k: int| 0 <= k < i ==> parameter@.choices.contains(#[trigger] vs[k]),
        decreases values.len() - i,
    {
        if !contains_string(&parameter.choices, values[i].as_str()) {
            assert(vs[i as int] == values@[i as int]@);
            let listed = join_strings(&parameter.choices, ", ");
            let mut m = concat3("invalid value for `", parameter.id.as_str(), "`; expected one of ");
            m.append(listed.as_str());
            return Err(ParseError::new(m));
        }
        assert(vs[i as int] == values@[i as int]@);
        i = i + 1;
    }
    Ok(())
}

/// Whether `v` holds a string equal to `s`.
fn contains_string(v: &Vec<String>, s: &str) -> (r: bool)
    ensures
        r == strings_view(v@).contains(s@),
{
    let mut i: usize = 0;
    while i < v.len()
        invariant
            i <= v.len(),
            forall|k: int| 0 <= k < i ==> v@[k]@ != s@,
        decreases v.len() - i,
    {
        if text_equal(v[i].as_str(), s) {
            assert(strings_view(v@)[i as int] == s@);
            return true;
        }
        i = i + 1;
    }
    proof {
        if strings_view(v@).contains(s@) {
            let k = choose|k: int| 0 <= k < strings_view(v@).len() && strings_view(v@)[k] == s@;
            assert(v@[k]@ == s@);
        }
    }
    false
}


// ---------------------------------------------------------------------------
// The command tree
// ---------------------------------------------------------------------------

/// One node of the command tree: a catalog leaf, a group, or the root.
#[derive(Debug)]
pub struct CommandNode {
    /// The children, in increasing order of name.
    pub children: Vec<CommandChild>,
    /// The catalog position of the command at this node, if any.
    pub definition: Option<usize>,
}

/// A named child of a command tree node.
#[derive(Debug)]
pub struct CommandChild {
    pub name: String,
    pub node: CommandNode,
}

/// `path` starts with `prefix`.
pub open spec fn extends(path: Seq<Seq<char>>, prefix: Seq<Seq<char>>) -> bool {
    path.len() >= prefix.len() && path.subrange(0, prefix.len() as int) == prefix
}

/// The names that follow `prefix` in the paths of `cs`.
pub open spec fn next_segments(cs: Seq<CommandView>, prefix: Seq<Seq<char>>) -> Set<Seq<char>> {
    Set::new(
        |name: Seq<char>|
            exists|k: int|
                0 <= k < cs.len() && extends(#[trigger] cs[k].path, prefix) && cs[k].path.len()
                    > prefix.len() && cs[k].path[prefix.len() as int] == name,
    )
}

/// `n` is the node of the command tree of `cs` at path `prefix`: it holds the
/// command whose path is `prefix`, if any, and one child for each name that
/// follows `prefix` in a path of `cs`, in increasing order of name.
pub open spec fn is_tree_node(n: CommandNode, cs: Seq<CommandView>, prefix: Seq<Seq<char>>) -> bool
    decreases n,
{
    &&& (n.definition matches Some(k) ==> 0 <= k < cs.len() && cs[k as int].path == prefix)
    &&& (n.definition is None ==> forall|k: int| 0 <= k < cs.len() ==> cs[k].path != prefix)
    &&& forall|i: int, j: int|
        0 <= i < j < n.children@.len() ==> crate::text::text_lt(
            #[trigger] n.children@[i].name@,
            #[trigger] n.children@[j].name@,
        )
    &&& forall|name: Seq<char>|
        next_segments(cs, prefix).contains(name) <==> exists|i: int|
            0 <= i < n.children@.len() && #[trigger] n.children@[i].name@ == name
    &&& forall|i: int|
        0 <= i < n.children@.len() ==> is_tree_node(
            #[trigger] n.children@[i].node,
            cs,
            prefix.push(n.children@[i].name@),
        )
}

pub open spec fn paths_of(cs: Seq<CommandView>) -> Seq<Seq<Seq<char>>> {
    cs.map_values(|c: CommandView| c.path)
}

pub open spec fn msg_invalid_tree_id(id: Seq<char>) -> Seq<char> {
    "invalid or duplicate terminal command id `"@ + id + "`"@
}

pub open spec fn msg_duplicate_tree_path(path: Seq<char>) -> Seq<char> {
    "duplicate terminal command path `"@ + path + "`"@
}

pub open spec fn msg_leaf_group(path: Seq<char>) -> Seq<char> {
    "terminal command path `"@ + path + "` is also a command group"@
}

/// The first problem with placing command `c` in the tree, given the
/// commands placed before it.
pub open spec fn tree_entry_error(prev: Seq<CommandView>, c: CommandView) -> Option<Seq<char>> {
    if c.path.len() == 0 || crate::catalog::ids_of(prev).contains(c.id) {
        Some(msg_invalid_tree_id(c.id))
    } else if paths_of(prev).contains(c.path) {
        Some(msg_duplicate_tree_path(joined_path(c.path)))
    } else {
        None
    }
}

/// The first problem with placing the commands `cs` in the tree, in order.
pub open spec fn tree_scan_error(cs: Seq<CommandView>) -> Option<Seq<char>>
    decreases cs.len(),
{
    if cs.len() == 0 {
        None
    } else {
        match tree_scan_error(cs.drop_last()) {
            Some(m) => Some(m),
            None => tree_entry_error(cs.drop_last(), cs.last()),
        }
    }
}

/// The first node, depth first with children in order, that holds a
/// command and also has children.
pub open spec fn first_leaf_group(n: CommandNode, prefix: Seq<Seq<char>>) -> Option<
    Seq<Seq<char>>,
>
    decreases n,
{
    if n.definition is Some && n.children@.len() > 0 {
        Some(prefix)
    } else {
        first_leaf_group_in(n.children@, prefix)
    }
}

/// The first node within `children`, depth first, that holds a command and
/// also has children.
pub open spec fn first_leaf_group_in(children: Seq<CommandChild>, prefix: Seq<Seq<char>>) -> Option<
    Seq<Seq<char>>,
>
    decreases children,
{
    if children.len() == 0 {
        None
    } else {
        match first_leaf_group_in(children.drop_last(), prefix) {
            Some(p) => Some(p),
            None => first_leaf_group(children.last().node, prefix.push(children.last().name@)),
        }
    }
}

proof fn lemma_first_in_persists(children: Seq<CommandChild>, prefix: Seq<Seq<char>>, j: int)
    requires
        0 <= j <= children.len(),
        first_leaf_group_in(children.subrange(0, j), prefix) is Some,
    ensures
        first_leaf_group_in(children, prefix) == first_leaf_group_in(children.subrange(0, j), prefix),
    decreases children.len() - j,
{
    if j == children.len() {
        assert(children.subrange(0, j) =~= children);
    } else {
        assert(children.subrange(0, j + 1).drop_last() =~= children.subrange(0, j));
        lemma_first_in_persists(children, prefix, j + 1);
    }
}

proof fn lemma_tree_error_persists(cs: Seq<CommandView>, j: int)
    requires
        0 <= j <= cs.len(),
        tree_scan_error(cs.subrange(0, j)) is Some,
    ensures
        tree_scan_error(cs) == tree_scan_error(cs.subrange(0, j)),
    decreases cs.len() - j,
{
    if j == cs.len() {
        assert(cs.subrange(0, j) =~= cs);
    } else {
        assert(cs.subrange(0, j + 1).drop_last() =~= cs.subrange(0, j));
        lemma_tree_error_persists(cs, j + 1);
    }
}

/// Rejects a command path that is also a command group, reporting the first
/// one in depth-first order.
pub fn reject_prefix_leaves(node: &CommandNode, path: &mut Vec<String>) -> (r: Result<
    (),
    ParseError,
>)
    ensures
        r is Ok <==> first_leaf_group(*node, strings_view(old(path)@)) is None,
        r matches Err(e) ==> first_leaf_group(*node, strings_view(old(path)@)) matches Some(p)
            && e@ == msg_leaf_group(joined_path(p)),
        r is Ok ==> final(path)@ == old(path)@,
    decreases *node,
{
    if node.definition.is_some() && node.children.len() > 0 {
        let joined = join_path(path);
        return Err(
            ParseError::new(concat3("terminal command path `", joined.as_str(), "` is also a command group")),
        );
    }
    let ghost pre = strings_view(path@);
    let ghost start = path@;
    let mut i: usize = 0;
    while i < node.children.len()
        invariant
            pre == strings_view(start),
            start == old(path)@,
            path@ == start,
            i <= node.children.len(),
            first_leaf_group_in(node.children@.subrange(0, i as int), pre) is None,
            !(node.definition is Some && node.children@.len() > 0),
        decreases node.children.len() - i,
    {
        let child = &node.children[i];
        assert(node.children@.subrange(0, i + 1).drop_last() =~= node.children@.subrange(0, i as int));
        path.push(child.name.clone());
        assert(strings_view(path@) =~= pre.push(child.name@));
        match reject_prefix_leaves(&child.node, path) {
            Err(e) => {
                proof {
                    assert(node.children@.subrange(0, i + 1).last() == node.children@[i as int]);
                    assert(first_leaf_group_in(node.children@.subrange(0, i + 1), pre)
                        == first_leaf_group(child.node, pre.push(child.name@)));
                    lemma_first_in_persists(node.children@, pre, i + 1);
                    assert(first_leaf_group(*node, pre) == first_leaf_group_in(node.children@, pre));
                }
                return Err(e);
            },
            Ok(()) => {},
        }
        path.pop();
        assert(path@ =~= start);
        i = i + 1;
    }
    assert(node.children@.subrange(0, i as int) =~= node.children@);
    Ok(())
}

/// Whether two paths hold the same segments.
fn same_path(a: &Vec<String>, b: &Vec<String>) -> (r: bool)
    ensures
        r == (strings_view(a@) == strings_view(b@)),
{
    if a.len() != b.len() {
        assert(strings_view(a@).len() != strings_view(b@).len());
        return false;
    }
    let ok = agree_on_prefix(a, b.as_slice(), a.len());
    assert(strings_view(a@).subrange(0, a.len() as int) =~= strings_view(a@));
    assert(strings_view(b@).subrange(0, b.len() as int) =~= strings_view(b@));
    ok
}

/// Checks the ids and paths of the catalog in order, as placing each command
/// in the tree does.
fn check_tree_entries(catalog: &[CommandDefinition]) -> (r: Result<(), ParseError>)
    ensures
        r is Ok <==> tree_scan_error(catalog_view(catalog@)) is None,
        r matches Err(e) ==> tree_scan_error(catalog_view(catalog@)) == Some(e@),
{
    let ghost cs = catalog_view(catalog@);
    let mut i: usize = 0;
    while i < catalog.len()
        invariant
            cs == catalog_view(catalog@),
            i <= catalog.len(),
            tree_scan_error(cs.subrange(0, i as int)) is None,
        decreases catalog.len() - i,
    {
        let ghost prev = cs.subrange(0, i as int);
        assert(cs.subrange(0, i + 1).drop_last() =~= prev);
        assert(cs.subrange(0, i + 1).last() == catalog@[i as int]@);
        let definition = &catalog[i];
        let mut bad_id = definition.path.len() == 0;
        let mut j: usize = 0;
        while j < i && !bad_id
            invariant
                cs == catalog_view(catalog@),
                i < catalog.len(),
                prev == cs.subrange(0, i as int),
                definition == catalog@[i as int],
                j <= i,
                bad_id ==> definition.path.len() == 0 || crate::catalog::ids_of(prev).contains(
                    definition.id@,
                ),
                !bad_id ==> definition.path.len() > 0 && forall|k: int|
                    0 <= k < j ==> #[trigger] prev[k].id != definition.id@,
            decreases i - j,
        {
            if catalog[j].id == definition.id {
                assert(crate::catalog::ids_of(prev)[j as int] == definition.id@);
                bad_id = true;
            }
            j = j + 1;
        }
        proof {
            if !bad_id {
                assert forall|k: int| 0 <= k < prev.len() implies crate::catalog::ids_of(prev)[k]
                    != definition.id@ by {
                    assert(prev[k].id != definition.id@);
                }
            }
        }
        if bad_id {
            proof {
                lemma_tree_error_persists(cs, i + 1);
            }
            return Err(
                ParseError::new(
                    concat3(
                        "invalid or duplicate terminal command id `",
                        definition.id.as_str(),
                        "`",
                    ),
                ),
            );
        }
        let mut j: usize = 0;
        while j < i
            invariant
                cs == catalog_view(catalog@),
                i < catalog.len(),
                prev == cs.subrange(0, i as int),
                definition == catalog@[i as int],
                definition.path.len() > 0,
                !crate::catalog::ids_of(prev).contains(definition.id@),
                tree_scan_error(prev) is None,
                cs.subrange(0, i + 1).drop_last() == prev,
                cs.subrange(0, i + 1).last() == definition@,
                j <= i,
                forall|k: int| 0 <= k < j ==> #[trigger] prev[k].path != definition@.path,
            decreases i - j,
        {
            if same_path(&catalog[j].path, &definition.path) {
                assert(paths_of(prev)[j as int] == definition@.path);
                proof {
                    lemma_tree_error_persists(cs, i + 1);
                }
                let joined = join_path(&definition.path);
                return Err(
                    ParseError::new(
                        concat3("duplicate terminal command path `", joined.as_str(), "`"),
                    ),
                );
            }
            j = j + 1;
        }
        proof {
            assert forall|k: int| 0 <= k < prev.len() implies paths_of(prev)[k] != definition@.path by {
                assert(prev[k].path != definition@.path);
            }
        }
        i = i + 1;
    }
    assert(cs.subrange(0, i as int) =~= cs);
    Ok(())
}

/// Inserts `name` into the increasing list `names` unless it is there.
fn insert_name(names: &mut Vec<String>, name: &String)
    requires
        forall|i: int, j: int|
            0 <= i < j < old(names)@.len() ==> crate::text::text_lt(
                #[trigger] old(names)@[i]@,
                #[trigger] old(names)@[j]@,
            ),
    ensures
        forall|i: int, j: int|
            0 <= i < j < final(names)@.len() ==> crate::text::text_lt(
                #[trigger] final(names)@[i]@,
                #[trigger] final(names)@[j]@,
            ),
        strings_view(final(names)@).to_set() == strings_view(old(names)@).to_set().insert(name@),
{
    let mut pos: usize = 0;
    while pos < names.len() && crate::text::text_less(names[pos].as_str(), name.as_str())
        invariant
            pos <= names.len(),
            names@ == old(names)@,
            forall|k: int| 0 <= k < pos ==> crate::text::text_lt(#[trigger] names@[k]@, name@),
        decreases names.len() - pos,
    {
        pos = pos + 1;
    }
    if pos < names.len() && text_equal(names[pos].as_str(), name.as_str()) {
        proof {
            assert(strings_view(names@)[pos as int] == name@);
            assert(strings_view(names@).to_set() =~= strings_view(names@).to_set().insert(name@));
        }
        return;
    }
    let ghost old_names = names@;
    assert(old_names == old(names)@);
    proof {
        // names[pos..] all follow name
        assert forall|k: int| pos <= k < old_names.len() implies crate::text::text_lt(
            name@,
            #[trigger] old_names[k]@,
        ) by {
            crate::text::lemma_text_order(name@, old_names[pos as int]@, old_names[k]@);
            crate::text::lemma_text_order(old_names[pos as int]@, name@, old_names[k]@);
            if k > pos {
                assert(crate::text::text_lt(old_names[pos as int]@, old_names[k]@));
            }
        }
    }
    names.insert(pos, name.clone());
    proof {
        assert(names@.len() == old_names.len() + 1);
        assert forall|k: int| 0 <= k < pos implies names@[k] == old_names[k] by {}
        assert forall|k: int| pos < k < names@.len() implies names@[k] == old_names[k - 1] by {}
        assert(names@[pos as int]@ == name@);
        assert(strings_view(names@).len() == names@.len());
        assert forall|i: int, j: int| 0 <= i < j < names@.len() implies crate::text::text_lt(
            #[trigger] names@[i]@,
            #[trigger] names@[j]@,
        ) by {
            if j < pos {
            } else if i < pos && j == pos {
            } else if i < pos {
                assert(names@[j] == old_names[j - 1]);
                crate::text::lemma_text_order(names@[i]@, name@, names@[j]@);
            } else if i == pos {
                assert(names@[j] == old_names[j - 1]);
            } else {
                assert(names@[i] == old_names[i - 1]);
                assert(names@[j] == old_names[j - 1]);
            }
        }
        assert forall|x: Seq<char>| strings_view(names@).to_set().contains(x) <==> strings_view(
            old_names,
        ).to_set().insert(name@).contains(x) by {
            if strings_view(names@).contains(x) {
                let k = choose|k: int| 0 <= k < names@.len() && strings_view(names@)[k] == x;
                if k < pos {
                    assert(strings_view(old_names)[k] == x);
                } else if k > pos {
                    assert(strings_view(old_names)[k - 1] == x);
                }
            }
            if strings_view(old_names).contains(x) {
                let k = choose|k: int| 0 <= k < old_names.len() && strings_view(old_names)[k] == x;
                if k < pos {
                    assert(strings_view(names@)[k] == x);
                } else {
                    assert(strings_view(names@)[k + 1] == x);
                }
            }
            if x == name@ {
                assert(strings_view(names@)[pos as int] == x);
            }
        }
        assert(strings_view(names@).to_set() =~= strings_view(old_names).to_set().insert(name@));
    }
}

/// The members of `cs` whose paths extend `prefix`.
pub open spec fn members_of(
    members: Seq<usize>,
    cs: Seq<CommandView>,
    prefix: Seq<Seq<char>>,
) -> bool {
    forall|k: usize| k < cs.len() && extends(cs[k as int].path, prefix) <==> members.contains(k)
}

pub open spec fn distinct_paths(cs: Seq<CommandView>) -> bool {
    forall|a: int, b: int| 0 <= a < b < cs.len() ==> #[trigger] cs[a].path != #[trigger] cs[b].path
}

/// Builds the node of the command tree at `prefix`, whose commands are `members`.
fn build_node(
    catalog: &[CommandDefinition],
    members: Vec<usize>,
    depth: usize,
    limit: usize,
    Ghost(prefix): Ghost<Seq<Seq<char>>>,
) -> (n: CommandNode)
    requires
        prefix.len() == depth,
        depth <= limit,
        members_of(members@, catalog_view(catalog@), prefix),
        distinct_paths(catalog_view(catalog@)),
        catalog@.len() <= usize::MAX,
        forall|k: int| 0 <= k < catalog@.len() ==> #[trigger] catalog@[k].path.len() <= limit,
    ensures
        is_tree_node(n, catalog_view(catalog@), prefix),
    decreases limit - depth,
{
    let ghost cs = catalog_view(catalog@);
    assert(cs.len() == catalog@.len());
    // The command at this node, if any.
    let mut definition: Option<usize> = None;
    let mut i: usize = 0;
    while i < members.len()
        invariant
            cs == catalog_view(catalog@),
            prefix.len() == depth,
            members_of(members@, cs, prefix),
            i <= members.len(),
            definition matches Some(k) ==> 0 <= k < cs.len() && cs[k as int].path == prefix,
            definition is None ==> forall|m: int|
                0 <= m < i ==> catalog@[members@[m] as int].path.len() != depth,
        decreases members.len() - i,
    {
        let k = members[i];
        assert(members@.contains(k));
        assert(k < cs.len());
        if catalog[k].path.len() == depth {
            assert(cs[k as int].path == strings_view(catalog@[k as int].path@));
            assert(cs[k as int].path =~= cs[k as int].path.subrange(0, prefix.len() as int));
            definition = Some(k);
        }
        i = i + 1;
    }
    proof {
        if definition is None {
            assert forall|k: int| 0 <= k < cs.len() implies cs[k].path != prefix by {
                if cs[k].path == prefix {
                    assert(cs[k].path.subrange(0, prefix.len() as int) =~= prefix);
                    let ku = k as usize;
                    assert(extends(cs[ku as int].path, prefix));
                    assert(members@.contains(ku));
                    let m = choose|m: int| 0 <= m < members@.len() && members@[m] == ku;
                    assert(catalog@[k].path.len() == depth);
                }
            }
        }
    }
    // The names that follow this node's path, in order.
    let mut names: Vec<String> = Vec::new();
    let mut i: usize = 0;
    while i < members.len()
        invariant
            cs == catalog_view(catalog@),
            prefix.len() == depth,
            members_of(members@, cs, prefix),
            i <= members.len(),
            forall|a: int, b: int|
                0 <= a < b < names@.len() ==> crate::text::text_lt(
                    #[trigger] names@[a]@,
                    #[trigger] names@[b]@,
                ),
            forall|x: Seq<char>|
                strings_view(names@).contains(x) <==> exists|m: int|
                    0 <= m < i && catalog@[members@[m] as int].path.len() > depth
                        && #[trigger] cs[members@[m] as int].path[depth as int] == x,
        decreases members.len() - i,
    {
        let k = members[i];
        assert(members@.contains(k));
        assert(k < cs.len());
        let ghost names_before = names@;
        if catalog[k].path.len() > depth {
            insert_name(&mut names, &catalog[k].path[depth]);
            assert(cs[k as int].path[depth as int] == catalog@[k as int].path@[depth as int]@);
        }
        proof {
            assert forall|x: Seq<char>| #[trigger] strings_view(names@).contains(x) <==> (
            strings_view(names_before).contains(x) || (catalog@[k as int].path.len() > depth
                && cs[k as int].path[depth as int] == x)) by {
                if catalog@[k as int].path.len() > depth {
                    assert(strings_view(names@).to_set().contains(x) == strings_view(names@).contains(x));
                    assert(strings_view(names_before).to_set().contains(x) == strings_view(names_before).contains(x));
                }
            }
            assert forall|x: Seq<char>| strings_view(names@).contains(x) <==> exists|m: int|
                0 <= m < i + 1 && catalog@[members@[m] as int].path.len() > depth
                    && #[trigger] cs[members@[m] as int].path[depth as int] == x by {
                if strings_view(names@).contains(x) && !strings_view(names_before).contains(x) {
                    assert(cs[members@[i as int] as int].path[depth as int] == x);
                }
            }
        }
        i = i + 1;
    }
    proof {
        assert forall|x: Seq<char>| next_segments(cs, prefix).contains(x) <==> strings_view(
            names@,
        ).contains(x) by {
            if next_segments(cs, prefix).contains(x) {
                let k = choose|k: int|
                    0 <= k < cs.len() && extends(#[trigger] cs[k].path, prefix) && cs[k].path.len()
                        > prefix.len() && cs[k].path[prefix.len() as int] == x;
                let ku = k as usize;
                assert(ku < cs.len() && extends(cs[ku as int].path, prefix));
                assert(members@.contains(ku));
                let m = choose|m: int| 0 <= m < members@.len() && members@[m] == ku;
                assert(cs[members@[m] as int].path[depth as int] == x);
            }
            if strings_view(names@).contains(x) {
                let m = choose|m: int|
                    0 <= m < members.len() && catalog@[members@[m] as int].path.len() > depth
                        && #[trigger] cs[members@[m] as int].path[depth as int] == x;
                let k = members@[m] as int;
                assert(members@.contains(members@[m]));
                assert(extends(cs[k].path, prefix));
            }
        }
    }
    // One child per name.
    let mut children: Vec<CommandChild> = Vec::new();
    let mut c: usize = 0;
    while c < names.len()
        invariant
            cs == catalog_view(catalog@),
            prefix.len() == depth,
            depth <= limit,
            members_of(members@, cs, prefix),
            distinct_paths(cs),
            catalog@.len() <= usize::MAX,
            forall|k: int| 0 <= k < catalog@.len() ==> #[trigger] catalog@[k].path.len() <= limit,
            forall|x: Seq<char>|
                next_segments(cs, prefix).contains(x) <==> strings_view(names@).contains(x),
            c <= names.len(),
            children@.len() == c,
            forall|a: int| 0 <= a < c ==> (#[trigger] children@[a]).name@ == names@[a]@,
            forall|a: int|
                0 <= a < c ==> is_tree_node(
                    #[trigger] children@[a].node,
                    cs,
                    prefix.push(children@[a].name@),
                ),
        decreases names.len() - c,
    {
        let name = &names[c];
        assert(strings_view(names@)[c as int] == name@);
        assert(next_segments(cs, prefix).contains(name@));
        let ghost child_prefix = prefix.push(name@);
        let mut sub: Vec<usize> = Vec::new();
        let mut i: usize = 0;
        while i < members.len()
            invariant
                cs == catalog_view(catalog@),
                prefix.len() == depth,
                child_prefix == prefix.push(name@),
                members_of(members@, cs, prefix),
                i <= members.len(),
                forall|k: usize|
                    sub@.contains(k) <==> (k < cs.len() && extends(cs[k as int].path, child_prefix)
                        && members@.subrange(0, i as int).contains(k)),
            decreases members.len() - i,
        {
            let k = members[i];
            assert(members@.contains(k));
            assert(k < cs.len());
            assert(members@.subrange(0, i + 1) =~= members@.subrange(0, i as int).push(k));
            let ghost before = sub@;
            let take = catalog[k].path.len() > depth && catalog[k].path[depth] == *name;
            proof {
                let p = cs[k as int].path;
                assert(p == strings_view(catalog@[k as int].path@));
                if catalog@[k as int].path.len() > depth {
                    assert(p[depth as int] == catalog@[k as int].path@[depth as int]@);
                    assert(p.subrange(0, depth + 1) =~= p.subrange(0, depth as int).push(
                        p[depth as int],
                    ));
                }
                assert(take == extends(p, child_prefix)) by {
                    if extends(p, child_prefix) {
                        assert(p.subrange(0, depth + 1)[depth as int] == name@);
                    }
                }
            }
            if take {
                sub.push(k);
            }
            proof {
                assert forall|kk: usize|
                    sub@.contains(kk) <==> (kk < cs.len() && extends(cs[kk as int].path, child_prefix)
                        && members@.subrange(0, i + 1).contains(kk)) by {
                    if sub@.contains(kk) && !before.contains(kk) {
                        let j = choose|j: int| 0 <= j < sub@.len() && sub@[j] == kk;
                        assert(j == sub@.len() - 1);
                        assert(members@.subrange(0, i + 1)[i as int] == kk);
                    }
                    if members@.subrange(0, i + 1).contains(kk) && !members@.subrange(
                        0,
                        i as int,
                    ).contains(kk) {
                        let j = choose|j: int|
                            0 <= j < i + 1 && #[trigger] members@.subrange(0, i + 1)[j] == kk;
                        if j < i {
                            assert(members@.subrange(0, i as int)[j] == kk);
                        }
                        if kk < cs.len() && extends(cs[kk as int].path, child_prefix) {
                            assert(sub@[sub@.len() - 1] == kk);
                        }
                    }
                    if before.contains(kk) {
                        let j = choose|j: int| 0 <= j < before.len() && before[j] == kk;
                        assert(sub@[j] == kk);
                    }
                }
            }
            i = i + 1;
        }
        proof {
            assert(members@.subrange(0, members@.len() as int) =~= members@);
            assert forall|k: usize| k < cs.len() && extends(cs[k as int].path, child_prefix) <==> sub@.contains(
                k,
            ) by {
                if k < cs.len() && extends(cs[k as int].path, child_prefix) {
                    let p = cs[k as int].path;
                    assert(p.subrange(0, depth as int) =~= p.subrange(0, depth + 1).subrange(
                        0,
                        depth as int,
                    ));
                    assert(child_prefix.subrange(0, depth as int) =~= prefix);
                    assert(extends(p, prefix));
                    assert(members@.contains(k));
                }
            }
            let kk = choose|k: int|
                0 <= k < cs.len() && extends(#[trigger] cs[k].path, prefix) && cs[k].path.len()
                    > prefix.len() && cs[k].path[prefix.len() as int] == name@;
            assert(cs[kk].path.len() == catalog@[kk].path.len());
        }
        let child = build_node(catalog, sub, depth + 1, limit, Ghost(child_prefix));
        children.push(CommandChild { name: name.clone(), node: child });
        c = c + 1;
    }
    let n = CommandNode { children, definition };
    proof {
        assert forall|x: Seq<char>| next_segments(cs, prefix).contains(x) <==> exists|i: int|
            0 <= i < n.children@.len() && #[trigger] n.children@[i].name@ == x by {
            if next_segments(cs, prefix).contains(x) {
                let k = choose|k: int| 0 <= k < strings_view(names@).len() && strings_view(names@)[k] == x;
                assert(n.children@[k].name@ == x);
            }
            if exists|i: int| 0 <= i < n.children@.len() && #[trigger] n.children@[i].name@ == x {
                let i = choose|i: int| 0 <= i < n.children@.len() && #[trigger] n.children@[i].name@ == x;
                assert(strings_view(names@)[i] == x);
            }
        }
    }
    n
}

/// Builds the command tree of the catalog, rejecting duplicate ids and paths
/// and a command path that is also a command group (the least such path is
/// reported).
pub fn build_tree(catalog: &[CommandDefinition]) -> (r: Result<CommandNode, ParseError>)
    ensures
        ({
            let cs = catalog_view(catalog@);
            &&& r is Ok <==> tree_scan_error(cs) is None && !has_leaf_group(cs)
            &&& tree_scan_error(cs) matches Some(m) ==> (r matches Err(e) && e@ == m)
            &&& (tree_scan_error(cs) is None && r is Err) ==> exists|p: Seq<Seq<char>>|
                least_leaf_group(cs, p) && r->Err_0@ == msg_leaf_group(joined_path(p))
            &&& r matches Ok(t) ==> is_tree_node(t, cs, Seq::empty())
        }),
{
    let ghost cs = catalog_view(catalog@);
    match check_tree_entries(catalog) {
        Err(e) => {
            return Err(e);
        },
        Ok(()) => {},
    }
    // Paths are distinct and every one is placed.
    proof {
        lemma_scan_ok_distinct(cs);
    }
    let mut limit: usize = 0;
    let mut members: Vec<usize> = Vec::new();
    let mut i: usize = 0;
    while i < catalog.len()
        invariant
            cs == catalog_view(catalog@),
            i <= catalog.len(),
            members@.len() == i,
            forall|m: int| 0 <= m < i ==> members@[m] as int == m,
            forall|k: int| 0 <= k < i ==> #[trigger] catalog@[k].path.len() <= limit,
        decreases catalog.len() - i,
    {
        members.push(i);
        if catalog[i].path.len() > limit {
            limit = catalog[i].path.len();
        }
        i = i + 1;
    }
    proof {
        assert forall|k: usize| k < cs.len() && extends(cs[k as int].path, Seq::<Seq<char>>::empty()) <==> members@.contains(
            k,
        ) by {
            if k < cs.len() {
                assert(members@[k as int] == k);
                assert(cs[k as int].path.subrange(0, 0) =~= Seq::<Seq<char>>::empty());
            }
            if members@.contains(k) {
                let j = choose|j: int| 0 <= j < members@.len() && members@[j] == k;
                assert(cs[k as int].path.subrange(0, 0) =~= Seq::<Seq<char>>::empty());
            }
        }
    }
    assert(catalog@.len() == catalog.len());
    let root = build_node(catalog, members, 0, limit, Ghost(Seq::empty()));
    let mut path: Vec<String> = Vec::new();
    assert(strings_view(path@) =~= Seq::<Seq<char>>::empty());
    match reject_prefix_leaves(&root, &mut path) {
        Err(e) => {
            proof {
                lemma_found_leaf_group(root, cs, Seq::empty());
                let p = first_leaf_group(root, Seq::empty())->0;
                assert forall|q: Seq<Seq<char>>| is_leaf_group(cs, q) implies !crate::text::segments_lt(
                    q,
                    p,
                ) by {
                    assert(q.subrange(0, 0) =~= Seq::<Seq<char>>::empty());
                    lemma_found_is_least(root, cs, Seq::empty(), q);
                }
                assert(least_leaf_group(cs, p));
            }
            return Err(e);
        },
        Ok(()) => {},
    }
    proof {
        if has_leaf_group(cs) {
            let p = choose|p: Seq<Seq<char>>| is_leaf_group(cs, p);
            let k1 = choose|k: int| 0 <= k < cs.len() && #[trigger] cs[k].path == p;
            let k2 = choose|k: int| 0 <= k < cs.len() && proper_prefix(p, #[trigger] cs[k].path);
            assert(cs[k1].path.subrange(0, 0) =~= Seq::<Seq<char>>::empty());
            lemma_reaches_leaf_group(root, cs, Seq::empty(), k1, k2);
        }
    }
    Ok(root)
}

/// `p` is a proper prefix of `q`.
pub open spec fn proper_prefix(p: Seq<Seq<char>>, q: Seq<Seq<char>>) -> bool {
    p.len() < q.len() && q.subrange(0, p.len() as int) == p
}

/// `p` is the path of a command of `cs` and a proper prefix of the path of
/// another: a command that is also a command group.
pub open spec fn is_leaf_group(cs: Seq<CommandView>, p: Seq<Seq<char>>) -> bool {
    &&& exists|k: int| 0 <= k < cs.len() && #[trigger] cs[k].path == p
    &&& exists|k: int| 0 <= k < cs.len() && proper_prefix(p, #[trigger] cs[k].path)
}

/// Some command path of `cs` is also a command group.
pub open spec fn has_leaf_group(cs: Seq<CommandView>) -> bool {
    exists|p: Seq<Seq<char>>| is_leaf_group(cs, p)
}

/// The node that `first_leaf_group` reports is a command that is also a group.
proof fn lemma_found_leaf_group(n: CommandNode, cs: Seq<CommandView>, prefix: Seq<Seq<char>>)
    requires
        is_tree_node(n, cs, prefix),
    ensures
        first_leaf_group(n, prefix) matches Some(p) ==> is_leaf_group(cs, p),
    decreases n,
{
    if n.definition is Some && n.children@.len() > 0 {
        let k = n.definition->0 as int;
        assert(cs[k].path == prefix);
        let s = n.children@[0].name@;
        assert(next_segments(cs, prefix).contains(s));
        let k2 = choose|k2: int|
            0 <= k2 < cs.len() && extends(#[trigger] cs[k2].path, prefix) && cs[k2].path.len()
                > prefix.len() && cs[k2].path[prefix.len() as int] == s;
        assert(proper_prefix(prefix, cs[k2].path));
    } else {
        lemma_found_leaf_group_in(n.children@, cs, prefix);
    }
}

proof fn lemma_found_leaf_group_in(
    children: Seq<CommandChild>,
    cs: Seq<CommandView>,
    prefix: Seq<Seq<char>>,
)
    requires
        forall|i: int|
            0 <= i < children.len() ==> is_tree_node(
                #[trigger] children[i].node,
                cs,
                prefix.push(children[i].name@),
            ),
    ensures
        first_leaf_group_in(children, prefix) matches Some(p) ==> is_leaf_group(cs, p),
    decreases children,
{
    if children.len() > 0 {
        let last = children.last();
        assert(is_tree_node(children[children.len() - 1].node, cs, prefix.push(children[children.len() - 1].name@)));
        lemma_found_leaf_group_in(children.drop_last(), cs, prefix);
        lemma_found_leaf_group(last.node, cs, prefix.push(last.name@));
    }
}

proof fn lemma_leaf_group_in_some(children: Seq<CommandChild>, prefix: Seq<Seq<char>>, i: int)
    requires
        0 <= i < children.len(),
        first_leaf_group(children[i].node, prefix.push(children[i].name@)) is Some,
    ensures
        first_leaf_group_in(children, prefix) is Some,
    decreases children.len(),
{
    if i < children.len() - 1 {
        assert(children.drop_last()[i] == children[i]);
        lemma_leaf_group_in_some(children.drop_last(), prefix, i);
    }
}

/// The child of `n` named `s`, where `s` follows `prefix` in a path of `cs`.
proof fn lemma_child_named(n: CommandNode, cs: Seq<CommandView>, prefix: Seq<Seq<char>>, k: int)
    -> (i: int)
    requires
        is_tree_node(n, cs, prefix),
        0 <= k < cs.len(),
        extends(cs[k].path, prefix),
        cs[k].path.len() > prefix.len(),
    ensures
        0 <= i < n.children@.len(),
        n.children@[i].name@ == cs[k].path[prefix.len() as int],
        is_tree_node(n.children@[i].node, cs, prefix.push(cs[k].path[prefix.len() as int])),
        extends(cs[k].path, prefix.push(cs[k].path[prefix.len() as int])),
{
    let s = cs[k].path[prefix.len() as int];
    assert(next_segments(cs, prefix).contains(s));
    let i = choose|i: int| 0 <= i < n.children@.len() && #[trigger] n.children@[i].name@ == s;
    assert(cs[k].path.subrange(0, prefix.len() + 1int) =~= prefix.push(s));
    i
}

/// A command that is also a group under `n` makes `first_leaf_group` report one.
proof fn lemma_reaches_leaf_group(
    n: CommandNode,
    cs: Seq<CommandView>,
    prefix: Seq<Seq<char>>,
    k1: int,
    k2: int,
)
    requires
        is_tree_node(n, cs, prefix),
        0 <= k1 < cs.len(),
        0 <= k2 < cs.len(),
        extends(cs[k1].path, prefix),
        proper_prefix(cs[k1].path, cs[k2].path),
    ensures
        first_leaf_group(n, prefix) is Some,
    decreases n,
{
    if cs[k1].path.len() == prefix.len() {
        assert(cs[k1].path.subrange(0, prefix.len() as int) =~= cs[k1].path);
        assert(n.definition is Some);
        assert(extends(cs[k2].path, prefix));
        let i = lemma_child_named(n, cs, prefix, k2);
    } else {
        let i = lemma_child_named(n, cs, prefix, k1);
        lemma_reaches_leaf_group(n.children@[i].node, cs, prefix.push(n.children@[i].name@), k1, k2);
        if !(n.definition is Some && n.children@.len() > 0) {
            lemma_leaf_group_in_some(n.children@, prefix, i);
        }
    }
}

/// `p` is the least, in path order, of the command paths of `cs` that are
/// also groups.
pub open spec fn least_leaf_group(cs: Seq<CommandView>, p: Seq<Seq<char>>) -> bool {
    &&& is_leaf_group(cs, p)
    &&& forall|q: Seq<Seq<char>>| is_leaf_group(cs, q) ==> !crate::text::segments_lt(q, p)
}

/// A path does not come before a path that it extends.
proof fn lemma_extension_not_before(q: Seq<Seq<char>>, p: Seq<Seq<char>>, i: int)
    requires
        extends(q, p),
        0 <= i <= p.len(),
    ensures
        !crate::text::segments_lt_from(q, p, i),
    decreases p.len() - i,
{
    if i < p.len() {
        assert(q[i] == q.subrange(0, p.len() as int)[i]);
        lemma_extension_not_before(q, p, i + 1);
    }
}

/// Paths that agree up to `r` and then continue with `a` and `b`, where `a`
/// comes before `b`, come in that order.
proof fn lemma_diverging_paths(
    p: Seq<Seq<char>>,
    q: Seq<Seq<char>>,
    r: Seq<Seq<char>>,
    a: Seq<char>,
    b: Seq<char>,
    i: int,
)
    requires
        extends(p, r.push(a)),
        extends(q, r.push(b)),
        crate::text::text_lt(a, b),
        0 <= i <= r.len(),
    ensures
        crate::text::segments_lt_from(p, q, i),
    decreases r.len() - i,
{
    assert(p[i] == p.subrange(0, r.len() + 1int)[i]);
    assert(q[i] == q.subrange(0, r.len() + 1int)[i]);
    if i < r.len() {
        lemma_diverging_paths(p, q, r, a, b, i + 1);
    } else {
        crate::text::lemma_text_order(a, b, b);
    }
}

/// What `first_leaf_group` reports extends the path of the node it starts from.
proof fn lemma_found_extends(n: CommandNode, prefix: Seq<Seq<char>>)
    ensures
        first_leaf_group(n, prefix) matches Some(p) ==> extends(p, prefix),
    decreases n,
{
    if n.definition is Some && n.children@.len() > 0 {
        assert(prefix.subrange(0, prefix.len() as int) =~= prefix);
    } else {
        lemma_found_extends_in(n.children@, prefix);
    }
}

proof fn lemma_found_extends_in(children: Seq<CommandChild>, prefix: Seq<Seq<char>>)
    ensures
        first_leaf_group_in(children, prefix) matches Some(p) ==> extends(p, prefix),
    decreases children,
{
    if children.len() > 0 {
        let last = children.last();
        lemma_found_extends_in(children.drop_last(), prefix);
        lemma_found_extends(last.node, prefix.push(last.name@));
        if first_leaf_group_in(children.drop_last(), prefix) is None {
            match first_leaf_group(last.node, prefix.push(last.name@)) {
                Some(p) => {
                    assert(p.subrange(0, prefix.len() as int) =~= p.subrange(
                        0,
                        prefix.len() + 1int,
                    ).subrange(0, prefix.len() as int));
                    assert(prefix.push(last.name@).subrange(0, prefix.len() as int) =~= prefix);
                },
                None => {},
            }
        }
    }
}

/// What `first_leaf_group_in` reports comes from the first child that reports one.
proof fn lemma_found_in_child(children: Seq<CommandChild>, prefix: Seq<Seq<char>>) -> (i: int)
    requires
        first_leaf_group_in(children, prefix) is Some,
    ensures
        0 <= i < children.len(),
        first_leaf_group(children[i].node, prefix.push(children[i].name@)) == first_leaf_group_in(
            children,
            prefix,
        ),
        forall|j: int|
            0 <= j < i ==> first_leaf_group(
                #[trigger] children[j].node,
                prefix.push(children[j].name@),
            ) is None,
    decreases children.len(),
{
    let prev = children.drop_last();
    if first_leaf_group_in(prev, prefix) is Some {
        let i = lemma_found_in_child(prev, prefix);
        assert forall|j: int| 0 <= j < i implies first_leaf_group(
            #[trigger] children[j].node,
            prefix.push(children[j].name@),
        ) is None by {
            assert(prev[j] == children[j]);
        }
        assert(prev[i] == children[i]);
        i
    } else {
        assert forall|j: int| 0 <= j < children.len() - 1 implies first_leaf_group(
            #[trigger] children[j].node,
            prefix.push(children[j].name@),
        ) is None by {
            assert(prev[j] == children[j]);
            if first_leaf_group(children[j].node, prefix.push(children[j].name@)) is Some {
                lemma_leaf_group_in_some(prev, prefix, j);
            }
        }
        children.len() - 1
    }
}

/// The node that `first_leaf_group` reports comes first, in path order,
/// among the commands below `n` that are also groups.
proof fn lemma_found_is_least(n: CommandNode, cs: Seq<CommandView>, prefix: Seq<Seq<char>>, q: Seq<Seq<char>>)
    requires
        is_tree_node(n, cs, prefix),
        first_leaf_group(n, prefix) is Some,
        is_leaf_group(cs, q),
        extends(q, prefix),
    ensures
        !crate::text::segments_lt(q, first_leaf_group(n, prefix)->0),
    decreases n,
{
    let p = first_leaf_group(n, prefix)->0;
    if n.definition is Some && n.children@.len() > 0 {
        lemma_extension_not_before(q, prefix, 0);
    } else {
        let k1 = choose|k: int| 0 <= k < cs.len() && #[trigger] cs[k].path == q;
        let k2 = choose|k: int| 0 <= k < cs.len() && proper_prefix(q, #[trigger] cs[k].path);
        if q.len() == prefix.len() {
            assert(q.subrange(0, prefix.len() as int) =~= q);
            assert(n.definition is Some);
            assert(extends(cs[k2].path, prefix));
            let j = lemma_child_named(n, cs, prefix, k2);
            assert(false);
        }
        let j = lemma_child_named(n, cs, prefix, k1);
        let i = lemma_found_in_child(n.children@, prefix);
        let ci = n.children@[i];
        let cj = n.children@[j];
        if j < i {
            assert(extends(cs[k1].path, prefix.push(cj.name@)));
            lemma_reaches_leaf_group(cj.node, cs, prefix.push(cj.name@), k1, k2);
        } else if j == i {
            lemma_found_is_least(ci.node, cs, prefix.push(ci.name@), q);
        } else {
            lemma_found_extends(ci.node, prefix.push(ci.name@));
            assert(crate::text::text_lt(ci.name@, cj.name@));
            lemma_diverging_paths(p, q, prefix, ci.name@, cj.name@, 0);
            crate::text::lemma_segments_order(p, q, p);
        }
    }
}

/// Placing every command without a problem leaves the paths distinct.
pub(crate) proof fn lemma_scan_ok_distinct(cs: Seq<CommandView>)
    requires
        tree_scan_error(cs) is None,
    ensures
        distinct_paths(cs),
    decreases cs.len(),
{
    if cs.len() > 0 {
        let prev = cs.drop_last();
        lemma_scan_ok_distinct(prev);
        assert forall|a: int, b: int| 0 <= a < b < cs.len() implies #[trigger] cs[a].path
            != #[trigger] cs[b].path by {
            if b < cs.len() - 1 {
                assert(prev[a] == cs[a]);
                assert(prev[b] == cs[b]);
            } else {
                assert(paths_of(prev)[a] == cs[a].path);
            }
        }
    }
}

// ---------------------------------------------------------------------------
// The command-line description handed to clap
// ---------------------------------------------------------------------------

/// The clap id of the flag that selects JSON output.
pub open spec fn json_arg_id() -> Seq<char> {
    "__lenso_output_json"@
}

/// How an argument stores what it matched, where the default does not do.
#[derive(Clone, Copy, Debug, PartialEq, Eq, Structural)]
pub enum CliAction {
    /// Collect every value given.
    Append,
    /// A flag: true when given.
    SetTrue,
}

/// One argument of a command-line command, in the terms clap takes.
#[derive(Debug)]
pub struct CliArg {
    pub id: String,
    pub help: String,
    pub required: bool,
    /// The position of a positional argument, counted from 1.
    pub index: Option<usize>,
    pub long: Option<String>,
    pub short: Option<char>,
    pub value_name: Option<String>,
    /// A positional argument that takes one or more values.
    pub at_least_one: bool,
    pub action: Option<CliAction>,
}

/// The model of a command-line argument.
pub struct CliArgView {
    pub id: Seq<char>,
    pub help: Seq<char>,
    pub required: bool,
    pub index: Option<usize>,
    pub long: Option<Seq<char>>,
    pub short: Option<char>,
    pub value_name: Option<Seq<char>>,
    pub at_least_one: bool,
    pub action: Option<CliAction>,
}

pub open spec fn opt_text(v: Option<String>) -> Option<Seq<char>> {
    match v {
        Some(s) => Some(s@),
        None => None,
    }
}

impl View for CliArg {
    type V = CliArgView;

    open spec fn view(&self) -> CliArgView {
        CliArgView {
            id: self.id@,
            help: self.help@,
            required: self.required,
            index: self.index,
            long: opt_text(self.long),
            short: self.short,
            value_name: opt_text(self.value_name),
            at_least_one: self.at_least_one,
            action: self.action,
        }
    }
}

/// One command-line command below the root: a catalog leaf or a group.
#[derive(Debug)]
pub struct CliCommand {
    pub name: String,
    pub about: Option<String>,
    pub long_about: Option<String>,
    pub args: Vec<CliArg>,
    /// A group: it must be given one of its subcommands.
    pub requires_subcommand: bool,
    pub subcommands: Vec<CliCommand>,
}

/// The root command-line command, named after the binary.
#[derive(Debug)]
pub struct CliRoot {
    pub name: String,
    /// It must be given one of its subcommands.
    pub requires_subcommand: bool,
    /// Clap adds its own `help` subcommand to every command that has
    /// subcommands.
    pub help_subcommand: bool,
    pub subcommands: Vec<CliCommand>,
}

/// The model of a command-line command and the commands below it.
pub struct CliCommandView {
    pub name: Seq<char>,
    pub about: Option<Seq<char>>,
    pub long_about: Option<Seq<char>>,
    pub args: Seq<CliArgView>,
    pub requires_subcommand: bool,
    pub subcommands: Seq<CliCommandView>,
}

/// The model of `c`.
pub open spec fn cli_view(c: CliCommand) -> CliCommandView
    decreases c,
{
    CliCommandView {
        name: c.name@,
        about: opt_text(c.about),
        long_about: opt_text(c.long_about),
        args: args_view(c.args@),
        requires_subcommand: c.requires_subcommand,
        subcommands: Seq::new(
            c.subcommands@.len(),
            |i: int|
                if 0 <= i < c.subcommands@.len() {
                    cli_view(c.subcommands@[i])
                } else {
                    arbitrary()
                },
        ),
    }
}

/// The model of a root command-line command.
pub struct CliRootView {
    pub name: Seq<char>,
    pub requires_subcommand: bool,
    pub help_subcommand: bool,
    pub subcommands: Seq<CliCommandView>,
}

/// The model of `root`.
pub open spec fn root_view(root: CliRoot) -> CliRootView {
    CliRootView {
        name: root.name@,
        requires_subcommand: root.requires_subcommand,
        help_subcommand: root.help_subcommand,
        subcommands: Seq::new(root.subcommands@.len(), |i: int| cli_view(root.subcommands@[i])),
    }
}

pub open spec fn args_view(args: Seq<CliArg>) -> Seq<CliArgView> {
    args.map_values(|a: CliArg| a@)
}

/// How many positional parameters there are among `ps`.
pub open spec fn positional_count(ps: Seq<ParameterView>) -> nat
    decreases ps.len(),
{
    if ps.len() == 0 {
        0
    } else {
        positional_count(ps.drop_last()) + if ps.last().kind == ParameterKind::Positional {
            1nat
        } else {
            0nat
        }
    }
}

pub open spec fn msg_option_without_long(id: Seq<char>) -> Seq<char> {
    "option `"@ + id + "` has no long name"@
}

pub open spec fn msg_flag_without_long(id: Seq<char>) -> Seq<char> {
    "flag `"@ + id + "` has no long name"@
}

pub open spec fn msg_empty_short() -> Seq<char> {
    "empty short option"@
}

/// Why parameter `p` cannot become a command-line argument, if it cannot.
pub open spec fn arg_error(p: ParameterView) -> Option<Seq<char>> {
    let short_empty = crate::catalog::present(p.short) matches Some(s) && s.len() == 0;
    match p.kind {
        ParameterKind::Positional => None,
        ParameterKind::Option => if crate::catalog::present(p.long) is None {
            Some(msg_option_without_long(p.id))
        } else if short_empty {
            Some(msg_empty_short())
        } else {
            None
        },
        ParameterKind::Flag => if crate::catalog::present(p.long) is None {
            Some(msg_flag_without_long(p.id))
        } else if short_empty {
            Some(msg_empty_short())
        } else {
            None
        },
    }
}

/// The command-line argument for parameter `p`, the `index`-th positional
/// one if it is positional.
pub open spec fn arg_of(p: ParameterView, index: usize) -> CliArgView {
    let value_name = match crate::catalog::present(p.value_name) {
        Some(v) => v,
        None => p.id,
    };
    let short = match crate::catalog::present(p.short) {
        Some(s) => Some(s[0]),
        None => None,
    };
    match p.kind {
        ParameterKind::Positional => CliArgView {
            id: p.id,
            help: p.description,
            required: p.required,
            index: Some(index),
            long: None,
            short: None,
            value_name: Some(value_name),
            at_least_one: p.multiple,
            action: if p.multiple {
                Some(CliAction::Append)
            } else {
                None
            },
        },
        ParameterKind::Option => CliArgView {
            id: p.id,
            help: p.description,
            required: p.required,
            index: None,
            long: crate::catalog::present(p.long),
            short,
            value_name: Some(value_name),
            at_least_one: false,
            action: if p.multiple {
                Some(CliAction::Append)
            } else {
                None
            },
        },
        ParameterKind::Flag => CliArgView {
            id: p.id,
            help: p.description,
            required: p.required,
            index: None,
            long: crate::catalog::present(p.long),
            short,
            value_name: None,
            at_least_one: false,
            action: Some(CliAction::SetTrue),
        },
    }
}

/// The flag that selects JSON output.
pub open spec fn json_arg() -> CliArgView {
    CliArgView {
        id: json_arg_id(),
        help: "Emit the command result as JSON"@,
        required: false,
        index: None,
        long: Some("json"@),
        short: None,
        value_name: None,
        at_least_one: false,
        action: Some(CliAction::SetTrue),
    }
}

/// The first parameter among `ps` that cannot become an argument.
pub open spec fn params_arg_error(ps: Seq<ParameterView>) -> Option<Seq<char>>
    decreases ps.len(),
{
    if ps.len() == 0 {
        None
    } else {
        match params_arg_error(ps.drop_last()) {
            Some(m) => Some(m),
            None => arg_error(ps.last()),
        }
    }
}

/// The arguments of the command for definition `c`.
#[verifier::opaque]
pub open spec fn command_args(c: CommandView) -> Seq<CliArgView> {
    let ps = c.parameters;
    let own = Seq::new(
        ps.len(),
        |i: int| arg_of(ps[i], (1 + positional_count(ps.subrange(0, i))) as usize),
    );
    if c.output_formats.contains(OutputFormat::Json) {
        own.push(json_arg())
    } else {
        own
    }
}

/// `c` is the command-line command for tree node `n` named `name`.
pub open spec fn is_cli_command(c: CliCommand, name: Seq<char>, n: CommandNode, cs: Seq<CommandView>) -> bool
    decreases n,
{
    &&& c.name@ == name
    &&& match n.definition {
        Some(k) => 0 <= k < cs.len() && opt_text(c.about)
            == Some(cs[k as int].summary) && opt_text(c.long_about) == Some(cs[k as int].description)
            && args_view(c.args@) == command_args(cs[k as int]),
        None => c.about is None && c.long_about is None && c.args@.len() == 0,
    }
    &&& c.requires_subcommand == (n.definition is None && n.children@.len() > 0)
    &&& c.subcommands@.len() == n.children@.len()
    &&& forall|i: int|
        0 <= i < n.children@.len() ==> is_cli_command(
            #[trigger] c.subcommands@[i],
            n.children@[i].name@,
            n.children@[i].node,
            cs,
        )
}

/// The first problem, depth first, with turning the parameters of the
/// commands of tree node `n` into arguments.
pub open spec fn node_arg_error(n: CommandNode, cs: Seq<CommandView>) -> Option<Seq<char>>
    decreases n,
{
    let own = match n.definition {
        Some(k) => if 0 <= k < cs.len() {
            params_arg_error(cs[k as int].parameters)
        } else {
            None
        },
        None => None,
    };
    match own {
        Some(m) => Some(m),
        None => children_arg_error(n.children@, cs),
    }
}

pub open spec fn children_arg_error(children: Seq<CommandChild>, cs: Seq<CommandView>) -> Option<
    Seq<char>,
>
    decreases children,
{
    if children.len() == 0 {
        None
    } else {
        match children_arg_error(children.drop_last(), cs) {
            Some(m) => Some(m),
            None => node_arg_error(children.last().node, cs),
        }
    }
}

/// The value of an optional wire string that is present and not null.
pub(crate) fn optional_string(value: &crate::contract::OptionalValue<String>) -> (r: Option<&String>)
    ensures
        r matches Some(s) ==> crate::catalog::present(crate::contract::optional_view(*value))
            == Some(s@),
        r is None ==> crate::catalog::present(crate::contract::optional_view(*value)) is None,
{
    match value {
        Some(Some(s)) => Some(s),
        _ => None,
    }
}

/// Every command has fewer than `usize::MAX` parameters, so that counting
/// positions cannot overflow.
pub open spec fn parameter_counts_fit(catalog: Seq<CommandDefinition>) -> bool {
    forall|k: int| 0 <= k < catalog.len() ==> #[trigger] catalog[k].parameters.len() < usize::MAX
}

/// The command-line argument for one parameter, the `positional_index`-th
/// positional one if it is positional; also whether it took a position.
pub fn build_arg(parameter: &CommandParameter, positional_index: usize) -> (r: Result<
    (CliArg, bool),
    ParseError,
>)
    ensures
        r is Err <==> arg_error(parameter@) is Some,
        r matches Err(e) ==> arg_error(parameter@) == Some(e@),
        r matches Ok((a, consumed)) ==> a@ == arg_of(parameter@, positional_index) && consumed == (
        parameter.kind == ParameterKind::Positional),
{
    let value_name = match optional_string(&parameter.value_name) {
        Some(v) => v.clone(),
        None => parameter.id.clone(),
    };
    let short = match optional_string(&parameter.short) {
        Some(s) => {
            if s.unicode_len() == 0 {
                None
            } else {
                Some(s.as_str().get_char(0))
            }
        },
        None => None,
    };
    let short_empty = match optional_string(&parameter.short) {
        Some(s) => s.unicode_len() == 0,
        None => false,
    };
    match parameter.kind {
        ParameterKind::Positional => {
            let action = if parameter.multiple {
                Some(CliAction::Append)
            } else {
                None
            };
            Ok(
                (
                    CliArg {
                        id: parameter.id.clone(),
                        help: parameter.description.clone(),
                        required: parameter.required,
                        index: Some(positional_index),
                        long: None,
                        short: None,
                        value_name: Some(value_name),
                        at_least_one: parameter.multiple,
                        action,
                    },
                    true,
                ),
            )
        },
        ParameterKind::Option => {
            let long = match optional_string(&parameter.long) {
                Some(l) => l.clone(),
                None => {
                    return Err(
                        ParseError::new(
                            concat3("option `", parameter.id.as_str(), "` has no long name"),
                        ),
                    );
                },
            };
            if short_empty {
                proof {
                    reveal_strlit("empty short option");
                }
                return Err(ParseError::new(String::from_str("empty short option")));
            }
            let action = if parameter.multiple {
                Some(CliAction::Append)
            } else {
                None
            };
            Ok(
                (
                    CliArg {
                        id: parameter.id.clone(),
                        help: parameter.description.clone(),
                        required: parameter.required,
                        index: None,
                        long: Some(long),
                        short,
                        value_name: Some(value_name),
                        at_least_one: false,
                        action,
                    },
                    false,
                ),
            )
        },
        ParameterKind::Flag => {
            let long = match optional_string(&parameter.long) {
                Some(l) => l.clone(),
                None => {
                    return Err(
                        ParseError::new(
                            concat3("flag `", parameter.id.as_str(), "` has no long name"),
                        ),
                    );
                },
            };
            if short_empty {
                proof {
                    reveal_strlit("empty short option");
                }
                return Err(ParseError::new(String::from_str("empty short option")));
            }
            Ok(
                (
                    CliArg {
                        id: parameter.id.clone(),
                        help: parameter.description.clone(),
                        required: parameter.required,
                        index: None,
                        long: Some(long),
                        short,
                        value_name: None,
                        at_least_one: false,
                        action: Some(CliAction::SetTrue),
                    },
                    false,
                ),
            )
        },
    }
}

/// The flag that selects JSON output.
fn build_json_arg() -> (r: CliArg)
    ensures
        r@ == json_arg(),
{
    CliArg {
        id: String::from_str("__lenso_output_json"),
        help: String::from_str("Emit the command result as JSON"),
        required: false,
        index: None,
        long: Some(String::from_str("json")),
        short: None,
        value_name: None,
        at_least_one: false,
        action: Some(CliAction::SetTrue),
    }
}

proof fn lemma_arg_error_persists(ps: Seq<ParameterView>, j: int)
    requires
        0 <= j <= ps.len(),
        params_arg_error(ps.subrange(0, j)) is Some,
    ensures
        params_arg_error(ps) == params_arg_error(ps.subrange(0, j)),
    decreases ps.len() - j,
{
    if j == ps.len() {
        assert(ps.subrange(0, j) =~= ps);
    } else {
        assert(ps.subrange(0, j + 1).drop_last() =~= ps.subrange(0, j));
        lemma_arg_error_persists(ps, j + 1);
    }
}

proof fn lemma_children_error_persists(children: Seq<CommandChild>, cs: Seq<CommandView>, j: int)
    requires
        0 <= j <= children.len(),
        children_arg_error(children.subrange(0, j), cs) is Some,
    ensures
        children_arg_error(children, cs) == children_arg_error(children.subrange(0, j), cs),
    decreases children.len() - j,
{
    if j == children.len() {
        assert(children.subrange(0, j) =~= children);
    } else {
        assert(children.subrange(0, j + 1).drop_last() =~= children.subrange(0, j));
        lemma_children_error_persists(children, cs, j + 1);
    }
}

/// The arguments of the command for `definition`, or the first parameter
/// that cannot become one.
fn build_args(definition: &CommandDefinition) -> (r: Result<Vec<CliArg>, ParseError>)
    requires
        definition.parameters.len() < usize::MAX,
    ensures
        r is Err <==> params_arg_error(definition@.parameters) is Some,
        r matches Err(e) ==> params_arg_error(definition@.parameters) == Some(e@),
        r matches Ok(args) ==> args_view(args@) == command_args(definition@),
{
    let ghost ps = definition@.parameters;
    let ghost own = Seq::new(
        ps.len(),
        |i: int| arg_of(ps[i], (1 + positional_count(ps.subrange(0, i))) as usize),
    );
    let mut args: Vec<CliArg> = Vec::new();
    let mut positional_index: usize = 1;
    let mut i: usize = 0;
    while i < definition.parameters.len()
        invariant
            ps == definition@.parameters,
            ps.len() == definition.parameters.len(),
            definition.parameters.len() < usize::MAX,
            own == Seq::new(
                ps.len(),
                |i: int| arg_of(ps[i], (1 + positional_count(ps.subrange(0, i))) as usize),
            ),
            i <= ps.len(),
            positional_index == 1 + positional_count(ps.subrange(0, i as int)),
            positional_count(ps.subrange(0, i as int)) <= i,
            params_arg_error(ps.subrange(0, i as int)) is None,
            args_view(args@) == own.subrange(0, i as int),
        decreases ps.len() - i,
    {
        let parameter = &definition.parameters[i];
        assert(ps[i as int] == parameter@);
        assert(ps.subrange(0, i + 1).drop_last() =~= ps.subrange(0, i as int));
        match build_arg(parameter, positional_index) {
            Err(e) => {
                proof {
                    lemma_arg_error_persists(ps, i + 1);
                }
                return Err(e);
            },
            Ok((arg, consumed)) => {
                let ghost before = args@;
                args.push(arg);
                proof {
                    assert(args_view(args@) =~= args_view(before).push(
                        own[i as int],
                    ));
                    assert(own.subrange(0, i + 1) =~= own.subrange(0, i as int).push(own[i as int]));
                }
                if consumed {
                    positional_index = positional_index + 1;
                }
            },
        }
        i = i + 1;
    }
    assert(own.subrange(0, i as int) =~= own);
    assert(ps.subrange(0, i as int) =~= ps);
    if supports_output(definition, &OutputFormat::Json) {
        let ghost before = args@;
        args.push(build_json_arg());
        assert(args_view(args@) =~= args_view(before).push(json_arg()));
    }
    proof {
        reveal(command_args);
    }
    Ok(args)
}

/// The command-line command for tree node `node` named `name`, with its
/// subcommands.
pub fn build_clap_node(
    name: &String,
    node: &CommandNode,
    catalog: &[CommandDefinition],
    Ghost(prefix): Ghost<Seq<Seq<char>>>,
) -> (r: Result<CliCommand, ParseError>)
    requires
        is_tree_node(*node, catalog_view(catalog@), prefix),
        parameter_counts_fit(catalog@),
    ensures
        r is Err <==> node_arg_error(*node, catalog_view(catalog@)) is Some,
        r matches Err(e) ==> node_arg_error(*node, catalog_view(catalog@)) == Some(e@),
        r matches Ok(c) ==> is_cli_command(c, name@, *node, catalog_view(catalog@)),
    decreases *node,
{
    let ghost cs = catalog_view(catalog@);
    let mut about: Option<String> = None;
    let mut long_about: Option<String> = None;
    let mut args: Vec<CliArg> = Vec::new();
    match node.definition {
        Some(index) => {
            let definition = &catalog[index];
            assert(cs[index as int] == definition@);
            about = Some(definition.summary.clone());
            long_about = Some(definition.description.clone());
            args = match build_args(definition) {
                Ok(a) => a,
                Err(e) => {
                    assert(node_arg_error(*node, cs) == Some(e@));
                    return Err(e);
                },
            };
        },
        None => {},
    }
    assert(node_arg_error(*node, cs) == children_arg_error(node.children@, cs));
    let mut subcommands: Vec<CliCommand> = Vec::new();
    let mut i: usize = 0;
    while i < node.children.len()
        invariant
            cs == catalog_view(catalog@),
            node_arg_error(*node, cs) == children_arg_error(node.children@, cs),
            is_tree_node(*node, cs, prefix),
            parameter_counts_fit(catalog@),
            i <= node.children.len(),
            children_arg_error(node.children@.subrange(0, i as int), cs) is None,
            subcommands@.len() == i,
            forall|j: int|
                0 <= j < i ==> is_cli_command(
                    #[trigger] subcommands@[j],
                    node.children@[j].name@,
                    node.children@[j].node,
                    cs,
                ),
        decreases node.children.len() - i,
    {
        let child = &node.children[i];
        assert(node.children@.subrange(0, i + 1).drop_last() =~= node.children@.subrange(
            0,
            i as int,
        ));
        assert(node.children@.subrange(0, i + 1).last() == node.children@[i as int]);
        match build_clap_node(
            &child.name,
            &child.node,
            catalog,
            Ghost(prefix.push(child.name@)),
        ) {
            Err(e) => {
                proof {
                    lemma_children_error_persists(node.children@, cs, i + 1);
                }
                return Err(e);
            },
            Ok(c) => {
                subcommands.push(c);
            },
        }
        i = i + 1;
    }
    assert(node.children@.subrange(0, i as int) =~= node.children@);
    let requires_subcommand = node.definition.is_none() && node.children.len() > 0;
    Ok(
        CliCommand {
            name: name.clone(),
            about,
            long_about,
            args,
            requires_subcommand,
            subcommands,
        },
    )
}

/// The root command-line command, named `binary_name`, with one subcommand
/// for each child of the tree's root.
pub fn build_clap_command(
    binary_name: &str,
    root: &CommandNode,
    catalog: &[CommandDefinition],
) -> (r: Result<CliRoot, ParseError>)
    requires
        is_tree_node(*root, catalog_view(catalog@), Seq::empty()),
        parameter_counts_fit(catalog@),
    ensures
        r is Err <==> children_arg_error(root.children@, catalog_view(catalog@)) is Some,
        r matches Err(e) ==> children_arg_error(root.children@, catalog_view(catalog@)) == Some(
            e@,
        ),
        r matches Ok(c) ==> c.name@ == binary_name@ && c.requires_subcommand && !c.help_subcommand
            && c.subcommands@.len() == root.children@.len()
            && forall|i: int|
            0 <= i < root.children@.len() ==> is_cli_command(
                #[trigger] c.subcommands@[i],
                root.children@[i].name@,
                root.children@[i].node,
                catalog_view(catalog@),
            ),
{
    let ghost cs = catalog_view(catalog@);
    let mut subcommands: Vec<CliCommand> = Vec::new();
    let mut i: usize = 0;
    while i < root.children.len()
        invariant
            cs == catalog_view(catalog@),
            is_tree_node(*root, cs, Seq::empty()),
            parameter_counts_fit(catalog@),
            i <= root.children.len(),
            children_arg_error(root.children@.subrange(0, i as int), cs) is None,
            subcommands@.len() == i,
            forall|j: int|
                0 <= j < i ==> is_cli_command(
                    #[trigger] subcommands@[j],
                    root.children@[j].name@,
                    root.children@[j].node,
                    cs,
                ),
        decreases root.children.len() - i,
    {
        let child = &root.children[i];
        assert(root.children@.subrange(0, i + 1).drop_last() =~= root.children@.subrange(
            0,
            i as int,
        ));
        assert(root.children@.subrange(0, i + 1).last() == root.children@[i as int]);
        match build_clap_node(
            &child.name,
            &child.node,
            catalog,
            Ghost(Seq::<Seq<char>>::empty().push(child.name@)),
        ) {
            Err(e) => {
                proof {
                    lemma_children_error_persists(root.children@, cs, i + 1);
                }
                return Err(e);
            },
            Ok(c) => {
                subcommands.push(c);
            },
        }
        i = i + 1;
    }
    assert(root.children@.subrange(0, i as int) =~= root.children@);
    Ok(
        CliRoot {
            name: String::from_str(binary_name),
            requires_subcommand: true,
            help_subcommand: false,
            subcommands,
        },
    )
}

// ---------------------------------------------------------------------------
// The argument envelope of a parsed command
// ---------------------------------------------------------------------------

/// What the command line gave for one parameter of the matched command.
#[derive(Clone, Debug)]
pub enum FoundValue {
    /// A flag, and whether it was given.
    Flag(bool),
    /// The values of a parameter that takes several, if any were given.
    Many(Option<Vec<String>>),
    /// The value of a parameter that takes one, if it was given.
    One(Option<String>),
}

/// The model of what was found for one parameter.
pub enum FoundView {
    Flag(bool),
    Many(Option<Seq<Seq<char>>>),
    One(Option<Seq<char>>),
}

impl View for FoundValue {
    type V = FoundView;

    open spec fn view(&self) -> FoundView {
        match self {
            FoundValue::Flag(b) => FoundView::Flag(*b),
            FoundValue::Many(v) => FoundView::Many(
                match v {
                    Some(v) => Some(strings_view(v@)),
                    None => None,
                },
            ),
            FoundValue::One(v) => FoundView::One(opt_text(*v)),
        }
    }
}

pub open spec fn found_view(found: Seq<FoundValue>) -> Seq<FoundView> {
    found.map_values(|f: FoundValue| f@)
}

/// The envelope entry for parameter `p` given what was found for it, or the
/// error for a value outside its choices.
pub open spec fn entry_for(p: ParameterView, f: FoundView) -> Result<
    Option<(Seq<char>, JsonArgumentView)>,
    Seq<char>,
> {
    if p.kind == ParameterKind::Flag {
        if f == FoundView::Flag(true) {
            Ok(Some((p.id, JsonArgumentView::Flag)))
        } else {
            Ok(None)
        }
    } else if p.multiple {
        match f {
            FoundView::Many(Some(vs)) => if values_allowed(p.choices, vs) {
                Ok(Some((p.id, JsonArgumentView::List(vs))))
            } else {
                Err(msg_invalid_choice(p.id, p.choices))
            },
            _ => Ok(None),
        }
    } else {
        match f {
            FoundView::One(Some(v)) => if values_allowed(p.choices, seq![v]) {
                Ok(Some((p.id, JsonArgumentView::Text(v))))
            } else {
                Err(msg_invalid_choice(p.id, p.choices))
            },
            _ => Ok(None),
        }
    }
}

/// What was found for the `i`-th parameter: nothing where nothing was reported.
pub open spec fn found_at(found: Seq<FoundView>, i: int) -> FoundView {
    if 0 <= i < found.len() {
        found[i]
    } else {
        FoundView::One(None)
    }
}

/// The envelope entries of parameters `ps`, in order, or the first choice error.
pub open spec fn collected(ps: Seq<ParameterView>, found: Seq<FoundView>) -> Result<
    Seq<(Seq<char>, JsonArgumentView)>,
    Seq<char>,
>
    decreases ps.len(),
{
    if ps.len() == 0 {
        Ok(Seq::empty())
    } else {
        match collected(ps.drop_last(), found) {
            Err(m) => Err(m),
            Ok(es) => match entry_for(ps.last(), found_at(found, ps.len() - 1)) {
                Err(m) => Err(m),
                Ok(None) => Ok(es),
                Ok(Some(e)) => Ok(es.push(e)),
            },
        }
    }
}

/// The output format of a parsed command: JSON when asked for or when the
/// command has no text output, text otherwise.
pub open spec fn selected_format(c: CommandView, json_requested: bool) -> OutputFormat {
    if json_requested {
        OutputFormat::Json
    } else if c.output_formats.contains(OutputFormat::Text) {
        OutputFormat::Text
    } else {
        OutputFormat::Json
    }
}

/// `p` is what command `c` parses into, given what was found for its
/// parameters and whether JSON output was asked for.
pub open spec fn resolution(c: CommandView, found: Seq<FoundView>, json_requested: bool, p: ParsedCommand) -> bool {
    &&& collected(c.parameters, found) matches Ok(es)
    &&& p.id@ == c.id
    &&& p.arguments_json@ == json_object_text(es)
    &&& p.output_format == selected_format(c, json_requested)
}

proof fn lemma_collected_persists(ps: Seq<ParameterView>, found: Seq<FoundView>, j: int)
    requires
        0 <= j <= ps.len(),
        collected(ps.subrange(0, j), found) is Err,
    ensures
        collected(ps, found) == collected(ps.subrange(0, j), found),
    decreases ps.len() - j,
{
    if j == ps.len() {
        assert(ps.subrange(0, j) =~= ps);
    } else {
        assert(ps.subrange(0, j + 1).drop_last() =~= ps.subrange(0, j));
        lemma_collected_persists(ps, found, j + 1);
    }
}

/// The argument envelope of `definition` given what was found for its
/// parameters, and its output format.
pub fn resolve_command(
    definition: &CommandDefinition,
    found: &Vec<FoundValue>,
    json_requested: bool,
) -> (r: Result<ParsedCommand, ParseError>)
    ensures
        match collected(definition@.parameters, found_view(found@)) {
            Err(m) => r matches Err(e) && e@ == m,
            Ok(es) => r matches Ok(p) && resolution(definition@, found_view(found@), json_requested, p)
                && crate::json::parses_as_json_object(p.arguments_json@),
        },
{
    let ghost ps = definition@.parameters;
    let ghost fv = found_view(found@);
    let mut entries: Vec<JsonEntry> = Vec::new();
    assert(entries_view(entries@) =~= Seq::<(Seq<char>, JsonArgumentView)>::empty());
    assert(ps.subrange(0, 0) =~= Seq::<ParameterView>::empty());
    let mut i: usize = 0;
    while i < definition.parameters.len()
        invariant
            ps == definition@.parameters,
            fv == found_view(found@),
            ps.len() == definition.parameters.len(),
            i <= ps.len(),
            collected(ps.subrange(0, i as int), fv) == Ok::<
                Seq<(Seq<char>, JsonArgumentView)>,
                Seq<char>,
            >(entries_view(entries@)),
        decreases ps.len() - i,
    {
        let parameter = &definition.parameters[i];
        assert(ps[i as int] == parameter@);
        assert(ps.subrange(0, i + 1).drop_last() =~= ps.subrange(0, i as int));
        let ghost f = found_at(fv, i as int);
        let ghost before = entries@;
        let absent = FoundValue::One(None);
        let value: &FoundValue = if i < found.len() {
            &found[i]
        } else {
            &absent
        };
        assert(value@ == f);
        let mut entry: Option<JsonEntry> = None;
        if parameter.kind == ParameterKind::Flag {
            match value {
                FoundValue::Flag(true) => {
                    entry = Some(JsonEntry { key: parameter.id.clone(), value: JsonArgument::Flag });
                },
                _ => {},
            }
        } else if parameter.multiple {
            match value {
                FoundValue::Many(Some(values)) => {
                    match validate_choices(parameter, values.as_slice()) {
                        Err(e) => {
                            proof {
                                lemma_collected_persists(ps, fv, i + 1);
                            }
                            return Err(e);
                        },
                        Ok(()) => {},
                    }
                    entry = Some(
                        JsonEntry {
                            key: parameter.id.clone(),
                            value: JsonArgument::List(crate::contract::copy_strings(values)),
                        },
                    );
                },
                _ => {},
            }
        } else {
            match value {
                FoundValue::One(Some(v)) => {
                    let single = vec![v.clone()];
                    assert(strings_view(single@) =~= seq![v@]);
                    match validate_choices(parameter, single.as_slice()) {
                        Err(e) => {
                            proof {
                                lemma_collected_persists(ps, fv, i + 1);
                            }
                            return Err(e);
                        },
                        Ok(()) => {},
                    }
                    entry = Some(
                        JsonEntry { key: parameter.id.clone(), value: JsonArgument::Text(v.clone()) },
                    );
                },
                _ => {},
            }
        }
        match entry {
            Some(e) => {
                entries.push(e);
                assert(entries_view(entries@) =~= entries_view(before).push(
                    (entries@[entries@.len() - 1].key@, entries@[entries@.len() - 1].value@),
                ));
            },
            None => {},
        }
        i = i + 1;
    }
    assert(ps.subrange(0, i as int) =~= ps);
    let arguments_json = render_json_object(&entries);
    let output_format = if json_requested {
        OutputFormat::Json
    } else if supports_output(definition, &OutputFormat::Text) {
        OutputFormat::Text
    } else {
        OutputFormat::Json
    };
    Ok(ParsedCommand { id: definition.id.clone(), arguments_json, output_format })
}

// ---------------------------------------------------------------------------
// Catalogs that clap accepts
// ---------------------------------------------------------------------------

/// An option or flag, which has names, rather than a positional parameter.
pub open spec fn named(p: ParameterView) -> bool {
    p.kind != ParameterKind::Positional
}

/// Whether the command for `c` has the JSON flag.
pub open spec fn offers_json(c: CommandView) -> bool {
    c.output_formats.contains(OutputFormat::Json)
}

/// Distinct parameter ids, none of them `help` (the id of clap's built-in
/// help flag), nor the JSON flag's id where `c` offers JSON.
#[verifier::opaque]
pub open spec fn parameter_ids_ok(c: CommandView) -> bool {
    let ps = c.parameters;
    &&& forall|i: int, j: int|
        0 <= i < j < ps.len() ==> (#[trigger] ps[i]).id != (#[trigger] ps[j]).id
    &&& forall|i: int|
        0 <= i < ps.len() ==> (#[trigger] ps[i]).id != "help"@ && (offers_json(c) ==> ps[i].id
            != json_arg_id())
}

/// Distinct long names among options and flags, none of them `help`, nor
/// `json` where `c` offers JSON, and none starting with `-`.
#[verifier::opaque]
pub open spec fn parameter_longs_ok(c: CommandView) -> bool {
    let ps = c.parameters;
    &&& forall|i: int, j: int|
        0 <= i < j < ps.len() && named(#[trigger] ps[i]) && named(#[trigger] ps[j]) && present(
            ps[i].long,
        ) is Some ==> present(ps[i].long) != present(ps[j].long)
    &&& forall|i: int|
        0 <= i < ps.len() && named(#[trigger] ps[i]) ==> present(ps[i].long) != Some("help"@) && (
        offers_json(c) ==> present(ps[i].long) != Some("json"@)) && !(present(ps[i].long) matches Some(
            l,
        ) && l.len() > 0 && l[0] == '-')
}

/// The first character of a parameter's short name, where it has a nonempty one.
pub open spec fn short_first(p: ParameterView) -> Option<char> {
    match present(p.short) {
        Some(s) => if s.len() > 0 {
            Some(s[0])
        } else {
            None
        },
        None => None,
    }
}

/// Distinct first characters of short names among options and flags, none
/// of them `h` or `-`.
#[verifier::opaque]
pub open spec fn parameter_shorts_ok(c: CommandView) -> bool {
    let ps = c.parameters;
    &&& forall|i: int, j: int|
        0 <= i < j < ps.len() && named(#[trigger] ps[i]) && named(#[trigger] ps[j]) && short_first(
            ps[i],
        ) is Some ==> short_first(ps[i]) != short_first(ps[j])
    &&& forall|i: int|
        0 <= i < ps.len() && named(#[trigger] ps[i]) ==> short_first(ps[i]) != Some('h')
            && short_first(ps[i]) != Some('-')
}

/// No optional positional parameter before a required one.
#[verifier::opaque]
pub open spec fn positional_order_ok(c: CommandView) -> bool {
    let ps = c.parameters;
    forall|i: int, j: int|
        0 <= i < j < ps.len() && !named(#[trigger] ps[i]) && !named(#[trigger] ps[j])
            && ps[j].required ==> ps[i].required
}

/// A positional parameter with several values comes last, or just before a
/// last positional one that is required and takes one value.
#[verifier::opaque]
pub open spec fn positional_repeat_ok(c: CommandView) -> bool {
    let ps = c.parameters;
    forall|i: int|
        0 <= i < ps.len() && !named(#[trigger] ps[i]) && ps[i].multiple ==> ((forall|j: int|
            i < j < ps.len() ==> named(#[trigger] ps[j])) || (exists|j: int|
            i < j < ps.len() && !named(#[trigger] ps[j]) && ps[j].required && !ps[j].multiple
                && forall|k: int| i < k < ps.len() && k != j ==> named(#[trigger] ps[k])))
}

/// The parameters of `c` give clap no arguments that its debug assertions
/// reject.
pub open spec fn definition_clap_safe(c: CommandView) -> bool {
    &&& parameter_ids_ok(c)
    &&& parameter_longs_ok(c)
    &&& parameter_shorts_ok(c)
    &&& positional_order_ok(c)
    &&& positional_repeat_ok(c)
}

/// Every command of `cs` is `definition_clap_safe`.
pub open spec fn clap_safe(cs: Seq<CommandView>) -> bool {
    forall|k: int| 0 <= k < cs.len() ==> definition_clap_safe(#[trigger] cs[k])
}

proof fn lemma_no_arg_error(ps: Seq<ParameterView>, i: int)
    requires
        params_arg_error(ps) is None,
        0 <= i < ps.len(),
    ensures
        arg_error(ps[i]) is None,
    decreases ps.len(),
{
    if i < ps.len() - 1 {
        lemma_no_arg_error(ps.drop_last(), i);
        assert(ps.drop_last()[i] == ps[i]);
    }
}

proof fn lemma_count_bound(ps: Seq<ParameterView>)
    ensures
        positional_count(ps) <= ps.len(),
    decreases ps.len(),
{
    if ps.len() > 0 {
        lemma_count_bound(ps.drop_last());
    }
}

proof fn lemma_positionals_count(c: CommandView, i: int)
    requires
        0 <= i <= c.parameters.len(),
        c.parameters.len() < usize::MAX,
    ensures
        crate::clap_bridge::positionals_before(command_args(c), i) == positional_count(
            c.parameters.subrange(0, i),
        ),
    decreases i,
{
    reveal(command_args);
    let ps = c.parameters;
    if i > 0 {
        lemma_positionals_count(c, i - 1);
        assert(ps.subrange(0, i).drop_last() =~= ps.subrange(0, i - 1));
        assert(ps.subrange(0, i).last() == ps[i - 1]);
    } else {
        assert(ps.subrange(0, 0) =~= Seq::<ParameterView>::empty());
    }
}

/// How many arguments the command for `c` has, and the JSON flag last.
proof fn lemma_args_len(c: CommandView)
    ensures
        offers_json(c) ==> command_args(c).len() == c.parameters.len() + 1 && command_args(c)[c.parameters.len() as int]
            == json_arg(),
        !offers_json(c) ==> command_args(c).len() == c.parameters.len(),
{
    reveal(command_args);
}

/// The argument for the `i`-th parameter of `c`.
proof fn lemma_arg_at(c: CommandView, i: int)
    requires
        params_arg_error(c.parameters) is None,
        c.parameters.len() < usize::MAX,
        0 <= i < c.parameters.len(),
    ensures
        ({
            let p = c.parameters[i];
            let a = command_args(c)[i];
            &&& a.id == p.id
            &&& a.required == p.required
            &&& (a.index is Some) == !named(p)
            &&& a.at_least_one == (!named(p) && p.multiple)
            &&& a.long == (if named(p) {
                present(p.long)
            } else {
                None
            })
            &&& named(p) ==> present(p.long) is Some
            &&& a.short == (if named(p) {
                short_first(p)
            } else {
                None
            })
            &&& a.index is Some ==> a.index->0 == 1 + crate::clap_bridge::positionals_before(
                command_args(c),
                i,
            )
            &&& !named(p) ==> a.action != Some(CliAction::SetTrue) && (a.action == Some(
                CliAction::Append) <==> p.multiple)
            &&& a.at_least_one ==> a.action == Some(CliAction::Append)
        }),
{
    reveal(command_args);
    let ps = c.parameters;
    lemma_no_arg_error(ps, i);
    lemma_positionals_count(c, i);
    lemma_count_bound(ps.subrange(0, i));
}

proof fn lemma_ids_ok(c: CommandView)
    requires
        parameter_ids_ok(c),
        params_arg_error(c.parameters) is None,
        c.parameters.len() < usize::MAX,
    ensures
        crate::clap_bridge::ids_ok(command_args(c)),
{
    reveal(crate::clap_bridge::ids_ok);
    reveal(parameter_ids_ok);
    reveal_strlit("help");
    reveal_strlit("__lenso_output_json");
    lemma_args_len(c);
    let args = command_args(c);
    let n = c.parameters.len() as int;
    assert forall|i: int, j: int| 0 <= i < j < args.len() implies (#[trigger] args[i]).id != (
    #[trigger] args[j]).id by {
        lemma_arg_at(c, i);
        if j < n {
            lemma_arg_at(c, j);
        }
    }
    assert forall|i: int| 0 <= i < args.len() implies (#[trigger] args[i]).id != "help"@ by {
        if i < n {
            lemma_arg_at(c, i);
        } else {
            assert(args[i].id.len() != "help"@.len());
        }
    }
}

proof fn lemma_longs_ok(c: CommandView)
    requires
        parameter_longs_ok(c),
        params_arg_error(c.parameters) is None,
        c.parameters.len() < usize::MAX,
    ensures
        crate::clap_bridge::longs_ok(command_args(c)),
{
    reveal(crate::clap_bridge::longs_ok);
    reveal(parameter_longs_ok);
    reveal_strlit("help");
    reveal_strlit("json");
    lemma_args_len(c);
    let args = command_args(c);
    let ps = c.parameters;
    let n = ps.len() as int;
    assert forall|i: int, j: int|
        0 <= i < j < args.len() && (#[trigger] args[i]).long is Some implies args[i].long != (
        #[trigger] args[j]).long by {
        lemma_arg_at(c, i);
        assert(named(ps[i]));
        if j < n {
            lemma_arg_at(c, j);
            if named(ps[j]) {
                assert(named(ps[i]) && named(ps[j]));
            }
        }
    }
    assert forall|i: int| 0 <= i < args.len() implies (#[trigger] args[i]).long != Some("help"@)
        && !(args[i].long matches Some(l) && l.len() > 0 && l[0] == '-') by {
        if i < n {
            lemma_arg_at(c, i);
            if named(ps[i]) {
                assert(named(ps[i]));
            }
        } else {
            reveal_strlit("json");
            reveal_strlit("help");
            assert(args[i] == json_arg());
            assert("json"@[0] != "help"@[0]);
            assert("json"@[0] != '-');
        }
    }
}

proof fn lemma_shorts_ok(c: CommandView)
    requires
        parameter_shorts_ok(c),
        params_arg_error(c.parameters) is None,
        c.parameters.len() < usize::MAX,
    ensures
        crate::clap_bridge::shorts_ok(command_args(c)),
{
    reveal(crate::clap_bridge::shorts_ok);
    reveal(parameter_shorts_ok);
    lemma_args_len(c);
    let args = command_args(c);
    let ps = c.parameters;
    let n = ps.len() as int;
    assert forall|i: int, j: int|
        0 <= i < j < args.len() && (#[trigger] args[i]).short is Some implies args[i].short != (
        #[trigger] args[j]).short by {
        lemma_arg_at(c, i);
        if j < n {
            lemma_arg_at(c, j);
            if named(ps[j]) {
                assert(named(ps[i]) && named(ps[j]));
            }
        }
    }
    assert forall|i: int| 0 <= i < args.len() implies (#[trigger] args[i]).short != Some('h')
        && args[i].short != Some('-') by {
        if i < n {
            lemma_arg_at(c, i);
            if named(ps[i]) {
                assert(named(ps[i]));
            }
        }
    }
}

proof fn lemma_indexes_ok(c: CommandView)
    requires
        params_arg_error(c.parameters) is None,
        c.parameters.len() < usize::MAX,
    ensures
        crate::clap_bridge::indexes_ok(command_args(c)),
{
    reveal(crate::clap_bridge::indexes_ok);
    lemma_args_len(c);
    let args = command_args(c);
    let n = c.parameters.len() as int;
    assert forall|i: int|
        0 <= i < args.len() && (#[trigger] args[i]).index is Some implies args[i].index->0 == 1
        + crate::clap_bridge::positionals_before(args, i) by {
        if i < n {
            lemma_arg_at(c, i);
        }
    }
}

proof fn lemma_required_order_ok(c: CommandView)
    requires
        positional_order_ok(c),
        params_arg_error(c.parameters) is None,
        c.parameters.len() < usize::MAX,
    ensures
        crate::clap_bridge::required_order_ok(command_args(c)),
{
    reveal(crate::clap_bridge::required_order_ok);
    reveal(positional_order_ok);
    lemma_args_len(c);
    let args = command_args(c);
    let ps = c.parameters;
    let n = ps.len() as int;
    assert forall|i: int, j: int|
        0 <= i < j < args.len() && (#[trigger] args[i]).index is Some && (
        #[trigger] args[j]).index is Some && args[j].required implies args[i].required by {
        lemma_arg_at(c, i);
        if j < n {
            lemma_arg_at(c, j);
            assert(!named(ps[i]) && !named(ps[j]));
        }
    }
}

proof fn lemma_repeated_ok(c: CommandView)
    requires
        positional_repeat_ok(c),
        params_arg_error(c.parameters) is None,
        c.parameters.len() < usize::MAX,
    ensures
        crate::clap_bridge::repeated_ok(command_args(c)),
{
    reveal(crate::clap_bridge::repeated_ok);
    reveal(positional_repeat_ok);
    lemma_args_len(c);
    let args = command_args(c);
    let ps = c.parameters;
    let n = ps.len() as int;
    assert forall|i: int| 0 <= i < args.len() && (#[trigger] args[i]).at_least_one implies args[i].index is Some
        && crate::clap_bridge::repeated_positional_ok(args, i) by {
        if i < n {
            lemma_arg_at(c, i);
            assert(!named(ps[i]) && ps[i].multiple);
            if forall|j: int| i < j < n ==> named(#[trigger] ps[j]) {
                assert forall|j: int| i < j < args.len() implies (#[trigger] args[j]).index
                    is None by {
                    if j < n {
                        lemma_arg_at(c, j);
                        assert(named(ps[j]));
                    }
                }
            } else {
                let j = choose|j: int|
                    i < j < n && !named(#[trigger] ps[j]) && ps[j].required && !ps[j].multiple
                        && forall|k: int| i < k < n && k != j ==> named(#[trigger] ps[k]);
                lemma_arg_at(c, j);
                assert(args[j].index is Some && args[j].required && !args[j].at_least_one);
                assert forall|k: int| i < k < args.len() && k != j implies (
                #[trigger] args[k]).index is None by {
                    if k < n {
                        lemma_arg_at(c, k);
                        assert(named(ps[k]));
                    }
                }
            }
        }
    }
}

proof fn lemma_shapes_ok(c: CommandView)
    requires
        params_arg_error(c.parameters) is None,
        c.parameters.len() < usize::MAX,
    ensures
        crate::clap_bridge::shapes_ok(command_args(c)),
{
    reveal(crate::clap_bridge::shapes_ok);
    lemma_args_len(c);
    let args = command_args(c);
    assert forall|i: int| 0 <= i < args.len() implies {
        &&& (#[trigger] args[i]).index is Some ==> args[i].long is None && args[i].short is None
            && args[i].action != Some(CliAction::SetTrue) && (args[i].action == Some(
            CliAction::Append) <==> args[i].at_least_one)
        &&& args[i].index is None ==> args[i].long is Some || args[i].short is Some
        &&& args[i].at_least_one ==> args[i].action == Some(CliAction::Append)
    } by {
        if i < c.parameters.len() {
            lemma_arg_at(c, i);
        }
    }
}

/// The arguments of a command whose parameters clap accepts are `level_safe`.
proof fn lemma_command_args_safe(c: CommandView)
    requires
        definition_clap_safe(c),
        params_arg_error(c.parameters) is None,
        c.parameters.len() < usize::MAX,
    ensures
        crate::clap_bridge::level_safe(command_args(c)),
{
    lemma_ids_ok(c);
    lemma_longs_ok(c);
    lemma_shorts_ok(c);
    lemma_shapes_ok(c);
    lemma_indexes_ok(c);
    lemma_required_order_ok(c);
    lemma_repeated_ok(c);
}

/// A command without arguments is `level_safe`.
proof fn lemma_no_args_safe()
    ensures
        crate::clap_bridge::level_safe(Seq::empty()),
{
    reveal(crate::clap_bridge::ids_ok);
    reveal(crate::clap_bridge::longs_ok);
    reveal(crate::clap_bridge::shorts_ok);
    reveal(crate::clap_bridge::shapes_ok);
    reveal(crate::clap_bridge::indexes_ok);
    reveal(crate::clap_bridge::required_order_ok);
    reveal(crate::clap_bridge::repeated_ok);
}

proof fn lemma_children_no_error(children: Seq<CommandChild>, cs: Seq<CommandView>, i: int)
    requires
        children_arg_error(children, cs) is None,
        0 <= i < children.len(),
    ensures
        node_arg_error(children[i].node, cs) is None,
    decreases children.len(),
{
    if i < children.len() - 1 {
        lemma_children_no_error(children.drop_last(), cs, i);
        assert(children.drop_last()[i] == children[i]);
    }
}

/// Children in increasing order of name have distinct names.
proof fn lemma_sorted_names_distinct(c: CliCommand, n: CommandNode)
    requires
        c.subcommands@.len() == n.children@.len(),
        forall|i: int| 0 <= i < n.children@.len() ==> (#[trigger] c.subcommands@[i]).name@ == n.children@[i].name@,
        forall|i: int, j: int|
            0 <= i < j < n.children@.len() ==> crate::text::text_lt(
                #[trigger] n.children@[i].name@,
                #[trigger] n.children@[j].name@,
            ),
    ensures
        crate::clap_bridge::names_distinct(c.subcommands@),
{
    assert forall|i: int, j: int| 0 <= i < j < c.subcommands@.len() implies (#[trigger] c.subcommands@[i]).name@ != (
    #[trigger] c.subcommands@[j]).name@ by {
        assert(crate::text::text_lt(n.children@[i].name@, n.children@[j].name@));
        crate::text::lemma_text_order(n.children@[i].name@, n.children@[j].name@, n.children@[j].name@);
    }
}

/// The command-line command built for tree node `n` keeps to what clap
/// asserts when it builds it, where the command at `n`, if any, is one clap
/// accepts.
proof fn lemma_cli_command_safe(c: CliCommand, name: Seq<char>, n: CommandNode, cs: Seq<CommandView>, prefix: Seq<Seq<char>>)
    requires
        is_cli_command(c, name, n, cs),
        is_tree_node(n, cs, prefix),
        node_arg_error(n, cs) is None,
        n.definition matches Some(k) ==> definition_clap_safe(cs[k as int]),
        forall|k: int| 0 <= k < cs.len() ==> (#[trigger] cs[k]).parameters.len() < usize::MAX,
    ensures
        crate::clap_bridge::command_safe(c),
{
    match n.definition {
        Some(k) => {
            lemma_command_args_safe(cs[k as int]);
        },
        None => {
            lemma_no_args_safe();
            assert(args_view(c.args@) =~= Seq::<CliArgView>::empty());
        },
    }
    assert forall|i: int| 0 <= i < n.children@.len() implies (#[trigger] c.subcommands@[i]).name@
        == n.children@[i].name@ by {
        assert(is_cli_command(c.subcommands@[i], n.children@[i].name@, n.children@[i].node, cs));
    }
    lemma_sorted_names_distinct(c, n);
}

/// Whether clap builds the command for `c`, and so checks it, while it
/// matches `args`: `args` start with its path, or follow the path of the
/// group right above it with a long option other than `--help` (clap then
/// builds the commands of that group, to suggest a similar option name).
pub open spec fn built_while_matching(c: CommandView, args: Seq<Seq<char>>) -> bool {
    let n = c.path.len();
    &&& n > 0
    &&& args.len() >= n
    &&& args.subrange(0, n - 1) == c.path.subrange(0, n - 1)
    &&& (args[n - 1] == c.path[n - 1] || crate::clap_bridge::unknown_long_option(args[n - 1]))
}

/// No option or flag of `cs` has a short name starting with `-`, on which
/// clap asserts when it builds the argument, whatever is matched.
pub open spec fn dash_shorts_absent(cs: Seq<CommandView>) -> bool {
    forall|k: int, i: int|
        0 <= k < cs.len() && 0 <= i < cs[k].parameters.len() && named(
            #[trigger] cs[k].parameters[i],
        ) ==> short_first(cs[k].parameters[i]) != Some('-')
}

/// Clap accepts what it builds of catalog `cs` while it matches `args`:
/// every argument, and every command it builds on the way.
pub open spec fn clap_safe_for(cs: Seq<CommandView>, args: Seq<Seq<char>>) -> bool {
    &&& dash_shorts_absent(cs)
    &&& forall|k: int|
        0 <= k < cs.len() && built_while_matching(#[trigger] cs[k], args) ==> definition_clap_safe(
            cs[k],
        )
}

/// A catalog that clap accepts as a whole is one it accepts whatever is matched.
pub proof fn lemma_clap_safe_for_all(cs: Seq<CommandView>, args: Seq<Seq<char>>)
    requires
        clap_safe(cs),
    ensures
        clap_safe_for(cs, args),
{
    assert forall|k: int, i: int|
        0 <= k < cs.len() && 0 <= i < cs[k].parameters.len() && named(
            #[trigger] cs[k].parameters[i],
        ) implies short_first(cs[k].parameters[i]) != Some('-') by {
        assert(definition_clap_safe(cs[k]));
        reveal(parameter_shorts_ok);
    }
}

/// The arguments of the command for `c` can all be built, where no short
/// name of its options and flags starts with `-`.
proof fn lemma_command_args_buildable(c: CommandView)
    requires
        forall|i: int| 0 <= i < c.parameters.len() && named(#[trigger] c.parameters[i]) ==> short_first(c.parameters[i]) != Some('-'),
        params_arg_error(c.parameters) is None,
        c.parameters.len() < usize::MAX,
    ensures
        crate::clap_bridge::shorts_buildable(command_args(c)),
{
    lemma_args_len(c);
    let args = command_args(c);
    assert forall|i: int| 0 <= i < args.len() implies (#[trigger] args[i]).short != Some('-') by {
        if i < c.parameters.len() {
            lemma_arg_at(c, i);
        }
    }
}

/// Every argument of the command-line command built for tree node `n` of a
/// catalog without short names starting with `-` can be built.
proof fn lemma_cli_tree_buildable(c: CliCommand, name: Seq<char>, n: CommandNode, cs: Seq<CommandView>, prefix: Seq<Seq<char>>)
    requires
        is_cli_command(c, name, n, cs),
        is_tree_node(n, cs, prefix),
        dash_shorts_absent(cs),
        node_arg_error(n, cs) is None,
        forall|k: int| 0 <= k < cs.len() ==> (#[trigger] cs[k]).parameters.len() < usize::MAX,
    ensures
        crate::clap_bridge::tree_buildable(c),
    decreases n,
{
    match n.definition {
        Some(k) => {
            let d = cs[k as int];
            assert forall|i: int| 0 <= i < d.parameters.len() && named(#[trigger] d.parameters[i]) implies short_first(
                d.parameters[i],
            ) != Some('-') by {
                assert(named(cs[k as int].parameters[i]));
            }
            lemma_command_args_buildable(d);
        },
        None => {
            assert(args_view(c.args@) =~= Seq::<CliArgView>::empty());
        },
    }
    assert forall|i: int| 0 <= i < c.subcommands@.len() implies crate::clap_bridge::tree_buildable(
        #[trigger] c.subcommands@[i],
    ) by {
        lemma_children_no_error(n.children@, cs, i);
        lemma_cli_tree_buildable(
            c.subcommands@[i],
            n.children@[i].name@,
            n.children@[i].node,
            cs,
            prefix.push(n.children@[i].name@),
        );
    }
}

/// The commands that clap builds below the command-line command for tree
/// node `n` at path `prefix`, while it matches the rest of `args`, which
/// start with `prefix`, are safe where clap accepts what it builds of the
/// catalog while it matches `args`.
proof fn lemma_cli_safe_along(
    c: CliCommand,
    name: Seq<char>,
    n: CommandNode,
    cs: Seq<CommandView>,
    prefix: Seq<Seq<char>>,
    args: Seq<Seq<char>>,
)
    requires
        is_cli_command(c, name, n, cs),
        is_tree_node(n, cs, prefix),
        prefix.len() > 0,
        args.len() >= prefix.len(),
        args.subrange(0, prefix.len() as int) == prefix,
        clap_safe_for(cs, args),
        node_arg_error(n, cs) is None,
        forall|k: int| 0 <= k < cs.len() ==> (#[trigger] cs[k]).parameters.len() < usize::MAX,
    ensures
        crate::clap_bridge::command_safe(c),
        crate::clap_bridge::subcommands_safe_along(
            c.subcommands@,
            args.subrange(prefix.len() as int, args.len() as int),
        ),
    decreases n,
{
    let d = prefix.len() as int;
    let rest = args.subrange(d, args.len() as int);
    if let Some(k) = n.definition {
        let p = cs[k as int].path;
        assert(p == prefix);
        assert(args.subrange(0, d - 1) =~= args.subrange(0, d).subrange(0, d - 1));
        assert(args[d - 1] == args.subrange(0, d)[d - 1]);
        assert(built_while_matching(cs[k as int], args));
    }
    lemma_cli_command_safe(c, name, n, cs, prefix);
    assert forall|i: int|
        0 <= i < c.subcommands@.len() && rest.len() > 0 && (#[trigger] c.subcommands@[i]).name@
            == rest[0] implies crate::clap_bridge::command_safe(c.subcommands@[i])
        && crate::clap_bridge::subcommands_safe_along(c.subcommands@[i].subcommands@, rest.drop_first()) by {
        let ci = n.children@[i];
        assert(is_cli_command(c.subcommands@[i], ci.name@, ci.node, cs));
        lemma_children_no_error(n.children@, cs, i);
        let q = prefix.push(ci.name@);
        assert(args.subrange(0, d + 1) =~= q);
        assert(rest.drop_first() =~= args.subrange(d + 1, args.len() as int));
        lemma_cli_safe_along(c.subcommands@[i], ci.name@, ci.node, cs, q, args);
    }
    if rest.len() > 0 && crate::clap_bridge::unknown_long_option(rest[0]) {
        assert forall|i: int| 0 <= i < c.subcommands@.len() implies crate::clap_bridge::command_safe(
            #[trigger] c.subcommands@[i],
        ) by {
            let ci = n.children@[i];
            assert(is_cli_command(c.subcommands@[i], ci.name@, ci.node, cs));
            lemma_children_no_error(n.children@, cs, i);
            let q = prefix.push(ci.name@);
            assert(is_tree_node(ci.node, cs, q));
            if let Some(k) = ci.node.definition {
                assert(cs[k as int].path == q);
                assert(q.subrange(0, d) =~= prefix);
                assert(args.subrange(0, d) == prefix);
                assert(args[d] == rest[0]);
                assert(built_while_matching(cs[k as int], args));
            }
            lemma_cli_command_safe(c.subcommands@[i], ci.name@, ci.node, cs, q);
        }
    }
}

/// The root command-line command built for the tree of a catalog: every
/// argument of it can be built where no short name starts with `-`, and the
/// commands clap builds while it matches the binary name followed by `args`
/// are safe where clap accepts what it builds of the catalog then.
pub(crate) proof fn lemma_cli_root_safe(root: CliRoot, t: CommandNode, cs: Seq<CommandView>, binary: Seq<char>, args: Seq<Seq<char>>)
    requires
        !root.help_subcommand,
        root.subcommands@.len() == t.children@.len(),
        forall|i: int|
            0 <= i < t.children@.len() ==> is_cli_command(
                #[trigger] root.subcommands@[i],
                t.children@[i].name@,
                t.children@[i].node,
                cs,
            ),
        is_tree_node(t, cs, Seq::empty()),
        children_arg_error(t.children@, cs) is None,
        forall|k: int| 0 <= k < cs.len() ==> (#[trigger] cs[k]).parameters.len() < usize::MAX,
    ensures
        dash_shorts_absent(cs) ==> crate::clap_bridge::root_buildable(root),
        clap_safe_for(cs, args) ==> crate::clap_bridge::root_safe_along(root, seq![binary] + args),
{
    assert forall|i: int, j: int| 0 <= i < j < root.subcommands@.len() implies (
    #[trigger] root.subcommands@[i]).name@ != (#[trigger] root.subcommands@[j]).name@ by {
        assert(is_cli_command(root.subcommands@[i], t.children@[i].name@, t.children@[i].node, cs));
        assert(is_cli_command(root.subcommands@[j], t.children@[j].name@, t.children@[j].node, cs));
        assert(crate::text::text_lt(t.children@[i].name@, t.children@[j].name@));
        crate::text::lemma_text_order(t.children@[i].name@, t.children@[j].name@, t.children@[j].name@);
    }
    if dash_shorts_absent(cs) {
        assert forall|i: int| 0 <= i < root.subcommands@.len() implies crate::clap_bridge::tree_buildable(
            #[trigger] root.subcommands@[i],
        ) by {
            lemma_children_no_error(t.children@, cs, i);
            lemma_cli_tree_buildable(
                root.subcommands@[i],
                t.children@[i].name@,
                t.children@[i].node,
                cs,
                Seq::<Seq<char>>::empty().push(t.children@[i].name@),
            );
        }
    }
    if clap_safe_for(cs, args) {
        let argv = seq![binary] + args;
        assert(crate::clap_bridge::matched_words(argv) =~= args);
        let subs = root.subcommands@;
        assert forall|i: int|
            0 <= i < subs.len() && args.len() > 0 && (#[trigger] subs[i]).name@ == args[0] implies crate::clap_bridge::command_safe(
            subs[i],
        ) && crate::clap_bridge::subcommands_safe_along(subs[i].subcommands@, args.drop_first()) by {
            let ci = t.children@[i];
            assert(is_cli_command(subs[i], ci.name@, ci.node, cs));
            lemma_children_no_error(t.children@, cs, i);
            let q = Seq::<Seq<char>>::empty().push(ci.name@);
            assert(args.subrange(0, 1) =~= q);
            assert(args.drop_first() =~= args.subrange(1, args.len() as int));
            lemma_cli_safe_along(subs[i], ci.name@, ci.node, cs, q, args);
        }
        if args.len() > 0 && crate::clap_bridge::unknown_long_option(args[0]) {
            assert forall|i: int| 0 <= i < subs.len() implies crate::clap_bridge::command_safe(
                #[trigger] subs[i],
            ) by {
                let ci = t.children@[i];
                assert(is_cli_command(subs[i], ci.name@, ci.node, cs));
                lemma_children_no_error(t.children@, cs, i);
                let q = Seq::<Seq<char>>::empty().push(ci.name@);
                assert(is_tree_node(ci.node, cs, q));
                if let Some(k) = ci.node.definition {
                    assert(cs[k as int].path == q);
                    assert(args.subrange(0, 0) =~= q.subrange(0, 0));
                    assert(built_while_matching(cs[k as int], args));
                }
                lemma_cli_command_safe(subs[i], ci.name@, ci.node, cs, q);
            }
        }
    }
}

/// Some command of `cs` has a parameter that cannot become an argument.
pub open spec fn has_arg_error(cs: Seq<CommandView>) -> bool {
    exists|k: int| 0 <= k < cs.len() && params_arg_error(#[trigger] cs[k].parameters) is Some
}

proof fn lemma_children_error_some(children: Seq<CommandChild>, cs: Seq<CommandView>, i: int)
    requires
        0 <= i < children.len(),
        node_arg_error(children[i].node, cs) is Some,
    ensures
        children_arg_error(children, cs) is Some,
    decreases children.len(),
{
    if i < children.len() - 1 {
        assert(children.drop_last()[i] == children[i]);
        lemma_children_error_some(children.drop_last(), cs, i);
    }
}

/// A command under `n` whose parameters cannot all become arguments makes
/// `node_arg_error` report a problem.
pub(crate) proof fn lemma_arg_error_reached(n: CommandNode, cs: Seq<CommandView>, prefix: Seq<Seq<char>>, k: int)
    requires
        is_tree_node(n, cs, prefix),
        distinct_paths(cs),
        0 <= k < cs.len(),
        extends(cs[k].path, prefix),
        params_arg_error(cs[k].parameters) is Some,
    ensures
        node_arg_error(n, cs) is Some,
    decreases n,
{
    if cs[k].path.len() == prefix.len() {
        assert(cs[k].path.subrange(0, prefix.len() as int) =~= cs[k].path);
        assert(n.definition is Some);
        let d = n.definition->0 as int;
        if d != k {
            if d < k {
                assert(cs[d].path != cs[k].path);
            } else {
                assert(cs[k].path != cs[d].path);
            }
        }
    } else {
        let i = lemma_child_named(n, cs, prefix, k);
        lemma_arg_error_reached(n.children@[i].node, cs, prefix.push(n.children@[i].name@), k);
        lemma_children_error_some(n.children@, cs, i);
    }
}

/// `k` is the command, least in path order, among the commands of `cs`
/// whose parameters cannot all become arguments.
pub open spec fn least_arg_error(cs: Seq<CommandView>, k: int) -> bool {
    &&& 0 <= k < cs.len()
    &&& params_arg_error(cs[k].parameters) is Some
    &&& forall|j: int|
        0 <= j < cs.len() && params_arg_error(#[trigger] cs[j].parameters) is Some
            ==> !crate::text::segments_lt(cs[j].path, cs[k].path)
}

/// What `children_arg_error` reports comes from the first child that reports one.
proof fn lemma_arg_error_in_child(children: Seq<CommandChild>, cs: Seq<CommandView>) -> (i: int)
    requires
        children_arg_error(children, cs) is Some,
    ensures
        0 <= i < children.len(),
        node_arg_error(children[i].node, cs) == children_arg_error(children, cs),
        forall|j: int| 0 <= j < i ==> node_arg_error(#[trigger] children[j].node, cs) is None,
    decreases children.len(),
{
    let prev = children.drop_last();
    if children_arg_error(prev, cs) is Some {
        let i = lemma_arg_error_in_child(prev, cs);
        assert forall|j: int| 0 <= j < i implies node_arg_error(#[trigger] children[j].node, cs) is None by {
            assert(prev[j] == children[j]);
        }
        assert(prev[i] == children[i]);
        i
    } else {
        assert forall|j: int| 0 <= j < children.len() - 1 implies node_arg_error(
            #[trigger] children[j].node,
            cs,
        ) is None by {
            assert(prev[j] == children[j]);
            if node_arg_error(children[j].node, cs) is Some {
                lemma_children_error_some(prev, cs, j);
            }
        }
        children.len() - 1
    }
}

/// The problem that `node_arg_error` reports is that of the command, least
/// in path order, among the commands below `n` that have one.
pub(crate) proof fn lemma_arg_error_least(n: CommandNode, cs: Seq<CommandView>, prefix: Seq<Seq<char>>) -> (k: int)
    requires
        is_tree_node(n, cs, prefix),
        distinct_paths(cs),
        node_arg_error(n, cs) is Some,
    ensures
        0 <= k < cs.len(),
        params_arg_error(cs[k].parameters) == node_arg_error(n, cs),
        extends(cs[k].path, prefix),
        forall|j: int|
            0 <= j < cs.len() && params_arg_error(#[trigger] cs[j].parameters) is Some && extends(
                cs[j].path,
                prefix,
            ) ==> !crate::text::segments_lt(cs[j].path, cs[k].path),
    decreases n,
{
    let own = match n.definition {
        Some(d) => if 0 <= d < cs.len() {
            params_arg_error(cs[d as int].parameters)
        } else {
            None
        },
        None => None,
    };
    if own is Some {
        let k = n.definition->0 as int;
        assert(cs[k].path.subrange(0, prefix.len() as int) =~= prefix);
        assert forall|j: int|
            0 <= j < cs.len() && params_arg_error(#[trigger] cs[j].parameters) is Some && extends(
                cs[j].path,
                prefix,
            ) implies !crate::text::segments_lt(cs[j].path, cs[k].path) by {
            lemma_extension_not_before(cs[j].path, prefix, 0);
        }
        k
    } else {
        let i = lemma_arg_error_in_child(n.children@, cs);
        let ci = n.children@[i];
        let k = lemma_arg_error_least(ci.node, cs, prefix.push(ci.name@));
        assert(cs[k].path.subrange(0, prefix.len() as int) =~= cs[k].path.subrange(
            0,
            prefix.len() + 1int,
        ).subrange(0, prefix.len() as int));
        assert(prefix.push(ci.name@).subrange(0, prefix.len() as int) =~= prefix);
        assert forall|j: int|
            0 <= j < cs.len() && params_arg_error(#[trigger] cs[j].parameters) is Some && extends(
                cs[j].path,
                prefix,
            ) implies !crate::text::segments_lt(cs[j].path, cs[k].path) by {
            if cs[j].path.len() == prefix.len() {
                assert(cs[j].path.subrange(0, prefix.len() as int) =~= cs[j].path);
                let d = n.definition->0 as int;
                if d != j {
                    if d < j {
                        assert(cs[d].path != cs[j].path);
                    } else {
                        assert(cs[j].path != cs[d].path);
                    }
                }
                assert(false);
            }
            let l = lemma_child_named(n, cs, prefix, j);
            let cl = n.children@[l];
            if l < i {
                lemma_arg_error_reached(cl.node, cs, prefix.push(cl.name@), j);
            } else if l == i {
            } else {
                assert(crate::text::text_lt(ci.name@, cl.name@));
                lemma_diverging_paths(cs[k].path, cs[j].path, prefix, ci.name@, cl.name@, 0);
                crate::text::lemma_segments_order(cs[k].path, cs[j].path, cs[k].path);
            }
        }
        k
    }
}

/// Two sequences of names in strictly increasing order with the same names
/// are equal.
proof fn lemma_sorted_names_unique(a: Seq<Seq<char>>, b: Seq<Seq<char>>)
    requires
        forall|i: int, j: int| 0 <= i < j < a.len() ==> crate::text::text_lt(#[trigger] a[i], #[trigger] a[j]),
        forall|i: int, j: int| 0 <= i < j < b.len() ==> crate::text::text_lt(#[trigger] b[i], #[trigger] b[j]),
        forall|x: Seq<char>| a.contains(x) <==> b.contains(x),
    ensures
        a == b,
    decreases a.len(),
{
    if a.len() == 0 {
        if b.len() > 0 {
            assert(b.contains(b[0]));
        }
        assert(b.len() == 0);
    } else {
        assert(a.contains(a[0]));
        assert(b.contains(b[0]));
        let i = choose|i: int| 0 <= i < b.len() && b[i] == a[0];
        let j = choose|j: int| 0 <= j < a.len() && a[j] == b[0];
        crate::text::lemma_text_order(a[0], b[0], a[0]);
        crate::text::lemma_text_order(a[0], a[0], a[0]);
        crate::text::lemma_text_order(b[0], b[0], b[0]);
        if i > 0 && j > 0 {
            assert(crate::text::text_lt(b[0], b[i]));
            assert(crate::text::text_lt(a[0], a[j]));
        } else if i > 0 {
            assert(crate::text::text_lt(b[0], b[i]));
        } else if j > 0 {
            assert(crate::text::text_lt(a[0], a[j]));
        }
        assert(a[0] == b[0]);
        let a1 = a.drop_first();
        let b1 = b.drop_first();
        assert forall|x: Seq<char>| a1.contains(x) <==> b1.contains(x) by {
            if a1.contains(x) {
                let k = choose|k: int| 0 <= k < a1.len() && a1[k] == x;
                assert(a[k + 1] == x);
                assert(crate::text::text_lt(a[0], a[k + 1]));
                assert(b.contains(x));
                let m = choose|m: int| 0 <= m < b.len() && b[m] == x;
                assert(m != 0);
                assert(b1[m - 1] == x);
            }
            if b1.contains(x) {
                let k = choose|k: int| 0 <= k < b1.len() && b1[k] == x;
                assert(b[k + 1] == x);
                assert(crate::text::text_lt(b[0], b[k + 1]));
                assert(a.contains(x));
                let m = choose|m: int| 0 <= m < a.len() && a[m] == x;
                assert(m != 0);
                assert(a1[m - 1] == x);
            }
        }
        assert forall|p: int, q: int| 0 <= p < q < a1.len() implies crate::text::text_lt(#[trigger] a1[p], #[trigger] a1[q]) by {
            assert(a1[p] == a[p + 1] && a1[q] == a[q + 1]);
        }
        assert forall|p: int, q: int| 0 <= p < q < b1.len() implies crate::text::text_lt(#[trigger] b1[p], #[trigger] b1[q]) by {
            assert(b1[p] == b[p + 1] && b1[q] == b[q + 1]);
        }
        lemma_sorted_names_unique(a1, b1);
        assert(a =~= seq![a[0]] + a1);
        assert(b =~= seq![b[0]] + b1);
    }
}

/// The names of the children of `n`, in order.
pub open spec fn child_names(n: CommandNode) -> Seq<Seq<char>> {
    Seq::new(n.children@.len(), |i: int| n.children@[i].name@)
}

/// Two tree nodes of `cs` at one path have the same children names.
pub(crate) proof fn lemma_same_children(n1: CommandNode, n2: CommandNode, cs: Seq<CommandView>, prefix: Seq<Seq<char>>)
    requires
        is_tree_node(n1, cs, prefix),
        is_tree_node(n2, cs, prefix),
    ensures
        child_names(n1) == child_names(n2),
{
    let a = child_names(n1);
    let b = child_names(n2);
    assert forall|x: Seq<char>| a.contains(x) <==> b.contains(x) by {
        if a.contains(x) {
            let i = choose|i: int| 0 <= i < a.len() && a[i] == x;
            assert(n1.children@[i].name@ == x);
            assert(next_segments(cs, prefix).contains(x));
            let j = choose|j: int| 0 <= j < n2.children@.len() && #[trigger] n2.children@[j].name@ == x;
            assert(b[j] == x);
        }
        if b.contains(x) {
            let i = choose|i: int| 0 <= i < b.len() && b[i] == x;
            assert(n2.children@[i].name@ == x);
            assert(next_segments(cs, prefix).contains(x));
            let j = choose|j: int| 0 <= j < n1.children@.len() && #[trigger] n1.children@[j].name@ == x;
            assert(a[j] == x);
        }
    }
    assert forall|i: int, j: int| 0 <= i < j < a.len() implies crate::text::text_lt(#[trigger] a[i], #[trigger] a[j]) by {
        assert(crate::text::text_lt(n1.children@[i].name@, n1.children@[j].name@));
    }
    assert forall|i: int, j: int| 0 <= i < j < b.len() implies crate::text::text_lt(#[trigger] b[i], #[trigger] b[j]) by {
        assert(crate::text::text_lt(n2.children@[i].name@, n2.children@[j].name@));
    }
    lemma_sorted_names_unique(a, b);
}

/// The command-line commands built for two tree nodes of `cs` at one path,
/// under one name, have the same model.
pub(crate) proof fn lemma_cli_command_unique(
    c1: CliCommand,
    c2: CliCommand,
    name: Seq<char>,
    n1: CommandNode,
    n2: CommandNode,
    cs: Seq<CommandView>,
    prefix: Seq<Seq<char>>,
)
    requires
        is_cli_command(c1, name, n1, cs),
        is_cli_command(c2, name, n2, cs),
        is_tree_node(n1, cs, prefix),
        is_tree_node(n2, cs, prefix),
        distinct_paths(cs),
    ensures
        cli_view(c1) == cli_view(c2),
    decreases n1,
{
    match n1.definition {
        Some(k1) => {
            assert(cs[k1 as int].path == prefix);
            assert(n2.definition is Some);
            let k2 = n2.definition->0;
            if k1 != k2 {
                if k1 < k2 {
                    assert(cs[k1 as int].path != cs[k2 as int].path);
                } else {
                    assert(cs[k2 as int].path != cs[k1 as int].path);
                }
            }
        },
        None => {
            if n2.definition is Some {
                let k2 = n2.definition->0;
                assert(cs[k2 as int].path == prefix);
            }
            assert(args_view(c1.args@) =~= args_view(c2.args@));
        },
    }
    lemma_same_children(n1, n2, cs, prefix);
    assert(n1.children@.len() == child_names(n1).len());
    let v1 = cli_view(c1);
    let v2 = cli_view(c2);
    assert forall|i: int| 0 <= i < v1.subcommands.len() implies v1.subcommands[i] == v2.subcommands[i] by {
        assert(child_names(n1)[i] == child_names(n2)[i]);
        let m = n1.children@[i].name@;
        assert(n2.children@[i].name@ == m);
        assert(is_cli_command(c1.subcommands@[i], m, n1.children@[i].node, cs));
        assert(is_cli_command(c2.subcommands@[i], m, n2.children@[i].node, cs));
        assert(is_tree_node(n1.children@[i].node, cs, prefix.push(m)));
        assert(is_tree_node(n2.children@[i].node, cs, prefix.push(m)));
        lemma_cli_command_unique(
            c1.subcommands@[i],
            c2.subcommands@[i],
            m,
            n1.children@[i].node,
            n2.children@[i].node,
            cs,
            prefix.push(m),
        );
    }
    assert(v1.subcommands =~= v2.subcommands);
}

} // verus!
