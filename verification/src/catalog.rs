//! Semantic validation of the command catalog that one provider advertises:
//! the constraints that are stricter than the wire schema.

use vstd::prelude::*;
use vstd::string::StrSliceExecFns;

use crate::contract::{
    catalog_view, CommandDefinition, CommandParameter, CommandView, OptionalValue, OutputFormat,
    ParameterKind, ParameterView, optional_view,
};
use crate::text::{
    concat3, concat5, contains_text, is_alphanumeric, is_digit, is_lower, join_path, joined_path,
    lemma_text_order, strs_view, text_equal, text_less, text_lt,
};

verus! {

/// Maximum number of commands one provider may advertise.
pub const MAX_COMMANDS_PER_PROVIDER: usize = 256;

// ---------------------------------------------------------------------------
// Rules
// ---------------------------------------------------------------------------

/// A lowercase identifier: it starts with `a`-`z`, holds at most `max`
/// characters, and the rest are `a`-`z`, `0`-`9` or one of `punctuation`.
pub open spec fn identifier_ok(s: Seq<char>, max: int, punctuation: Seq<char>) -> bool {
    &&& s.len() >= 1
    &&& is_lower(s[0])
    &&& s.len() <= max
    &&& forall|i: int|
        1 <= i < s.len() ==> is_lower(#[trigger] s[i]) || is_digit(s[i]) || punctuation.contains(
            s[i],
        )
}

/// The value of an optional wire string that is present and not null.
pub open spec fn present(v: Option<Option<Seq<char>>>) -> Option<Seq<char>> {
    match v {
        Some(Some(s)) => Some(s),
        _ => None,
    }
}

/// One command path segment joined to another by a space: `left` extends
/// `right` by a further segment, or the other way round.
pub open spec fn prefix_conflict(left: Seq<char>, right: Seq<char>) -> bool {
    ||| (left.len() > right.len() && left.subrange(0, right.len() as int) == right
        && left[right.len() as int] == ' ')
    ||| (right.len() > left.len() && right.subrange(0, left.len() as int) == left
        && right[left.len() as int] == ' ')
}

/// How many times `f` occurs in `formats`.
pub open spec fn format_count(formats: Seq<OutputFormat>, f: OutputFormat) -> nat
    decreases formats.len(),
{
    if formats.len() == 0 {
        0
    } else {
        format_count(formats.drop_last(), f) + if formats.last() == f {
            1nat
        } else {
            0nat
        }
    }
}

pub open spec fn path_ok(path: Seq<Seq<char>>) -> bool {
    &&& 1 <= path.len() <= 8
    &&& forall|i: int| 0 <= i < path.len() ==> identifier_ok(#[trigger] path[i], 64, seq!['-'])
}

pub open spec fn metadata_ok(c: CommandView) -> bool {
    &&& 1 <= c.summary.len() <= 256
    &&& c.description.len() <= 4096
}

// ---------------------------------------------------------------------------
// Messages
// ---------------------------------------------------------------------------

pub open spec fn msg_catalog_limit() -> Seq<char> {
    "catalog exceeds the 256-command provider limit"@
}

pub open spec fn msg_duplicate_id(id: Seq<char>) -> Seq<char> {
    "duplicate command id `"@ + id + "`"@
}

pub open spec fn msg_path_conflict(path: Seq<char>, existing: Seq<char>) -> Seq<char> {
    "command path `"@ + path + "` conflicts with command group `"@ + existing + "`"@
}

pub open spec fn msg_duplicate_path(path: Seq<char>) -> Seq<char> {
    "duplicate command path `"@ + path + "`"@
}

pub open spec fn msg_invalid_id(id: Seq<char>) -> Seq<char> {
    "invalid command id `"@ + id + "`"@
}

pub open spec fn msg_invalid_path(path: Seq<char>) -> Seq<char> {
    "invalid command path `"@ + path + "`"@
}

pub open spec fn msg_invalid_metadata(id: Seq<char>) -> Seq<char> {
    "invalid metadata for command `"@ + id + "`"@
}

pub open spec fn msg_invalid_formats(id: Seq<char>) -> Seq<char> {
    "command `"@ + id + "` has invalid output formats"@
}

pub open spec fn msg_repeated_format(id: Seq<char>) -> Seq<char> {
    "command `"@ + id + "` repeats an output format"@
}

pub open spec fn msg_too_many_parameters(id: Seq<char>) -> Seq<char> {
    "command `"@ + id + "` has too many parameters"@
}

pub open spec fn msg_invalid_parameter(cmd: Seq<char>, param: Seq<char>) -> Seq<char> {
    "command `"@ + cmd + "` has invalid or duplicate parameter `"@ + param + "`"@
}

pub open spec fn msg_parameter_metadata(cmd: Seq<char>, param: Seq<char>) -> Seq<char> {
    "command `"@ + cmd + "` has invalid parameter metadata for `"@ + param + "`"@
}

pub open spec fn msg_repeated_choice(cmd: Seq<char>, param: Seq<char>) -> Seq<char> {
    "command `"@ + cmd + "` repeats a choice for `"@ + param + "`"@
}

pub open spec fn msg_invalid_value_name(cmd: Seq<char>, param: Seq<char>) -> Seq<char> {
    "parameter `"@ + param + "` on `"@ + cmd + "` has an invalid value_name"@
}

pub open spec fn msg_positional_metadata(cmd: Seq<char>, param: Seq<char>) -> Seq<char> {
    "positional parameter `"@ + param + "` on `"@ + cmd + "` has option metadata"@
}

pub open spec fn msg_required_after_optional(cmd: Seq<char>, param: Seq<char>) -> Seq<char> {
    "required positional `"@ + param + "` follows an optional positional on `"@ + cmd + "`"@
}

pub open spec fn msg_after_repeated(cmd: Seq<char>, param: Seq<char>) -> Seq<char> {
    "positional `"@ + param + "` follows a repeated positional on `"@ + cmd + "`"@
}

pub open spec fn msg_missing_value_name(cmd: Seq<char>, param: Seq<char>) -> Seq<char> {
    "option `"@ + param + "` on `"@ + cmd + "` is missing value_name"@
}

pub open spec fn msg_flag_value(cmd: Seq<char>, param: Seq<char>) -> Seq<char> {
    "flag `"@ + param + "` on `"@ + cmd + "` has value semantics"@
}

pub open spec fn msg_missing_long(cmd: Seq<char>, param: Seq<char>) -> Seq<char> {
    "parameter `"@ + param + "` on `"@ + cmd + "` is missing a long option name"@
}

pub open spec fn msg_invalid_long(cmd: Seq<char>, param: Seq<char>) -> Seq<char> {
    "parameter `"@ + param + "` on `"@ + cmd
        + "` has an invalid, reserved, or duplicate long option"@
}

pub open spec fn msg_invalid_short(cmd: Seq<char>, param: Seq<char>) -> Seq<char> {
    "parameter `"@ + param + "` on `"@ + cmd + "` has an invalid or duplicate short option"@
}

// ---------------------------------------------------------------------------
// The first violation, in the order in which the rules are checked
// ---------------------------------------------------------------------------

/// What the parameters before the current one have claimed.
pub struct ParameterScan {
    pub ids: Seq<Seq<char>>,
    pub longs: Seq<Seq<char>>,
    pub shorts: Seq<Seq<char>>,
    pub optional_positional_seen: bool,
    pub repeated_positional_seen: bool,
}

pub open spec fn empty_scan() -> ParameterScan {
    ParameterScan {
        ids: Seq::empty(),
        longs: Seq::empty(),
        shorts: Seq::empty(),
        optional_positional_seen: false,
        repeated_positional_seen: false,
    }
}

/// The scan after accepting parameter `p`.
pub open spec fn scan_after(s: ParameterScan, p: ParameterView) -> ParameterScan {
    let named = p.kind != ParameterKind::Positional;
    ParameterScan {
        ids: s.ids.push(p.id),
        longs: if named && present(p.long) is Some {
            s.longs.push(present(p.long)->0)
        } else {
            s.longs
        },
        shorts: if named && present(p.short) is Some {
            s.shorts.push(present(p.short)->0)
        } else {
            s.shorts
        },
        optional_positional_seen: s.optional_positional_seen || (p.kind
            == ParameterKind::Positional && !p.required),
        repeated_positional_seen: s.repeated_positional_seen || (p.kind
            == ParameterKind::Positional && p.multiple),
    }
}

/// The scan after accepting every parameter of `ps`.
pub open spec fn scan_of(ps: Seq<ParameterView>) -> ParameterScan
    decreases ps.len(),
{
    if ps.len() == 0 {
        empty_scan()
    } else {
        scan_after(scan_of(ps.drop_last()), ps.last())
    }
}

/// The first problem with the long and short names of an option or flag.
pub open spec fn option_names_error(cmd: Seq<char>, p: ParameterView, s: ParameterScan) -> Option<
    Seq<char>,
> {
    match present(p.long) {
        None => Some(msg_missing_long(cmd, p.id)),
        Some(long) => if long == "json"@ || !identifier_ok(long, 64, seq!['-']) || s.longs.contains(
            long,
        ) {
            Some(msg_invalid_long(cmd, p.id))
        } else {
            match present(p.short) {
                Some(short) => if short.len() == 1 && is_alphanumeric(short[0])
                    && !s.shorts.contains(short) {
                    None
                } else {
                    Some(msg_invalid_short(cmd, p.id))
                },
                None => None,
            }
        },
    }
}

pub open spec fn choices_ok(choices: Seq<Seq<char>>) -> bool {
    forall|i: int| 0 <= i < choices.len() ==> 1 <= (#[trigger] choices[i]).len() <= 128
}

/// The first problem with parameter `p`, given the parameters before it.
pub open spec fn parameter_error(cmd: Seq<char>, p: ParameterView, s: ParameterScan) -> Option<
    Seq<char>,
> {
    if !identifier_ok(p.id, 64, seq!['_']) || s.ids.contains(p.id) {
        Some(msg_invalid_parameter(cmd, p.id))
    } else if p.description.len() > 1024 || p.choices.len() > 64 || !choices_ok(p.choices) {
        Some(msg_parameter_metadata(cmd, p.id))
    } else if !p.choices.no_duplicates() {
        Some(msg_repeated_choice(cmd, p.id))
    } else if present(p.value_name) is Some && (present(p.value_name)->0.len() == 0 || present(
        p.value_name,
    )->0.len() > 64) {
        Some(msg_invalid_value_name(cmd, p.id))
    } else {
        match p.kind {
            ParameterKind::Positional => if present(p.long) is Some || present(p.short) is Some
                || present(p.value_name) is None {
                Some(msg_positional_metadata(cmd, p.id))
            } else if s.optional_positional_seen && p.required {
                Some(msg_required_after_optional(cmd, p.id))
            } else if s.repeated_positional_seen {
                Some(msg_after_repeated(cmd, p.id))
            } else {
                None
            },
            ParameterKind::Option => match option_names_error(cmd, p, s) {
                Some(m) => Some(m),
                None => if present(p.value_name) is None {
                    Some(msg_missing_value_name(cmd, p.id))
                } else {
                    None
                },
            },
            ParameterKind::Flag => match option_names_error(cmd, p, s) {
                Some(m) => Some(m),
                None => if present(p.value_name) is Some || p.choices.len() > 0 || p.multiple
                    || p.required {
                    Some(msg_flag_value(cmd, p.id))
                } else {
                    None
                },
            },
        }
    }
}

/// The first problem among the parameters `ps`, taken in order.
pub open spec fn parameters_scan_error(cmd: Seq<char>, ps: Seq<ParameterView>) -> Option<
    Seq<char>,
>
    decreases ps.len(),
{
    if ps.len() == 0 {
        None
    } else {
        match parameters_scan_error(cmd, ps.drop_last()) {
            Some(m) => Some(m),
            None => parameter_error(cmd, ps.last(), scan_of(ps.drop_last())),
        }
    }
}

pub open spec fn parameters_error(cmd: Seq<char>, ps: Seq<ParameterView>) -> Option<Seq<char>> {
    if ps.len() > 64 {
        Some(msg_too_many_parameters(cmd))
    } else {
        parameters_scan_error(cmd, ps)
    }
}

/// The first problem with one command on its own.
pub open spec fn command_error(c: CommandView) -> Option<Seq<char>> {
    if !identifier_ok(c.id, 128, seq!['.', '_', '-']) {
        Some(msg_invalid_id(c.id))
    } else if !path_ok(c.path) {
        Some(msg_invalid_path(joined_path(c.path)))
    } else if !metadata_ok(c) {
        Some(msg_invalid_metadata(c.id))
    } else if c.output_formats.len() == 0 || c.output_formats.len() > 2 {
        Some(msg_invalid_formats(c.id))
    } else if format_count(c.output_formats, OutputFormat::Text) > 1 || format_count(
        c.output_formats,
        OutputFormat::Json,
    ) > 1 {
        Some(msg_repeated_format(c.id))
    } else {
        parameters_error(c.id, c.parameters)
    }
}

/// `m` is the lexicographically least of `paths` that conflicts with `path`.
pub open spec fn least_conflict(paths: Seq<Seq<char>>, path: Seq<char>, m: Seq<char>) -> bool {
    &&& paths.contains(m)
    &&& prefix_conflict(m, path)
    &&& forall|q: Seq<char>| paths.contains(q) && prefix_conflict(q, path) ==> !text_lt(q, m)
}

pub open spec fn ids_of(cs: Seq<CommandView>) -> Seq<Seq<char>> {
    cs.map_values(|c: CommandView| c.id)
}

pub open spec fn joined_paths_of(cs: Seq<CommandView>) -> Seq<Seq<char>> {
    cs.map_values(|c: CommandView| joined_path(c.path))
}

/// The first problem with command `c`, given the commands accepted before it.
pub open spec fn entry_error(prev: Seq<CommandView>, c: CommandView) -> Option<Seq<char>> {
    entry_error_for(ids_of(prev), joined_paths_of(prev), c)
}

/// The first problem with command `c`, given the ids and joined paths of the
/// commands accepted before it.
pub open spec fn entry_error_for(ids: Seq<Seq<char>>, paths: Seq<Seq<char>>, c: CommandView) -> Option<
    Seq<char>,
> {
    let path = joined_path(c.path);
    match command_error(c) {
        Some(m) => Some(m),
        None => if ids.contains(c.id) {
            Some(msg_duplicate_id(c.id))
        } else if exists|q: Seq<char>| paths.contains(q) && prefix_conflict(q, path) {
            Some(msg_path_conflict(path, choose|m: Seq<char>| least_conflict(paths, path, m)))
        } else if paths.contains(path) {
            Some(msg_duplicate_path(path))
        } else {
            None
        },
    }
}

pub open spec fn catalog_scan_error(cs: Seq<CommandView>) -> Option<Seq<char>>
    decreases cs.len(),
{
    if cs.len() == 0 {
        None
    } else {
        match catalog_scan_error(cs.drop_last()) {
            Some(m) => Some(m),
            None => entry_error(cs.drop_last(), cs.last()),
        }
    }
}

/// The error that validating catalog `cs` reports, if any.
pub open spec fn catalog_error(cs: Seq<CommandView>) -> Option<Seq<char>> {
    if cs.len() > 256 {
        Some(msg_catalog_limit())
    } else {
        catalog_scan_error(cs)
    }
}

/// There is only one least conflicting path.
proof fn lemma_least_conflict_unique(paths: Seq<Seq<char>>, path: Seq<char>, m: Seq<char>)
    requires
        least_conflict(paths, path, m),
    ensures
        (choose|x: Seq<char>| least_conflict(paths, path, x)) == m,
{
    let x = choose|x: Seq<char>| least_conflict(paths, path, x);
    assert(least_conflict(paths, path, x));
    lemma_text_order(x, m, x);
}

/// Once a prefix of the parameters has a problem, that stays the reported one.
proof fn lemma_parameter_error_persists(cmd: Seq<char>, ps: Seq<ParameterView>, j: int)
    requires
        0 <= j <= ps.len(),
        parameters_scan_error(cmd, ps.subrange(0, j)) is Some,
    ensures
        parameters_scan_error(cmd, ps) == parameters_scan_error(cmd, ps.subrange(0, j)),
    decreases ps.len() - j,
{
    if j == ps.len() {
        assert(ps.subrange(0, j) =~= ps);
    } else {
        assert(ps.subrange(0, j + 1).drop_last() =~= ps.subrange(0, j));
        lemma_parameter_error_persists(cmd, ps, j + 1);
    }
}

/// Once a prefix of the catalog has a problem, that stays the reported one.
proof fn lemma_catalog_error_persists(cs: Seq<CommandView>, j: int)
    requires
        0 <= j <= cs.len(),
        catalog_scan_error(cs.subrange(0, j)) is Some,
    ensures
        catalog_scan_error(cs) == catalog_scan_error(cs.subrange(0, j)),
    decreases cs.len() - j,
{
    if j == cs.len() {
        assert(cs.subrange(0, j) =~= cs);
    } else {
        assert(cs.subrange(0, j + 1).drop_last() =~= cs.subrange(0, j));
        lemma_catalog_error_persists(cs, j + 1);
    }
}

// ---------------------------------------------------------------------------
// Executable checks
// ---------------------------------------------------------------------------

/// Validates the semantic constraints that are stricter than the wire schema.
pub fn validate_catalog(commands: &[CommandDefinition]) -> (r: Result<(), String>)
    ensures
        r is Ok <==> catalog_error(catalog_view(commands@)) is None,
        r matches Err(m) ==> catalog_error(catalog_view(commands@)) == Some(m@),
{
    let ghost cs = catalog_view(commands@);
    if commands.len() > MAX_COMMANDS_PER_PROVIDER {
        proof {
            reveal_strlit("catalog exceeds the 256-command provider limit");
        }
        return Err(String::from_str("catalog exceeds the 256-command provider limit"));
    }
    let mut ids: Vec<&str> = Vec::new();
    let mut paths: Vec<String> = Vec::new();
    let mut i: usize = 0;
    while i < commands.len()
        invariant
            cs == catalog_view(commands@),
            cs.len() <= 256,
            i <= commands.len(),
            catalog_scan_error(cs.subrange(0, i as int)) is None,
            strs_view(ids@) == ids_of(cs.subrange(0, i as int)),
            crate::contract::strings_view(paths@) == joined_paths_of(cs.subrange(0, i as int)),
        decreases commands.len() - i,
    {
        let command = &commands[i];
        let ghost prev = cs.subrange(0, i as int);
        assert(cs.subrange(0, i + 1).drop_last() =~= prev);
        assert(cs[i as int] == command@);
        let path = match check_entry(command, &ids, &paths) {
            Err(m) => {
                proof {
                    lemma_catalog_error_persists(cs, i + 1);
                }
                return Err(m);
            },
            Ok(path) => path,
        };
        let ghost ids_before = ids@;
        let ghost paths_before = paths@;
        let ghost path_view = path@;
        ids.push(command.id.as_str());
        paths.push(path);
        proof {
            assert(strs_view(ids@) =~= strs_view(ids_before).push(command.id@));
            assert(crate::contract::strings_view(paths@) =~= crate::contract::strings_view(
                paths_before,
            ).push(path_view));
            assert(ids_of(cs.subrange(0, i + 1)) =~= ids_of(prev).push(cs[i as int].id));
            assert(joined_paths_of(cs.subrange(0, i + 1)) =~= joined_paths_of(prev).push(
                joined_path(cs[i as int].path),
            ));
        }
        i = i + 1;
    }
    assert(cs.subrange(0, i as int) =~= cs);
    Ok(())
}

/// Checks one command on its own and against the commands before it; on
/// success, returns its joined path.
fn check_entry(command: &CommandDefinition, ids: &Vec<&str>, paths: &Vec<String>) -> (r: Result<
    String,
    String,
>)
    ensures
        ({
            let e = entry_error_for(strs_view(ids@), crate::contract::strings_view(paths@), command@);
            &&& r is Ok <==> e is None
            &&& r matches Err(m) ==> e == Some(m@)
            &&& r matches Ok(p) ==> p@ == joined_path(command@.path)
        }),
{
    match validate_command(command) {
        Err(m) => {
            return Err(m);
        },
        Ok(()) => {},
    }
    if contains_text(ids, command.id.as_str()) {
        return Err(concat3("duplicate command id `", command.id.as_str(), "`"));
    }
    let path = join_path(&command.path);
    match least_conflicting(paths, path.as_str()) {
        Some(existing) => {
            let ghost v = crate::contract::strings_view(paths@);
            proof {
                lemma_least_conflict_unique(v, path@, paths@[existing as int]@);
            }
            return Err(
                concat5(
                    "command path `",
                    path.as_str(),
                    "` conflicts with command group `",
                    paths[existing].as_str(),
                    "`",
                ),
            );
        },
        None => {},
    }
    if contains_string(paths, path.as_str()) {
        return Err(concat3("duplicate command path `", path.as_str(), "`"));
    }
    Ok(path)
}

/// Whether `paths` holds a string equal to `s`.
fn contains_string(paths: &Vec<String>, s: &str) -> (r: bool)
    ensures
        r == crate::contract::strings_view(paths@).contains(s@),
{
    let mut i: usize = 0;
    while i < paths.len()
        invariant
            i <= paths.len(),
            forall|k: int| 0 <= k < i ==> paths@[k]@ != s@,
        decreases paths.len() - i,
    {
        if text_equal(paths[i].as_str(), s) {
            assert(crate::contract::strings_view(paths@)[i as int] == s@);
            return true;
        }
        i = i + 1;
    }
    proof {
        let v = crate::contract::strings_view(paths@);
        if v.contains(s@) {
            let k = choose|k: int| 0 <= k < v.len() && v[k] == s@;
            assert(paths@[k]@ == s@);
        }
    }
    false
}

/// The position of the lexicographically least of `paths` that conflicts
/// with `path`, if any does.
fn least_conflicting(paths: &Vec<String>, path: &str) -> (r: Option<usize>)
    ensures
        r is None <==> !(exists|q: Seq<char>|
            crate::contract::strings_view(paths@).contains(q) && prefix_conflict(q, path@)),
        r matches Some(k) ==> k < paths.len() && least_conflict(
            crate::contract::strings_view(paths@),
            path@,
            paths@[k as int]@,
        ),
{
    let ghost v = crate::contract::strings_view(paths@);
    let mut best: Option<usize> = None;
    let mut i: usize = 0;
    while i < paths.len()
        invariant
            v == crate::contract::strings_view(paths@),
            i <= paths.len(),
            best is None <==> forall|k: int| 0 <= k < i ==> !prefix_conflict(v[k], path@),
            best matches Some(b) ==> b < i && prefix_conflict(v[b as int], path@) && forall|k: int|
                0 <= k < i && prefix_conflict(v[k], path@) ==> !text_lt(v[k], v[b as int]),
        decreases paths.len() - i,
    {
        assert(v[i as int] == paths@[i as int]@);
        if path_prefix_conflict(paths[i].as_str(), path) {
            match best {
                None => {
                    proof {
                        lemma_text_order(v[i as int], v[i as int], v[i as int]);
                    }
                    best = Some(i);
                },
                Some(b) => {
                    assert(v[b as int] == paths@[b as int]@);
                    if text_less(paths[i].as_str(), paths[b].as_str()) {
                        proof {
                            assert forall|k: int|
                                0 <= k < i + 1 && prefix_conflict(v[k], path@) implies !text_lt(
                                v[k],
                                v[i as int],
                            ) by {
                                lemma_text_order(v[k], v[i as int], v[b as int]);
                                lemma_text_order(v[i as int], v[k], v[b as int]);
                            }
                        }
                        best = Some(i);
                    } else {
                        proof {
                            lemma_text_order(v[i as int], v[b as int], v[b as int]);
                        }
                    }
                },
            }
        }
        i = i + 1;
    }
    proof {
        match best {
            Some(b) => {
                assert(v[b as int] == paths@[b as int]@);
                assert(v.contains(v[b as int]));
                assert forall|q: Seq<char>| v.contains(q) && prefix_conflict(q, path@) implies !text_lt(
                    q,
                    v[b as int],
                ) by {
                    let k = choose|k: int| 0 <= k < v.len() && v[k] == q;
                }
            },
            None => {
                assert forall|q: Seq<char>| v.contains(q) implies !prefix_conflict(q, path@) by {
                    let k = choose|k: int| 0 <= k < v.len() && v[k] == q;
                }
            },
        }
    }
    best
}

fn validate_command(command: &CommandDefinition) -> (r: Result<(), String>)
    ensures
        r is Ok <==> command_error(command@) is None,
        r matches Err(m) ==> command_error(command@) == Some(m@),
{
    let ghost c = command@;
    if !valid_identifier(command.id.as_str(), 128, &['.', '_', '-']) {
        assert(seq!['.', '_', '-'] =~= (['.', '_', '-'])@);
        return Err(concat3("invalid command id `", command.id.as_str(), "`"));
    }
    assert(seq!['.', '_', '-'] =~= (['.', '_', '-'])@);
    let segments_valid = all_segments_valid(&command.path);
    assert(segments_valid == (forall|k: int|
        0 <= k < c.path.len() ==> identifier_ok(#[trigger] c.path[k], 64, seq!['-']))) by {
        if !segments_valid {
            let k = choose|k: int|
                0 <= k < command.path@.len() && !identifier_ok(
                    #[trigger] command.path@[k]@,
                    64,
                    seq!['-'],
                );
            assert(c.path[k] == command.path@[k]@);
        }
    }
    if command.path.len() == 0 || command.path.len() > 8 || !segments_valid {
        let joined = join_path(&command.path);
        return Err(concat3("invalid command path `", joined.as_str(), "`"));
    }
    if command.summary.unicode_len() == 0 || command.summary.unicode_len() > 256
        || command.description.unicode_len() > 4096 {
        return Err(concat3("invalid metadata for command `", command.id.as_str(), "`"));
    }
    if command.output_formats.len() == 0 || command.output_formats.len() > 2 {
        return Err(
            concat3("command `", command.id.as_str(), "` has invalid output formats"),
        );
    }
    let text_count = count_format(&command.output_formats, OutputFormat::Text);
    let json_count = count_format(&command.output_formats, OutputFormat::Json);
    if text_count > 1 || json_count > 1 {
        return Err(concat3("command `", command.id.as_str(), "` repeats an output format"));
    }
    validate_parameters(command)
}

fn all_segments_valid(path: &Vec<String>) -> (r: bool)
    ensures
        r == forall|i: int|
            0 <= i < path@.len() ==> identifier_ok(#[trigger] path@[i]@, 64, seq!['-']),
{
    assert(seq!['-'] =~= (['-'])@);
    let mut i: usize = 0;
    while i < path.len()
        invariant
            i <= path.len(),
            seq!['-'] == (['-'])@,
            forall|k: int| 0 <= k < i ==> identifier_ok(#[trigger] path@[k]@, 64, seq!['-']),
        decreases path.len() - i,
    {
        if !valid_identifier(path[i].as_str(), 64, &['-']) {
            return false;
        }
        i = i + 1;
    }
    true
}

fn count_format(formats: &Vec<OutputFormat>, f: OutputFormat) -> (r: usize)
    ensures
        r == format_count(formats@, f),
{
    let mut n: usize = 0;
    let mut i: usize = 0;
    while i < formats.len()
        invariant
            i <= formats.len(),
            n <= i,
            n == format_count(formats@.subrange(0, i as int), f),
        decreases formats.len() - i,
    {
        let ghost before = formats@.subrange(0, i as int);
        assert(formats@.subrange(0, i + 1).drop_last() =~= before);
        if formats[i] == f {
            n = n + 1;
        }
        i = i + 1;
    }
    assert(formats@.subrange(0, i as int) =~= formats@);
    n
}

fn validate_parameters(command: &CommandDefinition) -> (r: Result<(), String>)
    ensures
        r is Ok <==> parameters_error(command.id@, command@.parameters) is None,
        r matches Err(m) ==> parameters_error(command.id@, command@.parameters) == Some(m@),
{
    let ghost cmd = command.id@;
    let ghost ps = command@.parameters;
    if command.parameters.len() > 64 {
        return Err(concat3("command `", command.id.as_str(), "` has too many parameters"));
    }
    let mut ids: Vec<&str> = Vec::new();
    let mut longs: Vec<&str> = Vec::new();
    let mut shorts: Vec<&str> = Vec::new();
    let mut optional_positional_seen = false;
    let mut repeated_positional_seen = false;
    let mut i: usize = 0;
    while i < command.parameters.len()
        invariant
            cmd == command.id@,
            ps == command@.parameters,
            ps.len() == command.parameters.len(),
            ps.len() <= 64,
            i <= ps.len(),
            parameters_scan_error(cmd, ps.subrange(0, i as int)) is None,
            strs_view(ids@) == scan_of(ps.subrange(0, i as int)).ids,
            strs_view(longs@) == scan_of(ps.subrange(0, i as int)).longs,
            strs_view(shorts@) == scan_of(ps.subrange(0, i as int)).shorts,
            optional_positional_seen == scan_of(ps.subrange(0, i as int)).optional_positional_seen,
            repeated_positional_seen == scan_of(ps.subrange(0, i as int)).repeated_positional_seen,
        decreases ps.len() - i,
    {
        let parameter = &command.parameters[i];
        let ghost prev = ps.subrange(0, i as int);
        let ghost s = scan_of(prev);
        assert(ps.subrange(0, i + 1).drop_last() =~= prev);
        assert(ps.subrange(0, i + 1).last() == parameter@);
        assert(s == ParameterScan {
            ids: strs_view(ids@),
            longs: strs_view(longs@),
            shorts: strs_view(shorts@),
            optional_positional_seen,
            repeated_positional_seen,
        });
        match check_parameter(
            command,
            parameter,
            &ids,
            &mut longs,
            &mut shorts,
            optional_positional_seen,
            repeated_positional_seen,
        ) {
            Err(m) => {
                proof {
                    assert(parameters_scan_error(cmd, ps.subrange(0, i + 1)) == Some(m@));
                    lemma_parameter_error_persists(cmd, ps, i + 1);
                }
                return Err(m);
            },
            Ok(()) => {},
        }
        if parameter.kind == ParameterKind::Positional {
            optional_positional_seen = optional_positional_seen || !parameter.required;
            repeated_positional_seen = repeated_positional_seen || parameter.multiple;
        }
        let ghost ids_before = ids@;
        ids.push(parameter.id.as_str());
        i = i + 1;
        proof {
            assert(strs_view(ids@) =~= strs_view(ids_before).push(parameter@.id));
        }
    }
    assert(ps.subrange(0, i as int) =~= ps);
    Ok(())
}

/// Checks one parameter against the rules and against the parameters before
/// it, recording its long and short names.
fn check_parameter<'a>(
    command: &CommandDefinition,
    parameter: &'a CommandParameter,
    ids: &Vec<&'a str>,
    longs: &mut Vec<&'a str>,
    shorts: &mut Vec<&'a str>,
    optional_positional_seen: bool,
    repeated_positional_seen: bool,
) -> (r: Result<(), String>)
    ensures
        ({
            let s = ParameterScan {
                ids: strs_view(ids@),
                longs: strs_view(old(longs)@),
                shorts: strs_view(old(shorts)@),
                optional_positional_seen,
                repeated_positional_seen,
            };
            &&& r is Ok <==> parameter_error(command.id@, parameter@, s) is None
            &&& r matches Err(m) ==> parameter_error(command.id@, parameter@, s) == Some(m@)
            &&& r is Ok ==> strs_view(final(longs)@) == scan_after(s, parameter@).longs
            &&& r is Ok ==> strs_view(final(shorts)@) == scan_after(s, parameter@).shorts
        }),
{
    assert(seq!['_'] =~= (['_'])@);
    if !valid_identifier(parameter.id.as_str(), 64, &['_']) || contains_text(
        ids,
        parameter.id.as_str(),
    ) {
        return Err(
            concat5(
                "command `",
                command.id.as_str(),
                "` has invalid or duplicate parameter `",
                parameter.id.as_str(),
                "`",
            ),
        );
    }
    if parameter.description.unicode_len() > 1024 || parameter.choices.len() > 64
        || !choices_within_bounds(&parameter.choices) {
        return Err(
            concat5(
                "command `",
                command.id.as_str(),
                "` has invalid parameter metadata for `",
                parameter.id.as_str(),
                "`",
            ),
        );
    }
    if !choices_unique(&parameter.choices) {
        return Err(
            concat5(
                "command `",
                command.id.as_str(),
                "` repeats a choice for `",
                parameter.id.as_str(),
                "`",
            ),
        );
    }
    let long = optional_string(&parameter.long);
    let short = optional_string(&parameter.short);
    let value_name = optional_string(&parameter.value_name);
    let bad_value_name = match value_name {
        Some(name) => name.unicode_len() == 0 || name.unicode_len() > 64,
        None => false,
    };
    if bad_value_name {
        return Err(
            concat5(
                "parameter `",
                parameter.id.as_str(),
                "` on `",
                command.id.as_str(),
                "` has an invalid value_name",
            ),
        );
    }
    match parameter.kind {
        ParameterKind::Positional => {
            if long.is_some() || short.is_some() || value_name.is_none() {
                return Err(
                    concat5(
                        "positional parameter `",
                        parameter.id.as_str(),
                        "` on `",
                        command.id.as_str(),
                        "` has option metadata",
                    ),
                );
            }
            if optional_positional_seen && parameter.required {
                return Err(
                    concat5(
                        "required positional `",
                        parameter.id.as_str(),
                        "` follows an optional positional on `",
                        command.id.as_str(),
                        "`",
                    ),
                );
            }
            if repeated_positional_seen {
                return Err(
                    concat5(
                        "positional `",
                        parameter.id.as_str(),
                        "` follows a repeated positional on `",
                        command.id.as_str(),
                        "`",
                    ),
                );
            }
        },
        ParameterKind::Option => {
            match validate_option_names(command, parameter, long, short, longs, shorts) {
                Err(m) => {
                    return Err(m);
                },
                Ok(()) => {},
            }
            if value_name.is_none() {
                return Err(
                    concat5(
                        "option `",
                        parameter.id.as_str(),
                        "` on `",
                        command.id.as_str(),
                        "` is missing value_name",
                    ),
                );
            }
        },
        ParameterKind::Flag => {
            match validate_option_names(command, parameter, long, short, longs, shorts) {
                Err(m) => {
                    return Err(m);
                },
                Ok(()) => {},
            }
            if value_name.is_some() || parameter.choices.len() > 0 || parameter.multiple
                || parameter.required {
                return Err(
                    concat5(
                        "flag `",
                        parameter.id.as_str(),
                        "` on `",
                        command.id.as_str(),
                        "` has value semantics",
                    ),
                );
            }
        },
    }
    Ok(())
}

fn validate_option_names<'a>(
    command: &CommandDefinition,
    parameter: &'a CommandParameter,
    long: Option<&'a str>,
    short: Option<&'a str>,
    longs: &mut Vec<&'a str>,
    shorts: &mut Vec<&'a str>,
) -> (r: Result<(), String>)
    requires
        long matches Some(l) ==> present(parameter@.long) == Some(l@),
        long is None ==> present(parameter@.long) is None,
        short matches Some(s) ==> present(parameter@.short) == Some(s@),
        short is None ==> present(parameter@.short) is None,
    ensures
        ({
            let s = ParameterScan {
                ids: Seq::empty(),
                longs: strs_view(old(longs)@),
                shorts: strs_view(old(shorts)@),
                optional_positional_seen: false,
                repeated_positional_seen: false,
            };
            &&& r is Ok <==> option_names_error(command.id@, parameter@, s) is None
            &&& r matches Err(m) ==> option_names_error(command.id@, parameter@, s) == Some(m@)
        }),
        r is Ok ==> strs_view(final(longs)@) == strs_view(old(longs)@).push(
            present(parameter@.long)->0,
        ),
        r is Ok ==> strs_view(final(shorts)@) == (match present(parameter@.short) {
            Some(s) => strs_view(old(shorts)@).push(s),
            None => strs_view(old(shorts)@),
        }),
{
    let long = match long {
        Some(l) => l,
        None => {
            return Err(
                concat5(
                    "parameter `",
                    parameter.id.as_str(),
                    "` on `",
                    command.id.as_str(),
                    "` is missing a long option name",
                ),
            );
        },
    };
    proof {
        reveal_strlit("json");
    }
    assert(seq!['-'] =~= (['-'])@);
    if text_equal(long, "json") || !valid_identifier(long, 64, &['-']) || contains_text(
        longs,
        long,
    ) {
        return Err(
            concat5(
                "parameter `",
                parameter.id.as_str(),
                "` on `",
                command.id.as_str(),
                "` has an invalid, reserved, or duplicate long option",
            ),
        );
    }
    longs.push(long);
    assert(strs_view(longs@) =~= strs_view(old(longs)@).push(long@));
    match short {
        Some(short) => {
            let valid = short.unicode_len() == 1 && is_ascii_alphanumeric(short.get_char(0))
                && !contains_text(shorts, short);
            if !valid {
                return Err(
                    concat5(
                        "parameter `",
                        parameter.id.as_str(),
                        "` on `",
                        command.id.as_str(),
                        "` has an invalid or duplicate short option",
                    ),
                );
            }
            shorts.push(short);
            assert(strs_view(shorts@) =~= strs_view(old(shorts)@).push(short@));
        },
        None => {},
    }
    Ok(())
}

fn is_ascii_alphanumeric(c: char) -> (r: bool)
    ensures
        r == is_alphanumeric(c),
{
    ('a' <= c && c <= 'z') || ('0' <= c && c <= '9') || ('A' <= c && c <= 'Z')
}

fn choices_within_bounds(choices: &Vec<String>) -> (r: bool)
    ensures
        r == choices_ok(crate::contract::strings_view(choices@)),
{
    let ghost v = crate::contract::strings_view(choices@);
    let mut i: usize = 0;
    while i < choices.len()
        invariant
            v == crate::contract::strings_view(choices@),
            i <= choices.len(),
            forall|k: int| 0 <= k < i ==> 1 <= (#[trigger] v[k]).len() <= 128,
        decreases choices.len() - i,
    {
        let n = choices[i].unicode_len();
        if n == 0 || n > 128 {
            assert(v[i as int] == choices@[i as int]@);
            return false;
        }
        i = i + 1;
    }
    true
}

fn choices_unique(choices: &Vec<String>) -> (r: bool)
    ensures
        r == crate::contract::strings_view(choices@).no_duplicates(),
{
    let ghost v = crate::contract::strings_view(choices@);
    let mut seen: Vec<&str> = Vec::new();
    let mut i: usize = 0;
    while i < choices.len()
        invariant
            v == crate::contract::strings_view(choices@),
            i <= choices.len(),
            strs_view(seen@) == v.subrange(0, i as int),
            v.subrange(0, i as int).no_duplicates(),
        decreases choices.len() - i,
    {
        if contains_text(&seen, choices[i].as_str()) {
            proof {
                let k = choose|k: int| 0 <= k < i && v.subrange(0, i as int)[k] == v[i as int];
                assert(v[k] == v[i as int]);
            }
            return false;
        }
        let ghost before = seen@;
        seen.push(choices[i].as_str());
        proof {
            assert(v[i as int] == choices@[i as int]@);
            assert(strs_view(seen@) =~= strs_view(before).push(v[i as int]));
            assert(v.subrange(0, i + 1) =~= v.subrange(0, i as int).push(v[i as int]));
        }
        i = i + 1;
        proof {
            assert forall|a: int, b: int|
                0 <= a < v.subrange(0, i as int).len() && 0 <= b < v.subrange(0, i as int).len()
                    && a != b implies v.subrange(0, i as int)[a] != v.subrange(0, i as int)[b] by {
                if a < i - 1 && b < i - 1 {
                    assert(v.subrange(0, i - 1)[a] == v[a]);
                    assert(v.subrange(0, i - 1)[b] == v[b]);
                } else if a == i - 1 {
                    assert(v.subrange(0, i - 1)[b] == v[b]);
                } else {
                    assert(v.subrange(0, i - 1)[a] == v[a]);
                }
            }
        }
    }
    assert(v.subrange(0, i as int) =~= v);
    true
}

/// The value of an optional wire string that is present and not null.
fn optional_string(value: &OptionalValue<String>) -> (r: Option<&str>)
    ensures
        r matches Some(s) ==> present(optional_view(*value)) == Some(s@),
        r is None ==> present(optional_view(*value)) is None,
{
    match value {
        Some(Some(s)) => Some(s.as_str()),
        _ => None,
    }
}

/// Whether `value` is a lowercase identifier of at most `max` characters.
fn valid_identifier(value: &str, max: usize, punctuation: &[char]) -> (r: bool)
    ensures
        r == identifier_ok(value@, max as int, punctuation@),
{
    let n = value.unicode_len();
    if n == 0 || n > max {
        return false;
    }
    let first = value.get_char(0);
    if !('a' <= first && first <= 'z') {
        return false;
    }
    let mut i: usize = 1;
    while i < n
        invariant
            n == value@.len(),
            1 <= i <= n,
            forall|k: int|
                1 <= k < i ==> is_lower(#[trigger] value@[k]) || is_digit(value@[k])
                    || punctuation@.contains(value@[k]),
        decreases n - i,
    {
        let c = value.get_char(i);
        let ok = ('a' <= c && c <= 'z') || ('0' <= c && c <= '9') || contains_char(
            punctuation,
            c,
        );
        if !ok {
            return false;
        }
        i = i + 1;
    }
    true
}

fn contains_char(chars: &[char], c: char) -> (r: bool)
    ensures
        r == chars@.contains(c),
{
    let mut i: usize = 0;
    while i < chars.len()
        invariant
            i <= chars.len(),
            forall|k: int| 0 <= k < i ==> chars@[k] != c,
        decreases chars.len() - i,
    {
        if chars[i] == c {
            return true;
        }
        i = i + 1;
    }
    false
}

/// Whether one joined path extends the other by further segments.
pub fn path_prefix_conflict(left: &str, right: &str) -> (r: bool)
    ensures
        r == prefix_conflict(left@, right@),
{
    extends_by_segment(left, right) || extends_by_segment(right, left)
}

/// Whether `long` starts with `short` followed by a space.
fn extends_by_segment(long: &str, short: &str) -> (r: bool)
    ensures
        r == (long@.len() > short@.len() && long@.subrange(0, short@.len() as int) == short@
            && long@[short@.len() as int] == ' '),
{
    let nl = long.unicode_len();
    let ns = short.unicode_len();
    if nl <= ns {
        return false;
    }
    let mut i: usize = 0;
    while i < ns
        invariant
            nl == long@.len(),
            ns == short@.len(),
            ns < nl,
            i <= ns,
            long@.subrange(0, i as int) == short@.subrange(0, i as int),
        decreases ns - i,
    {
        if long.get_char(i) != short.get_char(i) {
            assert(long@.subrange(0, ns as int)[i as int] != short@[i as int]);
            return false;
        }
        assert(long@.subrange(0, i + 1) =~= long@.subrange(0, i as int).push(long@[i as int]));
        assert(short@.subrange(0, i + 1) =~= short@.subrange(0, i as int).push(short@[i as int]));
        i = i + 1;
    }
    assert(short@.subrange(0, ns as int) =~= short@);
    long.get_char(ns) == ' '
}

} // verus!
