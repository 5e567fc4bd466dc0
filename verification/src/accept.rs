//! Deciding whether clap accepts the commands of a catalog: the condition
//! under which a catalog may be parsed at all.

use vstd::prelude::*;
use vstd::string::StrSliceExecFns;

use crate::catalog::present;
use crate::cli::{
    agree_on_prefix, built_while_matching, clap_safe, clap_safe_for, dash_shorts_absent, definition_clap_safe, json_arg_id, named, offers_json, optional_string,
    parameter_counts_fit, parameter_ids_ok, parameter_longs_ok, parameter_shorts_ok,
    positional_order_ok, positional_repeat_ok, short_first, supports_output,
};
use crate::contract::{catalog_view, strings_view, CommandDefinition, CommandParameter, OutputFormat, ParameterKind};
use crate::parse::{catalog_ready, prepare_command_line};
use crate::text::text_equal;

verus! {

/// Whether `p` is an option or flag.
fn is_named(p: &CommandParameter) -> (r: bool)
    ensures
        r == named(p@),
{
    p.kind != ParameterKind::Positional
}

/// The first character of `p`'s short name, where it has a nonempty one.
fn first_short(p: &CommandParameter) -> (r: Option<char>)
    ensures
        r == short_first(p@),
{
    match optional_string(&p.short) {
        Some(s) => if s.unicode_len() > 0 {
            Some(s.as_str().get_char(0))
        } else {
            None
        },
        None => None,
    }
}

/// Whether the parameter ids of `c` are distinct and leave clap's and the
/// JSON flag's ids alone.
fn ids_accepted(c: &CommandDefinition) -> (r: bool)
    ensures
        r == parameter_ids_ok(c@),
{
    reveal(parameter_ids_ok);
    let ghost ps = c@.parameters;
    let json = supports_output(c, &OutputFormat::Json);
    assert(json == offers_json(c@));
    let mut i: usize = 0;
    while i < c.parameters.len()
        invariant
            ps == c@.parameters,
            json == offers_json(c@),
            i <= ps.len(),
            forall|a: int| 0 <= a < i ==> (#[trigger] ps[a]).id != "help"@ && (json ==> ps[a].id != json_arg_id()),
            forall|a: int, b: int| 0 <= a < b < i ==> (#[trigger] ps[a]).id != (#[trigger] ps[b]).id,
        decreases ps.len() - i,
    {
        let id = c.parameters[i].id.as_str();
        assert(ps[i as int].id == id@);
        if text_equal(id, "help") || (json && text_equal(id, "__lenso_output_json")) {
            proof {
                reveal(parameter_ids_ok);
            }
            return false;
        }
        let mut j: usize = 0;
        while j < i
            invariant
                ps == c@.parameters,
                i < ps.len(),
                j <= i,
                id@ == ps[i as int].id,
                forall|a: int| 0 <= a < j ==> (#[trigger] ps[a]).id != ps[i as int].id,
            decreases i - j,
        {
            assert(ps[j as int].id == c.parameters[j as int].id@);
            if text_equal(c.parameters[j].id.as_str(), id) {
                proof {
                    reveal(parameter_ids_ok);
                }
                return false;
            }
            j = j + 1;
        }
        i = i + 1;
    }
    true
}

/// Whether the long names of the options and flags of `c` are distinct and
/// leave clap's help flag, the JSON flag and a leading `-` alone.
fn longs_accepted(c: &CommandDefinition) -> (r: bool)
    ensures
        r == parameter_longs_ok(c@),
{
    reveal(parameter_longs_ok);
    let ghost ps = c@.parameters;
    let json = supports_output(c, &OutputFormat::Json);
    let mut i: usize = 0;
    while i < c.parameters.len()
        invariant
            ps == c@.parameters,
            json == offers_json(c@),
            i <= ps.len(),
            forall|a: int|
                0 <= a < i && named(#[trigger] ps[a]) ==> present(ps[a].long) != Some("help"@) && (
                json ==> present(ps[a].long) != Some("json"@)) && !(present(ps[a].long) matches Some(
                    l,
                ) && l.len() > 0 && l[0] == '-'),
            forall|a: int, b: int|
                0 <= a < b < i && named(#[trigger] ps[a]) && named(#[trigger] ps[b]) && present(
                    ps[a].long,
                ) is Some ==> present(ps[a].long) != present(ps[b].long),
        decreases ps.len() - i,
    {
        let parameter = &c.parameters[i];
        assert(ps[i as int] == parameter@);
        if is_named(parameter) {
            match optional_string(&parameter.long) {
                Some(long) => {
                    let l = long.as_str();
                    if text_equal(l, "help") || (json && text_equal(l, "json")) {
                        proof {
                            reveal(parameter_longs_ok);
                        }
                        return false;
                    }
                    if l.unicode_len() > 0 && l.get_char(0) == '-' {
                        proof {
                            reveal(parameter_longs_ok);
                        }
                        return false;
                    }
                    let mut j: usize = 0;
                    while j < i
                        invariant
                            ps == c@.parameters,
                            i < ps.len(),
                            j <= i,
                            named(ps[i as int]),
                            present(ps[i as int].long) == Some(l@),
                            forall|a: int|
                                0 <= a < j && named(#[trigger] ps[a]) && present(ps[a].long) is Some
                                    ==> present(ps[a].long) != present(ps[i as int].long),
                        decreases i - j,
                    {
                        let earlier = &c.parameters[j];
                        assert(ps[j as int] == earlier@);
                        if is_named(earlier) {
                            match optional_string(&earlier.long) {
                                Some(e) => {
                                    if text_equal(e.as_str(), l) {
                                        proof {
                                            reveal(parameter_longs_ok);
                                        }
                                        return false;
                                    }
                                },
                                None => {},
                            }
                        }
                        j = j + 1;
                    }
                },
                None => {},
            }
        }
        i = i + 1;
    }
    true
}

/// Whether the first characters of the short names of the options and flags
/// of `c` are distinct and leave `h` and `-` alone.
fn shorts_accepted(c: &CommandDefinition) -> (r: bool)
    ensures
        r == parameter_shorts_ok(c@),
{
    reveal(parameter_shorts_ok);
    let ghost ps = c@.parameters;
    let mut i: usize = 0;
    while i < c.parameters.len()
        invariant
            ps == c@.parameters,
            i <= ps.len(),
            forall|a: int|
                0 <= a < i && named(#[trigger] ps[a]) ==> short_first(ps[a]) != Some('h')
                    && short_first(ps[a]) != Some('-'),
            forall|a: int, b: int|
                0 <= a < b < i && named(#[trigger] ps[a]) && named(#[trigger] ps[b]) && short_first(
                    ps[a],
                ) is Some ==> short_first(ps[a]) != short_first(ps[b]),
        decreases ps.len() - i,
    {
        let parameter = &c.parameters[i];
        assert(ps[i as int] == parameter@);
        if is_named(parameter) {
            match first_short(parameter) {
                Some(s) => {
                    if s == 'h' || s == '-' {
                        proof {
                            reveal(parameter_shorts_ok);
                        }
                        return false;
                    }
                    let mut j: usize = 0;
                    while j < i
                        invariant
                            ps == c@.parameters,
                            i < ps.len(),
                            j <= i,
                            named(ps[i as int]),
                            short_first(ps[i as int]) == Some(s),
                            forall|a: int|
                                0 <= a < j && named(#[trigger] ps[a]) && short_first(ps[a]) is Some
                                    ==> short_first(ps[a]) != short_first(ps[i as int]),
                        decreases i - j,
                    {
                        let earlier = &c.parameters[j];
                        assert(ps[j as int] == earlier@);
                        if is_named(earlier) {
                            match first_short(earlier) {
                                Some(e) => {
                                    if e == s {
                                        proof {
                                            reveal(parameter_shorts_ok);
                                        }
                                        return false;
                                    }
                                },
                                None => {},
                            }
                        }
                        j = j + 1;
                    }
                },
                None => {},
            }
        }
        i = i + 1;
    }
    true
}

/// Whether no optional positional parameter of `c` comes before a required one.
fn order_accepted(c: &CommandDefinition) -> (r: bool)
    ensures
        r == positional_order_ok(c@),
{
    reveal(positional_order_ok);
    let ghost ps = c@.parameters;
    let mut optional_seen: bool = false;
    let mut i: usize = 0;
    while i < c.parameters.len()
        invariant
            ps == c@.parameters,
            i <= ps.len(),
            optional_seen ==> exists|a: int| 0 <= a < i && !named(#[trigger] ps[a]) && !ps[a].required,
            !optional_seen ==> forall|a: int| 0 <= a < i && !named(#[trigger] ps[a]) ==> ps[a].required,
            forall|a: int, b: int|
                0 <= a < b < i && !named(#[trigger] ps[a]) && !named(#[trigger] ps[b])
                    && ps[b].required ==> ps[a].required,
        decreases ps.len() - i,
    {
        let parameter = &c.parameters[i];
        assert(ps[i as int] == parameter@);
        if !is_named(parameter) {
            if parameter.required && optional_seen {
                proof {
                    let a = choose|a: int| 0 <= a < i && !named(#[trigger] ps[a]) && !ps[a].required;
                    assert(!named(ps[a]) && !named(ps[i as int]));
                }
                proof {
                    reveal(positional_order_ok);
                }
                return false;
            }
            if !parameter.required {
                optional_seen = true;
            }
        }
        i = i + 1;
    }
    true
}

/// The positional parameter with several values at `a` comes last, or just
/// before a last positional one that is required and takes one value.
spec fn repeat_ok_at(ps: Seq<crate::contract::ParameterView>, a: int) -> bool {
    ||| forall|j: int| a < j < ps.len() ==> named(#[trigger] ps[j])
    ||| exists|j: int|
        a < j < ps.len() && !named(#[trigger] ps[j]) && ps[j].required && !ps[j].multiple
            && forall|k: int| a < k < ps.len() && k != j ==> named(#[trigger] ps[k])
}

/// The positional parameters of `c` after position `i`: the first one, if
/// any, and whether there are more.
fn positionals_after(c: &CommandDefinition, i: usize) -> (r: (Option<usize>, bool))
    requires
        i < c.parameters.len(),
    ensures
        ({
            let ps = c@.parameters;
            &&& r.0 is None ==> !r.1 && forall|k: int| i < k < ps.len() ==> named(#[trigger] ps[k])
            &&& r.0 is Some ==> i < r.0->0 < ps.len() && !named(ps[r.0->0 as int])
            &&& (r.0 is Some && !r.1) ==> forall|k: int|
                i < k < ps.len() && k != r.0->0 ==> named(#[trigger] ps[k])
            &&& r.1 ==> r.0 is Some && exists|g: int|
                i < g < ps.len() && g != r.0->0 && !named(#[trigger] ps[g])
        }),
{
    let ghost ps = c@.parameters;
    let n = c.parameters.len();
    let mut first: Option<usize> = None;
    let mut more: bool = false;
    let mut j: usize = i + 1;
    while j < n
        invariant
            ps == c@.parameters,
            n == ps.len(),
            i < j <= n,
            first is None ==> !more && forall|k: int| i < k < j ==> named(#[trigger] ps[k]),
            first is Some ==> i < first->0 < j && !named(ps[first->0 as int]),
            first is Some && !more ==> forall|k: int|
                i < k < j && k != first->0 ==> named(#[trigger] ps[k]),
            more ==> first is Some && exists|g: int|
                i < g < j && g != first->0 && !named(#[trigger] ps[g]),
        decreases n - j,
    {
        assert(ps[j as int] == c.parameters@[j as int]@);
        if !is_named(&c.parameters[j]) {
            if first.is_none() {
                first = Some(j);
            } else {
                more = true;
            }
        }
        j = j + 1;
    }
    (first, more)
}

/// Whether each positional parameter of `c` with several values comes last,
/// or just before a last positional one that is required and takes one value.
fn repeat_accepted(c: &CommandDefinition) -> (r: bool)
    ensures
        r == positional_repeat_ok(c@),
{
    let ghost ps = c@.parameters;
    let n = c.parameters.len();
    let mut i: usize = 0;
    while i < n
        invariant
            ps == c@.parameters,
            n == ps.len(),
            i <= n,
            forall|a: int| 0 <= a < i && !named(#[trigger] ps[a]) && ps[a].multiple ==> repeat_ok_at(ps, a),
        decreases n - i,
    {
        let parameter = &c.parameters[i];
        assert(ps[i as int] == parameter@);
        if !is_named(parameter) && parameter.multiple {
            let (first, more) = positionals_after(c, i);
            match first {
                None => {},
                Some(f) => {
                    let last = &c.parameters[f];
                    assert(ps[f as int] == last@);
                    if more || !last.required || last.multiple {
                        proof {
                            assert(!repeat_ok_at(ps, i as int)) by {
                                assert(!named(ps[f as int]));
                                assert forall|j: int|
                                    i < j < ps.len() && !named(#[trigger] ps[j]) && ps[j].required
                                        && !ps[j].multiple implies !(forall|k: int|
                                    i < k < ps.len() && k != j ==> named(#[trigger] ps[k])) by {
                                    if more {
                                        let g = choose|g: int|
                                            i < g < n && g != f && !named(#[trigger] ps[g]);
                                        if j == f {
                                            assert(!named(ps[g]));
                                        } else {
                                            assert(!named(ps[f as int]));
                                        }
                                    } else {
                                        if j != f {
                                            assert(!named(ps[f as int]));
                                        }
                                    }
                                }
                            }
                            reveal(positional_repeat_ok);
                        }
                        return false;
                    }
                },
            }
        }
        i = i + 1;
    }
    proof {
        reveal(positional_repeat_ok);
    }
    true
}

/// Whether clap accepts the parameters of `c`.
fn definition_accepted(c: &CommandDefinition) -> (r: bool)
    ensures
        r == definition_clap_safe(c@),
{
    ids_accepted(c) && longs_accepted(c) && shorts_accepted(c) && order_accepted(c)
        && repeat_accepted(c)
}

/// Whether clap accepts every command of `catalog` and every command's
/// parameters can be counted: then `parse_args` and `parse_line` may be
/// called with any arguments (see `lemma_clap_safe_for_all`).
pub fn clap_accepts(catalog: &[CommandDefinition]) -> (r: bool)
    ensures
        r == (clap_safe(catalog_view(catalog@)) && parameter_counts_fit(catalog@)),
{
    let ghost cs = catalog_view(catalog@);
    let mut k: usize = 0;
    while k < catalog.len()
        invariant
            cs == catalog_view(catalog@),
            k <= catalog.len(),
            forall|a: int| 0 <= a < k ==> definition_clap_safe(#[trigger] cs[a]),
            forall|a: int| 0 <= a < k ==> #[trigger] catalog@[a].parameters.len() < usize::MAX,
        decreases catalog.len() - k,
    {
        assert(cs[k as int] == catalog@[k as int]@);
        if catalog[k].parameters.len() == usize::MAX || !definition_accepted(&catalog[k]) {
            return false;
        }
        k = k + 1;
    }
    true
}

/// Whether every command of `catalog` has fewer than `usize::MAX` parameters.
fn counts_fit(catalog: &[CommandDefinition]) -> (r: bool)
    ensures
        r == parameter_counts_fit(catalog@),
{
    let mut k: usize = 0;
    while k < catalog.len()
        invariant
            k <= catalog.len(),
            forall|a: int| 0 <= a < k ==> #[trigger] catalog@[a].parameters.len() < usize::MAX,
        decreases catalog.len() - k,
    {
        if catalog[k].parameters.len() == usize::MAX {
            return false;
        }
        k = k + 1;
    }
    true
}

/// Whether no option or flag of `catalog` has a short name starting with `-`.
fn dash_free(catalog: &[CommandDefinition]) -> (r: bool)
    ensures
        r == dash_shorts_absent(catalog_view(catalog@)),
{
    let ghost cs = catalog_view(catalog@);
    let mut k: usize = 0;
    while k < catalog.len()
        invariant
            cs == catalog_view(catalog@),
            k <= catalog.len(),
            forall|a: int, i: int|
                0 <= a < k && 0 <= i < cs[a].parameters.len() && named(
                    #[trigger] cs[a].parameters[i],
                ) ==> short_first(cs[a].parameters[i]) != Some('-'),
        decreases catalog.len() - k,
    {
        let ps = &catalog[k].parameters;
        assert(cs[k as int].parameters == catalog@[k as int]@.parameters);
        let mut i: usize = 0;
        while i < ps.len()
            invariant
                cs == catalog_view(catalog@),
                k < catalog.len(),
                *ps == catalog@[k as int].parameters,
                cs[k as int].parameters == catalog@[k as int]@.parameters,
                i <= ps.len(),
                forall|j: int|
                    0 <= j < i && named(#[trigger] cs[k as int].parameters[j]) ==> short_first(
                        cs[k as int].parameters[j],
                    ) != Some('-'),
            decreases ps.len() - i,
        {
            assert(cs[k as int].parameters[i as int] == ps[i as int]@);
            if is_named(&ps[i]) && first_short(&ps[i]) == Some('-') {
                return false;
            }
            i = i + 1;
        }
        k = k + 1;
    }
    true
}

/// Whether `a` is a long option other than `--help`.
fn long_option(a: &String) -> (r: bool)
    ensures
        r == crate::clap_bridge::unknown_long_option(a@),
{
    let t = a.as_str();
    t.unicode_len() > 2 && t.get_char(0) == '-' && t.get_char(1) == '-' && !text_equal(t, "--help")
}

/// Whether clap builds the command for `c` while it matches `args`.
fn built_by(c: &CommandDefinition, args: &[String]) -> (r: bool)
    ensures
        r == built_while_matching(c@, strings_view(args@)),
{
    let ghost av = strings_view(args@);
    let n = c.path.len();
    if n == 0 || args.len() < n {
        return false;
    }
    let above = agree_on_prefix(&c.path, args, n - 1);
    proof {
        assert(c@.path == strings_view(c.path@));
        assert(av[n - 1] == args@[n - 1]@);
        assert(c@.path[n - 1] == c.path@[n - 1]@);
    }
    above && (args[n - 1] == c.path[n - 1] || long_option(&args[n - 1]))
}

/// Whether clap accepts every command of `catalog` that it builds while it
/// matches `args`.
fn built_accepted(catalog: &[CommandDefinition], args: &[String]) -> (r: bool)
    ensures
        r == forall|k: int|
            0 <= k < catalog@.len() && built_while_matching(
                #[trigger] catalog_view(catalog@)[k],
                strings_view(args@),
            ) ==> definition_clap_safe(catalog_view(catalog@)[k]),
{
    let ghost cs = catalog_view(catalog@);
    let ghost av = strings_view(args@);
    let mut k: usize = 0;
    while k < catalog.len()
        invariant
            cs == catalog_view(catalog@),
            av == strings_view(args@),
            k <= catalog.len(),
            forall|a: int| 0 <= a < k && built_while_matching(#[trigger] cs[a], av) ==> definition_clap_safe(cs[a]),
        decreases catalog.len() - k,
    {
        assert(cs[k as int] == catalog@[k as int]@);
        if built_by(&catalog[k], args) && !definition_accepted(&catalog[k]) {
            return false;
        }
        k = k + 1;
    }
    true
}

/// Whether `catalog` may be parsed with `args`: its parameters can be
/// counted, and where it gets as far as clap, clap accepts what it builds
/// of it while it matches `args`.
pub fn ready_to_parse(catalog: &[CommandDefinition], args: &[String]) -> (r: bool)
    ensures
        r == catalog_ready(catalog@, strings_view(args@)),
{
    if !counts_fit(catalog) {
        return false;
    }
    match prepare_command_line(catalog, "") {
        Err(_) => true,
        Ok(_) => dash_free(catalog) && built_accepted(catalog, args),
    }
}

} // verus!
