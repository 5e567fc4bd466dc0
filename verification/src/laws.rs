//! Properties that relate several operations of the library: how the
//! composed catalog behaves when a provider goes away, and what a validated
//! catalog guarantees to composition and to the command line.

use vstd::prelude::*;

use crate::catalog::{
    catalog_error, catalog_scan_error, command_error, entry_error, ids_of, joined_paths_of,
    parameter_error, parameters_scan_error, prefix_conflict, present, scan_after, scan_of,
};
use crate::cli::{
    arg_error, clap_safe, definition_clap_safe, has_arg_error, has_leaf_group, is_leaf_group,
    json_arg_id, named, offers_json, parameter_ids_ok, paths_of, resolution, tree_scan_error,
    FoundView, ParsedCommand, targets_catalog, targets_path, group_arguments, is_help_token,
    parameter_longs_ok, parameter_shorts_ok, params_arg_error, positional_order_ok,
    positional_repeat_ok, proper_prefix, short_first,
};
use crate::contract::{catalog_view, CommandDefinition, CommandView, OutputFormat, ParameterView};
use crate::text::{is_lower, join_with, joined_path};
use crate::runtime::{
    aggregate_entry_error, aggregate_error, arranged_catalog, command_before, entry_ids, entry_paths,
    lemma_command_order, sorted_catalog,
    flatten_catalogs, routes_of,
    RouteView,
};

verus! {

/// Keeps the provider catalogs of the providers in `kept`.
pub open spec fn kept_providers(kept: Set<usize>) -> spec_fn((usize, Vec<CommandDefinition>)) -> bool {
    |pc: (usize, Vec<CommandDefinition>)| kept.contains(pc.0)
}

/// Keeps the commands of the providers in `kept`.
pub open spec fn kept_entries(kept: Set<usize>) -> spec_fn((usize, crate::contract::CommandView)) -> bool {
    |e: (usize, crate::contract::CommandView)| kept.contains(e.0)
}

/// Keeps the routes to the providers in `kept`.
pub open spec fn kept_routes(kept: Set<usize>) -> spec_fn(RouteView) -> bool {
    |r: RouteView| kept.contains(r.provider_index)
}

/// Keeps the commands that the composition `es` lists.
pub open spec fn listed_in(es: Seq<(usize, CommandView)>) -> spec_fn(CommandView) -> bool {
    |c: CommandView| es.map_values(|e: (usize, CommandView)| e.1).contains(c)
}

/// A sequence all of whose items `f` keeps is what filtering it by `f` gives.
proof fn lemma_filter_all<A>(s: Seq<A>, f: spec_fn(A) -> bool)
    requires
        forall|i: int| 0 <= i < s.len() ==> f(#[trigger] s[i]),
    ensures
        s.filter(f) == s,
    decreases s.len(),
{
    reveal(Seq::filter);
    if s.len() > 0 {
        lemma_filter_all(s.drop_last(), f);
        assert(s.drop_last().push(s.last()) =~= s);
    }
}

/// Filtering a sequence of which `f` keeps no item gives the empty sequence.
proof fn lemma_filter_none<A>(s: Seq<A>, f: spec_fn(A) -> bool)
    requires
        forall|i: int| 0 <= i < s.len() ==> !f(#[trigger] s[i]),
    ensures
        s.filter(f) == Seq::<A>::empty(),
    decreases s.len(),
{
    reveal(Seq::filter);
    if s.len() > 0 {
        lemma_filter_none(s.drop_last(), f);
    }
}

/// The commands of the providers in `kept` are the commands of all
/// providers without the others', in the same order.
proof fn lemma_flatten_without(pcs: Seq<(usize, Vec<CommandDefinition>)>, kept: Set<usize>)
    ensures
        flatten_catalogs(pcs.filter(kept_providers(kept))) == flatten_catalogs(pcs).filter(
            kept_entries(kept),
        ),
    decreases pcs.len(),
{
    reveal(Seq::filter);
    let f = kept_entries(kept);
    if pcs.len() > 0 {
        let prev = pcs.drop_last();
        let last = pcs.last();
        lemma_flatten_without(prev, kept);
        let block = last.1@.map_values(|c: CommandDefinition| (last.0, c@));
        Seq::filter_distributes_over_add(flatten_catalogs(prev), block, f);
        if kept.contains(last.0) {
            lemma_filter_all(block, f);
            assert(pcs.filter(kept_providers(kept)) == prev.filter(kept_providers(kept)).push(last));
            assert(pcs.filter(kept_providers(kept)).drop_last() =~= prev.filter(kept_providers(kept)));
        } else {
            lemma_filter_none(block, f);
            assert(flatten_catalogs(pcs).filter(f) =~= flatten_catalogs(prev).filter(f));
        }
    } else {
        assert(flatten_catalogs(pcs).filter(f) =~= Seq::<(usize, crate::contract::CommandView)>::empty());
    }
}

/// Leaving commands out of a composition that succeeds leaves a composition
/// that succeeds: every check compares a command with those before it, and
/// leaving commands out only removes what it is compared with.
proof fn lemma_compose_subsequence(
    es: Seq<(usize, crate::contract::CommandView)>,
    f: spec_fn((usize, crate::contract::CommandView)) -> bool,
)
    requires
        aggregate_error(es) is None,
    ensures
        aggregate_error(es.filter(f)) is None,
    decreases es.len(),
{
    reveal(Seq::filter);
    if es.len() > 0 {
        let prev = es.drop_last();
        let e = es.last();
        lemma_compose_subsequence(prev, f);
        if f(e) {
            let kept = prev.filter(f);
            assert(es.filter(f).drop_last() =~= kept);
            assert(es.filter(f).last() == e);
            prev.lemma_filter_len(f);
            assert(aggregate_entry_error(prev, e) is None);
            assert(!entry_ids(kept).contains(e.1.id)) by {
                if entry_ids(kept).contains(e.1.id) {
                    let i = choose|i: int| 0 <= i < entry_ids(kept).len() && entry_ids(kept)[i] == e.1.id;
                    assert(kept.contains(kept[i]));
                    prev.lemma_filter_contains_rev(f, kept[i]);
                    let j = choose|j: int| 0 <= j < prev.len() && prev[j] == kept[i];
                    assert(entry_ids(prev)[j] == e.1.id);
                }
            }
            let path = crate::text::joined_path(e.1.path);
            assert forall|q: Seq<char>| entry_paths(kept).contains(q) implies entry_paths(prev).contains(q) by {
                let i = choose|i: int| 0 <= i < entry_paths(kept).len() && entry_paths(kept)[i] == q;
                assert(kept.contains(kept[i]));
                prev.lemma_filter_contains_rev(f, kept[i]);
                let j = choose|j: int| 0 <= j < prev.len() && prev[j] == kept[i];
                assert(entry_paths(prev)[j] == q);
            }
            assert(!(exists|q: Seq<char>|
                entry_paths(kept).contains(q) && crate::catalog::prefix_conflict(q, path)));
            assert(!entry_paths(kept).contains(path));
            assert(aggregate_entry_error(kept, e) is None);
        } else {
            assert(es.filter(f) =~= prev.filter(f));
        }
    }
}

/// The routes of the commands that `kept_entries(kept)` keeps are the
/// routes that `kept_routes(kept)` keeps.
proof fn lemma_routes_without(es: Seq<(usize, crate::contract::CommandView)>, kept: Set<usize>)
    ensures
        routes_of(es.filter(kept_entries(kept))) == routes_of(es).filter(
            kept_routes(kept),
        ),
    decreases es.len(),
{
    reveal(Seq::filter);
    let f = kept_entries(kept);
    let g = kept_routes(kept);
    if es.len() > 0 {
        let prev = es.drop_last();
        lemma_routes_without(prev, kept);
        assert(routes_of(es).drop_last() =~= routes_of(prev));
        if f(es.last()) {
            assert(es.filter(f) == prev.filter(f).push(es.last()));
            assert(routes_of(es.filter(f)) =~= routes_of(prev.filter(f)).push(routes_of(es).last()));
        } else {
            assert(es.filter(f) == prev.filter(f));
        }
    } else {
        assert(routes_of(es) =~= Seq::<RouteView>::empty());
        assert(es.filter(f) =~= es);
    }
}

/// A strictly sorted catalog is its only sorted arrangement: two sorted
/// catalogs with the same commands are equal.
proof fn lemma_sorted_unique(a: Seq<CommandView>, b: Seq<CommandView>)
    requires
        sorted_catalog(a),
        sorted_catalog(b),
        forall|c: CommandView| a.contains(c) <==> b.contains(c),
    ensures
        a == b,
    decreases a.len(),
{
    if a.len() == 0 {
        if b.len() > 0 {
            assert(b.contains(b[0]));
        }
        assert(b.len() == 0);
    } else {
        assert(a.contains(a[0]));
        assert(b.len() > 0);
        assert(b.contains(b[0]));
        let i = choose|i: int| 0 <= i < b.len() && b[i] == a[0];
        let j = choose|j: int| 0 <= j < a.len() && a[j] == b[0];
        if i > 0 && j > 0 {
            assert(command_before(b[0], b[i]));
            assert(command_before(a[0], a[j]));
            lemma_command_order(a[0], b[0], a[0]);
        } else if i > 0 {
            assert(command_before(b[0], b[i]));
            lemma_command_order(b[0], b[0], b[0]);
        } else if j > 0 {
            assert(command_before(a[0], a[j]));
            lemma_command_order(a[0], a[0], a[0]);
        }
        assert(a[0] == b[0]);
        let a1 = a.drop_first();
        let b1 = b.drop_first();
        assert forall|c: CommandView| a1.contains(c) <==> b1.contains(c) by {
            if a1.contains(c) {
                let k = choose|k: int| 0 <= k < a1.len() && a1[k] == c;
                assert(a[k + 1] == c);
                assert(command_before(a[0], a[k + 1]));
                lemma_command_order(a[0], a[0], a[0]);
                assert(b.contains(c));
                let m = choose|m: int| 0 <= m < b.len() && b[m] == c;
                assert(m != 0);
                assert(b1[m - 1] == c);
            }
            if b1.contains(c) {
                let k = choose|k: int| 0 <= k < b1.len() && b1[k] == c;
                assert(b[k + 1] == c);
                assert(command_before(b[0], b[k + 1]));
                lemma_command_order(b[0], b[0], b[0]);
                assert(a.contains(c));
                let m = choose|m: int| 0 <= m < a.len() && a[m] == c;
                assert(m != 0);
                assert(a1[m - 1] == c);
            }
        }
        lemma_sorted_unique(a1, b1);
        assert(a =~= seq![a[0]] + a1);
        assert(b =~= seq![b[0]] + b1);
    }
}

/// Keeping some commands of a sorted catalog keeps it sorted.
proof fn lemma_filter_sorted(cs: Seq<CommandView>, g: spec_fn(CommandView) -> bool)
    requires
        sorted_catalog(cs),
    ensures
        sorted_catalog(cs.filter(g)),
    decreases cs.len(),
{
    reveal(Seq::filter);
    if cs.len() > 0 {
        let prev = cs.drop_last();
        assert(sorted_catalog(prev)) by {
            assert forall|i: int, j: int| 0 <= i < j < prev.len() implies command_before(prev[i], prev[j]) by {
                assert(prev[i] == cs[i] && prev[j] == cs[j]);
            }
        }
        lemma_filter_sorted(prev, g);
        if g(cs.last()) {
            let f = prev.filter(g);
            let out = f.push(cs.last());
            assert forall|i: int, j: int| 0 <= i < j < out.len() implies command_before(out[i], out[j]) by {
                if j == out.len() - 1 {
                    assert(f.contains(f[i]));
                    prev.lemma_filter_contains_rev(g, f[i]);
                    let k = choose|k: int| 0 <= k < prev.len() && prev[k] == f[i];
                    assert(cs[k] == f[i]);
                    assert(command_before(cs[k], cs[cs.len() - 1]));
                } else {
                    assert(out[i] == f[i] && out[j] == f[j]);
                }
            }
        }
    }
}

/// Removing providers removes only their commands: where the providers'
/// catalogs compose, the catalogs of the providers in `kept` compose too;
/// their routes are the routes of the full composition to the providers in
/// `kept`, in the same order; and their sorted catalog exists and is the
/// full sorted catalog without the other providers' commands, in the same
/// order.
pub proof fn law_removing_providers_removes_only_their_commands(
    provider_catalogs: Seq<(usize, Vec<CommandDefinition>)>,
    kept: Set<usize>,
    catalog: Seq<CommandView>,
)
    requires
        aggregate_error(flatten_catalogs(provider_catalogs)) is None,
        arranged_catalog(catalog, flatten_catalogs(provider_catalogs)),
    ensures
        aggregate_error(flatten_catalogs(provider_catalogs.filter(kept_providers(kept)))) is None,
        routes_of(flatten_catalogs(provider_catalogs.filter(kept_providers(kept)))) == routes_of(
            flatten_catalogs(provider_catalogs),
        ).filter(kept_routes(kept)),
        arranged_catalog(
            catalog.filter(listed_in(flatten_catalogs(provider_catalogs.filter(kept_providers(kept))))),
            flatten_catalogs(provider_catalogs.filter(kept_providers(kept))),
        ),
        forall|reduced_catalog: Seq<CommandView>|
            #[trigger] arranged_catalog(
                reduced_catalog,
                flatten_catalogs(provider_catalogs.filter(kept_providers(kept))),
            ) ==> reduced_catalog == catalog.filter(
                listed_in(flatten_catalogs(provider_catalogs.filter(kept_providers(kept)))),
            ),
{
    let es = flatten_catalogs(provider_catalogs);
    let f = kept_entries(kept);
    lemma_flatten_without(provider_catalogs, kept);
    lemma_compose_subsequence(es, f);
    lemma_routes_without(es, kept);
    let es2 = es.filter(f);
    let g = listed_in(es2);
    let picked = catalog.filter(g);
    let all = es.map_values(|e: (usize, CommandView)| e.1);
    let some = es2.map_values(|e: (usize, CommandView)| e.1);
    lemma_filter_sorted(catalog, g);
    assert forall|c: CommandView| picked.contains(c) <==> some.contains(c) by {
        if picked.contains(c) {
            catalog.lemma_filter_contains_rev(g, c);
            let k = choose|k: int| 0 <= k < picked.len() && picked[k] == c;
            catalog.lemma_filter_pred(g, k);
        }
        if some.contains(c) {
            let k = choose|k: int| 0 <= k < some.len() && some[k] == c;
            assert(es2.contains(es2[k]));
            es.lemma_filter_contains_rev(f, es2[k]);
            let m = choose|m: int| 0 <= m < es.len() && es[m] == es2[k];
            assert(all[m] == c);
            assert(all.contains(c));
            assert(catalog.contains(c));
            let n = choose|n: int| 0 <= n < catalog.len() && catalog[n] == c;
            catalog.lemma_filter_contains(g, n);
        }
    }
    assert(picked.len() == es2.len()) by {
        law_composition_validity(es2);
        assert(picked.no_duplicates()) by {
            assert forall|i: int, j: int| 0 <= i < picked.len() && 0 <= j < picked.len() && i != j implies picked[i]
                != picked[j] by {
                crate::runtime::lemma_command_order(picked[i], picked[i], picked[i]);
            }
        }
        assert(some.no_duplicates()) by {
            assert forall|i: int, j: int| 0 <= i < some.len() && 0 <= j < some.len() && i != j implies some[i]
                != some[j] by {
                if i < j {
                    assert(commands_apart(es2[i].1, es2[j].1));
                } else {
                    assert(commands_apart(es2[j].1, es2[i].1));
                }
            }
        }
        picked.unique_seq_to_set();
        some.unique_seq_to_set();
        assert(picked.to_set() =~= some.to_set());
    }
    assert forall|reduced_catalog: Seq<CommandView>|
        #[trigger] arranged_catalog(reduced_catalog, es2) implies reduced_catalog == picked by {
        lemma_sorted_unique(picked, reduced_catalog);
    }
}

/// Joining a sequence of segments splits at any inner boundary.
proof fn lemma_join_split(b: Seq<Seq<char>>, sep: Seq<char>, n: int)
    requires
        1 <= n < b.len(),
    ensures
        join_with(b, sep) == join_with(b.subrange(0, n), sep) + sep + join_with(
            b.subrange(n, b.len() as int),
            sep,
        ),
    decreases b.len(),
{
    let rest = b.subrange(n, b.len() as int);
    if n == b.len() - 1 {
        assert(b.drop_last() =~= b.subrange(0, n));
        assert(rest.len() == 1);
        assert(rest[0] == b.last());
    } else {
        let d = b.drop_last();
        lemma_join_split(d, sep, n);
        assert(d.subrange(0, n) =~= b.subrange(0, n));
        assert(rest.drop_last() =~= d.subrange(n, d.len() as int));
        assert(rest.last() == b.last());
        assert(join_with(b, sep) =~= join_with(b.subrange(0, n), sep) + sep + join_with(rest, sep));
    }
}

/// A command path that is a proper prefix of another one conflicts with it
/// once both are joined.
proof fn lemma_proper_prefix_conflict(a: Seq<Seq<char>>, b: Seq<Seq<char>>)
    requires
        a.len() >= 1,
        proper_prefix(a, b),
    ensures
        prefix_conflict(joined_path(a), joined_path(b)),
{
    let sep = seq![' '];
    lemma_join_split(b, sep, a.len() as int);
    let left = joined_path(a);
    let right = joined_path(b);
    assert(right =~= left + sep + join_with(b.subrange(a.len() as int, b.len() as int), sep));
    assert(right.subrange(0, left.len() as int) =~= left);
    assert(right[left.len() as int] == ' ');
}

/// Two commands of one catalog that keep apart: distinct ids, distinct
/// joined paths, and neither path a group of the other.
pub open spec fn commands_apart(a: CommandView, b: CommandView) -> bool {
    &&& a.id != b.id
    &&& joined_path(a.path) != joined_path(b.path)
    &&& !prefix_conflict(joined_path(a.path), joined_path(b.path))
}

/// Every command of `cs` is valid on its own, and every two keep apart.
pub open spec fn scan_rules_hold(cs: Seq<CommandView>) -> bool {
    &&& forall|k: int| 0 <= k < cs.len() ==> command_error(#[trigger] cs[k]) is None
    &&& forall|i: int, j: int|
        0 <= i < j < cs.len() ==> commands_apart(#[trigger] cs[i], #[trigger] cs[j])
}

/// The rules of a provider catalog, stated command by command and pair by
/// pair: at most 256 commands, each valid on its own, every two apart.
pub open spec fn catalog_rules_hold(cs: Seq<CommandView>) -> bool {
    cs.len() <= 256 && scan_rules_hold(cs)
}

proof fn lemma_scan_rules(cs: Seq<CommandView>)
    ensures
        catalog_scan_error(cs) is None <==> scan_rules_hold(cs),
    decreases cs.len(),
{
    if cs.len() > 0 {
        let prev = cs.drop_last();
        let c = cs.last();
        let n = cs.len() - 1;
        lemma_scan_rules(prev);
        let ids = ids_of(prev);
        let paths = joined_paths_of(prev);
        let path = joined_path(c.path);
        let apart_from_last = forall|i: int| 0 <= i < prev.len() ==> commands_apart(#[trigger] prev[i], c);
        assert(entry_error(prev, c) is None <==> command_error(c) is None && apart_from_last) by {
            if command_error(c) is None && apart_from_last {
                assert(!ids.contains(c.id)) by {
                    if ids.contains(c.id) {
                        let i = choose|i: int| 0 <= i < ids.len() && ids[i] == c.id;
                        assert(commands_apart(prev[i], c));
                    }
                }
                assert(!(exists|q: Seq<char>| paths.contains(q) && prefix_conflict(q, path))) by {
                    if exists|q: Seq<char>| paths.contains(q) && prefix_conflict(q, path) {
                        let q = choose|q: Seq<char>| paths.contains(q) && prefix_conflict(q, path);
                        let i = choose|i: int| 0 <= i < paths.len() && paths[i] == q;
                        assert(commands_apart(prev[i], c));
                    }
                }
                assert(!paths.contains(path)) by {
                    if paths.contains(path) {
                        let i = choose|i: int| 0 <= i < paths.len() && paths[i] == path;
                        assert(commands_apart(prev[i], c));
                    }
                }
            }
            if entry_error(prev, c) is None {
                assert forall|i: int| 0 <= i < prev.len() implies commands_apart(#[trigger] prev[i], c) by {
                    assert(ids[i] == prev[i].id);
                    assert(paths[i] == joined_path(prev[i].path));
                }
            }
        }
        if scan_rules_hold(cs) {
            assert forall|k: int| 0 <= k < prev.len() implies command_error(#[trigger] prev[k]) is None by {
                assert(prev[k] == cs[k]);
            }
            assert forall|i: int, j: int| 0 <= i < j < prev.len() implies commands_apart(
                #[trigger] prev[i],
                #[trigger] prev[j],
            ) by {
                assert(prev[i] == cs[i] && prev[j] == cs[j]);
            }
            assert(command_error(cs[n]) is None);
            assert forall|i: int| 0 <= i < prev.len() implies commands_apart(#[trigger] prev[i], c) by {
                assert(prev[i] == cs[i]);
                assert(commands_apart(cs[i], cs[n]));
            }
        }
        if catalog_scan_error(cs) is None {
            assert forall|k: int| 0 <= k < cs.len() implies command_error(#[trigger] cs[k]) is None by {
                if k < n {
                    assert(prev[k] == cs[k]);
                }
            }
            assert forall|i: int, j: int| 0 <= i < j < cs.len() implies commands_apart(
                #[trigger] cs[i],
                #[trigger] cs[j],
            ) by {
                assert(prev[i] == cs[i]);
                if j < n {
                    assert(prev[j] == cs[j]);
                }
            }
        }
    }
}

/// A provider catalog validates exactly when the rules hold command by
/// command and pair by pair; in particular, whether it validates does not
/// depend on the order of its commands.
pub proof fn law_catalog_validity(cs: Seq<CommandView>)
    ensures
        catalog_error(cs) is None <==> catalog_rules_hold(cs),
{
    lemma_scan_rules(cs);
}

proof fn lemma_scan_composes(cs: Seq<CommandView>, es: Seq<(usize, CommandView)>)
    requires
        es.len() == cs.len(),
        cs.len() <= 256,
        forall|i: int| 0 <= i < es.len() ==> (#[trigger] es[i]).1 == cs[i],
        catalog_scan_error(cs) is None,
    ensures
        aggregate_error(es) is None,
    decreases cs.len(),
{
    if cs.len() > 0 {
        let prev = cs.drop_last();
        let eprev = es.drop_last();
        assert forall|i: int| 0 <= i < eprev.len() implies (#[trigger] eprev[i]).1 == prev[i] by {
            assert(es[i].1 == cs[i]);
        }
        lemma_scan_composes(prev, eprev);
        assert(es.last().1 == cs.last()) by {
            assert(es[es.len() - 1].1 == cs[cs.len() - 1]);
        }
        assert(entry_ids(eprev) =~= ids_of(prev));
        assert(entry_paths(eprev) =~= joined_paths_of(prev));
    }
}

/// A provider catalog that validates composes on its own.
pub proof fn law_validated_catalog_composes(p: usize, commands: Vec<CommandDefinition>)
    requires
        catalog_error(catalog_view(commands@)) is None,
    ensures
        aggregate_error(flatten_catalogs(seq![(p, commands)])) is None,
{
    let pcs = seq![(p, commands)];
    let cs = catalog_view(commands@);
    let es = flatten_catalogs(pcs);
    assert(pcs.drop_last() =~= Seq::<(usize, Vec<CommandDefinition>)>::empty());
    assert(flatten_catalogs(pcs.drop_last()) =~= Seq::<(usize, CommandView)>::empty());
    let block = pcs.last().1@.map_values(|c: CommandDefinition| (pcs.last().0, c@));
    assert(es =~= block);
    assert forall|i: int| 0 <= i < es.len() implies (#[trigger] es[i]).1 == cs[i] by {
        assert(block[i] == (pcs.last().0, commands@[i]@));
        assert(cs[i] == commands@[i]@);
    }
    lemma_scan_composes(cs, es);
}

/// What the scan of the first `i` parameters has recorded of each of them.
proof fn lemma_scan_records(ps: Seq<ParameterView>, i: int)
    requires
        0 <= i <= ps.len(),
    ensures
        ({
            let s = scan_of(ps.subrange(0, i));
            &&& forall|j: int| 0 <= j < i ==> s.ids.contains(#[trigger] ps[j].id)
            &&& forall|j: int|
                0 <= j < i && named(#[trigger] ps[j]) && present(ps[j].long) is Some
                    ==> s.longs.contains(present(ps[j].long)->0)
            &&& forall|j: int|
                0 <= j < i && named(#[trigger] ps[j]) && present(ps[j].short) is Some
                    ==> s.shorts.contains(present(ps[j].short)->0)
            &&& forall|j: int|
                0 <= j < i && !named(#[trigger] ps[j]) && !ps[j].required
                    ==> s.optional_positional_seen
            &&& forall|j: int|
                0 <= j < i && !named(#[trigger] ps[j]) && ps[j].multiple
                    ==> s.repeated_positional_seen
        }),
    decreases i,
{
    if i > 0 {
        lemma_scan_records(ps, i - 1);
        let sub = ps.subrange(0, i);
        assert(sub.drop_last() =~= ps.subrange(0, i - 1));
        assert(sub.last() == ps[i - 1]);
        let before = scan_of(ps.subrange(0, i - 1));
        let after = scan_of(sub);
        assert(after == scan_after(before, ps[i - 1]));
        assert forall|j: int| 0 <= j < i implies after.ids.contains(#[trigger] ps[j].id) by {
            if j < i - 1 {
                assert(before.ids.contains(ps[j].id));
                let k = choose|k: int| 0 <= k < before.ids.len() && before.ids[k] == ps[j].id;
                assert(after.ids[k] == ps[j].id);
            } else {
                assert(after.ids[after.ids.len() - 1] == ps[j].id);
            }
        }
        assert forall|j: int|
            0 <= j < i && named(#[trigger] ps[j]) && present(ps[j].long) is Some implies after.longs.contains(
            present(ps[j].long)->0,
        ) by {
            if j < i - 1 {
                let k = choose|k: int|
                    0 <= k < before.longs.len() && before.longs[k] == present(ps[j].long)->0;
                if named(ps[i - 1]) && present(ps[i - 1].long) is Some {
                    assert(after.longs[k] == present(ps[j].long)->0);
                }
            } else {
                assert(after.longs[after.longs.len() - 1] == present(ps[j].long)->0);
            }
        }
        assert forall|j: int|
            0 <= j < i && named(#[trigger] ps[j]) && present(ps[j].short) is Some implies after.shorts.contains(
            present(ps[j].short)->0,
        ) by {
            if j < i - 1 {
                let k = choose|k: int|
                    0 <= k < before.shorts.len() && before.shorts[k] == present(ps[j].short)->0;
                if named(ps[i - 1]) && present(ps[i - 1].short) is Some {
                    assert(after.shorts[k] == present(ps[j].short)->0);
                }
            } else {
                assert(after.shorts[after.shorts.len() - 1] == present(ps[j].short)->0);
            }
        }
    }
}

/// Where the parameters of a command scan without a problem, each one
/// passes its check against the scan of those before it.
proof fn lemma_each_parameter_ok(cmd: Seq<char>, ps: Seq<ParameterView>, i: int)
    requires
        parameters_scan_error(cmd, ps) is None,
        0 <= i < ps.len(),
    ensures
        parameter_error(cmd, ps[i], scan_of(ps.subrange(0, i))) is None,
    decreases ps.len(),
{
    let prev = ps.drop_last();
    if i < ps.len() - 1 {
        lemma_each_parameter_ok(cmd, prev, i);
        assert(prev.subrange(0, i) =~= ps.subrange(0, i));
        assert(prev[i] == ps[i]);
    } else {
        assert(prev =~= ps.subrange(0, i));
    }
}

proof fn lemma_no_params_arg_error(ps: Seq<ParameterView>)
    requires
        forall|i: int| 0 <= i < ps.len() ==> arg_error(#[trigger] ps[i]) is None,
    ensures
        params_arg_error(ps) is None,
    decreases ps.len(),
{
    if ps.len() > 0 {
        let prev = ps.drop_last();
        assert forall|i: int| 0 <= i < prev.len() implies arg_error(#[trigger] prev[i]) is None by {
            assert(prev[i] == ps[i]);
        }
        lemma_no_params_arg_error(prev);
        assert(arg_error(ps[ps.len() - 1]) is None);
    }
}

/// No parameter takes a name of clap's built-in help flag: the id `help`,
/// the long name `help` or the short name `h`.
pub open spec fn help_free(p: ParameterView) -> bool {
    &&& p.id != "help"@
    &&& present(p.long) != Some("help"@)
    &&& present(p.short) != Some("h"@)
}

/// A command that validates, and whose parameters leave clap's help names
/// alone, has parameters that all become arguments that clap accepts.
proof fn lemma_valid_command_projects(c: CommandView)
    requires
        command_error(c) is None,
        forall|i: int| 0 <= i < c.parameters.len() ==> help_free(#[trigger] c.parameters[i]),
    ensures
        params_arg_error(c.parameters) is None,
        definition_clap_safe(c),
        c.parameters.len() <= 64,
{
    let ps = c.parameters;
    let cmd = c.id;
    reveal_strlit("help");
    reveal_strlit("h");
    reveal_strlit("json");
    reveal_strlit("__lenso_output_json");
    assert(parameters_scan_error(cmd, ps) is None);
    assert forall|i: int| 0 <= i < ps.len() implies arg_error(#[trigger] ps[i]) is None by {
        lemma_each_parameter_ok(cmd, ps, i);
    }
    lemma_no_params_arg_error(ps);
    assert(parameter_ids_ok(c)) by {
        reveal(parameter_ids_ok);
        assert forall|i: int, j: int| 0 <= i < j < ps.len() implies (#[trigger] ps[i]).id != (
        #[trigger] ps[j]).id by {
            lemma_each_parameter_ok(cmd, ps, j);
            lemma_scan_records(ps, j);
        }
        assert forall|i: int| 0 <= i < ps.len() implies (#[trigger] ps[i]).id != "help"@ && (
        offers_json(c) ==> ps[i].id != json_arg_id()) by {
            lemma_each_parameter_ok(cmd, ps, i);
            assert(help_free(ps[i]));
            assert(is_lower(ps[i].id[0]));
        }
    }
    assert(parameter_longs_ok(c)) by {
        reveal(parameter_longs_ok);
        assert forall|i: int, j: int|
            0 <= i < j < ps.len() && named(#[trigger] ps[i]) && named(#[trigger] ps[j]) && present(
                ps[i].long,
            ) is Some implies present(ps[i].long) != present(ps[j].long) by {
            lemma_each_parameter_ok(cmd, ps, j);
            lemma_scan_records(ps, j);
        }
        assert forall|i: int| 0 <= i < ps.len() && named(#[trigger] ps[i]) implies present(ps[i].long)
            != Some("help"@) && (offers_json(c) ==> present(ps[i].long) != Some("json"@)) && !(
        present(ps[i].long) matches Some(l) && l.len() > 0 && l[0] == '-') by {
            lemma_each_parameter_ok(cmd, ps, i);
            assert(help_free(ps[i]));
        }
    }
    assert(parameter_shorts_ok(c)) by {
        reveal(parameter_shorts_ok);
        assert forall|i: int, j: int|
            0 <= i < j < ps.len() && named(#[trigger] ps[i]) && named(#[trigger] ps[j])
                && short_first(ps[i]) is Some implies short_first(ps[i]) != short_first(ps[j]) by {
            lemma_each_parameter_ok(cmd, ps, i);
            lemma_each_parameter_ok(cmd, ps, j);
            lemma_scan_records(ps, j);
            if short_first(ps[j]) is Some {
                let a = present(ps[i].short)->0;
                let b = present(ps[j].short)->0;
                if a[0] == b[0] {
                    assert(a =~= b);
                }
            }
        }
        assert forall|i: int| 0 <= i < ps.len() && named(#[trigger] ps[i]) implies short_first(ps[i])
            != Some('h') && short_first(ps[i]) != Some('-') by {
            lemma_each_parameter_ok(cmd, ps, i);
            assert(help_free(ps[i]));
            if short_first(ps[i]) == Some('h') {
                assert(present(ps[i].short)->0 =~= "h"@);
            }
        }
    }
    assert(positional_order_ok(c)) by {
        reveal(positional_order_ok);
        assert forall|i: int, j: int|
            0 <= i < j < ps.len() && !named(#[trigger] ps[i]) && !named(#[trigger] ps[j])
                && ps[j].required implies ps[i].required by {
            lemma_each_parameter_ok(cmd, ps, j);
            lemma_scan_records(ps, j);
        }
    }
    assert(positional_repeat_ok(c)) by {
        reveal(positional_repeat_ok);
        assert forall|i: int| 0 <= i < ps.len() && !named(#[trigger] ps[i]) && ps[i].multiple implies (
        (forall|j: int| i < j < ps.len() ==> named(#[trigger] ps[j])) || (exists|j: int|
            i < j < ps.len() && !named(#[trigger] ps[j]) && ps[j].required && !ps[j].multiple
                && forall|k: int| i < k < ps.len() && k != j ==> named(#[trigger] ps[k]))) by {
            assert forall|j: int| i < j < ps.len() implies named(#[trigger] ps[j]) by {
                lemma_each_parameter_ok(cmd, ps, j);
                lemma_scan_records(ps, j);
            }
        }
    }
}

/// No parameter of any command of `cs` takes a name of clap's built-in help flag.
pub open spec fn avoids_help_names(cs: Seq<CommandView>) -> bool {
    forall|k: int, i: int|
        0 <= k < cs.len() && 0 <= i < cs[k].parameters.len() ==> help_free(
            #[trigger] cs[k].parameters[i],
        )
}

/// Commands that keep apart, with nonempty paths, place into the command
/// tree without a problem.
proof fn lemma_tree_scan_ok(cs: Seq<CommandView>)
    requires
        scan_rules_hold(cs),
    ensures
        tree_scan_error(cs) is None,
    decreases cs.len(),
{
    if cs.len() > 0 {
        let prev = cs.drop_last();
        let c = cs.last();
        let n = cs.len() - 1;
        assert forall|k: int| 0 <= k < prev.len() implies command_error(#[trigger] prev[k]) is None by {
            assert(prev[k] == cs[k]);
        }
        assert forall|i: int, j: int| 0 <= i < j < prev.len() implies commands_apart(
            #[trigger] prev[i],
            #[trigger] prev[j],
        ) by {
            assert(prev[i] == cs[i] && prev[j] == cs[j]);
        }
        lemma_tree_scan_ok(prev);
        assert(command_error(cs[n]) is None);
        assert(c.path.len() > 0);
        assert(!ids_of(prev).contains(c.id)) by {
            if ids_of(prev).contains(c.id) {
                let i = choose|i: int| 0 <= i < prev.len() && ids_of(prev)[i] == c.id;
                assert(commands_apart(cs[i], cs[n]));
            }
        }
        assert(!paths_of(prev).contains(c.path)) by {
            if paths_of(prev).contains(c.path) {
                let i = choose|i: int| 0 <= i < prev.len() && paths_of(prev)[i] == c.path;
                assert(commands_apart(cs[i], cs[n]));
            }
        }
    }
}

/// A provider catalog that validates, and whose parameters leave clap's help
/// names alone, projects into clap: its command tree builds, no command path
/// is also a group, every parameter becomes an argument, clap accepts every
/// command (so clap accepts whatever it builds of it, whatever the
/// arguments), and no command has more than 64 parameters: `parse_args` and
/// `parse_line` accept such a catalog with any arguments.
pub proof fn law_validated_catalog_projects_into_clap(cs: Seq<CommandView>)
    requires
        catalog_error(cs) is None,
        avoids_help_names(cs),
    ensures
        tree_scan_error(cs) is None,
        !has_leaf_group(cs),
        !has_arg_error(cs),
        clap_safe(cs),
        forall|args: Seq<Seq<char>>| #[trigger] crate::cli::clap_safe_for(cs, args),
        forall|k: int| 0 <= k < cs.len() ==> (#[trigger] cs[k]).parameters.len() <= 64,
{
    law_catalog_validity(cs);
    lemma_tree_scan_ok(cs);
    assert forall|k: int| 0 <= k < cs.len() implies params_arg_error(#[trigger] cs[k].parameters) is None
        && definition_clap_safe(cs[k]) && cs[k].parameters.len() <= 64 by {
        assert(command_error(cs[k]) is None);
        assert forall|i: int| 0 <= i < cs[k].parameters.len() implies help_free(
            #[trigger] cs[k].parameters[i],
        ) by {}
        lemma_valid_command_projects(cs[k]);
    }
    assert forall|args: Seq<Seq<char>>| #[trigger] crate::cli::clap_safe_for(cs, args) by {
        crate::cli::lemma_clap_safe_for_all(cs, args);
    }
    assert(!has_leaf_group(cs)) by {
        if has_leaf_group(cs) {
            let p = choose|p: Seq<Seq<char>>| is_leaf_group(cs, p);
            let k1 = choose|k: int| 0 <= k < cs.len() && #[trigger] cs[k].path == p;
            let k2 = choose|k: int| 0 <= k < cs.len() && proper_prefix(p, #[trigger] cs[k].path);
            assert(command_error(cs[k1]) is None);
            lemma_proper_prefix_conflict(cs[k1].path, cs[k2].path);
            if k1 < k2 {
                assert(commands_apart(cs[k1], cs[k2]));
            } else {
                assert(commands_apart(cs[k2], cs[k1]));
            }
        }
    }
}

/// Every command of an arranged aggregate catalog is routed with the
/// formats it lists, and the `k`-th route is that of the `k`-th composed
/// command, which the catalog lists: a surface can execute every command the
/// catalog lists, and every routed command is listed.
pub proof fn law_catalog_and_routes_agree(cs: Seq<CommandView>, es: Seq<(usize, CommandView)>)
    requires
        arranged_catalog(cs, es),
    ensures
        forall|c: CommandView|
            cs.contains(c) ==> exists|k: int|
                0 <= k < routes_of(es).len() && (#[trigger] routes_of(es)[k]).id == c.id
                    && routes_of(es)[k].formats == c.output_formats,
        routes_of(es).len() == es.len(),
        forall|k: int|
            0 <= k < es.len() ==> cs.contains(#[trigger] es[k].1) && es[k].1.id == routes_of(
                es,
            )[k].id && es[k].1.output_formats == routes_of(es)[k].formats,
{
    let commands = es.map_values(|e: (usize, CommandView)| e.1);
    assert forall|c: CommandView| cs.contains(c) implies exists|k: int|
        0 <= k < routes_of(es).len() && (#[trigger] routes_of(es)[k]).id == c.id
            && routes_of(es)[k].formats == c.output_formats by {
        assert(commands.contains(c));
        let k = choose|k: int| 0 <= k < commands.len() && commands[k] == c;
        assert(routes_of(es)[k].id == c.id);
    }
    assert forall|k: int| 0 <= k < es.len() implies cs.contains(#[trigger] es[k].1) by {
        assert(commands[k] == es[k].1);
    }
}

/// A command that validates and is parsed asks for an output format that it
/// offers, so the aggregate runtime does not refuse the request for its format.
pub proof fn law_parsed_format_is_offered(
    c: CommandView,
    found: Seq<FoundView>,
    json: bool,
    p: ParsedCommand,
)
    requires
        command_error(c) is None,
        json ==> offers_json(c),
        resolution(c, found, json, p),
    ensures
        c.output_formats.contains(p.output_format),
{
    if !json && !c.output_formats.contains(OutputFormat::Text) {
        let f = c.output_formats[0];
        assert(c.output_formats.contains(f));
        assert(f == OutputFormat::Json);
    }
}

/// The rules of a composition, stated command by command pair: at most 256
/// commands, every two apart.
pub open spec fn composition_rules_hold(es: Seq<(usize, CommandView)>) -> bool {
    &&& es.len() <= 256
    &&& forall|i: int, j: int| 0 <= i < j < es.len() ==> commands_apart(#[trigger] es[i].1, #[trigger] es[j].1)
}

/// The providers' catalogs compose exactly when the composition rules hold
/// pair by pair; in particular, whether activation composes them does not
/// depend on the order of the providers or of their commands.
pub proof fn law_composition_validity(es: Seq<(usize, CommandView)>)
    ensures
        aggregate_error(es) is None <==> composition_rules_hold(es),
    decreases es.len(),
{
    if es.len() > 0 {
        let prev = es.drop_last();
        let e = es.last();
        let n = es.len() - 1;
        law_composition_validity(prev);
        let ids = entry_ids(prev);
        let paths = entry_paths(prev);
        let path = joined_path(e.1.path);
        let apart_from_last = forall|i: int| 0 <= i < prev.len() ==> commands_apart(#[trigger] prev[i].1, e.1);
        assert(aggregate_entry_error(prev, e) is None <==> prev.len() < 256 && apart_from_last) by {
            if prev.len() < 256 && apart_from_last {
                assert(!ids.contains(e.1.id)) by {
                    if ids.contains(e.1.id) {
                        let i = choose|i: int| 0 <= i < ids.len() && ids[i] == e.1.id;
                        assert(commands_apart(prev[i].1, e.1));
                    }
                }
                assert(!(exists|q: Seq<char>| paths.contains(q) && prefix_conflict(q, path))) by {
                    if exists|q: Seq<char>| paths.contains(q) && prefix_conflict(q, path) {
                        let q = choose|q: Seq<char>| paths.contains(q) && prefix_conflict(q, path);
                        let i = choose|i: int| 0 <= i < paths.len() && paths[i] == q;
                        assert(commands_apart(prev[i].1, e.1));
                    }
                }
                assert(!paths.contains(path)) by {
                    if paths.contains(path) {
                        let i = choose|i: int| 0 <= i < paths.len() && paths[i] == path;
                        assert(commands_apart(prev[i].1, e.1));
                    }
                }
            }
            if aggregate_entry_error(prev, e) is None {
                assert forall|i: int| 0 <= i < prev.len() implies commands_apart(#[trigger] prev[i].1, e.1) by {
                    assert(ids[i] == prev[i].1.id);
                    assert(paths[i] == joined_path(prev[i].1.path));
                }
            }
        }
        if composition_rules_hold(es) {
            assert forall|i: int, j: int| 0 <= i < j < prev.len() implies commands_apart(
                #[trigger] prev[i].1,
                #[trigger] prev[j].1,
            ) by {
                assert(prev[i] == es[i] && prev[j] == es[j]);
            }
            assert forall|i: int| 0 <= i < prev.len() implies commands_apart(#[trigger] prev[i].1, e.1) by {
                assert(prev[i] == es[i]);
                assert(commands_apart(es[i].1, es[n].1));
            }
        }
        if aggregate_error(es) is None {
            assert forall|i: int, j: int| 0 <= i < j < es.len() implies commands_apart(
                #[trigger] es[i].1,
                #[trigger] es[j].1,
            ) by {
                assert(prev[i] == es[i]);
                if j < n {
                    assert(prev[j] == es[j]);
                }
            }
        }
    }
}

/// A command that a surface parsed from the aggregate catalog, whose
/// providers' catalogs validated, is routed with a format that it asked
/// for: the runtime forwards it wherever its envelope fits the size limit.
pub proof fn law_parsed_command_is_routable(
    cs: Seq<CommandView>,
    es: Seq<(usize, CommandView)>,
    k: int,
    found: Seq<FoundView>,
    json: bool,
    p: ParsedCommand,
)
    requires
        arranged_catalog(cs, es),
        0 <= k < cs.len(),
        command_error(cs[k]) is None,
        json ==> offers_json(cs[k]),
        resolution(cs[k], found, json, p),
    ensures
        exists|r: int|
            0 <= r < routes_of(es).len() && (#[trigger] routes_of(es)[r]).id == p.id@
                && routes_of(es)[r].formats.contains(p.output_format),
{
    law_catalog_and_routes_agree(cs, es);
    law_parsed_format_is_offered(cs[k], found, json, p);
    assert(cs.contains(cs[k]));
    let commands = es.map_values(|e: (usize, CommandView)| e.1);
    assert(commands.contains(cs[k]));
    let r = choose|r: int| 0 <= r < commands.len() && commands[r] == cs[k];
    assert(routes_of(es)[r].id == p.id@);
}

/// Whether arguments target a catalog made of two catalogs is whether they
/// target either one; no catalog is targeted by nothing.
pub proof fn law_targets_concatenated_catalog(c1: Seq<CommandView>, c2: Seq<CommandView>, args: Seq<Seq<char>>)
    ensures
        targets_catalog(c1 + c2, args) == (targets_catalog(c1, args) || targets_catalog(c2, args)),
        !targets_catalog(Seq::empty(), args),
{
    let c = c1 + c2;
    if targets_catalog(c, args) {
        let k = choose|k: int| 0 <= k < c.len() && targets_path(#[trigger] c[k].path, args);
        if k < c1.len() {
            assert(c1[k] == c[k]);
        } else {
            assert(c2[k - c1.len()] == c[k]);
        }
    }
    if targets_catalog(c1, args) {
        let k = choose|k: int| 0 <= k < c1.len() && targets_path(#[trigger] c1[k].path, args);
        assert(c[k] == c1[k]);
    }
    if targets_catalog(c2, args) {
        let k = choose|k: int| 0 <= k < c2.len() && targets_path(#[trigger] c2[k].path, args);
        assert(c[k + c1.len()] == c2[k]);
    }
}

/// Arguments that start with the whole path of a catalog command (whose
/// last segment is no help request) still target the catalog after more
/// arguments are appended.
pub proof fn law_targeting_survives_more_arguments(
    cs: Seq<CommandView>,
    args: Seq<Seq<char>>,
    k: int,
    extra: Seq<Seq<char>>,
)
    requires
        0 <= k < cs.len(),
        cs[k].path.len() >= 1,
        args.len() >= cs[k].path.len(),
        args.subrange(0, cs[k].path.len() as int) == cs[k].path,
        !is_help_token(cs[k].path.last()),
    ensures
        targets_catalog(cs, args + extra),
{
    let all = args + extra;
    let p = cs[k].path;
    assert(all.subrange(0, p.len() as int) =~= args.subrange(0, p.len() as int));
    assert(targets_path(cs[k].path, all));
    if all.len() == p.len() {
        assert(all.last() == all.subrange(0, p.len() as int)[p.len() - 1]);
        assert(group_arguments(all) == all);
    }
    assert(group_arguments(all).len() > 0);
}

/// Appending a help request (`--help` or `-h`) to arguments that do not
/// end with one does not change whether they target the catalog, where no
/// command path holds a help request as a segment.
pub proof fn law_help_request_keeps_the_match(cs: Seq<CommandView>, args: Seq<Seq<char>>, help: Seq<char>)
    requires
        is_help_token(help),
        args.len() > 0,
        !is_help_token(args.last()),
        forall|k: int, i: int|
            0 <= k < cs.len() && 0 <= i < cs[k].path.len() ==> !is_help_token(#[trigger] cs[k].path[i]),
    ensures
        targets_catalog(cs, args.push(help)) == targets_catalog(cs, args),
{
    let pushed = args.push(help);
    assert(pushed.drop_last() =~= args);
    assert(group_arguments(pushed) == args);
    assert(group_arguments(args) == args);
    if targets_catalog(cs, pushed) {
        let k = choose|k: int| 0 <= k < cs.len() && targets_path(#[trigger] cs[k].path, pushed);
        let p = cs[k].path;
        if pushed.len() >= p.len() && pushed.subrange(0, p.len() as int) == p {
            if p.len() == pushed.len() {
                assert(p[p.len() - 1] == pushed.subrange(0, p.len() as int)[p.len() - 1]);
                assert(!is_help_token(cs[k].path[p.len() - 1]));
                assert(false);
            }
            assert(args.subrange(0, p.len() as int) =~= pushed.subrange(0, p.len() as int));
        }
        assert(targets_path(cs[k].path, args));
    }
    if targets_catalog(cs, args) {
        let k = choose|k: int| 0 <= k < cs.len() && targets_path(#[trigger] cs[k].path, args);
        let p = cs[k].path;
        if args.len() >= p.len() && args.subrange(0, p.len() as int) == p {
            assert(pushed.subrange(0, p.len() as int) =~= args.subrange(0, p.len() as int));
        }
        assert(targets_path(cs[k].path, pushed));
    }
}

/// `cs2` holds the commands of `cs` in another order: its `i`-th command is
/// the `perm[i]`-th of `cs`, and `perm` takes every position once.
pub open spec fn reorders(cs2: Seq<CommandView>, cs: Seq<CommandView>, perm: Seq<int>) -> bool {
    &&& perm.len() == cs.len()
    &&& cs2.len() == cs.len()
    &&& forall|i: int| 0 <= i < cs.len() ==> 0 <= #[trigger] perm[i] < cs.len() && cs2[i] == cs[perm[i]]
    &&& forall|i: int, j: int| 0 <= i < j < cs.len() ==> #[trigger] perm[i] != #[trigger] perm[j]
    &&& forall|k: int| 0 <= k < cs.len() ==> #[trigger] taken(perm, k)
}

/// Some position of `perm` holds `k`.
pub open spec fn taken(perm: Seq<int>, k: int) -> bool {
    exists|i: int| 0 <= i < perm.len() && #[trigger] perm[i] == k
}

proof fn lemma_apart_symmetric(a: CommandView, b: CommandView)
    requires
        commands_apart(a, b),
    ensures
        commands_apart(b, a),
{
}

proof fn lemma_rules_reordered(cs: Seq<CommandView>, cs2: Seq<CommandView>, perm: Seq<int>)
    requires
        reorders(cs2, cs, perm),
        scan_rules_hold(cs),
    ensures
        scan_rules_hold(cs2),
{
    assert forall|k: int| 0 <= k < cs2.len() implies command_error(#[trigger] cs2[k]) is None by {
        assert(cs2[k] == cs[perm[k]]);
    }
    assert forall|i: int, j: int| 0 <= i < j < cs2.len() implies commands_apart(#[trigger] cs2[i], #[trigger] cs2[j]) by {
        let a = perm[i];
        let b = perm[j];
        assert(a != b);
        if a < b {
            assert(commands_apart(cs[a], cs[b]));
        } else {
            assert(commands_apart(cs[b], cs[a]));
            lemma_apart_symmetric(cs[b], cs[a]);
        }
    }
}

/// Whether a provider catalog validates does not depend on the order of its
/// commands.
pub proof fn law_validation_ignores_order(cs: Seq<CommandView>, cs2: Seq<CommandView>, perm: Seq<int>)
    requires
        reorders(cs2, cs, perm),
    ensures
        (catalog_error(cs) is None) == (catalog_error(cs2) is None),
{
    law_catalog_validity(cs);
    law_catalog_validity(cs2);
    if scan_rules_hold(cs) {
        lemma_rules_reordered(cs, cs2, perm);
    }
    if scan_rules_hold(cs2) {
        assert forall|k: int| 0 <= k < cs.len() implies command_error(#[trigger] cs[k]) is None by {
            assert(taken(perm, k));
            let i = choose|i: int| 0 <= i < cs.len() && #[trigger] perm[i] == k;
            assert(cs2[i] == cs[k]);
        }
        assert forall|a: int, b: int| 0 <= a < b < cs.len() implies commands_apart(#[trigger] cs[a], #[trigger] cs[b]) by {
            assert(taken(perm, a) && taken(perm, b));
            let i = choose|i: int| 0 <= i < cs.len() && #[trigger] perm[i] == a;
            let j = choose|j: int| 0 <= j < cs.len() && #[trigger] perm[j] == b;
            assert(cs2[i] == cs[a] && cs2[j] == cs[b]);
            if i < j {
                assert(commands_apart(cs2[i], cs2[j]));
            } else {
                assert(i != j);
                assert(commands_apart(cs2[j], cs2[i]));
                lemma_apart_symmetric(cs2[j], cs2[i]);
            }
        }
    }
}

// ---------------------------------------------------------------------------
// What single operations answer, over all inputs
// ---------------------------------------------------------------------------

/// The command id rule spelled out: a letter `a`-`z` first, at most 128
/// characters, and after the first only letters `a`-`z`, digits `0`-`9`,
/// `.`, `_` and `-`.
pub open spec fn command_id_rule(id: Seq<char>) -> bool {
    &&& 1 <= id.len() <= 128
    &&& 'a' <= id[0] && id[0] <= 'z'
    &&& forall|i: int|
        1 <= i < id.len() ==> ('a' <= #[trigger] id[i] && id[i] <= 'z') || ('0' <= id[i] && id[i]
            <= '9') || id[i] == '.' || id[i] == '_' || id[i] == '-'
}

/// `a + x` and `b + y` differ where `a` and `b` differ at a position both have.
proof fn lemma_texts_differ(a: Seq<char>, x: Seq<char>, b: Seq<char>, y: Seq<char>, j: int)
    requires
        0 <= j < a.len(),
        j < b.len(),
        a[j] != b[j],
    ensures
        a + x != b + y,
{
    assert((a + x)[j] == a[j]);
    assert((b + y)[j] == b[j]);
}

/// What a parameter problem reports starts otherwise than `invalid`.
proof fn lemma_parameter_message_start(cmd: Seq<char>, p: ParameterView, sc: crate::catalog::ParameterScan)
    ensures
        parameter_error(cmd, p, sc) matches Some(m) ==> m.len() > 0 && m[0] != 'i',
{
    reveal_strlit("command `");
    reveal_strlit("parameter `");
    reveal_strlit("positional parameter `");
    reveal_strlit("required positional `");
    reveal_strlit("positional `");
    reveal_strlit("option `");
    reveal_strlit("flag `");
    if let Some(m) = parameter_error(cmd, p, sc) {
        let starts = seq!['c', 'p', 'r', 'o', 'f'];
        assert(m.len() > 0 && starts.contains(m[0]));
    }
}

/// What the parameters of a command report starts otherwise than `invalid`.
proof fn lemma_parameters_message_start(cmd: Seq<char>, ps: Seq<ParameterView>)
    ensures
        crate::catalog::parameters_error(cmd, ps) matches Some(m) ==> m.len() > 0 && m[0] != 'i',
{
    reveal_strlit("command `");
    lemma_parameters_scan_message_start(cmd, ps);
}

proof fn lemma_parameters_scan_message_start(cmd: Seq<char>, ps: Seq<ParameterView>)
    ensures
        parameters_scan_error(cmd, ps) matches Some(m) ==> m.len() > 0 && m[0] != 'i',
    decreases ps.len(),
{
    if ps.len() > 0 {
        lemma_parameters_scan_message_start(cmd, ps.drop_last());
        lemma_parameter_message_start(cmd, ps.last(), scan_of(ps.drop_last()));
    }
}

/// Validating a command reports its id as invalid exactly when the id
/// breaks the command id rule: ids made of lowercase letters, digits, `.`,
/// `_` and `-` after a first lowercase letter, up to 128 characters, pass.
pub proof fn law_command_id_rule(c: CommandView)
    ensures
        !command_id_rule(c.id) ==> command_error(c) == Some(crate::catalog::msg_invalid_id(c.id)),
        command_id_rule(c.id) ==> command_error(c) != Some(crate::catalog::msg_invalid_id(c.id)),
{
    let punct = seq!['.', '_', '-'];
    assert forall|x: char| punct.contains(x) <==> (x == '.' || x == '_' || x == '-') by {
        if x == '.' {
            assert(punct[0] == x);
        } else if x == '_' {
            assert(punct[1] == x);
        } else if x == '-' {
            assert(punct[2] == x);
        }
    }
    assert(crate::catalog::identifier_ok(c.id, 128, punct) <==> command_id_rule(c.id));
    if command_id_rule(c.id) {
        reveal_strlit("invalid command id `");
        reveal_strlit("invalid command path `");
        reveal_strlit("invalid metadata for command `");
        reveal_strlit("command `");
        let id_msg = crate::catalog::msg_invalid_id(c.id);
        assert(id_msg.len() > 16 && id_msg[0] == 'i' && id_msg[8] == 'c' && id_msg[16] == 'i');
        match command_error(c) {
            Some(m) => {
                lemma_parameters_message_start(c.id, c.parameters);
                assert(m.len() > 16 ==> (m[0] != 'i' || m[8] != 'c' || m[16] != 'i'));
                if m == id_msg {
                    assert(false);
                }
            },
            None => {},
        }
    }
}

/// Whether `v` was found for parameter `p` in `f`: one of the values of a
/// parameter that takes several, or the value of one that takes one.
pub open spec fn found_value(p: ParameterView, f: FoundView, v: Seq<char>) -> bool {
    &&& p.kind != crate::contract::ParameterKind::Flag
    &&& if p.multiple {
        f matches FoundView::Many(Some(vs)) && vs.contains(v)
    } else {
        f == FoundView::One(Some(v))
    }
}

/// A value found for a parameter with choices that is not one of them makes
/// resolving the command an error, whichever other values are found: every
/// value given for such a parameter is checked.
pub proof fn law_every_value_is_checked_against_the_choices(
    ps: Seq<ParameterView>,
    found: Seq<FoundView>,
    i: int,
    v: Seq<char>,
)
    requires
        0 <= i < ps.len(),
        ps[i].choices.len() > 0,
        found_value(ps[i], crate::cli::found_at(found, i), v),
        !ps[i].choices.contains(v),
    ensures
        crate::cli::collected(ps, found) is Err,
    decreases ps.len(),
{
    if i < ps.len() - 1 {
        assert(ps.drop_last()[i] == ps[i]);
        law_every_value_is_checked_against_the_choices(ps.drop_last(), found, i, v);
    } else if crate::cli::collected(ps.drop_last(), found) is Ok {
        let f = crate::cli::found_at(found, i);
        if ps[i].multiple {
            let vs = f->Many_0->0;
            let k = choose|k: int| 0 <= k < vs.len() && vs[k] == v;
            assert(!crate::cli::values_allowed(ps[i].choices, vs));
        } else {
            assert(!crate::cli::values_allowed(ps[i].choices, seq![v])) by {
                assert(seq![v][0] == v);
            }
        }
    }
}

/// Resolving a command succeeds only where every value found for a
/// parameter with choices is one of them.
pub proof fn law_resolved_values_are_choices(ps: Seq<ParameterView>, found: Seq<FoundView>)
    requires
        crate::cli::collected(ps, found) is Ok,
    ensures
        forall|i: int, v: Seq<char>|
            0 <= i < ps.len() && ps[i].choices.len() > 0 && #[trigger] found_value(
                ps[i],
                crate::cli::found_at(found, i),
                v,
            ) ==> ps[i].choices.contains(v),
{
    assert forall|i: int, v: Seq<char>|
        0 <= i < ps.len() && ps[i].choices.len() > 0 && #[trigger] found_value(
            ps[i],
            crate::cli::found_at(found, i),
            v,
        ) implies ps[i].choices.contains(v) by {
        if !ps[i].choices.contains(v) {
            law_every_value_is_checked_against_the_choices(ps, found, i, v);
        }
    }
}

/// An unknown provider error within the role's bounds becomes an execution
/// failure that carries the provider's code as its reason, the fixed
/// message, and the provider's payload itself as details (an empty JSON
/// object where it sent none); outside the bounds it is a protocol
/// violation.
pub proof fn law_unknown_error_keeps_its_payload(
    code: String,
    payload_json: Option<String>,
    r: Result<crate::contract::ExecuteError, crate::runtime::RuntimeFailure>,
)
    requires
        crate::runtime::error_conversion(
            crate::runtime::ProviderExecuteError::Unknown { code, payload_json },
            r,
        ),
    ensures
        payload_json matches Some(p) ==> (1 <= code@.len() <= 128 && p@.len() <= 65536 ==> (
        r matches Ok(crate::contract::ExecuteError::ExecutionFailed { payload: q })
            && q.reason_code@ == code@ && q.details_json@ == p@
            && q.message@ == "terminal command provider returned an unknown domain error"@)),
        payload_json is None && 1 <= code@.len() <= 128 ==> (r matches Ok(
            crate::contract::ExecuteError::ExecutionFailed { payload: q },
        ) && q.reason_code@ == code@ && q.details_json@ == "{}"@),
        code@.len() == 0 || code@.len() > 128 || (payload_json is Some
            && payload_json->0@.len() > 65536) ==> r == Err::<crate::contract::ExecuteError, crate::runtime::RuntimeFailure>(
            crate::runtime::RuntimeFailure::ProtocolViolation {
                capability: crate::runtime::Capability::TerminalCommandProvider,
            },
        ),
{
    reveal_strlit("{}");
}

/// A provider output chunk that claims JSON but does not parse as JSON, of
/// whatever kind, or that is longer than 1048576 characters, is a protocol
/// violation; any other chunk is forwarded unchanged.
pub proof fn law_output_chunks_are_checked(
    m: crate::contract::ExecuteMessage,
    r: Result<crate::contract::ExecuteMessage, crate::runtime::RuntimeFailure>,
)
    requires
        crate::runtime::message_conversion(m, r),
    ensures
        (m.content_type == crate::contract::ContentType::Json && !crate::json::parses_as_json(
            m.content@,
        )) || m.content@.len() > 1048576 ==> r == Err::<
            crate::contract::ExecuteMessage,
            crate::runtime::RuntimeFailure,
        >(
            crate::runtime::RuntimeFailure::ProtocolViolation {
                capability: crate::runtime::Capability::TerminalCommandProvider,
            },
        ),
        m.content@.len() <= 1048576 && (m.content_type == crate::contract::ContentType::Text
            || crate::json::parses_as_json(m.content@)) ==> (r matches Ok(f) && f.kind == m.kind
            && f.content_type == m.content_type && f.content@ == m.content@),
{
}

/// The description clap gets for a command collects every value of an
/// option or positional parameter that takes several (`Append`), keeps one
/// value of one that does not, and makes a flag a switch (`SetTrue`); an
/// option is found by its long name, a positional parameter takes one or
/// more values exactly when it takes several.
pub proof fn law_repeated_parameters_collect_every_value(c: CommandView, i: int)
    requires
        params_arg_error(c.parameters) is None,
        c.parameters.len() < usize::MAX,
        0 <= i < c.parameters.len(),
    ensures
        ({
            let p = c.parameters[i];
            let a = crate::cli::command_args(c)[i];
            &&& a.id == p.id
            &&& p.kind == crate::contract::ParameterKind::Flag ==> a.action == Some(
                crate::cli::CliAction::SetTrue,
            )
            &&& p.kind != crate::contract::ParameterKind::Flag ==> (a.action == Some(
                crate::cli::CliAction::Append,
            ) <==> p.multiple) && a.action != Some(crate::cli::CliAction::SetTrue)
            &&& p.kind == crate::contract::ParameterKind::Option ==> a.index is None && a.long
                == present(p.long) && !a.at_least_one
            &&& p.kind == crate::contract::ParameterKind::Positional ==> a.index is Some
                && a.long is None && (a.at_least_one <==> p.multiple)
        }),
{
    reveal(crate::cli::command_args);
}

/// The command path rule spelled out: one to eight segments, each a letter
/// `a`-`z` first, at most 64 characters, and after the first only letters
/// `a`-`z`, digits `0`-`9` and `-`.
pub open spec fn command_path_rule(path: Seq<Seq<char>>) -> bool {
    &&& 1 <= path.len() <= 8
    &&& forall|k: int|
        0 <= k < path.len() ==> {
            let seg = #[trigger] path[k];
            &&& 1 <= seg.len() <= 64
            &&& 'a' <= seg[0] && seg[0] <= 'z'
            &&& forall|i: int|
                1 <= i < seg.len() ==> ('a' <= #[trigger] seg[i] && seg[i] <= 'z') || ('0' <= seg[i]
                    && seg[i] <= '9') || seg[i] == '-'
        }
}

/// Validating a command with a valid id reports its path as invalid
/// exactly when the path breaks the command path rule.
pub proof fn law_command_path_rule(c: CommandView)
    requires
        command_id_rule(c.id),
    ensures
        !command_path_rule(c.path) ==> command_error(c) == Some(
            crate::catalog::msg_invalid_path(joined_path(c.path)),
        ),
        command_path_rule(c.path) ==> command_error(c) != Some(
            crate::catalog::msg_invalid_path(joined_path(c.path)),
        ),
{
    law_command_id_rule(c);
    let punct = seq!['.', '_', '-'];
    assert forall|x: char| punct.contains(x) <==> (x == '.' || x == '_' || x == '-') by {
        if x == '.' {
            assert(punct[0] == x);
        } else if x == '_' {
            assert(punct[1] == x);
        } else if x == '-' {
            assert(punct[2] == x);
        }
    }
    assert(crate::catalog::identifier_ok(c.id, 128, punct));
    let dash = seq!['-'];
    assert forall|x: char| dash.contains(x) <==> x == '-' by {
        if x == '-' {
            assert(dash[0] == x);
        }
    }
    assert(crate::catalog::path_ok(c.path) <==> command_path_rule(c.path)) by {
        if command_path_rule(c.path) {
            assert forall|k: int| 0 <= k < c.path.len() implies crate::catalog::identifier_ok(
                #[trigger] c.path[k],
                64,
                dash,
            ) by {
                let seg = c.path[k];
                assert(forall|i: int| 1 <= i < seg.len() ==> (#[trigger] seg[i] == '-' ==> dash.contains(seg[i])));
            }
        }
        if crate::catalog::path_ok(c.path) {
            assert forall|k: int| 0 <= k < c.path.len() implies {
                let seg = #[trigger] c.path[k];
                &&& 1 <= seg.len() <= 64
                &&& 'a' <= seg[0] && seg[0] <= 'z'
                &&& forall|i: int|
                    1 <= i < seg.len() ==> ('a' <= #[trigger] seg[i] && seg[i] <= 'z') || ('0'
                        <= seg[i] && seg[i] <= '9') || seg[i] == '-'
            } by {
                assert(crate::catalog::identifier_ok(c.path[k], 64, dash));
            }
        }
    }
    if command_path_rule(c.path) {
        reveal_strlit("invalid command path `");
        reveal_strlit("invalid metadata for command `");
        reveal_strlit("command `");
        let path_msg = crate::catalog::msg_invalid_path(joined_path(c.path));
        assert(path_msg.len() > 16 && path_msg[0] == 'i' && path_msg[8] == 'c' && path_msg[16]
            == 'p');
        match command_error(c) {
            Some(m) => {
                lemma_parameters_message_start(c.id, c.parameters);
                assert(m.len() > 16 ==> (m[0] != 'i' || m[8] != 'c' || m[16] != 'p'));
                if m == path_msg {
                    assert(false);
                }
            },
            None => {},
        }
    }
}

/// An entry that the `i`-th parameter contributes is in what the
/// parameters resolve to, where they resolve.
proof fn lemma_entry_kept(
    ps: Seq<ParameterView>,
    found: Seq<FoundView>,
    i: int,
    e: (Seq<char>, crate::json::JsonArgumentView),
)
    requires
        0 <= i < ps.len(),
        crate::cli::entry_for(ps[i], crate::cli::found_at(found, i)) == Ok::<
            Option<(Seq<char>, crate::json::JsonArgumentView)>,
            Seq<char>,
        >(Some(e)),
        crate::cli::collected(ps, found) is Ok,
    ensures
        crate::cli::collected(ps, found)->Ok_0.contains(e),
    decreases ps.len(),
{
    let prev = ps.drop_last();
    if crate::cli::collected(prev, found) is Err {
        assert(false);
    }
    let es0 = crate::cli::collected(prev, found)->Ok_0;
    if i < ps.len() - 1 {
        assert(prev[i] == ps[i]);
        lemma_entry_kept(prev, found, i, e);
        let k = choose|k: int| 0 <= k < es0.len() && es0[k] == e;
        match crate::cli::entry_for(ps.last(), crate::cli::found_at(found, ps.len() - 1)) {
            Ok(Some(x)) => {
                assert(es0.push(x)[k] == e);
            },
            _ => {},
        }
    } else {
        assert(es0.push(e)[es0.len() as int] == e);
    }
}

/// Every value clap reports for a parameter reaches the argument envelope:
/// a parameter that takes several values gets the list of all of them, one
/// that takes one value gets the first reported, and a flag is present
/// exactly when clap reports it given.
pub proof fn law_reported_values_reach_the_envelope(
    ps: Seq<ParameterView>,
    values: Seq<(Seq<char>, Seq<Seq<char>>)>,
    i: int,
)
    requires
        0 <= i < ps.len(),
        crate::cli::collected(ps, crate::parse::found_for(ps, values)) is Ok,
    ensures
        ({
            let es = crate::cli::collected(ps, crate::parse::found_for(ps, values))->Ok_0;
            let p = ps[i];
            &&& p.kind != crate::contract::ParameterKind::Flag && p.multiple ==> (
            crate::parse::raw_lookup(values, p.id) matches Some(vs) ==> es.contains(
                (p.id, crate::json::JsonArgumentView::List(vs)),
            ))
            &&& p.kind != crate::contract::ParameterKind::Flag && !p.multiple ==> (
            crate::parse::raw_lookup(values, p.id) matches Some(vs) ==> (vs.len() > 0 ==> es.contains(
                (p.id, crate::json::JsonArgumentView::Text(vs[0])),
            )))
            &&& p.kind == crate::contract::ParameterKind::Flag ==> (crate::parse::raw_lookup(
                values,
                p.id,
            ) == Some(seq!["true"@]) ==> es.contains((p.id, crate::json::JsonArgumentView::Flag)))
        }),
{
    let found = crate::parse::found_for(ps, values);
    let p = ps[i];
    assert(crate::cli::found_at(found, i) == crate::parse::found_from(p, values));
    match crate::cli::entry_for(p, crate::cli::found_at(found, i)) {
        Ok(Some(e)) => {
            lemma_entry_kept(ps, found, i, e);
        },
        Ok(None) => {},
        Err(_) => {
            lemma_collected_error_from_entry(ps, found, i);
        },
    }
}

/// A parameter whose entry is an error makes resolving the parameters an error.
proof fn lemma_collected_error_from_entry(ps: Seq<ParameterView>, found: Seq<FoundView>, i: int)
    requires
        0 <= i < ps.len(),
        crate::cli::entry_for(ps[i], crate::cli::found_at(found, i)) is Err,
    ensures
        crate::cli::collected(ps, found) is Err,
    decreases ps.len(),
{
    if i < ps.len() - 1 {
        assert(ps.drop_last()[i] == ps[i]);
        lemma_collected_error_from_entry(ps.drop_last(), found, i);
    }
}

} // verus!
