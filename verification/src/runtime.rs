//! The aggregate terminal command runtime: composing the validated catalogs of
//! every provider into one routed catalog, and the checks it applies to
//! requests, provider output and provider errors.

use vstd::prelude::*;
use vstd::string::StrSliceExecFns;

use crate::catalog::{least_conflict, prefix_conflict, validate_catalog, catalog_error};
use crate::contract::{
    catalog_view, strings_view, CatalogResponse, CommandDefinition, CommandView, ContentType,
    ExecuteError, ExecuteMessage, ExecuteOpen, ExecutionFailedPayload, OutputFormat,
};
use crate::json::{is_json, is_json_object, parses_as_json, parses_as_json_object};
use crate::text::{decimal, decimal_text};
use crate::text::{
    concat3, concat5, concat7, join_path, joined_path, lemma_segments_order, lemma_text_order,
    segments_less, segments_lt, text_equal, text_less, text_lt,
};

verus! {

/// Maximum number of commands in the aggregate catalog.
pub const MAX_AGGREGATE_COMMANDS: usize = 256;

/// The role whose protocol a failure concerns.
#[derive(Clone, Copy, Debug, PartialEq, Eq, Structural)]
pub enum Capability {
    /// The validated terminal command role this runtime provides.
    TerminalCommand,
    /// The command provider role that feature plugins implement.
    TerminalCommandProvider,
}

/// Why the runtime could not serve a request or activate.
#[derive(Clone, Debug, PartialEq, Eq)]
pub enum RuntimeFailure {
    Unavailable { capability: Capability },
    PluginFailure { detail: String },
    InvalidResolvedPlan { detail: String },
    ProtocolViolation { capability: Capability },
}

/// Where one command of the aggregate catalog is served.
#[derive(Clone, Debug)]
pub struct Route {
    pub provider_index: usize,
    pub formats: Vec<OutputFormat>,
}

/// One routed command id.
#[derive(Clone, Debug)]
pub struct RouteEntry {
    pub id: String,
    pub route: Route,
}

/// The model of one routed command id: the id, its provider and its formats.
pub struct RouteView {
    pub id: Seq<char>,
    pub provider_index: usize,
    pub formats: Seq<OutputFormat>,
}

/// The composed catalog and the route of each command id.
#[derive(Debug)]
pub struct RuntimeState {
    catalog: Vec<CommandDefinition>,
    routes: Vec<RouteEntry>,
}

impl RuntimeState {
    #[verifier::type_invariant]
    spec fn routes_distinct(&self) -> bool {
        forall|a: int, b: int|
            0 <= a < self.routes@.len() && 0 <= b < self.routes@.len() && a != b
                ==> #[trigger] self.routes@[a].id@ != #[trigger] self.routes@[b].id@
    }

    /// The commands of the aggregate catalog, in order.
    pub closed spec fn catalog_view(&self) -> Seq<CommandView> {
        catalog_view(self.catalog@)
    }

    /// The routes, one per command id.
    pub closed spec fn routes_view(&self) -> Seq<RouteView> {
        self.routes@.map_values(
            |e: RouteEntry|
                RouteView {
                    id: e.id@,
                    provider_index: e.route.provider_index,
                    formats: e.route.formats@,
                },
        )
    }

    /// How many command ids are routed.
    pub fn route_count(&self) -> (r: usize)
        ensures
            r == self.routes_view().len(),
    {
        self.routes.len()
    }

    /// The route of command `id`, if it is routed.
    pub fn route(&self, id: &str) -> (r: Option<&Route>)
        ensures
            r is None <==> !(exists|k: int|
                0 <= k < self.routes_view().len() && #[trigger] self.routes_view()[k].id == id@),
            r matches Some(route) ==> exists|k: int|
                0 <= k < self.routes_view().len() && #[trigger] self.routes_view()[k].id == id@
                    && self.routes_view()[k].provider_index == route.provider_index
                    && self.routes_view()[k].formats == route.formats@,
    {
        let mut i: usize = 0;
        while i < self.routes.len()
            invariant
                i <= self.routes.len(),
                forall|k: int| 0 <= k < i ==> self.routes@[k].id@ != id@,
            decreases self.routes.len() - i,
        {
            if text_equal(self.routes[i].id.as_str(), id) {
                assert(self.routes_view()[i as int].id == id@);
                return Some(&self.routes[i].route);
            }
            i = i + 1;
        }
        proof {
            assert forall|k: int| 0 <= k < self.routes_view().len() implies #[trigger] self.routes_view()[k].id
                != id@ by {
                assert(self.routes_view()[k].id == self.routes@[k].id@);
            }
        }
        None
    }

    /// Whether command `id` is routed.
    pub fn has_route(&self, id: &str) -> (r: bool)
        ensures
            r == exists|k: int|
                0 <= k < self.routes_view().len() && #[trigger] self.routes_view()[k].id == id@,
    {
        self.route(id).is_some()
    }

    /// The aggregate catalog.
    pub fn catalog(&self) -> (r: &Vec<CommandDefinition>)
        ensures
            catalog_view(r@) == self.catalog_view(),
    {
        &self.catalog
    }
}

// ---------------------------------------------------------------------------
// Composition rules
// ---------------------------------------------------------------------------

/// The commands of every provider, in provider order, each with its provider.
pub open spec fn flatten_catalogs(pcs: Seq<(usize, Vec<CommandDefinition>)>) -> Seq<
    (usize, CommandView),
>
    decreases pcs.len(),
{
    if pcs.len() == 0 {
        Seq::empty()
    } else {
        flatten_catalogs(pcs.drop_last()) + pcs.last().1@.map_values(
            |c: CommandDefinition| (pcs.last().0, c@),
        )
    }
}

pub open spec fn entry_ids(es: Seq<(usize, CommandView)>) -> Seq<Seq<char>> {
    es.map_values(|e: (usize, CommandView)| e.1.id)
}

pub open spec fn entry_paths(es: Seq<(usize, CommandView)>) -> Seq<Seq<char>> {
    es.map_values(|e: (usize, CommandView)| joined_path(e.1.path))
}

/// The id of the command of `es` whose joined path is `path`.
pub open spec fn owner_of(es: Seq<(usize, CommandView)>, path: Seq<char>) -> Seq<char> {
    es[choose|k: int| 0 <= k < es.len() && joined_path(es[k].1.path) == path].1.id
}

pub open spec fn msg_aggregate_limit() -> Seq<char> {
    "aggregate terminal catalog exceeds 256 commands"@
}

pub open spec fn msg_aggregate_duplicate_id(id: Seq<char>) -> Seq<char> {
    "duplicate terminal command id `"@ + id + "`"@
}

pub open spec fn msg_aggregate_conflict(path: Seq<char>, existing: Seq<char>, owner: Seq<char>) -> Seq<
    char,
> {
    "terminal command path `"@ + path + "` conflicts with group `"@ + existing + "` owned by `"@
        + owner + "`"@
}

pub open spec fn msg_aggregate_duplicate_path(
    path: Seq<char>,
    existing: Seq<char>,
    id: Seq<char>,
) -> Seq<char> {
    "duplicate terminal command path `"@ + path + "` for `"@ + existing + "` and `"@ + id + "`"@
}

/// The first problem with adding command `e`, given the commands added before it.
pub open spec fn aggregate_entry_error(prev: Seq<(usize, CommandView)>, e: (usize, CommandView)) -> Option<
    Seq<char>,
> {
    let path = joined_path(e.1.path);
    let paths = entry_paths(prev);
    if prev.len() >= 256 {
        Some(msg_aggregate_limit())
    } else if entry_ids(prev).contains(e.1.id) {
        Some(msg_aggregate_duplicate_id(e.1.id))
    } else if exists|q: Seq<char>| paths.contains(q) && prefix_conflict(q, path) {
        let m = choose|m: Seq<char>| least_conflict(paths, path, m);
        Some(msg_aggregate_conflict(path, m, owner_of(prev, m)))
    } else if paths.contains(path) {
        Some(msg_aggregate_duplicate_path(path, owner_of(prev, path), e.1.id))
    } else {
        None
    }
}

/// The first problem with composing the commands `es`, taken in order.
pub open spec fn aggregate_error(es: Seq<(usize, CommandView)>) -> Option<Seq<char>>
    decreases es.len(),
{
    if es.len() == 0 {
        None
    } else {
        match aggregate_error(es.drop_last()) {
            Some(m) => Some(m),
            None => aggregate_entry_error(es.drop_last(), es.last()),
        }
    }
}

/// The order of the aggregate catalog: by path, then by id.
pub open spec fn command_before(a: CommandView, b: CommandView) -> bool {
    segments_lt(a.path, b.path) || (a.path == b.path && text_lt(a.id, b.id))
}

/// `cs` is in strictly increasing catalog order.
pub open spec fn sorted_catalog(cs: Seq<CommandView>) -> bool {
    forall|i: int, j: int| 0 <= i < j < cs.len() ==> command_before(cs[i], cs[j])
}

/// The routes that composing `es` yields, in composition order.
pub open spec fn routes_of(es: Seq<(usize, CommandView)>) -> Seq<RouteView> {
    es.map_values(
        |e: (usize, CommandView)|
            RouteView { id: e.1.id, provider_index: e.0, formats: e.1.output_formats },
    )
}

/// `cs` holds exactly the commands of `es`, in catalog order.
pub open spec fn arranged_catalog(cs: Seq<CommandView>, es: Seq<(usize, CommandView)>) -> bool {
    &&& cs.len() == es.len()
    &&& forall|c: CommandView|
        cs.contains(c) <==> es.map_values(|e: (usize, CommandView)| e.1).contains(c)
    &&& sorted_catalog(cs)
}

pub(crate) proof fn lemma_command_order(a: CommandView, b: CommandView, c: CommandView)
    ensures
        !command_before(a, a),
        command_before(a, b) && command_before(b, c) ==> command_before(a, c),
        a.id != b.id ==> command_before(a, b) || command_before(b, a),
        !(command_before(a, b) && command_before(b, a)),
{
    lemma_segments_order(a.path, b.path, c.path);
    lemma_segments_order(a.path, a.path, a.path);
    lemma_segments_order(b.path, a.path, c.path);
    lemma_text_order(a.id, b.id, c.id);
    lemma_text_order(a.id, a.id, a.id);
    lemma_text_order(b.id, a.id, c.id);
}

proof fn lemma_aggregate_error_persists(es: Seq<(usize, CommandView)>, j: int)
    requires
        0 <= j <= es.len(),
        aggregate_error(es.subrange(0, j)) is Some,
    ensures
        aggregate_error(es) == aggregate_error(es.subrange(0, j)),
    decreases es.len() - j,
{
    if j == es.len() {
        assert(es.subrange(0, j) =~= es);
    } else {
        assert(es.subrange(0, j + 1).drop_last() =~= es.subrange(0, j));
        lemma_aggregate_error_persists(es, j + 1);
    }
}

// ---------------------------------------------------------------------------
// Composition
// ---------------------------------------------------------------------------

/// What has been composed so far: the commands in composition order, their
/// joined paths, and their routes.
struct Composition {
    catalog: Vec<CommandDefinition>,
    paths: Vec<String>,
    routes: Vec<RouteEntry>,
}

impl Composition {
    spec fn models(&self, es: Seq<(usize, CommandView)>) -> bool {
        &&& catalog_view(self.catalog@) == es.map_values(|e: (usize, CommandView)| e.1)
        &&& strings_view(self.paths@) == entry_paths(es)
        &&& self.routes@.map_values(
            |e: RouteEntry|
                RouteView {
                    id: e.id@,
                    provider_index: e.route.provider_index,
                    formats: e.route.formats@,
                },
        ) == routes_of(es)
        &&& entry_ids(es).no_duplicates()
        &&& entry_paths(es).no_duplicates()
        &&& es.len() <= 256
    }
}

/// The position of the route entry whose id is `id`, if any.
fn find_route(routes: &Vec<RouteEntry>, id: &str) -> (r: Option<usize>)
    ensures
        r is None <==> forall|k: int| 0 <= k < routes@.len() ==> routes@[k].id@ != id@,
        r matches Some(k) ==> k < routes@.len() && routes@[k as int].id@ == id@,
{
    let mut i: usize = 0;
    while i < routes.len()
        invariant
            i <= routes.len(),
            forall|k: int| 0 <= k < i ==> routes@[k].id@ != id@,
        decreases routes.len() - i,
    {
        if text_equal(routes[i].id.as_str(), id) {
            return Some(i);
        }
        i = i + 1;
    }
    None
}

/// The position of the string in `v` equal to `s`, if any.
fn find_string(v: &Vec<String>, s: &str) -> (r: Option<usize>)
    ensures
        r is None <==> !strings_view(v@).contains(s@),
        r matches Some(k) ==> k < v@.len() && v@[k as int]@ == s@,
{
    let mut i: usize = 0;
    while i < v.len()
        invariant
            i <= v.len(),
            forall|k: int| 0 <= k < i ==> v@[k]@ != s@,
        decreases v.len() - i,
    {
        if text_equal(v[i].as_str(), s) {
            assert(strings_view(v@)[i as int] == s@);
            return Some(i);
        }
        i = i + 1;
    }
    proof {
        if strings_view(v@).contains(s@) {
            let k = choose|k: int| 0 <= k < strings_view(v@).len() && strings_view(v@)[k] == s@;
            assert(v@[k]@ == s@);
        }
    }
    None
}

/// The position of the least of `paths` that conflicts with `path`, if any.
fn least_conflicting_path(paths: &Vec<String>, path: &str) -> (r: Option<usize>)
    ensures
        r is None <==> !(exists|q: Seq<char>|
            strings_view(paths@).contains(q) && prefix_conflict(q, path@)),
        r matches Some(k) ==> k < paths.len() && least_conflict(
            strings_view(paths@),
            path@,
            paths@[k as int]@,
        ),
{
    let ghost v = strings_view(paths@);
    let mut best: Option<usize> = None;
    let mut i: usize = 0;
    while i < paths.len()
        invariant
            v == strings_view(paths@),
            i <= paths.len(),
            best is None <==> forall|k: int| 0 <= k < i ==> !prefix_conflict(v[k], path@),
            best matches Some(b) ==> b < i && prefix_conflict(v[b as int], path@) && forall|k: int|
                0 <= k < i && prefix_conflict(v[k], path@) ==> !text_lt(v[k], v[b as int]),
        decreases paths.len() - i,
    {
        assert(v[i as int] == paths@[i as int]@);
        if crate::catalog::path_prefix_conflict(paths[i].as_str(), path) {
            match best {
                None => {
                    proof {
                        lemma_text_order(v[i as int], v[i as int], v[i as int]);
                    }
                    best = Some(i);
                },
                Some(b) => {
                    assert(v[b as int] == paths@[b as int]@);
                    if text_less(paths[i].as_str(), paths[b].as_str()) {
                        proof {
                            assert forall|k: int|
                                0 <= k < i + 1 && prefix_conflict(v[k], path@) implies !text_lt(
                                v[k],
                                v[i as int],
                            ) by {
                                lemma_text_order(v[k], v[i as int], v[b as int]);
                                lemma_text_order(v[i as int], v[k], v[b as int]);
                            }
                        }
                        best = Some(i);
                    } else {
                        proof {
                            lemma_text_order(v[i as int], v[b as int], v[b as int]);
                        }
                    }
                },
            }
        }
        i = i + 1;
    }
    proof {
        match best {
            Some(b) => {
                assert(v[b as int] == paths@[b as int]@);
                assert(v.contains(v[b as int]));
                assert forall|q: Seq<char>| v.contains(q) && prefix_conflict(q, path@) implies !text_lt(
                    q,
                    v[b as int],
                ) by {
                    let k = choose|k: int| 0 <= k < v.len() && v[k] == q;
                }
            },
            None => {
                assert forall|q: Seq<char>| v.contains(q) implies !prefix_conflict(q, path@) by {
                    let k = choose|k: int| 0 <= k < v.len() && v[k] == q;
                }
            },
        }
    }
    best
}

proof fn lemma_least_unique(paths: Seq<Seq<char>>, path: Seq<char>, m: Seq<char>)
    requires
        least_conflict(paths, path, m),
    ensures
        (choose|x: Seq<char>| least_conflict(paths, path, x)) == m,
{
    let x = choose|x: Seq<char>| least_conflict(paths, path, x);
    assert(least_conflict(paths, path, x));
    lemma_text_order(x, m, x);
}

proof fn lemma_owner(es: Seq<(usize, CommandView)>, k: int)
    requires
        0 <= k < es.len(),
        entry_paths(es).no_duplicates(),
    ensures
        owner_of(es, joined_path(es[k].1.path)) == es[k].1.id,
{
    let path = joined_path(es[k].1.path);
    assert(entry_paths(es)[k] == path);
    let j = choose|j: int| 0 <= j < es.len() && joined_path(es[j].1.path) == path;
    assert(entry_paths(es)[j] == path);
}

/// Adds one provider command to the composition, or reports why it cannot be added.
fn compose_entry(
    comp: &mut Composition,
    provider_index: usize,
    command: &CommandDefinition,
    Ghost(es): Ghost<Seq<(usize, CommandView)>>,
) -> (r: Result<(), String>)
    requires
        old(comp).models(es),
    ensures
        r is Ok <==> aggregate_entry_error(es, (provider_index, command@)) is None,
        r matches Err(m) ==> aggregate_entry_error(es, (provider_index, command@)) == Some(m@),
        r is Ok ==> final(comp).models(es.push((provider_index, command@))),
{
    let ghost e = (provider_index, command@);
    if comp.catalog.len() == MAX_AGGREGATE_COMMANDS {
        proof {
            reveal_strlit("aggregate terminal catalog exceeds 256 commands");
        }
        return Err(String::from_str("aggregate terminal catalog exceeds 256 commands"));
    }
    assert(es.len() < 256) by {
        assert(catalog_view(comp.catalog@).len() == es.len());
    }
    let path = join_path(&command.path);
    proof {
        assert forall|k: int| 0 <= k < comp.routes@.len() implies (comp.routes@[k].id@
            == #[trigger] entry_ids(es)[k]) by {
            let rv = comp.routes@.map_values(
                |e: RouteEntry|
                    RouteView {
                        id: e.id@,
                        provider_index: e.route.provider_index,
                        formats: e.route.formats@,
                    },
            );
            assert(rv[k] == routes_of(es)[k]);
        }
        assert(comp.routes@.len() == es.len()) by {
            let rv = comp.routes@.map_values(
                |e: RouteEntry|
                    RouteView {
                        id: e.id@,
                        provider_index: e.route.provider_index,
                        formats: e.route.formats@,
                    },
            );
            assert(rv.len() == routes_of(es).len());
        }
    }
    match find_route(&comp.routes, command.id.as_str()) {
        Some(k) => {
            assert(entry_ids(es)[k as int] == command.id@);
            return Err(concat3("duplicate terminal command id `", command.id.as_str(), "`"));
        },
        None => {
            assert(!entry_ids(es).contains(command.id@)) by {
                if entry_ids(es).contains(command.id@) {
                    let k = choose|k: int| 0 <= k < entry_ids(es).len() && entry_ids(es)[k] == command.id@;
                    assert(comp.routes@[k].id@ == entry_ids(es)[k]);
                }
            }
        },
    }
    match least_conflicting_path(&comp.paths, path.as_str()) {
        Some(k) => {
            proof {
                lemma_least_unique(entry_paths(es), path@, comp.paths@[k as int]@);
                assert(entry_paths(es)[k as int] == comp.paths@[k as int]@);
                lemma_owner(es, k as int);
                assert(catalog_view(comp.catalog@)[k as int] == es[k as int].1);
            }
            return Err(
                concat7(
                    "terminal command path `",
                    path.as_str(),
                    "` conflicts with group `",
                    comp.paths[k].as_str(),
                    "` owned by `",
                    comp.catalog[k].id.as_str(),
                    "`",
                ),
            );
        },
        None => {},
    }
    match find_string(&comp.paths, path.as_str()) {
        Some(k) => {
            proof {
                assert(entry_paths(es)[k as int] == path@);
                lemma_owner(es, k as int);
                assert(catalog_view(comp.catalog@)[k as int] == es[k as int].1);
            }
            return Err(
                concat7(
                    "duplicate terminal command path `",
                    path.as_str(),
                    "` for `",
                    comp.catalog[k].id.as_str(),
                    "` and `",
                    command.id.as_str(),
                    "`",
                ),
            );
        },
        None => {},
    }
    let ghost old_catalog = comp.catalog@;
    let ghost old_paths = comp.paths@;
    let ghost old_routes = comp.routes@;
    let ghost path_view = path@;
    let formats = copy_formats(&command.output_formats);
    comp.routes.push(
        RouteEntry { id: command.id.clone(), route: Route { provider_index, formats } },
    );
    comp.paths.push(path);
    comp.catalog.push(command.duplicate());
    proof {
        let es2 = es.push(e);
        assert(catalog_view(comp.catalog@) =~= catalog_view(old_catalog).push(command@));
        assert(es2.map_values(|e: (usize, CommandView)| e.1) =~= es.map_values(
            |e: (usize, CommandView)| e.1,
        ).push(command@));
        assert(strings_view(comp.paths@) =~= strings_view(old_paths).push(path_view));
        assert(entry_paths(es2) =~= entry_paths(es).push(path_view));
        assert(entry_ids(es2) =~= entry_ids(es).push(command.id@));
        assert(routes_of(es2) =~= routes_of(es).push(
            RouteView {
                id: command.id@,
                provider_index,
                formats: command.output_formats@,
            },
        ));
        assert(comp.routes@.map_values(
            |e: RouteEntry|
                RouteView {
                    id: e.id@,
                    provider_index: e.route.provider_index,
                    formats: e.route.formats@,
                },
        ) =~= old_routes.map_values(
            |e: RouteEntry|
                RouteView {
                    id: e.id@,
                    provider_index: e.route.provider_index,
                    formats: e.route.formats@,
                },
        ).push(
            RouteView {
                id: command.id@,
                provider_index,
                formats: command.output_formats@,
            },
        ));
        assert(!entry_paths(es).contains(path_view)) by {
            if entry_paths(es).contains(path_view) {
                let k = choose|k: int|
                    0 <= k < entry_paths(es).len() && entry_paths(es)[k] == path_view;
                assert(strings_view(old_paths)[k] == path_view);
            }
        }
    }
    Ok(())
}

fn copy_formats(v: &Vec<OutputFormat>) -> (r: Vec<OutputFormat>)
    ensures
        r@ == v@,
{
    let mut out: Vec<OutputFormat> = Vec::new();
    let mut i: usize = 0;
    while i < v.len()
        invariant
            i <= v.len(),
            out@ == v@.subrange(0, i as int),
        decreases v.len() - i,
    {
        out.push(v[i]);
        i = i + 1;
        assert(out@ =~= v@.subrange(0, i as int));
    }
    assert(out@ =~= v@);
    out
}

/// Composes the validated catalogs of the providers into one routed catalog,
/// sorted by path and then by id.
pub fn build_runtime_state(provider_catalogs: &[(usize, Vec<CommandDefinition>)]) -> (r: Result<
    RuntimeState,
    RuntimeFailure,
>)
    ensures
        ({
            let es = flatten_catalogs(provider_catalogs@);
            &&& r is Ok <==> aggregate_error(es) is None
            &&& r matches Err(f) ==> (f matches RuntimeFailure::InvalidResolvedPlan { detail }
                && aggregate_error(es) == Some(detail@))
            &&& r matches Ok(state) ==> state.routes_view() == routes_of(es) && arranged_catalog(
                state.catalog_view(),
                es,
            )
        }),
{
    let ghost pcs = provider_catalogs@;
    let mut comp = Composition { catalog: Vec::new(), paths: Vec::new(), routes: Vec::new() };
    proof {
        assert(comp.models(Seq::empty())) by {
            assert(catalog_view(comp.catalog@) =~= Seq::<(usize, CommandView)>::empty().map_values(
                |e: (usize, CommandView)| e.1,
            ));
            assert(strings_view(comp.paths@) =~= entry_paths(Seq::empty()));
            assert(comp.routes@.map_values(
                |e: RouteEntry|
                    RouteView {
                        id: e.id@,
                        provider_index: e.route.provider_index,
                        formats: e.route.formats@,
                    },
            ) =~= routes_of(Seq::empty()));
        }
    }
    let mut p: usize = 0;
    while p < provider_catalogs.len()
        invariant
            pcs == provider_catalogs@,
            p <= pcs.len(),
            aggregate_error(flatten_catalogs(pcs.subrange(0, p as int))) is None,
            comp.models(flatten_catalogs(pcs.subrange(0, p as int))),
        decreases pcs.len() - p,
    {
        let provider_index = provider_catalogs[p].0;
        let commands = &provider_catalogs[p].1;
        let ghost before = flatten_catalogs(pcs.subrange(0, p as int));
        let ghost cmds = commands@.map_values(|c: CommandDefinition| (provider_index, c@));
        proof {
            assert(pcs.subrange(0, p + 1).drop_last() =~= pcs.subrange(0, p as int));
            assert(flatten_catalogs(pcs.subrange(0, p + 1)) == before + cmds);
        }
        let mut j: usize = 0;
        while j < commands.len()
            invariant
                pcs == provider_catalogs@,
                p < pcs.len(),
                commands == provider_catalogs@[p as int].1,
                provider_index == provider_catalogs@[p as int].0,
                before == flatten_catalogs(pcs.subrange(0, p as int)),
                cmds == commands@.map_values(|c: CommandDefinition| (provider_index, c@)),
                flatten_catalogs(pcs.subrange(0, p + 1)) == before + cmds,
                j <= commands.len(),
                aggregate_error(before + cmds.subrange(0, j as int)) is None,
                comp.models(before + cmds.subrange(0, j as int)),
            decreases commands.len() - j,
        {
            let ghost es = before + cmds.subrange(0, j as int);
            assert((before + cmds.subrange(0, j + 1)).drop_last() =~= es);
            assert((before + cmds.subrange(0, j + 1)).last() == (provider_index, commands@[j as int]@));
            match compose_entry(&mut comp, provider_index, &commands[j], Ghost(es)) {
                Err(m) => {
                    proof {
                        let all = flatten_catalogs(pcs);
                        let upto = before + cmds.subrange(0, j + 1);
                        assert(aggregate_error(upto) == Some(m@));
                        lemma_flatten_prefix(pcs, p as int + 1);
                        assert(all.subrange(0, upto.len() as int) =~= upto) by {
                            assert(flatten_catalogs(pcs.subrange(0, p + 1)).len() <= all.len());
                            assert(all.subrange(0, flatten_catalogs(pcs.subrange(0, p + 1)).len() as int)
                                == flatten_catalogs(pcs.subrange(0, p + 1)));
                        }
                        lemma_aggregate_error_persists(all, upto.len() as int);
                    }
                    return Err(RuntimeFailure::InvalidResolvedPlan { detail: m });
                },
                Ok(()) => {},
            }
            j = j + 1;
            assert(before + cmds.subrange(0, j as int) =~= es.push(
                (provider_index, commands@[j - 1]@),
            ));
        }
        assert(cmds.subrange(0, j as int) =~= cmds);
        p = p + 1;
    }
    assert(pcs.subrange(0, p as int) =~= pcs);
    let ghost es = flatten_catalogs(pcs);
    let catalog = sort_catalog(comp.catalog, Ghost(es));
    proof {
        let rv = comp.routes@.map_values(
            |e: RouteEntry|
                RouteView {
                    id: e.id@,
                    provider_index: e.route.provider_index,
                    formats: e.route.formats@,
                },
        );
        assert(rv.len() == routes_of(es).len());
        assert(routes_of(es).len() == es.len());
        assert forall|a: int, b: int|
            0 <= a < comp.routes@.len() && 0 <= b < comp.routes@.len() && a != b
                implies #[trigger] comp.routes@[a].id@ != #[trigger] comp.routes@[b].id@ by {
            assert(rv[a].id == routes_of(es)[a].id);
            assert(rv[b].id == routes_of(es)[b].id);
            assert(entry_ids(es)[a] == es[a].1.id);
            assert(entry_ids(es)[b] == es[b].1.id);
        }
    }
    Ok(RuntimeState { catalog, routes: comp.routes })
}

/// The composition of a prefix of the providers is a prefix of the whole one.
proof fn lemma_flatten_prefix(pcs: Seq<(usize, Vec<CommandDefinition>)>, p: int)
    requires
        0 <= p <= pcs.len(),
    ensures
        flatten_catalogs(pcs.subrange(0, p)).len() <= flatten_catalogs(pcs).len(),
        flatten_catalogs(pcs).subrange(0, flatten_catalogs(pcs.subrange(0, p)).len() as int)
            == flatten_catalogs(pcs.subrange(0, p)),
    decreases pcs.len() - p,
{
    if p == pcs.len() {
        assert(pcs.subrange(0, p) =~= pcs);
        assert(flatten_catalogs(pcs).subrange(0, flatten_catalogs(pcs).len() as int)
            =~= flatten_catalogs(pcs));
    } else {
        lemma_flatten_prefix(pcs, p + 1);
        let a = flatten_catalogs(pcs.subrange(0, p));
        let b = flatten_catalogs(pcs.subrange(0, p + 1));
        assert(pcs.subrange(0, p + 1).drop_last() =~= pcs.subrange(0, p));
        assert(b == a + pcs[p].1@.map_values(|c: CommandDefinition| (pcs[p].0, c@)));
        assert(b.subrange(0, a.len() as int) =~= a);
        assert(flatten_catalogs(pcs).subrange(0, a.len() as int) =~= flatten_catalogs(
            pcs,
        ).subrange(0, b.len() as int).subrange(0, a.len() as int));
    }
}

/// Whether `a` comes before `b` in the aggregate catalog.
fn command_precedes(a: &CommandDefinition, b: &CommandDefinition) -> (r: bool)
    ensures
        r == command_before(a@, b@),
{
    if segments_less(&a.path, &b.path) {
        return true;
    }
    if segments_less(&b.path, &a.path) {
        proof {
            lemma_segments_order(a@.path, b@.path, a@.path);
        }
        return false;
    }
    proof {
        lemma_segments_order(a@.path, b@.path, a@.path);
    }
    text_less(a.id.as_str(), b.id.as_str())
}

/// Arranges the commands in catalog order.
fn sort_catalog(commands: Vec<CommandDefinition>, Ghost(es): Ghost<Seq<(usize, CommandView)>>) -> (r:
    Vec<CommandDefinition>)
    requires
        catalog_view(commands@) == es.map_values(|e: (usize, CommandView)| e.1),
        entry_ids(es).no_duplicates(),
    ensures
        arranged_catalog(catalog_view(r@), es),
{
    let ghost src = catalog_view(commands@);
    let mut out: Vec<CommandDefinition> = Vec::new();
    let mut i: usize = 0;
    while i < commands.len()
        invariant
            src == catalog_view(commands@),
            src == es.map_values(|e: (usize, CommandView)| e.1),
            entry_ids(es).no_duplicates(),
            i <= commands.len(),
            catalog_view(out@).len() == i,
            forall|c: CommandView|
                catalog_view(out@).contains(c) <==> src.subrange(0, i as int).contains(c),
            sorted_catalog(catalog_view(out@)),
        decreases commands.len() - i,
    {
        let item = &commands[i];
        let mut pos: usize = 0;
        while pos < out.len() && !command_precedes(item, &out[pos])
            invariant
                pos <= out.len(),
                forall|k: int| 0 <= k < pos ==> !command_before(item@, #[trigger] out@[k]@),
            decreases out.len() - pos,
        {
            pos = pos + 1;
        }
        let ghost old_out = catalog_view(out@);
        proof {
            assert(src.len() == es.len());
            assert(src[i as int] == item@);
            // Distinct ids: the new command differs in id from every placed one.
            assert forall|k: int| 0 <= k < old_out.len() implies old_out[k].id != item@.id by {
                assert(old_out.contains(old_out[k]));
                assert(src.subrange(0, i as int).contains(old_out[k]));
                let j = choose|j: int|
                    0 <= j < i && #[trigger] src.subrange(0, i as int)[j] == old_out[k];
                assert(src[j] == es.map_values(|e: (usize, CommandView)| e.1)[j]);
                assert(src[i as int] == es.map_values(|e: (usize, CommandView)| e.1)[i as int]);
                assert(entry_ids(es)[j] == es[j].1.id);
                assert(entry_ids(es)[i as int] == es[i as int].1.id);
            }
        }
        out.insert(pos, item.duplicate());
        proof {
            let new_out = catalog_view(out@);
            assert(new_out =~= old_out.insert(pos as int, item@));
            assert forall|a: int, b: int| 0 <= a < b < new_out.len() implies command_before(
                new_out[a],
                new_out[b],
            ) by {
                if b < pos {
                } else if a < pos && b == pos {
                    assert(!command_before(item@, out@[a]@));
                    assert(old_out[a] == out@[a]@);
                    lemma_command_order(old_out[a], item@, item@);
                } else if a < pos && b > pos {
                    assert(new_out[b] == old_out[b - 1]);
                } else if a == pos {
                    // item precedes old_out[pos], which precedes or is old_out[b - 1]
                    assert(new_out[b] == old_out[b - 1]);
                    assert(pos < old_out.len());
                    lemma_command_order(item@, old_out[pos as int], old_out[b - 1]);
                    if b - 1 > pos {
                        assert(command_before(old_out[pos as int], old_out[b - 1]));
                    }
                } else {
                    assert(new_out[a] == old_out[a - 1]);
                    assert(new_out[b] == old_out[b - 1]);
                }
            }
            assert(src.subrange(0, i + 1) =~= src.subrange(0, i as int).push(src[i as int]));
            assert(src[i as int] == item@);
            assert forall|c: CommandView| new_out.contains(c) implies src.subrange(0, i + 1).contains(
                c,
            ) by {
                let k = choose|k: int| 0 <= k < new_out.len() && new_out[k] == c;
                if k == pos {
                    assert(src.subrange(0, i + 1)[i as int] == c);
                } else {
                    let k2 = if k < pos {
                        k
                    } else {
                        k - 1
                    };
                    assert(old_out[k2] == c);
                    assert(old_out.contains(c));
                    assert(src.subrange(0, i as int).contains(c));
                    let m = choose|m: int| 0 <= m < i && #[trigger] src.subrange(0, i as int)[m] == c;
                    assert(src.subrange(0, i + 1)[m] == c);
                }
            }
            assert forall|c: CommandView| src.subrange(0, i + 1).contains(c) implies new_out.contains(
                c,
            ) by {
                let k = choose|k: int| 0 <= k < i + 1 && #[trigger] src.subrange(0, i + 1)[k] == c;
                if k < i {
                    assert(src.subrange(0, i as int)[k] == c);
                    assert(src.subrange(0, i as int).contains(c));
                    assert(old_out.contains(c));
                    let m = choose|m: int| 0 <= m < old_out.len() && old_out[m] == c;
                    if m < pos {
                        assert(new_out[m] == c);
                    } else {
                        assert(new_out[m + 1] == c);
                    }
                } else {
                    assert(new_out[pos as int] == c);
                }
            }
        }
        i = i + 1;
    }
    proof {
        assert(src.subrange(0, i as int) =~= src);
    }
    out
}

// ---------------------------------------------------------------------------
// Activation
// ---------------------------------------------------------------------------

pub open spec fn msg_invalid_provider_catalog(provider_index: usize) -> Seq<char> {
    "terminal command provider "@ + decimal(provider_index as nat) + " returned an invalid catalog"@
}

pub open spec fn msg_rejected_provider_catalog(provider_index: usize, detail: Seq<char>) -> Seq<
    char,
> {
    "terminal command provider "@ + decimal(provider_index as nat) + ": "@ + detail
}

/// Accepts the catalog that provider `provider_index` answered, or the
/// failure that activation reports for it. `None` stands for a provider that
/// answered with a domain error.
pub fn accept_provider_catalog(provider_index: usize, response: Option<Vec<CommandDefinition>>) -> (r:
    Result<Vec<CommandDefinition>, RuntimeFailure>)
    ensures
        response is None ==> (r matches Err(RuntimeFailure::PluginFailure { detail }) && detail@
            == msg_invalid_provider_catalog(provider_index)),
        response matches Some(cs) ==> ({
            &&& r is Ok <==> catalog_error(catalog_view(cs@)) is None
            &&& r matches Ok(v) ==> v@ == cs@
            &&& r matches Err(f) ==> (f matches RuntimeFailure::InvalidResolvedPlan { detail }
                && catalog_error(catalog_view(cs@)) matches Some(m) && detail@
                == msg_rejected_provider_catalog(provider_index, m))
        }),
{
    let index = decimal_text(provider_index);
    match response {
        None => {
            let detail = concat3(
                "terminal command provider ",
                index.as_str(),
                " returned an invalid catalog",
            );
            Err(RuntimeFailure::PluginFailure { detail })
        },
        Some(commands) => match validate_catalog(commands.as_slice()) {
            Ok(()) => Ok(commands),
            Err(m) => {
                let mut detail = concat3("terminal command provider ", index.as_str(), ": ");
                detail.append(m.as_str());
                Err(RuntimeFailure::InvalidResolvedPlan { detail })
            },
        },
    }
}

// ---------------------------------------------------------------------------
// Serving requests
// ---------------------------------------------------------------------------

/// Answers a catalog request: the aggregate catalog once the runtime is active.
pub fn catalog_response(state: Option<&RuntimeState>) -> (r: Result<CatalogResponse, RuntimeFailure>)
    ensures
        state is None ==> r == Err::<CatalogResponse, RuntimeFailure>(
            RuntimeFailure::Unavailable { capability: Capability::TerminalCommand },
        ),
        state matches Some(s) ==> r matches Ok(resp) && catalog_view(resp.commands@)
            == s.catalog_view(),
{
    match state {
        None => Err(RuntimeFailure::Unavailable { capability: Capability::TerminalCommand }),
        Some(s) => {
            let mut commands: Vec<CommandDefinition> = Vec::new();
            let mut i: usize = 0;
            while i < s.catalog.len()
                invariant
                    i <= s.catalog.len(),
                    catalog_view(commands@) == catalog_view(s.catalog@).subrange(0, i as int),
                decreases s.catalog.len() - i,
            {
                let ghost before = commands@;
                let d = s.catalog[i].duplicate();
                commands.push(d);
                assert(catalog_view(commands@) =~= catalog_view(before).push(s.catalog@[i as int]@));
                i = i + 1;
                assert(catalog_view(commands@) =~= catalog_view(s.catalog@).subrange(0, i as int));
            }
            assert(catalog_view(s.catalog@).subrange(0, i as int) =~= catalog_view(s.catalog@));
            Ok(CatalogResponse { commands })
        },
    }
}

/// The largest accepted argument envelope, in bytes.
pub const MAX_ARGUMENTS_JSON_BYTES: usize = 262144;

/// Where and how one validated execution request is forwarded.
#[derive(Debug)]
pub struct ProviderRequest {
    pub provider_index: usize,
    pub open: ExecuteOpen,
}

/// Checks an execution request against the routes: the command must be
/// routed, its argument envelope a JSON object of at most 262144 bytes, and
/// the requested format one that the command's provider offers.
pub fn route_execute(state: Option<&RuntimeState>, request: ExecuteOpen) -> (r: Result<
    ProviderRequest,
    ExecuteError,
>)
    ensures
        ({
            let routed = state matches Some(s) && exists|k: int|
                0 <= k < s.routes_view().len() && #[trigger] s.routes_view()[k].id
                    == request.id@;
            &&& !routed ==> (r matches Err(e) && e is NotFound)
            &&& routed ==> {
                let s = state->0;
                let k = choose|k: int|
                    0 <= k < s.routes_view().len() && #[trigger] s.routes_view()[k].id
                        == request.id@;
                let acceptable = (vstd::utf8::encode_utf8(request.arguments_json@).len() as usize) <= 262144
                    && s.routes_view()[k].formats.contains(request.output_format)
                    && parses_as_json_object(request.arguments_json@);
                &&& !acceptable ==> (r matches Err(e) && e is InvalidArguments)
                &&& acceptable ==> (r matches Ok(fwd) && fwd.provider_index
                    == s.routes_view()[k].provider_index && fwd.open.id@ == request.id@
                    && fwd.open.arguments_json@ == request.arguments_json@
                    && fwd.open.output_format == request.output_format)
            }
        }),
{
    let route = match state {
        None => {
            return Err(ExecuteError::NotFound);
        },
        Some(s) => match s.route(request.id.as_str()) {
            None => {
                return Err(ExecuteError::NotFound);
            },
            Some(route) => {
                proof {
                    use_type_invariant(s);
                    let k = choose|k: int|
                        0 <= k < s.routes_view().len() && #[trigger] s.routes_view()[k].id
                            == request.id@;
                    let k2 = choose|k2: int|
                        0 <= k2 < s.routes_view().len() && #[trigger] s.routes_view()[k2].id
                            == request.id@ && s.routes_view()[k2].provider_index
                            == route.provider_index && s.routes_view()[k2].formats
                            == route.formats@;
                    assert(s.routes_view()[k].id == s.routes@[k].id@);
                    assert(s.routes_view()[k2].id == s.routes@[k2].id@);
                    assert(k == k2);
                }
                route
            },
        },
    };
    if request.arguments_json.as_str().len() > MAX_ARGUMENTS_JSON_BYTES || !contains_format(
        &route.formats,
        request.output_format,
    ) || !is_json_object(request.arguments_json.as_str()) {
        return Err(ExecuteError::InvalidArguments);
    }
    let provider_index = route.provider_index;
    Ok(ProviderRequest { provider_index, open: request })
}

fn contains_format(formats: &Vec<OutputFormat>, f: OutputFormat) -> (r: bool)
    ensures
        r == formats@.contains(f),
{
    let mut i: usize = 0;
    while i < formats.len()
        invariant
            i <= formats.len(),
            forall|k: int| 0 <= k < i ==> formats@[k] != f,
        decreases formats.len() - i,
    {
        if formats[i] == f {
            return true;
        }
        i = i + 1;
    }
    false
}

// ---------------------------------------------------------------------------
// Provider output and errors
// ---------------------------------------------------------------------------

/// The largest accepted output chunk, in characters.
pub const MAX_MESSAGE_CHARS: usize = 1048576;

/// Passes one provider output chunk on, unless it is too long or claims to be
/// JSON and is not.
pub fn validate_and_convert_message(message: ExecuteMessage) -> (r: Result<
    ExecuteMessage,
    RuntimeFailure,
>)
    ensures
        message_conversion(message, r),
        message.content_type == ContentType::Json && !parses_as_json(message.content@) ==> r
            == Err::<ExecuteMessage, RuntimeFailure>(
            RuntimeFailure::ProtocolViolation { capability: Capability::TerminalCommandProvider },
        ),
{
    if message.content.unicode_len() > MAX_MESSAGE_CHARS || (message.content_type
        == ContentType::Json && !is_json(message.content.as_str())) {
        return Err(
            RuntimeFailure::ProtocolViolation { capability: Capability::TerminalCommandProvider },
        );
    }
    Ok(message)
}

/// A domain error as a provider reports it, including codes that this
/// version of the role does not know. An unknown error's payload is carried
/// as its JSON text.
#[derive(Clone, Debug)]
pub enum ProviderExecuteError {
    InvalidArguments,
    PermissionDenied,
    NotFound,
    OutputLimitExceeded,
    ExecutionFailed { payload: ExecutionFailedPayload },
    Unknown { code: String, payload_json: Option<String> },
}

pub open spec fn msg_unknown_error() -> Seq<char> {
    "terminal command provider returned an unknown domain error"@
}

/// The details of an unknown error: its payload, or an empty JSON object.
pub open spec fn unknown_details(payload_json: Option<String>) -> Seq<char> {
    match payload_json {
        Some(p) => p@,
        None => "{}"@,
    }
}

/// Whether a provider's execution-failure payload keeps to the role's bounds.
pub open spec fn payload_ok(p: ExecutionFailedPayload) -> bool {
    &&& 1 <= p.reason_code@.len() <= 128
    &&& p.message@.len() <= 4096
    &&& p.details_json@.len() <= 65536
    &&& parses_as_json(p.details_json@)
}

/// `r` is what converting provider error `error` yields: the same error, an
/// execution failure carrying an unknown error's code and payload, or a
/// protocol violation when the provider broke the role's bounds.
pub open spec fn error_conversion(error: ProviderExecuteError, r: Result<ExecuteError, RuntimeFailure>) -> bool {
    let violation = Err::<ExecuteError, RuntimeFailure>(
        RuntimeFailure::ProtocolViolation { capability: Capability::TerminalCommandProvider },
    );
    match error {
        ProviderExecuteError::InvalidArguments => r matches Ok(e) && e is InvalidArguments,
        ProviderExecuteError::PermissionDenied => r matches Ok(e) && e is PermissionDenied,
        ProviderExecuteError::NotFound => r matches Ok(e) && e is NotFound,
        ProviderExecuteError::OutputLimitExceeded => r matches Ok(e) && e is OutputLimitExceeded,
        ProviderExecuteError::ExecutionFailed { payload } => if payload_ok(payload) {
            r matches Ok(ExecuteError::ExecutionFailed { payload: q }) && q.reason_code@
                == payload.reason_code@ && q.message@ == payload.message@ && q.details_json@
                == payload.details_json@
        } else {
            r == violation
        },
        ProviderExecuteError::Unknown { code, payload_json } => if 1 <= code@.len() <= 128
            && unknown_details(payload_json).len() <= 65536 {
            r matches Ok(ExecuteError::ExecutionFailed { payload: q }) && q.reason_code@ == code@
                && q.message@ == msg_unknown_error() && q.details_json@ == unknown_details(
                payload_json,
            )
        } else {
            r == violation
        },
    }
}

/// `r` is what checking provider output chunk `m` yields: the chunk itself,
/// or a protocol violation when it is too long or claims to be JSON and is not.
pub open spec fn message_conversion(m: ExecuteMessage, r: Result<ExecuteMessage, RuntimeFailure>) -> bool {
    let ok = m.content@.len() <= 1048576 && (m.content_type == ContentType::Json ==> parses_as_json(
        m.content@,
    ));
    &&& ok ==> (r matches Ok(f) && f.kind == m.kind && f.content_type == m.content_type
        && f.content@ == m.content@)
    &&& !ok ==> r == Err::<ExecuteMessage, RuntimeFailure>(
        RuntimeFailure::ProtocolViolation { capability: Capability::TerminalCommandProvider },
    )
}

/// Converts a provider's domain error into the role's own, or reports a
/// protocol violation when it breaks the role's bounds.
pub fn validate_and_convert_error(error: ProviderExecuteError) -> (r: Result<
    ExecuteError,
    RuntimeFailure,
>)
    ensures
        error_conversion(error, r),
        error matches ProviderExecuteError::Unknown { code, payload_json: Some(p) } ==> (1
            <= code@.len() <= 128 && p@.len() <= 65536 ==> (r matches Ok(
            ExecuteError::ExecutionFailed { payload: q },
        ) && q.details_json@ == p@ && q.reason_code@ == code@)),
{
    match error {
        ProviderExecuteError::InvalidArguments => Ok(ExecuteError::InvalidArguments),
        ProviderExecuteError::PermissionDenied => Ok(ExecuteError::PermissionDenied),
        ProviderExecuteError::NotFound => Ok(ExecuteError::NotFound),
        ProviderExecuteError::OutputLimitExceeded => Ok(ExecuteError::OutputLimitExceeded),
        ProviderExecuteError::ExecutionFailed { payload } => {
            let n = payload.reason_code.unicode_len();
            if n == 0 || n > 128 || payload.message.unicode_len() > 4096
                || payload.details_json.unicode_len() > 65536 || !is_json(
                payload.details_json.as_str(),
            ) {
                return Err(
                    RuntimeFailure::ProtocolViolation {
                        capability: Capability::TerminalCommandProvider,
                    },
                );
            }
            Ok(ExecuteError::ExecutionFailed { payload })
        },
        ProviderExecuteError::Unknown { code, payload_json } => {
            let n = code.unicode_len();
            if n == 0 || n > 128 {
                return Err(
                    RuntimeFailure::ProtocolViolation {
                        capability: Capability::TerminalCommandProvider,
                    },
                );
            }
            let details_json = match payload_json {
                Some(p) => p,
                None => String::from_str("{}"),
            };
            if details_json.unicode_len() > 65536 {
                return Err(
                    RuntimeFailure::ProtocolViolation {
                        capability: Capability::TerminalCommandProvider,
                    },
                );
            }
            Ok(
                ExecuteError::ExecutionFailed {
                    payload: ExecutionFailedPayload {
                        reason_code: code,
                        message: String::from_str(
                            "terminal command provider returned an unknown domain error",
                        ),
                        details_json,
                    },
                },
            )
        },
    }
}

/// One event of a provider's execution stream.
#[derive(Debug)]
pub enum ProviderStreamEvent {
    Message(ExecuteMessage),
    PeerHalfClosed,
    Completed,
    Failed(ProviderExecuteError),
}

/// What the proxy does with one provider stream event.
#[derive(Debug)]
pub enum StreamStep {
    /// Forward this message and keep reading.
    Forward(ExecuteMessage),
    /// Keep reading.
    Continue,
    /// End the forwarded stream successfully.
    Complete,
    /// End the forwarded stream with this domain error.
    Fail(ExecuteError),
    /// End the forwarded stream with a runtime failure.
    Abort(RuntimeFailure),
}

/// Decides what the proxy does with one event of the provider's stream.
pub fn stream_step(event: ProviderStreamEvent) -> (r: StreamStep)
    ensures
        match event {
            ProviderStreamEvent::Message(m) => exists|c: Result<ExecuteMessage, RuntimeFailure>|
                message_conversion(m, c) && match c {
                    Ok(f) => r == StreamStep::Forward(f),
                    Err(f) => r == StreamStep::Abort(f),
                },
            ProviderStreamEvent::PeerHalfClosed => r is Continue,
            ProviderStreamEvent::Completed => r is Complete,
            ProviderStreamEvent::Failed(e) => exists|c: Result<ExecuteError, RuntimeFailure>|
                error_conversion(e, c) && match c {
                    Ok(f) => r == StreamStep::Fail(f),
                    Err(f) => r == StreamStep::Abort(f),
                },
        },
{
    match event {
        ProviderStreamEvent::Message(m) => {
            let c = validate_and_convert_message(m);
            let ghost gc = c;
            match c {
                Ok(m) => StreamStep::Forward(m),
                Err(f) => StreamStep::Abort(f),
            }
        },
        ProviderStreamEvent::PeerHalfClosed => StreamStep::Continue,
        ProviderStreamEvent::Completed => StreamStep::Complete,
        ProviderStreamEvent::Failed(e) => {
            let c = validate_and_convert_error(e);
            let ghost gc = c;
            match c {
                Ok(e) => StreamStep::Fail(e),
                Err(f) => StreamStep::Abort(f),
            }
        },
    }
}

/// How opening a provider's execution stream failed: a domain error of the
/// provider role, or a failure `F` of the runtime that carried the request.
#[derive(Debug)]
pub enum ProviderOpenError<F> {
    Domain(ProviderExecuteError),
    Runtime(F),
}

/// How a forwarded execution fails: a domain error of the terminal role, a
/// protocol violation that the aggregate found, or the carrier's failure `F`
/// passed on.
#[derive(Debug)]
pub enum ExecutionFailure<F> {
    Domain(ExecuteError),
    Violation(RuntimeFailure),
    Runtime(F),
}

/// Maps a failure to open a provider's stream: a domain error is converted
/// (or becomes a protocol violation), a runtime failure is passed on.
pub fn map_open_error<F>(error: ProviderOpenError<F>) -> (r: ExecutionFailure<F>)
    ensures
        match error {
            ProviderOpenError::Domain(e) => exists|c: Result<ExecuteError, RuntimeFailure>|
                error_conversion(e, c) && match c {
                    Ok(d) => r == ExecutionFailure::<F>::Domain(d),
                    Err(v) => r == ExecutionFailure::<F>::Violation(v),
                },
            ProviderOpenError::Runtime(f) => r == ExecutionFailure::<F>::Runtime(f),
        },
{
    match error {
        ProviderOpenError::Domain(e) => {
            let c = validate_and_convert_error(e);
            let ghost gc = c;
            match c {
                Ok(d) => ExecutionFailure::Domain(d),
                Err(v) => ExecutionFailure::Violation(v),
            }
        },
        ProviderOpenError::Runtime(f) => ExecutionFailure::Runtime(f),
    }
}

} // verus!
