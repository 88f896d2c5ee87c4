//! Dependency resolution: a depth-first topological sort over the dependency
//! edges declared in plugin manifests. Produces an order in which every
//! dependency precedes its dependents, and rejects cycles, dependencies on
//! extensions that were not discovered, and installed versions that fail a
//! requester's constraint. Among the valid orders, the result is pinned to
//! one canonical tie-break: at each step the plugin with the least id among
//! those whose dependencies are all placed — a choice that depends on which
//! plugins were discovered, never on the order the discovery scan found
//! them in.

use vstd::prelude::*;
use crate::plugin::{Plugin, PluginView};
use crate::strutil::seq_views;
use crate::wiki::{str_le, str_lt};
use crate::semver;
use crate::strutil;

verus! {

/// Views of a sequence of plugin records.
pub open spec fn plugins_view(ps: Seq<Plugin>) -> Seq<PluginView> {
    ps.map_values(|p: Plugin| p@)
}

/// The dependency list declared by the plugin at index `k`.
pub open spec fn deps(g: Seq<PluginView>, k: int) -> Seq<(Seq<char>, Seq<char>)> {
    g[k].manifest.dependencies
}

/// Some discovered plugin has this id.
pub open spec fn has_id(g: Seq<PluginView>, id: Seq<char>) -> bool {
    exists|k: int| 0 <= k < g.len() && (#[trigger] g[k]).manifest.id == id
}

/// Index of the first plugin with this id (`g.len()` if there is none).
pub open spec fn first_idx(g: Seq<PluginView>, id: Seq<char>) -> int
    decreases g.len(),
{
    if g.len() == 0 {
        0
    } else if g[0].manifest.id == id {
        0
    } else {
        1 + first_idx(g.skip(1), id)
    }
}

pub proof fn lemma_first_idx(g: Seq<PluginView>, id: Seq<char>)
    ensures
        has_id(g, id) ==> 0 <= first_idx(g, id) < g.len() && g[first_idx(g, id)].manifest.id == id,
        !has_id(g, id) ==> first_idx(g, id) == g.len(),
        forall|k: int| 0 <= k < first_idx(g, id) ==> (#[trigger] g[k]).manifest.id != id,
    decreases g.len(),
{
    if g.len() > 0 && g[0].manifest.id != id {
        lemma_first_idx(g.skip(1), id);
        if has_id(g, id) {
            let k = choose|k: int| 0 <= k < g.len() && (#[trigger] g[k]).manifest.id == id;
            assert(g.skip(1)[k - 1] == g[k]);
            assert(has_id(g.skip(1), id));
        }
        if has_id(g.skip(1), id) {
            let k = choose|k: int|
                0 <= k < g.skip(1).len() && (#[trigger] g.skip(1)[k]).manifest.id == id;
            assert(g[k + 1] == g.skip(1)[k]);
            assert(has_id(g, id));
        }
        assert forall|k: int| 0 <= k < first_idx(g, id) implies (#[trigger] g[k]).manifest.id
            != id by {
            if k > 0 {
                assert(g.skip(1)[k - 1] == g[k]);
            }
        }
    }
}

/// Installed version of the plugin with this id.
pub open spec fn version_of(g: Seq<PluginView>, id: Seq<char>) -> Seq<char> {
    g[first_idx(g, id)].manifest.version
}

/// The plugin with id `a` declares a dependency on id `b`.
pub open spec fn edge(g: Seq<PluginView>, a: Seq<char>, b: Seq<char>) -> bool {
    exists|k: int, d: int|
        0 <= k < g.len() && 0 <= d < deps(g, k).len() && g[k].manifest.id == a && (#[trigger] deps(
            g,
            k,
        )[d]).0 == b
}

/// The plugin with id `a` declares a dependency on id `b` under constraint `req`.
pub open spec fn declared_dep_req(
    g: Seq<PluginView>,
    a: Seq<char>,
    b: Seq<char>,
    req: Seq<char>,
) -> bool {
    exists|k: int, d: int|
        0 <= k < g.len() && 0 <= d < deps(g, k).len() && g[k].manifest.id == a && (#[trigger] deps(
            g,
            k,
        )[d]).0 == b && deps(g, k)[d].1 == req
}

/// Discovered plugin ids are pairwise distinct.
pub open spec fn wf_graph(g: Seq<PluginView>) -> bool {
    forall|i: int, j: int|
        #![trigger g[i], g[j]]
        0 <= i < j < g.len() ==> g[i].manifest.id != g[j].manifest.id
}

/// Dependency `d` of plugin `k` names a discovered plugin whose installed
/// version satisfies the declared constraint.
pub open spec fn dep_satisfied(g: Seq<PluginView>, k: int, d: int) -> bool {
    has_id(g, deps(g, k)[d].0) && semver::spec_satisfies(
        version_of(g, deps(g, k)[d].0),
        deps(g, k)[d].1,
    )
}

/// Every declared dependency is discovered.
pub open spec fn deps_present(g: Seq<PluginView>) -> bool {
    forall|k: int, d: int|
        0 <= k < g.len() && 0 <= d < deps(g, k).len() ==> has_id(g, (#[trigger] deps(g, k)[d]).0)
}

/// Every declared dependency is discovered and version-compatible.
pub open spec fn deps_satisfied(g: Seq<PluginView>) -> bool {
    forall|k: int, d: int|
        0 <= k < g.len() && 0 <= d < (#[trigger] deps(g, k)).len() ==> #[trigger] dep_satisfied(
            g,
            k,
            d,
        )
}

/// Position of the first occurrence of `x` in `s` (`s.len()` if absent).
pub open spec fn pos_of(s: Seq<Seq<char>>, x: Seq<char>) -> int
    decreases s.len(),
{
    if s.len() == 0 {
        0
    } else if s[0] == x {
        0
    } else {
        1 + pos_of(s.skip(1), x)
    }
}

pub proof fn lemma_pos_of(s: Seq<Seq<char>>, x: Seq<char>)
    ensures
        s.contains(x) ==> 0 <= pos_of(s, x) < s.len() && s[pos_of(s, x)] == x,
        !s.contains(x) ==> pos_of(s, x) == s.len(),
    decreases s.len(),
{
    if s.len() > 0 && s[0] != x {
        lemma_pos_of(s.skip(1), x);
        if s.contains(x) {
            let k = choose|k: int| 0 <= k < s.len() && s[k] == x;
            assert(s.skip(1)[k - 1] == s[k]);
            assert(s.skip(1).contains(x));
        }
        if s.skip(1).contains(x) {
            let k = choose|k: int| 0 <= k < s.skip(1).len() && s.skip(1)[k] == x;
            assert(s[k + 1] == s.skip(1)[k]);
            assert(s.contains(x));
        }
    }
}

/// Appending an element does not move the first occurrence of anything
/// already present, and a fresh element lands at the end.
pub proof fn lemma_pos_of_push(s: Seq<Seq<char>>, x: Seq<char>, y: Seq<char>)
    ensures
        s.contains(x) ==> pos_of(s.push(y), x) == pos_of(s, x),
        !s.contains(y) ==> pos_of(s.push(y), y) == s.len(),
    decreases s.len(),
{
    if s.len() == 0 {
        assert(s.push(y)[0] == y);
    } else {
        assert(s.push(y).skip(1) =~= s.skip(1).push(y));
        lemma_pos_of_push(s.skip(1), x, y);
        lemma_pos_of(s, x);
        lemma_pos_of(s.skip(1), x);
        if s.contains(x) {
            if s[0] != x {
                let k = pos_of(s, x);
                assert(s.skip(1)[k - 1] == s[k]);
                assert(s.skip(1).contains(x));
            }
        }
        if !s.contains(y) {
            assert(s[0] != y);
            assert(forall|k: int| 0 <= k < s.skip(1).len() ==> #[trigger] s.skip(1)[k] == s[k + 1]);
            assert(!s.skip(1).contains(y));
        }
    }
}

/// Consecutive entries of the visiting stack are joined by dependency edges.
pub open spec fn chain_ok(g: Seq<PluginView>, vis: Seq<Seq<char>>) -> bool {
    forall|i: int| 0 <= i < vis.len() - 1 ==> edge(g, #[trigger] vis[i], vis[i + 1])
}

/// Every plugin already placed in the order has all of its dependencies
/// satisfied and placed strictly before it.
pub open spec fn placed_closed(g: Seq<PluginView>, ord: Seq<Seq<char>>) -> bool {
    forall|k: int, d: int|
        #![trigger deps(g, k)[d]]
        0 <= k < g.len() && 0 <= d < deps(g, k).len() && ord.contains(g[k].manifest.id) ==> {
            &&& dep_satisfied(g, k, d)
            &&& ord.contains(deps(g, k)[d].0)
            &&& pos_of(ord, deps(g, k)[d].0) < pos_of(ord, g[k].manifest.id)
        }
}

/// Invariant tying the DFS bookkeeping together.
pub open spec fn state_inv(g: Seq<PluginView>, vis: Seq<Seq<char>>, ord: Seq<Seq<char>>) -> bool {
    &&& ord.no_duplicates()
    &&& vis.no_duplicates()
    &&& (forall|i: int| 0 <= i < ord.len() ==> has_id(g, #[trigger] ord[i]))
    &&& (forall|i: int| 0 <= i < vis.len() ==> has_id(g, #[trigger] vis[i]))
    &&& (forall|x: Seq<char>| #[trigger] ord.contains(x) ==> !vis.contains(x))
    &&& chain_ok(g, vis)
    &&& placed_closed(g, ord)
}

/// A nonempty closed walk along dependency edges.
pub open spec fn is_cycle(g: Seq<PluginView>, c: Seq<Seq<char>>) -> bool {
    &&& c.len() >= 1
    &&& (forall|i: int| 0 <= i < c.len() - 1 ==> edge(g, #[trigger] c[i], c[i + 1]))
    &&& edge(g, c[c.len() - 1], c[0])
}

pub open spec fn has_cycle(g: Seq<PluginView>) -> bool {
    exists|c: Seq<Seq<char>>| is_cycle(g, c)
}

/// `id` lies on some dependency cycle.
pub open spec fn on_cycle(g: Seq<PluginView>, id: Seq<char>) -> bool {
    exists|c: Seq<Seq<char>>| #[trigger] is_cycle(g, c) && c.contains(id)
}

/// What the resolver promises of a successful order: the ids are exactly the
/// discovered ones, without duplicates, and every dependency stands strictly
/// before its dependent.
pub open spec fn valid_load_order(g: Seq<PluginView>, ord: Seq<Seq<char>>) -> bool {
    &&& ord.no_duplicates()
    &&& (forall|i: int| 0 <= i < ord.len() ==> has_id(g, #[trigger] ord[i]))
    &&& (forall|k: int| 0 <= k < g.len() ==> ord.contains((#[trigger] g[k]).manifest.id))
    &&& placed_closed(g, ord)
}

/// The ids of plugins not yet placed or being visited; the DFS recursion
/// strictly shrinks this set.
pub open spec fn remaining(g: Seq<PluginView>, vis: Seq<Seq<char>>, ord: Seq<Seq<char>>) -> nat {
    g.map_values(|p: PluginView| p.manifest.id).to_set().difference(vis.to_set()).difference(
        ord.to_set(),
    ).len()
}

/// Pushing a discovered, unbooked id onto the visiting stack strictly
/// shrinks the set of remaining ids.
proof fn lemma_remaining_shrinks(
    g: Seq<PluginView>,
    vis: Seq<Seq<char>>,
    ord: Seq<Seq<char>>,
    x: Seq<char>,
)
    requires
        has_id(g, x),
        !vis.contains(x),
        !ord.contains(x),
    ensures
        remaining(g, vis.push(x), ord) < remaining(g, vis, ord),
{
    broadcast use vstd::seq_lib::seq_to_set_is_finite;

    let ids = g.map_values(|p: PluginView| p.manifest.id);
    let r0 = ids.to_set().difference(vis.to_set()).difference(ord.to_set());
    let r1 = ids.to_set().difference(vis.push(x).to_set()).difference(ord.to_set());
    assert(ids.contains(x)) by {
        let k = choose|k: int| 0 <= k < g.len() && (#[trigger] g[k]).manifest.id == x;
        assert(ids[k] == x);
    }
    assert(vis.push(x).to_set() =~= vis.to_set().insert(x)) by {
        assert forall|a: Seq<char>| #[trigger] vis.push(x).contains(a) implies vis.contains(a) || a
            == x by {
            let k = choose|k: int| 0 <= k < vis.push(x).len() && vis.push(x)[k] == a;
            if k < vis.len() {
                assert(vis[k] == a);
            }
        }
        assert forall|a: Seq<char>| vis.contains(a) implies vis.push(x).contains(a) by {
            let k = choose|k: int| 0 <= k < vis.len() && vis[k] == a;
            assert(vis.push(x)[k] == a);
        }
        assert(vis.push(x)[vis.len() as int] == x);
    }
    assert(r1 =~= r0.remove(x));
    assert(r0.contains(x));
    assert(r0.finite());
    assert(r0.remove(x).len() == r0.len() - 1);
}

/// Growing the placed order never adds back a remaining id.
proof fn lemma_remaining_ord_grows(
    g: Seq<PluginView>,
    vis: Seq<Seq<char>>,
    ord1: Seq<Seq<char>>,
    ord2: Seq<Seq<char>>,
)
    requires
        ord1.is_prefix_of(ord2),
    ensures
        remaining(g, vis, ord2) <= remaining(g, vis, ord1),
{
    broadcast use vstd::seq_lib::seq_to_set_is_finite;

    let ids = g.map_values(|p: PluginView| p.manifest.id);
    let r1 = ids.to_set().difference(vis.to_set()).difference(ord1.to_set());
    let r2 = ids.to_set().difference(vis.to_set()).difference(ord2.to_set());
    assert forall|a: Seq<char>| #[trigger] r2.contains(a) implies r1.contains(a) by {
        if ord1.contains(a) {
            let k = choose|k: int| 0 <= k < ord1.len() && ord1[k] == a;
            assert(ord2[k] == ord1[k]);
            assert(ord2.contains(a));
        }
    }
    assert(r2.subset_of(r1));
    assert(r1.finite());
    vstd::set_lib::lemma_len_subset(r2, r1);
}

/// Why dependency resolution failed, naming the offending extension.
#[derive(Debug)]
pub enum ResolveError {
    /// A dependency chain returns to `plugin_id`.
    CircularDependency { plugin_id: String },
    /// `plugin_id` depends on `dependency_id`, which was not discovered.
    MissingDependency { plugin_id: String, dependency_id: String },
    /// `plugin_id` requires `dependency_id` at `required`, but `found` is installed.
    VersionMismatch {
        plugin_id: String,
        dependency_id: String,
        required: String,
        found: String,
    },
}

impl ResolveError {
    /// A human-readable description of the failure, naming the offenders.
    pub fn message(&self) -> (r: String)
        ensures
            (*self) matches ResolveError::CircularDependency { plugin_id } ==> r@
                == "Circular dependency detected involving plugin: "@ + plugin_id@,
            (*self) matches ResolveError::MissingDependency { plugin_id, dependency_id } ==> r@
                == "Plugin "@ + plugin_id@ + " depends on "@ + dependency_id@
                + " which is not installed"@,
            (*self) matches ResolveError::VersionMismatch {
                plugin_id,
                dependency_id,
                required,
                found,
            } ==> r@ == "Plugin "@ + plugin_id@ + " requires "@ + dependency_id@ + " version "@
                + required@ + ", but found "@ + found@,
    {
        match self {
            ResolveError::CircularDependency { plugin_id } => {
                let mut m = String::new();
                m.append("Circular dependency detected involving plugin: ");
                m.append(plugin_id.as_str());
                m
            },
            ResolveError::MissingDependency { plugin_id, dependency_id } => {
                let mut m = String::new();
                m.append("Plugin ");
                m.append(plugin_id.as_str());
                m.append(" depends on ");
                m.append(dependency_id.as_str());
                m.append(" which is not installed");
                m
            },
            ResolveError::VersionMismatch { plugin_id, dependency_id, required, found } => {
                let mut m = String::new();
                m.append("Plugin ");
                m.append(plugin_id.as_str());
                m.append(" requires ");
                m.append(dependency_id.as_str());
                m.append(" version ");
                m.append(required.as_str());
                m.append(", but found ");
                m.append(found.as_str());
                m
            },
        }
    }
}

/// Each error names a real offender: a plugin on a cycle, a declared but
/// undiscovered dependency, or a declared dependency whose installed version
/// fails the constraint.
pub open spec fn resolve_error_witnessed(g: Seq<PluginView>, e: ResolveError) -> bool {
    match e {
        ResolveError::CircularDependency { plugin_id } => on_cycle(g, plugin_id@),
        ResolveError::MissingDependency { plugin_id, dependency_id } => {
            edge(g, plugin_id@, dependency_id@) && !has_id(g, dependency_id@)
        },
        ResolveError::VersionMismatch { plugin_id, dependency_id, required, found } => {
            &&& declared_dep_req(g, plugin_id@, dependency_id@, required@)
            &&& has_id(g, dependency_id@)
            &&& found@ == version_of(g, dependency_id@)
            &&& !semver::spec_satisfies(found@, required@)
        },
    }
}

/// Find the index of the plugin with the given id.
pub fn find_plugin(g: &Vec<Plugin>, id: &str) -> (r: Option<usize>)
    ensures
        r is Some <==> has_id(plugins_view(g@), id@),
        r is Some ==> r->0 < g@.len() && plugins_view(g@)[r->0 as int].manifest.id == id@ && r->0
            == first_idx(plugins_view(g@), id@),
{
    let ghost gv = plugins_view(g@);
    let mut i: usize = 0;
    while i < g.len()
        invariant
            0 <= i <= g@.len(),
            gv == plugins_view(g@),
            gv.len() == g@.len(),
            forall|k: int| 0 <= k < i ==> (#[trigger] gv[k]).manifest.id != id@,
        decreases g@.len() - i,
    {
        proof {
            assert(gv[i as int] == g@[i as int]@);
        }
        if strutil::str_eq(g[i].manifest.id.as_str(), id) {
            proof {
                lemma_first_idx(gv, id@);
            }
            return Some(i);
        }
        i = i + 1;
    }
    proof {
        lemma_first_idx(gv, id@);
        if has_id(gv, id@) {
            let k = choose|k: int| 0 <= k < gv.len() && (#[trigger] gv[k]).manifest.id == id@;
            assert(gv[k].manifest.id != id@);
        }
    }
    None
}

/// The visiting stack may be extended by a fresh id reached by an edge from
/// its current top.
proof fn lemma_push_visiting(
    g: Seq<PluginView>,
    vis: Seq<Seq<char>>,
    ord: Seq<Seq<char>>,
    x: Seq<char>,
)
    requires
        state_inv(g, vis, ord),
        has_id(g, x),
        !vis.contains(x),
        !ord.contains(x),
        vis.len() > 0 ==> edge(g, vis[vis.len() - 1], x),
    ensures
        state_inv(g, vis.push(x), ord),
{
    let vis1 = vis.push(x);
    assert(forall|i: int| 0 <= i < vis.len() ==> #[trigger] vis1[i] == vis[i]);
    assert(vis1[vis1.len() - 1] == x);
    assert(vis1.no_duplicates()) by {
        assert forall|i: int, j: int|
            0 <= i < vis1.len() && 0 <= j < vis1.len() && i != j implies vis1[i] != vis1[j] by {
            if i < vis.len() && j < vis.len() {
                assert(vis1[i] == vis[i] && vis1[j] == vis[j]);
            } else if i < vis.len() {
                assert(vis1[j] == x && vis1[i] == vis[i]);
                if vis[i] == x {
                    assert(vis.contains(x));
                }
            } else {
                assert(vis1[i] == x && vis1[j] == vis[j]);
                if vis[j] == x {
                    assert(vis.contains(x));
                }
            }
        }
    }
    assert(chain_ok(g, vis1)) by {
        assert forall|i: int| 0 <= i < vis1.len() - 1 implies edge(
            g,
            #[trigger] vis1[i],
            vis1[i + 1],
        ) by {
            if i < vis.len() - 1 {
                assert(vis1[i] == vis[i] && vis1[i + 1] == vis[i + 1]);
            } else {
                assert(vis1[i] == vis[vis.len() - 1] && vis1[i + 1] == x);
            }
        }
    }
    assert forall|y: Seq<char>| #[trigger] ord.contains(y) implies !vis1.contains(y) by {
        assert(!vis.contains(y));
        if vis1.contains(y) {
            let k = choose|k: int| 0 <= k < vis1.len() && vis1[k] == y;
            if k < vis.len() {
                assert(vis[k] == y);
                assert(vis.contains(y));
            } else {
                assert(y == x);
            }
        }
    }
    assert forall|i: int| 0 <= i < vis1.len() implies has_id(g, #[trigger] vis1[i]) by {
        if i < vis.len() {
            assert(vis1[i] == vis[i]);
        } else {
            assert(vis1[i] == x);
        }
    }
}

/// A plugin whose dependencies are all placed may itself be appended to the
/// order, leaving the visiting stack without it.
proof fn lemma_place_plugin(g: Seq<PluginView>, vis: Seq<Seq<char>>, ord: Seq<Seq<char>>, k: int)
    requires
        wf_graph(g),
        0 <= k < g.len(),
        state_inv(g, vis.push(g[k].manifest.id), ord),
        forall|d: int|
            0 <= d < deps(g, k).len() ==> #[trigger] dep_satisfied(g, k, d) && ord.contains(
                deps(g, k)[d].0,
            ),
    ensures
        state_inv(g, vis, ord.push(g[k].manifest.id)),
        ord.is_prefix_of(ord.push(g[k].manifest.id)),
        ord.push(g[k].manifest.id).contains(g[k].manifest.id),
{
    let x = g[k].manifest.id;
    let vis1 = vis.push(x);
    let ord2 = ord.push(x);
    assert(forall|i: int| 0 <= i < vis.len() ==> #[trigger] vis1[i] == vis[i]);
    assert(forall|i: int| 0 <= i < ord.len() ==> #[trigger] ord2[i] == ord[i]);
    assert(vis1[vis1.len() - 1] == x);
    assert(ord2[ord2.len() - 1] == x);
    assert(vis1.contains(x));
    assert(!ord.contains(x));
    assert(!vis.contains(x)) by {
        if vis.contains(x) {
            let i = choose|i: int| 0 <= i < vis.len() && vis[i] == x;
            assert(vis1[i] == x);
            assert(vis1[vis1.len() - 1] == x);
        }
    }
    assert(ord2.no_duplicates()) by {
        assert forall|i: int, j: int|
            0 <= i < ord2.len() && 0 <= j < ord2.len() && i != j implies ord2[i] != ord2[j] by {
            if i < ord.len() && j < ord.len() {
                assert(ord2[i] == ord[i] && ord2[j] == ord[j]);
            } else if i < ord.len() {
                if ord[i] == x {
                    assert(ord.contains(x));
                }
            } else if j < ord.len() {
                if ord[j] == x {
                    assert(ord.contains(x));
                }
            }
        }
    }
    assert(chain_ok(g, vis)) by {
        assert forall|i: int| 0 <= i < vis.len() - 1 implies edge(
            g,
            #[trigger] vis[i],
            vis[i + 1],
        ) by {
            assert(vis1[i] == vis[i] && vis1[i + 1] == vis[i + 1]);
            assert(edge(g, vis1[i], vis1[i + 1]));
        }
    }
    assert(vis.no_duplicates()) by {
        assert forall|i: int, j: int|
            0 <= i < vis.len() && 0 <= j < vis.len() && i != j implies vis[i] != vis[j] by {
            assert(vis1[i] == vis[i] && vis1[j] == vis[j]);
        }
    }
    assert forall|y: Seq<char>| #[trigger] ord2.contains(y) implies !vis.contains(y) by {
        let i = choose|i: int| 0 <= i < ord2.len() && ord2[i] == y;
        if i < ord.len() {
            assert(ord.contains(y));
            assert(!vis1.contains(y));
            if vis.contains(y) {
                let j = choose|j: int| 0 <= j < vis.len() && vis[j] == y;
                assert(vis1[j] == y);
            }
        } else {
            assert(y == x);
        }
    }
    assert forall|i: int| 0 <= i < ord2.len() implies has_id(g, #[trigger] ord2[i]) by {
        if i < ord.len() {
            assert(ord.contains(ord[i]));
            assert(ord2[i] == ord[i]);
        } else {
            assert(ord2[i] == x);
        }
    }
    assert forall|i: int| 0 <= i < vis.len() implies has_id(g, #[trigger] vis[i]) by {
        assert(vis1[i] == vis[i]);
    }
    assert(placed_closed(g, ord2)) by {
        assert forall|k2: int, d2: int|
            0 <= k2 < g.len() && 0 <= d2 < deps(g, k2).len() && ord2.contains(
                g[k2].manifest.id,
            ) implies {
            &&& dep_satisfied(g, k2, d2)
            &&& ord2.contains((#[trigger] deps(g, k2)[d2]).0)
            &&& pos_of(ord2, deps(g, k2)[d2].0) < pos_of(ord2, g[k2].manifest.id)
        } by {
            let kid = g[k2].manifest.id;
            let did = deps(g, k2)[d2].0;
            if ord.contains(kid) {
                assert(dep_satisfied(g, k2, d2));
                assert(ord.contains(did));
                lemma_pos_of_push(ord, did, x);
                lemma_pos_of_push(ord, kid, x);
                assert(ord2.contains(did)) by {
                    let p = choose|p: int| 0 <= p < ord.len() && ord[p] == did;
                    assert(ord2[p] == did);
                }
            } else {
                let kk = choose|kk: int| 0 <= kk < ord2.len() && ord2[kk] == kid;
                if kk < ord.len() {
                    assert(ord[kk] == ord2[kk]);
                    assert(ord.contains(kid));
                    assert(false);
                }
                assert(kid == x);
                assert(k2 == k) by {
                    if k2 < k {
                        assert(g[k2].manifest.id != g[k].manifest.id);
                    } else if k2 > k {
                        assert(g[k].manifest.id != g[k2].manifest.id);
                    }
                }
                assert(dep_satisfied(g, k, d2));
                assert(ord.contains(did));
                lemma_pos_of_push(ord, did, x);
                lemma_pos_of(ord, did);
                lemma_pos_of_push(ord, x, x);
                assert(pos_of(ord2, x) == ord.len());
                assert(pos_of(ord2, did) < ord.len());
                assert(ord2.contains(did)) by {
                    let p = choose|p: int| 0 <= p < ord.len() && ord[p] == did;
                    assert(ord2[p] == did);
                }
            }
        }
    }
}

/// A hit on the visiting stack closes a dependency cycle through the
/// revisited id: the stack is a chain, and an edge leads from its top back
/// to the entry at `t`.
proof fn lemma_cycle_found(g: Seq<PluginView>, vis: Seq<Seq<char>>, x: Seq<char>, t: int)
    requires
        chain_ok(g, vis),
        0 <= t < vis.len(),
        vis[t] == x,
        edge(g, vis[vis.len() - 1], x),
    ensures
        on_cycle(g, x),
{
    let c = vis.subrange(t, vis.len() as int);
    assert(c[0] == vis[t]);
    assert forall|i: int| 0 <= i < c.len() - 1 implies edge(g, #[trigger] c[i], c[i + 1]) by {
        assert(c[i] == vis[t + i]);
        assert(c[i + 1] == vis[t + i + 1]);
    }
    assert(c[c.len() - 1] == vis[vis.len() - 1]);
    assert(is_cycle(g, c));
    assert(c.contains(x)) by {
        assert(c[0] == x);
    }
}

/// One DFS visit of the plugin at index `idx`, in the three-color style: ids
/// in `order` are finished, ids in `visiting` are on the current stack.
#[verifier::rlimit(100)]
fn visit(
    g: &Vec<Plugin>,
    idx: usize,
    visiting: &mut Vec<String>,
    order: &mut Vec<String>,
) -> (r: Result<(), ResolveError>)
    requires
        wf_graph(plugins_view(g@)),
        idx < g@.len(),
        state_inv(plugins_view(g@), seq_views(old(visiting)@), seq_views(old(order)@)),
        seq_views(old(visiting)@).len() > 0 ==> edge(
            plugins_view(g@),
            seq_views(old(visiting)@).last(),
            plugins_view(g@)[idx as int].manifest.id,
        ),
    ensures
        r is Ok ==> {
            &&& seq_views(final(visiting)@) == seq_views(old(visiting)@)
            &&& seq_views(old(order)@).is_prefix_of(seq_views(final(order)@))
            &&& state_inv(plugins_view(g@), seq_views(final(visiting)@), seq_views(final(order)@))
            &&& seq_views(final(order)@).contains(plugins_view(g@)[idx as int].manifest.id)
        },
        r is Err ==> resolve_error_witnessed(plugins_view(g@), r->Err_0),
    decreases remaining(plugins_view(g@), seq_views(old(visiting)@), seq_views(old(order)@)),
{
    let ghost gv = plugins_view(g@);
    let ghost vis0 = seq_views(visiting@);
    let ghost ord0 = seq_views(order@);
    proof {
        assert(gv[idx as int] == g@[idx as int]@);
    }
    let id: String = g[idx].manifest.id.clone();
    let ghost idv = gv[idx as int].manifest.id;
    assert(id@ == idv);

    if strutil::find_string(order, id.as_str()).is_some() {
        return Ok(());
    }
    assert(!ord0.contains(idv));

    match strutil::find_string(visiting, id.as_str()) {
        Some(t) => {
            proof {
                assert(seq_views(visiting@)[t as int] == visiting@[t as int]@);
                lemma_cycle_found(gv, vis0, idv, t as int);
            }
            return Err(ResolveError::CircularDependency { plugin_id: id });
        },
        None => {},
    }
    assert(!vis0.contains(idv));

    let ghost rem0 = remaining(gv, vis0, ord0);
    visiting.push(id.clone());
    let ghost vis1 = seq_views(visiting@);
    proof {
        assert(vis1 =~= vis0.push(idv));
        lemma_push_visiting(gv, vis0, ord0, idv);
        lemma_remaining_shrinks(gv, vis0, ord0, idv);
        assert(vis1[vis1.len() - 1] == idv);
    }

    let ndeps: usize = g[idx].manifest.dependencies.len();
    let ghost dv = deps(gv, idx as int);
    proof {
        assert(gv[idx as int] == g@[idx as int]@);
        assert(dv.len() == ndeps);
    }
    let mut d: usize = 0;
    while d < ndeps
        invariant
            wf_graph(gv),
            gv == plugins_view(g@),
            gv.len() == g@.len(),
            idx < g@.len(),
            idv == gv[idx as int].manifest.id,
            id@ == idv,
            dv == deps(gv, idx as int),
            dv.len() == ndeps,
            0 <= d <= ndeps,
            seq_views(visiting@) == vis1,
            vis1 == vis0.push(idv),
            vis0 == seq_views(old(visiting)@),
            ord0 == seq_views(old(order)@),
            state_inv(gv, vis1, seq_views(order@)),
            ord0.is_prefix_of(seq_views(order@)),
            rem0 == remaining(gv, vis0, ord0),
            remaining(gv, vis1, seq_views(order@)) < rem0,
            forall|dd: int|
                0 <= dd < d ==> #[trigger] dep_satisfied(gv, idx as int, dd) && seq_views(
                    order@,
                ).contains(deps(gv, idx as int)[dd].0),
        decreases ndeps - d,
    {
        proof {
            assert(gv[idx as int] == g@[idx as int]@);
            assert(dv[d as int] == g@[idx as int].manifest.dependencies@[d as int]@);
        }
        let dep_id: String = g[idx].manifest.dependencies[d].id.clone();
        let dep_req: String = g[idx].manifest.dependencies[d].req.clone();
        assert(dep_id@ == dv[d as int].0);
        assert(dep_req@ == dv[d as int].1);
        proof {
            assert(edge(gv, idv, dep_id@)) by {
                assert(0 <= idx < gv.len() && 0 <= d < deps(gv, idx as int).len() && gv[
                    idx as int].manifest.id == idv && (deps(gv, idx as int)[d as int]).0
                    == dep_id@);
            }
        }
        match find_plugin(g, dep_id.as_str()) {
            None => {
                return Err(ResolveError::MissingDependency {
                    plugin_id: id,
                    dependency_id: dep_id,
                });
            },
            Some(j) => {
                let found: String = g[j].manifest.version.clone();
                proof {
                    assert(gv[j as int] == g@[j as int]@);
                    assert(found@ == version_of(gv, dep_id@));
                }
                if !semver::version_satisfies(found.as_str(), dep_req.as_str()) {
                    proof {
                        assert(declared_dep_req(gv, idv, dep_id@, dep_req@)) by {
                            assert(0 <= idx < gv.len() && 0 <= d < deps(gv, idx as int).len()
                                && gv[idx as int].manifest.id == idv && (deps(gv, idx as int)[
                                d as int]).0 == dep_id@ && (deps(gv, idx as int)[d as int]).1
                                == dep_req@);
                        }
                    }
                    return Err(ResolveError::VersionMismatch {
                        plugin_id: id,
                        dependency_id: dep_id,
                        required: dep_req,
                        found,
                    });
                }
                proof {
                    assert(dep_satisfied(gv, idx as int, d as int));
                    assert(vis1.last() == idv);
                }
                let ghost ord_before = seq_views(order@);
                match visit(g, j, visiting, order) {
                    Ok(()) => {
                        proof {
                            assert(seq_views(order@).contains(dv[d as int].0));
                            lemma_remaining_ord_grows(gv, vis1, ord_before, seq_views(order@));
                        }
                    },
                    Err(e) => {
                        return Err(e);
                    },
                }
            },
        }
        proof {
            assert forall|dd: int|
                0 <= dd < d + 1 implies #[trigger] dep_satisfied(gv, idx as int, dd) && seq_views(
                order@,
            ).contains(deps(gv, idx as int)[dd].0) by {
                if dd < d {
                    assert(dep_satisfied(gv, idx as int, dd));
                    assert(seq_views(order@).contains(deps(gv, idx as int)[dd].0));
                }
            }
        }
        d = d + 1;
    }

    finish_place(g, idx, id, visiting, order);
    proof {
        assert(seq_views(visiting@) == vis1.drop_last());
        assert(vis1.drop_last() =~= vis0);
        let ord2 = seq_views(order@);
        assert(ord0.is_prefix_of(ord2)) by {
            let ord1 = ord2.drop_last();
            assert(forall|i: int| 0 <= i < ord1.len() ==> #[trigger] ord2[i] == ord1[i]);
        }
        assert(ord2.contains(idv)) by {
            assert(ord2[ord2.len() - 1] == idv);
        }
    }
    Ok(())
}

/// Pop the finished plugin off the visiting stack and append it to the load
/// order, once all of its dependencies are placed.
fn finish_place(
    g: &Vec<Plugin>,
    idx: usize,
    id: String,
    visiting: &mut Vec<String>,
    order: &mut Vec<String>,
)
    requires
        wf_graph(plugins_view(g@)),
        idx < g@.len(),
        id@ == plugins_view(g@)[idx as int].manifest.id,
        old(visiting)@.len() > 0,
        seq_views(old(visiting)@).last() == id@,
        state_inv(plugins_view(g@), seq_views(old(visiting)@), seq_views(old(order)@)),
        forall|dd: int|
            0 <= dd < deps(plugins_view(g@), idx as int).len() ==> #[trigger] dep_satisfied(
                plugins_view(g@),
                idx as int,
                dd,
            ) && seq_views(old(order)@).contains(deps(plugins_view(g@), idx as int)[dd].0),
    ensures
        seq_views(final(visiting)@) == seq_views(old(visiting)@).drop_last(),
        seq_views(final(order)@) == seq_views(old(order)@).push(id@),
        state_inv(plugins_view(g@), seq_views(final(visiting)@), seq_views(final(order)@)),
{
    let ghost gv = plugins_view(g@);
    let ghost visa = seq_views(visiting@);
    let ghost orda = seq_views(order@);
    let ghost vpre = visiting@;
    let _ = visiting.pop();
    proof {
        assert(visiting@ == vpre.subrange(0, vpre.len() - 1));
        assert forall|k: int| 0 <= k < visiting@.len() implies #[trigger] seq_views(visiting@)[k]
            == visa.drop_last()[k] by {
            assert(visiting@[k] == vpre[k]);
            assert(seq_views(vpre)[k] == vpre[k]@);
        }
        assert(seq_views(visiting@) =~= visa.drop_last());
    }
    order.push(id);
    proof {
        let ord2 = seq_views(order@);
        assert(ord2 =~= orda.push(id@));
        assert(visa.drop_last().push(id@) =~= visa);
        lemma_place_plugin(gv, visa.drop_last(), orda, idx as int);
    }
}



/// Plugin `k` may be placed next: its id is not yet placed and every
/// declared dependency already is.
pub open spec fn ready(g: Seq<PluginView>, placed: Seq<Seq<char>>, k: int) -> bool {
    &&& !placed.contains(g[k].manifest.id)
    &&& forall|d: int| 0 <= d < deps(g, k).len() ==> placed.contains((#[trigger] deps(g, k)[d]).0)
}

/// Index of the ready plugin with the lexicographically least id, among
/// indices at or after `i` (`g.len()` if none is ready there). Choosing by
/// least id makes the choice depend on which plugins exist, never on where
/// in the discovery sequence they stand.
pub open spec fn min_ready_from(g: Seq<PluginView>, placed: Seq<Seq<char>>, i: int) -> int
    decreases g.len() - i,
{
    if i < 0 || i >= g.len() {
        g.len() as int
    } else {
        let rest = min_ready_from(g, placed, i + 1);
        if !ready(g, placed, i) {
            rest
        } else if rest < g.len() && str_lt(g[rest].manifest.id, g[i].manifest.id) {
            rest
        } else {
            i
        }
    }
}

/// Index of the ready plugin with the least id.
pub open spec fn min_ready(g: Seq<PluginView>, placed: Seq<Seq<char>>) -> int {
    min_ready_from(g, placed, 0)
}

/// `min_ready_from` finds a ready index exactly when one exists, and its id
/// is least among the ready ones.
proof fn lemma_min_ready_from(g: Seq<PluginView>, placed: Seq<Seq<char>>, i: int)
    requires
        0 <= i <= g.len(),
    ensures
        i <= min_ready_from(g, placed, i) <= g.len(),
        min_ready_from(g, placed, i) < g.len() ==> ready(g, placed, min_ready_from(g, placed, i)),
        (exists|j: int| i <= j < g.len() && #[trigger] ready(g, placed, j)) ==> min_ready_from(
            g,
            placed,
            i,
        ) < g.len(),
        forall|j: int|
            i <= j < g.len() && #[trigger] ready(g, placed, j) ==> str_le(
                g[min_ready_from(g, placed, i)].manifest.id,
                g[j].manifest.id,
            ),
    decreases g.len() - i,
{
    if i < g.len() {
        lemma_min_ready_from(g, placed, i + 1);
        let rest = min_ready_from(g, placed, i + 1);
        let m = min_ready_from(g, placed, i);
        if ready(g, placed, i) {
            if rest < g.len() && str_lt(g[rest].manifest.id, g[i].manifest.id) {
                assert(m == rest);
                assert forall|j: int|
                    i <= j < g.len() && #[trigger] ready(g, placed, j) implies str_le(
                    g[m].manifest.id,
                    g[j].manifest.id,
                ) by {
                    if j == i {
                    } else {
                        assert(str_le(g[rest].manifest.id, g[j].manifest.id));
                    }
                }
            } else {
                assert(m == i);
                assert forall|j: int|
                    i <= j < g.len() && #[trigger] ready(g, placed, j) implies str_le(
                    g[m].manifest.id,
                    g[j].manifest.id,
                ) by {
                    if j == i {
                        crate::wiki::lemma_str_le_total(g[i].manifest.id, g[i].manifest.id);
                    } else {
                        assert(str_le(g[rest].manifest.id, g[j].manifest.id));
                        crate::wiki::lemma_str_le_total(
                            g[i].manifest.id,
                            g[rest].manifest.id,
                        );
                        crate::wiki::lemma_str_le_trans(
                            g[i].manifest.id,
                            g[rest].manifest.id,
                            g[j].manifest.id,
                        );
                    }
                }
            }
        }
    }
}

/// The canonical load order: starting from nothing placed, repeatedly place
/// the ready plugin with the least id. `steps` bounds the recursion; one
/// step per plugin always suffices.
pub open spec fn canon_from(g: Seq<PluginView>, placed: Seq<Seq<char>>, steps: nat) -> Seq<
    Seq<char>,
>
    decreases steps,
{
    if steps == 0 {
        placed
    } else {
        let k = min_ready(g, placed);
        if k < g.len() {
            canon_from(g, placed.push(g[k].manifest.id), (steps - 1) as nat)
        } else {
            placed
        }
    }
}

/// The canonical load order of a graph: the resolver's deterministic
/// tie-break among valid topological orders, a function of which plugins
/// were discovered ([`lemma_canonical_order_set_level`]).
pub open spec fn canonical_order(g: Seq<PluginView>) -> Seq<Seq<char>> {
    canon_from(g, Seq::empty(), g.len())
}

/// A record present in one discovery is present in any discovery of the
/// same records.
proof fn lemma_record_transfer(g1: Seq<PluginView>, g2: Seq<PluginView>, r: PluginView)
    requires
        g1.to_multiset() == g2.to_multiset(),
        g1.contains(r),
    ensures
        g2.contains(r),
{
    g1.to_multiset_ensures();
    g2.to_multiset_ensures();
    assert(g1.to_multiset().count(r) > 0);
}

/// Whether a plugin is ready depends on its record and the placed ids
/// alone, so the least ready id is the same in any discovery of the same
/// records.
proof fn lemma_min_ready_same(g1: Seq<PluginView>, g2: Seq<PluginView>, placed: Seq<Seq<char>>)
    requires
        wf_graph(g1),
        wf_graph(g2),
        g1.to_multiset() == g2.to_multiset(),
    ensures
        (min_ready(g1, placed) < g1.len()) == (min_ready(g2, placed) < g2.len()),
        min_ready(g1, placed) < g1.len() ==> g1[min_ready(g1, placed)].manifest.id == g2[min_ready(
            g2,
            placed,
        )].manifest.id,
{
    lemma_min_ready_from(g1, placed, 0);
    lemma_min_ready_from(g2, placed, 0);
    let m1 = min_ready(g1, placed);
    let m2 = min_ready(g2, placed);
    if m1 < g1.len() {
        let r = g1[m1];
        assert(g1.contains(r));
        lemma_record_transfer(g1, g2, r);
        let k2 = choose|k2: int| 0 <= k2 < g2.len() && g2[k2] == r;
        assert(ready(g2, placed, k2)) by {
            assert(deps(g2, k2) == deps(g1, m1));
        }
        assert(m2 < g2.len());
    }
    if m2 < g2.len() {
        let r = g2[m2];
        assert(g2.contains(r));
        lemma_record_transfer(g2, g1, r);
        let k1 = choose|k1: int| 0 <= k1 < g1.len() && g1[k1] == r;
        assert(ready(g1, placed, k1)) by {
            assert(deps(g1, k1) == deps(g2, m2));
        }
        assert(m1 < g1.len());
    }
    if m1 < g1.len() {
        // each least id is at most the other, transferred across
        let r1 = g1[m1];
        assert(g1.contains(r1));
        lemma_record_transfer(g1, g2, r1);
        let j2 = choose|j2: int| 0 <= j2 < g2.len() && g2[j2] == r1;
        assert(ready(g2, placed, j2)) by {
            assert(deps(g2, j2) == deps(g1, m1));
        }
        assert(str_le(g2[m2].manifest.id, r1.manifest.id));
        let r2 = g2[m2];
        assert(g2.contains(r2));
        lemma_record_transfer(g2, g1, r2);
        let j1 = choose|j1: int| 0 <= j1 < g1.len() && g1[j1] == r2;
        assert(ready(g1, placed, j1)) by {
            assert(deps(g1, j1) == deps(g2, m2));
        }
        assert(str_le(g1[m1].manifest.id, r2.manifest.id));
        crate::wiki::lemma_str_le_antisym(g1[m1].manifest.id, g2[m2].manifest.id);
    }
}

proof fn lemma_canon_from_same(
    g1: Seq<PluginView>,
    g2: Seq<PluginView>,
    placed: Seq<Seq<char>>,
    steps: nat,
)
    requires
        wf_graph(g1),
        wf_graph(g2),
        g1.to_multiset() == g2.to_multiset(),
    ensures
        canon_from(g1, placed, steps) == canon_from(g2, placed, steps),
    decreases steps,
{
    if steps > 0 {
        lemma_min_ready_same(g1, g2, placed);
        let m1 = min_ready(g1, placed);
        if m1 < g1.len() {
            lemma_canon_from_same(
                g1,
                g2,
                placed.push(g1[m1].manifest.id),
                (steps - 1) as nat,
            );
        }
    }
}

/// The canonical load order is a function of which plugins were discovered,
/// not of their discovery order: two discoveries holding the same plugin
/// records, in any order, share one canonical order. Together with
/// `resolve_order`'s ensures, two registries holding the same manifests
/// resolve to the same load order.
pub proof fn lemma_canonical_order_set_level(g1: Seq<PluginView>, g2: Seq<PluginView>)
    requires
        wf_graph(g1),
        wf_graph(g2),
        g1.to_multiset() == g2.to_multiset(),
    ensures
        canonical_order(g1) == canonical_order(g2),
{
    g1.to_multiset_ensures();
    g2.to_multiset_ensures();
    assert(g1.len() == g2.len());
    lemma_canon_from_same(g1, g2, Seq::empty(), g1.len());
}

/// Index of the first entry of `l` that is not placed (`l.len()` if all are).
spec fn first_unplaced(l: Seq<Seq<char>>, placed: Seq<Seq<char>>) -> int
    decreases l.len(),
{
    if l.len() == 0 {
        0
    } else if !placed.contains(l[0]) {
        0
    } else {
        1 + first_unplaced(l.skip(1), placed)
    }
}

proof fn lemma_first_unplaced(l: Seq<Seq<char>>, placed: Seq<Seq<char>>)
    ensures
        0 <= first_unplaced(l, placed) <= l.len(),
        first_unplaced(l, placed) < l.len() ==> !placed.contains(l[first_unplaced(l, placed)]),
        forall|m: int| 0 <= m < first_unplaced(l, placed) ==> placed.contains(#[trigger] l[m]),
    decreases l.len(),
{
    if l.len() > 0 && placed.contains(l[0]) {
        lemma_first_unplaced(l.skip(1), placed);
        assert forall|m: int| 0 <= m < first_unplaced(l, placed) implies placed.contains(
            #[trigger] l[m],
        ) by {
            if m > 0 {
                assert(l.skip(1)[m - 1] == l[m]);
            }
        }
    }
}

/// In a duplicate-free sequence, the first occurrence of the entry at `j`
/// is `j` itself.
proof fn lemma_pos_of_index(l: Seq<Seq<char>>, j: int)
    requires
        l.no_duplicates(),
        0 <= j < l.len(),
    ensures
        pos_of(l, l[j]) == j,
{
    assert(l.contains(l[j]));
    lemma_pos_of(l, l[j]);
    let p = pos_of(l, l[j]);
    if p != j {
        assert(l[p] != l[j]);
    }
}

/// While some discovered plugin is unplaced, one of them is ready: take the
/// earliest unplaced entry of any valid load order; its dependencies all
/// stand before it there, hence are placed.
proof fn lemma_ready_exists(g: Seq<PluginView>, l: Seq<Seq<char>>, placed: Seq<Seq<char>>)
    requires
        wf_graph(g),
        valid_load_order(g, l),
        exists|k: int| 0 <= k < g.len() && !placed.contains((#[trigger] g[k]).manifest.id),
    ensures
        exists|k: int| 0 <= k < g.len() && #[trigger] ready(g, placed, k),
{
    let k0 = choose|k: int| 0 <= k < g.len() && !placed.contains((#[trigger] g[k]).manifest.id);
    assert(l.contains(g[k0].manifest.id));
    let m = choose|m: int| 0 <= m < l.len() && l[m] == g[k0].manifest.id;
    let fu = first_unplaced(l, placed);
    lemma_first_unplaced(l, placed);
    assert(fu < l.len()) by {
        if fu > m {
            assert(placed.contains(l[m]));
        }
    }
    let v = l[fu];
    assert(has_id(g, v));
    let kv = first_idx(g, v);
    lemma_first_idx(g, v);
    assert(g[kv].manifest.id == v);
    lemma_pos_of_index(l, fu);
    assert forall|d: int| 0 <= d < deps(g, kv).len() implies placed.contains(
        (#[trigger] deps(g, kv)[d]).0,
    ) by {
        assert(l.contains(g[kv].manifest.id)) by {
            assert(l[fu] == g[kv].manifest.id);
        }
        assert(l.contains(deps(g, kv)[d].0) && pos_of(l, deps(g, kv)[d].0) < pos_of(
            l,
            g[kv].manifest.id,
        ));
        let pd = pos_of(l, deps(g, kv)[d].0);
        lemma_pos_of(l, deps(g, kv)[d].0);
        assert(placed.contains(l[pd]));
    }
    assert(ready(g, placed, kv));
}

/// Fewer placed ids than plugins leaves some plugin unplaced.
proof fn lemma_unplaced_remains(g: Seq<PluginView>, placed: Seq<Seq<char>>)
    requires
        wf_graph(g),
        placed.no_duplicates(),
        forall|i: int| 0 <= i < placed.len() ==> has_id(g, #[trigger] placed[i]),
        placed.len() < g.len(),
    ensures
        exists|k: int| 0 <= k < g.len() && !placed.contains((#[trigger] g[k]).manifest.id),
{
    broadcast use vstd::seq_lib::seq_to_set_is_finite;

    let ids = g.map_values(|p: PluginView| p.manifest.id);
    assert(ids.no_duplicates()) by {
        assert forall|i: int, j: int|
            0 <= i < ids.len() && 0 <= j < ids.len() && i != j implies ids[i] != ids[j] by {
            assert(ids[i] == g[i].manifest.id);
            assert(ids[j] == g[j].manifest.id);
        }
    }
    if forall|k: int| 0 <= k < g.len() ==> placed.contains((#[trigger] g[k]).manifest.id) {
        assert(ids.to_set().subset_of(placed.to_set())) by {
            assert forall|x: Seq<char>| ids.to_set().contains(x) implies placed.to_set().contains(
                x,
            ) by {
                let k = choose|k: int| 0 <= k < ids.len() && ids[k] == x;
                assert(placed.contains(g[k].manifest.id));
            }
        }
        ids.unique_seq_to_set();
        placed.unique_seq_to_set();
        vstd::set_lib::lemma_len_subset(ids.to_set(), placed.to_set());
        assert(false);
    }
}

/// As many distinct placed ids as plugins means every plugin is placed.
proof fn lemma_all_placed(g: Seq<PluginView>, placed: Seq<Seq<char>>)
    requires
        wf_graph(g),
        placed.no_duplicates(),
        forall|i: int| 0 <= i < placed.len() ==> has_id(g, #[trigger] placed[i]),
        placed.len() == g.len(),
    ensures
        forall|k: int| 0 <= k < g.len() ==> placed.contains((#[trigger] g[k]).manifest.id),
{
    broadcast use vstd::seq_lib::seq_to_set_is_finite;

    let ids = g.map_values(|p: PluginView| p.manifest.id);
    assert(ids.no_duplicates()) by {
        assert forall|i: int, j: int|
            0 <= i < ids.len() && 0 <= j < ids.len() && i != j implies ids[i] != ids[j] by {
            assert(ids[i] == g[i].manifest.id);
            assert(ids[j] == g[j].manifest.id);
        }
    }
    assert(placed.to_set().subset_of(ids.to_set())) by {
        assert forall|x: Seq<char>| placed.to_set().contains(x) implies ids.to_set().contains(
            x,
        ) by {
            let i = choose|i: int| 0 <= i < placed.len() && placed[i] == x;
            assert(has_id(g, x));
            let k = choose|k: int| 0 <= k < g.len() && (#[trigger] g[k]).manifest.id == x;
            assert(ids[k] == x);
            assert(ids.contains(x));
        }
    }
    ids.unique_seq_to_set();
    placed.unique_seq_to_set();
    vstd::set_lib::lemma_subset_equality(placed.to_set(), ids.to_set());
    assert forall|k: int| 0 <= k < g.len() implies placed.contains(
        (#[trigger] g[k]).manifest.id,
    ) by {
        assert(ids[k] == g[k].manifest.id);
        assert(ids.contains(g[k].manifest.id));
        assert(ids.to_set().contains(g[k].manifest.id));
        assert(placed.to_set().contains(g[k].manifest.id));
    }
}

/// Placing a ready plugin keeps the order duplicate-free, within the
/// discovered ids, and dependency-closed.
proof fn lemma_canon_push(g: Seq<PluginView>, ord: Seq<Seq<char>>, k: int)
    requires
        wf_graph(g),
        deps_satisfied(g),
        0 <= k < g.len(),
        ord.no_duplicates(),
        forall|i: int| 0 <= i < ord.len() ==> has_id(g, #[trigger] ord[i]),
        placed_closed(g, ord),
        ready(g, ord, k),
    ensures
        ord.push(g[k].manifest.id).no_duplicates(),
        forall|i: int|
            0 <= i < ord.push(g[k].manifest.id).len() ==> has_id(
                g,
                #[trigger] ord.push(g[k].manifest.id)[i],
            ),
        placed_closed(g, ord.push(g[k].manifest.id)),
{
    let x = g[k].manifest.id;
    let ord2 = ord.push(x);
    assert(forall|i: int| 0 <= i < ord.len() ==> #[trigger] ord2[i] == ord[i]);
    assert(ord2[ord2.len() - 1] == x);
    assert(!ord.contains(x));
    assert(ord2.no_duplicates()) by {
        assert forall|i: int, j: int|
            0 <= i < ord2.len() && 0 <= j < ord2.len() && i != j implies ord2[i] != ord2[j] by {
            if i < ord.len() && j < ord.len() {
            } else if i < ord.len() {
                if ord[i] == x {
                    assert(ord.contains(x));
                }
            } else if j < ord.len() {
                if ord[j] == x {
                    assert(ord.contains(x));
                }
            }
        }
    }
    assert forall|i: int| 0 <= i < ord2.len() implies has_id(g, #[trigger] ord2[i]) by {
        if i < ord.len() {
            assert(ord2[i] == ord[i]);
        } else {
            assert(ord2[i] == x);
        }
    }
    assert(placed_closed(g, ord2)) by {
        assert forall|k2: int, d2: int|
            0 <= k2 < g.len() && 0 <= d2 < deps(g, k2).len() && ord2.contains(
                g[k2].manifest.id,
            ) implies {
            &&& dep_satisfied(g, k2, d2)
            &&& ord2.contains((#[trigger] deps(g, k2)[d2]).0)
            &&& pos_of(ord2, deps(g, k2)[d2].0) < pos_of(ord2, g[k2].manifest.id)
        } by {
            let kid = g[k2].manifest.id;
            let did = deps(g, k2)[d2].0;
            assert(dep_satisfied(g, k2, d2));
            if ord.contains(kid) {
                assert(ord.contains(did));
                lemma_pos_of_push(ord, did, x);
                lemma_pos_of_push(ord, kid, x);
                assert(ord2.contains(did)) by {
                    let p = choose|p: int| 0 <= p < ord.len() && ord[p] == did;
                    assert(ord2[p] == did);
                }
            } else {
                let kk = choose|kk: int| 0 <= kk < ord2.len() && ord2[kk] == kid;
                if kk < ord.len() {
                    assert(ord[kk] == ord2[kk]);
                    assert(ord.contains(kid));
                    assert(false);
                }
                assert(kid == x);
                assert(k2 == k) by {
                    if k2 < k {
                        assert(g[k2].manifest.id != g[k].manifest.id);
                    } else if k2 > k {
                        assert(g[k].manifest.id != g[k2].manifest.id);
                    }
                }
                assert(ord.contains(did));
                lemma_pos_of_push(ord, did, x);
                lemma_pos_of(ord, did);
                lemma_pos_of_push(ord, x, x);
                assert(pos_of(ord2, x) == ord.len());
                assert(pos_of(ord2, did) < ord.len());
                assert(ord2.contains(did)) by {
                    let p = choose|p: int| 0 <= p < ord.len() && ord[p] == did;
                    assert(ord2[p] == did);
                }
            }
        }
    }
}

/// Is plugin `k` ready to be placed, given the ids placed so far?
fn is_ready(g: &Vec<Plugin>, order: &Vec<String>, k: usize) -> (r: bool)
    requires
        k < g@.len(),
    ensures
        r == ready(plugins_view(g@), seq_views(order@), k as int),
{
    let ghost gv = plugins_view(g@);
    proof {
        assert(gv[k as int] == g@[k as int]@);
    }
    if strutil::find_string(order, g[k].manifest.id.as_str()).is_some() {
        return false;
    }
    let ndeps: usize = g[k].manifest.dependencies.len();
    let ghost dv = deps(gv, k as int);
    let mut d: usize = 0;
    while d < ndeps
        invariant
            k < g@.len(),
            gv == plugins_view(g@),
            dv == deps(gv, k as int),
            dv.len() == ndeps,
            0 <= d <= ndeps,
            forall|dd: int| 0 <= dd < d ==> seq_views(order@).contains((#[trigger] dv[dd]).0),
        decreases ndeps - d,
    {
        proof {
            assert(gv[k as int] == g@[k as int]@);
            assert(dv[d as int] == g@[k as int].manifest.dependencies@[d as int]@);
        }
        if strutil::find_string(order, g[k].manifest.dependencies[d].id.as_str()).is_none() {
            proof {
                assert(!seq_views(order@).contains(dv[d as int].0));
            }
            return false;
        }
        d = d + 1;
    }
    proof {
        assert(!seq_views(order@).contains(gv[k as int].manifest.id));
    }
    true
}

/// Rearrange a resolvable graph into its canonical order: place, at each
/// step, the plugin with the least id among those whose dependencies are
/// all placed. Any valid load order witnesses that a ready plugin always
/// remains.
fn canonicalize(g: &Vec<Plugin>, Ghost(l): Ghost<Seq<Seq<char>>>) -> (r: Vec<String>)
    requires
        wf_graph(plugins_view(g@)),
        valid_load_order(plugins_view(g@), l),
    ensures
        seq_views(r@) == canonical_order(plugins_view(g@)),
        valid_load_order(plugins_view(g@), seq_views(r@)),
{
    let ghost gv = plugins_view(g@);
    proof {
        lemma_valid_order_deps_satisfied(gv, l);
    }
    let n: usize = g.len();
    let mut order: Vec<String> = Vec::new();
    let mut i: usize = 0;
    proof {
        assert(seq_views(order@) =~= Seq::<Seq<char>>::empty());
        assert(canonical_order(gv) == canon_from(gv, seq_views(order@), (n - i) as nat));
    }
    while i < n
        invariant
            wf_graph(gv),
            deps_satisfied(gv),
            gv == plugins_view(g@),
            gv.len() == g@.len(),
            n == g@.len(),
            valid_load_order(gv, l),
            0 <= i <= n,
            order@.len() == i,
            seq_views(order@).no_duplicates(),
            forall|j: int| 0 <= j < i ==> has_id(gv, #[trigger] seq_views(order@)[j]),
            placed_closed(gv, seq_views(order@)),
            canonical_order(gv) == canon_from(gv, seq_views(order@), (n - i) as nat),
        decreases n - i,
    {
        let ghost placed = seq_views(order@);
        // find the ready plugin with the least id
        let mut best: usize = n;
        let mut k: usize = 0;
        while k < n
            invariant
                0 <= k <= n,
                n == g@.len(),
                gv == plugins_view(g@),
                gv.len() == g@.len(),
                wf_graph(gv),
                placed == seq_views(order@),
                best <= n,
                best < n ==> ready(gv, placed, best as int),
                best == n ==> forall|j: int| 0 <= j < k ==> !ready(gv, placed, j),
                best < n ==> forall|j: int|
                    0 <= j < k && #[trigger] ready(gv, placed, j) ==> str_le(
                        gv[best as int].manifest.id,
                        gv[j].manifest.id,
                    ),
            decreases n - k,
        {
            proof {
                assert(gv[k as int] == g@[k as int]@);
            }
            if is_ready(g, &order, k) {
                if best == n {
                    best = k;
                    proof {
                        crate::wiki::lemma_str_le_total(
                            gv[k as int].manifest.id,
                            gv[k as int].manifest.id,
                        );
                        assert forall|j: int|
                            0 <= j < k + 1 && #[trigger] ready(gv, placed, j) implies str_le(
                            gv[best as int].manifest.id,
                            gv[j].manifest.id,
                        ) by {
                            if j < k {
                                assert(!ready(gv, placed, j));
                            }
                        }
                    }
                } else {
                    proof {
                        assert(gv[best as int] == g@[best as int]@);
                    }
                    let le = crate::wiki::str_le_ex(
                        g[k].manifest.id.as_str(),
                        g[best].manifest.id.as_str(),
                    );
                    let eq = strutil::str_eq(
                        g[k].manifest.id.as_str(),
                        g[best].manifest.id.as_str(),
                    );
                    if le && !eq {
                        let ghost ob: int = best as int;
                        best = k;
                        proof {
                            crate::wiki::lemma_str_le_total(
                                gv[k as int].manifest.id,
                                gv[k as int].manifest.id,
                            );
                            assert forall|j: int|
                                0 <= j < k + 1 && #[trigger] ready(gv, placed, j) implies str_le(
                                gv[best as int].manifest.id,
                                gv[j].manifest.id,
                            ) by {
                                if j < k {
                                    assert(str_le(gv[ob].manifest.id, gv[j].manifest.id));
                                    crate::wiki::lemma_str_le_trans(
                                        gv[k as int].manifest.id,
                                        gv[ob].manifest.id,
                                        gv[j].manifest.id,
                                    );
                                }
                            }
                        }
                    } else {
                        proof {
                            assert(str_le(
                                gv[best as int].manifest.id,
                                gv[k as int].manifest.id,
                            )) by {
                                crate::wiki::lemma_str_le_total(
                                    gv[best as int].manifest.id,
                                    gv[k as int].manifest.id,
                                );
                            }
                            assert forall|j: int|
                                0 <= j < k + 1 && #[trigger] ready(gv, placed, j) implies str_le(
                                gv[best as int].manifest.id,
                                gv[j].manifest.id,
                            ) by {
                            }
                        }
                    }
                }
            } else {
                proof {
                    if best < n {
                        assert forall|j: int|
                            0 <= j < k + 1 && #[trigger] ready(gv, placed, j) implies str_le(
                            gv[best as int].manifest.id,
                            gv[j].manifest.id,
                        ) by {
                        }
                    }
                }
            }
            k = k + 1;
        }
        proof {
            lemma_unplaced_remains(gv, placed);
            lemma_ready_exists(gv, l, placed);
            if best == n {
                let kw = choose|kw: int| 0 <= kw < gv.len() && #[trigger] ready(gv, placed, kw);
                assert(!ready(gv, placed, kw));
            }
            assert(best < n && ready(gv, placed, best as int));
            lemma_min_ready_from(gv, placed, 0);
            let m = min_ready(gv, placed);
            assert(str_le(gv[m].manifest.id, gv[best as int].manifest.id));
            assert(str_le(gv[best as int].manifest.id, gv[m].manifest.id));
            crate::wiki::lemma_str_le_antisym(
                gv[best as int].manifest.id,
                gv[m].manifest.id,
            );
            assert(best as int == m) by {
                if (best as int) < m {
                    assert(gv[best as int].manifest.id != gv[m].manifest.id);
                } else if m < best as int {
                    assert(gv[m].manifest.id != gv[best as int].manifest.id);
                }
            }
            assert(min_ready(gv, placed) == best as int);
            assert(gv[best as int] == g@[best as int]@);
        }
        let id: String = g[best].manifest.id.clone();
        let ghost opre = seq_views(order@);
        order.push(id);
        proof {
            let opost = seq_views(order@);
            assert(opost =~= opre.push(gv[best as int].manifest.id)) by {
                assert(forall|m2: int| 0 <= m2 < opre.len() ==> #[trigger] opost[m2] == opre[m2]);
                assert(opost[opost.len() - 1] == gv[best as int].manifest.id);
            }
            lemma_canon_push(gv, opre, best as int);
            assert(canon_from(gv, opre, (n - i) as nat) == canon_from(
                gv,
                opre.push(gv[best as int].manifest.id),
                (n - i - 1) as nat,
            ));
        }
        i = i + 1;
    }
    proof {
        let placed = seq_views(order@);
        assert(canon_from(gv, placed, 0) == placed);
        lemma_all_placed(gv, placed);
        assert(valid_load_order(gv, placed));
    }
    order
}

/// Resolve the full dependency graph into a deterministic load order.
///
/// On success the result is exactly [`canonical_order`] — a function of
/// which plugins were discovered, the same for any discovery order of the
/// same records ([`lemma_canonical_order_set_level`]) — listing every
/// discovered plugin once with each dependency strictly before its
/// dependents (so the graph is acyclic and complete); each failure names an
/// offending extension. For an acyclic graph whose dependencies are all
/// discovered and version-compatible, resolution always succeeds.
pub fn resolve_order(g: &Vec<Plugin>) -> (r: Result<Vec<String>, ResolveError>)
    requires
        wf_graph(plugins_view(g@)),
    ensures
        r is Ok ==> seq_views(r->Ok_0@) == canonical_order(plugins_view(g@)),
        r is Ok ==> valid_load_order(plugins_view(g@), seq_views(r->Ok_0@)),
        r is Ok ==> deps_satisfied(plugins_view(g@)),
        r is Ok ==> !has_cycle(plugins_view(g@)),
        r is Err ==> resolve_error_witnessed(plugins_view(g@), r->Err_0),
        !has_cycle(plugins_view(g@)) && deps_satisfied(plugins_view(g@)) ==> r is Ok,
        has_cycle(plugins_view(g@)) ==> r is Err,
        !deps_present(plugins_view(g@)) ==> r is Err,
{
    let ghost gv = plugins_view(g@);
    let mut order: Vec<String> = Vec::new();
    let mut visiting: Vec<String> = Vec::new();
    let mut i: usize = 0;
    proof {
        assert(seq_views(order@) =~= Seq::<Seq<char>>::empty());
        assert(seq_views(visiting@) =~= Seq::<Seq<char>>::empty());
    }
    while i < g.len()
        invariant
            wf_graph(gv),
            gv == plugins_view(g@),
            gv.len() == g@.len(),
            0 <= i <= g@.len(),
            seq_views(visiting@) == Seq::<Seq<char>>::empty(),
            state_inv(gv, seq_views(visiting@), seq_views(order@)),
            forall|k: int|
                0 <= k < i ==> seq_views(order@).contains((#[trigger] gv[k]).manifest.id),
        decreases g@.len() - i,
    {
        let ghost ord_pre = seq_views(order@);
        match visit(g, i, &mut visiting, &mut order) {
            Ok(()) => {},
            Err(e) => {
                proof {
                    lemma_witness_classifies(gv, e);
                }
                return Err(e);
            },
        }
        proof {
            assert(gv[i as int] == g@[i as int]@);
            assert forall|k: int|
                0 <= k < i + 1 implies seq_views(order@).contains(
                (#[trigger] gv[k]).manifest.id,
            ) by {
                if k < i {
                    assert(ord_pre.contains(gv[k].manifest.id));
                    let p = choose|p: int| 0 <= p < ord_pre.len() && ord_pre[p] == gv[
                        k].manifest.id;
                    assert(ord_pre.is_prefix_of(seq_views(order@)));
                    assert(seq_views(order@)[p] == ord_pre[p]);
                }
            }
        }
        i = i + 1;
    }
    proof {
        assert(valid_load_order(gv, seq_views(order@)));
        lemma_valid_order_deps_satisfied(gv, seq_views(order@));
        lemma_order_excludes_cycle(gv, seq_views(order@));
    }
    let canon = canonicalize(g, Ghost(seq_views(order@)));
    Ok(canon)
}

/// An error witness contradicts the hypotheses of completeness: a cycle
/// witness gives `has_cycle`, a missing or mismatched dependency refutes
/// `deps_satisfied`.
proof fn lemma_witness_classifies(g: Seq<PluginView>, e: ResolveError)
    requires
        resolve_error_witnessed(g, e),
    ensures
        has_cycle(g) || !deps_satisfied(g),
{
    match e {
        ResolveError::CircularDependency { plugin_id } => {
            let c = choose|c: Seq<Seq<char>>| #[trigger] is_cycle(g, c) && c.contains(plugin_id@);
            assert(is_cycle(g, c));
            assert(has_cycle(g));
        },
        ResolveError::MissingDependency { plugin_id, dependency_id } => {
            let (k, d) = choose|k: int, d: int|
                0 <= k < g.len() && 0 <= d < deps(g, k).len() && g[k].manifest.id == plugin_id@
                    && (#[trigger] deps(g, k)[d]).0 == dependency_id@;
            if deps_satisfied(g) {
                assert(dep_satisfied(g, k, d));
                assert(has_id(g, dependency_id@));
            }
        },
        ResolveError::VersionMismatch { plugin_id, dependency_id, required, found } => {
            let (k, d) = choose|k: int, d: int|
                0 <= k < g.len() && 0 <= d < deps(g, k).len() && g[k].manifest.id == plugin_id@
                    && (#[trigger] deps(g, k)[d]).0 == dependency_id@ && deps(g, k)[d].1
                    == required@;
            if deps_satisfied(g) {
                assert(dep_satisfied(g, k, d));
            }
        },
    }
}


/// Every declared dependency that is discovered is version-compatible;
/// dependencies on undiscovered ids are not constrained.
pub open spec fn present_deps_satisfied(g: Seq<PluginView>) -> bool {
    forall|k: int, d: int|
        #![trigger deps(g, k)[d]]
        0 <= k < g.len() && 0 <= d < deps(g, k).len() && has_id(g, deps(g, k)[d].0)
            ==> semver::spec_satisfies(version_of(g, deps(g, k)[d].0), deps(g, k)[d].1)
}

/// When every dependency is discovered and version-compatible, the only
/// failure the resolver can report is a circular dependency, and the
/// extension it names lies on a cycle.
pub proof fn lemma_error_is_cycle(g: Seq<PluginView>, e: ResolveError)
    requires
        resolve_error_witnessed(g, e),
        deps_satisfied(g),
    ensures
        e matches ResolveError::CircularDependency { plugin_id: p } && on_cycle(g, p@),
{
    match e {
        ResolveError::CircularDependency { plugin_id } => {
        },
        ResolveError::MissingDependency { plugin_id, dependency_id } => {
            let (k, d) = choose|k: int, d: int|
                0 <= k < g.len() && 0 <= d < deps(g, k).len() && g[k].manifest.id == plugin_id@
                    && (#[trigger] deps(g, k)[d]).0 == dependency_id@;
            assert(dep_satisfied(g, k, d));
        },
        ResolveError::VersionMismatch { plugin_id, dependency_id, required, found } => {
            let (k, d) = choose|k: int, d: int|
                0 <= k < g.len() && 0 <= d < deps(g, k).len() && g[k].manifest.id == plugin_id@
                    && (#[trigger] deps(g, k)[d]).0 == dependency_id@ && deps(g, k)[d].1
                    == required@;
            assert(dep_satisfied(g, k, d));
        },
    }
}

/// When the graph has no cycle and every discovered dependency is
/// version-compatible, the only failure the resolver can report names a
/// requesting plugin together with its undiscovered dependency.
pub proof fn lemma_error_is_missing(g: Seq<PluginView>, e: ResolveError)
    requires
        resolve_error_witnessed(g, e),
        !has_cycle(g),
        present_deps_satisfied(g),
    ensures
        (e matches ResolveError::MissingDependency { plugin_id: p, dependency_id: dep } && edge(
            g,
            p@,
            dep@,
        ) && !has_id(g, dep@)),
{
    match e {
        ResolveError::CircularDependency { plugin_id } => {
            let c = choose|c: Seq<Seq<char>>| #[trigger] is_cycle(g, c) && c.contains(plugin_id@);
            assert(is_cycle(g, c));
            assert(has_cycle(g));
        },
        ResolveError::MissingDependency { plugin_id, dependency_id } => {
        },
        ResolveError::VersionMismatch { plugin_id, dependency_id, required, found } => {
            let (k, d) = choose|k: int, d: int|
                0 <= k < g.len() && 0 <= d < deps(g, k).len() && g[k].manifest.id == plugin_id@
                    && (#[trigger] deps(g, k)[d]).0 == dependency_id@ && deps(g, k)[d].1
                    == required@;
            assert(semver::spec_satisfies(version_of(g, deps(g, k)[d].0), deps(g, k)[d].1));
        },
    }
}

/// In a valid load order every declared dependency is discovered and
/// version-compatible: placement closure applied to a complete order.
pub proof fn lemma_valid_order_deps_satisfied(g: Seq<PluginView>, ord: Seq<Seq<char>>)
    requires
        valid_load_order(g, ord),
    ensures
        deps_satisfied(g),
        deps_present(g),
{
    assert forall|k: int, d: int|
        0 <= k < g.len() && 0 <= d < (#[trigger] deps(g, k)).len() implies #[trigger] dep_satisfied(
        g,
        k,
        d,
    ) by {
        assert(ord.contains(g[k].manifest.id));
        assert(deps(g, k)[d] == deps(g, k)[d]);
    }
    assert forall|k: int, d: int|
        0 <= k < g.len() && 0 <= d < deps(g, k).len() implies has_id(
        g,
        (#[trigger] deps(g, k)[d]).0,
    ) by {
        assert(dep_satisfied(g, k, d));
    }
}

/// Positions strictly decrease along a dependency walk in a valid order.
proof fn lemma_walk_pos_decreases(g: Seq<PluginView>, ord: Seq<Seq<char>>, c: Seq<Seq<char>>, i: int)
    requires
        valid_load_order(g, ord),
        is_cycle(g, c),
        0 <= i < c.len(),
    ensures
        pos_of(ord, c[i]) <= pos_of(ord, c[0]) - i,
    decreases i,
{
    if i > 0 {
        lemma_walk_pos_decreases(g, ord, c, i - 1);
        assert(edge(g, c[i - 1], c[i]));
        lemma_edge_pos_lt(g, ord, c[i - 1], c[i]);
    }
}

/// A dependency edge forces the dependency strictly earlier in a valid order.
proof fn lemma_edge_pos_lt(g: Seq<PluginView>, ord: Seq<Seq<char>>, a: Seq<char>, b: Seq<char>)
    requires
        valid_load_order(g, ord),
        edge(g, a, b),
    ensures
        pos_of(ord, b) < pos_of(ord, a),
{
    let (k, d) = choose|k: int, d: int|
        0 <= k < g.len() && 0 <= d < deps(g, k).len() && g[k].manifest.id == a && (#[trigger] deps(
            g,
            k,
        )[d]).0 == b;
    assert(ord.contains(g[k].manifest.id));
    assert(pos_of(ord, deps(g, k)[d].0) < pos_of(ord, g[k].manifest.id));
}

/// A valid load order rules out dependency cycles: positions would have to
/// decrease strictly forever around the cycle.
pub proof fn lemma_order_excludes_cycle(g: Seq<PluginView>, ord: Seq<Seq<char>>)
    requires
        valid_load_order(g, ord),
    ensures
        !has_cycle(g),
{
    if has_cycle(g) {
        let c = choose|c: Seq<Seq<char>>| is_cycle(g, c);
        lemma_walk_pos_decreases(g, ord, c, c.len() - 1);
        lemma_edge_pos_lt(g, ord, c[c.len() - 1], c[0]);
        assert(false);
    }
}

} // verus!
