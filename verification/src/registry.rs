//! The plugin registry and lifecycle orchestrator: owns the discovered
//! plugin records, the persisted enabled-set, and the resolved load order,
//! and drives every state transition. Loading and unloading of the actual
//! runtimes happens outside; the registry hands out load instructions and is
//! told the outcome, so that a failing extension ends in `Failed` while its
//! peers continue.

use vstd::prelude::*;
use crate::plugin::{
    Plugin, PluginView, PluginState, PluginType, PluginContext, PluginManifest, PluginCapability,
    ManifestError, validate_manifest, spec_validate_manifest, clone_caps, clone_strings,
};
use crate::resolver::{
    self, ResolveError, plugins_view, wf_graph, has_id, first_idx, lemma_first_idx,
    valid_load_order, has_cycle, deps_satisfied, deps_present, resolve_error_witnessed,
};
use crate::strutil::{self, seq_views, opt_view};

verus! {

/// The persisted set of enabled extension ids: the in-memory model of the
/// side-car configuration document, mutated on every enable or disable.
pub struct EnabledSet {
    pub ids: Vec<String>,
}

impl EnabledSet {
    /// The mathematical set of enabled ids.
    pub open spec fn set_view(&self) -> Set<Seq<char>> {
        seq_views(self.ids@).to_set()
    }

    pub open spec fn wf(&self) -> bool {
        seq_views(self.ids@).no_duplicates()
    }

    /// An empty enabled-set, as after a fresh install with no persisted file.
    pub fn new() -> (r: Self)
        ensures
            r.wf(),
            r.set_view() == Set::<Seq<char>>::empty(),
    {
        let r = EnabledSet { ids: Vec::new() };
        proof {
            assert(seq_views(r.ids@) =~= Seq::<Seq<char>>::empty());
            assert(r.set_view() =~= Set::<Seq<char>>::empty());
        }
        r
    }

    /// Build the set from persisted ids, dropping duplicates.
    pub fn from_ids(ids: Vec<String>) -> (r: Self)
        ensures
            r.wf(),
            r.set_view() == seq_views(ids@).to_set(),
    {
        let mut out = EnabledSet::new();
        let mut i: usize = 0;
        while i < ids.len()
            invariant
                0 <= i <= ids@.len(),
                out.wf(),
                out.set_view() == seq_views(ids@.take(i as int)).to_set(),
            decreases ids@.len() - i,
        {
            out.insert(ids[i].as_str());
            proof {
                let a = seq_views(ids@.take(i as int)).to_set().insert(ids@[i as int]@);
                let b = seq_views(ids@.take(i + 1)).to_set();
                assert forall|x: Seq<char>| a.contains(x) implies b.contains(x) by {
                    let s = seq_views(ids@.take(i + 1));
                    if x == ids@[i as int]@ {
                        assert(s[i as int] == x);
                        assert(s.contains(x));
                    } else {
                        let p = seq_views(ids@.take(i as int));
                        let k = choose|k: int| 0 <= k < p.len() && p[k] == x;
                        assert(s[k] == ids@.take(i + 1)[k]@);
                        assert(s[k] == x);
                        assert(s.contains(x));
                    }
                }
                assert forall|x: Seq<char>| b.contains(x) implies a.contains(x) by {
                    let s = seq_views(ids@.take(i + 1));
                    let k = choose|k: int| 0 <= k < s.len() && s[k] == x;
                    if k < i {
                        let p = seq_views(ids@.take(i as int));
                        assert(p[k] == x);
                        assert(p.contains(x));
                    } else {
                        assert(x == ids@[i as int]@);
                    }
                }
                assert(a =~= b);
            }
            i = i + 1;
        }
        proof {
            assert(ids@.take(ids@.len() as int) =~= ids@);
        }
        out
    }

    /// Is this id enabled?
    pub fn contains(&self, id: &str) -> (r: bool)
        ensures
            r == self.set_view().contains(id@),
    {
        strutil::find_string(&self.ids, id).is_some()
    }

    /// The set is empty exactly on the fresh-install path.
    pub fn is_empty(&self) -> (r: bool)
        ensures
            r == (self.set_view() == Set::<Seq<char>>::empty()),
    {
        let r = self.ids.len() == 0;
        proof {
            if self.ids@.len() == 0 {
                assert(seq_views(self.ids@) =~= Seq::<Seq<char>>::empty());
                assert(self.set_view() =~= Set::<Seq<char>>::empty());
            } else {
                assert(seq_views(self.ids@)[0] == self.ids@[0]@);
                assert(self.set_view().contains(self.ids@[0]@));
            }
        }
        r
    }

    /// Add an id; adding one already present changes nothing.
    pub fn insert(&mut self, id: &str)
        requires
            old(self).wf(),
        ensures
            final(self).wf(),
            final(self).set_view() == old(self).set_view().insert(id@),
    {
        let ghost pre = seq_views(self.ids@);
        if strutil::find_string(&self.ids, id).is_none() {
            self.ids.push(id.to_owned());
            proof {
                let post = seq_views(self.ids@);
                assert(forall|k: int| 0 <= k < pre.len() ==> #[trigger] post[k] == pre[k]);
                assert(post[post.len() - 1] == id@);
                assert(post.no_duplicates()) by {
                    assert forall|i: int, j: int|
                        0 <= i < post.len() && 0 <= j < post.len() && i != j implies post[i]
                        != post[j] by {
                        if i < pre.len() && j < pre.len() {
                        } else if i < pre.len() {
                            if pre[i] == id@ {
                                assert(pre.contains(id@));
                            }
                        } else if j < pre.len() {
                            if pre[j] == id@ {
                                assert(pre.contains(id@));
                            }
                        }
                    }
                }
                assert forall|x: Seq<char>| #[trigger] post.contains(x) implies pre.contains(x)
                    || x == id@ by {
                    let k = choose|k: int| 0 <= k < post.len() && post[k] == x;
                    if k < pre.len() {
                        assert(pre[k] == x);
                    }
                }
                assert forall|x: Seq<char>| pre.contains(x) implies post.contains(x) by {
                    let k = choose|k: int| 0 <= k < pre.len() && pre[k] == x;
                    assert(post[k] == x);
                }
                assert(post.to_set() =~= pre.to_set().insert(id@));
            }
        } else {
            proof {
                assert(pre.to_set() =~= pre.to_set().insert(id@));
            }
        }
    }

    /// Remove an id; removing one not present changes nothing.
    pub fn remove(&mut self, id: &str)
        requires
            old(self).wf(),
        ensures
            final(self).wf(),
            final(self).set_view() == old(self).set_view().remove(id@),
    {
        let ghost pre = seq_views(self.ids@);
        let mut out: Vec<String> = Vec::new();
        let mut i: usize = 0;
        while i < self.ids.len()
            invariant
                0 <= i <= self.ids@.len(),
                pre == seq_views(self.ids@),
                pre.no_duplicates(),
                seq_views(out@).no_duplicates(),
                forall|x: Seq<char>| #[trigger]
                    seq_views(out@).contains(x) <==> (pre.take(i as int).contains(x) && x != id@),
            decreases self.ids@.len() - i,
        {
            proof {
                assert(pre[i as int] == self.ids@[i as int]@);
            }
            if !strutil::str_eq(self.ids[i].as_str(), id) {
                let ghost opre = seq_views(out@);
                out.push(self.ids[i].clone());
                proof {
                    let opost = seq_views(out@);
                    assert(forall|k: int| 0 <= k < opre.len() ==> #[trigger] opost[k] == opre[k]);
                    assert(opost[opost.len() - 1] == self.ids@[i as int]@);
                    assert(opost.no_duplicates()) by {
                        assert forall|a: int, b: int|
                            0 <= a < opost.len() && 0 <= b < opost.len() && a != b implies opost[a]
                            != opost[b] by {
                            if a < opre.len() && b < opre.len() {
                            } else if a < opre.len() {
                                if opre[a] == pre[i as int] {
                                    assert(opre.contains(pre[i as int]));
                                    let k = choose|k: int|
                                        0 <= k < i && #[trigger] pre.take(i as int)[k] == pre[i as int];
                                    assert(pre[k] == pre[i as int]);
                                }
                            } else if b < opre.len() {
                                if opre[b] == pre[i as int] {
                                    assert(opre.contains(pre[i as int]));
                                    let k = choose|k: int|
                                        0 <= k < i && #[trigger] pre.take(i as int)[k] == pre[i as int];
                                    assert(pre[k] == pre[i as int]);
                                }
                            }
                        }
                    }
                    assert forall|x: Seq<char>| #[trigger]
                        seq_views(out@).contains(x) <==> (pre.take(i + 1).contains(x) && x
                        != id@) by {
                        if opost.contains(x) {
                            let k = choose|k: int| 0 <= k < opost.len() && opost[k] == x;
                            if k < opre.len() {
                                assert(opre[k] == x);
                                assert(opre.contains(x));
                                let m = choose|m: int| 0 <= m < i && #[trigger] pre.take(i as int)[m] == x;
                                assert(pre.take(i + 1)[m] == x);
                            } else {
                                assert(x == pre[i as int]);
                                assert(pre.take(i + 1)[i as int] == x);
                            }
                        }
                        if pre.take(i + 1).contains(x) && x != id@ {
                            let k = choose|k: int| 0 <= k < i + 1 && #[trigger] pre.take(i + 1)[k] == x;
                            if k < i {
                                assert(pre.take(i as int)[k] == x);
                                assert(pre.take(i as int).contains(x));
                                assert(opre.contains(x));
                                let m = choose|m: int| 0 <= m < opre.len() && opre[m] == x;
                                assert(opost[m] == x);
                            } else {
                                assert(x == pre[i as int]);
                                assert(opost[opost.len() - 1] == x);
                            }
                        }
                    }
                }
            } else {
                proof {
                    assert forall|x: Seq<char>| #[trigger]
                        seq_views(out@).contains(x) <==> (pre.take(i + 1).contains(x) && x
                        != id@) by {
                        if pre.take(i + 1).contains(x) && x != id@ {
                            let k = choose|k: int| 0 <= k < i + 1 && #[trigger] pre.take(i + 1)[k] == x;
                            if k < i {
                                assert(pre.take(i as int)[k] == x);
                                assert(pre.take(i as int).contains(x));
                            } else {
                                assert(x == pre[i as int]);
                                assert(x == id@);
                            }
                        }
                        if seq_views(out@).contains(x) {
                            assert(pre.take(i as int).contains(x) && x != id@);
                            let k = choose|k: int| 0 <= k < i && #[trigger] pre.take(i as int)[k] == x;
                            assert(pre.take(i + 1)[k] == x);
                        }
                    }
                }
            }
            i = i + 1;
        }
        proof {
            assert(pre.take(pre.len() as int) =~= pre);
        }
        self.ids = out;
        proof {
            assert(seq_views(self.ids@).to_set() =~= pre.to_set().remove(id@));
        }
    }

    /// The ids to persist, in stored order.
    pub fn persisted_ids(&self) -> (r: Vec<String>)
        ensures
            seq_views(r@) == seq_views(self.ids@),
    {
        clone_strings(&self.ids)
    }
}

/// Enabling, disabling, then enabling again leaves exactly the enabled-set
/// of a single enable: the persisted state depends only on the last
/// operation. With the coherence invariant in `wf`, `enable_plugin` and
/// `disable_plugin` unconditionally ensure the set insert and removal these
/// equations compose, for every reachable state.
pub proof fn lemma_enable_disable_enable_idempotent(s: Set<Seq<char>>, id: Seq<char>)
    ensures
        s.insert(id).remove(id).insert(id) == s.insert(id),
        s.insert(id).remove(id) == s.remove(id),
{
    assert(s.insert(id).remove(id).insert(id) =~= s.insert(id));
    assert(s.insert(id).remove(id) =~= s.remove(id));
}

/// Enabling, disabling, then enabling an extension again leaves exactly
/// the record of a single enable — the record transitions here are those in
/// the ensures of `enable_plugin` and `disable_plugin`. The starting record
/// must be disabled or unloaded: a lone enable of an extension that is
/// already enabled and loaded is a no-op that keeps it loaded, while the
/// round trip ends unloaded.
pub proof fn lemma_enable_disable_enable_record(p: PluginView)
    requires
        !p.enabled || p.state == PluginState::Unloaded,
    ensures
        ({
            let e1 = if p.enabled {
                p
            } else {
                PluginView { enabled: true, state: PluginState::Unloaded, ..p }
            };
            let d1 = if !e1.enabled {
                e1
            } else {
                PluginView { enabled: false, state: PluginState::Disabled, ..e1 }
            };
            let e2 = if d1.enabled {
                d1
            } else {
                PluginView { enabled: true, state: PluginState::Unloaded, ..d1 }
            };
            e2 == e1
        }),
{
}

/// Why a registry operation failed.
#[derive(Debug)]
pub enum RegistryError {
    /// No discovered extension has this id.
    PluginNotFound { plugin_id: String },
    /// The extension is disabled and may not be loaded.
    PluginDisabled { plugin_id: String },
}

impl RegistryError {
    /// A human-readable description of the failure, naming the extension.
    pub fn message(&self) -> (r: String)
        ensures
            (*self) matches RegistryError::PluginNotFound { plugin_id } ==> r@
                == "Plugin not found: "@ + plugin_id@,
            (*self) matches RegistryError::PluginDisabled { plugin_id } ==> r@ == "Plugin "@
                + plugin_id@ + " is disabled"@,
    {
        match self {
            RegistryError::PluginNotFound { plugin_id } => {
                let mut m = String::new();
                m.append("Plugin not found: ");
                m.append(plugin_id.as_str());
                m
            },
            RegistryError::PluginDisabled { plugin_id } => {
                let mut m = String::new();
                m.append("Plugin ");
                m.append(plugin_id.as_str());
                m.append(" is disabled");
                m
            },
        }
    }
}

/// One discovered candidate: a parsed manifest and its install directory.
pub struct DiscoveredPlugin {
    pub manifest: PluginManifest,
    pub path: String,
}

/// A candidate rejected at validation time, with its install directory.
pub struct DiscoveryFailure {
    pub path: String,
    pub error: ManifestError,
}

/// Everything an external runner needs to load one extension: its execution
/// kind, install directory, entry point, and capability-scoped context.
#[derive(Debug)]
pub struct LoadInstruction {
    pub plugin_type: PluginType,
    pub path: String,
    pub main: String,
    pub context: PluginContext,
}

impl LoadInstruction {
    /// The module name an embedded-interpreter runner imports for this
    /// extension: the entry point with its `.py` occurrences removed.
    pub fn interpreter_module(&self) -> (r: String)
        ensures
            r@ == module_name_of(self.main@),
    {
        module_name(self.main.as_str())
    }
}

/// The interpreter module name denoted by an entry point: every `.py`
/// occurrence removed, scanned left to right. The embedded interpreter
/// imports modules by name, not by file name.
pub open spec fn module_name_of(s: Seq<char>) -> Seq<char>
    decreases s.len(),
{
    if s.len() >= 3 && s.take(3) == ".py"@ {
        module_name_of(s.skip(3))
    } else if s.len() == 0 {
        Seq::empty()
    } else {
        seq![s[0]] + module_name_of(s.skip(1))
    }
}

/// Compute the interpreter module name of an entry point.
fn module_name(s: &str) -> (r: String)
    ensures
        r@ == module_name_of(s@),
{
    let n: usize = s.unicode_len();
    let mut out = String::new();
    let mut i: usize = 0;
    proof {
        assert(s@.skip(0) =~= s@);
        assert(out@ + module_name_of(s@.skip(0)) =~= module_name_of(s@));
    }
    while i < n
        invariant
            0 <= i <= n,
            n == s@.len(),
            module_name_of(s@) == out@ + module_name_of(s@.skip(i as int)),
        decreases n - i,
    {
        let ghost rest = s@.skip(i as int);
        proof {
            assert(rest.len() == n - i);
            assert(rest[0] == s@[i as int]);
        }
        let c0 = s.get_char(i);
        let ghost opre = out@;
        if n - i >= 3 {
            let c1 = s.get_char(i + 1);
            let c2 = s.get_char(i + 2);
            proof {
                assert(rest[1] == s@[i + 1]);
                assert(rest[2] == s@[i + 2]);
                reveal_strlit(".py");
                if c0 == '.' && c1 == 'p' && c2 == 'y' {
                    assert(rest.take(3) =~= ".py"@);
                } else {
                    if rest.take(3) == ".py"@ {
                        assert(rest.take(3)[0] == '.');
                        assert(rest.take(3)[1] == 'p');
                        assert(rest.take(3)[2] == 'y');
                    }
                }
            }
            if c0 == '.' && c1 == 'p' && c2 == 'y' {
                proof {
                    assert(rest.skip(3) =~= s@.skip(i + 3));
                }
                i = i + 3;
            } else {
                strutil::push_char(&mut out, c0);
                proof {
                    assert(out@ =~= opre + seq![rest[0]]);
                    assert(rest.skip(1) =~= s@.skip(i + 1));
                }
                i = i + 1;
            }
        } else {
            strutil::push_char(&mut out, c0);
            proof {
                assert(out@ =~= opre + seq![rest[0]]);
                assert(rest.skip(1) =~= s@.skip(i + 1));
            }
            i = i + 1;
        }
    }
    proof {
        assert(module_name_of(s@.skip(n as int)) =~= Seq::<char>::empty());
        assert(out@ =~= module_name_of(s@));
    }
    out
}

/// Counts over the registry.
#[derive(Clone, Copy, PartialEq, Eq, Structural, Debug)]
pub struct PluginStats {
    pub total: usize,
    pub enabled: usize,
    pub loaded: usize,
    pub failed: usize,
}

/// Number of plugins satisfying a predicate.
pub open spec fn count_matching(s: Seq<PluginView>, f: spec_fn(PluginView) -> bool) -> nat
    decreases s.len(),
{
    if s.len() == 0 {
        0
    } else {
        count_matching(s.drop_last(), f) + if f(s.last()) {
            1nat
        } else {
            0nat
        }
    }
}

/// A candidate passes validation against this host version.
pub open spec fn candidate_valid(c: DiscoveredPlugin, host: Seq<char>) -> bool {
    spec_validate_manifest(c.manifest@, host) is Ok
}

/// The plugin record created for an accepted candidate.
pub open spec fn spec_admitted(c: DiscoveredPlugin, enabled: bool) -> PluginView {
    PluginView {
        manifest: c.manifest@,
        path: c.path@,
        enabled: enabled,
        state: if enabled {
            PluginState::Unloaded
        } else {
            PluginState::Disabled
        },
        config: Option::None,
        last_error: Option::None,
    }
}

/// The registry: all discovered plugins, the persisted enabled-set, and the
/// canonical load order.
pub struct PluginService {
    pub plugins: Vec<Plugin>,
    pub load_order: Vec<String>,
    pub config: EnabledSet,
    pub host_version: String,
}

/// A record's enabled flag agrees with membership in the persisted
/// enabled-set.
pub open spec fn coherent(g: Seq<PluginView>, enabled: Set<Seq<char>>) -> bool {
    forall|k: int|
        0 <= k < g.len() ==> ((#[trigger] g[k]).enabled <==> enabled.contains(g[k].manifest.id))
}

impl PluginService {
    /// Registry invariant: discovered ids are unique, the enabled-set is
    /// duplicate-free, and each record's enabled flag agrees with the
    /// persisted enabled-set.
    pub open spec fn wf(&self) -> bool {
        &&& wf_graph(plugins_view(self.plugins@))
        &&& self.config.wf()
        &&& coherent(plugins_view(self.plugins@), self.config.set_view())
    }

    /// The view of the discovered plugins.
    pub open spec fn graph(&self) -> Seq<PluginView> {
        plugins_view(self.plugins@)
    }

    /// A fresh registry over a persisted enabled-set (empty on first run or
    /// when the persisted document was missing or unreadable) and the running
    /// host version.
    pub fn new(persisted_enabled: Vec<String>, host_version: &str) -> (r: Self)
        ensures
            r.wf(),
            r.graph() =~= Seq::<PluginView>::empty(),
            r.load_order@.len() == 0,
            r.config.set_view() == seq_views(persisted_enabled@).to_set(),
            r.host_version@ == host_version@,
    {
        let r = PluginService {
            plugins: Vec::new(),
            load_order: Vec::new(),
            config: EnabledSet::from_ids(persisted_enabled),
            host_version: host_version.to_owned(),
        };
        proof {
            assert(plugins_view(r.plugins@) =~= Seq::<PluginView>::empty());
        }
        r
    }

    /// Index of the plugin with this id.
    fn find(&self, plugin_id: &str) -> (r: Option<usize>)
        ensures
            r is Some <==> has_id(self.graph(), plugin_id@),
            r is Some ==> r->0 < self.plugins@.len() && r->0 == first_idx(
                self.graph(),
                plugin_id@,
            ) && self.graph()[r->0 as int].manifest.id == plugin_id@,
    {
        resolver::find_plugin(&self.plugins, plugin_id)
    }

    /// Does the extension with this id declare the capability? `false` for
    /// an unknown id.
    pub fn has_capability(&self, plugin_id: &str, capability: PluginCapability) -> (r: bool)
        ensures
            r == (has_id(self.graph(), plugin_id@) && self.graph()[first_idx(
                self.graph(),
                plugin_id@,
            )].manifest.capabilities.contains(capability)),
    {
        match self.find(plugin_id) {
            Some(i) => {
                proof {
                    assert(self.graph()[i as int] == self.plugins@[i as int]@);
                }
                self.plugins[i].manifest.declares_capability(capability)
            },
            None => false,
        }
    }

    /// Counts of discovered, enabled, loaded and failed extensions.
    pub fn get_stats(&self) -> (r: PluginStats)
        ensures
            r.total == self.graph().len(),
            r.enabled == count_matching(self.graph(), |p: PluginView| p.enabled),
            r.loaded == count_matching(self.graph(), |p: PluginView| p.state == PluginState::Loaded),
            r.failed == count_matching(self.graph(), |p: PluginView| p.state == PluginState::Failed),
    {
        let ghost gv = self.graph();
        let mut enabled: usize = 0;
        let mut loaded: usize = 0;
        let mut failed: usize = 0;
        let mut i: usize = 0;
        while i < self.plugins.len()
            invariant
                0 <= i <= self.plugins@.len(),
                gv == self.graph(),
                gv.len() == self.plugins@.len(),
                enabled == count_matching(gv.take(i as int), |p: PluginView| p.enabled),
                loaded == count_matching(
                    gv.take(i as int),
                    |p: PluginView| p.state == PluginState::Loaded,
                ),
                failed == count_matching(
                    gv.take(i as int),
                    |p: PluginView| p.state == PluginState::Failed,
                ),
                enabled <= i && loaded <= i && failed <= i,
            decreases self.plugins@.len() - i,
        {
            proof {
                assert(gv[i as int] == self.plugins@[i as int]@);
                assert(gv.take(i + 1).drop_last() =~= gv.take(i as int));
                assert(gv.take(i + 1).last() == gv[i as int]);
            }
            if self.plugins[i].enabled {
                enabled = enabled + 1;
            }
            match self.plugins[i].state {
                PluginState::Loaded => {
                    loaded = loaded + 1;
                },
                PluginState::Failed => {
                    failed = failed + 1;
                },
                _ => {},
            }
            i = i + 1;
        }
        proof {
            assert(gv.take(gv.len() as int) =~= gv);
        }
        PluginStats { total: self.plugins.len(), enabled, loaded, failed }
    }
}


/// Replace one element of a plugin vector.
fn vec_update_plugin(v: &mut Vec<Plugin>, i: usize, p: Plugin)
    requires
        i < old(v)@.len(),
    ensures
        final(v)@ == old(v)@.update(i as int, p),
{
    let _ = v.remove(i);
    v.insert(i, p);
    proof {
        assert(v@ =~= old(v)@.update(i as int, p));
    }
}

/// Updating a record updates its view pointwise.
proof fn lemma_plugins_view_update(ps: Seq<Plugin>, i: int, p: Plugin)
    requires
        0 <= i < ps.len(),
    ensures
        plugins_view(ps.update(i, p)) == plugins_view(ps).update(i, p@),
{
    let a = plugins_view(ps.update(i, p));
    let b = plugins_view(ps).update(i, p@);
    assert forall|k: int| 0 <= k < a.len() implies a[k] == b[k] by {
        assert(a[k] == ps.update(i, p)[k]@);
        if k != i {
            assert(ps.update(i, p)[k] == ps[k]);
            assert(plugins_view(ps)[k] == ps[k]@);
        }
    }
    assert(a =~= b);
}

/// Whether a candidate comes up enabled: everything on a fresh install
/// (empty persisted set), otherwise exactly the persisted ids.
pub open spec fn spec_enabled(enabled0: Set<Seq<char>>, id: Seq<char>) -> bool {
    enabled0 == Set::<Seq<char>>::empty() || enabled0.contains(id)
}

/// The plugin records admitted from a candidate list, in discovery order.
pub open spec fn admitted_plugins(
    cands: Seq<DiscoveredPlugin>,
    host: Seq<char>,
    enabled0: Set<Seq<char>>,
) -> Seq<PluginView>
    decreases cands.len(),
{
    if cands.len() == 0 {
        Seq::empty()
    } else {
        admitted_plugins(cands.drop_last(), host, enabled0) + if candidate_valid(
            cands.last(),
            host,
        ) {
            seq![
                spec_admitted(
                    cands.last(),
                    spec_enabled(enabled0, cands.last().manifest@.id),
                ),
            ]
        } else {
            Seq::empty()
        }
    }
}

/// The ids of the admitted candidates.
pub open spec fn admitted_ids(cands: Seq<DiscoveredPlugin>, host: Seq<char>) -> Set<Seq<char>>
    decreases cands.len(),
{
    if cands.len() == 0 {
        Set::empty()
    } else {
        let rest = admitted_ids(cands.drop_last(), host);
        if candidate_valid(cands.last(), host) {
            rest.insert(cands.last().manifest@.id)
        } else {
            rest
        }
    }
}

/// The candidates rejected at validation, with their errors, in order.
pub open spec fn rejected_of(cands: Seq<DiscoveredPlugin>, host: Seq<char>) -> Seq<
    (Seq<char>, ManifestError),
>
    decreases cands.len(),
{
    if cands.len() == 0 {
        Seq::empty()
    } else {
        rejected_of(cands.drop_last(), host) + if candidate_valid(cands.last(), host) {
            Seq::empty()
        } else {
            seq![
                (
                    cands.last().path@,
                    spec_validate_manifest(cands.last().manifest@, host)->Err_0,
                ),
            ]
        }
    }
}

/// Candidate ids are pairwise distinct.
pub open spec fn distinct_candidate_ids(cands: Seq<DiscoveredPlugin>) -> bool {
    forall|i: int, j: int|
        #![trigger cands[i], cands[j]]
        0 <= i < j < cands.len() ==> cands[i].manifest@.id != cands[j].manifest@.id
}

/// Each admitted plugin keeps its candidate id, so admitted ids stay
/// pairwise distinct.
proof fn lemma_admitted_wf(cands: Seq<DiscoveredPlugin>, host: Seq<char>, enabled0: Set<Seq<char>>)
    requires
        distinct_candidate_ids(cands),
    ensures
        wf_graph(admitted_plugins(cands, host, enabled0)),
        forall|j: int|
            0 <= j < admitted_plugins(cands, host, enabled0).len() ==> exists|c: int|
                0 <= c < cands.len() && (#[trigger] admitted_plugins(
                    cands,
                    host,
                    enabled0,
                )[j]).manifest.id == (#[trigger] cands[c]).manifest@.id,
        forall|j: int|
            0 <= j < admitted_plugins(cands, host, enabled0).len() ==> (#[trigger] admitted_plugins(
                cands,
                host,
                enabled0,
            )[j]).enabled == spec_enabled(
                enabled0,
                admitted_plugins(cands, host, enabled0)[j].manifest.id,
            ),
        forall|j: int|
            0 <= j < admitted_plugins(cands, host, enabled0).len() ==> admitted_ids(
                cands,
                host,
            ).contains((#[trigger] admitted_plugins(cands, host, enabled0)[j]).manifest.id),
    decreases cands.len(),
{
    if cands.len() > 0 {
        let pre = cands.drop_last();
        assert(distinct_candidate_ids(pre)) by {
            assert(forall|i: int| 0 <= i < pre.len() ==> #[trigger] pre[i] == cands[i]);
        }
        lemma_admitted_wf(pre, host, enabled0);
        let a0 = admitted_plugins(pre, host, enabled0);
        let a1 = admitted_plugins(cands, host, enabled0);
        assert(forall|i: int| 0 <= i < pre.len() ==> #[trigger] pre[i] == cands[i]);
        if candidate_valid(cands.last(), host) {
            assert(a1 == a0 + seq![
                spec_admitted(cands.last(), spec_enabled(enabled0, cands.last().manifest@.id)),
            ]);
            assert(forall|i: int| 0 <= i < a0.len() ==> #[trigger] a1[i] == a0[i]);
            assert(a1[a1.len() - 1] == spec_admitted(
                cands.last(),
                spec_enabled(enabled0, cands.last().manifest@.id),
            ));
            assert forall|j: int| 0 <= j < a1.len() implies exists|c: int|
                0 <= c < cands.len() && (#[trigger] a1[j]).manifest.id == (#[trigger] cands[
                c]).manifest@.id by {
                if j < a0.len() {
                    let c = choose|c: int|
                        0 <= c < pre.len() && (#[trigger] a0[j]).manifest.id == (#[trigger] pre[
                        c]).manifest@.id;
                    assert(a1[j].manifest.id == cands[c].manifest@.id);
                } else {
                    assert(a1[j].manifest.id == cands[cands.len() - 1].manifest@.id);
                }
            }
            assert(wf_graph(a1)) by {
                assert forall|i: int, j: int|
                    #![trigger a1[i], a1[j]]
                    0 <= i < j < a1.len() implies a1[i].manifest.id != a1[j].manifest.id by {
                    if j < a0.len() {
                        assert(a1[i] == a0[i] && a1[j] == a0[j]);
                    } else {
                        let c = choose|c: int|
                            0 <= c < pre.len() && (#[trigger] a0[i]).manifest.id == (
                            #[trigger] pre[c]).manifest@.id;
                        assert(cands[c].manifest@.id != cands[cands.len() - 1].manifest@.id);
                    }
                }
            }
        } else {
            assert(a1 =~= a0);
            assert forall|j: int| 0 <= j < a1.len() implies exists|c: int|
                0 <= c < cands.len() && (#[trigger] a1[j]).manifest.id == (#[trigger] cands[
                c]).manifest@.id by {
                let c = choose|c: int|
                    0 <= c < pre.len() && (#[trigger] a0[j]).manifest.id == (#[trigger] pre[
                    c]).manifest@.id;
                assert(a1[j].manifest.id == cands[c].manifest@.id);
            }
        }
    }
}

impl PluginService {
    /// Register the discovered candidates: validate each manifest, admit the
    /// valid ones, and return the rejected ones with their errors. On a
    /// fresh install (empty persisted enabled-set) every admitted extension
    /// is enabled and the decision is recorded in the enabled-set at once;
    /// otherwise an extension is enabled exactly when the persisted set
    /// names it. Validation failures never abort discovery of the rest.
    pub fn discover_plugins(&mut self, discovered: Vec<DiscoveredPlugin>) -> (r: Vec<
        DiscoveryFailure,
    >)
        requires
            old(self).wf(),
            old(self).plugins@.len() == 0,
            distinct_candidate_ids(discovered@),
        ensures
            final(self).wf(),
            final(self).host_version == old(self).host_version,
            final(self).load_order == old(self).load_order,
            final(self).graph() == admitted_plugins(
                discovered@,
                old(self).host_version@,
                old(self).config.set_view(),
            ),
            old(self).config.set_view() == Set::<Seq<char>>::empty()
                ==> final(self).config.set_view() == admitted_ids(
                discovered@,
                old(self).host_version@,
            ),
            old(self).config.set_view() != Set::<Seq<char>>::empty()
                ==> final(self).config.set_view() == old(self).config.set_view(),
            r@.map_values(|f: DiscoveryFailure| (f.path@, f.error)) == rejected_of(
                discovered@,
                old(self).host_version@,
            ),
    {
        let ghost host = self.host_version@;
        let ghost enabled0 = self.config.set_view();
        let first_run = self.config.is_empty();
        let mut rejected: Vec<DiscoveryFailure> = Vec::new();
        let mut i: usize = 0;
        proof {
            assert(plugins_view(self.plugins@) =~= Seq::<PluginView>::empty());
            assert(admitted_plugins(discovered@.take(0), host, enabled0) =~= Seq::<
                PluginView,
            >::empty());
            assert(rejected_of(discovered@.take(0), host) =~= Seq::<
                (Seq<char>, ManifestError),
            >::empty());
            assert(rejected@.map_values(|f: DiscoveryFailure| (f.path@, f.error)) =~= Seq::<
                (Seq<char>, ManifestError),
            >::empty());
            assert(admitted_ids(discovered@.take(0), host) =~= Set::<Seq<char>>::empty());
            if first_run {
                assert(enabled0.union(admitted_ids(discovered@.take(0), host)) =~= enabled0);
            }
        }
        while i < discovered.len()
            invariant
                0 <= i <= discovered@.len(),
                distinct_candidate_ids(discovered@),
                self.host_version@ == host,
                self.host_version == old(self).host_version,
                self.load_order == old(self).load_order,
                self.config.wf(),
                first_run == (enabled0 == Set::<Seq<char>>::empty()),
                enabled0 == old(self).config.set_view(),
                plugins_view(self.plugins@) == admitted_plugins(
                    discovered@.take(i as int),
                    host,
                    enabled0,
                ),
                first_run ==> self.config.set_view() == admitted_ids(
                    discovered@.take(i as int),
                    host,
                ),
                !first_run ==> self.config.set_view() == enabled0,
                rejected@.map_values(|f: DiscoveryFailure| (f.path@, f.error)) == rejected_of(
                    discovered@.take(i as int),
                    host,
                ),
            decreases discovered@.len() - i,
        {
            proof {
                assert(discovered@.take(i + 1).drop_last() =~= discovered@.take(i as int));
                assert(discovered@.take(i + 1).last() == discovered@[i as int]);
            }
            let cand = &discovered[i];
            match validate_manifest(&cand.manifest, self.host_version.as_str()) {
                Ok(()) => {
                    let id: String = cand.manifest.id.clone();
                    let enabled = if first_run {
                        true
                    } else {
                        self.config.contains(id.as_str())
                    };
                    proof {
                        if first_run {
                            assert(spec_enabled(enabled0, id@));
                        } else {
                            assert(enabled == spec_enabled(enabled0, id@)) by {
                                assert(self.config.set_view() == enabled0);
                            }
                        }
                    }
                    let state = if enabled {
                        PluginState::Unloaded
                    } else {
                        PluginState::Disabled
                    };
                    let plugin = Plugin {
                        manifest: cand.manifest.clone(),
                        path: cand.path.clone(),
                        enabled,
                        state,
                        config: None,
                        last_error: None,
                    };
                    proof {
                        assert(plugin@ == spec_admitted(
                            discovered@[i as int],
                            spec_enabled(enabled0, discovered@[i as int].manifest@.id),
                        ));
                    }
                    let ghost gpre = plugins_view(self.plugins@);
                    self.plugins.push(plugin);
                    proof {
                        let gpost = plugins_view(self.plugins@);
                        assert forall|k: int| 0 <= k < gpost.len() implies #[trigger] gpost[k]
                            == admitted_plugins(discovered@.take(i + 1), host, enabled0)[k] by {
                            if k < gpre.len() {
                                assert(gpost[k] == self.plugins@[k]@);
                                assert(gpre[k] == self.plugins@[k]@);
                            } else {
                                assert(gpost[k] == self.plugins@[k]@);
                            }
                        }
                        assert(gpost =~= admitted_plugins(discovered@.take(i + 1), host, enabled0));
                    }
                    if first_run {
                        self.config.insert(id.as_str());
                        proof {
                            assert(self.config.set_view() =~= admitted_ids(
                                discovered@.take(i + 1),
                                host,
                            ));
                        }
                    }
                    proof {
                        assert(rejected_of(discovered@.take(i + 1), host) =~= rejected_of(
                            discovered@.take(i as int),
                            host,
                        ));
                    }
                },
                Err(e) => {
                    let ghost rpre = rejected@.map_values(|f: DiscoveryFailure| (f.path@, f.error));
                    rejected.push(DiscoveryFailure { path: cand.path.clone(), error: e });
                    proof {
                        let rpost = rejected@.map_values(
                            |f: DiscoveryFailure| (f.path@, f.error),
                        );
                        assert forall|k: int| 0 <= k < rpost.len() implies #[trigger] rpost[k]
                            == rejected_of(discovered@.take(i + 1), host)[k] by {
                            if k < rpre.len() {
                                assert(rpost[k] == (rejected@[k].path@, rejected@[k].error));
                                assert(rpre[k] == (rejected@[k].path@, rejected@[k].error));
                            } else {
                                assert(rpost[k] == (rejected@[k].path@, rejected@[k].error));
                            }
                        }
                        assert(rpost =~= rejected_of(discovered@.take(i + 1), host));
                        assert(admitted_plugins(discovered@.take(i + 1), host, enabled0)
                            =~= admitted_plugins(discovered@.take(i as int), host, enabled0));
                        if first_run {
                            assert(admitted_ids(discovered@.take(i + 1), host) =~= admitted_ids(
                                discovered@.take(i as int),
                                host,
                            ));
                        }
                    }
                },
            }
            i = i + 1;
        }
        proof {
            assert(discovered@.take(discovered@.len() as int) =~= discovered@);
            lemma_admitted_wf(discovered@, host, enabled0);
        }
        rejected
    }

    /// Resolve the dependency graph into the canonical load order, storing
    /// it on success. All the guarantees of [`resolver::resolve_order`]
    /// apply: the order is exactly [`resolver::canonical_order`] of the
    /// discovered graph, which is the same for any discovery order of the
    /// same records ([`resolver::lemma_canonical_order_set_level`]) — so two
    /// registries holding the same manifests resolve identically — it is a valid
    /// topological order of every discovered plugin, cycles and missing or
    /// incompatible dependencies are rejected with a named offender, and an
    /// acyclic, compatible graph always resolves.
    pub fn resolve_dependencies(&mut self) -> (r: Result<Vec<String>, ResolveError>)
        requires
            old(self).wf(),
        ensures
            final(self).wf(),
            final(self).graph() == old(self).graph(),
            final(self).config == old(self).config,
            final(self).host_version == old(self).host_version,
            r is Ok ==> seq_views(r->Ok_0@) == resolver::canonical_order(old(self).graph()),
            r is Ok ==> valid_load_order(old(self).graph(), seq_views(r->Ok_0@)),
            r is Ok ==> seq_views(final(self).load_order@) == seq_views(r->Ok_0@),
            r is Ok ==> !has_cycle(old(self).graph()) && deps_satisfied(old(self).graph()),
            r is Err ==> resolve_error_witnessed(old(self).graph(), r->Err_0),
            r is Err ==> final(self).load_order == old(self).load_order,
            !has_cycle(old(self).graph()) && deps_satisfied(old(self).graph()) ==> r is Ok,
            has_cycle(old(self).graph()) ==> r is Err,
            !deps_present(old(self).graph()) ==> r is Err,
    {
        match resolver::resolve_order(&self.plugins) {
            Ok(order) => {
                self.load_order = clone_strings(&order);
                Ok(order)
            },
            Err(e) => Err(e),
        }
    }

    /// Enable an extension: record it in the persisted enabled-set and reset
    /// it to `Unloaded` (loading is a separate, explicit step). Enabling an
    /// already-enabled extension changes nothing; an unknown id is an error.
    pub fn enable_plugin(&mut self, plugin_id: &str) -> (r: Result<(), RegistryError>)
        requires
            old(self).wf(),
        ensures
            final(self).wf(),
            final(self).host_version == old(self).host_version,
            final(self).load_order == old(self).load_order,
            !has_id(old(self).graph(), plugin_id@) ==> {
                &&& r matches Err(RegistryError::PluginNotFound { plugin_id: p }) && p@
                    == plugin_id@
                &&& final(self).graph() == old(self).graph()
                &&& final(self).config.set_view() == old(self).config.set_view()
            },
            has_id(old(self).graph(), plugin_id@) ==> r is Ok && final(self).config.set_view()
                == old(self).config.set_view().insert(plugin_id@),
            has_id(old(self).graph(), plugin_id@) && old(self).graph()[first_idx(
                old(self).graph(),
                plugin_id@,
            )].enabled ==> {
                &&& final(self).graph() == old(self).graph()
                &&& final(self).config.set_view() == old(self).config.set_view()
            },
            has_id(old(self).graph(), plugin_id@) && !old(self).graph()[first_idx(
                old(self).graph(),
                plugin_id@,
            )].enabled ==> final(self).graph() == old(self).graph().update(
                first_idx(old(self).graph(), plugin_id@),
                PluginView {
                    enabled: true,
                    state: PluginState::Unloaded,
                    ..old(self).graph()[first_idx(old(self).graph(), plugin_id@)]
                },
            ),
    {
        let idx = match self.find(plugin_id) {
            Some(i) => i,
            None => {
                return Err(RegistryError::PluginNotFound { plugin_id: plugin_id.to_owned() });
            },
        };
        if self.plugins[idx].enabled {
            proof {
                assert(self.graph()[idx as int] == self.plugins@[idx as int]@);
                // the record is enabled, so by coherence its id is already
                // in the persisted set and the insert changes nothing
                assert(self.config.set_view().contains(plugin_id@));
                assert(self.config.set_view() =~= self.config.set_view().insert(plugin_id@));
            }
            return Ok(());
        }
        let mut p = self.plugins[idx].clone();
        p.enabled = true;
        p.state = PluginState::Unloaded;
        proof {
            assert(self.graph()[idx as int] == self.plugins@[idx as int]@);
            assert(p@ == PluginView {
                enabled: true,
                state: PluginState::Unloaded,
                ..self.graph()[idx as int]
            });
        }
        let ghost ppre = self.plugins@;
        vec_update_plugin(&mut self.plugins, idx, p);
        proof {
            lemma_plugins_view_update(ppre, idx as int, self.plugins@[idx as int]);
            assert(self.plugins@[idx as int]@ == plugins_view(self.plugins@)[idx as int]);
            lemma_wf_update(plugins_view(ppre), plugins_view(self.plugins@));
        }
        self.config.insert(plugin_id);
        Ok(())
    }

    /// Disable an extension: remove it from the persisted enabled-set and
    /// force its state to `Disabled`. Disabling an already-disabled
    /// extension changes nothing; an unknown id is an error. A loaded
    /// extension's runner must be unloaded by the caller that drives it.
    pub fn disable_plugin(&mut self, plugin_id: &str) -> (r: Result<(), RegistryError>)
        requires
            old(self).wf(),
        ensures
            final(self).wf(),
            final(self).host_version == old(self).host_version,
            final(self).load_order == old(self).load_order,
            !has_id(old(self).graph(), plugin_id@) ==> {
                &&& r matches Err(RegistryError::PluginNotFound { plugin_id: p }) && p@
                    == plugin_id@
                &&& final(self).graph() == old(self).graph()
                &&& final(self).config.set_view() == old(self).config.set_view()
            },
            has_id(old(self).graph(), plugin_id@) ==> r is Ok && final(self).config.set_view()
                == old(self).config.set_view().remove(plugin_id@),
            has_id(old(self).graph(), plugin_id@) && !old(self).graph()[first_idx(
                old(self).graph(),
                plugin_id@,
            )].enabled ==> {
                &&& final(self).graph() == old(self).graph()
                &&& final(self).config.set_view() == old(self).config.set_view()
            },
            has_id(old(self).graph(), plugin_id@) && old(self).graph()[first_idx(
                old(self).graph(),
                plugin_id@,
            )].enabled ==> final(self).graph() == old(self).graph().update(
                first_idx(old(self).graph(), plugin_id@),
                PluginView {
                    enabled: false,
                    state: PluginState::Disabled,
                    ..old(self).graph()[first_idx(old(self).graph(), plugin_id@)]
                },
            ),
    {
        let idx = match self.find(plugin_id) {
            Some(i) => i,
            None => {
                return Err(RegistryError::PluginNotFound { plugin_id: plugin_id.to_owned() });
            },
        };
        if !self.plugins[idx].enabled {
            proof {
                assert(self.graph()[idx as int] == self.plugins@[idx as int]@);
                // the record is disabled, so by coherence its id is not in
                // the persisted set and the removal changes nothing
                assert(!self.config.set_view().contains(plugin_id@));
                assert(self.config.set_view() =~= self.config.set_view().remove(plugin_id@));
            }
            return Ok(());
        }
        let mut p = self.plugins[idx].clone();
        p.enabled = false;
        p.state = PluginState::Disabled;
        proof {
            assert(self.graph()[idx as int] == self.plugins@[idx as int]@);
            assert(p@ == PluginView {
                enabled: false,
                state: PluginState::Disabled,
                ..self.graph()[idx as int]
            });
        }
        let ghost ppre = self.plugins@;
        vec_update_plugin(&mut self.plugins, idx, p);
        proof {
            lemma_plugins_view_update(ppre, idx as int, self.plugins@[idx as int]);
            lemma_wf_update(plugins_view(ppre), plugins_view(self.plugins@));
        }
        self.config.remove(plugin_id);
        Ok(())
    }
}


/// The plugin records (in load order) that are enabled.
pub open spec fn enabled_in_order(g: Seq<PluginView>, ord: Seq<Seq<char>>) -> Seq<PluginView>
    decreases ord.len(),
{
    if ord.len() == 0 {
        Seq::empty()
    } else {
        enabled_in_order(g, ord.drop_last()) + if has_id(g, ord.last()) && g[first_idx(
            g,
            ord.last(),
        )].enabled {
            seq![g[first_idx(g, ord.last())]]
        } else {
            Seq::empty()
        }
    }
}

/// The ids (in load order) of plugins whose state is `Loaded`.
pub open spec fn loaded_in_order(g: Seq<PluginView>, ord: Seq<Seq<char>>) -> Seq<Seq<char>>
    decreases ord.len(),
{
    if ord.len() == 0 {
        Seq::empty()
    } else {
        loaded_in_order(g, ord.drop_last()) + if has_id(g, ord.last()) && g[first_idx(
            g,
            ord.last(),
        )].state == PluginState::Loaded {
            seq![ord.last()]
        } else {
            Seq::empty()
        }
    }
}

impl PluginService {
    /// Borrow the record of the extension with this id.
    pub fn get_plugin(&self, plugin_id: &str) -> (r: Option<&Plugin>)
        ensures
            r is Some <==> has_id(self.graph(), plugin_id@),
            r is Some ==> (*r->0)@ == self.graph()[first_idx(self.graph(), plugin_id@)],
    {
        match self.find(plugin_id) {
            Some(i) => {
                proof {
                    assert(self.graph()[i as int] == self.plugins@[i as int]@);
                }
                Some(&self.plugins[i])
            },
            None => None,
        }
    }

    /// Set the lifecycle state of an extension.
    pub fn update_plugin_state(&mut self, plugin_id: &str, state: PluginState) -> (r: Result<
        (),
        RegistryError,
    >)
        requires
            old(self).wf(),
        ensures
            final(self).wf(),
            final(self).host_version == old(self).host_version,
            final(self).load_order == old(self).load_order,
            final(self).config.set_view() == old(self).config.set_view(),
            !has_id(old(self).graph(), plugin_id@) ==> {
                &&& r matches Err(RegistryError::PluginNotFound { plugin_id: p }) && p@
                    == plugin_id@
                &&& final(self).graph() == old(self).graph()
            },
            has_id(old(self).graph(), plugin_id@) ==> {
                &&& r is Ok
                &&& final(self).graph() == old(self).graph().update(
                    first_idx(old(self).graph(), plugin_id@),
                    PluginView {
                        state: state,
                        ..old(self).graph()[first_idx(old(self).graph(), plugin_id@)]
                    },
                )
            },
    {
        let idx = match self.find(plugin_id) {
            Some(i) => i,
            None => {
                return Err(RegistryError::PluginNotFound { plugin_id: plugin_id.to_owned() });
            },
        };
        let mut p = self.plugins[idx].clone();
        p.state = state;
        proof {
            assert(self.graph()[idx as int] == self.plugins@[idx as int]@);
            assert(p@ == PluginView { state: state, ..self.graph()[idx as int] });
        }
        let ghost ppre = self.plugins@;
        vec_update_plugin(&mut self.plugins, idx, p);
        proof {
            lemma_plugins_view_update(ppre, idx as int, self.plugins@[idx as int]);
            lemma_wf_update(plugins_view(ppre), plugins_view(self.plugins@));
        }
        Ok(())
    }

    /// Record a load failure: the message becomes `last_error` and the state
    /// becomes `Failed`.
    pub fn set_plugin_error(&mut self, plugin_id: &str, error: String) -> (r: Result<
        (),
        RegistryError,
    >)
        requires
            old(self).wf(),
        ensures
            final(self).wf(),
            final(self).host_version == old(self).host_version,
            final(self).load_order == old(self).load_order,
            final(self).config.set_view() == old(self).config.set_view(),
            !has_id(old(self).graph(), plugin_id@) ==> {
                &&& r matches Err(RegistryError::PluginNotFound { plugin_id: p }) && p@
                    == plugin_id@
                &&& final(self).graph() == old(self).graph()
            },
            has_id(old(self).graph(), plugin_id@) ==> {
                &&& r is Ok
                &&& final(self).graph() == old(self).graph().update(
                    first_idx(old(self).graph(), plugin_id@),
                    PluginView {
                        state: PluginState::Failed,
                        last_error: Option::Some(error@),
                        ..old(self).graph()[first_idx(old(self).graph(), plugin_id@)]
                    },
                )
            },
    {
        let idx = match self.find(plugin_id) {
            Some(i) => i,
            None => {
                return Err(RegistryError::PluginNotFound { plugin_id: plugin_id.to_owned() });
            },
        };
        let mut p = self.plugins[idx].clone();
        p.state = PluginState::Failed;
        p.last_error = Some(error);
        proof {
            assert(self.graph()[idx as int] == self.plugins@[idx as int]@);
        }
        let ghost ppre = self.plugins@;
        vec_update_plugin(&mut self.plugins, idx, p);
        proof {
            lemma_plugins_view_update(ppre, idx as int, self.plugins@[idx as int]);
            lemma_wf_update(plugins_view(ppre), plugins_view(self.plugins@));
        }
        Ok(())
    }

    /// Replace an extension's user configuration value.
    pub fn update_plugin_config(&mut self, plugin_id: &str, config: Option<String>) -> (r: Result<
        (),
        RegistryError,
    >)
        requires
            old(self).wf(),
        ensures
            final(self).wf(),
            final(self).host_version == old(self).host_version,
            final(self).load_order == old(self).load_order,
            final(self).config.set_view() == old(self).config.set_view(),
            !has_id(old(self).graph(), plugin_id@) ==> {
                &&& r matches Err(RegistryError::PluginNotFound { plugin_id: p }) && p@
                    == plugin_id@
                &&& final(self).graph() == old(self).graph()
            },
            has_id(old(self).graph(), plugin_id@) ==> {
                &&& r is Ok
                &&& final(self).graph() == old(self).graph().update(
                    first_idx(old(self).graph(), plugin_id@),
                    PluginView {
                        config: opt_view(config),
                        ..old(self).graph()[first_idx(old(self).graph(), plugin_id@)]
                    },
                )
            },
    {
        let idx = match self.find(plugin_id) {
            Some(i) => i,
            None => {
                return Err(RegistryError::PluginNotFound { plugin_id: plugin_id.to_owned() });
            },
        };
        let mut p = self.plugins[idx].clone();
        p.config = config;
        proof {
            assert(self.graph()[idx as int] == self.plugins@[idx as int]@);
        }
        let ghost ppre = self.plugins@;
        vec_update_plugin(&mut self.plugins, idx, p);
        proof {
            lemma_plugins_view_update(ppre, idx as int, self.plugins@[idx as int]);
            lemma_wf_update(plugins_view(ppre), plugins_view(self.plugins@));
        }
        Ok(())
    }

    /// Begin loading an extension. An unknown id or a disabled extension is
    /// refused; one already loaded yields `Ok(None)`. Otherwise the state
    /// becomes `Loading` and the returned instruction carries everything the
    /// runner needs, with the granted capabilities equal to the declared set.
    pub fn begin_load(&mut self, plugin_id: &str) -> (r: Result<
        Option<LoadInstruction>,
        RegistryError,
    >)
        requires
            old(self).wf(),
        ensures
            final(self).wf(),
            final(self).host_version == old(self).host_version,
            final(self).load_order == old(self).load_order,
            final(self).config.set_view() == old(self).config.set_view(),
            !has_id(old(self).graph(), plugin_id@) ==> {
                &&& r matches Err(RegistryError::PluginNotFound { plugin_id: p }) && p@
                    == plugin_id@
                &&& final(self).graph() == old(self).graph()
            },
            has_id(old(self).graph(), plugin_id@) && old(self).graph()[first_idx(
                old(self).graph(),
                plugin_id@,
            )].state == PluginState::Loaded ==> ((r matches Ok(o) && o is None)
                && final(self).graph() == old(self).graph()),
            has_id(old(self).graph(), plugin_id@) && old(self).graph()[first_idx(
                old(self).graph(),
                plugin_id@,
            )].state != PluginState::Loaded && !old(self).graph()[first_idx(
                old(self).graph(),
                plugin_id@,
            )].enabled ==> {
                &&& r matches Err(RegistryError::PluginDisabled { plugin_id: p }) && p@
                    == plugin_id@
                &&& final(self).graph() == old(self).graph()
            },
            has_id(old(self).graph(), plugin_id@) && old(self).graph()[first_idx(
                old(self).graph(),
                plugin_id@,
            )].state != PluginState::Loaded && old(self).graph()[first_idx(
                old(self).graph(),
                plugin_id@,
            )].enabled ==> {
                &&& r matches Ok(o) && o matches Some(instr) && {
                    let pv = old(self).graph()[first_idx(old(self).graph(), plugin_id@)];
                    &&& instr.plugin_type == pv.manifest.plugin_type
                    &&& instr.path@ == pv.path
                    &&& instr.main@ == pv.manifest.main
                    &&& instr.context@.plugin_id == plugin_id@
                    &&& instr.context@.vault_id is None
                    &&& instr.context@.capabilities == pv.manifest.capabilities
                }
                &&& final(self).graph() == old(self).graph().update(
                    first_idx(old(self).graph(), plugin_id@),
                    PluginView {
                        state: PluginState::Loading,
                        ..old(self).graph()[first_idx(old(self).graph(), plugin_id@)]
                    },
                )
            },
    {
        let idx = match self.find(plugin_id) {
            Some(i) => i,
            None => {
                return Err(RegistryError::PluginNotFound { plugin_id: plugin_id.to_owned() });
            },
        };
        proof {
            assert(self.graph()[idx as int] == self.plugins@[idx as int]@);
        }
        match self.plugins[idx].state {
            PluginState::Loaded => {
                return Ok(None);
            },
            _ => {},
        }
        if !self.plugins[idx].enabled {
            return Err(RegistryError::PluginDisabled { plugin_id: plugin_id.to_owned() });
        }
        let instr = LoadInstruction {
            plugin_type: self.plugins[idx].manifest.plugin_type,
            path: self.plugins[idx].path.clone(),
            main: self.plugins[idx].manifest.main.clone(),
            context: PluginContext {
                plugin_id: plugin_id.to_owned(),
                vault_id: None,
                capabilities: clone_caps(&self.plugins[idx].manifest.capabilities),
            },
        };
        let mut p = self.plugins[idx].clone();
        p.state = PluginState::Loading;
        let ghost ppre = self.plugins@;
        vec_update_plugin(&mut self.plugins, idx, p);
        proof {
            lemma_plugins_view_update(ppre, idx as int, self.plugins@[idx as int]);
            lemma_wf_update(plugins_view(ppre), plugins_view(self.plugins@));
        }
        Ok(Some(instr))
    }

    /// Record the outcome of a load started with `begin_load`: success puts
    /// the extension in `Loaded` and clears its last error; a failure message
    /// puts it in `Failed` and records the message.
    pub fn finish_load(&mut self, plugin_id: &str, error: Option<String>) -> (r: Result<
        (),
        RegistryError,
    >)
        requires
            old(self).wf(),
        ensures
            final(self).wf(),
            final(self).host_version == old(self).host_version,
            final(self).load_order == old(self).load_order,
            final(self).config.set_view() == old(self).config.set_view(),
            !has_id(old(self).graph(), plugin_id@) ==> {
                &&& r matches Err(RegistryError::PluginNotFound { plugin_id: p }) && p@
                    == plugin_id@
                &&& final(self).graph() == old(self).graph()
            },
            has_id(old(self).graph(), plugin_id@) && error is None ==> {
                &&& r is Ok
                &&& final(self).graph() == old(self).graph().update(
                    first_idx(old(self).graph(), plugin_id@),
                    PluginView {
                        state: PluginState::Loaded,
                        last_error: Option::None,
                        ..old(self).graph()[first_idx(old(self).graph(), plugin_id@)]
                    },
                )
            },
            has_id(old(self).graph(), plugin_id@) && error is Some ==> {
                &&& r is Ok
                &&& final(self).graph() == old(self).graph().update(
                    first_idx(old(self).graph(), plugin_id@),
                    PluginView {
                        state: PluginState::Failed,
                        last_error: Option::Some(error->0@),
                        ..old(self).graph()[first_idx(old(self).graph(), plugin_id@)]
                    },
                )
            },
    {
        let idx = match self.find(plugin_id) {
            Some(i) => i,
            None => {
                return Err(RegistryError::PluginNotFound { plugin_id: plugin_id.to_owned() });
            },
        };
        let mut p = self.plugins[idx].clone();
        match error {
            None => {
                p.state = PluginState::Loaded;
                p.last_error = None;
            },
            Some(e) => {
                p.state = PluginState::Failed;
                p.last_error = Some(e);
            },
        }
        proof {
            assert(self.graph()[idx as int] == self.plugins@[idx as int]@);
        }
        let ghost ppre = self.plugins@;
        vec_update_plugin(&mut self.plugins, idx, p);
        proof {
            lemma_plugins_view_update(ppre, idx as int, self.plugins@[idx as int]);
            lemma_wf_update(plugins_view(ppre), plugins_view(self.plugins@));
        }
        Ok(())
    }

    /// Mark an extension unloaded after its runner has been released: back
    /// to `Unloaded` while it stays enabled, and to `Disabled` otherwise
    /// (a disabled extension never leaves `Disabled`). Unknown ids are
    /// ignored.
    pub fn unload_plugin(&mut self, plugin_id: &str)
        requires
            old(self).wf(),
        ensures
            final(self).wf(),
            final(self).host_version == old(self).host_version,
            final(self).load_order == old(self).load_order,
            final(self).config.set_view() == old(self).config.set_view(),
            !has_id(old(self).graph(), plugin_id@) ==> final(self).graph() == old(self).graph(),
            has_id(old(self).graph(), plugin_id@) ==> final(self).graph() == old(
                self,
            ).graph().update(
                first_idx(old(self).graph(), plugin_id@),
                PluginView {
                    state: if old(self).graph()[first_idx(old(self).graph(), plugin_id@)].enabled {
                        PluginState::Unloaded
                    } else {
                        PluginState::Disabled
                    },
                    ..old(self).graph()[first_idx(old(self).graph(), plugin_id@)]
                },
            ),
    {
        let idx = match self.find(plugin_id) {
            Some(i) => i,
            None => {
                return;
            },
        };
        let mut p = self.plugins[idx].clone();
        p.state = if p.enabled {
            PluginState::Unloaded
        } else {
            PluginState::Disabled
        };
        proof {
            assert(self.graph()[idx as int] == self.plugins@[idx as int]@);
        }
        let ghost ppre = self.plugins@;
        vec_update_plugin(&mut self.plugins, idx, p);
        proof {
            lemma_plugins_view_update(ppre, idx as int, self.plugins@[idx as int]);
            lemma_wf_update(plugins_view(ppre), plugins_view(self.plugins@));
        }
    }

    /// Reload an extension: mark it unloaded (its runner having been
    /// released by the caller), then begin a fresh load. The outcome and
    /// state changes compose those of `unload_plugin` and `begin_load`: an
    /// unknown id or a disabled extension is refused, and an enabled one
    /// ends in `Loading` with a fresh load instruction.
    pub fn reload_plugin(&mut self, plugin_id: &str) -> (r: Result<
        Option<LoadInstruction>,
        RegistryError,
    >)
        requires
            old(self).wf(),
        ensures
            final(self).wf(),
            final(self).host_version == old(self).host_version,
            final(self).load_order == old(self).load_order,
            final(self).config.set_view() == old(self).config.set_view(),
            !has_id(old(self).graph(), plugin_id@) ==> {
                &&& r matches Err(RegistryError::PluginNotFound { plugin_id: p }) && p@
                    == plugin_id@
                &&& final(self).graph() == old(self).graph()
            },
            has_id(old(self).graph(), plugin_id@) && !old(self).graph()[first_idx(
                old(self).graph(),
                plugin_id@,
            )].enabled ==> {
                &&& r matches Err(RegistryError::PluginDisabled { plugin_id: p }) && p@
                    == plugin_id@
                &&& final(self).graph() == old(self).graph().update(
                    first_idx(old(self).graph(), plugin_id@),
                    PluginView {
                        state: PluginState::Disabled,
                        ..old(self).graph()[first_idx(old(self).graph(), plugin_id@)]
                    },
                )
            },
            has_id(old(self).graph(), plugin_id@) && old(self).graph()[first_idx(
                old(self).graph(),
                plugin_id@,
            )].enabled ==> {
                &&& r matches Ok(o) && o matches Some(instr) && {
                    let pv = old(self).graph()[first_idx(old(self).graph(), plugin_id@)];
                    &&& instr.plugin_type == pv.manifest.plugin_type
                    &&& instr.path@ == pv.path
                    &&& instr.main@ == pv.manifest.main
                    &&& instr.context@.plugin_id == plugin_id@
                    &&& instr.context@.vault_id is None
                    &&& instr.context@.capabilities == pv.manifest.capabilities
                }
                &&& final(self).graph() == old(self).graph().update(
                    first_idx(old(self).graph(), plugin_id@),
                    PluginView {
                        state: PluginState::Loading,
                        ..old(self).graph()[first_idx(old(self).graph(), plugin_id@)]
                    },
                )
            },
    {
        let ghost g0 = self.graph();
        self.unload_plugin(plugin_id);
        let ghost g1 = self.graph();
        proof {
            if has_id(g0, plugin_id@) {
                let k = first_idx(g0, plugin_id@);
                lemma_first_idx(g0, plugin_id@);
                lemma_first_idx_update(
                    g0,
                    k,
                    PluginView {
                        state: if g0[k].enabled {
                            PluginState::Unloaded
                        } else {
                            PluginState::Disabled
                        },
                        ..g0[k]
                    },
                    plugin_id@,
                );
            }
        }
        let r = self.begin_load(plugin_id);
        proof {
            if has_id(g0, plugin_id@) {
                let k = first_idx(g0, plugin_id@);
                lemma_first_idx(g0, plugin_id@);
                assert(g1[k] == PluginView {
                    state: if g0[k].enabled {
                        PluginState::Unloaded
                    } else {
                        PluginState::Disabled
                    },
                    ..g0[k]
                });
                if g0[k].enabled {
                    assert(self.graph() =~= g0.update(
                        k,
                        PluginView { state: PluginState::Loading, ..g0[k] },
                    )) by {
                        assert(self.graph() == g1.update(
                            k,
                            PluginView { state: PluginState::Loading, ..g1[k] },
                        ));
                        assert(PluginView { state: PluginState::Loading, ..g1[k] }
                            == PluginView { state: PluginState::Loading, ..g0[k] });
                    }
                } else {
                    assert(self.graph() == g1);
                    assert(self.graph() =~= g0.update(
                        k,
                        PluginView { state: PluginState::Disabled, ..g0[k] },
                    ));
                }
            }
        }
        r
    }

    /// The enabled plugin records, in canonical load order.
    pub fn get_enabled_plugins(&self) -> (r: Vec<Plugin>)
        ensures
            plugins_view(r@) == enabled_in_order(self.graph(), seq_views(self.load_order@)),
    {
        let ghost gv = self.graph();
        let ghost ordv = seq_views(self.load_order@);
        let mut out: Vec<Plugin> = Vec::new();
        let mut i: usize = 0;
        proof {
            assert(plugins_view(out@) =~= Seq::<PluginView>::empty());
            assert(enabled_in_order(gv, ordv.take(0)) =~= Seq::<PluginView>::empty());
        }
        while i < self.load_order.len()
            invariant
                0 <= i <= self.load_order@.len(),
                gv == self.graph(),
                ordv == seq_views(self.load_order@),
                ordv.len() == self.load_order@.len(),
                plugins_view(out@) == enabled_in_order(gv, ordv.take(i as int)),
            decreases self.load_order@.len() - i,
        {
            proof {
                assert(ordv.take(i + 1).drop_last() =~= ordv.take(i as int));
                assert(ordv.take(i + 1).last() == ordv[i as int]);
                assert(ordv[i as int] == self.load_order@[i as int]@);
            }
            match resolver::find_plugin(&self.plugins, self.load_order[i].as_str()) {
                Some(j) => {
                    proof {
                        assert(gv[j as int] == self.plugins@[j as int]@);
                    }
                    if self.plugins[j].enabled {
                        let ghost opre = plugins_view(out@);
                        out.push(self.plugins[j].clone());
                        proof {
                            let opost = plugins_view(out@);
                            assert forall|k: int| 0 <= k < opost.len() implies #[trigger] opost[k]
                                == enabled_in_order(gv, ordv.take(i + 1))[k] by {
                                assert(opost[k] == out@[k]@);
                                if k < opre.len() {
                                    assert(opre[k] == out@[k]@);
                                }
                            }
                            assert(opost =~= enabled_in_order(gv, ordv.take(i + 1)));
                        }
                    } else {
                        proof {
                            assert(enabled_in_order(gv, ordv.take(i + 1)) =~= enabled_in_order(
                                gv,
                                ordv.take(i as int),
                            ));
                        }
                    }
                },
                None => {
                    proof {
                        assert(enabled_in_order(gv, ordv.take(i + 1)) =~= enabled_in_order(
                            gv,
                            ordv.take(i as int),
                        ));
                    }
                },
            }
            i = i + 1;
        }
        proof {
            assert(ordv.take(ordv.len() as int) =~= ordv);
        }
        out
    }

    /// The ids of currently loaded extensions, in canonical load order: the
    /// fan-out targets for event dispatch. Delivery is sequential in this
    /// order with no per-extension timeout, so a slow handler delays the
    /// extensions after it; any timeout policy belongs to the caller that
    /// drives the runners.
    pub fn loaded_plugin_ids(&self) -> (r: Vec<String>)
        ensures
            seq_views(r@) == loaded_in_order(self.graph(), seq_views(self.load_order@)),
    {
        let ghost gv = self.graph();
        let ghost ordv = seq_views(self.load_order@);
        let mut out: Vec<String> = Vec::new();
        let mut i: usize = 0;
        proof {
            assert(seq_views(out@) =~= Seq::<Seq<char>>::empty());
            assert(loaded_in_order(gv, ordv.take(0)) =~= Seq::<Seq<char>>::empty());
        }
        while i < self.load_order.len()
            invariant
                0 <= i <= self.load_order@.len(),
                gv == self.graph(),
                ordv == seq_views(self.load_order@),
                ordv.len() == self.load_order@.len(),
                seq_views(out@) == loaded_in_order(gv, ordv.take(i as int)),
            decreases self.load_order@.len() - i,
        {
            proof {
                assert(ordv.take(i + 1).drop_last() =~= ordv.take(i as int));
                assert(ordv.take(i + 1).last() == ordv[i as int]);
                assert(ordv[i as int] == self.load_order@[i as int]@);
            }
            let mut push_it = false;
            match resolver::find_plugin(&self.plugins, self.load_order[i].as_str()) {
                Some(j) => {
                    proof {
                        assert(gv[j as int] == self.plugins@[j as int]@);
                    }
                    match self.plugins[j].state {
                        PluginState::Loaded => {
                            push_it = true;
                        },
                        _ => {},
                    }
                },
                None => {},
            }
            if push_it {
                let ghost opre = seq_views(out@);
                out.push(self.load_order[i].clone());
                proof {
                    let opost = seq_views(out@);
                    assert forall|k: int| 0 <= k < opost.len() implies #[trigger] opost[k]
                        == loaded_in_order(gv, ordv.take(i + 1))[k] by {
                        assert(opost[k] == out@[k]@);
                        if k < opre.len() {
                            assert(opre[k] == out@[k]@);
                        }
                    }
                    assert(opost =~= loaded_in_order(gv, ordv.take(i + 1)));
                }
            } else {
                proof {
                    assert(loaded_in_order(gv, ordv.take(i + 1)) =~= loaded_in_order(
                        gv,
                        ordv.take(i as int),
                    ));
                }
            }
            i = i + 1;
        }
        proof {
            assert(ordv.take(ordv.len() as int) =~= ordv);
        }
        out
    }

    /// The canonical load order, as last resolved.
    pub fn get_load_order(&self) -> (r: Vec<String>)
        ensures
            seq_views(r@) == seq_views(self.load_order@),
    {
        clone_strings(&self.load_order)
    }
}

/// Replacing a record with one of the same id moves no id, so lookups are
/// unchanged.
proof fn lemma_first_idx_update(g: Seq<PluginView>, k: int, p: PluginView, id: Seq<char>)
    requires
        0 <= k < g.len(),
        p.manifest.id == g[k].manifest.id,
    ensures
        has_id(g.update(k, p), id) == has_id(g, id),
        first_idx(g.update(k, p), id) == first_idx(g, id),
    decreases g.len(),
{
    let g2 = g.update(k, p);
    assert(forall|m: int|
        0 <= m < g.len() ==> (#[trigger] g2[m]).manifest.id == g[m].manifest.id);
    assert(has_id(g2, id) == has_id(g, id)) by {
        if has_id(g, id) {
            let m = choose|m: int| 0 <= m < g.len() && (#[trigger] g[m]).manifest.id == id;
            assert(g2[m].manifest.id == id);
        }
        if has_id(g2, id) {
            let m = choose|m: int| 0 <= m < g2.len() && (#[trigger] g2[m]).manifest.id == id;
            assert(g[m].manifest.id == id);
        }
    }
    if k == 0 {
        assert(g2[0].manifest.id == g[0].manifest.id);
        assert(g2.skip(1) =~= g.skip(1));
    } else {
        assert(g2[0] == g[0]);
        assert(g2.skip(1) =~= g.skip(1).update(k - 1, p));
        assert(p.manifest.id == g.skip(1)[k - 1].manifest.id);
        lemma_first_idx_update(g.skip(1), k - 1, p, id);
    }
}

/// A pointwise state change never touches ids, so uniqueness survives any
/// record update.
proof fn lemma_wf_update(a: Seq<PluginView>, b: Seq<PluginView>)
    requires
        wf_graph(a),
        a.len() == b.len(),
        forall|k: int| 0 <= k < b.len() ==> (#[trigger] b[k]).manifest.id == a[k].manifest.id,
    ensures
        wf_graph(b),
{
    assert forall|x: int, y: int|
        #![trigger b[x], b[y]]
        0 <= x < y < b.len() implies b[x].manifest.id != b[y].manifest.id by {
        assert(a[x].manifest.id != a[y].manifest.id);
    }
}

} // verus!
