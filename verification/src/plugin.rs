//! Model types for the extension system: manifest metadata, capabilities,
//! lifecycle hooks, the runtime plugin record with its lifecycle state, and
//! the per-load context carrying an extension's granted capabilities.

use vstd::prelude::*;
use crate::semver;
use crate::strutil::{opt_view, seq_views};

verus! {

/// Execution kind of an extension: a sandboxed bytecode module run inside a
/// virtual machine, or a script imported into an embedded interpreter.
#[derive(Clone, Copy, PartialEq, Eq, Structural, Debug)]
pub enum PluginType {
    Wasm,
    Python,
}

/// Discrete permissions an extension may declare and be granted.
#[derive(Clone, Copy, PartialEq, Eq, Structural, Debug, Hash)]
pub enum PluginCapability {
    ReadFiles,
    WriteFiles,
    DeleteFiles,
    VaultMetadata,
    Network,
    Storage,
    ModifyUI,
    Commands,
    EditorAccess,
    SystemExec,
}

/// Lifecycle hooks an extension may implement.
#[derive(Clone, Copy, PartialEq, Eq, Structural, Debug)]
pub enum PluginHook {
    OnLoad,
    OnUnload,
    OnFileOpen,
    OnFileSave,
    OnFileCreate,
    OnFileDelete,
    OnFileRename,
    OnVaultSwitch,
    OnEditorChange,
    OnStartup,
    OnShutdown,
}

/// Lifecycle state of a discovered extension.
#[derive(Clone, Copy, PartialEq, Eq, Structural, Debug)]
pub enum PluginState {
    Unloaded,
    Loading,
    Loaded,
    Failed,
    Disabled,
}

impl Default for PluginState {
    fn default() -> (r: Self)
        ensures
            r == PluginState::Unloaded,
    {
        PluginState::Unloaded
    }
}

/// One declared dependency: the id of another extension and a version
/// constraint string in the grammar of [`crate::semver`].
pub struct Dependency {
    pub id: String,
    pub req: String,
}

impl View for Dependency {
    type V = (Seq<char>, Seq<char>);

    open spec fn view(&self) -> (Seq<char>, Seq<char>) {
        (self.id@, self.req@)
    }
}

impl Clone for Dependency {
    fn clone(&self) -> (r: Self)
        ensures
            r@ == self@,
    {
        Dependency { id: self.id.clone(), req: self.req.clone() }
    }
}

/// Declarative metadata describing one extension, loaded from its manifest
/// file. Field defaults for absent manifest entries are applied by the caller
/// that parses the file; this type always carries concrete values.
pub struct PluginManifest {
    pub id: String,
    pub name: String,
    pub version: String,
    pub description: Option<String>,
    pub author: Option<String>,
    pub license: Option<String>,
    pub main: String,
    pub plugin_type: PluginType,
    pub styles: Vec<String>,
    pub min_host_version: Option<String>,
    pub dependencies: Vec<Dependency>,
    pub capabilities: Vec<PluginCapability>,
    pub hooks: Vec<PluginHook>,
    pub config_schema: Option<String>,
}

/// Mathematical image of a manifest: every string replaced by its character
/// sequence.
pub struct ManifestView {
    pub id: Seq<char>,
    pub name: Seq<char>,
    pub version: Seq<char>,
    pub description: Option<Seq<char>>,
    pub author: Option<Seq<char>>,
    pub license: Option<Seq<char>>,
    pub main: Seq<char>,
    pub plugin_type: PluginType,
    pub styles: Seq<Seq<char>>,
    pub min_host_version: Option<Seq<char>>,
    pub dependencies: Seq<(Seq<char>, Seq<char>)>,
    pub capabilities: Seq<PluginCapability>,
    pub hooks: Seq<PluginHook>,
    pub config_schema: Option<Seq<char>>,
}

impl View for PluginManifest {
    type V = ManifestView;

    open spec fn view(&self) -> ManifestView {
        ManifestView {
            id: self.id@,
            name: self.name@,
            version: self.version@,
            description: opt_view(self.description),
            author: opt_view(self.author),
            license: opt_view(self.license),
            main: self.main@,
            plugin_type: self.plugin_type,
            styles: seq_views(self.styles@),
            min_host_version: opt_view(self.min_host_version),
            dependencies: self.dependencies@.map_values(|d: Dependency| d@),
            capabilities: self.capabilities@,
            hooks: self.hooks@,
            config_schema: opt_view(self.config_schema),
        }
    }
}

/// Copy a vector of strings, preserving each string's characters.
pub fn clone_strings(v: &Vec<String>) -> (r: Vec<String>)
    ensures
        seq_views(r@) == seq_views(v@),
{
    let mut r: Vec<String> = Vec::new();
    let mut i: usize = 0;
    while i < v.len()
        invariant
            0 <= i <= v@.len(),
            seq_views(r@) =~= seq_views(v@).take(i as int),
        decreases v@.len() - i,
    {
        let c = v[i].clone();
        proof {
            assert(c@ == v@[i as int]@);
        }
        let ghost pre = r@;
        r.push(c);
        proof {
            let rm = seq_views(r@);
            let vm = seq_views(v@);
            let pm = seq_views(pre);
            assert(rm.len() == r@.len());
            assert(vm.len() == v@.len());
            assert(pm.len() == pre.len());
            assert(pre.len() == i);
            assert forall|k: int| 0 <= k < rm.len() implies #[trigger] rm[k] == vm.take(i + 1)[k]
                by {
                assert(rm[k] == r@[k]@);
                if k < i {
                    assert(r@[k] == pre[k]);
                    assert(pm[k] == pre[k]@);
                }
            }
            assert(seq_views(r@) =~= seq_views(v@).take(i + 1));
        }
        i = i + 1;
    }
    proof {
        assert(seq_views(v@).take(v@.len() as int) =~= seq_views(v@));
    }
    r
}

/// Copy an optional string, preserving its characters.
pub fn clone_opt_string(o: &Option<String>) -> (r: Option<String>)
    ensures
        opt_view(r) == opt_view(*o),
{
    match o {
        Option::Some(s) => Option::Some(s.clone()),
        Option::None => Option::None,
    }
}

/// Copy a capability list; capabilities are plain values.
pub fn clone_caps(v: &Vec<PluginCapability>) -> (r: Vec<PluginCapability>)
    ensures
        r@ == v@,
{
    let mut r: Vec<PluginCapability> = Vec::new();
    let mut i: usize = 0;
    while i < v.len()
        invariant
            0 <= i <= v@.len(),
            r@ =~= v@.take(i as int),
        decreases v@.len() - i,
    {
        r.push(v[i]);
        proof {
            assert(r@ =~= v@.take(i + 1));
        }
        i = i + 1;
    }
    proof {
        assert(v@.take(v@.len() as int) =~= v@);
    }
    r
}

fn clone_hooks(v: &Vec<PluginHook>) -> (r: Vec<PluginHook>)
    ensures
        r@ == v@,
{
    let mut r: Vec<PluginHook> = Vec::new();
    let mut i: usize = 0;
    while i < v.len()
        invariant
            0 <= i <= v@.len(),
            r@ =~= v@.take(i as int),
        decreases v@.len() - i,
    {
        r.push(v[i]);
        proof {
            assert(r@ =~= v@.take(i + 1));
        }
        i = i + 1;
    }
    proof {
        assert(v@.take(v@.len() as int) =~= v@);
    }
    r
}

fn clone_deps(v: &Vec<Dependency>) -> (r: Vec<Dependency>)
    ensures
        r@.map_values(|d: Dependency| d@) == v@.map_values(|d: Dependency| d@),
{
    let mut r: Vec<Dependency> = Vec::new();
    let mut i: usize = 0;
    while i < v.len()
        invariant
            0 <= i <= v@.len(),
            r@.map_values(|d: Dependency| d@) =~= v@.map_values(|d: Dependency| d@).take(i as int),
        decreases v@.len() - i,
    {
        let c = v[i].clone();
        proof {
            assert(c@ == v@[i as int]@);
        }
        let ghost pre = r@;
        r.push(c);
        proof {
            let rm = r@.map_values(|d: Dependency| d@);
            let vm = v@.map_values(|d: Dependency| d@);
            let pm = pre.map_values(|d: Dependency| d@);
            assert(rm.len() == r@.len());
            assert(vm.len() == v@.len());
            assert(pm.len() == pre.len());
            assert(pre.len() == i);
            assert forall|k: int| 0 <= k < rm.len() implies #[trigger] rm[k] == vm.take(i + 1)[k]
                by {
                assert(rm[k] == r@[k]@);
                if k < i {
                    assert(r@[k] == pre[k]);
                    assert(pm[k] == pre[k]@);
                }
            }
            assert(rm =~= vm.take(i + 1));
        }
        i = i + 1;
    }
    proof {
        assert(v@.map_values(|d: Dependency| d@).take(v@.len() as int) =~= v@.map_values(
            |d: Dependency| d@,
        ));
    }
    r
}

impl Clone for PluginManifest {
    fn clone(&self) -> (r: Self)
        ensures
            r@ == self@,
    {
        let r = PluginManifest {
            id: self.id.clone(),
            name: self.name.clone(),
            version: self.version.clone(),
            description: clone_opt_string(&self.description),
            author: clone_opt_string(&self.author),
            license: clone_opt_string(&self.license),
            main: self.main.clone(),
            plugin_type: self.plugin_type,
            styles: clone_strings(&self.styles),
            min_host_version: clone_opt_string(&self.min_host_version),
            dependencies: clone_deps(&self.dependencies),
            capabilities: clone_caps(&self.capabilities),
            hooks: clone_hooks(&self.hooks),
            config_schema: clone_opt_string(&self.config_schema),
        };
        r
    }
}

impl PluginManifest {
    /// Does the manifest declare this capability?
    pub fn declares_capability(&self, capability: PluginCapability) -> (r: bool)
        ensures
            r == self@.capabilities.contains(capability),
    {
        let mut i: usize = 0;
        while i < self.capabilities.len()
            invariant
                0 <= i <= self.capabilities@.len(),
                forall|k: int| 0 <= k < i ==> self.capabilities@[k] != capability,
            decreases self.capabilities@.len() - i,
        {
            if self.capabilities[i] == capability {
                return true;
            }
            i = i + 1;
        }
        false
    }
}

/// Mutable runtime record for one discovered extension.
pub struct Plugin {
    pub manifest: PluginManifest,
    pub path: String,
    pub enabled: bool,
    pub state: PluginState,
    pub config: Option<String>,
    pub last_error: Option<String>,
}

/// Mathematical image of a plugin record.
pub struct PluginView {
    pub manifest: ManifestView,
    pub path: Seq<char>,
    pub enabled: bool,
    pub state: PluginState,
    pub config: Option<Seq<char>>,
    pub last_error: Option<Seq<char>>,
}

impl View for Plugin {
    type V = PluginView;

    open spec fn view(&self) -> PluginView {
        PluginView {
            manifest: self.manifest@,
            path: self.path@,
            enabled: self.enabled,
            state: self.state,
            config: opt_view(self.config),
            last_error: opt_view(self.last_error),
        }
    }
}

impl Clone for Plugin {
    fn clone(&self) -> (r: Self)
        ensures
            r@ == self@,
    {
        Plugin {
            manifest: self.manifest.clone(),
            path: self.path.clone(),
            enabled: self.enabled,
            state: self.state,
            config: clone_opt_string(&self.config),
            last_error: clone_opt_string(&self.last_error),
        }
    }
}

/// Per-load context handed to an extension's runner: who is calling and what
/// it has been granted. Granted capabilities currently equal the declared
/// set, but are carried separately so that they could be narrowed.
#[derive(Debug)]
pub struct PluginContext {
    pub plugin_id: String,
    pub vault_id: Option<String>,
    pub capabilities: Vec<PluginCapability>,
}

/// Mathematical image of a plugin context.
pub struct PluginContextView {
    pub plugin_id: Seq<char>,
    pub vault_id: Option<Seq<char>>,
    pub capabilities: Seq<PluginCapability>,
}

impl View for PluginContext {
    type V = PluginContextView;

    open spec fn view(&self) -> PluginContextView {
        PluginContextView {
            plugin_id: self.plugin_id@,
            vault_id: opt_view(self.vault_id),
            capabilities: self.capabilities@,
        }
    }
}

impl Clone for PluginContext {
    fn clone(&self) -> (r: Self)
        ensures
            r@ == self@,
    {
        PluginContext {
            plugin_id: self.plugin_id.clone(),
            vault_id: clone_opt_string(&self.vault_id),
            capabilities: clone_caps(&self.capabilities),
        }
    }
}

impl PluginContext {
    /// Has this context been granted the capability?
    pub fn has_capability(&self, capability: PluginCapability) -> (r: bool)
        ensures
            r == self@.capabilities.contains(capability),
    {
        let mut i: usize = 0;
        while i < self.capabilities.len()
            invariant
                0 <= i <= self.capabilities@.len(),
                forall|k: int| 0 <= k < i ==> self.capabilities@[k] != capability,
            decreases self.capabilities@.len() - i,
        {
            if self.capabilities[i] == capability {
                return true;
            }
            i = i + 1;
        }
        false
    }
}

/// Why a manifest was rejected at validation time.
#[derive(Clone, Copy, PartialEq, Eq, Structural, Debug)]
pub enum ManifestError {
    EmptyId,
    EmptyName,
    EmptyEntryPoint,
    InvalidVersion,
    InvalidMinHostVersion,
    IncompatibleHostVersion,
}

impl ManifestError {
    /// A human-readable description of the rejection.
    pub fn message(&self) -> (r: String)
        ensures
            *self == ManifestError::EmptyId ==> r@ == "Plugin ID cannot be empty"@,
            *self == ManifestError::EmptyName ==> r@ == "Plugin name cannot be empty"@,
            *self == ManifestError::EmptyEntryPoint ==> r@
                == "Plugin main entry point cannot be empty"@,
            *self == ManifestError::InvalidVersion ==> r@ == "Invalid version format"@,
            *self == ManifestError::InvalidMinHostVersion ==> r@
                == "Invalid min_host_version format"@,
            *self == ManifestError::IncompatibleHostVersion ==> r@
                == "Plugin requires a newer host version"@,
    {
        match self {
            ManifestError::EmptyId => "Plugin ID cannot be empty".to_owned(),
            ManifestError::EmptyName => "Plugin name cannot be empty".to_owned(),
            ManifestError::EmptyEntryPoint => "Plugin main entry point cannot be empty".to_owned(),
            ManifestError::InvalidVersion => "Invalid version format".to_owned(),
            ManifestError::InvalidMinHostVersion => "Invalid min_host_version format".to_owned(),
            ManifestError::IncompatibleHostVersion => "Plugin requires a newer host version".to_owned(),
        }
    }
}

/// The validation rules for a manifest, applied in order: nonempty id, name
/// and entry point; a valid three-component version; and, when a minimum
/// host version is declared, that it is valid and that the host version is
/// at least it.
pub open spec fn spec_validate_manifest(m: ManifestView, host: Seq<char>) -> Result<
    (),
    ManifestError,
> {
    if m.id.len() == 0 {
        Result::Err(ManifestError::EmptyId)
    } else if m.name.len() == 0 {
        Result::Err(ManifestError::EmptyName)
    } else if m.main.len() == 0 {
        Result::Err(ManifestError::EmptyEntryPoint)
    } else if !semver::sem_valid(m.version) {
        Result::Err(ManifestError::InvalidVersion)
    } else if m.min_host_version is Some && !semver::sem_valid(m.min_host_version->0) {
        Result::Err(ManifestError::InvalidMinHostVersion)
    } else if m.min_host_version is Some && !semver::ge_ok(host, m.min_host_version->0) {
        Result::Err(ManifestError::IncompatibleHostVersion)
    } else {
        Result::Ok(())
    }
}

/// Validate a manifest against the given running host version.
pub fn validate_manifest(manifest: &PluginManifest, host_version: &str) -> (r: Result<
    (),
    ManifestError,
>)
    ensures
        r == spec_validate_manifest(manifest@, host_version@),
{
    if manifest.id.as_str().is_empty() {
        return Err(ManifestError::EmptyId);
    }
    if manifest.name.as_str().is_empty() {
        return Err(ManifestError::EmptyName);
    }
    if manifest.main.as_str().is_empty() {
        return Err(ManifestError::EmptyEntryPoint);
    }
    if !semver::is_valid_semver(manifest.version.as_str()) {
        return Err(ManifestError::InvalidVersion);
    }
    match &manifest.min_host_version {
        Option::Some(min_version) => {
            if !semver::is_valid_semver(min_version.as_str()) {
                return Err(ManifestError::InvalidMinHostVersion);
            }
            if !semver::version_gte(host_version, min_version.as_str()) {
                return Err(ManifestError::IncompatibleHostVersion);
            }
            Ok(())
        },
        Option::None => Ok(()),
    }
}

} // verus!
