//! Workspace configuration: the settings a workspace is created with.

use vstd::prelude::*;

verus! {

/// The configuration version written by this library.
pub fn default_version() -> (r: u32)
    ensures
        r == 1,
{
    1
}

/// The state a new item starts in unless configured otherwise.
pub fn default_state() -> (r: String)
    ensures
        r@ == "TODO"@,
{
    String::from_str("TODO")
}

/// Workspace-level settings.
pub struct WorkspaceSettings {
    /// Display name of the workspace.
    pub name: Option<String>,
}

impl Default for WorkspaceSettings {
    fn default() -> (r: Self)
        ensures
            r.name is None,
    {
        WorkspaceSettings { name: None }
    }
}

/// Default values for new items.
pub struct ItemDefaults {
    /// The state new items start in.
    pub state: String,
    /// Labels attached to new items.
    pub labels: Vec<String>,
}

impl Default for ItemDefaults {
    fn default() -> (r: Self)
        ensures
            r.state@ == "TODO"@,
            r.labels@.len() == 0,
    {
        ItemDefaults { state: default_state(), labels: Vec::new() }
    }
}

/// A workspace's configuration.
pub struct WorkspaceConfig {
    /// Configuration format version.
    pub version: u32,
    /// Workspace-level settings.
    pub workspace: WorkspaceSettings,
    /// Default values for new items.
    pub defaults: ItemDefaults,
}

impl Default for WorkspaceConfig {
    fn default() -> (r: Self)
        ensures
            r.version == 1,
            r.workspace.name is None,
            r.defaults.state@ == "TODO"@,
            r.defaults.labels@.len() == 0,
    {
        WorkspaceConfig {
            version: default_version(),
            workspace: WorkspaceSettings { name: None },
            defaults: ItemDefaults { state: default_state(), labels: Vec::new() },
        }
    }
}

impl WorkspaceConfig {
    /// A fresh configuration carrying a workspace name.
    pub fn new(name: String) -> (r: Self)
        ensures
            r.version == 1,
            r.workspace.name matches Some(n) && n@ == name@,
            r.defaults.state@ == "TODO"@,
            r.defaults.labels@.len() == 0,
    {
        WorkspaceConfig {
            version: default_version(),
            workspace: WorkspaceSettings { name: Some(name) },
            defaults: ItemDefaults { state: default_state(), labels: Vec::new() },
        }
    }

    /// A deep copy of the configuration.
    pub fn clone_config(&self) -> (r: Self)
        ensures
            r.version == self.version,
            r.workspace.name matches Some(n) ==> self.workspace.name matches Some(m) && n@ == m@,
            r.workspace.name is None <==> self.workspace.name is None,
            r.defaults.state@ == self.defaults.state@,
            r.defaults.labels@ == self.defaults.labels@,
    {
        WorkspaceConfig {
            version: self.version,
            workspace: WorkspaceSettings {
                name: match &self.workspace.name {
                    Some(n) => Some(n.clone()),
                    None => None,
                },
            },
            defaults: ItemDefaults {
                state: self.defaults.state.clone(),
                labels: crate::text::clone_strings(&self.defaults.labels),
            },
        }
    }
}

} // verus!
