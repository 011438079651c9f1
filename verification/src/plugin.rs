//! The contract between the player and components loaded from shared libraries.
use vstd::prelude::*;

verus! {

/// Version checked by the host before it creates a plugin instance.
pub const PLUGIN_API_VERSION: u32 = 1;

/// A capability provided by an externally loaded component.
///
/// Plugin and host must use the same Rust toolchain and this exact crate version.
pub trait Plugin: Send {
    fn metadata(&self) -> PluginMetadata;

    fn activate(&mut self) -> Result<(), PluginError>;

    fn deactivate(&mut self);
}

/// How a component identifies itself.
#[derive(Debug, Clone, Copy)]
pub struct PluginMetadata {
    pub id: &'static str,
    pub name: &'static str,
    pub version: &'static str,
}

/// Why a component refused to activate.
#[derive(Debug, Clone)]
pub struct PluginError(pub String);

impl PluginError {
    /// The error's text.
    pub fn message(&self) -> (m: String)
        ensures
            m@ == self.0@,
    {
        self.0.clone()
    }
}

/// Whether a component reporting API `version` may be loaded by this host.
pub fn api_version_matches(version: u32) -> (ok: bool)
    ensures
        ok == (version == PLUGIN_API_VERSION),
{
    version == PLUGIN_API_VERSION
}

/// The example component shipped with the player: it activates without doing anything.
pub struct ExampleComponent;

impl Plugin for ExampleComponent {
    fn metadata(&self) -> (m: PluginMetadata)
        ensures
            m.id@ == "example-component"@,
            m.name@ == "Example Component"@,
            m.version@ == "0.1.0"@,
    {
        PluginMetadata { id: "example-component", name: "Example Component", version: "0.1.0" }
    }

    fn activate(&mut self) -> (r: Result<(), PluginError>)
        ensures
            r is Ok,
    {
        Ok(())
    }

    fn deactivate(&mut self) {
    }
}

/// The API version the example component was built against.
pub fn kanono_plugin_api_version() -> (v: u32)
    ensures
        v == PLUGIN_API_VERSION,
{
    PLUGIN_API_VERSION
}

} // verus!
