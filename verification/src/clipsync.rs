//! Parameters of the clipboard-bridging side process that the sink launches
//! on a successful switch. The launch itself is a fire-and-forget process
//! spawn performed by the surrounding application; the core only assembles
//! and validates these options.

use vstd::prelude::*;

verus! {

/// Options for the clipboard-synchronization provider process.
#[derive(Clone, Debug)]
pub struct ClipSyncOptions {
    /// Whether clipboard bridging is enabled at all.
    pub clip_sync_enabled: bool,
    /// Path of the provider executable to spawn.
    pub sync_provider_path: String,
    /// Value handed to the provider as its runtime directory.
    pub xdg_runtime_dir: String,
    /// Value handed to the provider as its display identifier.
    pub wayland_display: String,
    /// Path of the provider's own configuration file.
    pub piknik_config_path: String,
    /// User id under which the provider runs.
    pub uid: u32,
    /// Group id under which the provider runs.
    pub gid: u32,
}

impl ClipSyncOptions {
    /// A launch should be attempted only when bridging is enabled and a
    /// provider path was actually configured.
    pub open spec fn spec_should_launch(&self) -> bool {
        self.clip_sync_enabled && self.sync_provider_path@.len() > 0
    }

    /// Whether the surrounding application should spawn the provider.
    pub fn should_launch(&self) -> (r: bool)
        ensures
            r == self.spec_should_launch(),
    {
        self.clip_sync_enabled && self.sync_provider_path.as_str().unicode_len() > 0
    }
}

} // verus!
