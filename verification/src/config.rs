//! Installation settings.

use vstd::prelude::*;

verus! {

/// What an installation run is told: where the tools and the boot partition
/// are, how many generations to keep, and data that is passed through as it
/// is (extra configuration text, additional files, encrypted devices).
#[derive(Debug, PartialEq, Eq)]
pub struct InstallConfig {
    pub nix_path: String,
    pub refind_path: String,
    pub efi_mount_point: String,
    pub efi_boot_mgr_path: String,
    pub can_touch_efi_variables: bool,
    pub efi_removable: bool,
    pub timeout: u32,
    pub max_generations: usize,
    pub extra_config: String,
    pub host_architecture: String,
    pub additional_files: Vec<(String, String)>,
    pub luks_devices: Vec<(String, String)>,
}

/// What a finished run of an outside program left behind.
#[derive(Debug, PartialEq, Eq)]
pub struct ToolOutput {
    /// Whether the program exited with status zero.
    pub success: bool,
    pub stdout: String,
    pub stderr: String,
}

} // verus!
