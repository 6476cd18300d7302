use refind_conf::config::{InstallConfig, ToolOutput};
use refind_conf::efi::{
    boot_file_for, current_boot_order, device_for_mount_point, disk_from_captures,
    extract_partition_number, find_disk_device, find_existing_entry, find_mounted_device,
    firmware_tool_path, is_mount_point, loader_path_for, reconcile, setup_efi_boot_entry,
    EfiError, FirmwareCommand,
};

const LISTING: &str = "BootCurrent: 0001\nTimeout: 1 seconds\nBootOrder: 0003,0001,0002\nBoot0001* rEFInd\tHD(1,GPT,aaaa)/File(\\EFI\\refind\\refind_x64.efi)\nBoot0002  Linux\nBoot0003* Windows Boot Manager\n";

const LISTING_WITHOUT_ENTRY: &str =
    "BootCurrent: 0002\nBootOrder: 0003,0002\nBoot0002  Linux\nBoot0003* Windows Boot Manager\n";

const MOUNTS: &str = "proc /proc proc rw 0 0\n/dev/nvme0n1p2 / ext4 rw 0 0\n/dev/nvme0n1p1 /boot vfat rw 0 0\nshort\n/dev/sdb1 /boot vfat rw 0 0\n";

fn config(arch: &str) -> InstallConfig {
    InstallConfig {
        nix_path: "/nix/store/nix".to_string(),
        refind_path: "/nix/store/refind".to_string(),
        efi_mount_point: "/boot".to_string(),
        efi_boot_mgr_path: "/nix/store/efibootmgr".to_string(),
        can_touch_efi_variables: true,
        efi_removable: false,
        timeout: 5,
        max_generations: 2,
        extra_config: String::new(),
        host_architecture: arch.to_string(),
        additional_files: Vec::new(),
        luks_devices: Vec::new(),
    }
}

fn listing(success: bool, stdout: &str) -> ToolOutput {
    ToolOutput { success, stdout: stdout.to_string(), stderr: String::new() }
}

fn strings(items: &[&str]) -> Vec<String> {
    items.iter().map(|s| s.to_string()).collect()
}

#[test]
fn find_existing_entry_reads_the_identifier() {
    assert_eq!(find_existing_entry(&listing(true, LISTING)), Ok(Some("0001".to_string())));
    assert_eq!(
        find_existing_entry(&listing(true, "Boot00AF rEFInd")),
        Ok(Some("00AF".to_string()))
    );
    assert_eq!(
        find_existing_entry(&listing(true, "Boot12ab* rEFInd Boot Manager")),
        Ok(Some("12ab".to_string()))
    );
}

#[test]
fn find_existing_entry_finds_none_under_another_label() {
    assert_eq!(find_existing_entry(&listing(true, LISTING_WITHOUT_ENTRY)), Ok(None));
    assert_eq!(find_existing_entry(&listing(true, "")), Ok(None));
    assert_eq!(find_existing_entry(&listing(true, "Boot001* rEFInd")), Ok(None));
    assert_eq!(find_existing_entry(&listing(true, "Boot0001** rEFInd")), Ok(None));
    assert_eq!(find_existing_entry(&listing(true, "Boot000G* rEFInd")), Ok(None));
}

#[test]
fn find_existing_entry_reports_a_failed_listing() {
    assert_eq!(find_existing_entry(&listing(false, LISTING)), Err(EfiError::FirmwareTool));
}

#[test]
fn current_boot_order_reads_the_order_as_printed() {
    assert_eq!(current_boot_order(LISTING), Ok("0003,0001,0002".to_string()));
    assert_eq!(current_boot_order("BootOrder: 0001"), Ok("0001".to_string()));
    assert_eq!(current_boot_order("BootOrder: \nBoot0001* x"), Ok(String::new()));
    assert_eq!(current_boot_order("no order here"), Ok(String::new()));
}

#[test]
fn boot_file_for_goes_by_the_prefix_of_the_architecture() {
    assert_eq!(boot_file_for("x86_64-linux"), Ok("BOOTX64.EFI".to_string()));
    assert_eq!(boot_file_for("i686-linux"), Ok("BOOTIA32.EFI".to_string()));
    assert_eq!(boot_file_for("aarch64-linux"), Ok("BOOTAA64.EFI".to_string()));
    assert_eq!(boot_file_for("x86_64"), Ok("BOOTX64.EFI".to_string()));
}

#[test]
fn boot_file_for_refuses_an_unknown_architecture() {
    assert_eq!(boot_file_for("riscv64-linux"), Err(EfiError::UnsupportedArchitecture));
    assert_eq!(boot_file_for(""), Err(EfiError::UnsupportedArchitecture));
    assert_eq!(boot_file_for("linux-x86_64"), Err(EfiError::UnsupportedArchitecture));
}

#[test]
fn loader_path_for_uses_backslashes() {
    assert_eq!(loader_path_for("BOOTX64.EFI"), "\\efi\\refind\\BOOTX64.EFI");
}

#[test]
fn firmware_tool_path_lies_under_bin() {
    assert_eq!(firmware_tool_path(&config("x86_64-linux")), "/nix/store/efibootmgr/bin/efibootmgr");
}

#[test]
fn is_mount_point_compares_devices() {
    assert!(is_mount_point(7, None));
    assert!(is_mount_point(7, Some(8)));
    assert!(!is_mount_point(7, Some(7)));
}

#[test]
fn device_for_mount_point_takes_the_first_line_that_names_it() {
    assert_eq!(device_for_mount_point(MOUNTS, "/boot"), Some("/dev/nvme0n1p1".to_string()));
    assert_eq!(device_for_mount_point(MOUNTS, "/"), Some("/dev/nvme0n1p2".to_string()));
    assert_eq!(device_for_mount_point(MOUNTS, "/home"), None);
    assert_eq!(device_for_mount_point(MOUNTS, "short"), None);
    assert_eq!(device_for_mount_point("", "/"), None);
}

#[test]
fn find_mounted_device_walks_up_to_the_device_boundary() {
    let chain = vec![
        ("/boot/efi/refind".to_string(), 20),
        ("/boot/efi".to_string(), 20),
        ("/boot".to_string(), 20),
        ("/".to_string(), 10),
    ];
    assert_eq!(find_mounted_device(&chain, MOUNTS), Ok("/dev/nvme0n1p1".to_string()));
}

#[test]
fn find_mounted_device_stops_at_the_root() {
    let chain = vec![("/etc".to_string(), 10), ("/".to_string(), 10)];
    assert_eq!(find_mounted_device(&chain, MOUNTS), Ok("/dev/nvme0n1p2".to_string()));
}

#[test]
fn find_mounted_device_reports_a_mount_point_without_device() {
    let chain = vec![("/srv".to_string(), 30), ("/".to_string(), 10)];
    assert_eq!(find_mounted_device(&chain, MOUNTS), Err(EfiError::DeviceNotFound));
}

#[test]
fn find_mounted_device_needs_a_directory() {
    assert_eq!(find_mounted_device(&Vec::new(), MOUNTS), Err(EfiError::NoMountPoint));
}

#[test]
fn disk_from_captures_prefers_the_namespace_scheme() {
    assert_eq!(
        disk_from_captures(Some("nvme0n1".to_string()), Some("nvme".to_string())),
        Ok("/dev/nvme0n1".to_string())
    );
    assert_eq!(disk_from_captures(None, Some("sda".to_string())), Ok("/dev/sda".to_string()));
    assert_eq!(disk_from_captures(None, None), Err(EfiError::UnknownDiskDevice));
}

#[test]
fn device_split_of_a_plain_partition() {
    let disk = find_disk_device("/dev/sda1").unwrap();
    assert_eq!(disk, "/dev/sda");
    assert_eq!(extract_partition_number("/dev/sda1", &disk), "1");
}

#[test]
fn device_split_of_a_namespace_partition() {
    let disk = find_disk_device("/dev/nvme0n1p3").unwrap();
    assert_eq!(disk, "/dev/nvme0n1");
    assert_eq!(extract_partition_number("/dev/nvme0n1p3", &disk), "3");
}

#[test]
fn find_disk_device_handles_long_numbers_and_names() {
    assert_eq!(find_disk_device("/dev/vda12"), Ok("/dev/vda".to_string()));
    assert_eq!(find_disk_device("/dev/nvme10n2p15"), Ok("/dev/nvme10n2".to_string()));
    assert_eq!(find_disk_device("sdb2"), Ok("/dev/sdb".to_string()));
}

#[test]
fn find_disk_device_refuses_other_names() {
    assert_eq!(find_disk_device("/dev/sda"), Err(EfiError::UnknownDiskDevice));
    assert_eq!(find_disk_device("/dev/nvme0n1"), Err(EfiError::UnknownDiskDevice));
    assert_eq!(find_disk_device("/dev/mmcblk0p1"), Err(EfiError::UnknownDiskDevice));
    assert_eq!(find_disk_device("/dev/SDA1"), Err(EfiError::UnknownDiskDevice));
}

#[test]
fn find_disk_device_needs_a_file_name() {
    assert_eq!(find_disk_device("/"), Err(EfiError::InvalidPartitionPath));
    assert_eq!(find_disk_device(""), Err(EfiError::InvalidPartitionPath));
}

#[test]
fn extract_partition_number_strips_disk_and_separator() {
    assert_eq!(extract_partition_number("/dev/sda1", "/dev/sda"), "1");
    assert_eq!(extract_partition_number("/dev/nvme0n1p1", "/dev/nvme0n1"), "1");
    assert_eq!(extract_partition_number("/dev/sda12", "/dev/sda"), "12");
    assert_eq!(extract_partition_number("/dev/sda1", ""), "/dev/sda1");
    assert_eq!(extract_partition_number("ababpp7", "ab"), "7");
    assert_eq!(extract_partition_number("/dev/disk/by-uuid/1234", "/dev/sda"), "/dev/disk/by-uuid/1234");
    for (partition, disk) in [
        ("/dev/sda1", "/dev/sda"),
        ("/dev/nvme0n1p1", "/dev/nvme0n1"),
        ("aaa", "a"),
        ("aaa", "aa"),
        ("ppp", ""),
        ("xp1", "x"),
        ("", "x"),
    ] {
        let expected = partition.trim_start_matches(disk).trim_start_matches('p');
        assert_eq!(extract_partition_number(partition, disk), expected, "{:?} {:?}", partition, disk);
    }
}

#[test]
fn reconcile_keeps_identifier_and_boot_order() {
    let plan = reconcile(
        Some("0001".to_string()),
        "0003,0001,0002",
        "/dev/sda",
        "1",
        "\\efi\\refind\\BOOTX64.EFI",
    );
    assert_eq!(
        plan,
        vec![
            FirmwareCommand::Delete { id: "0001".to_string() },
            FirmwareCommand::Create {
                id: Some("0001".to_string()),
                boot_order: Some("0003,0001,0002".to_string()),
                disk: "/dev/sda".to_string(),
                partition: "1".to_string(),
                loader: "\\efi\\refind\\BOOTX64.EFI".to_string(),
                label: "rEFInd".to_string(),
            },
        ]
    );
    assert_eq!(plan[0].args(), strings(&["-b", "0001", "-B"]));
    assert_eq!(
        plan[1].args(),
        strings(&[
            "-c",
            "-b",
            "0001",
            "-d",
            "/dev/sda",
            "-p",
            "1",
            "-l",
            "\\efi\\refind\\BOOTX64.EFI",
            "-L",
            "rEFInd",
            "-o",
            "0003,0001,0002",
        ])
    );
}

#[test]
fn reconcile_creates_a_fresh_entry_where_there_is_none() {
    let plan = reconcile(None, "0003,0002", "/dev/nvme0n1", "3", "\\efi\\refind\\BOOTAA64.EFI");
    assert_eq!(
        plan,
        vec![FirmwareCommand::Create {
            id: None,
            boot_order: None,
            disk: "/dev/nvme0n1".to_string(),
            partition: "3".to_string(),
            loader: "\\efi\\refind\\BOOTAA64.EFI".to_string(),
            label: "rEFInd".to_string(),
        }]
    );
    assert_eq!(
        plan[0].args(),
        strings(&[
            "-c",
            "-d",
            "/dev/nvme0n1",
            "-p",
            "3",
            "-l",
            "\\efi\\refind\\BOOTAA64.EFI",
            "-L",
            "rEFInd",
        ])
    );
}

#[test]
fn setup_efi_boot_entry_updates_the_existing_entry() {
    let plan = setup_efi_boot_entry(
        &config("x86_64-linux"),
        &listing(true, LISTING),
        "/dev/sda1",
    )
    .unwrap();
    assert_eq!(
        plan,
        reconcile(
            Some("0001".to_string()),
            "0003,0001,0002",
            "/dev/sda",
            "1",
            "\\efi\\refind\\BOOTX64.EFI"
        )
    );
    assert_eq!(plan.len(), 2);
}

#[test]
fn setup_efi_boot_entry_creates_an_entry_on_a_namespace_device() {
    let plan = setup_efi_boot_entry(
        &config("aarch64-linux"),
        &listing(true, LISTING_WITHOUT_ENTRY),
        "/dev/nvme0n1p3",
    )
    .unwrap();
    assert_eq!(
        plan,
        reconcile(None, "", "/dev/nvme0n1", "3", "\\efi\\refind\\BOOTAA64.EFI")
    );
}

#[test]
fn setup_efi_boot_entry_reports_a_failed_listing() {
    assert_eq!(
        setup_efi_boot_entry(&config("x86_64-linux"), &listing(false, LISTING), "/dev/sda1"),
        Err(EfiError::FirmwareTool)
    );
}

#[test]
fn setup_efi_boot_entry_reports_an_unsupported_architecture() {
    assert_eq!(
        setup_efi_boot_entry(&config("mips-linux"), &listing(true, LISTING), "/dev/sda1"),
        Err(EfiError::UnsupportedArchitecture)
    );
}

#[test]
fn setup_efi_boot_entry_reports_an_unknown_disk_before_the_architecture() {
    assert_eq!(
        setup_efi_boot_entry(&config("mips-linux"), &listing(true, LISTING), "/dev/mapper"),
        Err(EfiError::UnknownDiskDevice)
    );
    assert_eq!(
        setup_efi_boot_entry(&config("x86_64-linux"), &listing(true, LISTING), "/"),
        Err(EfiError::InvalidPartitionPath)
    );
}
