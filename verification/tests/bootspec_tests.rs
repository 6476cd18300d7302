use refind_conf::bootspec::{descriptor_path, BootJson, BootSpec, BootSpecV1, DescriptorError};

fn base(label: &str) -> BootSpecV1 {
    BootSpecV1 {
        system: "x86_64-linux".to_string(),
        init: format!("/nix/store/{}-system/init", label),
        kernel: format!("/nix/store/{}-linux/bzImage", label),
        kernel_params: vec!["quiet".to_string(), format!("label={}", label)],
        label: label.to_string(),
        toplevel: format!("/nix/store/{}-system", label),
        initrd: Some(format!("/nix/store/{}-initrd/initrd", label)),
        initrd_secrets: None,
    }
}

fn leaf(label: &str) -> BootJson {
    BootJson { bootspec: base(label), specialisation: Vec::new() }
}

fn expected(label: &str, specialisations: Vec<(String, BootSpec)>) -> BootSpec {
    let b = base(label);
    BootSpec {
        system: b.system,
        init: b.init,
        kernel: b.kernel,
        kernel_params: b.kernel_params,
        label: b.label,
        toplevel: b.toplevel,
        initrd: b.initrd,
        initrd_secrets: b.initrd_secrets,
        specialisations,
    }
}

#[test]
fn from_boot_json_keeps_a_record_without_specialisations() {
    let spec = BootSpec::from_boot_json(leaf("plain")).unwrap();
    assert_eq!(spec, expected("plain", Vec::new()));
    assert_eq!(spec.kernel_params, vec!["quiet", "label=plain"]);
    assert_eq!(spec.initrd.as_deref(), Some("/nix/store/plain-initrd/initrd"));
    assert_eq!(spec.initrd_secrets, None);
}

#[test]
fn from_boot_json_recovers_every_specialisation_by_name() {
    let descriptor = BootJson {
        bootspec: base("top"),
        specialisation: vec![
            (
                "gaming".to_string(),
                BootJson {
                    bootspec: base("gaming"),
                    specialisation: vec![
                        ("debug".to_string(), leaf("gaming-debug")),
                        ("lowlatency".to_string(), leaf("gaming-lowlatency")),
                    ],
                },
            ),
            ("server".to_string(), leaf("server")),
        ],
    };
    let spec = BootSpec::from_boot_json(descriptor).unwrap();
    assert_eq!(
        spec,
        expected(
            "top",
            vec![
                (
                    "gaming".to_string(),
                    expected(
                        "gaming",
                        vec![
                            ("debug".to_string(), expected("gaming-debug", Vec::new())),
                            ("lowlatency".to_string(), expected("gaming-lowlatency", Vec::new())),
                        ],
                    ),
                ),
                ("server".to_string(), expected("server", Vec::new())),
            ],
        )
    );
    let names: Vec<&str> = spec.specialisations.iter().map(|(n, _)| n.as_str()).collect();
    assert_eq!(names, vec!["gaming", "server"]);
    let gaming = &spec.specialisations[0].1;
    assert_eq!(gaming.label, "gaming");
    let debug = gaming.specialisations.iter().find(|(n, _)| n == "debug").unwrap();
    assert_eq!(debug.1.kernel, "/nix/store/gaming-debug-linux/bzImage");
    assert_eq!(debug.1.kernel_params, vec!["quiet", "label=gaming-debug"]);
}

#[test]
fn from_boot_json_refuses_a_name_used_twice() {
    let descriptor = BootJson {
        bootspec: base("top"),
        specialisation: vec![
            ("a".to_string(), leaf("one")),
            ("b".to_string(), leaf("two")),
            ("a".to_string(), leaf("three")),
        ],
    };
    assert_eq!(
        BootSpec::from_boot_json(descriptor),
        Err(DescriptorError::DuplicateSpecialisation)
    );
}

#[test]
fn from_boot_json_refuses_a_name_used_twice_at_depth() {
    let descriptor = BootJson {
        bootspec: base("top"),
        specialisation: vec![(
            "outer".to_string(),
            BootJson {
                bootspec: base("outer"),
                specialisation: vec![
                    ("x".to_string(), leaf("one")),
                    ("x".to_string(), leaf("two")),
                ],
            },
        )],
    };
    assert_eq!(
        BootSpec::from_boot_json(descriptor),
        Err(DescriptorError::DuplicateSpecialisation)
    );
}

#[test]
fn from_boot_json_accepts_one_name_at_two_depths() {
    let descriptor = BootJson {
        bootspec: base("top"),
        specialisation: vec![(
            "same".to_string(),
            BootJson {
                bootspec: base("outer"),
                specialisation: vec![("same".to_string(), leaf("inner"))],
            },
        )],
    };
    let spec = BootSpec::from_boot_json(descriptor).unwrap();
    assert_eq!(spec.specialisations[0].1.specialisations[0].1.label, "inner");
}

#[test]
fn descriptor_path_names_the_file_in_the_generation() {
    assert_eq!(
        descriptor_path("/nix/var/nix/profiles/system-3-link"),
        "/nix/var/nix/profiles/system-3-link/boot.json"
    );
}
