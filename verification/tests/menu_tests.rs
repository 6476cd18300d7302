use refind_conf::config::ToolOutput;
use refind_conf::generation::CatalogError;
use refind_conf::menu::{
    build_config_text, default_target_candidates, describe_generation, describe_with_date,
    discover_default_target, efi_target_for_store, escape_quotes, find_generation_by_target,
    generate_config_string, generation_details, generation_lister_command, get_generations,
    indent, menu_entry, modules_dir, newest_generation, path_eq, profile_path, submenu_entry,
    system_dir, ConfigError, Gen, GenDetails, GenerationFacts,
};
use std::path::{Path, PathBuf};

fn strings(items: &[&str]) -> Vec<String> {
    items.iter().map(|s| s.to_string()).collect()
}

fn gen(profile: Option<&str>, number: u32) -> Gen {
    Gen { profile: profile.map(|p| p.to_string()), number }
}

fn details(number: u32, params: &str) -> GenDetails {
    GenDetails {
        profile: None,
        number,
        loader: format!("/efi/refind/kernels/k{}-bzImage", number),
        initrd: format!("/efi/refind/kernels/i{}-initrd", number),
        kernel_params: params.to_string(),
        description: format!("NixOS 24.05, Linux Kernel 6.{}, Built on 2024-01-0{}", number, number),
    }
}

fn facts(name: &str, changed: Option<i64>) -> GenerationFacts {
    GenerationFacts {
        gen_dir: format!("/nix/store/{}-system", name),
        resolved_dir: format!("/nix/store/{}-system", name),
        kernel: format!("/nix/store/{}-linux/bzImage", name),
        initrd: format!("/nix/store/{}-initrd/initrd", name),
        kernel_params: Some("quiet loglevel=4\n".to_string()),
        nixos_version: Some("24.05.1234\n".to_string()),
        kernel_version: Some("6.6.1".to_string()),
        changed,
    }
}

fn std_indent(s: &str, n: usize) -> String {
    let pad = " ".repeat(n);
    s.lines().map(|l| format!("{pad}{l}")).collect::<Vec<_>>().join("\n")
}

fn std_escape(s: &str) -> String {
    s.replace('"', "\"\"")
}

fn std_submenu_entry(d: &GenDetails) -> String {
    format!(
        "\nsubmenuentry \"Generation {} {}\" {{\n    loader {}\n    initrd {}\n    options \"{}\"\n}}\n",
        d.number,
        d.description,
        d.loader,
        d.initrd,
        std_escape(d.kernel_params.trim()),
    )
}

fn std_menu_entry(main: &GenDetails, submenu_entries: &str) -> String {
    format!(
        "\nmenuentry \"NixOS\" {{\n    loader {}\n    initrd {}\n    options \"{}\"\n{}}}\n",
        main.loader,
        main.initrd,
        std_escape(main.kernel_params.trim()),
        std_indent(submenu_entries.trim_end(), 4),
    )
}

fn std_config_text(timeout: Option<u32>, extra: Option<&str>, main: &GenDetails, submenu: &str) -> String {
    let mut out = String::new();
    if let Some(secs) = timeout {
        out.push_str(&format!("timeout {}\n", secs));
    }
    if let Some(s) = extra {
        out.push_str(s);
        if !out.ends_with('\n') {
            out.push('\n');
        }
    }
    out.push_str(&std_menu_entry(main, submenu));
    out
}

fn std_system_dir(profile: &Option<String>, number: u32) -> PathBuf {
    match profile {
        Some(p) => Path::new("/nix/var/nix/profiles")
            .join("system-profiles")
            .join(format!("{p}-{number}-link")),
        None => Path::new("/nix/var/nix/profiles").join(format!("system-{number}-link")),
    }
}

fn std_efi_target(store_file: &Path, efi_mount: &Path) -> (String, PathBuf) {
    let file_name = store_file.file_name().and_then(|n| n.to_str()).unwrap_or("image");
    let store_dir = store_file
        .parent()
        .and_then(|p| p.file_name())
        .and_then(|n| n.to_str())
        .unwrap_or("store");
    let rel = format!("/efi/refind/kernels/{}-{}", store_dir, file_name);
    let abs = efi_mount.join(rel.trim_start_matches('/'));
    (rel, abs)
}

#[test]
fn escape_quotes_doubles_every_quote() {
    assert_eq!(escape_quotes("root=\"LABEL=x\""), "root=\"\"LABEL=x\"\"");
    assert_eq!(escape_quotes("plain"), "plain");
    assert_eq!(escape_quotes(""), "");
    assert_eq!(escape_quotes("\"\""), "\"\"\"\"");
    for s in ["a\"b", "\"", "no quotes", "'single'", "\"a\" \"b\""] {
        assert_eq!(escape_quotes(s), std_escape(s), "{:?}", s);
    }
}

#[test]
fn indent_pads_every_line() {
    assert_eq!(indent("a\nb", 4), "    a\n    b");
    assert_eq!(indent("a\n\nb\n", 2), "  a\n  \n  b");
    assert_eq!(indent("", 4), "");
    assert_eq!(indent("x", 0), "x");
    for s in ["", "a", "a\n", "a\r\nb", "\n", "  a\n b\n\n", "}\n}"] {
        for n in [0, 1, 4] {
            assert_eq!(indent(s, n), std_indent(s, n), "{:?} {}", s, n);
        }
    }
}

#[test]
fn submenu_entry_writes_one_generation() {
    let d = details(3, " systemConfig=/x init=/x/init quiet \n");
    assert_eq!(
        submenu_entry(&d),
        "\nsubmenuentry \"Generation 3 NixOS 24.05, Linux Kernel 6.3, Built on 2024-01-03\" {\n    loader /efi/refind/kernels/k3-bzImage\n    initrd /efi/refind/kernels/i3-initrd\n    options \"systemConfig=/x init=/x/init quiet\"\n}\n"
    );
    let quoted = details(7, "a=\"b\"");
    assert_eq!(submenu_entry(&quoted), std_submenu_entry(&quoted));
    assert!(submenu_entry(&quoted).contains("options \"a=\"\"b\"\"\"\n"));
}

#[test]
fn menu_entry_holds_the_indented_submenu() {
    let main = details(3, "init=/x/init quiet ");
    let submenu = format!("{}\n{}\n", submenu_entry(&details(3, "three")), submenu_entry(&details(2, "two")));
    let text = menu_entry(&main, &submenu);
    assert_eq!(text, std_menu_entry(&main, &submenu));
    assert!(text.starts_with(
        "\nmenuentry \"NixOS\" {\n    loader /efi/refind/kernels/k3-bzImage\n    initrd /efi/refind/kernels/i3-initrd\n    options \"init=/x/init quiet\"\n    \n    submenuentry \"Generation 3 "
    ));
    assert!(text.ends_with("        options \"two\"\n    }}\n"));
    assert_eq!(
        menu_entry(&main, ""),
        "\nmenuentry \"NixOS\" {\n    loader /efi/refind/kernels/k3-bzImage\n    initrd /efi/refind/kernels/i3-initrd\n    options \"init=/x/init quiet\"\n}\n"
    );
}

#[test]
fn build_config_text_puts_timeout_and_extra_configuration_first() {
    let main = details(3, "quiet");
    let submenu = submenu_entry(&details(3, "quiet"));
    for timeout in [None, Some(0), Some(5)] {
        for extra in [None, Some(""), Some("scanfor manual"), Some("scanfor manual\n"), Some("a\n\n")] {
            assert_eq!(
                build_config_text(timeout, extra, &main, &submenu),
                std_config_text(timeout, extra, &main, &submenu),
                "{:?} {:?}",
                timeout,
                extra
            );
        }
    }
    assert!(build_config_text(Some(5), Some("scanfor manual"), &main, "")
        .starts_with("timeout 5\nscanfor manual\n\nmenuentry \"NixOS\" {\n"));
    assert!(build_config_text(None, Some(""), &main, "").starts_with("\n\nmenuentry"));
    assert!(build_config_text(Some(5), Some(""), &main, "").starts_with("timeout 5\n\nmenuentry"));
    assert!(build_config_text(None, None, &main, "").starts_with("\nmenuentry"));
}

#[test]
fn system_dir_names_the_link_of_a_generation() {
    assert_eq!(system_dir(&None, 7), "/nix/var/nix/profiles/system-7-link");
    assert_eq!(
        system_dir(&Some("work".to_string()), 12),
        "/nix/var/nix/profiles/system-profiles/work-12-link"
    );
    for profile in [None, Some("work"), Some("system"), Some(""), Some("/abs")] {
        for number in [0, 1, 42, u32::MAX] {
            let profile = profile.map(|p| p.to_string());
            assert_eq!(
                system_dir(&profile, number),
                std_system_dir(&profile, number).to_str().unwrap(),
                "{:?} {}",
                profile,
                number
            );
        }
    }
}

#[test]
fn profile_path_names_a_link_inside_the_generation() {
    assert_eq!(profile_path(&None, 7, "kernel"), "/nix/var/nix/profiles/system-7-link/kernel");
    assert_eq!(
        profile_path(&Some("work".to_string()), 2, "initrd"),
        "/nix/var/nix/profiles/system-profiles/work-2-link/initrd"
    );
}

#[test]
fn path_eq_compares_resolved_paths() {
    assert!(path_eq("/nix/store/a-system", "/nix/store/a-system"));
    assert!(!path_eq("/nix/store/a-system", "/nix/store/b-system"));
    assert!(!path_eq("/nix/store/a-system", "/nix/store/a-syste"));
}

#[test]
fn efi_target_for_store_names_the_image() {
    assert_eq!(
        efi_target_for_store("/nix/store/abc-linux-6.1/bzImage", "/boot"),
        (
            "/efi/refind/kernels/abc-linux-6.1-bzImage".to_string(),
            "/boot/efi/refind/kernels/abc-linux-6.1-bzImage".to_string()
        )
    );
    assert_eq!(
        efi_target_for_store("/", "/boot/"),
        ("/efi/refind/kernels/store-image".to_string(), "/boot/efi/refind/kernels/store-image".to_string())
    );
    assert_eq!(efi_target_for_store("bzImage", "/boot").0, "/efi/refind/kernels/store-bzImage");
    let (rel, abs) = efi_target_for_store("/nix/store/abc-linux/bzImage", "/boot");
    assert!(rel.ends_with("/kernels/abc-linux-bzImage"));
    assert_eq!(abs, format!("/boot{}", rel));
    assert_eq!(
        efi_target_for_store("/mnt/elsewhere/abc-linux/bzImage", "/boot"),
        (rel, abs)
    );
    for store_file in ["/nix/store/abc-linux-6.1/bzImage", "/a/b", "/a", "a/b/c", "/", "", "a", "/a/b/"] {
        for efi_mount in ["/boot", "/boot/", "", "/"] {
            let (rel, abs) = std_efi_target(Path::new(store_file), Path::new(efi_mount));
            assert_eq!(
                efi_target_for_store(store_file, efi_mount),
                (rel, abs.to_str().unwrap().to_string()),
                "{:?} {:?}",
                store_file,
                efi_mount
            );
        }
    }
}

#[test]
fn describe_with_date_fills_in_what_is_missing() {
    assert_eq!(
        describe_with_date(Some(" 24.05.1234 \n"), Some("6.6.1"), Some("2024-03-01")),
        "NixOS 24.05.1234, Linux Kernel 6.6.1, Built on 2024-03-01"
    );
    assert_eq!(
        describe_with_date(None, None, None),
        "NixOS Unknown, Linux Kernel unknown, Built on unknown-date"
    );
}

#[test]
fn describe_generation_writes_the_day_in_universal_time() {
    assert_eq!(
        describe_generation(Some("24.05\n"), Some("6.6.1"), 0),
        "NixOS 24.05, Linux Kernel 6.6.1, Built on 1970-01-01"
    );
    assert_eq!(
        describe_generation(Some("24.05"), None, 1_700_000_000),
        "NixOS 24.05, Linux Kernel unknown, Built on 2023-11-14"
    );
    assert_eq!(
        describe_generation(None, Some("6.1"), 86_399),
        "NixOS Unknown, Linux Kernel 6.1, Built on 1970-01-01"
    );
    assert_eq!(
        describe_generation(None, Some("6.1"), 86_400),
        "NixOS Unknown, Linux Kernel 6.1, Built on 1970-01-02"
    );
    assert_eq!(
        describe_generation(None, Some("6.1"), -1),
        "NixOS Unknown, Linux Kernel 6.1, Built on 1969-12-31"
    );
    assert_eq!(
        describe_generation(None, None, i64::MAX),
        "NixOS Unknown, Linux Kernel unknown, Built on unknown-date"
    );
}

#[test]
fn modules_dir_lies_beside_the_kernel() {
    assert_eq!(modules_dir("/nix/store/abc-linux/bzImage"), "/nix/store/abc-linux/lib/modules");
    assert_eq!(modules_dir("/"), "/lib/modules");
}

#[test]
fn generation_details_gathers_what_the_menu_shows() {
    let shown = generation_details(&gen(Some("work"), 4), "/boot", &facts("abc", Some(1_700_000_000)));
    assert_eq!(
        shown,
        GenDetails {
            profile: Some("work".to_string()),
            number: 4,
            loader: "/efi/refind/kernels/abc-linux-bzImage".to_string(),
            initrd: "/efi/refind/kernels/abc-initrd-initrd".to_string(),
            kernel_params:
                "systemConfig=/nix/store/abc-system init=/nix/store/abc-system/init quiet loglevel=4\n"
                    .to_string(),
            description: "NixOS 24.05.1234, Linux Kernel 6.6.1, Built on 2023-11-14".to_string(),
        }
    );
}

#[test]
fn generation_details_without_parameters_or_date() {
    let mut f = facts("abc", None);
    f.kernel_params = None;
    let shown = generation_details(&gen(None, 1), "/boot", &f);
    assert_eq!(
        shown.kernel_params,
        "systemConfig=/nix/store/abc-system init=/nix/store/abc-system/init "
    );
    assert_eq!(shown.description, "Unknown");
    assert_eq!(shown.profile, None);
}

#[test]
fn generation_lister_command_of_the_menu_names_the_profile() {
    assert_eq!(
        generation_lister_command(None),
        strings(&["sudo", "nix-env", "--list-generations", "-p", "/nix/var/nix/profiles/system"])
    );
    assert_eq!(
        generation_lister_command(Some("work")),
        strings(&[
            "sudo",
            "nix-env",
            "--list-generations",
            "-p",
            "/nix/var/nix/profiles/system-profiles/work",
        ])
    );
}

#[test]
fn get_generations_of_a_profile_reads_every_line() {
    let listing = ToolOutput {
        success: true,
        stdout: "   1   2024-01-01 10:00:00   \nbad line\n   2   2024-02-01 10:00:00   \n 4294967296 too large\n   3   2024-03-01 10:00:00   (current)\n".to_string(),
        stderr: String::new(),
    };
    assert_eq!(
        get_generations(Some("work"), &listing),
        Ok(vec![gen(Some("work"), 1), gen(Some("work"), 2), gen(Some("work"), 3)])
    );
    assert_eq!(get_generations(None, &listing).unwrap()[2], gen(None, 3));
    let failed = ToolOutput { success: false, stdout: String::new(), stderr: "no".to_string() };
    assert_eq!(get_generations(None, &failed), Err(CatalogError::ListerFailed));
}

#[test]
fn default_target_candidates_start_with_the_profile() {
    assert_eq!(
        default_target_candidates(),
        strings(&["/nix/var/nix/profiles/system", "/run/current-system"])
    );
}

#[test]
fn discover_default_target_takes_the_first_link_that_resolves() {
    let a = Some("/nix/store/a-system".to_string());
    let b = Some("/nix/store/b-system".to_string());
    assert_eq!(discover_default_target(&vec![a.clone(), b.clone()]), a);
    assert_eq!(discover_default_target(&vec![None, b.clone()]), b);
    assert_eq!(discover_default_target(&vec![None, None]), None);
    assert_eq!(discover_default_target(&Vec::new()), None);
}

#[test]
fn newest_generation_is_the_last_of_the_greatest() {
    assert_eq!(newest_generation(&vec![gen(None, 1), gen(None, 3), gen(None, 2)]), gen(None, 3));
    assert_eq!(
        newest_generation(&vec![gen(Some("a"), 5), gen(Some("b"), 5), gen(None, 4)]),
        gen(Some("b"), 5)
    );
    assert_eq!(newest_generation(&vec![gen(None, 0)]), gen(None, 0));
}

#[test]
fn find_generation_by_target_takes_the_first_match() {
    let gens = vec![
        (gen(None, 1), "/nix/store/a-system".to_string()),
        (gen(None, 2), "/nix/store/b-system".to_string()),
        (gen(Some("work"), 1), "/nix/store/b-system".to_string()),
    ];
    assert_eq!(find_generation_by_target(&gens, "/nix/store/b-system"), Some(gen(None, 2)));
    assert_eq!(find_generation_by_target(&gens, "/nix/store/a-system"), Some(gen(None, 1)));
    assert_eq!(find_generation_by_target(&gens, "/nix/store/c-system"), None);
    assert_eq!(find_generation_by_target(&Vec::new(), "/nix/store/a-system"), None);
}

fn found(numbers: &[u32]) -> Vec<(Gen, GenerationFacts)> {
    numbers
        .iter()
        .map(|n| (gen(None, *n), facts(&format!("g{}", n), Some(86_400 * (*n as i64)))))
        .collect()
}

fn expected_config(
    gens: &[(Gen, GenerationFacts)],
    order: &[usize],
    main: usize,
    timeout: Option<u32>,
    extra: Option<&str>,
) -> String {
    let mut submenu = String::new();
    for i in order {
        submenu.push_str(&std_submenu_entry(&generation_details(&gens[*i].0, "/boot", &gens[*i].1)));
        submenu.push('\n');
    }
    std_config_text(timeout, extra, &generation_details(&gens[main].0, "/boot", &gens[main].1), &submenu)
}

#[test]
fn generate_config_string_falls_back_to_the_newest_generation() {
    let gens = found(&[1, 2, 3]);
    let text = generate_config_string("/boot", Some(5), None, &gens, None).unwrap();
    assert_eq!(text, expected_config(&gens, &[2, 1, 0], 2, Some(5), None));
    assert!(text.starts_with(
        "timeout 5\n\nmenuentry \"NixOS\" {\n    loader /efi/refind/kernels/g3-linux-bzImage\n"
    ));
    let unknown = generate_config_string("/boot", Some(5), None, &gens, Some("/nix/store/other")).unwrap();
    assert_eq!(unknown, text);
}

#[test]
fn generate_config_string_boots_the_system_in_use() {
    let gens = found(&[1, 2, 3]);
    let text =
        generate_config_string("/boot", None, Some("scanfor manual"), &gens, Some("/nix/store/g2-system"))
            .unwrap();
    assert_eq!(text, expected_config(&gens, &[2, 1, 0], 1, None, Some("scanfor manual")));
    assert!(text.starts_with(
        "scanfor manual\n\nmenuentry \"NixOS\" {\n    loader /efi/refind/kernels/g2-linux-bzImage\n"
    ));
}

#[test]
fn generate_config_string_lists_generations_newest_first() {
    let mut gens = found(&[2, 7, 2, 9, 1]);
    gens[2].0.profile = Some("work".to_string());
    gens[2].1 = facts("work2", Some(0));
    let text = generate_config_string("/boot", None, None, &gens, None).unwrap();
    assert_eq!(text, expected_config(&gens, &[3, 1, 0, 2, 4], 3, None, None));
    let positions: Vec<usize> = ["Generation 9 ", "Generation 7 ", "g2-linux", "work2-linux", "Generation 1 "]
        .iter()
        .map(|needle| text[text.find("submenuentry").unwrap()..].find(needle).unwrap())
        .collect();
    let mut sorted = positions.clone();
    sorted.sort();
    assert_eq!(positions, sorted);
}

#[test]
fn generate_config_string_needs_a_generation() {
    assert_eq!(
        generate_config_string("/boot", Some(5), None, &Vec::new(), None),
        Err(ConfigError::NoGenerations)
    );
}
