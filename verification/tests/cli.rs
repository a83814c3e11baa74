use soroban_forge::cli::{
    has_core_library, new_target_dir, target_libdir_args, wasm_target, render_template, select_wasm_artifacts, ArtifactError,
    cargo_build_args, cargo_lint_args, cargo_test_args, kib_parts, oversized_names,
    stellar_deploy_args, to_kebab_case, to_snake_case, validate_contract_name, validate_url,
    wasm_stem, within_size_budget, BuildArgs, DeployArgs, LintArgs, NameError, TestArgs,
    UrlError, WasmArtifact, SIZE_BUDGET_BYTES,
};

#[test]
fn size_budget_accepts_exact_limit_and_rejects_over_limit() {
    assert!(within_size_budget(SIZE_BUDGET_BYTES));
    assert!(within_size_budget(SIZE_BUDGET_BYTES - 1));
    assert!(!within_size_budget(SIZE_BUDGET_BYTES + 1));
}

#[test]
fn test_contract_name_validation() {
    assert!(validate_contract_name("my-contract").is_ok());
    assert!(validate_contract_name("my_contract_1").is_ok());
    assert!(validate_contract_name("token").is_ok());

    assert!(validate_contract_name("").is_err());
    assert!(validate_contract_name("  ").is_err());
    assert!(validate_contract_name("my contract").is_err());
    assert!(validate_contract_name("contract!").is_err());
    assert!(validate_contract_name("contract@name").is_err());
}

#[test]
fn test_case_conversions() {
    assert_eq!(to_kebab_case("My_Contract"), "my-contract");
    assert_eq!(to_snake_case("my-contract"), "my_contract");
}

#[test]
fn contract_name_errors_are_distinguished() {
    assert_eq!(validate_contract_name(""), Err(NameError::Empty));
    assert_eq!(validate_contract_name(" \t\n"), Err(NameError::Empty));
    assert_eq!(validate_contract_name("a b"), Err(NameError::InvalidCharacters));
    assert_eq!(validate_contract_name("héllo"), Ok(()));
    assert_eq!(validate_contract_name("ünïcode-ok_2"), Ok(()));
}

#[test]
fn case_conversion_of_unicode_and_mixed_separators() {
    assert_eq!(to_kebab_case("ÄB_c-d"), "äb-c-d");
    assert_eq!(to_snake_case("A-b_C"), "a_b_c");
    assert_eq!(to_kebab_case(""), "");
}

#[test]
fn url_validation_requires_http_scheme() {
    assert_eq!(validate_url("http://localhost:8000"), Ok(()));
    assert_eq!(validate_url("https://soroban-testnet.stellar.org"), Ok(()));
    assert_eq!(validate_url("ftp://example.com"), Err(UrlError::MissingScheme));
    assert_eq!(validate_url("http:/x"), Err(UrlError::MissingScheme));
    assert_eq!(validate_url(""), Err(UrlError::MissingScheme));
}

#[test]
fn build_args_native_workspace() {
    let args = BuildArgs { package: None, release: true, all_targets: true, wasm: false, check_size: false };
    assert_eq!(cargo_build_args(&args), vec!["build", "--workspace", "--release", "--all-targets"]);
}

#[test]
fn build_args_check_size_implies_wasm_for_every_contract() {
    let args = BuildArgs { package: None, release: true, all_targets: false, wasm: false, check_size: true };
    let v = cargo_build_args(&args);
    assert_eq!(
        v,
        vec![
            "build",
            "--release",
            "--target",
            "wasm32v1-none",
            "--package",
            "soroban-forge-escrow",
            "--package",
            "soroban-forge-vesting",
            "--package",
            "soroban-forge-multi-sig-wallet",
            "--package",
            "soroban-forge-dao-governance",
            "--package",
            "soroban-forge-subscription-payments",
            "--package",
            "soroban-forge-marketplace-royalties",
        ]
    );
}

#[test]
fn build_args_single_package() {
    let args = BuildArgs {
        package: Some("soroban-forge-escrow".to_string()),
        release: false,
        all_targets: false,
        wasm: true,
        check_size: false,
    };
    assert_eq!(
        cargo_build_args(&args),
        vec!["build", "--release", "--target", "wasm32v1-none", "--package", "soroban-forge-escrow"]
    );
}

#[test]
fn lint_test_and_deploy_args() {
    assert_eq!(
        cargo_lint_args(&LintArgs { fix: true }),
        vec!["clippy", "--workspace", "--all-targets", "--fix", "--", "-D", "warnings"]
    );
    assert_eq!(
        cargo_lint_args(&LintArgs { fix: false }),
        vec!["clippy", "--workspace", "--all-targets", "--", "-D", "warnings"]
    );
    assert_eq!(cargo_test_args(&TestArgs { package: None }), vec!["test", "--workspace"]);
    assert_eq!(
        cargo_test_args(&TestArgs { package: Some("x".to_string()) }),
        vec!["test", "--package", "x"]
    );
    let d = DeployArgs {
        wasm: "escrow.wasm".to_string(),
        network: "testnet".to_string(),
        source: Some("alice".to_string()),
    };
    assert_eq!(
        stellar_deploy_args(&d),
        vec!["contract", "deploy", "--wasm", "escrow.wasm", "--source-account", "alice", "--network", "testnet"]
    );
}

#[test]
fn wasm_stem_and_size_helpers() {
    assert_eq!(wasm_stem("soroban-forge-escrow"), "soroban_forge_escrow");
    assert_eq!(kib_parts(1536), (1, 50));
    assert_eq!(kib_parts(150_000), (146, 48));
    let artifacts = vec![
        WasmArtifact { name: "a.wasm".to_string(), size_bytes: 150_000 },
        WasmArtifact { name: "b.wasm".to_string(), size_bytes: 150_001 },
        WasmArtifact { name: "c.wasm".to_string(), size_bytes: 999_999 },
    ];
    assert_eq!(oversized_names(&artifacts), vec!["b.wasm", "c.wasm"]);
}

fn entry(name: &str, size_bytes: u64) -> WasmArtifact {
    WasmArtifact { name: name.to_string(), size_bytes }
}

fn names(v: &[WasmArtifact]) -> Vec<&str> {
    v.iter().map(|a| a.name.as_str()).collect()
}

#[test]
fn wasm_artifacts_are_filtered_and_sorted_by_name() {
    let entries = vec![
        entry("b.wasm", 2),
        entry("soroban_forge_escrow.wasm", 9),
        entry("readme.md", 5),
        entry(".wasm", 3),
        entry("a.wasm", 1),
        entry("x.wasm.bak", 1),
        entry("B.wasm", 4),
    ];
    let all = select_wasm_artifacts(entries.clone(), None).unwrap();
    assert_eq!(names(&all), vec!["B.wasm", "a.wasm", "b.wasm", "soroban_forge_escrow.wasm"]);
    assert_eq!(all[1].size_bytes, 1);
    let one = select_wasm_artifacts(entries.clone(), Some("soroban-forge-escrow")).unwrap();
    assert_eq!(names(&one), vec!["soroban_forge_escrow.wasm"]);
    assert_eq!(one[0].size_bytes, 9);
    assert_eq!(
        select_wasm_artifacts(entries, Some("soroban-forge-vesting")).err(),
        Some(ArtifactError::NoneFound)
    );
    assert_eq!(select_wasm_artifacts(vec![], None).err(), Some(ArtifactError::NoneFound));
}

#[test]
fn core_library_detection() {
    assert!(has_core_library(&vec!["libstd-1.rlib".to_string(), "libcore-abc.rlib".to_string()]));
    assert!(!has_core_library(&vec!["core".to_string(), "liballoc-2.rlib".to_string()]));
    assert!(!has_core_library(&vec![]));
}

#[test]
fn new_contract_target_directory() {
    assert_eq!(new_target_dir("my-contract", None, true), "crates/my-contract");
    assert_eq!(new_target_dir("my-contract", None, false), "my-contract");
    assert_eq!(new_target_dir("my-contract", Some("out/dir".to_string()), true), "out/dir");
}

#[test]
fn templates_replace_every_placeholder() {
    assert_eq!(
        render_template("name = \"<CONTRACT_NAME>\"\n# <CONTRACT_NAME>", "my-c"),
        "name = \"my-c\"\n# my-c"
    );
    assert_eq!(render_template("<CONTRACT_NAME<CONTRACT_NAME>>", "x"), "<CONTRACT_NAMEx>");
    assert_eq!(render_template("no placeholder", "x"), "no placeholder");
    assert_eq!(render_template("", "x"), "");
}

#[test]
fn size_check_implies_a_wasm_build() {
    let base = BuildArgs { package: None, release: false, all_targets: false, wasm: false, check_size: false };
    assert!(!base.builds_wasm());
    assert!(BuildArgs { wasm: true, ..base.clone() }.builds_wasm());
    assert!(BuildArgs { check_size: true, ..base }.builds_wasm());
}

#[test]
fn wasm_target_and_libdir_query() {
    assert_eq!(wasm_target(), "wasm32v1-none");
    assert_eq!(target_libdir_args(), vec!["--print", "target-libdir", "--target", "wasm32v1-none"]);
}

#[test]
fn kebab_case_through_snake_case_is_kebab_case() {
    for name in ["My_Contract", "my-contract", "A_b-C_d", "x", "Token_V2-beta", ""] {
        let kebab = to_kebab_case(name);
        assert_eq!(to_kebab_case(&to_snake_case(name)), kebab);
        assert_eq!(kebab.len(), name.len());
        assert!(!kebab.contains('_'));
        assert!(!kebab.chars().any(|c| c.is_ascii_uppercase()));
        assert_eq!(kebab, name.replace('_', "-").to_ascii_lowercase());
    }
}
