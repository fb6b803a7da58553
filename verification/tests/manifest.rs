use manifold::error::CliError;
use manifold::manifest::{
    app_id_or, determine_app_id, sanitize_app_id, sanitize_or, validate_manifest_architecture,
    ManifestError,
};
use manifold::record::fresh_id;
use manifold::wasm_check::{
    check_wasm_size, inspect_wasm_imports, judge, warnings_of, Finding, MAX_WASM_SIZE_BYTES,
};

#[test]
fn names_are_cleaned() {
    assert_eq!(sanitize_app_id("My App"), "my_app");
    assert_eq!(sanitize_app_id("__-a:b-_"), "a_b");
    assert_eq!(sanitize_app_id("été"), "t");
    assert_eq!(sanitize_or("--", "fresh"), "fresh");
    assert_eq!(sanitize_or(&sanitize_or(" X_1 ", ""), ""), "x_1");
    let id = sanitize_app_id("");
    assert_eq!(id.len(), 36);
    assert_eq!(id.as_bytes()[14], b'4');
}

#[test]
fn fresh_identifiers_differ() {
    let (a, b) = (fresh_id(), fresh_id());
    assert_ne!(a, b);
    assert_eq!(uuid::Uuid::parse_str(&a).unwrap().get_version_num(), 4);
}

#[test]
fn applications_are_named() {
    assert_eq!(app_id_or(Some("[app]\nid = \"One\"\n"), Some("dir"), "f").unwrap(), "one");
    assert_eq!(app_id_or(Some("app_id = \"Two\"\n"), Some("dir"), "f").unwrap(), "two");
    assert_eq!(app_id_or(Some("[app]\nid = 3\n"), Some("dir"), "f").unwrap(), "dir");
    assert_eq!(app_id_or(Some("app = 1\n"), Some("Dir"), "f").unwrap(), "dir");
    assert_eq!(app_id_or(None, Some("..."), "f").unwrap(), "f");
    assert_eq!(app_id_or(None, None, "f").unwrap(), "f");
    match determine_app_id(Some("= 1"), Some("dir")) {
        Err(CliError::Validation(s)) => assert!(s.starts_with("failed to parse manifold.toml: ")),
        _ => unreachable!(),
    }
    assert_eq!(determine_app_id(None, Some("dir")).unwrap(), "dir");
    assert_eq!(determine_app_id(None, None).unwrap().len(), 36);
}

#[test]
fn manifests_say_where_parts_are() {
    let l = validate_manifest_architecture(
        "[frontend]\nassets_dir = \"web\"\n[backend]\nwasm_path = \"m.wasm\"\n",
    )
    .unwrap();
    assert_eq!(l.frontend_assets_dir, "web");
    assert_eq!(l.backend_wasm_path, "m.wasm");
    let l = validate_manifest_architecture("assets_dir = \"web\"\nwasm = \"m.wasm\"\n").unwrap();
    assert_eq!(l.frontend_assets_dir, "web");
    assert_eq!(l.backend_wasm_path, "m.wasm");
    assert!(matches!(
        validate_manifest_architecture("wasm = \"m\"\n"),
        Err(ManifestError::MissingFrontend)
    ));
    assert!(matches!(
        validate_manifest_architecture("assets_dir = \"m\"\n"),
        Err(ManifestError::MissingBackend)
    ));
    assert!(matches!(validate_manifest_architecture("["), Err(ManifestError::Parse(_))));
}

fn imports(list: &[(&str, &str)]) -> Vec<String> {
    let part = list.iter().map(|(m, n)| (m.to_string(), n.to_string())).collect();
    warnings_of(&vec![vec![], part])
}

#[test]
fn imports_are_warned_about() {
    assert!(imports(&[("env", "host_log"), ("env", "store_get")]).is_empty());
    assert_eq!(
        imports(&[("wasi_snapshot_preview1", "fd_write")]),
        vec!["Unauthorized WASI host import 'wasi_snapshot_preview1::fd_write'. Manifold v3.0 enforces a hardened sandbox boundary.".to_string()]
    );
    assert_eq!(
        imports(&[("env", "sock_connect")]),
        vec![
            "Forbidden host import 'env::sock_connect': Muted raw socket detected. Please route traffic through the AssetHost local loopback layer instead.".to_string(),
            "Unauthorized raw socket connect import detected. Please use AssetHost instead.".to_string(),
        ]
    );
    for name in [
        "sock_accept", "sock_send", "sock_recv", "open_file", "read_file", "write_file",
        "remove_file", "rename_file", "create_dir", "remove_dir", "spawn_process", "exec",
    ] {
        assert_eq!(imports(&[("env", name)]).len(), 1);
    }
}

#[test]
fn modules_are_inspected() {
    let module = wat::parse_str(
        r#"(module
            (import "env" "exec" (func))
            (import "wasi_x" "y" (func))
            (func (export "run")))"#,
    )
    .unwrap();
    let warnings = inspect_wasm_imports(&module).unwrap();
    assert_eq!(warnings.len(), 2);
    assert_eq!(
        warnings[0],
        "Forbidden host import 'env::exec': Process execution is restricted inside the sandbox."
    );
    assert!(inspect_wasm_imports(&wat::parse_str("(module)").unwrap()).unwrap().is_empty());
    assert!(matches!(inspect_wasm_imports(b"not wasm"), Err(CliError::Anyhow(_))));
    assert!(check_wasm_size(MAX_WASM_SIZE_BYTES).is_ok());
    assert!(check_wasm_size(MAX_WASM_SIZE_BYTES + 1).is_err());
    let large = vec![0u8; MAX_WASM_SIZE_BYTES as usize + 1];
    assert_eq!(
        inspect_wasm_imports(&large).unwrap_err().message(),
        "validation error: WASM module exceeds the 5MB static validation limit"
    );
}

#[test]
fn findings_are_judged() {
    let fail = |f: Finding| judge(&f).error.unwrap().message();
    assert_eq!(fail(Finding::NoManifest("d".into())), "validation error: manifest missing");
    assert_eq!(
        fail(Finding::BadManifest(ManifestError::MissingBackend)),
        "validation error: backend wasm declaration missing"
    );
    assert_eq!(
        fail(Finding::NoFrontend("d".into())),
        "validation error: frontend assets directory validation failed"
    );
    assert_eq!(
        fail(Finding::NoBackend("m".into())),
        "validation error: backend wasm path validation failed"
    );
    let advice = judge(&Finding::Inspected(vec!["w".to_string()]));
    assert_eq!(advice.lines, vec!["[WARN][Validator] w".to_string()]);
    assert!(advice.error.is_none());
    let clean = judge(&Finding::Inspected(vec![]));
    assert_eq!(
        clean.lines,
        vec!["[INFO][Validator] dApp architecture passes v3.0 enforcement specs. Ready for execution.".to_string()]
    );
    assert!(clean.error.is_none());
}
