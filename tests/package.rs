use wasm_bridge::package::{has_suffix, BridgeError, Package};

fn file(name: &str, bytes: &[u8]) -> (String, Vec<u8>) {
    (name.to_string(), bytes.to_vec())
}

#[test]
fn package_with_cores_and_script_loads() {
    let files = vec![
        file("a.core.wasm", &[0, 97, 115, 109]),
        file("b.core.wasm", &[1, 2, 3]),
        file("c.core2.wasm", &[]),
        file("component/sync_component.js", b"(function (c, i, n) { return {}; })"),
        file("README.md", b"ignored"),
    ];
    let p = Package::from_files(files).unwrap();
    assert_eq!(p.cores.len(), 3);
    assert_eq!(p.script, "(function (c, i, n) { return {}; })");
    assert_eq!(p.core_module(&"a.core.wasm".to_string()).unwrap(), &vec![0u8, 97, 115, 109]);
    assert_eq!(p.core_module(&"b.core.wasm".to_string()).unwrap(), &vec![1u8, 2, 3]);
    assert_eq!(p.core_module(&"c.core2.wasm".to_string()).unwrap(), &Vec::<u8>::new());
}

#[test]
fn package_with_only_script_has_no_cores() {
    let p = Package::from_files(vec![file("sync_component.js", b"x")]).unwrap();
    assert_eq!(p.cores.len(), 0);
    assert_eq!(p.script, "x");
}

#[test]
fn missing_script_is_reported() {
    let files = vec![file("a.core.wasm", &[1]), file("component.js", b"x")];
    assert_eq!(Package::from_files(files).err(), Some(BridgeError::MissingInstantiationScript));
    assert_eq!(Package::from_files(vec![]).err(), Some(BridgeError::MissingInstantiationScript));
}

#[test]
fn non_text_script_is_reported() {
    let files = vec![file("a.core.wasm", &[1]), file("sync_component.js", &[0xff, 0xfe, 0x41])];
    assert_eq!(Package::from_files(files).err(), Some(BridgeError::InvalidEncoding));
}

#[test]
fn invalid_script_wins_over_missing_one() {
    let files = vec![file("sync_component.js", &[0xc3]), file("sync_component.js", b"ok")];
    assert_eq!(Package::from_files(files).err(), Some(BridgeError::InvalidEncoding));
}

#[test]
fn last_script_is_kept() {
    let files = vec![file("first.sync_component.js", b"one"), file("second.sync_component.js", b"two")];
    assert_eq!(Package::from_files(files).unwrap().script, "two");
}

#[test]
fn non_ascii_script_is_decoded() {
    let p = Package::from_files(vec![file("sync_component.js", "é→".as_bytes())]).unwrap();
    assert_eq!(p.script, "é→");
}

#[test]
fn later_core_file_replaces_earlier_one() {
    let files = vec![
        file("a.wasm", &[1]),
        file("a.wasm", &[2]),
        file("sync_component.js", b""),
    ];
    let p = Package::from_files(files).unwrap();
    assert_eq!(p.cores.len(), 1);
    assert_eq!(p.core_module(&"a.wasm".to_string()).unwrap(), &vec![2u8]);
}

#[test]
fn unknown_core_module_is_an_error() {
    let files = vec![file("a.core.wasm", &[1]), file("sync_component.js", b"s")];
    let p = Package::from_files(files).unwrap();
    assert_eq!(
        p.core_module(&"b.core.wasm".to_string()),
        Err(BridgeError::UnknownCoreModule("b.core.wasm".to_string()))
    );
    assert_eq!(
        p.core_module(&"a.core".to_string()),
        Err(BridgeError::UnknownCoreModule("a.core".to_string()))
    );
}

#[test]
fn suffix_test() {
    assert!(has_suffix("a.core.wasm", ".wasm"));
    assert!(has_suffix(".wasm", ".wasm"));
    assert!(!has_suffix("wasm", ".wasm"));
    assert!(!has_suffix("a.wasm.js", ".wasm"));
    assert!(has_suffix("x", ""));
    assert!(has_suffix("é.wasm", ".wasm"));
}


#[test]
fn unrelated_files_change_nothing() {
    let plain = vec![file("a.core.wasm", &[1]), file("sync_component.js", b"s")];
    let mixed = vec![
        file("notes.txt", &[0xff]),
        file("a.core.wasm", &[1]),
        file("wasm", &[2]),
        file("component.js", &[0xfe]),
        file("sync_component.js", b"s"),
        file("a.core.wasm.map", &[3]),
    ];
    let p = Package::from_files(plain).unwrap();
    let q = Package::from_files(mixed).unwrap();
    assert_eq!(q.cores.len(), p.cores.len());
    assert_eq!(q.core_module(&"a.core.wasm".to_string()), p.core_module(&"a.core.wasm".to_string()));
    assert_eq!(q.script, p.script);
}
