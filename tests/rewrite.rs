use wasm_bridge::rewrite::{
    apply_rules, bindgen_js, bindgen_sys, binding_rule_table, component_type, flags, lift, lower,
    replace_namespace,
};

#[test]
fn namespace_is_swapped() {
    let src = "use wasmtime::component::Linker; wasmtime_environ::x::y; my_wasmtime";
    let expected = "use wasm_bridge::component::Linker; wasm_bridge::x::y; my_wasmtime";
    assert_eq!(bindgen_sys(src).unwrap(), expected);
    assert_eq!(lift(src).unwrap(), expected);
    assert_eq!(lower(src).unwrap(), expected);
    assert_eq!(component_type(src).unwrap(), expected);
    assert_eq!(flags(src).unwrap(), expected);
}

#[test]
fn namespace_is_a_parameter() {
    assert_eq!(replace_namespace("wasmtime::Store", "other").unwrap(), "other::Store");
    assert_eq!(replace_namespace("no match here", "other").unwrap(), "no match here");
}

#[test]
fn typed_function_is_cloned() {
    let src = "let f = *__exports.typed_func::<(u32,), (u32,)>(\"add\")?.func();";
    let expected = "let f = __exports.typed_func::<(u32,), (u32,)>(\"add\")?.func().clone();";
    assert_eq!(bindgen_js(src).unwrap(), expected);
}

#[test]
fn inner_handle_is_cloned() {
    assert_eq!(
        bindgen_js("Self::new_unchecked(self.add)").unwrap(),
        "Self::new_unchecked(self.add.clone())"
    );
}

#[test]
fn host_accessor_is_replaced() {
    assert_eq!(
        bindgen_js("let host = get(caller.data_mut()) ;").unwrap(),
        "let host = get(&mut caller);\n"
    );
}

#[test]
fn linker_bounds_are_static() {
    assert_eq!(
        bindgen_js("pub fn add_to_linker < T, U>(); pub fn add_root_to_linker<T>();").unwrap(),
        "pub fn add_to_linker<T: 'static, U>(); pub fn add_root_to_linker<T: 'static>();"
    );
}

#[test]
fn layout_derive_is_removed() {
    assert_eq!(
        bindgen_js("#[derive(wasmtime::component::ComponentType)]struct A;").unwrap(),
        "struct A;"
    );
    assert_eq!(
        bindgen_js("x const _ : () = { assert!(ComponentType) } ; y").unwrap(),
        "x  y"
    );
}

#[test]
fn marshalling_derives_are_replaced() {
    assert_eq!(
        bindgen_js("#[derive(wasmtime::component::Lift)]").unwrap(),
        "#[derive(wasm_bridge::component::FromJsValue)]"
    );
    assert_eq!(
        bindgen_js("#[derive(wasmtime::component::Lower)]").unwrap(),
        "#[derive(wasm_bridge::component::ToJsValue)]"
    );
}

#[test]
fn unmatched_source_passes_through() {
    let src = "fn main() { println!(\"hi\"); }";
    assert_eq!(bindgen_js(src).unwrap(), src);
}

#[test]
fn retargeting_twice_equals_once() {
    let src = "use wasmtime::component::Func;\n\
               #[derive(wasmtime::component::Lift)]\n\
               #[derive(wasmtime::component::Lower)]\n\
               #[derive(wasmtime::component::ComponentType)]\n\
               struct P { x: u32 }\n\
               let f = *__exports.typed_func::<(), ()>(\"f\")?.func();\n\
               let host = get(caller.data_mut());";
    let once = bindgen_js(src).unwrap();
    let twice = bindgen_js(&once).unwrap();
    assert_eq!(once, twice);
}

#[test]
fn clone_and_bound_rules_leave_their_output_alone() {
    let once = bindgen_js("new_unchecked(self.f) add_to_linker<T>; add_root_to_linker < T, U>").unwrap();
    assert_eq!(
        once,
        "new_unchecked(self.f.clone()) add_to_linker<T: 'static>; add_root_to_linker<T: 'static, U>"
    );
    let twice = bindgen_js(&once).unwrap();
    assert_eq!(twice, once);
}

#[test]
fn every_rule_leaves_retargeted_code_alone() {
    let src = "use wasmtime::component::Func; wasmtime_environ::x::y;\n\
               let f = *__exports.typed_func::<(), ()>(\"f\")?.func();\n\
               Self::new_unchecked(self.inner)\n\
               let host = get(caller.data_mut());\n\
               pub fn add_to_linker<T, U>() {}\n\
               pub fn add_root_to_linker<T>() {}\n\
               #[derive(wasmtime::component::ComponentType)]\n\
               struct A;\n\
               #[derive(wasmtime::component::Lift)]\n\
               struct B;\n\
               #[derive(wasmtime::component::Lower)]\n\
               struct C;";
    let once = bindgen_js(src).unwrap();
    assert!(once.contains("new_unchecked(self.inner.clone())"));
    assert!(once.contains("add_to_linker<T: 'static, U>"));
    assert!(once.contains("add_root_to_linker<T: 'static>"));
    assert!(once.contains("__exports.typed_func::<(), ()>(\"f\")?.func().clone()"));
    assert!(!once.contains("wasmtime"));
    let twice = bindgen_js(&once).unwrap();
    assert_eq!(twice, once);
}

#[test]
fn namespace_swap_spares_other_names() {
    let src = "let wasmtime_x = Foo::new(); my_wasmtime::a; wasmtime :: Store";
    assert_eq!(
        replace_namespace(src, "wasm_bridge").unwrap(),
        "let wasmtime_x = Foo::new(); my_wasmtime::a; wasm_bridge:: Store"
    );
}

#[test]
fn invalid_pattern_is_reported() {
    let rules = vec![("ab", "x"), ("(", "y")];
    assert_eq!(apply_rules(&rules, "abc"), None);
    let rules = vec![("ab", "x"), ("x(c)", "$1$1")];
    assert_eq!(apply_rules(&rules, "abc").unwrap(), "cc");
}

#[test]
fn rule_table_has_every_rule() {
    assert_eq!(binding_rule_table().len(), 9);
}
