//! Retargeting of generated binding source: an ordered list of
//! (pattern, template) rules, each replacing every match in the text.

use vstd::prelude::*;

verus! {

/// The pattern is a regular expression that the regex engine accepts.
pub uninterp spec fn pattern_compiles(pattern: Seq<char>) -> bool;

/// The text with every non-overlapping match of the pattern replaced by the
/// template, in which `$n` stands for the n-th capture group.
pub uninterp spec fn replaced_all(pattern: Seq<char>, text: Seq<char>, template: Seq<char>) -> Seq<char>;

/// Relies on regex::Regex::new, which fails exactly on patterns it does not
/// accept, and on Regex::replace_all, which replaces every match.
#[verifier::external_body]
fn regex_replace_all(pattern: &str, text: &str, template: &str) -> (r: Option<String>)
    ensures
        r is Some <==> pattern_compiles(pattern@),
        r matches Some(s) ==> s@ == replaced_all(pattern@, text@, template@),
{
    regex::Regex::new(pattern).ok().map(|re| re.replace_all(text, template).into_owned())
}

/// The rules as pairs of character sequences.
pub open spec fn rules_view(rules: Seq<(&str, &str)>) -> Seq<(Seq<char>, Seq<char>)> {
    rules.map_values(|r: (&str, &str)| (r.0@, r.1@))
}

/// The text after each rule in turn.
pub open spec fn rewritten(rules: Seq<(Seq<char>, Seq<char>)>, text: Seq<char>) -> Seq<char>
    decreases rules.len(),
{
    if rules.len() == 0 {
        text
    } else {
        replaced_all(rules.last().0, rewritten(rules.drop_last(), text), rules.last().1)
    }
}

/// Every pattern of the rules is accepted by the regex engine.
pub open spec fn all_compile(rules: Seq<(Seq<char>, Seq<char>)>) -> bool {
    forall|i: int| 0 <= i < rules.len() ==> pattern_compiles(#[trigger] rules[i].0)
}

/// Applies each rule in order to the whole text. Fails exactly when a
/// pattern is not a valid regular expression.
pub fn apply_rules(rules: &Vec<(&str, &str)>, text: &str) -> (r: Option<String>)
    ensures
        r is Some <==> all_compile(rules_view(rules@)),
        r matches Some(s) ==> s@ == rewritten(rules_view(rules@), text@),
{
    let ghost rv = rules_view(rules@);
    let mut cur = String::from_str(text);
    let mut i: usize = 0;
    while i < rules.len()
        invariant
            rv == rules_view(rules@),
            i <= rules@.len(),
            all_compile(rv.take(i as int)),
            cur@ == rewritten(rv.take(i as int), text@),
        decreases rules@.len() - i,
    {
        assert(rv.take(i + 1).drop_last() =~= rv.take(i as int));
        let (pattern, template) = rules[i];
        match regex_replace_all(pattern, cur.as_str(), template) {
            Some(next) => {
                cur = next;
            },
            None => {
                assert(!pattern_compiles(rv[i as int].0));
                return None;
            },
        }
        i = i + 1;
    }
    assert(rv.take(i as int) =~= rv);
    Some(cur)
}

/// The pattern that matches a path into the reference runtime's namespace.
pub open spec fn namespace_pattern() -> Seq<char> {
    "\\bwasmtime(_[A-Za-z0-9_]*)?\\s*::"@
}

/// Replaces every path into the reference runtime's namespace by the same
/// path into `namespace`.
pub fn replace_namespace(generated: &str, namespace: &str) -> (r: Option<String>)
    ensures
        r is Some <==> pattern_compiles(namespace_pattern()),
        r matches Some(s) ==> s@ == replaced_all(namespace_pattern(), generated@, namespace@ + "::"@),
{
    let template = String::from_str(namespace).concat("::");
    regex_replace_all("\\bwasmtime(_[A-Za-z0-9_]*)?\\s*::", generated, template.as_str())
}

/// The namespace that retargeted code refers to.
pub open spec fn bridge_namespace() -> Seq<char> {
    "wasm_bridge"@
}

/// Generated code with its reference namespace swapped for this bridge's.
pub open spec fn namespace_swapped(generated: Seq<char>) -> Seq<char> {
    replaced_all(namespace_pattern(), generated, bridge_namespace() + "::"@)
}

/// Retargets the output of the reference `Lift` derive.
pub fn lift(generated: &str) -> (r: Option<String>)
    ensures
        r is Some <==> pattern_compiles(namespace_pattern()),
        r matches Some(s) ==> s@ == namespace_swapped(generated@),
{
    replace_namespace(generated, "wasm_bridge")
}

/// Retargets the output of the reference `Lower` derive.
pub fn lower(generated: &str) -> (r: Option<String>)
    ensures
        r is Some <==> pattern_compiles(namespace_pattern()),
        r matches Some(s) ==> s@ == namespace_swapped(generated@),
{
    replace_namespace(generated, "wasm_bridge")
}

/// Retargets the output of the reference `ComponentType` derive.
pub fn component_type(generated: &str) -> (r: Option<String>)
    ensures
        r is Some <==> pattern_compiles(namespace_pattern()),
        r matches Some(s) ==> s@ == namespace_swapped(generated@),
{
    replace_namespace(generated, "wasm_bridge")
}

/// Retargets the output of the reference `flags!` macro.
pub fn flags(generated: &str) -> (r: Option<String>)
    ensures
        r is Some <==> pattern_compiles(namespace_pattern()),
        r matches Some(s) ==> s@ == namespace_swapped(generated@),
{
    replace_namespace(generated, "wasm_bridge")
}

/// Retargets reference bindings for a native host, where only the namespace
/// differs.
pub fn bindgen_sys(generated: &str) -> (r: Option<String>)
    ensures
        r is Some <==> pattern_compiles(namespace_pattern()),
        r matches Some(s) ==> s@ == namespace_swapped(generated@),
{
    replace_namespace(generated, "wasm_bridge")
}

/// The rules that retarget reference bindings to this bridge, after the
/// namespace swap.
pub open spec fn binding_rules() -> Seq<(Seq<char>, Seq<char>)> {
    seq![
        ("\\*\\s*__exports\\.typed_func([^?]*)\\?\\.func\\(\\)"@, "__exports.typed_func$1?.func().clone()"@),
        ("new_unchecked\\(self\\.([A-Za-z0-9_]+)\\)"@, "new_unchecked(self.$1.clone())"@),
        ("let host = get\\(caller\\.data_mut\\(\\)\\)\\s*;"@, "let host = get(&mut caller);\n"@),
        ("add_to_linker\\s*<\\s*T\\s*([,>])"@, "add_to_linker<T: 'static$1"@),
        ("add_root_to_linker\\s*<\\s*T\\s*([,>])"@, "add_root_to_linker<T: 'static$1"@),
        ("#\\[derive[^C]*ComponentType\\s*\\)\\s*\\]"@, ""@),
        ("const _ : \\(\\) =[^}]*ComponentType[^}]*\\}\\s*;"@, ""@),
        ("#\\[derive\\([^)]*Lift\\)\\]"@, "#[derive(wasm_bridge::component::FromJsValue)]"@),
        ("#\\[derive\\([^)]*Lower\\)\\]"@, "#[derive(wasm_bridge::component::ToJsValue)]"@),
    ]
}

/// The rules of `binding_rules`, in order.
pub fn binding_rule_table() -> (r: Vec<(&'static str, &'static str)>)
    ensures
        rules_view(r@) == binding_rules(),
{
    let mut r: Vec<(&'static str, &'static str)> = Vec::new();
    // Bridge function handles are duplicated by `clone`, not copied out of a reference.
    r.push(("\\*\\s*__exports\\.typed_func([^?]*)\\?\\.func\\(\\)", "__exports.typed_func$1?.func().clone()"));
    r.push(("new_unchecked\\(self\\.([A-Za-z0-9_]+)\\)", "new_unchecked(self.$1.clone())"));
    // Host state is fetched through the call context itself.
    r.push(("let host = get\\(caller\\.data_mut\\(\\)\\)\\s*;", "let host = get(&mut caller);\n"));
    // Linker registration takes only `'static` type parameters.
    r.push(("add_to_linker\\s*<\\s*T\\s*([,>])", "add_to_linker<T: 'static$1"));
    r.push(("add_root_to_linker\\s*<\\s*T\\s*([,>])", "add_root_to_linker<T: 'static$1"));
    // The memory-layout derive has no use here.
    r.push(("#\\[derive[^C]*ComponentType\\s*\\)\\s*\\]", ""));
    r.push(("const _ : \\(\\) =[^}]*ComponentType[^}]*\\}\\s*;", ""));
    // The marshalling derives become this bridge's own.
    r.push(("#\\[derive\\([^)]*Lift\\)\\]", "#[derive(wasm_bridge::component::FromJsValue)]"));
    r.push(("#\\[derive\\([^)]*Lower\\)\\]", "#[derive(wasm_bridge::component::ToJsValue)]"));
    assert(rules_view(r@) =~= binding_rules());
    r
}

/// Reference bindings retargeted to this bridge.
pub open spec fn retargeted(generated: Seq<char>) -> Seq<char> {
    rewritten(binding_rules(), namespace_swapped(generated))
}

/// Retargets bindings generated for the reference runtime to this bridge:
/// the namespace swap, then each rule of `binding_rules` over the whole text.
/// Text that no rule matches passes through unchanged.
pub fn bindgen_js(generated: &str) -> (r: Option<String>)
    ensures
        r is Some <==> pattern_compiles(namespace_pattern()) && all_compile(binding_rules()),
        r matches Some(s) ==> s@ == retargeted(generated@),
{
    match replace_namespace(generated, "wasm_bridge") {
        Some(swapped) => {
            let rules = binding_rule_table();
            apply_rules(&rules, swapped.as_str())
        },
        None => None,
    }
}

} // verus!
