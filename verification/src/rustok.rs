//! Stable keys of the RusTok architecture entities and the shape of a frontend surface.

use vstd::prelude::*;
use crate::snapshot::views;
use crate::text::{has_prefix, split_chars, split_on, starts_with_chars, str_eq, string_of_chars, to_chars};

verus! {

pub const RUSTOK_FFA_AUDIT_SCHEMA: &'static str = "athanor.rustok_ffa_audit.v1";
pub const RUSTOK_FFA_SURFACE_GRAPH_SCHEMA: &'static str = "athanor.rustok_ffa_surface_graph.v1";
pub const RUSTOK_FFA_VIOLATIONS_GRAPH_SCHEMA: &'static str = "athanor.rustok_ffa_violations_graph.v1";
pub const RUSTOK_FBA_AUDIT_SCHEMA: &'static str = "athanor.rustok_fba_audit.v1";
pub const RUSTOK_FBA_MODULE_GRAPH_SCHEMA: &'static str = "athanor.rustok_fba_module_graph.v1";
pub const RUSTOK_FBA_PORT_GRAPH_SCHEMA: &'static str = "athanor.rustok_fba_port_graph.v1";
pub const RUSTOK_FBA_DEPENDENCIES_GRAPH_SCHEMA: &'static str = "athanor.rustok_fba_dependencies_graph.v1";
pub const RUSTOK_FBA_VIOLATIONS_GRAPH_SCHEMA: &'static str = "athanor.rustok_fba_violations_graph.v1";
pub const RUSTOK_PAGE_BUILDER_AUDIT_SCHEMA: &'static str = "athanor.rustok_page_builder_audit.v1";
pub const RUSTOK_PAGE_BUILDER_PROVIDER_GRAPH_SCHEMA: &'static str = "athanor.rustok_page_builder_provider_graph.v1";
pub const RUSTOK_PAGE_BUILDER_CONSUMER_GRAPH_SCHEMA: &'static str = "athanor.rustok_page_builder_consumer_graph.v1";
pub const RUSTOK_PAGE_BUILDER_VIOLATIONS_GRAPH_SCHEMA: &'static str = "athanor.rustok_page_builder_violations_graph.v1";

/// Options of the FFA audit.
pub struct RustokFfaAuditOptions {
    pub root: String,
}

/// Options of the FBA audit.
pub struct RustokFbaAuditOptions {
    pub root: String,
}

/// Options of the page builder audit.
pub struct RustokPageBuilderAuditOptions {
    pub root: String,
}

/// Options of the graph of one FFA surface.
pub struct GraphFfaSurfaceOptions {
    pub root: String,
    pub module: String,
    pub surface: String,
    pub max_nodes: usize,
    pub max_edges: usize,
}

/// Options of the FFA violations graph.
pub struct GraphFfaViolationsOptions {
    pub root: String,
    pub module: Option<String>,
    pub surface: Option<String>,
    pub max_nodes: usize,
    pub max_edges: usize,
}

/// Options of the graph of one FBA module.
pub struct GraphFbaModuleOptions {
    pub root: String,
    pub module: String,
    pub max_nodes: usize,
    pub max_edges: usize,
}

/// Options of the graph of one FBA port.
pub struct GraphFbaPortOptions {
    pub root: String,
    pub module: String,
    pub port: String,
    pub max_nodes: usize,
    pub max_edges: usize,
}

/// Options of the graph of an FBA module's dependencies.
pub struct GraphFbaDependenciesOptions {
    pub root: String,
    pub module: String,
    pub max_nodes: usize,
    pub max_edges: usize,
}

/// Options of the FBA violations graph.
pub struct GraphFbaViolationsOptions {
    pub root: String,
    pub module: Option<String>,
    pub max_nodes: usize,
    pub max_edges: usize,
}

/// Options of the graph of one page builder consumer.
pub struct GraphPageBuilderConsumerOptions {
    pub root: String,
    pub module: String,
    pub max_nodes: usize,
    pub max_edges: usize,
}

/// Options of the page builder provider graph.
pub struct GraphPageBuilderProviderOptions {
    pub root: String,
    pub max_nodes: usize,
    pub max_edges: usize,
}

/// Options of the page builder violations graph.
pub struct GraphPageBuilderViolationsOptions {
    pub root: String,
    pub module: Option<String>,
    pub max_nodes: usize,
    pub max_edges: usize,
}

/// `s` without `prefix`, where it starts with it.
pub open spec fn strip_prefix(s: Seq<char>, prefix: Seq<char>) -> Option<Seq<char>> {
    if has_prefix(s, prefix) {
        Some(s.subrange(prefix.len() as int, s.len() as int))
    } else {
        None
    }
}

pub(crate) fn strip_prefix_chars(s: &str, prefix: &str) -> (r: Option<Vec<char>>)
    ensures
        match r {
            None => strip_prefix(s@, prefix@) is None,
            Some(v) => strip_prefix(s@, prefix@) == Some(v@),
        },
{
    let sc = to_chars(s);
    let pc = to_chars(prefix);
    if !starts_with_chars(sc.as_slice(), pc.as_slice()) {
        return None;
    }
    Some(crate::text::slice_chars(sc.as_slice(), pc.len(), sc.len()))
}

/// The `/`-separated pieces of the key's remainder after `prefix`, where there are
/// exactly `k` of them.
pub open spec fn key_parts(stable_key: Seq<char>, prefix: Seq<char>, k: nat) -> Option<Seq<Seq<char>>> {
    match strip_prefix(stable_key, prefix) {
        None => None,
        Some(rest) => if split_on(rest, '/').len() == k { Some(split_on(rest, '/')) } else { None },
    }
}

fn parts_exactly(stable_key: &str, prefix: &str, k: usize) -> (r: Option<Vec<String>>)
    ensures
        match r {
            None => key_parts(stable_key@, prefix@, k as nat) is None,
            Some(v) => key_parts(stable_key@, prefix@, k as nat) == Some(views(v@)),
        },
{
    let rest = match strip_prefix_chars(stable_key, prefix) {
        None => {
            return None;
        },
        Some(rest) => rest,
    };
    let pieces = split_chars(rest.as_slice(), '/');
    if pieces.len() != k {
        return None;
    }
    let mut out: Vec<String> = Vec::new();
    let mut i: usize = 0;
    while i < pieces.len()
        invariant
            i <= pieces@.len(),
            pieces@.len() == split_on(rest@, '/').len(),
            forall|j: int| 0 <= j < pieces@.len() ==> (#[trigger] pieces@[j])@ == split_on(rest@, '/')[j],
            out@.len() == i,
            forall|j: int| 0 <= j < i ==> (#[trigger] out@[j])@ == split_on(rest@, '/')[j],
        decreases pieces.len() - i,
    {
        out.push(string_of_chars(pieces[i].as_slice()));
        i = i + 1;
    }
    assert(views(out@) =~= split_on(rest@, '/'));
    Some(out)
}

/// The surface named by an `ffa_surface://module/surface` key.
pub open spec fn ffa_surface_parts(stable_key: Seq<char>) -> Option<Seq<Seq<char>>> {
    key_parts(stable_key, "ffa_surface://"@, 2)
}

/// The layer named by an `ffa_layer://module/surface/role` key.
pub open spec fn ffa_layer_parts(stable_key: Seq<char>) -> Option<Seq<Seq<char>>> {
    key_parts(stable_key, "ffa_layer://"@, 3)
}

/// The port named by an `fba_port://module/port` key.
pub open spec fn fba_port_parts(stable_key: Seq<char>) -> Option<Seq<Seq<char>>> {
    key_parts(stable_key, "fba_port://"@, 2)
}

/// The operation named by an `fba_operation://module/port/operation` key.
pub open spec fn fba_operation_parts(stable_key: Seq<char>) -> Option<Seq<Seq<char>>> {
    key_parts(stable_key, "fba_operation://"@, 3)
}

/// The dependency named by an `fba_dependency://consumer/provider/profile` key.
pub open spec fn fba_dependency_parts(stable_key: Seq<char>) -> Option<Seq<Seq<char>>> {
    key_parts(stable_key, "fba_dependency://"@, 3)
}

fn two(v: Vec<String>) -> (r: (String, String))
    requires
        v@.len() == 2,
    ensures
        r.0@ == v@[0]@,
        r.1@ == v@[1]@,
{
    let mut v = v;
    let second = v.pop();
    let first = v.pop();
    match (first, second) {
        (Some(a), Some(b)) => (a, b),
        _ => (String::new(), String::new()),
    }
}

fn three(v: Vec<String>) -> (r: (String, String, String))
    requires
        v@.len() == 3,
    ensures
        r.0@ == v@[0]@,
        r.1@ == v@[1]@,
        r.2@ == v@[2]@,
{
    let mut v = v;
    let third = v.pop();
    let second = v.pop();
    let first = v.pop();
    match (first, second, third) {
        (Some(a), Some(b), Some(c)) => (a, b, c),
        _ => (String::new(), String::new(), String::new()),
    }
}

/// The module and surface of an `ffa_surface://module/surface` key.
pub fn parse_ffa_surface_key(stable_key: &str) -> (r: Option<(String, String)>)
    ensures
        match r {
            None => ffa_surface_parts(stable_key@) is None,
            Some((m, s)) => ffa_surface_parts(stable_key@) == Some(seq![m@, s@]),
        },
{
    match parts_exactly(stable_key, "ffa_surface://", 2) {
        None => None,
        Some(v) => {
            let (a, b) = two(v);
            proof {
                assert(ffa_surface_parts(stable_key@)->0 =~= seq![a@, b@]);
            }
            Some((a, b))
        },
    }
}

/// The module, surface and role of an `ffa_layer://module/surface/role` key.
pub fn parse_ffa_layer_key(stable_key: &str) -> (r: Option<(String, String, String)>)
    ensures
        match r {
            None => ffa_layer_parts(stable_key@) is None,
            Some((m, s, l)) => ffa_layer_parts(stable_key@) == Some(seq![m@, s@, l@]),
        },
{
    match parts_exactly(stable_key, "ffa_layer://", 3) {
        None => None,
        Some(v) => {
            let (a, b, c) = three(v);
            proof {
                assert(ffa_layer_parts(stable_key@)->0 =~= seq![a@, b@, c@]);
            }
            Some((a, b, c))
        },
    }
}

/// The module and port of an `fba_port://module/port` key.
pub fn parse_fba_port_key(stable_key: &str) -> (r: Option<(String, String)>)
    ensures
        match r {
            None => fba_port_parts(stable_key@) is None,
            Some((m, p)) => fba_port_parts(stable_key@) == Some(seq![m@, p@]),
        },
{
    match parts_exactly(stable_key, "fba_port://", 2) {
        None => None,
        Some(v) => {
            let (a, b) = two(v);
            proof {
                assert(fba_port_parts(stable_key@)->0 =~= seq![a@, b@]);
            }
            Some((a, b))
        },
    }
}

/// The module, port and operation of an `fba_operation://module/port/operation` key.
pub fn parse_fba_operation_key(stable_key: &str) -> (r: Option<(String, String, String)>)
    ensures
        match r {
            None => fba_operation_parts(stable_key@) is None,
            Some((m, p, o)) => fba_operation_parts(stable_key@) == Some(seq![m@, p@, o@]),
        },
{
    match parts_exactly(stable_key, "fba_operation://", 3) {
        None => None,
        Some(v) => {
            let (a, b, c) = three(v);
            proof {
                assert(fba_operation_parts(stable_key@)->0 =~= seq![a@, b@, c@]);
            }
            Some((a, b, c))
        },
    }
}

/// The consumer, provider and profile of an `fba_dependency://consumer/provider/profile` key.
pub fn parse_fba_dependency_key(stable_key: &str) -> (r: Option<(String, String, String)>)
    ensures
        match r {
            None => fba_dependency_parts(stable_key@) is None,
            Some((c, p, f)) => fba_dependency_parts(stable_key@) == Some(seq![c@, p@, f@]),
        },
{
    match parts_exactly(stable_key, "fba_dependency://", 3) {
        None => None,
        Some(v) => {
            let (a, b, c) = three(v);
            proof {
                assert(fba_dependency_parts(stable_key@)->0 =~= seq![a@, b@, c@]);
            }
            Some((a, b, c))
        },
    }
}

/// The module of an `fba_module://module` key; a module name holds no `/`.
pub open spec fn fba_module_part(stable_key: Seq<char>) -> Option<Seq<char>> {
    match strip_prefix(stable_key, "fba_module://"@) {
        None => None,
        Some(rest) => if rest.contains('/') { None } else { Some(rest) },
    }
}

/// The module of an `fba_module://module` key.
pub fn parse_fba_module_key(stable_key: &str) -> (r: Option<String>)
    ensures
        opt_string_view(r) == fba_module_part(stable_key@),
{
    let rest = match strip_prefix_chars(stable_key, "fba_module://") {
        None => {
            return None;
        },
        Some(rest) => rest,
    };
    let mut i: usize = 0;
    while i < rest.len()
        invariant
            i <= rest@.len(),
            strip_prefix(stable_key@, "fba_module://"@) == Some(rest@),
            forall|j: int| 0 <= j < i ==> rest@[j] != '/',
        decreases rest.len() - i,
    {
        if rest[i] == '/' {
            assert(rest@[i as int] == '/');
            assert(rest@.contains('/'));
            assert(strip_prefix(stable_key@, "fba_module://"@) == Some(rest@));
            assert(fba_module_part(stable_key@) is None);
            return None;
        }
        i = i + 1;
    }
    Some(string_of_chars(rest.as_slice()))
}

/// The view of an optional string.
pub open spec fn opt_string_view(o: Option<String>) -> Option<Seq<char>> {
    match o {
        None => None,
        Some(s) => Some(s@),
    }
}

/// The first position of `c` in `s`.
pub open spec fn first_index_of(s: Seq<char>, c: char) -> Option<int> {
    if s.contains(c) {
        Some(choose|i: int| 0 <= i < s.len() && s[i] == c && forall|j: int| 0 <= j < i ==> s[j] != c)
    } else {
        None
    }
}

/// The module and contract of an `fba_contract://module/contract` key: the contract is
/// everything after the first `/`.
pub open spec fn fba_contract_parts(stable_key: Seq<char>) -> Option<(Seq<char>, Seq<char>)> {
    match strip_prefix(stable_key, "fba_contract://"@) {
        None => None,
        Some(rest) => match first_index_of(rest, '/') {
            None => None,
            Some(i) => Some((rest.take(i), rest.skip(i + 1))),
        },
    }
}

/// The module and contract of an `fba_contract://module/contract` key.
pub fn parse_fba_contract_key(stable_key: &str) -> (r: Option<(String, String)>)
    ensures
        match r {
            None => fba_contract_parts(stable_key@) is None,
            Some((m, c)) => fba_contract_parts(stable_key@) == Some((m@, c@)),
        },
{
    let rest = match strip_prefix_chars(stable_key, "fba_contract://") {
        None => {
            return None;
        },
        Some(rest) => rest,
    };
    let mut i: usize = 0;
    while i < rest.len()
        invariant
            i <= rest@.len(),
            strip_prefix(stable_key@, "fba_contract://"@) == Some(rest@),
            forall|j: int| 0 <= j < i ==> rest@[j] != '/',
        decreases rest.len() - i,
    {
        if rest[i] == '/' {
            let module = crate::text::slice_chars(rest.as_slice(), 0, i);
            let contract = crate::text::slice_chars(rest.as_slice(), i + 1, rest.len());
            proof {
                assert(rest@[i as int] == '/');
                assert(rest@.contains('/'));
                let w = choose|w: int| 0 <= w < rest@.len() && rest@[w] == '/' && forall|j: int| 0 <= j < w ==> rest@[j] != '/';
                assert(w == i as int) by {
                    if w < i {
                    } else if w > i {
                        assert(rest@[i as int] == '/');
                    }
                }
                assert(rest@.take(i as int) =~= rest@.subrange(0, i as int));
                assert(rest@.skip(i + 1) =~= rest@.subrange(i + 1, rest@.len() as int));
                assert(strip_prefix(stable_key@, "fba_contract://"@) == Some(rest@));
                assert(first_index_of(rest@, '/') == Some(i as int));
            }
            return Some((string_of_chars(module.as_slice()), string_of_chars(contract.as_slice())));
        }
        i = i + 1;
    }
    None
}

/// Whether `layers` holds `name`.
fn has_layer(layers: &[String], name: &str) -> (r: bool)
    ensures
        r == views(layers@).contains(name@),
{
    let mut i: usize = 0;
    while i < layers.len()
        invariant
            i <= layers@.len(),
            forall|j: int| 0 <= j < i ==> layers@[j]@ != name@,
        decreases layers.len() - i,
    {
        if str_eq(layers[i].as_str(), name) {
            assert(views(layers@)[i as int] == name@);
            return true;
        }
        i = i + 1;
    }
    assert forall|j: int| 0 <= j < views(layers@).len() implies views(layers@)[j] != name@ by {
        assert(views(layers@)[j] == layers@[j]@);
    }
    false
}

/// The shape of a frontend surface, from the roles of its layers.
pub open spec fn ffa_shape_of(layers: Seq<Seq<char>>) -> Seq<char> {
    let core = layers.contains("core"@);
    let transport = layers.contains("transport"@);
    let ui = layers.contains("ui_leptos"@);
    if layers.contains("host_wiring"@) {
        "host_wiring"@
    } else if !core && !transport && !ui
        && forall|i: int| 0 <= i < layers.len() ==> #[trigger] layers[i] == "crate_root"@ || layers[i] == "manifest"@ {
        "scaffold"@
    } else if core && transport && ui {
        "core_transport_ui"@
    } else if core && transport {
        "core_transport"@
    } else if core && ui {
        "core_ui"@
    } else if transport && ui {
        "transport_ui"@
    } else if core {
        "core_only"@
    } else if transport {
        "transport_only"@
    } else if ui {
        "ui_only"@
    } else {
        "none"@
    }
}

/// What a surface's shape says of its layers: host wiring decides first; otherwise each
/// named shape is given exactly when the core, transport and UI layers it names are
/// present and the others are not.
pub proof fn lemma_ffa_shape_layers(layers: Seq<Seq<char>>)
    ensures
        layers.contains("host_wiring"@) ==> ffa_shape_of(layers) == "host_wiring"@,
        (ffa_shape_of(layers) == "core_transport_ui"@) == (!layers.contains("host_wiring"@)
            && layers.contains("core"@) && layers.contains("transport"@) && layers.contains("ui_leptos"@)),
        (ffa_shape_of(layers) == "core_transport"@) == (!layers.contains("host_wiring"@)
            && layers.contains("core"@) && layers.contains("transport"@) && !layers.contains("ui_leptos"@)),
        (ffa_shape_of(layers) == "core_ui"@) == (!layers.contains("host_wiring"@)
            && layers.contains("core"@) && !layers.contains("transport"@) && layers.contains("ui_leptos"@)),
        (ffa_shape_of(layers) == "transport_ui"@) == (!layers.contains("host_wiring"@)
            && !layers.contains("core"@) && layers.contains("transport"@) && layers.contains("ui_leptos"@)),
        (ffa_shape_of(layers) == "core_only"@) == (!layers.contains("host_wiring"@)
            && layers.contains("core"@) && !layers.contains("transport"@) && !layers.contains("ui_leptos"@)),
        (ffa_shape_of(layers) == "transport_only"@) == (!layers.contains("host_wiring"@)
            && !layers.contains("core"@) && layers.contains("transport"@) && !layers.contains("ui_leptos"@)),
        (ffa_shape_of(layers) == "ui_only"@) == (!layers.contains("host_wiring"@)
            && !layers.contains("core"@) && !layers.contains("transport"@) && layers.contains("ui_leptos"@)),
{
    reveal_strlit("host_wiring");
    reveal_strlit("scaffold");
    reveal_strlit("core_transport_ui");
    reveal_strlit("core_transport");
    reveal_strlit("core_ui");
    reveal_strlit("transport_ui");
    reveal_strlit("core_only");
    reveal_strlit("transport_only");
    reveal_strlit("ui_only");
    reveal_strlit("none");
    assert("host_wiring"@.len() == 11);
    assert("scaffold"@.len() == 8);
    assert("core_transport_ui"@.len() == 17);
    assert("core_transport"@.len() == 14);
    assert("core_ui"@.len() == 7);
    assert("transport_ui"@.len() == 12);
    assert("core_only"@.len() == 9);
    assert("transport_only"@.len() == 14);
    assert("ui_only"@.len() == 7);
    assert("none"@.len() == 4);
    assert("core_transport"@[0] != "transport_only"@[0]);
    assert("core_ui"@[0] != "ui_only"@[0]);
}

/// Classifies a frontend surface by the roles of its layers.
pub fn ffa_shape(layers: &[String]) -> (r: String)
    ensures
        r@ == ffa_shape_of(views(layers@)),
{
    if has_layer(layers, "host_wiring") {
        return String::from_str("host_wiring");
    }
    let core = has_layer(layers, "core");
    let transport = has_layer(layers, "transport");
    let ui = has_layer(layers, "ui_leptos");
    if !core && !transport && !ui {
        let mut all_scaffold = true;
        let mut i: usize = 0;
        while i < layers.len()
            invariant
                i <= layers@.len(),
                all_scaffold == forall|j: int| 0 <= j < i ==> #[trigger] views(layers@)[j] == "crate_root"@ || views(layers@)[j] == "manifest"@,
            decreases layers.len() - i,
        {
            let ok = str_eq(layers[i].as_str(), "crate_root") || str_eq(layers[i].as_str(), "manifest");
            assert(views(layers@)[i as int] == layers@[i as int]@);
            all_scaffold = all_scaffold && ok;
            i = i + 1;
        }
        if all_scaffold {
            return String::from_str("scaffold");
        }
    }
    if core && transport && ui {
        String::from_str("core_transport_ui")
    } else if core && transport {
        String::from_str("core_transport")
    } else if core && ui {
        String::from_str("core_ui")
    } else if transport && ui {
        String::from_str("transport_ui")
    } else if core {
        String::from_str("core_only")
    } else if transport {
        String::from_str("transport_only")
    } else if ui {
        String::from_str("ui_only")
    } else {
        String::from_str("none")
    }
}

} // verus!
