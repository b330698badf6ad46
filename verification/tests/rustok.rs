use athanor_app::rustok::{
    ffa_shape, parse_fba_contract_key, parse_fba_dependency_key, parse_fba_module_key, parse_fba_operation_key,
    parse_fba_port_key, parse_ffa_layer_key, parse_ffa_surface_key,
};

#[test]
fn ffa_shape_separates_host_and_scaffold_entries() {
    assert_eq!(ffa_shape(&["host_wiring".to_string()]), "host_wiring");
    assert_eq!(ffa_shape(&["crate_root".to_string(), "manifest".to_string()]), "scaffold");
    assert_eq!(
        ffa_shape(&["core".to_string(), "transport".to_string(), "ui_leptos".to_string()]),
        "core_transport_ui"
    );
}

#[test]
fn ffa_shape_names_partial_surfaces() {
    assert_eq!(ffa_shape(&["core".to_string(), "ui_leptos".to_string()]), "core_ui");
    assert_eq!(ffa_shape(&["transport".to_string()]), "transport_only");
    assert_eq!(ffa_shape(&["crate_root".to_string(), "other".to_string()]), "none");
    assert_eq!(ffa_shape(&[]), "scaffold");
}

#[test]
fn parses_architecture_stable_keys() {
    assert_eq!(parse_ffa_surface_key("ffa_surface://blog/admin"), Some(("blog".to_string(), "admin".to_string())));
    assert_eq!(parse_ffa_surface_key("ffa_surface://blog/admin/core"), None);
    assert_eq!(parse_ffa_surface_key("ffa_layer://blog/admin"), None);
    assert_eq!(
        parse_ffa_layer_key("ffa_layer://blog/admin/core"),
        Some(("blog".to_string(), "admin".to_string(), "core".to_string()))
    );
    assert_eq!(parse_fba_module_key("fba_module://inventory"), Some("inventory".to_string()));
    assert_eq!(parse_fba_module_key("fba_module://inventory/x"), None);
    assert_eq!(
        parse_fba_contract_key("fba_contract://inventory/inventory.reservation.v1/extra"),
        Some(("inventory".to_string(), "inventory.reservation.v1/extra".to_string()))
    );
    assert_eq!(parse_fba_contract_key("fba_contract://inventory"), None);
    assert_eq!(
        parse_fba_port_key("fba_port://inventory/InventoryReservationPort"),
        Some(("inventory".to_string(), "InventoryReservationPort".to_string()))
    );
    assert_eq!(
        parse_fba_operation_key("fba_operation://inventory/InventoryReservationPort/reserve_inventory"),
        Some(("inventory".to_string(), "InventoryReservationPort".to_string(), "reserve_inventory".to_string()))
    );
    assert_eq!(
        parse_fba_dependency_key("fba_dependency://orders/inventory/default"),
        Some(("orders".to_string(), "inventory".to_string(), "default".to_string()))
    );
    assert_eq!(parse_fba_dependency_key("fba_dependency://orders/inventory"), None);
}
