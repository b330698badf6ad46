use athanor_app::legacy_factory::{install_once, require_installed, FactorySlot};

#[test]
fn second_legacy_factory_install_is_an_explicit_error() {
    let mut slot = FactorySlot::new();
    install_once(&mut slot, 1_u8, "test").unwrap();
    let error = install_once(&mut slot, 2_u8, "test").unwrap_err();
    assert_eq!(error.factory(), "test");
    assert!(error.to_string().contains("already installed"));
    assert!(error.to_string().contains("RuntimeComposition"));
}

#[test]
fn missing_legacy_factory_is_an_explicit_error() {
    let slot = FactorySlot::<u8>::new();
    let error = require_installed(&slot, "test").unwrap_err();
    assert_eq!(error.factory(), "test");
    assert!(error.to_string().contains("not installed"));
    assert!(error.to_string().contains("RuntimeComposition"));
}

#[test]
fn installed_factory_is_returned_by_require() {
    let mut slot = FactorySlot::new();
    install_once(&mut slot, 7_u8, "runtime").unwrap();
    assert_eq!(require_installed(&slot, "runtime"), Ok(&7));
}
