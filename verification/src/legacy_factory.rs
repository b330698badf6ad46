//! One-time installation of legacy process-wide factories, with explicit errors for a second
//! installation and for a missing one.

use vstd::prelude::*;

verus! {

/// A legacy factory was installed twice.
#[derive(Debug, Clone, Copy, PartialEq, Eq)]
pub struct LegacyFactoryInstallError {
    factory: &'static str,
}

impl LegacyFactoryInstallError {
    /// The factory named in the error.
    pub closed spec fn factory_name(self) -> &'static str {
        self.factory
    }

    pub fn new(factory: &'static str) -> (r: Self)
        ensures
            r.factory_name() == factory,
    {
        Self { factory }
    }

    pub fn factory(self) -> (r: &'static str)
        ensures
            r == self.factory_name(),
    {
        self.factory
    }

    /// The message of the error.
    pub fn to_string(&self) -> (r: String)
        ensures
            r@ == "legacy "@ + self.factory_name()@
                + " factory is already installed; use explicit RuntimeComposition instead"@,
    {
        let mut message = String::from_str("legacy ");
        message.append(self.factory);
        message.append(" factory is already installed; use explicit RuntimeComposition instead");
        message
    }
}

/// A legacy factory was required before it was installed.
#[derive(Debug, Clone, Copy, PartialEq, Eq)]
pub struct LegacyFactoryUnavailableError {
    factory: &'static str,
}

impl LegacyFactoryUnavailableError {
    /// The factory named in the error.
    pub closed spec fn factory_name(self) -> &'static str {
        self.factory
    }

    pub fn new(factory: &'static str) -> (r: Self)
        ensures
            r.factory_name() == factory,
    {
        Self { factory }
    }

    pub fn factory(self) -> (r: &'static str)
        ensures
            r == self.factory_name(),
    {
        self.factory
    }

    /// The message of the error.
    pub fn to_string(&self) -> (r: String)
        ensures
            r@ == "legacy "@ + self.factory_name()@
                + " factory is not installed; use explicit RuntimeComposition instead"@,
    {
        let mut message = String::from_str("legacy ");
        message.append(self.factory);
        message.append(" factory is not installed; use explicit RuntimeComposition instead");
        message
    }
}

/// Two install errors are the same error exactly when they name the same factory.
pub proof fn lemma_install_error_identity(a: LegacyFactoryInstallError, b: LegacyFactoryInstallError)
    ensures
        (a == b) <==> (a.factory_name() == b.factory_name()),
{
}

/// Two unavailable errors are the same error exactly when they name the same factory.
pub proof fn lemma_unavailable_error_identity(a: LegacyFactoryUnavailableError, b: LegacyFactoryUnavailableError)
    ensures
        (a == b) <==> (a.factory_name() == b.factory_name()),
{
}

/// A slot that can be filled once.
pub struct FactorySlot<T> {
    value: Option<T>,
}

impl<T> View for FactorySlot<T> {
    type V = Option<T>;

    closed spec fn view(&self) -> Option<T> {
        self.value
    }
}

impl<T> FactorySlot<T> {
    /// An empty slot.
    pub fn new() -> (r: Self)
        ensures
            r@ is None,
    {
        Self { value: None }
    }
}

/// Fills an empty slot; a filled slot is left unchanged and the second installation is an
/// error naming the factory.
pub fn install_once<T>(slot: &mut FactorySlot<T>, value: T, factory: &'static str) -> (r: Result<(), LegacyFactoryInstallError>)
    ensures
        match r {
            Ok(()) => old(slot)@ is None && final(slot)@ == Some(value),
            Err(e) => old(slot)@ is Some && final(slot)@ == old(slot)@ && e.factory_name() == factory,
        },
{
    if slot.value.is_some() {
        return Err(LegacyFactoryInstallError::new(factory));
    }
    slot.value = Some(value);
    Ok(())
}

/// The installed value, or an error naming the factory when the slot is empty.
pub fn require_installed<'a, T>(slot: &'a FactorySlot<T>, factory: &'static str) -> (r: Result<&'a T, LegacyFactoryUnavailableError>)
    ensures
        match r {
            Ok(value) => slot@ == Some(*value),
            Err(e) => slot@ is None && e.factory_name() == factory,
        },
{
    match &slot.value {
        Some(value) => Ok(value),
        None => Err(LegacyFactoryUnavailableError::new(factory)),
    }
}

} // verus!
