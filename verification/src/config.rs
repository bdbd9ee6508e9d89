//! The configuration of the exchanges.

use vstd::prelude::*;
use vstd::std_specs::cmp::PartialEqSpecImpl;

verus! {

/// What the configuration says of one exchange.
#[derive(Debug)]
pub struct ExchangeInfo {
    pub name: String,
    pub is_enabled: bool,
    pub symbols_url: String,
    pub api_url: String,
}

/// Two exchange entries are the same exchange when their names are equal.
impl PartialEq for ExchangeInfo {
    fn eq(&self, other: &Self) -> (res: bool) {
        self.name.eq(&other.name)
    }
}

impl PartialEqSpecImpl for ExchangeInfo {
    open spec fn obeys_eq_spec() -> bool {
        true
    }

    open spec fn eq_spec(&self, other: &ExchangeInfo) -> bool {
        self.name@ == other.name@
    }
}

impl Eq for ExchangeInfo {
}

/// `<String as Hash>::hash` feeds the string's bytes to the hasher; nothing is
/// claimed of its effect on the hasher.
pub assume_specification<H: core::hash::Hasher>[ <String as core::hash::Hash>::hash::<H> ](
    s: &String,
    state: &mut H,
);

/// An exchange entry hashes as its name, agreeing with `==`.
impl core::hash::Hash for ExchangeInfo {
    fn hash<H: core::hash::Hasher>(&self, hasher: &mut H) {
        self.name.hash(hasher);
    }
}

/// The configuration: the exchanges, enabled or not.
#[derive(Debug)]
pub struct Config {
    pub exchanges_info: Vec<ExchangeInfo>,
}

} // verus!
