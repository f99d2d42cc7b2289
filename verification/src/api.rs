use std::borrow::Cow;
use vstd::prelude::*;
use vstd::std_specs::convert::FromSpecImpl;

verus! {

/// `anyhow::Error`: an error of any kind, carried through unread.
#[verifier::external_type_specification]
#[verifier::external_body]
pub struct ExAnyhowError(anyhow::Error);

/// Why a service could not be initialized.
#[derive(Debug)]
pub enum InitializationError {
    /// A bean that the service depends on is missing; the field names it.
    RequireBean(Cow<'static, str>),
    /// Anything else that went wrong in the initializer.
    Any(anyhow::Error),
}

impl From<anyhow::Error> for InitializationError {
    fn from(error: anyhow::Error) -> (wrapped: Self) {
        InitializationError::Any(error)
    }
}

impl FromSpecImpl<anyhow::Error> for InitializationError {
    open spec fn obeys_from_spec() -> bool {
        true
    }

    open spec fn from_spec(error: anyhow::Error) -> Self {
        InitializationError::Any(error)
    }
}

} // verus!
