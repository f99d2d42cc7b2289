use crate::bean::{name_view, AutumnBean, SlotName};
use vstd::prelude::*;

verus! {

/// Why a registration or a lookup was refused.
#[derive(Debug, PartialEq, Eq)]
pub enum AutumnError {
    /// The addressed slot already holds what the caller tried to add.
    BeanAlreadyExist,
    /// No instance is registered under the type (first field, a readable type
    /// name) and the name (second field; `None` addresses the unnamed slot).
    BeanNotExist(&'static str, Option<String>),
}

pub type AutumnResult<T> = Result<T, AutumnError>;

/// Whether a call succeeded, and with what error it did not.
pub open spec fn outcome_of<V>(result: AutumnResult<V>) -> AutumnResult<()> {
    match result {
        Ok(_) => Ok(()),
        Err(error) => Err(error),
    }
}

impl AutumnError {
    /// The type name that a `BeanNotExist` error carries.
    pub open spec fn missing_type(&self) -> Option<&'static str> {
        match self {
            AutumnError::BeanNotExist(label, _) => Some(*label),
            AutumnError::BeanAlreadyExist => None,
        }
    }

    /// The slot that a `BeanNotExist` error speaks of; `None` for the other
    /// errors.
    pub open spec fn missing_name(&self) -> Option<SlotName> {
        match self {
            AutumnError::BeanNotExist(_, Some(name)) => Some(Some(name@)),
            AutumnError::BeanNotExist(_, None) => Some(None),
            AutumnError::BeanAlreadyExist => None,
        }
    }

    /// The error for a lookup of the bean type `B` under `name` that found no
    /// instance.
    pub fn bean_not_exist<B: AutumnBean>(name: Option<&'static str>) -> (error: Self)
        ensures
            error.missing_type() == Some(B::NAME),
            error.missing_name() == Some(name_view(name)),
    {
        let owned = match name {
            Some(n) => Some(n.to_owned()),
            None => None,
        };
        AutumnError::BeanNotExist(B::NAME, owned)
    }
}

} // verus!
