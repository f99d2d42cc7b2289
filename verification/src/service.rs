use crate::bean::AutumnIdentified;
use crate::descriptor::AutumnBeanInstanceMethodType;
use vstd::prelude::*;

verus! {

/// The capability of a bean that can be run: it takes no parameters and no
/// arguments.
pub struct RunnableMethodType;

impl AutumnIdentified for RunnableMethodType {
    const IDENTIFIER: u64 = 0;

    const NAME: &'static str = "RunnableMethodType";
}

impl AutumnBeanInstanceMethodType for RunnableMethodType {

}

} // verus!
