//! Static checks of categorical laws (`LawChecker`).
//!
//! `Category`'s mutating methods refuse invalid operations on the spot; `LawChecker`
//! offers the same rules as read-only checks, for validating a model before code
//! is generated from it.

use vstd::prelude::*;

use crate::category::{
    check_outcome, spec_check_composable, spec_check_coverage, Category, CategoryError,
};
use crate::morphism::MorphismId;
use crate::object::{ObjectId, ObjectKind};

verus! {

/// The namespace of the static law checks. It holds no state.
pub struct LawChecker;

impl LawChecker {
    /// Checks that `f: A -> B` and `g: B -> C` compose: both are registered and `f`'s
    /// codomain is `g`'s domain. Registers nothing.
    pub fn check_composable(category: &Category, f: &MorphismId, g: &MorphismId) -> (r: Result<(), CategoryError>)
        ensures
            check_outcome(r) == spec_check_composable(category@, f@, g@),
    {
        proof {
            use_type_invariant(category);
        }
        category.check_composable(f, g)
    }

    /// Checks that every variant of the coproduct `coproduct` is the domain of at
    /// least one morphism, so that no branch of a state union is left unhandled.
    /// Fails on an unregistered object, on an object that is not a coproduct, and
    /// with every unhandled variant's name otherwise.
    pub fn check_coproduct_coverage(category: &Category, coproduct: &ObjectId) -> (r: Result<(), CategoryError>)
        ensures
            check_outcome(r) == spec_check_coverage(category@, coproduct@),
    {
        proof {
            use_type_invariant(category);
        }
        let object = match category.object(coproduct) {
            None => return Err(CategoryError::UnknownObject(coproduct.0.clone())),
            Some(o) => o,
        };
        match &object.kind {
            ObjectKind::Coproduct(variants) => {
                let missing = category.unhandled_variants(variants);
                if missing.len() == 0 {
                    Ok(())
                } else {
                    Err(
                        CategoryError::UnhandledCoproductVariants {
                            coproduct: coproduct.clone(),
                            missing_variants: missing,
                        },
                    )
                }
            },
            _ => Err(CategoryError::NotACoproduct(coproduct.clone())),
        }
    }
}

} // verus!
