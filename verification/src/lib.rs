//! Inference and minimisation of boolean dependency expressions between tests.
//!
//! From the pass/fail history of a test suite the library derives, for one
//! test, a boolean expression over the other tests that describes when the
//! test passed, and reduces it with the Quine-McCluskey method.

pub mod analysis;
pub mod args_parse;
pub mod bits;
pub mod combination;
pub mod cover;
pub mod dependency_expression;
pub mod expression;
pub mod implicant;
pub mod json;
pub mod minimal_sets;
pub mod monotone;
pub mod quine_mccluskey;
pub mod test_results;
