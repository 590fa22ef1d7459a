//! The transform extension: keywords behind `t`.

use vstd::prelude::*;

use crate::extensions::keywords::KeywordList;

verus! {

/// The singleton that opens the transform section, `t`.
pub const TRANSFORM_SINGLETON: u8 = 0x74;

/// The keywords of the transform extension.
pub type TransformExtensionList = KeywordList<TRANSFORM_SINGLETON>;

} // verus!
