//! Handles by which callers name the containers of a document.

use crate::block::TypePtr;
use vstd::prelude::*;

verus! {

/// A text container.
#[derive(Clone, Copy, Debug, PartialEq, Eq)]
pub struct Text {
    pub ptr: TypePtr,
}

impl From<TypePtr> for Text {
    fn from(ptr: TypePtr) -> (r: Text) {
        Text { ptr }
    }
}

impl vstd::std_specs::convert::FromSpecImpl<TypePtr> for Text {
    open spec fn obeys_from_spec() -> bool {
        true
    }

    open spec fn from_spec(ptr: TypePtr) -> Text {
        Text { ptr }
    }
}

} // verus!
