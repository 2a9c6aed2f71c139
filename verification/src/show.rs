//! What the library takes from [`core::fmt`] to show its state words field by field.
use core::fmt::{Debug, DebugStruct, Formatter};
use vstd::prelude::*;

verus! {

/// `core::fmt::Formatter`, carried as an opaque value.
#[verifier::external_type_specification]
#[verifier::external_body]
pub struct ExFormatter<'a>(Formatter<'a>);

/// `core::fmt::Error`, carried as an opaque value.
#[verifier::external_type_specification]
#[verifier::external_body]
pub struct ExFormatError(core::fmt::Error);

/// `core::fmt::DebugStruct`, carried as an opaque value.
#[verifier::external_type_specification]
#[verifier::external_body]
pub struct ExDebugStruct<'a, 'b: 'a>(DebugStruct<'a, 'b>);

/// `Formatter::debug_struct` begins to show a struct. Nothing is claimed of the text.
#[verifier::external_body]
pub(crate) fn begin<'a, 'b>(f: &'a mut Formatter<'b>, name: &str) -> (shown: DebugStruct<'a, 'b>) {
    f.debug_struct(name)
}

/// `DebugStruct::field` shows a field. Nothing is claimed of the text.
#[verifier::external_body]
pub(crate) fn field<T: Debug>(shown: &mut DebugStruct<'_, '_>, name: &str, value: &T) {
    shown.field(name, value);
}

/// `DebugStruct::finish` shows the end of the struct, and returns the first error there was.
/// Nothing is claimed of either.
#[verifier::external_body]
pub(crate) fn finish(shown: &mut DebugStruct<'_, '_>) -> (result: Result<(), core::fmt::Error>) {
    shown.finish()
}

} // verus!
