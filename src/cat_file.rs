use vstd::prelude::*;

use crate::bytes::{decimal_digits, decimal_spec};
use crate::codec::{lossy_text, to_text};
use crate::object::{
    contents_of, decode_object, kind_token, object_result, HashAlgo, Object, ObjectError,
    ObjectView,
};

verus! {

/// What `cat-file` reports of an object.
#[derive(Clone, Copy, Debug, PartialEq, Eq, Structural)]
pub enum GetFileContentsReturnType {
    NoReturn,
    Size,
    Contents,
    Type,
}

/// The bytes reported for a decoded object.
pub open spec fn report(o: ObjectView, rt: GetFileContentsReturnType) -> Seq<u8> {
    match rt {
        GetFileContentsReturnType::NoReturn => seq![],
        GetFileContentsReturnType::Size => decimal_spec(o.size as nat),
        GetFileContentsReturnType::Contents => contents_of(o),
        GetFileContentsReturnType::Type => kind_token(o.obj_type),
    }
}

/// Decodes the stored object `object_hash` and reports on it as text: its
/// contents, its declared size in decimal, its kind name, or nothing.
pub fn get_file_contents(
    object_hash: String,
    stored: &[u8],
    algo: HashAlgo,
    return_type: GetFileContentsReturnType,
) -> (r: Result<String, ObjectError>)
    ensures
        match decode_object(object_hash@, stored@, algo.spec_width()) {
            Ok(o) => r matches Ok(s) && s@ == lossy_text(report(o, return_type)),
            Err(e) => r == Err::<String, ObjectError>(e),
        },
{
    let object = match Object::new(object_hash, stored, algo) {
        Ok(o) => o,
        Err(e) => {
            return Err(e);
        },
    };
    let bytes = match return_type {
        GetFileContentsReturnType::Contents => object.get_contents(),
        GetFileContentsReturnType::Size => decimal_digits(object.size as u64),
        GetFileContentsReturnType::Type => object.obj_type.token(),
        GetFileContentsReturnType::NoReturn => Vec::new(),
    };
    assert(object_result::<ObjectError>(Ok(object)) == Ok::<ObjectView, ObjectError>(object@));
    Ok(to_text(bytes.as_slice()))
}

} // verus!
