use vstd::prelude::*;

verus! {

/// Arguments of the decode command: unpack the archive at `file_in` into a
/// folder of standard image files under `images_out`.
pub struct DecodeArgs {
    pub images_out: String,
    pub file_in: String,
}

/// Arguments of the encode command: pack the standard image files under
/// `images_in` into one archive written to `file_out`.
pub struct EncodeArgs {
    pub images_in: String,
    pub file_out: String,
}

} // verus!
