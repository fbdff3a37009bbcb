//! Mesh-format classification from a file extension.  The extension is
//! matched case-insensitively (ASCII) against the supported formats; an
//! unrecognized one is the unsupported-format error.

use vstd::prelude::*;
use crate::point::ReduceError;

verus! {

/// The mesh file formats the library knows how to have loaded.
#[derive(Clone, Copy, PartialEq, Eq, Structural, Debug)]
pub enum MeshFormat {
    Stl,
    Obj,
    Ply,
}

/// ASCII lower-casing of one byte.
pub open spec fn lower_byte(b: u8) -> u8 {
    if 65 <= b <= 90 {
        (b + 32) as u8
    } else {
        b
    }
}

/// ASCII lower-casing of a byte sequence.
pub open spec fn lower_bytes(s: Seq<u8>) -> Seq<u8> {
    s.map_values(|b: u8| lower_byte(b))
}

/// The format an extension names, after ASCII lower-casing: `stl`, `obj`
/// or `ply`.
pub open spec fn format_of(ext: Seq<u8>) -> Option<MeshFormat> {
    if lower_bytes(ext) == seq![115u8, 116u8, 108u8] {
        Option::Some(MeshFormat::Stl)
    } else if lower_bytes(ext) == seq![111u8, 98u8, 106u8] {
        Option::Some(MeshFormat::Obj)
    } else if lower_bytes(ext) == seq![112u8, 108u8, 121u8] {
        Option::Some(MeshFormat::Ply)
    } else {
        Option::None
    }
}

/// Lower-cases one ASCII byte.
fn lower_ascii(b: u8) -> (r: u8)
    ensures
        r == lower_byte(b),
{
    if 65 <= b && b <= 90 {
        b + 32
    } else {
        b
    }
}

/// Classifies a file extension, given as raw bytes, case-insensitively:
/// exactly the recognized extensions yield a format, every other extension
/// is the unsupported-format error.
pub fn classify_format(ext: &Vec<u8>) -> (r: Result<MeshFormat, ReduceError>)
    ensures
        match r {
            Result::Ok(f) => format_of(ext@) == Option::Some(f),
            Result::Err(e) => e == ReduceError::UnsupportedFormat && format_of(ext@)
                is None,
        },
{
    if ext.len() != 3 {
        proof {
            assert(lower_bytes(ext@).len() == ext@.len());
        }
        return Result::Err(ReduceError::UnsupportedFormat);
    }
    let b0 = lower_ascii(ext[0]);
    let b1 = lower_ascii(ext[1]);
    let b2 = lower_ascii(ext[2]);
    proof {
        assert(lower_bytes(ext@).len() == 3);
        assert(lower_bytes(ext@)[0] == lower_byte(ext@[0]));
        assert(lower_bytes(ext@)[1] == lower_byte(ext@[1]));
        assert(lower_bytes(ext@)[2] == lower_byte(ext@[2]));
    }
    if b0 == 115 && b1 == 116 && b2 == 108 {
        proof {
            assert(lower_bytes(ext@) =~= seq![115u8, 116u8, 108u8]);
        }
        Result::Ok(MeshFormat::Stl)
    } else if b0 == 111 && b1 == 98 && b2 == 106 {
        proof {
            assert(lower_bytes(ext@) =~= seq![111u8, 98u8, 106u8]);
        }
        Result::Ok(MeshFormat::Obj)
    } else if b0 == 112 && b1 == 108 && b2 == 121 {
        proof {
            assert(lower_bytes(ext@) =~= seq![112u8, 108u8, 121u8]);
        }
        Result::Ok(MeshFormat::Ply)
    } else {
        Result::Err(ReduceError::UnsupportedFormat)
    }
}

} // verus!
