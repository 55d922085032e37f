//! The images that can be prepared.

use vstd::prelude::*;
use crate::util::macho::format::{MachOError, CPU_TYPE_ARM64};
use crate::util::macho::image::{
    all_readable, macho_image, named_platforms, parsed_build_versions, parsed_commands, ImageModel,
    MachOImage,
};
use super::PrepatchError;

verus! {

/// Whether a CPU subtype is that of pointer-authenticated code.
pub open spec fn has_pointer_auth(subtype: u32) -> bool {
    subtype & 0x00ff_ffff == 2 || subtype & 0x0f00_0000 != 0
}

/// The platforms that a file names in its load commands.
pub open spec fn platforms_of(data: Seq<u8>) -> Result<Seq<u32>, MachOError> {
    match (parsed_commands(data), parsed_build_versions(data)) {
        (Some(commands), Some(versions)) => if all_readable(commands) {
            Ok(named_platforms(versions))
        } else {
            Err(MachOError::CommandsUnreadable)
        },
        _ => Err(MachOError::CommandsUnreadable),
    }
}

/// Whether one of the platforms is macOS, iOS or tvOS.
pub open spec fn is_supported(platforms: Seq<u32>) -> bool {
    exists|i: int| 0 <= i < platforms.len() && 1 <= #[trigger] platforms[i] <= 3
}

/// The image of a file that can be prepared: a thin arm64 one, without pointer authentication, for
/// macOS, iOS or tvOS.
pub open spec fn preparable_image(data: Seq<u8>) -> Result<ImageModel, PrepatchError> {
    match macho_image(data) {
        Err(e) => Err(PrepatchError::Image(e)),
        Ok(image) => if image.cpu_type != CPU_TYPE_ARM64 {
            Err(PrepatchError::NotArm64(image.cpu_type))
        } else if has_pointer_auth(image.cpu_subtype) {
            Err(PrepatchError::PointerAuth)
        } else {
            match platforms_of(data) {
                Err(e) => Err(PrepatchError::Image(e)),
                Ok(platforms) => if is_supported(platforms) {
                    Ok(image)
                } else {
                    Err(PrepatchError::Platform)
                },
            }
        },
    }
}

fn has_supported(platforms: &[u32]) -> (r: bool)
    ensures
        r == is_supported(platforms@),
{
    let mut i: usize = 0;
    while i < platforms.len()
        invariant
            i <= platforms@.len(),
            forall|k: int| 0 <= k < i ==> !(1 <= #[trigger] platforms@[k] <= 3),
        decreases platforms@.len() - i,
    {
        if 1 <= platforms[i] && platforms[i] <= 3 {
            return true;
        }
        i = i + 1;
    }
    false
}

/// Parse an image that can be prepared.
pub fn parse_image(data: &[u8]) -> (r: Result<MachOImage<'_>, PrepatchError>)
    ensures
        match r {
            Ok(image) => preparable_image(data@) == Ok::<ImageModel, PrepatchError>(image@)
                && image@.data == data@ && image@.is_read(),
            Err(e) => preparable_image(data@) == Err::<ImageModel, PrepatchError>(e),
        },
{
    let image: MachOImage<'_> = match MachOImage::parse(data) {
        Ok(image) => image,
        Err(e) => return Err(PrepatchError::Image(e)),
    };
    if image.cpu_type() != CPU_TYPE_ARM64 {
        return Err(PrepatchError::NotArm64(image.cpu_type()));
    }
    let subtype: u32 = image.cpu_subtype();
    if subtype & 0x00ff_ffff == 2 || subtype & 0x0f00_0000 != 0 {
        return Err(PrepatchError::PointerAuth);
    }
    match image.platforms() {
        Err(e) => Err(PrepatchError::Image(e)),
        Ok(platforms) => if has_supported(&platforms) {
            Ok(image)
        } else {
            Err(PrepatchError::Platform)
        },
    }
}

} // verus!
