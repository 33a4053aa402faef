//! Loading the initial RAM disk on behalf of the loaded program.

use vstd::prelude::*;
use crate::efi::status::Status;

verus! {

/// Something that can produce the initial RAM disk: implemented by whoever
/// has the image.
pub trait InitrdLoader {
    /// The size of the image in bytes.
    fn get_size(&mut self) -> usize;

    /// Fills `loadbuffer`, which has the size of the image, with the image.
    fn load_initrd_image(&mut self, loadbuffer: &mut Vec<u8>) -> Result<(), ()>;
}

/// What a request to load the image into a buffer of `buffer_size` bytes is
/// answered with before anything is loaded: a buffer that is missing or too
/// small is turned down.
pub fn load_file_check(buffer_size: usize, buffer_present: bool, image_size: usize) -> (ready:
    bool)
    ensures
        ready == (buffer_present && buffer_size >= image_size),
{
    !(buffer_size < image_size || !buffer_present)
}

/// The status that the outcome of loading the image stands for.
pub fn load_file_status(loaded: Result<(), ()>) -> (status: Status)
    ensures
        status == (match loaded {
            Ok(_) => Status::EFI_SUCCESS,
            Err(_) => Status::EFI_DEVICE_ERROR,
        }),
{
    match loaded {
        Ok(_) => Status::EFI_SUCCESS,
        Err(_) => Status::EFI_DEVICE_ERROR,
    }
}

/// Loads the image into `buffer`, as far as the caller made room: a missing
/// buffer, or one of fewer than the image's bytes, is answered with
/// `EFI_BUFFER_TOO_SMALL` and the size that is needed, and nothing is
/// loaded. Otherwise the loader decides: the status is success or a device
/// error, and the size is what the caller said.
pub fn load_file<L: InitrdLoader>(
    loader: &mut L,
    buffer_size: usize,
    buffer: &mut Option<Vec<u8>>,
) -> (res: (Status, usize))
    ensures
        *old(buffer) is None ==> res.0 == Status::EFI_BUFFER_TOO_SMALL,
        res.0 == Status::EFI_BUFFER_TOO_SMALL ==> *final(buffer) == *old(buffer),
        res.0 != Status::EFI_BUFFER_TOO_SMALL ==> res.1 == buffer_size && (res.0
            == Status::EFI_SUCCESS || res.0 == Status::EFI_DEVICE_ERROR),
{
    let image_size = loader.get_size();
    let present = buffer.is_some();
    if !load_file_check(buffer_size, present, image_size) {
        return (Status::EFI_BUFFER_TOO_SMALL, image_size);
    }
    let mut taken: Option<Vec<u8>> = None;
    core::mem::swap(&mut taken, buffer);
    match taken {
        Some(mut region) => {
            region.resize(image_size, 0u8);
            let loaded = loader.load_initrd_image(&mut region);
            *buffer = Some(region);
            (load_file_status(loaded), buffer_size)
        },
        None => (Status::EFI_BUFFER_TOO_SMALL, image_size),
    }
}

} // verus!
