//! The embedded images: decompressing them, and the initial RAM disk a
//! virtual machine boots from, with the host directories it mounts laid
//! over the root filesystem.
use vstd::prelude::*;
use crate::cpio::{encode_entries, encode_trailer};
use crate::overlay::{create_overlay_cpio, overlay_entries, sources_view, splice_rootfs, spliced, OverlaySource};

verus! {

/// What `zstd::decode_all` makes of a compressed stream: the decompressed
/// bytes, or `None` when it reports an error (the bytes are not a complete,
/// well-formed zstd stream).
pub uninterp spec fn zstd_decoded(data: Seq<u8>) -> Option<Seq<u8>>;

/// Calls `zstd::decode_all` on the bytes. Trusted: the result is
/// `zstd_decoded` of the bytes, a name for the decompression, which depends
/// on the bytes alone; the error it reports is dropped.
#[verifier::external_body]
fn zstd_decode_all(data: &[u8]) -> (r: Option<Vec<u8>>)
    ensures
        match r {
            Some(v) => zstd_decoded(data@) == Some(v@),
            None => zstd_decoded(data@) is None,
        },
{
    zstd::decode_all(std::io::Cursor::new(data)).ok()
}

/// Why an image could not be prepared.
#[derive(Clone, Copy, Debug, PartialEq, Eq, Structural)]
pub enum ImageError {
    /// The compressed image does not decompress.
    Corrupt,
}

/// Decompresses an embedded image.
pub fn decompress(data: &[u8]) -> (r: Result<Vec<u8>, ImageError>)
    ensures
        match r {
            Ok(v) => zstd_decoded(data@) == Some(v@),
            Err(e) => zstd_decoded(data@) is None && e == ImageError::Corrupt,
        },
{
    match zstd_decode_all(data) {
        Some(v) => Ok(v),
        None => Err(ImageError::Corrupt),
    }
}

/// The initial RAM disk for a decompressed root filesystem archive and the
/// mounts laid over it: the archive without its trailer, then the overlay
/// archive of the mounts.
pub open spec fn overlaid_rootfs(base: Seq<u8>, srcs: Seq<crate::overlay::SourceModel>) -> Seq<u8> {
    spliced(base, encode_entries(overlay_entries(srcs)) + encode_trailer())
}

/// Lays the mounts over a decompressed root filesystem archive, as
/// `overlaid_rootfs` describes.
pub fn overlay_rootfs(base: Vec<u8>, mounts: &[OverlaySource]) -> (r: Vec<u8>)
    ensures
        r@ == overlaid_rootfs(base@, sources_view(mounts@)),
{
    let overlay = create_overlay_cpio(mounts);
    splice_rootfs(base, overlay.as_slice())
}

/// The initial RAM disk a virtual machine boots from: the decompressed
/// root filesystem archive, as it is without mounts, with the mounts laid
/// over it otherwise; none when the root filesystem does not decompress.
pub open spec fn initrd_image(rootfs_zst: Seq<u8>, srcs: Seq<crate::overlay::SourceModel>) -> Option<Seq<u8>> {
    match zstd_decoded(rootfs_zst) {
        Some(base) => if srcs.len() == 0 {
            Some(base)
        } else {
            Some(overlaid_rootfs(base, srcs))
        },
        None => None,
    }
}

/// Builds the initial RAM disk, as `initrd_image` describes; fails only
/// when the root filesystem does not decompress.
pub fn build_initrd(rootfs_zst: &[u8], mounts: &[OverlaySource]) -> (r: Result<Vec<u8>, ImageError>)
    ensures
        match r {
            Ok(v) => initrd_image(rootfs_zst@, sources_view(mounts@)) == Some(v@),
            Err(e) => initrd_image(rootfs_zst@, sources_view(mounts@)) is None && e == ImageError::Corrupt,
        },
{
    let base = decompress(rootfs_zst)?;
    if mounts.len() == 0 {
        return Ok(base);
    }
    Ok(overlay_rootfs(base, mounts))
}

} // verus!
