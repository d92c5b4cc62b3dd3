//! What a volume holds, as a function of its image: what opening it gives,
//! which entry a path names, what a file contains and what a directory lists.

use vstd::prelude::*;
use crate::block::{block_at, block_count, extent_at, lemma_blocks_cover, stored_block_size};
use crate::directory::{directory_entries, directory_well_formed, EntryModel};
use crate::error::Failure;
use crate::layout::{
    le_u32_at, DESCRIPTOR_END, DESCRIPTOR_INDEX, DESCRIPTOR_START, EXTENT_OFFSET,
    ROOT_RECORD_END, ROOT_RECORD_OFFSET, SIGNATURE_END, SIGNATURE_OFFSET,
};
use crate::path::{
    case_insensitive_eq, lemma_path_segments_alike, path_segments, segments_alike,
    PATH_SEPARATOR,
};

verus! {

/// The signature of a volume descriptor: the bytes of `CD001`.
pub open spec fn signature() -> Seq<u8> {
    seq![0x43u8, 0x44u8, 0x30u8, 0x30u8, 0x31u8]
}

/// Whether a descriptor block carries the signature in its bytes 1 to 5.
pub open spec fn has_signature(descriptor: Seq<u8>) -> bool {
    descriptor.len() >= SIGNATURE_END && descriptor.subrange(
        SIGNATURE_OFFSET as int,
        SIGNATURE_END as int,
    ) == signature()
}

/// What a volume is in contracts: the image, and what opening it found there.
pub struct VolumeModel {
    /// The bytes of the image.
    pub image: Seq<u8>,
    /// Length of a logical block in bytes.
    pub block_size: u16,
    /// The entries of the root directory, as far as its first block holds them.
    pub root: Seq<EntryModel>,
}

/// What opening an image gives.
///
/// The block size comes from the descriptor at `16 * 2048`; the descriptor
/// block is then read as logical block 16, and the first block of the root
/// directory's extent is decoded.
pub open spec fn opened(image: Seq<u8>) -> Result<VolumeModel, Failure> {
    if image.len() < DESCRIPTOR_END {
        Err(Failure::Io)
    } else {
        let block_size = stored_block_size(image);
        match block_at(image, block_size as int, DESCRIPTOR_INDEX as int) {
            None => Err(Failure::Io),
            Some(descriptor) => {
                if descriptor.len() < SIGNATURE_END {
                    Err(Failure::InvalidVolume)
                } else if !has_signature(descriptor) {
                    Err(Failure::InvalidSignature)
                } else if descriptor.len() < ROOT_RECORD_END {
                    Err(Failure::InvalidVolume)
                } else {
                    let root_lba = le_u32_at(descriptor, ROOT_RECORD_OFFSET + EXTENT_OFFSET);
                    match block_at(image, block_size as int, root_lba as int) {
                        None => Err(Failure::Io),
                        Some(block) => {
                            if directory_well_formed(block) {
                                let root = directory_entries(block);
                                Ok(VolumeModel { image, block_size, root })
                            } else {
                                Err(Failure::InvalidVolume)
                            }
                        },
                    }
                }
            },
        }
    }
}

/// What loading the directory at block `lba` with `size` bytes gives.
pub open spec fn loaded(volume: VolumeModel, lba: u32, size: u32) -> Result<
    Seq<EntryModel>,
    Failure,
> {
    match extent_at(volume.image, volume.block_size as int, lba as int, size as int) {
        None => Err(Failure::Io),
        Some(bytes) => {
            if directory_well_formed(bytes) {
                Ok(directory_entries(bytes))
            } else {
                Err(Failure::InvalidVolume)
            }
        },
    }
}

/// The first entry of a directory whose name is the segment, but for the case
/// of ASCII letters.
pub open spec fn lookup(directory: Seq<EntryModel>, segment: Seq<char>) -> Option<EntryModel>
    decreases directory.len(),
{
    if directory.len() == 0 {
        None
    } else if case_insensitive_eq(directory[0].name, segment) {
        Some(directory[0])
    } else {
        lookup(directory.drop_first(), segment)
    }
}

/// What following `segments` from `directory` gives. Each segment is looked
/// up in the directory reached so far. A directory that is matched is loaded,
/// the last one too; a file that is matched before the last segment ends the
/// walk with `NotFound`.
pub open spec fn walk(
    volume: VolumeModel,
    path: Seq<char>,
    directory: Seq<EntryModel>,
    segments: Seq<Seq<char>>,
) -> Result<EntryModel, Failure>
    recommends
        segments.len() > 0,
    decreases segments.len(),
{
    if segments.len() == 0 {
        Err(Failure::NotFound(path))
    } else {
        match lookup(directory, segments[0]) {
            None => Err(Failure::NotFound(path)),
            Some(entry) => {
                if entry.is_dir {
                    match loaded(volume, entry.lba, entry.size) {
                        Err(failure) => Err(failure),
                        Ok(inner) => {
                            if segments.len() == 1 {
                                Ok(entry)
                            } else {
                                walk(volume, path, inner, segments.drop_first())
                            }
                        },
                    }
                } else if segments.len() == 1 {
                    Ok(entry)
                } else {
                    Err(Failure::NotFound(path))
                }
            },
        }
    }
}

/// The entry that a path names.
pub open spec fn resolved(volume: VolumeModel, path: Seq<char>) -> Result<EntryModel, Failure> {
    walk(volume, path, volume.root, path_segments(path))
}

/// The contents of the file that a path names.
pub open spec fn file_contents(volume: VolumeModel, path: Seq<char>) -> Result<Seq<u8>, Failure> {
    match resolved(volume, path) {
        Err(failure) => Err(failure),
        Ok(entry) => {
            if entry.is_dir {
                Err(Failure::NotADirectory(path))
            } else {
                match extent_at(
                    volume.image,
                    volume.block_size as int,
                    entry.lba as int,
                    entry.size as int,
                ) {
                    None => Err(Failure::Io),
                    Some(bytes) => Ok(bytes),
                }
            }
        },
    }
}

/// Whether a path is the root itself: a single `/`.
pub open spec fn is_root_path(path: Seq<char>) -> bool {
    path.len() == 1 && path[0] == PATH_SEPARATOR
}

/// The entries of the directory that a path names.
pub open spec fn listing(volume: VolumeModel, path: Seq<char>) -> Result<Seq<EntryModel>, Failure> {
    if is_root_path(path) {
        Ok(volume.root)
    } else {
        match resolved(volume, path) {
            Err(failure) => Err(failure),
            Ok(entry) => {
                if entry.is_dir {
                    loaded(volume, entry.lba, entry.size)
                } else {
                    Err(Failure::NotADirectory(path))
                }
            },
        }
    }
}

/// The block that `open` takes for the descriptor: logical block 16.
pub open spec fn descriptor_block(image: Seq<u8>) -> Seq<u8> {
    image.subrange(
        DESCRIPTOR_INDEX * stored_block_size(image),
        (DESCRIPTOR_INDEX + 1) * stored_block_size(image),
    )
}

/// Whether an image holds, well formed, all that `open` reads of it, whatever
/// its signature: the descriptor, a descriptor block long enough for the root
/// directory's record, and the first block of the root directory.
pub open spec fn is_readable(image: Seq<u8>) -> bool {
    let block_size = stored_block_size(image) as int;
    let root_lba = le_u32_at(descriptor_block(image), ROOT_RECORD_OFFSET + EXTENT_OFFSET);
    &&& image.len() >= DESCRIPTOR_END
    &&& block_size >= ROOT_RECORD_END
    &&& block_at(image, block_size, DESCRIPTOR_INDEX as int) is Some
    &&& block_at(image, block_size, root_lba as int) matches Some(block) && directory_well_formed(
        block,
    )
}

/// A readable image opens if and only if its descriptor block carries the
/// signature, and fails with `InvalidSignature` otherwise. With a block size
/// of 2048 the descriptor block is the descriptor at `16 * 2048` itself.
pub proof fn lemma_open_checks_signature(image: Seq<u8>)
    requires
        is_readable(image),
    ensures
        opened(image) is Ok <==> has_signature(descriptor_block(image)),
        !has_signature(descriptor_block(image)) ==> opened(image) == Err::<VolumeModel, Failure>(
            Failure::InvalidSignature,
        ),
        stored_block_size(image) == 2048 ==> descriptor_block(image) == image.subrange(
            DESCRIPTOR_START as int,
            DESCRIPTOR_END as int,
        ),
{
}

/// A volume that was opened has a block size that holds the descriptor's
/// fields, and so is not zero.
pub proof fn lemma_opened_block_size(image: Seq<u8>)
    requires
        opened(image) is Ok,
    ensures
        opened(image)->Ok_0.image == image,
        opened(image)->Ok_0.block_size == stored_block_size(image),
        opened(image)->Ok_0.block_size >= ROOT_RECORD_END,
{
}

/// A failure that carries a path, with `path` in the place of the one it
/// carries; any other failure as it is.
pub open spec fn with_path(failure: Failure, path: Seq<char>) -> Failure {
    match failure {
        Failure::NotFound(_) => Failure::NotFound(path),
        Failure::NotADirectory(_) => Failure::NotADirectory(path),
        other => other,
    }
}

/// A result, with `path` in the place of the path that its failure carries.
pub open spec fn asked_as<T>(result: Result<T, Failure>, path: Seq<char>) -> Result<T, Failure> {
    match result {
        Ok(value) => Ok(value),
        Err(failure) => Err(with_path(failure, path)),
    }
}

/// Segments that are equal but for case name the same entry.
pub proof fn lemma_lookup_alike(directory: Seq<EntryModel>, a: Seq<char>, b: Seq<char>)
    requires
        case_insensitive_eq(a, b),
    ensures
        lookup(directory, a) == lookup(directory, b),
    decreases directory.len(),
{
    if directory.len() > 0 {
        lemma_lookup_alike(directory.drop_first(), a, b);
    }
}

/// Segments that are equal but for case lead to the same entry, or to the
/// same failure under the path that was asked for.
pub proof fn lemma_walk_alike(
    volume: VolumeModel,
    p: Seq<char>,
    q: Seq<char>,
    directory: Seq<EntryModel>,
    a: Seq<Seq<char>>,
    b: Seq<Seq<char>>,
)
    requires
        segments_alike(a, b),
    ensures
        walk(volume, q, directory, b) == asked_as(walk(volume, p, directory, a), q),
    decreases a.len(),
{
    if a.len() > 0 {
        lemma_lookup_alike(directory, a[0], b[0]);
        match lookup(directory, a[0]) {
            Some(entry) => {
                if entry.is_dir && a.len() > 1 {
                    match loaded(volume, entry.lba, entry.size) {
                        Ok(inner) => {
                            assert(segments_alike(a.drop_first(), b.drop_first()));
                            lemma_walk_alike(volume, p, q, inner, a.drop_first(), b.drop_first());
                        },
                        Err(_) => {},
                    }
                }
            },
            None => {},
        }
    }
}

/// Lookup takes no account of case: two paths that are equal but for the case
/// of ASCII letters name the same entry, the same contents and the same
/// listing, or fail alike, each failure under the path that was asked for.
pub proof fn lemma_paths_alike(volume: VolumeModel, p: Seq<char>, q: Seq<char>)
    requires
        case_insensitive_eq(p, q),
    ensures
        resolved(volume, q) == asked_as(resolved(volume, p), q),
        file_contents(volume, q) == asked_as(file_contents(volume, p), q),
        listing(volume, q) == asked_as(listing(volume, p), q),
{
    lemma_path_segments_alike(p, q);
    lemma_walk_alike(volume, p, q, volume.root, path_segments(p), path_segments(q));
}

/// A walk fails under the path that was asked for, or for want of a block or
/// of a well-formed directory.
pub proof fn lemma_walk_failure(
    volume: VolumeModel,
    path: Seq<char>,
    directory: Seq<EntryModel>,
    segments: Seq<Seq<char>>,
)
    ensures
        walk(volume, path, directory, segments) matches Err(failure) ==> {
            ||| failure == Failure::NotFound(path)
            ||| failure == Failure::Io
            ||| failure == Failure::InvalidVolume
        },
        segments.len() > 0 && lookup(directory, segments[0]) is None ==> walk(
            volume,
            path,
            directory,
            segments,
        ) == Err::<EntryModel, Failure>(Failure::NotFound(path)),
    decreases segments.len(),
{
    if segments.len() > 0 {
        match lookup(directory, segments[0]) {
            Some(entry) => {
                if entry.is_dir && segments.len() > 1 {
                    match loaded(volume, entry.lba, entry.size) {
                        Ok(inner) => {
                            lemma_walk_failure(volume, path, inner, segments.drop_first());
                        },
                        Err(_) => {},
                    }
                }
            },
            None => {},
        }
    }
}

/// Every failure that carries a path carries the one that was asked for, and
/// a path whose first segment matches nothing in the root is not found.
pub proof fn lemma_failures_name_path(volume: VolumeModel, path: Seq<char>)
    ensures
        resolved(volume, path) matches Err(failure) ==> with_path(failure, path) == failure,
        file_contents(volume, path) matches Err(failure) ==> with_path(failure, path) == failure,
        listing(volume, path) matches Err(failure) ==> with_path(failure, path) == failure,
        lookup(volume.root, path_segments(path)[0]) is None ==> {
            &&& resolved(volume, path) == Err::<EntryModel, Failure>(Failure::NotFound(path))
            &&& file_contents(volume, path) == Err::<Seq<u8>, Failure>(Failure::NotFound(path))
            &&& !is_root_path(path) ==> listing(volume, path) == Err::<Seq<EntryModel>, Failure>(
                Failure::NotFound(path),
            )
        },
{
    lemma_walk_failure(volume, path, volume.root, path_segments(path));
}

/// A file that is read has exactly the length that its entry states: it is
/// the start of the blocks that cover it, all of which the image holds, and
/// nothing of the last block's padding.
pub proof fn lemma_file_contents_exact(volume: VolumeModel, path: Seq<char>)
    requires
        volume.block_size > 0,
        file_contents(volume, path) is Ok,
    ensures
        resolved(volume, path) matches Ok(entry) && {
            let bytes = file_contents(volume, path)->Ok_0;
            let start = entry.lba * volume.block_size;
            let blocks = block_count(entry.size as int, volume.block_size as int);
            &&& !entry.is_dir
            &&& bytes.len() == entry.size
            &&& entry.size > 0 ==> start + blocks * volume.block_size <= volume.image.len()
            &&& entry.size > 0 ==> bytes == volume.image.subrange(start, start + entry.size)
            &&& entry.size <= blocks * volume.block_size < entry.size + volume.block_size
        },
{
    let entry = resolved(volume, path)->Ok_0;
    let block_size = volume.block_size as int;
    lemma_blocks_cover(entry.size as int, block_size);
    let blocks = block_count(entry.size as int, block_size);
    assert((entry.lba + blocks) * block_size == entry.lba * block_size + blocks * block_size)
        by (nonlinear_arith);
}

/// Listing the root gives the entries that opening found and takes nothing
/// from the image: no block is read for it.
pub proof fn lemma_root_listing(volume: VolumeModel, image: Seq<u8>)
    ensures
        listing(volume, seq![PATH_SEPARATOR]) == Ok::<Seq<EntryModel>, Failure>(volume.root),
        listing(VolumeModel { image, ..volume }, seq![PATH_SEPARATOR]) == listing(
            volume,
            seq![PATH_SEPARATOR],
        ),
{
}

/// Reading a directory as a file fails with `NotADirectory`, and so does
/// listing a file, each under the path that was asked for. The root path is
/// listed without being resolved.
pub proof fn lemma_wrong_kind(volume: VolumeModel, path: Seq<char>)
    requires
        resolved(volume, path) is Ok,
    ensures
        resolved(volume, path)->Ok_0.is_dir ==> file_contents(volume, path) == Err::<
            Seq<u8>,
            Failure,
        >(Failure::NotADirectory(path)),
        !resolved(volume, path)->Ok_0.is_dir && !is_root_path(path) ==> listing(volume, path)
            == Err::<Seq<EntryModel>, Failure>(Failure::NotADirectory(path)),
{
}

} // verus!
