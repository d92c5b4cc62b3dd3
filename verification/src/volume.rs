//! The volume: opening an image, resolving paths in it, listing its
//! directories and reading its files.

use vstd::prelude::*;
use crate::block::BlockDevice;
use crate::directory::{
    check_directory, entry_models, parse_directory, DirEntry, Directory, EntryModel,
};
use crate::error::{outcome, Failure, IsoError};
use crate::layout::{
    read_le_u32, DESCRIPTOR_INDEX, EXTENT_OFFSET, ROOT_RECORD_END, ROOT_RECORD_OFFSET,
    SIGNATURE_END, SIGNATURE_OFFSET,
};
use crate::model::{
    file_contents, has_signature, listing, loaded, lookup, opened, resolved, signature, walk,
    VolumeModel,
};
use crate::path::{eq_ignore_ascii_case, split_path, texts, PATH_SEPARATOR};

verus! {

/// Tells whether a descriptor block carries the signature.
pub fn check_signature(descriptor: &[u8]) -> (present: bool)
    ensures
        present == has_signature(descriptor@),
{
    if descriptor.len() < SIGNATURE_END {
        return false;
    }
    let present: bool = descriptor[1] == 0x43 && descriptor[2] == 0x44 && descriptor[3] == 0x30
        && descriptor[4] == 0x30 && descriptor[5] == 0x31;
    assert(present ==> descriptor@.subrange(SIGNATURE_OFFSET as int, SIGNATURE_END as int)
        == signature());
    present
}

/// Finds in a directory the first entry that a segment names.
pub fn find_in(entries: &[DirEntry], segment: &str) -> (found: Option<DirEntry>)
    ensures
        match found {
            Some(entry) => lookup(entry_models(entries@), segment@) == Some(entry@),
            None => lookup(entry_models(entries@), segment@) is None,
        },
{
    let ghost models = entry_models(entries@);
    let mut i: usize = 0;
    assert(models.skip(0) == models);
    while i < entries.len()
        invariant
            i <= entries.len(),
            models == entry_models(entries@),
            lookup(models, segment@) == lookup(models.skip(i as int), segment@),
        decreases entries.len() - i,
    {
        if eq_ignore_ascii_case(entries[i].name.as_str(), segment) {
            return Some(entries[i].clone());
        }
        assert(models.skip(i as int).drop_first() == models.skip(i + 1));
        i = i + 1;
    }
    None
}

/// An opened volume: the block store, and the root directory as it was
/// decoded when the volume was opened.
pub struct IsoFs {
    dev: BlockDevice,
    root: Directory,
}

impl View for IsoFs {
    type V = VolumeModel;

    closed spec fn view(&self) -> VolumeModel {
        VolumeModel { image: self.dev.image@, block_size: self.dev.block_size, root: self.root@ }
    }
}

impl IsoFs {
    /// Whether a volume holds what opening its image gives. `open` builds no
    /// other volume, and no operation changes one.
    pub open spec fn wf(&self) -> bool {
        opened(self@.image) == Ok::<VolumeModel, Failure>(self@)
    }

    /// Opens the volume that an image holds.
    ///
    /// Reads the block size, then logical block 16 as the descriptor block,
    /// and decodes the first block of the root directory's extent; a root
    /// directory that spans more blocks is known as far as its first block
    /// goes.
    ///
    /// Fails with `Io` where the image ends before the descriptor or before a
    /// block that is read, with `InvalidSignature` where the descriptor block
    /// lacks `CD001`, and with `InvalidVolume` where the descriptor block is too
    /// short for its fields or the root directory's records are malformed.
    pub fn open(image: Vec<u8>) -> (volume: Result<IsoFs, IsoError>)
        ensures
            outcome(volume) == opened(image@),
            volume matches Ok(fs) ==> fs.wf(),
    {
        let mut dev = match BlockDevice::open(image) {
            Ok(dev) => dev,
            Err(e) => {
                return Err(e);
            },
        };
        let descriptor = match dev.read_block(DESCRIPTOR_INDEX) {
            Ok(block) => block,
            Err(e) => {
                return Err(e);
            },
        };
        if descriptor.len() < SIGNATURE_END {
            return Err(IsoError::InvalidVolume);
        }
        if !check_signature(descriptor.as_slice()) {
            return Err(IsoError::InvalidSignature);
        }
        if descriptor.len() < ROOT_RECORD_END {
            return Err(IsoError::InvalidVolume);
        }
        let lba: u32 = read_le_u32(descriptor.as_slice(), ROOT_RECORD_OFFSET + EXTENT_OFFSET);
        let data = match dev.read_block(lba) {
            Ok(block) => block,
            Err(e) => {
                return Err(e);
            },
        };
        if !check_directory(data.as_slice()) {
            return Err(IsoError::InvalidVolume);
        }
        let entries = parse_directory(data.as_slice());
        Ok(IsoFs { dev, root: Directory { entries } })
    }

    /// Loads the directory whose extent starts at block `lba` and holds `size`
    /// bytes: reads the blocks that cover the extent and decodes its records.
    ///
    /// Fails with `Io` where the image lacks one of the blocks, and with
    /// `InvalidVolume` where the records are malformed.
    pub fn load_directory(&mut self, lba: u32, size: u32) -> (directory: Result<
        Directory,
        IsoError,
    >)
        requires
            old(self).wf(),
        ensures
            *final(self) == *old(self),
            outcome(directory) == loaded(old(self)@, lba, size),
    {
        let data = match self.dev.read_extent(lba, size) {
            Ok(data) => data,
            Err(e) => {
                return Err(e);
            },
        };
        if !check_directory(data.as_slice()) {
            return Err(IsoError::InvalidVolume);
        }
        Ok(Directory { entries: parse_directory(data.as_slice()) })
    }

    /// Resolves a path to the entry that it names.
    ///
    /// The path loses one leading `/` and is cut at each `/`. Every segment
    /// is looked up, without regard to the case of ASCII letters, in the
    /// directory that the segments before it lead to, the first in the root.
    /// Each directory that is matched is loaded from the image.
    ///
    /// Fails with `NotFound` where a segment matches no entry or follows a
    /// file, and as [`IsoFs::load_directory`] does where a directory cannot be
    /// loaded.
    pub fn find_entry(&mut self, path: &str) -> (found: Result<DirEntry, IsoError>)
        requires
            old(self).wf(),
        ensures
            *final(self) == *old(self),
            outcome(found) == resolved(old(self)@, path@),
    {
        let segments = split_path(path);
        let mut current: Directory = self.root.clone();
        let mut i: usize = 0;
        assert(texts(segments@).skip(0) == texts(segments@));
        loop
            invariant
                *self == *old(self),
                self.wf(),
                i < segments.len(),
                resolved(self@, path@) == walk(
                    self@,
                    path@,
                    current@,
                    texts(segments@).skip(i as int),
                ),
            decreases segments.len() - i,
        {
            assert(texts(segments@).skip(i as int).drop_first() == texts(segments@).skip(i + 1));
            let last: bool = i + 1 == segments.len();
            let entry = match find_in(current.entries.as_slice(), segments[i].as_str()) {
                Some(entry) => entry,
                None => {
                    return Err(IsoError::NotFound(path.to_owned()));
                },
            };
            if entry.is_dir {
                match self.load_directory(entry.lba, entry.size) {
                    Ok(inner) => {
                        if last {
                            return Ok(entry);
                        }
                        current = inner;
                    },
                    Err(e) => {
                        return Err(e);
                    },
                }
            } else if last {
                return Ok(entry);
            } else {
                return Err(IsoError::NotFound(path.to_owned()));
            }
            i = i + 1;
        }
    }

    /// Reads the whole of the file that a path names: the bytes of its extent,
    /// as many as its entry states.
    ///
    /// Fails as [`IsoFs::find_entry`] does, with `NotADirectory` where the path
    /// names a directory, and with `Io` where the image lacks a block of the
    /// file.
    pub fn read_file(&mut self, path: &str) -> (contents: Result<Vec<u8>, IsoError>)
        requires
            old(self).wf(),
        ensures
            *final(self) == *old(self),
            outcome(contents) == file_contents(old(self)@, path@),
    {
        let entry = match self.find_entry(path) {
            Ok(entry) => entry,
            Err(e) => {
                return Err(e);
            },
        };
        if entry.is_dir {
            return Err(IsoError::NotADirectory(path.to_owned()));
        }
        self.dev.read_extent(entry.lba, entry.size)
    }

    /// Lists the entries of the directory that a path names. For the path `/`
    /// these are the entries of the root as they were decoded when the volume
    /// was opened.
    ///
    /// Fails as [`IsoFs::find_entry`] does, with `NotADirectory` where the path
    /// names a file, and as [`IsoFs::load_directory`] does where the directory
    /// cannot be loaded.
    pub fn list_dir(&mut self, path: &str) -> (entries: Result<Vec<DirEntry>, IsoError>)
        requires
            old(self).wf(),
        ensures
            *final(self) == *old(self),
            match entries {
                Ok(list) => listing(old(self)@, path@) == Ok::<Seq<EntryModel>, Failure>(
                    entry_models(list@),
                ),
                Err(e) => listing(old(self)@, path@) == Err::<Seq<EntryModel>, Failure>(e@),
            },
    {
        if path.unicode_len() == 1 && path.get_char(0) == PATH_SEPARATOR {
            return Ok(self.root.clone().entries);
        }
        let entry = match self.find_entry(path) {
            Ok(entry) => entry,
            Err(e) => {
                return Err(e);
            },
        };
        if !entry.is_dir {
            return Err(IsoError::NotADirectory(path.to_owned()));
        }
        match self.load_directory(entry.lba, entry.size) {
            Ok(directory) => Ok(directory.entries),
            Err(e) => Err(e),
        }
    }
}

} // verus!
