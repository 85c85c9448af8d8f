//! A read-only FAT32 volume held in memory: the boot sector, sectors and
//! clusters, the allocation table, cluster chains and paths.

pub mod directory;
pub mod interface;
pub mod long_names;
pub mod path;

use vstd::prelude::*;
use vstd::std_specs::cmp::PartialEqSpecImpl;
use vstd::string::StringSliceAdditionalSpecFns;
use vstd::string::StringExecFns;
use vstd::utf8::{decode_utf8, valid_utf8};
use crate::bytes::{copy_range, le_u16, le_u32, read_u16_le, read_u32_le};
use crate::text::decode_utf8_bytes;
use self::directory::directory_listing;
use self::path::{dot, dot_dot, find_entry, find_file, is_absolute, path_segments, segment_views, split_path, DOT, SLASH};

pub use self::directory::{
    list_directory_entries, list_files_names, DirOffsets, FatDir, LfnOffsets, LongFileName,
};

verus! {

/// Why an operation on the volume failed.
#[derive(Clone, Copy, Debug, PartialEq, Eq, Structural)]
pub enum FsError {
    /// A read would pass the end of the disk image, or a cluster chain never
    /// ends inside it.
    OutOfBounds,
    /// A path names something that is not there.
    EntryNotFound,
    /// The file to read is not there.
    FileNotFound,
    /// The path names a directory where a file is needed.
    NotAFile,
    /// The path names a file where a directory is needed.
    NotADirectory,
    /// The body of a file is not UTF-8.
    InvalidEncoding,
    /// The boot sector describes no usable volume.
    MalformedBootSector,
}

impl FsError {
    /// The message shown for this error.
    pub fn message(&self) -> (text: &'static str)
        ensures
            text@ == match *self {
                FsError::OutOfBounds => "Error reading outbound"@,
                FsError::EntryNotFound => "Entry not found"@,
                FsError::FileNotFound => "File not found"@,
                FsError::NotAFile => "Not a file"@,
                FsError::NotADirectory => "Not a directory"@,
                FsError::InvalidEncoding => "Invalid UTF-8 content"@,
                FsError::MalformedBootSector => "Malformed boot sector"@,
            },
    {
        match self {
            FsError::OutOfBounds => "Error reading outbound",
            FsError::EntryNotFound => "Entry not found",
            FsError::FileNotFound => "File not found",
            FsError::NotAFile => "Not a file",
            FsError::NotADirectory => "Not a directory",
            FsError::InvalidEncoding => "Invalid UTF-8 content",
            FsError::MalformedBootSector => "Malformed boot sector",
        }
    }
}

/// A file or a directory, as a listing shows it.
#[derive(Debug)]
pub struct FileInfo {
    /// The long name where the entry has a valid one, else the 8.3 name.
    pub name: String,
    /// Whether the entry is a directory.
    pub is_directory: bool,
    /// The size in bytes; 0 for a directory.
    pub size: u32,
    /// The first cluster of the entry's chain.
    pub start_cluster: u32,
}

/// What a [`FileInfo`] holds, with the name as a sequence of characters.
pub struct FileInfoView {
    pub name: Seq<char>,
    pub is_directory: bool,
    pub size: u32,
    pub start_cluster: u32,
}

impl View for FileInfo {
    type V = FileInfoView;

    open spec fn view(&self) -> FileInfoView {
        FileInfoView {
            name: self.name@,
            is_directory: self.is_directory,
            size: self.size,
            start_cluster: self.start_cluster,
        }
    }
}

impl FileInfo {
    /// Puts the four fields together.
    pub fn new(name: String, is_directory: bool, size: u32, start_cluster: u32) -> (info: FileInfo)
        ensures
            info.name == name,
            info.is_directory == is_directory,
            info.size == size,
            info.start_cluster == start_cluster,
    {
        FileInfo { name, is_directory, size, start_cluster }
    }
}

impl Clone for FileInfo {
    fn clone(&self) -> (copy: FileInfo)
        ensures
            copy@ == self@,
    {
        FileInfo {
            name: self.name.clone(),
            is_directory: self.is_directory,
            size: self.size,
            start_cluster: self.start_cluster,
        }
    }
}

impl PartialEq for FileInfo {
    fn eq(&self, other: &FileInfo) -> (same: bool) {
        self.name == other.name && self.is_directory == other.is_directory && self.size
            == other.size && self.start_cluster == other.start_cluster
    }
}

impl PartialEqSpecImpl for FileInfo {
    open spec fn obeys_eq_spec() -> bool {
        true
    }

    open spec fn eq_spec(&self, other: &FileInfo) -> bool {
        self.name@ == other.name@ && self.is_directory == other.is_directory && self.size
            == other.size && self.start_cluster == other.start_cluster
    }
}

/// The views of a list of entries.
pub open spec fn info_views(infos: Seq<FileInfo>) -> Seq<FileInfoView> {
    infos.map_values(|info: FileInfo| info@)
}

/// Where the fields of the boot sector stand.
pub enum BootOffsets {
    BytsPerSec,
    SecPerClus,
    RsvdSecCnt,
    NumFATs,
    FATSz32,
    RootClus,
}

impl BootOffsets {
    /// The byte offset of the field in the boot sector.
    pub open spec fn spec_offset(self) -> int {
        match self {
            BootOffsets::BytsPerSec => 11,
            BootOffsets::SecPerClus => 13,
            BootOffsets::RsvdSecCnt => 14,
            BootOffsets::NumFATs => 16,
            BootOffsets::FATSz32 => 36,
            BootOffsets::RootClus => 44,
        }
    }

    /// The byte offset of the field in the boot sector.
    pub fn offset(&self) -> (off: usize)
        ensures
            off == self.spec_offset(),
    {
        match self {
            BootOffsets::BytsPerSec => 11,
            BootOffsets::SecPerClus => 13,
            BootOffsets::RsvdSecCnt => 14,
            BootOffsets::NumFATs => 16,
            BootOffsets::FATSz32 => 36,
            BootOffsets::RootClus => 44,
        }
    }
}

/// The length of the part of the boot sector that holds the geometry.
pub const BOOT_FIELDS_END: usize = 48;

/// The mask that keeps the 28 meaningful bits of an allocation table entry.
pub const FAT_ENTRY_MASK: u32 = 0x0FFF_FFFF;

/// The least allocation table entry that ends a chain.
pub const END_OF_CHAIN: u32 = 0x0FFF_FFF8;

/// Whether `v` is one of 1, 2, 4, ..., 32768.
pub open spec fn is_power_of_two(v: u16) -> bool {
    v != 0 && v & ((v - 1) as u16) == 0
}

/// The first sector of the data region that a boot sector describes: the
/// reserved sectors, then the allocation tables.
pub open spec fn boot_data_sector(disk: Seq<u8>) -> int {
    le_u16(disk, 14) + (disk[16] as int) * le_u32(disk, 36)
}

/// Whether the image starts with a boot sector that describes a usable
/// volume: the geometry fields are all there, the sector size is a power of
/// two, the root directory is a cluster of the data region, and the data
/// region starts at a sector that 32 bits can number.
pub open spec fn valid_boot_sector(disk: Seq<u8>) -> bool {
    &&& disk.len() >= BOOT_FIELDS_END
    &&& is_power_of_two(le_u16(disk, 11) as u16)
    &&& le_u32(disk, 44) >= 2
    &&& boot_data_sector(disk) <= u32::MAX
}

/// A FAT32 volume: the disk image and the geometry read from its boot sector.
#[derive(Debug)]
pub struct Fat32FileSystem {
    /// The raw image.
    pub disk: Box<[u8]>,
    /// Bytes in a sector.
    pub bytes_per_sector: u32,
    /// Sectors in a cluster.
    pub sectors_per_cluster: u32,
    /// The first sector of the allocation table.
    pub fat_sector: u32,
    /// The first sector of the data region.
    pub data_sector: u32,
    /// The cluster of the root directory.
    pub root_cluster: u32,
}

impl Fat32FileSystem {
    /// Whether sector `address` lies inside the image.
    pub open spec fn sector_in_image(&self, address: u32) -> bool {
        address * self.bytes_per_sector + self.bytes_per_sector <= self.disk@.len()
    }

    /// The bytes of sector `address`.
    pub open spec fn sector_bytes(&self, address: u32) -> Seq<u8> {
        self.disk@.subrange(
            address * self.bytes_per_sector,
            address * self.bytes_per_sector + self.bytes_per_sector,
        )
    }

    /// The number of bytes in a cluster.
    pub open spec fn cluster_size(&self) -> int {
        self.sectors_per_cluster * self.bytes_per_sector
    }

    /// The byte at which cluster `cluster_id` starts: clusters are numbered
    /// from 2 and follow each other from the start of the data region.
    pub open spec fn cluster_start(&self, cluster_id: u32) -> int {
        (self.data_sector + (cluster_id - 2) * self.sectors_per_cluster) * self.bytes_per_sector
    }

    /// Whether `cluster_id` is a cluster of the data region that lies inside
    /// the image.
    pub open spec fn cluster_in_image(&self, cluster_id: u32) -> bool {
        cluster_id >= 2 && self.cluster_start(cluster_id) + self.cluster_size()
            <= self.disk@.len()
    }

    /// The bytes of cluster `cluster_id`: its sectors, which are adjacent.
    pub open spec fn cluster_bytes(&self, cluster_id: u32) -> Seq<u8> {
        self.disk@.subrange(
            self.cluster_start(cluster_id),
            self.cluster_start(cluster_id) + self.cluster_size(),
        )
    }

    /// The byte at which the allocation table entry of `cluster_id` starts.
    pub open spec fn fat_entry_offset(&self, cluster_id: u32) -> int {
        self.fat_sector * self.bytes_per_sector + cluster_id * 4
    }

    /// Whether the allocation table entry of `cluster_id` lies inside the
    /// image.
    pub open spec fn fat_entry_in_image(&self, cluster_id: u32) -> bool {
        self.fat_entry_offset(cluster_id) + 4 <= self.disk@.len()
    }

    /// The allocation table entry of `cluster_id`: the low 28 bits of the
    /// little-endian word stored for it.
    pub open spec fn fat_entry(&self, cluster_id: u32) -> int {
        le_u32(self.disk@, self.fat_entry_offset(cluster_id)) % 0x1000_0000
    }

    fn read_u16(d: &[u8], off: BootOffsets) -> (v: u16)
        requires
            d@.len() >= BOOT_FIELDS_END,
        ensures
            v as int == le_u16(d@, off.spec_offset()),
    {
        read_u16_le(d, off.offset())
    }

    fn read_u32(d: &[u8], off: BootOffsets) -> (v: u32)
        requires
            d@.len() >= BOOT_FIELDS_END,
        ensures
            v as int == le_u32(d@, off.spec_offset()),
    {
        read_u32_le(d, off.offset())
    }

    /// Reads the geometry of the volume from the boot sector of `disk`.
    ///
    /// Fails with `MalformedBootSector` exactly when the image has no valid
    /// boot sector.
    pub fn new(disk: Box<[u8]>) -> (r: Result<Fat32FileSystem, FsError>)
        ensures
            match r {
                Ok(fs) => {
                    &&& valid_boot_sector(disk@)
                    &&& fs.disk@ == disk@
                    &&& fs.bytes_per_sector == le_u16(disk@, 11)
                    &&& fs.sectors_per_cluster == disk@[13]
                    &&& fs.fat_sector == le_u16(disk@, 14)
                    &&& fs.data_sector == boot_data_sector(disk@)
                    &&& fs.root_cluster == le_u32(disk@, 44)
                },
                Err(e) => e == FsError::MalformedBootSector && !valid_boot_sector(disk@),
            },
    {
        if disk.len() < BOOT_FIELDS_END {
            return Err(FsError::MalformedBootSector);
        }
        let sector_size: u16 = Self::read_u16(&disk, BootOffsets::BytsPerSec);
        let sectors_per_cluster: u32 = disk[BootOffsets::SecPerClus.offset()] as u32;
        let reserved_sectors_count: u32 = Self::read_u16(&disk, BootOffsets::RsvdSecCnt) as u32;
        let num_fats: u32 = disk[BootOffsets::NumFATs.offset()] as u32;
        let sectors_per_fat: u32 = Self::read_u32(&disk, BootOffsets::FATSz32);
        let root_cluster: u32 = Self::read_u32(&disk, BootOffsets::RootClus);

        if sector_size == 0 || sector_size & (sector_size - 1) != 0 || root_cluster < 2 {
            return Err(FsError::MalformedBootSector);
        }
        assert(num_fats as u64 * sectors_per_fat as u64 <= 255 * 0xFFFF_FFFF) by (nonlinear_arith)
            requires
                num_fats <= 255,
                sectors_per_fat <= 0xFFFF_FFFF,
        ;
        let data_sector: u64 = reserved_sectors_count as u64 + num_fats as u64
            * sectors_per_fat as u64;
        if data_sector > u32::MAX as u64 {
            return Err(FsError::MalformedBootSector);
        }
        Ok(
            Fat32FileSystem {
                disk,
                bytes_per_sector: sector_size as u32,
                sectors_per_cluster,
                fat_sector: reserved_sectors_count,
                data_sector: data_sector as u32,
                root_cluster,
            },
        )
    }

    /// Reads sector `address`.
    ///
    /// Fails with `OutOfBounds` exactly when the sector does not lie inside
    /// the image.
    pub fn read_sector(&self, address: u32) -> (r: Result<Vec<u8>, FsError>)
        ensures
            match r {
                Ok(bytes) => self.sector_in_image(address) && bytes@ == self.sector_bytes(address),
                Err(e) => e == FsError::OutOfBounds && !self.sector_in_image(address),
            },
    {
        assert(address as u64 * self.bytes_per_sector as u64 <= 0xFFFF_FFFF * 0xFFFF_FFFF)
            by (nonlinear_arith)
            requires
                address <= 0xFFFF_FFFF,
                self.bytes_per_sector <= 0xFFFF_FFFF,
        ;
        let offset: u64 = address as u64 * self.bytes_per_sector as u64;
        let end: u64 = offset + self.bytes_per_sector as u64;
        if end > self.disk.len() as u64 {
            return Err(FsError::OutOfBounds);
        }
        Ok(copy_range(&self.disk, offset as usize, end as usize))
    }

    /// Reads cluster `cluster_id`, all its sectors.
    ///
    /// Fails with `OutOfBounds` exactly when `cluster_id` is below 2, where
    /// the data region has no cluster, or the cluster does not lie inside
    /// the image.
    pub fn read_cluster(&self, cluster_id: u32) -> (r: Result<Vec<u8>, FsError>)
        ensures
            match r {
                Ok(bytes) => self.cluster_in_image(cluster_id) && bytes@ == self.cluster_bytes(
                    cluster_id,
                ),
                Err(e) => e == FsError::OutOfBounds && !self.cluster_in_image(cluster_id),
            },
    {
        if cluster_id < 2 {
            return Err(FsError::OutOfBounds);
        }
        let index: u64 = (cluster_id - 2) as u64;
        let per_cluster: u64 = self.sectors_per_cluster as u64;
        let sector_size: u128 = self.bytes_per_sector as u128;
        assert(index * per_cluster <= 0xFFFF_FFFF * 0xFFFF_FFFF) by (nonlinear_arith)
            requires
                index <= 0xFFFF_FFFF,
                per_cluster <= 0xFFFF_FFFF,
        ;
        let first_sector: u64 = self.data_sector as u64 + index * per_cluster;
        assert(first_sector as u128 * sector_size <= 0xFFFF_FFFF_FFFF_FFFF * 0xFFFF_FFFF)
            by (nonlinear_arith)
            requires
                first_sector <= 0xFFFF_FFFF_FFFF_FFFF,
                sector_size <= 0xFFFF_FFFF,
        ;
        assert(per_cluster as u128 * sector_size <= 0xFFFF_FFFF * 0xFFFF_FFFF) by (nonlinear_arith)
            requires
                per_cluster <= 0xFFFF_FFFF,
                sector_size <= 0xFFFF_FFFF,
        ;
        let start: u128 = first_sector as u128 * sector_size;
        let end: u128 = start + per_cluster as u128 * sector_size;
        if end > self.disk.len() as u128 {
            return Err(FsError::OutOfBounds);
        }
        Ok(copy_range(&self.disk, start as usize, end as usize))
    }

    /// Reads the allocation table entry of `cluster_id`: the cluster that
    /// follows it in its chain, or a value from `END_OF_CHAIN` up.
    ///
    /// Fails with `OutOfBounds` exactly when the entry does not lie inside
    /// the image.
    pub fn read_fat_entry(&self, cluster_id: u32) -> (r: Result<u32, FsError>)
        ensures
            match r {
                Ok(next) => self.fat_entry_in_image(cluster_id) && next == self.fat_entry(
                    cluster_id,
                ),
                Err(e) => e == FsError::OutOfBounds && !self.fat_entry_in_image(cluster_id),
            },
    {
        assert(self.fat_sector as u128 * self.bytes_per_sector as u128 <= 0xFFFF_FFFF
            * 0xFFFF_FFFF) by (nonlinear_arith)
            requires
                self.fat_sector <= 0xFFFF_FFFF,
                self.bytes_per_sector <= 0xFFFF_FFFF,
        ;
        let offset: u128 = self.fat_sector as u128 * self.bytes_per_sector as u128
            + cluster_id as u128 * 4;
        if offset + 4 > self.disk.len() as u128 {
            return Err(FsError::OutOfBounds);
        }
        let entry: u32 = read_u32_le(&self.disk, offset as usize);
        assert(entry & 0x0FFF_FFFF == entry % 0x1000_0000) by (bit_vector);
        Ok(entry & FAT_ENTRY_MASK)
    }

    /// What the directory in cluster `cluster_id` lists.
    pub open spec fn directory(&self, cluster_id: u32) -> Seq<FileInfoView> {
        directory_listing(self.cluster_bytes(cluster_id))
    }

    /// The cluster of the parent of the directory in `cluster_id`, by its
    /// entry `..`; a parent stored as 0 is the root directory. The root
    /// directory has none.
    pub open spec fn parent_of(&self, cluster_id: u32) -> Option<u32> {
        if cluster_id == self.root_cluster {
            None
        } else {
            match find_entry(self.directory(cluster_id), dot_dot()) {
                None => None,
                Some(parent) => Some(
                    if parent.start_cluster == 0 {
                        self.root_cluster
                    } else {
                        parent.start_cluster
                    },
                ),
            }
        }
    }

    /// The entry that stands for the parent directory where a path ends
    /// in `..`.
    pub open spec fn parent_entry(cluster_id: u32) -> FileInfoView {
        FileInfoView { name: seq!['.', '.'], is_directory: true, size: 0, start_cluster: cluster_id }
    }

    /// The entry that the segments lead to from the directory in
    /// `cluster_id`, one directory after the other. `Ok(None)` where a
    /// segment names nothing, where a segment before the last names a file,
    /// and where the walk ends on `.` or on no segment at all;
    /// `Err(OutOfBounds)` where a directory on the way does not lie inside
    /// the image.
    pub open spec fn resolve(&self, cluster_id: u32, segments: Seq<Seq<u8>>) -> Result<
        Option<FileInfoView>,
        FsError,
    >
        decreases segments.len(),
    {
        if segments.len() == 0 {
            Ok(None)
        } else if !self.cluster_in_image(cluster_id) {
            Err(FsError::OutOfBounds)
        } else {
            let rest = segments.drop_first();
            if segments[0] == dot() {
                self.resolve(cluster_id, rest)
            } else if segments[0] == dot_dot() {
                match self.parent_of(cluster_id) {
                    None => Ok(None),
                    Some(parent) => if rest.len() == 0 {
                        Ok(Some(Self::parent_entry(parent)))
                    } else {
                        self.resolve(parent, rest)
                    },
                }
            } else {
                match find_entry(self.directory(cluster_id), segments[0]) {
                    None => Ok(None),
                    Some(file) => if rest.len() == 0 {
                        Ok(Some(file))
                    } else if !file.is_directory {
                        Ok(None)
                    } else {
                        self.resolve(file.start_cluster, rest)
                    },
                }
            }
        }
    }

    /// The cluster at which the walk along `path` starts: the root
    /// directory for an absolute path and where there is no current
    /// directory, else the current directory.
    pub open spec fn start_of(&self, path: Seq<u8>, current_cluster: Option<u32>) -> u32 {
        if is_absolute(path) {
            self.root_cluster
        } else {
            match current_cluster {
                Some(cluster) => cluster,
                None => self.root_cluster,
            }
        }
    }

    /// The entry that `path` names.
    pub open spec fn resolve_path(&self, path: Seq<u8>, current_cluster: Option<u32>) -> Result<
        Option<FileInfoView>,
        FsError,
    > {
        self.resolve(self.start_of(path, current_cluster), path_segments(path))
    }

    /// The most clusters that a chain can have: each cluster of a chain has
    /// an allocation table entry of its own inside the image, four bytes
    /// long.
    pub open spec fn chain_limit(&self) -> nat {
        (self.disk@.len() / 4 + 1) as nat
    }

    /// The bytes of the clusters of the chain that starts at `cluster_id`,
    /// as far as it has at most `limit` clusters, all inside the image with
    /// their allocation table entries; `None` for any other chain.
    pub open spec fn chain_bytes(&self, cluster_id: u32, limit: nat) -> Option<Seq<u8>>
        decreases limit,
    {
        if limit == 0 || !self.cluster_in_image(cluster_id) || !self.fat_entry_in_image(
            cluster_id,
        ) {
            None
        } else if self.fat_entry(cluster_id) >= END_OF_CHAIN {
            Some(self.cluster_bytes(cluster_id))
        } else {
            match self.chain_bytes(self.fat_entry(cluster_id) as u32, (limit - 1) as nat) {
                Some(rest) => Some(self.cluster_bytes(cluster_id) + rest),
                None => None,
            }
        }
    }

    /// The body of a file: the bytes of its chain, cut to its size.
    pub open spec fn file_bytes(&self, file: FileInfoView) -> Option<Seq<u8>> {
        match self.chain_bytes(file.start_cluster, self.chain_limit()) {
            Some(all) => Some(
                if file.size <= all.len() {
                    all.take(file.size as int)
                } else {
                    all
                },
            ),
            None => None,
        }
    }

    /// The text of the file that `path` names, or why there is none.
    pub open spec fn file_text(&self, path: Seq<u8>, current_cluster: Option<u32>) -> Result<
        Seq<char>,
        FsError,
    > {
        match self.resolve_path(path, current_cluster) {
            Err(e) => Err(e),
            Ok(None) => Err(FsError::FileNotFound),
            Ok(Some(file)) => if file.is_directory {
                Err(FsError::NotAFile)
            } else {
                match self.file_bytes(file) {
                    None => Err(FsError::OutOfBounds),
                    Some(body) => if valid_utf8(body) {
                        Ok(decode_utf8(body))
                    } else {
                        Err(FsError::InvalidEncoding)
                    },
                }
            },
        }
    }

    /// Finds the parent of the directory in `current_cluster` by its
    /// entry `..`.
    ///
    /// Fails with `OutOfBounds` exactly when the directory is not the root
    /// and does not lie inside the image.
    pub fn find_parent_cluster(&self, current_cluster: u32) -> (r: Result<Option<u32>, FsError>)
        ensures
            match r {
                Ok(parent) => parent == self.parent_of(current_cluster) && (current_cluster
                    == self.root_cluster || self.cluster_in_image(current_cluster)),
                Err(e) => e == FsError::OutOfBounds && current_cluster != self.root_cluster
                    && !self.cluster_in_image(current_cluster),
            },
    {
        if current_cluster == self.root_cluster {
            return Ok(None);
        }
        let files = match list_directory_entries(self, current_cluster) {
            Ok(files) => files,
            Err(e) => {
                return Err(e);
            },
        };
        let name: [u8; 2] = [DOT, DOT];
        assert(name@ =~= dot_dot());
        match find_file(&files, name.as_slice()) {
            None => Ok(None),
            Some(place) => {
                assert(info_views(files@)[place as int] == files@[place as int]@);
                let parent = &files[place];
                Ok(
                    Some(
                        if parent.start_cluster == 0 {
                            self.root_cluster
                        } else {
                            parent.start_cluster
                        },
                    ),
                )
            },
        }
    }

    /// Finds the entry that `path` names, walking from the root directory
    /// for an absolute path, else from `current_cluster`, or from the root
    /// where there is none.
    ///
    /// `Ok(None)` where the path names nothing; `Err(OutOfBounds)` where a
    /// directory on the way does not lie inside the image.
    pub fn parse_path(&self, path: &str, current_cluster: Option<u32>) -> (r: Result<
        Option<FileInfo>,
        FsError,
    >)
        ensures
            self.resolve_path(path.spec_bytes(), current_cluster) == (match r {
                Ok(Some(file)) => Ok(Some(file@)),
                Ok(None) => Ok(None),
                Err(e) => Err(e),
            }),
    {
        let bytes = path.as_bytes();
        let mut cluster: u32 = if bytes.len() > 0 && bytes[0] == SLASH {
            self.root_cluster
        } else {
            match current_cluster {
                Some(current) => current,
                None => self.root_cluster,
            }
        };
        let parts = split_path(bytes);
        let ghost segments = segment_views(parts@);
        let mut i: usize = 0;
        assert(segments.skip(0) =~= segments);
        while i < parts.len()
            invariant
                i <= parts@.len(),
                segments == segment_views(parts@),
                self.resolve_path(path.spec_bytes(), current_cluster) == self.resolve(
                    cluster,
                    segments.skip(i as int),
                ),
            decreases parts@.len() - i,
        {
            let ghost here = segments.skip(i as int);
            assert(here.drop_first() =~= segments.skip(i + 1));
            assert(here[0] == parts@[i as int]@);
            let last = i == parts.len() - 1;
            assert(last <==> here.drop_first().len() == 0);
            let files = match list_directory_entries(self, cluster) {
                Ok(files) => files,
                Err(e) => {
                    return Err(e);
                },
            };
            let part = parts[i].as_slice();
            if part.len() == 1 && part[0] == DOT {
                assert(part@ =~= dot());
            } else if part.len() == 2 && part[0] == DOT && part[1] == DOT {
                assert(part@ =~= dot_dot());
                assert(part@ != dot());
                match self.find_parent_cluster(cluster) {
                    Err(e) => {
                        return Err(e);
                    },
                    Ok(None) => {
                        return Ok(None);
                    },
                    Ok(Some(parent)) => {
                        cluster = parent;
                        if last {
                            proof {
                                reveal_strlit("..");
                                assert(".."@ =~= seq!['.', '.']);
                            }
                            return Ok(
                                Some(FileInfo::new(String::from_str(".."), true, 0, cluster)),
                            );
                        }
                    },
                }
            } else {
                assert(part@ != dot()) by {
                    if part@ == dot() {
                        assert(part@.len() == 1 && part@[0] == DOT);
                    }
                }
                assert(part@ != dot_dot()) by {
                    if part@ == dot_dot() {
                        assert(part@.len() == 2 && part@[0] == DOT && part@[1] == DOT);
                    }
                }
                match find_file(&files, part) {
                    None => {
                        return Ok(None);
                    },
                    Some(place) => {
                        assert(info_views(files@)[place as int] == files@[place as int]@);
                        let file = files[place].clone();
                        if last {
                            return Ok(Some(file));
                        }
                        if !file.is_directory {
                            return Ok(None);
                        }
                        cluster = file.start_cluster;
                    },
                }
            }
            i += 1;
        }
        Ok(None)
    }

    /// Reads the chain of clusters that starts at `start_cluster`, up to
    /// the entry of the allocation table that ends it.
    ///
    /// Fails with `OutOfBounds` exactly when a cluster of the chain or its
    /// allocation table entry does not lie inside the image, or the chain
    /// has more clusters than the image has room for.
    pub fn read_chain(&self, start_cluster: u32) -> (r: Result<Vec<u8>, FsError>)
        ensures
            match r {
                Ok(data) => self.chain_bytes(start_cluster, self.chain_limit()) == Some(data@),
                Err(e) => e == FsError::OutOfBounds && self.chain_bytes(
                    start_cluster,
                    self.chain_limit(),
                ) is None,
            },
    {
        let limit: usize = self.disk.len() / 4 + 1;
        let mut data: Vec<u8> = Vec::new();
        let mut cluster: u32 = start_cluster;
        let mut left: usize = limit;
        let mut done: bool = false;
        assert(Seq::<u8>::empty() + self.chain_bytes(cluster, left as nat).unwrap()
            =~= self.chain_bytes(cluster, left as nat).unwrap());
        while !done
            invariant
                !done ==> (match self.chain_bytes(cluster, left as nat) {
                    Some(rest) => self.chain_bytes(start_cluster, self.chain_limit()) == Some(
                        data@ + rest,
                    ),
                    None => self.chain_bytes(start_cluster, self.chain_limit()) is None,
                }),
                done ==> self.chain_bytes(start_cluster, self.chain_limit()) == Some(data@),
            decreases left + (if done { 0int } else { 1int }),
        {
            if left == 0 {
                return Err(FsError::OutOfBounds);
            }
            let mut bytes = match self.read_cluster(cluster) {
                Ok(bytes) => bytes,
                Err(e) => {
                    return Err(e);
                },
            };
            let next = match self.read_fat_entry(cluster) {
                Ok(next) => next,
                Err(e) => {
                    return Err(e);
                },
            };
            let ghost before = data@;
            data.append(&mut bytes);
            if next >= END_OF_CHAIN {
                done = true;
            } else {
                proof {
                    let rest = self.chain_bytes(next, (left - 1) as nat);
                    if rest is Some {
                        assert(before + (self.cluster_bytes(cluster) + rest.unwrap()) =~= (before
                            + self.cluster_bytes(cluster)) + rest.unwrap());
                    }
                }
                cluster = next;
                left -= 1;
            }
        }
        Ok(data)
    }

    /// Reads the text of the file that `path` names.
    ///
    /// Fails with `FileNotFound` where the path names nothing, `NotAFile`
    /// where it names a directory, `OutOfBounds` where a directory on the
    /// way or the chain of the file does not lie inside the image, and
    /// `InvalidEncoding` where the body is not UTF-8.
    pub fn read_file(&self, path: &str, current_cluster: Option<u32>) -> (r: Result<
        String,
        FsError,
    >)
        ensures
            self.file_text(path.spec_bytes(), current_cluster) == (match r {
                Ok(text) => Ok(text@),
                Err(e) => Err(e),
            }),
    {
        let file = match self.parse_path(path, current_cluster) {
            Err(e) => {
                return Err(e);
            },
            Ok(None) => {
                return Err(FsError::FileNotFound);
            },
            Ok(Some(file)) => file,
        };
        if file.is_directory {
            return Err(FsError::NotAFile);
        }
        let mut data = match self.read_chain(file.start_cluster) {
            Ok(data) => data,
            Err(e) => {
                return Err(e);
            },
        };
        data.truncate(file.size as usize);
        match decode_utf8_bytes(data) {
            Some(text) => Ok(text),
            None => Err(FsError::InvalidEncoding),
        }
    }
}

/// A path can be walked in steps: where the first segments lead to a
/// directory, the whole path leads to what the other segments lead to from
/// that directory.
pub proof fn lemma_resolve_in_steps(
    fs: Fat32FileSystem,
    cluster_id: u32,
    first: Seq<Seq<u8>>,
    rest: Seq<Seq<u8>>,
    dir: FileInfoView,
)
    requires
        rest.len() > 0,
        fs.resolve(cluster_id, first) == Ok::<Option<FileInfoView>, FsError>(Some(dir)),
        dir.is_directory,
    ensures
        fs.resolve(cluster_id, first + rest) == fs.resolve(dir.start_cluster, rest),
    decreases first.len(),
{
    let whole = first + rest;
    assert(first.len() > 0);
    assert(whole[0] == first[0]);
    assert(whole.drop_first() =~= first.drop_first() + rest);
    let tail = first.drop_first();
    if tail.len() == 0 {
        assert(whole.drop_first() =~= rest);
    }
    if first[0] == dot() {
        lemma_resolve_in_steps(fs, cluster_id, tail, rest, dir);
    } else if first[0] == dot_dot() {
        let parent = fs.parent_of(cluster_id).unwrap();
        if tail.len() > 0 {
            lemma_resolve_in_steps(fs, parent, tail, rest, dir);
        }
    } else {
        let file = find_entry(fs.directory(cluster_id), first[0]).unwrap();
        if tail.len() > 0 {
            lemma_resolve_in_steps(fs, file.start_cluster, tail, rest, dir);
        }
    }
}

/// The same of paths as text: where `head` names a directory, `head`, a
/// `/` and a relative path `tail` name what `tail` names from that
/// directory.
pub proof fn lemma_parse_path_in_steps(
    fs: Fat32FileSystem,
    head: Seq<u8>,
    tail: Seq<u8>,
    current_cluster: Option<u32>,
    dir: FileInfoView,
)
    requires
        fs.resolve_path(head, current_cluster) == Ok::<Option<FileInfoView>, FsError>(Some(dir)),
        dir.is_directory,
        !is_absolute(tail),
        path_segments(tail).len() > 0,
    ensures
        fs.resolve_path(head + seq![SLASH] + tail, current_cluster) == fs.resolve_path(
            tail,
            Some(dir.start_cluster),
        ),
{
    let joined = head + seq![SLASH] + tail;
    self::path::lemma_segments_of_joined(head, tail);
    assert(head.len() > 0);
    assert(joined[0] == head[0]);
    lemma_resolve_in_steps(
        fs,
        fs.start_of(head, current_cluster),
        path_segments(head),
        path_segments(tail),
        dir,
    );
}

/// The text of a file has as many bytes as its entry says, where its chain
/// holds that many.
pub proof fn lemma_file_text_length(
    fs: Fat32FileSystem,
    path: Seq<u8>,
    current_cluster: Option<u32>,
    file: FileInfoView,
    text: Seq<char>,
)
    requires
        fs.resolve_path(path, current_cluster) == Ok::<Option<FileInfoView>, FsError>(Some(file)),
        fs.file_text(path, current_cluster) == Ok::<Seq<char>, FsError>(text),
        fs.chain_bytes(file.start_cluster, fs.chain_limit()).unwrap().len() >= file.size,
    ensures
        vstd::utf8::encode_utf8(text).len() == file.size,
{
    let body = fs.file_bytes(file).unwrap();
    vstd::utf8::decode_utf8_encode_utf8(body);
}

} // verus!
