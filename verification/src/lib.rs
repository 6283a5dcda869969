//! Block devices, the partition table of a master boot record, and a FAT32
//! file system, for building disk images.
//!
//! - `sector`, `disk`, `ramdisk`: sectors and the devices that hold them.
//! - `partition`: the partition table, and a partition as a device.
//! - `fat`: the file system, from the table of clusters up to files.
//! - `integrity`: what the operations of the file system keep intact.
//! - `contents`: what becomes of a volume when a file is written or a
//!   directory is made.
//! - `fs`: what a file system offers to the program that fills it.
//! - `path`: paths and their components.
//! - `byteorder`: little-endian numbers in bytes.
//! - `size`: sizes written with a unit.

pub mod byteorder;
pub mod contents;
pub mod disk;
pub mod fat;
pub mod fs;
pub mod integrity;
pub mod partition;
pub mod path;
pub mod ramdisk;
pub mod sector;
pub mod size;
