//! Reading FST waveform files.
//!
//! An FST file is a sequence of tagged blocks: a header, sections of value
//! changes, the geometry of the signals and the hierarchy of the design. This
//! library finds its way through the bytes of such a file. It opens the file
//! ([`FstReader::open`]), lists the hierarchy, and delivers the value changes
//! of chosen signals in a window of time.
//!
//! Everything here works on bytes that are already in memory. Each function
//! states in its contract what it returns for every input, as a function of
//! those bytes.

pub mod bitmask;
pub mod blocks;
pub mod boundary;
pub mod compression;
pub mod data;
pub mod delivery;
pub mod filter;
pub mod gzip;
pub mod header;
pub mod hierarchy;
pub mod laws;
pub mod locations;
pub mod pre_start;
pub mod primitives;
pub mod reader;
pub mod section;
pub mod types;
pub mod values;
pub mod wheel;

pub use crate::bitmask::BitMask;
pub use crate::boundary::{RangeBoundaryValues, TimePointValues};
pub use crate::filter::FstFilter;
pub use crate::header::MetaData;
pub use crate::hierarchy::{FstHierarchyEntry, FstVarType};
pub use crate::pre_start::{PreStartRealValue, PreStartSignalValue, PreStartValues};
pub use crate::reader::{is_fst_file, FstHeader, FstReader};
pub use crate::types::{
    BlackoutData, BlockType, DataSectionInfo, DataSectionKind, FileType, FloatingPointEndian,
    FstSignalHandle, HierarchyCompression, InflateError, ReaderError, Result, SignalInfo,
    ValueChangePackType,
};
pub use crate::values::{FstSignalChange, FstSignalValue};
