//! The small types that the rest of the library speaks of.

use vstd::prelude::*;

verus! {

/// Why the inflater gave up, as `miniz_oxide` reports it.
#[derive(Clone, Copy, PartialEq, Eq, Structural, Debug)]
pub enum InflateError {
    /// No progress was possible: the stream is cut short.
    Buf,
    /// The compressed data is corrupt.
    Data,
    /// The stream was used in a wrong way.
    Stream,
    /// A code that inflation does not give.
    Other,
}

/// Everything that can go wrong while reading a file.
#[derive(Clone, Copy, PartialEq, Eq, Structural, Debug)]
pub enum ReaderError {
    /// A read went past the end of the input.
    Io,
    /// A variable-length integer has too many bytes.
    ParseVariant,
    /// The tag of a block is not one of the known tags.
    BlockType,
    /// A text is not valid UTF-8.
    Utf8,
    /// A text is longer than the format allows.
    CString,
    /// The endianness mark in the header is not the number e.
    FloatEndian,
    /// The file type in the header is not one of the known types.
    FileType,
    /// The tag of a hierarchy entry is not one of the known tags.
    HierarchyType,
    /// A gzip stream does not begin as expected.
    GZipHeader,
    /// The body of a gzip stream could not be inflated.
    GZipBody(InflateError),
    /// A zlib stream could not be inflated to its declared length.
    Zlib,
    /// An LZ4 block could not be decompressed to its declared length.
    Lz4,
    /// The value changes are packed with FastLZ, which this library does not unpack.
    FastLz,
    /// The file is still being compressed into its gzip wrapper.
    NotFinishedCompressing,
    /// There is no header block.
    MissingHeader,
    /// There is no geometry block.
    MissingGeometry,
    /// There is no hierarchy block.
    MissingHierarchy,
    /// The parts of the file contradict each other.
    Malformed,
}

pub type Result<T> = std::result::Result<T, ReaderError>;

/// The tag in front of each block.
#[derive(Clone, Copy, PartialEq, Eq, Structural, Debug)]
pub enum BlockType {
    Header,
    VcData,
    Blackout,
    Geometry,
    Hierarchy,
    VcDataDynamicAlias,
    HierarchyLZ4,
    HierarchyLZ4Duo,
    VcDataDynamicAlias2,
    GZipWrapper,
    Skip,
}

/// The block type with tag `tag`.
pub open spec fn block_type(tag: u8) -> Option<BlockType> {
    if tag == 0 {
        Some(BlockType::Header)
    } else if tag == 1 {
        Some(BlockType::VcData)
    } else if tag == 2 {
        Some(BlockType::Blackout)
    } else if tag == 3 {
        Some(BlockType::Geometry)
    } else if tag == 4 {
        Some(BlockType::Hierarchy)
    } else if tag == 5 {
        Some(BlockType::VcDataDynamicAlias)
    } else if tag == 6 {
        Some(BlockType::HierarchyLZ4)
    } else if tag == 7 {
        Some(BlockType::HierarchyLZ4Duo)
    } else if tag == 8 {
        Some(BlockType::VcDataDynamicAlias2)
    } else if tag == 254 {
        Some(BlockType::GZipWrapper)
    } else if tag == 255 {
        Some(BlockType::Skip)
    } else {
        None
    }
}

impl BlockType {
    pub fn from_u8(tag: u8) -> (r: Option<BlockType>)
        ensures
            r == block_type(tag),
    {
        match tag {
            0 => Some(BlockType::Header),
            1 => Some(BlockType::VcData),
            2 => Some(BlockType::Blackout),
            3 => Some(BlockType::Geometry),
            4 => Some(BlockType::Hierarchy),
            5 => Some(BlockType::VcDataDynamicAlias),
            6 => Some(BlockType::HierarchyLZ4),
            7 => Some(BlockType::HierarchyLZ4Duo),
            8 => Some(BlockType::VcDataDynamicAlias2),
            254 => Some(BlockType::GZipWrapper),
            255 => Some(BlockType::Skip),
            _ => None,
        }
    }
}

/// How a data section stores the locations of its signals.
#[derive(Clone, Copy, PartialEq, Eq, Structural, Debug)]
pub enum DataSectionKind {
    Standard,
    DynamicAlias,
    DynamicAlias2,
}

/// The kind of data section that a block of type `tpe` holds, if it holds one.
pub open spec fn section_kind(tpe: BlockType) -> Option<DataSectionKind> {
    match tpe {
        BlockType::VcData => Some(DataSectionKind::Standard),
        BlockType::VcDataDynamicAlias => Some(DataSectionKind::DynamicAlias),
        BlockType::VcDataDynamicAlias2 => Some(DataSectionKind::DynamicAlias2),
        _ => None,
    }
}

impl DataSectionKind {
    pub fn from_block_type(tpe: &BlockType) -> (r: Option<DataSectionKind>)
        ensures
            r == section_kind(*tpe),
    {
        match tpe {
            BlockType::VcData => Some(DataSectionKind::Standard),
            BlockType::VcDataDynamicAlias => Some(DataSectionKind::DynamicAlias),
            BlockType::VcDataDynamicAlias2 => Some(DataSectionKind::DynamicAlias2),
            _ => None,
        }
    }
}

/// Where a data section lies and which times it covers.
#[derive(Clone, Copy, PartialEq, Eq, Structural, Debug)]
pub struct DataSectionInfo {
    /// Offset of the section's length field from the start of the file.
    pub file_offset: u64,
    pub start_time: u64,
    pub end_time: u64,
    pub kind: DataSectionKind,
    pub mem_required_for_traversal: u64,
}

/// How the hierarchy is stored.
#[derive(Clone, Copy, PartialEq, Eq, Structural, Debug)]
pub enum HierarchyCompression {
    ZLib,
    Lz4,
    Lz4Duo,
    Uncompressed,
}

/// How the value changes of a signal are packed.
#[derive(Clone, Copy, PartialEq, Eq, Structural, Debug)]
pub enum ValueChangePackType {
    Lz4,
    FastLz,
    Zlib,
}

/// The pack type with mark `mark`.
pub open spec fn pack_type(mark: u8) -> ValueChangePackType {
    if mark == 0x34 {
        ValueChangePackType::Lz4
    } else if mark == 0x46 {
        ValueChangePackType::FastLz
    } else {
        ValueChangePackType::Zlib
    }
}

impl ValueChangePackType {
    /// The marks are the ASCII characters `4` and `F`; any other mark means zlib.
    pub fn from_u8(mark: u8) -> (r: ValueChangePackType)
        ensures
            r == pack_type(mark),
    {
        match mark {
            0x34 => ValueChangePackType::Lz4,
            0x46 => ValueChangePackType::FastLz,
            _ => ValueChangePackType::Zlib,
        }
    }
}

/// The byte order of the floating-point numbers in a file.
#[derive(Clone, Copy, PartialEq, Eq, Structural, Debug)]
pub enum FloatingPointEndian {
    Little,
    Big,
}

/// The language of the design that was simulated.
#[derive(Clone, Copy, PartialEq, Eq, Structural, Debug)]
pub enum FileType {
    Verilog,
    Vhdl,
    VerilogVhdl,
}

/// The file type with number `code`.
pub open spec fn file_type(code: u8) -> Option<FileType> {
    if code == 0 {
        Some(FileType::Verilog)
    } else if code == 1 {
        Some(FileType::Vhdl)
    } else if code == 2 {
        Some(FileType::VerilogVhdl)
    } else {
        None
    }
}

impl FileType {
    pub fn from_u8(code: u8) -> (r: Option<FileType>)
        ensures
            r == file_type(code),
    {
        match code {
            0 => Some(FileType::Verilog),
            1 => Some(FileType::Vhdl),
            2 => Some(FileType::VerilogVhdl),
            _ => None,
        }
    }
}

/// What the geometry says of one signal.
#[derive(Clone, Copy, PartialEq, Eq, Structural, Debug)]
pub enum SignalInfo {
    /// A vector of so many bits; with no bits, a text of varying length.
    BitVec(u32),
    /// A 64-bit floating-point number.
    Real,
}

/// The signal that the number `value` of a geometry block or a hierarchy stands for.
pub open spec fn signal_info(value: u32) -> SignalInfo {
    if value == 0 {
        SignalInfo::Real
    } else if value == u32::MAX {
        SignalInfo::BitVec(0)
    } else {
        SignalInfo::BitVec(value)
    }
}

impl SignalInfo {
    /// The number of bits, or of bytes for a floating-point number.
    pub open spec fn width(self) -> u32 {
        match self {
            SignalInfo::BitVec(bits) => bits,
            SignalInfo::Real => 8,
        }
    }

    pub fn from_file_format(value: u32) -> (r: SignalInfo)
        ensures
            r == signal_info(value),
    {
        if value == 0 {
            SignalInfo::Real
        } else if value == u32::MAX {
            SignalInfo::BitVec(0)
        } else {
            SignalInfo::BitVec(value)
        }
    }

    pub fn len(&self) -> (r: u32)
        ensures
            r == self.width(),
    {
        match self {
            SignalInfo::BitVec(bits) => *bits,
            SignalInfo::Real => 8,
        }
    }

    pub fn is_real(&self) -> (r: bool)
        ensures
            r == (*self is Real),
    {
        match self {
            SignalInfo::BitVec(_) => false,
            SignalInfo::Real => true,
        }
    }
}

/// A time at which dumping was switched on or off.
#[derive(Clone, Copy, PartialEq, Eq, Structural, Debug)]
pub struct BlackoutData {
    pub time: u64,
    pub contains_activity: bool,
}

/// Names a signal. Handles count from one; the index of a signal counts from zero.
#[derive(Clone, Copy, PartialEq, Eq, Structural, Debug)]
pub struct FstSignalHandle {
    pub index: u32,
}

impl FstSignalHandle {
    pub fn from_index(index: usize) -> (r: FstSignalHandle)
        requires
            index <= u32::MAX,
        ensures
            r.index == index,
    {
        FstSignalHandle { index: index as u32 }
    }

    pub fn get_index(&self) -> (r: usize)
        ensures
            r == self.index,
    {
        self.index as usize
    }
}

} // verus!
