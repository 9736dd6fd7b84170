//! LZ4 frame format: constants, parameters and errors.

use vstd::prelude::*;

verus! {

/// Version of the frame interface.
pub const LZ4F_VERSION: u32 = 100;

/// Magic number that opens an LZ4 frame.
pub const LZ4F_MAGICNUMBER: u32 = 0x184D2204;

/// First magic number of skippable frames (the next 15 are skippable too).
pub const LZ4F_MAGIC_SKIPPABLE_START: u32 = 0x184D2A50;

/// Shortest frame header: magic, flags, block descriptor, header checksum.
pub const MIN_FH_SIZE: usize = 7;

/// Longest frame header: with content size and dictionary id.
pub const MAX_FH_SIZE: usize = 19;

/// Size of a block header, and of the end mark.
pub const LZ4F_BLOCK_HEADER_SIZE: usize = 4;

/// Size of a block checksum or content checksum.
pub const LZ4F_CHECKSUM_SIZE: usize = 4;

/// Errors of the frame functions.
#[derive(Debug, Clone, Copy, PartialEq, Eq, Structural)]
pub enum Lz4FError {
    OkNoError,
    Generic,
    MaxBlockSizeInvalid,
    BlockModeInvalid,
    ParameterInvalid,
    CompressionLevelInvalid,
    HeaderVersionWrong,
    BlockChecksumInvalid,
    ReservedFlagSet,
    AllocationFailed,
    SrcSizeTooLarge,
    DstMaxSizeTooSmall,
    FrameHeaderIncomplete,
    FrameTypeUnknown,
    FrameSizeWrong,
    SrcPtrWrong,
    DecompressionFailed,
    HeaderChecksumInvalid,
    ContentChecksumInvalid,
    FrameDecodingAlreadyStarted,
    CompressionStateUninitialized,
    ParameterNull,
    IoWrite,
    IoRead,
}

/// The name of an error, as the LZ4 frame API spells it.
pub open spec fn error_name(e: Lz4FError) -> Seq<char> {
    match e {
        Lz4FError::OkNoError => "OK_NoError"@,
        Lz4FError::Generic => "ERROR_GENERIC"@,
        Lz4FError::MaxBlockSizeInvalid => "ERROR_maxBlockSize_invalid"@,
        Lz4FError::BlockModeInvalid => "ERROR_blockMode_invalid"@,
        Lz4FError::ParameterInvalid => "ERROR_parameter_invalid"@,
        Lz4FError::CompressionLevelInvalid => "ERROR_compressionLevel_invalid"@,
        Lz4FError::HeaderVersionWrong => "ERROR_headerVersion_wrong"@,
        Lz4FError::BlockChecksumInvalid => "ERROR_blockChecksum_invalid"@,
        Lz4FError::ReservedFlagSet => "ERROR_reservedFlag_set"@,
        Lz4FError::AllocationFailed => "ERROR_allocation_failed"@,
        Lz4FError::SrcSizeTooLarge => "ERROR_srcSize_tooLarge"@,
        Lz4FError::DstMaxSizeTooSmall => "ERROR_dstMaxSize_tooSmall"@,
        Lz4FError::FrameHeaderIncomplete => "ERROR_frameHeader_incomplete"@,
        Lz4FError::FrameTypeUnknown => "ERROR_frameType_unknown"@,
        Lz4FError::FrameSizeWrong => "ERROR_frameSize_wrong"@,
        Lz4FError::SrcPtrWrong => "ERROR_srcPtr_wrong"@,
        Lz4FError::DecompressionFailed => "ERROR_decompressionFailed"@,
        Lz4FError::HeaderChecksumInvalid => "ERROR_headerChecksum_invalid"@,
        Lz4FError::ContentChecksumInvalid => "ERROR_contentChecksum_invalid"@,
        Lz4FError::FrameDecodingAlreadyStarted => "ERROR_frameDecoding_alreadyStarted"@,
        Lz4FError::CompressionStateUninitialized => "ERROR_compressionState_uninitialized"@,
        Lz4FError::ParameterNull => "ERROR_parameter_null"@,
        Lz4FError::IoWrite => "ERROR_io_write"@,
        Lz4FError::IoRead => "ERROR_io_read"@,
    }
}

impl Lz4FError {
    /// Name of the error, as the LZ4 frame API spells it.
    pub fn name(&self) -> (s: &'static str)
        ensures
            s@ == error_name(*self),
    {
        match self {
            Lz4FError::OkNoError => "OK_NoError",
            Lz4FError::Generic => "ERROR_GENERIC",
            Lz4FError::MaxBlockSizeInvalid => "ERROR_maxBlockSize_invalid",
            Lz4FError::BlockModeInvalid => "ERROR_blockMode_invalid",
            Lz4FError::ParameterInvalid => "ERROR_parameter_invalid",
            Lz4FError::CompressionLevelInvalid => "ERROR_compressionLevel_invalid",
            Lz4FError::HeaderVersionWrong => "ERROR_headerVersion_wrong",
            Lz4FError::BlockChecksumInvalid => "ERROR_blockChecksum_invalid",
            Lz4FError::ReservedFlagSet => "ERROR_reservedFlag_set",
            Lz4FError::AllocationFailed => "ERROR_allocation_failed",
            Lz4FError::SrcSizeTooLarge => "ERROR_srcSize_tooLarge",
            Lz4FError::DstMaxSizeTooSmall => "ERROR_dstMaxSize_tooSmall",
            Lz4FError::FrameHeaderIncomplete => "ERROR_frameHeader_incomplete",
            Lz4FError::FrameTypeUnknown => "ERROR_frameType_unknown",
            Lz4FError::FrameSizeWrong => "ERROR_frameSize_wrong",
            Lz4FError::SrcPtrWrong => "ERROR_srcPtr_wrong",
            Lz4FError::DecompressionFailed => "ERROR_decompressionFailed",
            Lz4FError::HeaderChecksumInvalid => "ERROR_headerChecksum_invalid",
            Lz4FError::ContentChecksumInvalid => "ERROR_contentChecksum_invalid",
            Lz4FError::FrameDecodingAlreadyStarted => "ERROR_frameDecoding_alreadyStarted",
            Lz4FError::CompressionStateUninitialized => "ERROR_compressionState_uninitialized",
            Lz4FError::ParameterNull => "ERROR_parameter_null",
            Lz4FError::IoWrite => "ERROR_io_write",
            Lz4FError::IoRead => "ERROR_io_read",
        }
    }
}

/// Largest size of a frame's blocks.
#[derive(Debug, Clone, Copy, PartialEq, Eq, Structural)]
pub enum BlockSizeId {
    Default,
    Max64Kb,
    Max256Kb,
    Max1Mb,
    Max4Mb,
}

/// Whether a frame's blocks may refer to the content of the blocks before.
#[derive(Debug, Clone, Copy, PartialEq, Eq, Structural)]
pub enum BlockMode {
    Linked,
    Independent,
}

/// Kind of a frame.
#[derive(Debug, Clone, Copy, PartialEq, Eq, Structural)]
pub enum FrameType {
    Frame,
    SkippableFrame,
}

/// Parameters of a frame, as its header records them.
#[derive(Debug, Clone, Copy, PartialEq, Eq, Structural)]
pub struct FrameInfo {
    pub block_size_id: BlockSizeId,
    pub block_mode: BlockMode,
    /// A checksum of the whole content follows the end mark.
    pub content_checksum: bool,
    pub frame_type: FrameType,
    /// Size of the content, 0 when not recorded.
    pub content_size: u64,
    /// Dictionary id, 0 when none.
    pub dict_id: u32,
    /// Each block is followed by its checksum.
    pub block_checksum: bool,
}

/// Parameters of frame compression.
#[derive(Debug, Clone, Copy, PartialEq, Eq, Structural)]
pub struct Preferences {
    pub frame_info: FrameInfo,
    /// Compression level; levels below 3 use the fast block compressor.
    pub compression_level: i32,
    /// Emit each chunk given to `lz4f_compress_update` right away.
    pub auto_flush: bool,
    pub favor_dec_speed: bool,
}

/// Options of frame decompression.
#[derive(Debug, Clone, Copy, PartialEq, Eq, Structural)]
pub struct DecompressOptions {
    /// The caller keeps earlier output in place between calls.
    pub stable_dst: bool,
    /// Do not verify the block and content checksums.
    pub skip_checksums: bool,
}

/// Default frame parameters: 64 KiB linked blocks, no checksums, no
/// recorded size, no dictionary.
pub fn default_frame_info() -> (f: FrameInfo)
    ensures
        f.block_size_id == BlockSizeId::Default,
        f.block_mode == BlockMode::Linked,
        !f.content_checksum,
        !f.block_checksum,
        f.frame_type == FrameType::Frame,
        f.content_size == 0,
        f.dict_id == 0,
{
    FrameInfo {
        block_size_id: BlockSizeId::Default,
        block_mode: BlockMode::Linked,
        content_checksum: false,
        frame_type: FrameType::Frame,
        content_size: 0,
        dict_id: 0,
        block_checksum: false,
    }
}

/// Default compression parameters: default frame parameters, level 0.
pub fn default_preferences() -> (p: Preferences)
    ensures
        p.frame_info == default_frame_info_spec(),
        p.compression_level == 0,
        !p.auto_flush,
        !p.favor_dec_speed,
{
    Preferences {
        frame_info: default_frame_info(),
        compression_level: 0,
        auto_flush: false,
        favor_dec_speed: false,
    }
}

/// The default frame parameters.
pub open spec fn default_frame_info_spec() -> FrameInfo {
    FrameInfo {
        block_size_id: BlockSizeId::Default,
        block_mode: BlockMode::Linked,
        content_checksum: false,
        frame_type: FrameType::Frame,
        content_size: 0,
        dict_id: 0,
        block_checksum: false,
    }
}

impl Default for Preferences {
    fn default() -> (p: Self)
        ensures
            p.frame_info == default_frame_info_spec(),
            p.compression_level == 0,
    {
        default_preferences()
    }
}

/// Code of a block size in the block descriptor (4 to 7).
pub open spec fn bsid_code(id: BlockSizeId) -> u8 {
    match id {
        BlockSizeId::Default => 4,
        BlockSizeId::Max64Kb => 4,
        BlockSizeId::Max256Kb => 5,
        BlockSizeId::Max1Mb => 6,
        BlockSizeId::Max4Mb => 7,
    }
}

/// Largest block size, in bytes, for a block size id.
pub open spec fn block_size_spec(id: BlockSizeId) -> nat {
    match id {
        BlockSizeId::Default => 65536,
        BlockSizeId::Max64Kb => 65536,
        BlockSizeId::Max256Kb => 262144,
        BlockSizeId::Max1Mb => 1048576,
        BlockSizeId::Max4Mb => 4194304,
    }
}

/// Largest block size, in bytes, for a block size id.
pub fn block_size_from_id(id: BlockSizeId) -> (n: usize)
    ensures
        n == block_size_spec(id),
{
    match id {
        BlockSizeId::Default => 65536,
        BlockSizeId::Max64Kb => 65536,
        BlockSizeId::Max256Kb => 262144,
        BlockSizeId::Max1Mb => 1048576,
        BlockSizeId::Max4Mb => 4194304,
    }
}

} // verus!
