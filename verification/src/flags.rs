//! Compression flags, flush modes and status codes.

use vstd::prelude::*;
use crate::tables::NUM_PROBES;

verus! {

/// Whether to use a zlib wrapper.
pub const TDEFL_WRITE_ZLIB_HEADER: u32 = 0x0000_1000;
/// Should we compute the adler32 checksum.
pub const TDEFL_COMPUTE_ADLER32: u32 = 0x0000_2000;
/// Use greedy parsing (as opposed to lazy parsing, which looks one byte ahead for a better match).
pub const TDEFL_GREEDY_PARSING_FLAG: u32 = 0x0000_4000;
/// Reserved for nondeterministic parsing.
pub const TDEFL_NONDETERMINISTIC_PARSING_FLAG: u32 = 0x0000_8000;
/// Only look for matches with a distance of 1 (run-length encoding).
pub const TDEFL_RLE_MATCHES: u32 = 0x0001_0000;
/// Only use matches that are at least 6 bytes long.
pub const TDEFL_FILTER_MATCHES: u32 = 0x0002_0000;
/// Only output static blocks (blocks using the fixed Huffman codes of the deflate format).
pub const TDEFL_FORCE_ALL_STATIC_BLOCKS: u32 = 0x0004_0000;
/// Only output raw (stored) blocks.
pub const TDEFL_FORCE_ALL_RAW_BLOCKS: u32 = 0x0008_0000;
/// Mask of the number of hash chain probes in the flags.
pub const MAX_PROBES_MASK: u32 = 0xFFF;
/// The default compression level.
pub const DEFAULT_LEVEL: i32 = 6;

/// Strategies used to generate flags with `create_comp_flags_from_zip_params`.
#[derive(Debug, Copy, Clone, PartialEq, Eq, Structural, Hash)]
pub enum CompressionStrategy {
    /// Don't use any of the special strategies.
    Default,
    /// Only use matches that are at least 5 bytes long.
    Filtered,
    /// Don't look for matches, only Huffman encode the literals.
    HuffmanOnly,
    /// Only look for matches with a distance of 1, i.e. run-length encoding only.
    RLE,
    /// Only use static (fixed) blocks.
    Fixed,
}

impl CompressionStrategy {
    /// The zlib number of the strategy.
    pub open spec fn spec_value(self) -> i32 {
        match self {
            CompressionStrategy::Default => 0,
            CompressionStrategy::Filtered => 1,
            CompressionStrategy::HuffmanOnly => 2,
            CompressionStrategy::RLE => 3,
            CompressionStrategy::Fixed => 4,
        }
    }

    /// The zlib number of the strategy.
    pub fn value(self) -> (r: i32)
        ensures
            r == self.spec_value(),
    {
        match self {
            CompressionStrategy::Default => 0,
            CompressionStrategy::Filtered => 1,
            CompressionStrategy::HuffmanOnly => 2,
            CompressionStrategy::RLE => 3,
            CompressionStrategy::Fixed => 4,
        }
    }
}

/// Errors of the zlib-style interface.
#[derive(Debug, Copy, Clone, PartialEq, Eq, Structural, Hash)]
pub enum MZError {
    ErrNo,
    Stream,
    Data,
    Mem,
    Buf,
    Version,
    Param,
}

impl MZError {
    /// The zlib number of the error.
    pub open spec fn spec_value(self) -> i32 {
        match self {
            MZError::ErrNo => -1i32,
            MZError::Stream => -2i32,
            MZError::Data => -3i32,
            MZError::Mem => -4i32,
            MZError::Buf => -5i32,
            MZError::Version => -6i32,
            MZError::Param => -10000i32,
        }
    }

    /// The zlib number of the error.
    pub fn value(self) -> (r: i32)
        ensures
            r == self.spec_value(),
    {
        match self {
            MZError::ErrNo => -1,
            MZError::Stream => -2,
            MZError::Data => -3,
            MZError::Mem => -4,
            MZError::Buf => -5,
            MZError::Version => -6,
            MZError::Param => -10000,
        }
    }
}

/// Flush modes of the zlib-style interface.
#[derive(Debug, Copy, Clone, PartialEq, Eq, Structural, Hash)]
pub enum MZFlush {
    NoFlush,
    Partial,
    Sync,
    Full,
    Finish,
    Block,
}

/// A list of deflate flush types.
#[derive(Debug, Copy, Clone, PartialEq, Eq, Structural, Hash)]
pub enum TDEFLFlush {
    NoFlush,
    Sync,
    Full,
    Finish,
}

impl TDEFLFlush {
    /// The number of the flush type.
    pub open spec fn spec_value(self) -> i32 {
        match self {
            TDEFLFlush::NoFlush => 0,
            TDEFLFlush::Sync => 2,
            TDEFLFlush::Full => 3,
            TDEFLFlush::Finish => 4,
        }
    }

    /// The number of the flush type.
    pub fn value(self) -> (r: i32)
        ensures
            r == self.spec_value(),
    {
        match self {
            TDEFLFlush::NoFlush => 0,
            TDEFLFlush::Sync => 2,
            TDEFLFlush::Full => 3,
            TDEFLFlush::Finish => 4,
        }
    }

    /// The flush type with the given number; `MZError::Param` for any other number.
    pub fn new(flush: i32) -> (r: Result<Self, MZError>)
        ensures
            match r {
                Ok(f) => f.spec_value() == flush,
                Err(e) => e == MZError::Param && flush != 0 && flush != 2 && flush != 3 && flush
                    != 4,
            },
            r is Ok <==> (flush == 0 || flush == 2 || flush == 3 || flush == 4),
    {
        match flush {
            0 => Ok(TDEFLFlush::NoFlush),
            2 => Ok(TDEFLFlush::Sync),
            3 => Ok(TDEFLFlush::Full),
            4 => Ok(TDEFLFlush::Finish),
            _ => Err(MZError::Param),
        }
    }
}

/// Different flush types have different numbers, so a flush type is found again from its
/// number.
pub proof fn lemma_flush_value_injective(f: TDEFLFlush, g: TDEFLFlush)
    ensures
        f.spec_value() == g.spec_value() ==> f == g,
{
}

/// The deflate flush type of a zlib flush mode; modes without one map to `NoFlush`.
pub open spec fn flush_from_mz(flush: MZFlush) -> TDEFLFlush {
    match flush {
        MZFlush::Sync => TDEFLFlush::Sync,
        MZFlush::Full => TDEFLFlush::Full,
        MZFlush::Finish => TDEFLFlush::Finish,
        _ => TDEFLFlush::NoFlush,
    }
}

impl From<MZFlush> for TDEFLFlush {
    fn from(flush: MZFlush) -> (r: Self) {
        match flush {
            MZFlush::NoFlush => TDEFLFlush::NoFlush,
            MZFlush::Sync => TDEFLFlush::Sync,
            MZFlush::Full => TDEFLFlush::Full,
            MZFlush::Finish => TDEFLFlush::Finish,
            _ => TDEFLFlush::NoFlush,
        }
    }
}

impl vstd::std_specs::convert::FromSpecImpl<MZFlush> for TDEFLFlush {
    open spec fn obeys_from_spec() -> bool {
        true
    }

    open spec fn from_spec(flush: MZFlush) -> Self {
        flush_from_mz(flush)
    }
}

/// Return status codes.
#[derive(Debug, Copy, Clone, PartialEq, Eq, Structural, Hash)]
pub enum TDEFLStatus {
    BadParam,
    PutBufFailed,
    Okay,
    Done,
}

impl TDEFLStatus {
    /// The number of the status.
    pub open spec fn spec_value(self) -> i32 {
        match self {
            TDEFLStatus::BadParam => -2i32,
            TDEFLStatus::PutBufFailed => -1i32,
            TDEFLStatus::Okay => 0,
            TDEFLStatus::Done => 1,
        }
    }

    /// The number of the status.
    pub fn value(self) -> (r: i32)
        ensures
            r == self.spec_value(),
    {
        match self {
            TDEFLStatus::BadParam => -2,
            TDEFLStatus::PutBufFailed => -1,
            TDEFLStatus::Okay => 0,
            TDEFLStatus::Done => 1,
        }
    }
}

/// The number of hash chain probes chosen for a zlib compression level.
pub open spec fn probes_index(level: i32) -> int {
    if level >= 0 {
        if level < 10 {
            level as int
        } else {
            10
        }
    } else {
        DEFAULT_LEVEL as int
    }
}

/// The flags before the strategy is applied: probes, greedy parsing, zlib header.
pub open spec fn base_comp_flags(level: i32, window_bits: i32) -> u32 {
    NUM_PROBES@[probes_index(level)] | (if level <= 3 {
        TDEFL_GREEDY_PARSING_FLAG
    } else {
        0
    }) | (if window_bits > 0 {
        TDEFL_WRITE_ZLIB_HEADER
    } else {
        0
    })
}

/// The compression flags for zlib-style parameters: level 0 forces raw blocks; otherwise
/// the strategy filters matches, drops match finding, forces static blocks or selects
/// run-length matching.
pub open spec fn comp_flags_spec(level: i32, window_bits: i32, strategy: i32) -> u32 {
    let base = base_comp_flags(level, window_bits);
    if level == 0 {
        base | TDEFL_FORCE_ALL_RAW_BLOCKS
    } else if strategy == 1 {
        base | TDEFL_FILTER_MATCHES
    } else if strategy == 2 {
        base & !MAX_PROBES_MASK
    } else if strategy == 4 {
        base | TDEFL_FORCE_ALL_STATIC_BLOCKS
    } else if strategy == 3 {
        base | TDEFL_RLE_MATCHES
    } else {
        base
    }
}

/// Create a set of compression flags using parameters used by zlib and other compressors.
pub fn create_comp_flags_from_zip_params(level: i32, window_bits: i32, strategy: i32) -> (r: u32)
    ensures
        r == comp_flags_spec(level, window_bits, strategy),
        (r & TDEFL_WRITE_ZLIB_HEADER != 0) == (window_bits > 0),
        level != 0 && strategy == 2 ==> r & 0xFFF == 0 && r == comp_flags_spec(level, window_bits, 0) & !0xFFFu32,
        level == 0 ==> r & TDEFL_FORCE_ALL_RAW_BLOCKS != 0 && r == comp_flags_spec(level, window_bits, 0),
        level != 0 && strategy == 1 ==> r == comp_flags_spec(level, window_bits, 0) | TDEFL_FILTER_MATCHES,
        level != 0 && strategy == 3 ==> r == comp_flags_spec(level, window_bits, 0) | TDEFL_RLE_MATCHES,
        level != 0 && strategy == 4 ==> r == comp_flags_spec(level, window_bits, 0) | TDEFL_FORCE_ALL_STATIC_BLOCKS,
        level != 0 && !(1 <= strategy <= 4) ==> r == comp_flags_spec(level, window_bits, 0),
        level != 0 ==> (comp_flags_spec(level, window_bits, 0) & TDEFL_GREEDY_PARSING_FLAG != 0) == (level <= 3),
        level != 0 ==> comp_flags_spec(level, window_bits, 0) & !0x5FFFu32 == 0,
        !(level != 0 && strategy == 2) ==> r & 0xFFF == NUM_PROBES@[probes_index(level)],
        !(level != 0 && strategy == 2) ==> r & 0xFFF == seq![0u32, 1, 6, 32, 16, 32, 128, 256, 512, 768, 1500][if level
            < 0 {
            6int
        } else if level > 10 {
            10int
        } else {
            level as int
        }],
{
    proof {
        lemma_zip_flags(level, window_bits, strategy);
        assert(NUM_PROBES@ =~= seq![0u32, 1, 6, 32, 16, 32, 128, 256, 512, 768, 1500]);
    }
    let num_probes: usize = if level >= 0 {
        if level < 10 {
            level as usize
        } else {
            10
        }
    } else {
        DEFAULT_LEVEL as usize
    };
    let greedy: u32 = if level <= 3 {
        TDEFL_GREEDY_PARSING_FLAG
    } else {
        0
    };
    let mut comp_flags: u32 = NUM_PROBES[num_probes] | greedy;

    if window_bits > 0 {
        comp_flags |= TDEFL_WRITE_ZLIB_HEADER;
    } else {
        proof {
            let x = comp_flags;
            assert(x | 0 == x) by (bit_vector);
        }
    }
    if level == 0 {
        comp_flags |= TDEFL_FORCE_ALL_RAW_BLOCKS;
    } else if strategy == CompressionStrategy::Filtered.value() {
        comp_flags |= TDEFL_FILTER_MATCHES;
    } else if strategy == CompressionStrategy::HuffmanOnly.value() {
        comp_flags &= !MAX_PROBES_MASK;
    } else if strategy == CompressionStrategy::Fixed.value() {
        comp_flags |= TDEFL_FORCE_ALL_STATIC_BLOCKS;
    } else if strategy == CompressionStrategy::RLE.value() {
        comp_flags |= TDEFL_RLE_MATCHES;
    }
    comp_flags
}

/// Setting or clearing the bits of the strategy keeps the zlib-header bit, and clearing the
/// probe bits keeps every other bit.
proof fn lemma_flag_bits(x: u32, g: u32, z: u32)
    by (bit_vector)
    requires
        x < 0x1000,
        g == 0 || g == 0x4000,
        z == 0 || z == 0x1000,
    ensures
        (x | g | z) & 0x1000 == z,
        ((x | g | z) | 0x8_0000) & 0x1000 == z,
        ((x | g | z) | 0x2_0000) & 0x1000 == z,
        ((x | g | z) | 0x4_0000) & 0x1000 == z,
        ((x | g | z) | 0x1_0000) & 0x1000 == z,
        ((x | g | z) & !0xFFFu32) & 0x1000 == z,
        (x | g | z) & 0xFFF == x,
        ((x | g | z) | 0x8_0000) & 0xFFF == x,
        ((x | g | z) | 0x2_0000) & 0xFFF == x,
        ((x | g | z) | 0x4_0000) & 0xFFF == x,
        ((x | g | z) | 0x1_0000) & 0xFFF == x,
        ((x | g | z) & !0xFFFu32) & 0xFFF == 0,
        ((x | g | z) & !0xFFFu32) == g | z,
        (x | g | z) & 0x4000 == g,
        (x | g | z) & !0x5FFFu32 == 0,
        ((x | g | z) | 0x8_0000) & 0x8_0000 != 0,
{
}

/// The zlib-style parameters keep the zlib header exactly where `window_bits` is positive,
/// whatever the strategy; the Huffman-only strategy clears the probe count and nothing else
/// of the flags of the default strategy; every other strategy keeps the probe count of the
/// level.
pub proof fn lemma_zip_flags(level: i32, window_bits: i32, strategy: i32)
    ensures
        (comp_flags_spec(level, window_bits, strategy) & TDEFL_WRITE_ZLIB_HEADER != 0) == (window_bits > 0),
        level != 0 && strategy == 2 ==> comp_flags_spec(level, window_bits, strategy) & 0xFFF == 0
            && comp_flags_spec(level, window_bits, strategy) == comp_flags_spec(level, window_bits, 0)
            & !0xFFFu32,
        !(level != 0 && strategy == 2) ==> comp_flags_spec(level, window_bits, strategy) & 0xFFF
            == NUM_PROBES@[probes_index(level)],
        level != 0 ==> (comp_flags_spec(level, window_bits, 0) & TDEFL_GREEDY_PARSING_FLAG != 0) == (level <= 3),
        level != 0 ==> comp_flags_spec(level, window_bits, 0) & !0x5FFFu32 == 0,
        level == 0 ==> comp_flags_spec(level, window_bits, strategy) == comp_flags_spec(level, window_bits, 0)
            && comp_flags_spec(level, window_bits, strategy) & TDEFL_FORCE_ALL_RAW_BLOCKS != 0,
        level != 0 && strategy == 1 ==> comp_flags_spec(level, window_bits, strategy) == comp_flags_spec(
            level,
            window_bits,
            0,
        ) | TDEFL_FILTER_MATCHES,
        level != 0 && strategy == 3 ==> comp_flags_spec(level, window_bits, strategy) == comp_flags_spec(
            level,
            window_bits,
            0,
        ) | TDEFL_RLE_MATCHES,
        level != 0 && strategy == 4 ==> comp_flags_spec(level, window_bits, strategy) == comp_flags_spec(
            level,
            window_bits,
            0,
        ) | TDEFL_FORCE_ALL_STATIC_BLOCKS,
        level != 0 && !(1 <= strategy <= 4) ==> comp_flags_spec(level, window_bits, strategy) == comp_flags_spec(
            level,
            window_bits,
            0,
        ),
{
    let i = probes_index(level);
    assert(0 <= i <= 10);
    assert(NUM_PROBES@[i] < 0x1000) by {
        assert(NUM_PROBES@[0] == 0);
        assert(NUM_PROBES@[1] == 1);
        assert(NUM_PROBES@[2] == 6);
        assert(NUM_PROBES@[3] == 32);
        assert(NUM_PROBES@[4] == 16);
        assert(NUM_PROBES@[5] == 32);
        assert(NUM_PROBES@[6] == 128);
        assert(NUM_PROBES@[7] == 256);
        assert(NUM_PROBES@[8] == 512);
        assert(NUM_PROBES@[9] == 768);
        assert(NUM_PROBES@[10] == 1500);
    }
    let g: u32 = if level <= 3 { TDEFL_GREEDY_PARSING_FLAG } else { 0 };
    let z: u32 = if window_bits > 0 { TDEFL_WRITE_ZLIB_HEADER } else { 0 };
    lemma_flag_bits(NUM_PROBES@[i], g, z);
}

} // verus!
