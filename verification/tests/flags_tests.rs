use miniz_oxide::flags::{create_comp_flags_from_zip_params, CompressionStrategy, MZError, MZFlush, TDEFLFlush, TDEFLStatus};

#[test]
fn flush_from_number() {
    assert_eq!(TDEFLFlush::new(0), Ok(TDEFLFlush::NoFlush));
    assert_eq!(TDEFLFlush::new(2), Ok(TDEFLFlush::Sync));
    assert_eq!(TDEFLFlush::new(3), Ok(TDEFLFlush::Full));
    assert_eq!(TDEFLFlush::new(4), Ok(TDEFLFlush::Finish));
    assert_eq!(TDEFLFlush::new(1), Err(MZError::Param));
    assert_eq!(TDEFLFlush::new(5), Err(MZError::Param));
    assert_eq!(TDEFLFlush::new(-1), Err(MZError::Param));
}

#[test]
fn flush_number_round_trip() {
    for f in [TDEFLFlush::NoFlush, TDEFLFlush::Sync, TDEFLFlush::Full, TDEFLFlush::Finish] {
        assert_eq!(TDEFLFlush::new(f.value()), Ok(f));
    }
}

#[test]
fn flush_from_mz_flush() {
    assert_eq!(TDEFLFlush::from(MZFlush::NoFlush), TDEFLFlush::NoFlush);
    assert_eq!(TDEFLFlush::from(MZFlush::Partial), TDEFLFlush::NoFlush);
    assert_eq!(TDEFLFlush::from(MZFlush::Sync), TDEFLFlush::Sync);
    assert_eq!(TDEFLFlush::from(MZFlush::Full), TDEFLFlush::Full);
    assert_eq!(TDEFLFlush::from(MZFlush::Finish), TDEFLFlush::Finish);
    assert_eq!(TDEFLFlush::from(MZFlush::Block), TDEFLFlush::NoFlush);
}

#[test]
fn status_numbers() {
    assert_eq!(TDEFLStatus::BadParam.value(), -2);
    assert_eq!(TDEFLStatus::PutBufFailed.value(), -1);
    assert_eq!(TDEFLStatus::Okay.value(), 0);
    assert_eq!(TDEFLStatus::Done.value(), 1);
}

#[test]
fn comp_flags_default_level_with_zlib_header() {
    // level 6: 128 probes, lazy parsing, zlib header
    assert_eq!(create_comp_flags_from_zip_params(6, 15, 0), 128 | 0x1000);
    // a negative level takes the probes of the default level; being below 4 it parses greedily
    assert_eq!(create_comp_flags_from_zip_params(-1, 15, 0), 128 | 0x4000 | 0x1000);
}

#[test]
fn comp_flags_levels() {
    assert_eq!(create_comp_flags_from_zip_params(1, -15, 0), 1 | 0x4000);
    assert_eq!(create_comp_flags_from_zip_params(3, -15, 0), 32 | 0x4000);
    assert_eq!(create_comp_flags_from_zip_params(4, -15, 0), 16);
    assert_eq!(create_comp_flags_from_zip_params(9, -15, 0), 768);
    // levels above 10 use the probes of level 10
    assert_eq!(create_comp_flags_from_zip_params(12, -15, 0), 1500);
    // level 0 stores raw blocks
    assert_eq!(create_comp_flags_from_zip_params(0, 15, 0), 0x4000 | 0x1000 | 0x8_0000);
}

#[test]
fn comp_flags_strategies() {
    let filtered = CompressionStrategy::Filtered.value();
    let huffman_only = CompressionStrategy::HuffmanOnly.value();
    let rle = CompressionStrategy::RLE.value();
    let fixed = CompressionStrategy::Fixed.value();
    assert_eq!(create_comp_flags_from_zip_params(6, -15, filtered), 128 | 0x2_0000);
    assert_eq!(create_comp_flags_from_zip_params(6, -15, huffman_only), 0);
    assert_eq!(create_comp_flags_from_zip_params(6, -15, rle), 128 | 0x1_0000);
    assert_eq!(create_comp_flags_from_zip_params(6, -15, fixed), 128 | 0x4_0000);
    // level 0 takes precedence over the strategy
    assert_eq!(create_comp_flags_from_zip_params(0, -15, fixed), 0x4000 | 0x8_0000);
}
