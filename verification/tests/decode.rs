use parquet2::deserialize::boolean::decode_plain_booleans;
use parquet2::deserialize::dictionary::{
    read_boolean_dictionary, read_fixed_len_dictionary, read_native_dictionary, Dictionary,
    FixedLenDictionary,
};
use parquet2::deserialize::filter::{filter_rows, RowInterval};
use parquet2::deserialize::fixed_len::decode_fixed_len;
use parquet2::deserialize::hybrid_rle::{hybrid_rle_decode, hybrid_rle_encode};
use parquet2::deserialize::native::native_cast;
use parquet2::deserialize::optional::combine_optional;
use parquet2::deserialize::page::{
    compute_bits_needed, decode_validity, DataPage, Descriptor, Encoding,
    FixedLenBinaryPageState, NativePageState,
};
use parquet2::deserialize::page::BooleanPageState;
use parquet2::errors::DecodeError;
use parquet2::schema::types::{PhysicalType, Repetition};
use parquet2::strutil::{parse_decimal_i32, str_eq, to_ascii_upper};

fn descriptor(
    physical_type: PhysicalType,
    repetition: Repetition,
    encoding: Encoding,
    num_values: usize,
) -> Descriptor {
    Descriptor {
        max_rep_level: 0,
        max_def_level: 1,
        physical_type,
        repetition,
        encoding,
        num_values,
    }
}

// The 4-row optional int32 page: a bit-packed validity run
// [true, false, true, true] and three plain little-endian values.
fn optional_int32_page(selected_rows: Option<Vec<RowInterval>>) -> DataPage {
    DataPage {
        descriptor: descriptor(PhysicalType::Int32, Repetition::Optional, Encoding::Plain, 4),
        def_levels: vec![3, 0b0000_1101],
        values: vec![10, 0, 0, 0, 20, 0, 0, 0, 30, 0, 0, 0],
        selected_rows,
    }
}

#[test]
fn hybrid_rle_round_trip_small_widths() {
    let cases: Vec<(usize, Vec<u32>)> = vec![
        (0, vec![0, 0, 0]),
        (1, vec![1, 0, 1, 1, 0]),
        (3, vec![7, 0, 5, 2]),
        (8, vec![255, 1, 128]),
        (17, vec![70000, 3, 99999]),
        (32, vec![u32::MAX, 0, 123_456_789]),
    ];
    for (bw, values) in cases {
        let encoded = hybrid_rle_encode(&values, bw);
        let decoded = hybrid_rle_decode(&encoded, bw, values.len()).unwrap();
        assert_eq!(decoded, values);
    }
}

#[test]
fn hybrid_rle_decodes_an_rle_run() {
    // header 8 announces the value repeated four times; one payload byte.
    let data = vec![8u8, 7];
    assert_eq!(hybrid_rle_decode(&data, 8, 4).unwrap(), vec![7, 7, 7, 7]);
}

#[test]
fn hybrid_rle_decodes_a_bit_packed_run() {
    // header 3 announces one group of eight one-bit values.
    let data = vec![3u8, 0b0000_1101];
    assert_eq!(hybrid_rle_decode(&data, 1, 4).unwrap(), vec![1, 0, 1, 1]);
}

#[test]
fn hybrid_rle_rejects_truncated_streams() {
    assert_eq!(
        hybrid_rle_decode(&[], 1, 1),
        Err(DecodeError::CorruptedStream)
    );
    // the header announces a payload byte that is not there
    assert_eq!(
        hybrid_rle_decode(&[8u8], 8, 4),
        Err(DecodeError::CorruptedStream)
    );
    // the stream ends before the expected count is reached
    assert_eq!(
        hybrid_rle_decode(&[2u8, 7], 8, 2),
        Err(DecodeError::CorruptedStream)
    );
}

#[test]
fn booleans_decode_bit_by_bit() {
    let decoded = decode_plain_booleans(&[0b0000_0101], 3).unwrap();
    assert_eq!(decoded, vec![true, false, true]);
    assert_eq!(
        decode_plain_booleans(&[0b0000_0101], 9),
        Err(DecodeError::CorruptedStream)
    );
}

#[test]
fn native_cast_rejects_misaligned_regions() {
    // five bytes are not a whole number of 32-bit values
    assert_eq!(
        native_cast::<i32>(&[1, 2, 3, 4, 5]),
        Err(DecodeError::BufferLengthMismatch)
    );
}

#[test]
fn native_cast_reads_little_endian_values() {
    let data = vec![1u8, 0, 0, 0, 0xFF, 0xFF, 0xFF, 0xFF];
    assert_eq!(native_cast::<i32>(&data).unwrap(), vec![1, -1]);
    let data64 = vec![2u8, 0, 0, 0, 0, 0, 0, 0];
    assert_eq!(native_cast::<i64>(&data64).unwrap(), vec![2i64]);
}

#[test]
fn fixed_len_rejects_misaligned_regions() {
    assert_eq!(
        decode_fixed_len(&[1, 2, 3], 2),
        Err(DecodeError::BufferLengthMismatch)
    );
    assert_eq!(
        decode_fixed_len(&[1, 2, 3], 0),
        Err(DecodeError::BufferLengthMismatch)
    );
    let chunks = decode_fixed_len(&[1, 2, 3, 4], 2).unwrap();
    assert_eq!(chunks, vec![vec![1, 2], vec![3, 4]]);
}

#[test]
fn optional_values_interleave_in_order() {
    let validity = vec![true, false, true];
    let values = vec![1i32, 2];
    let merged = combine_optional(&validity, &values).unwrap();
    assert_eq!(merged, vec![Some(1), None, Some(2)]);
}

#[test]
fn optional_values_underflow_when_values_run_out() {
    let validity = vec![true, true];
    let values = vec![1i32];
    assert_eq!(
        combine_optional(&validity, &values),
        Err(DecodeError::Underflow)
    );
}

#[test]
fn filter_selects_by_index_membership() {
    let items = vec![10i32, 20, 30, 40];
    let sel = vec![
        RowInterval { start: 1, length: 1 },
        RowInterval { start: 3, length: 1 },
    ];
    assert_eq!(filter_rows(&items, &sel), vec![20, 40]);
}

#[test]
fn filter_with_the_full_range_reproduces_the_items() {
    let items = vec![10i32, 20, 30, 40];
    let sel = vec![RowInterval { start: 0, length: 4 }];
    assert_eq!(filter_rows(&items, &sel), items);
}

#[test]
fn filter_with_the_empty_selection_is_empty() {
    let items = vec![10i32, 20, 30, 40];
    let sel: Vec<RowInterval> = vec![];
    assert_eq!(filter_rows(&items, &sel), Vec::<i32>::new());
}

#[test]
fn dictionary_index_out_of_range_always_fails() {
    let dict = Dictionary { values: vec![1i32, 2, 3] };
    assert_eq!(dict.value(3), Err(DecodeError::DictionaryIndexOutOfRange));
    assert_eq!(dict.value(100), Err(DecodeError::DictionaryIndexOutOfRange));
    assert_eq!(dict.value(1), Ok(2));

    let bin = FixedLenDictionary { width: 1, values: vec![vec![97], vec![98]] };
    assert_eq!(bin.value(2), Err(DecodeError::DictionaryIndexOutOfRange));
    assert_eq!(bin.value(0), Ok(vec![97]));
}

#[test]
fn validity_decodes_one_bit_per_row() {
    let validity = decode_validity(&[3, 0b0000_1101], 4).unwrap();
    assert_eq!(validity, vec![true, false, true, true]);
}

#[test]
fn bits_needed_matches_dictionary_sizes() {
    assert_eq!(compute_bits_needed(0), 0);
    assert_eq!(compute_bits_needed(1), 0);
    assert_eq!(compute_bits_needed(2), 1);
    assert_eq!(compute_bits_needed(3), 2);
    assert_eq!(compute_bits_needed(4), 2);
    assert_eq!(compute_bits_needed(5), 3);
    assert_eq!(compute_bits_needed(256), 8);
    assert_eq!(compute_bits_needed(257), 9);
}

#[test]
fn optional_int32_page_decodes_with_nulls() {
    let page = optional_int32_page(None);
    let state = NativePageState::<i32>::try_new(&page, None).unwrap();
    let rows = state.decode().unwrap();
    assert_eq!(rows, vec![Some(10), None, Some(20), Some(30)]);
}

#[test]
fn required_dictionary_page_resolves_strings() {
    let dict = read_fixed_len_dictionary(b"abc", 1).unwrap();
    let page = DataPage {
        descriptor: descriptor(
            PhysicalType::FixedLenByteArray(1),
            Repetition::Required,
            Encoding::RleDictionary,
            3,
        ),
        def_levels: vec![],
        // one bit-packed group of two-bit indices: 2, 0, 1, then padding
        values: vec![3, 0b0001_0010, 0],
        selected_rows: None,
    };
    let state = FixedLenBinaryPageState::try_new(&page, Some(&dict)).unwrap();
    let rows = state.decode().unwrap();
    assert_eq!(
        rows,
        vec![Some(b"c".to_vec()), Some(b"a".to_vec()), Some(b"b".to_vec())]
    );
}

#[test]
fn filtered_optional_page_keeps_selected_rows() {
    let page = optional_int32_page(Some(vec![
        RowInterval { start: 1, length: 1 },
        RowInterval { start: 3, length: 1 },
    ]));
    let state = NativePageState::<i32>::try_new(&page, None).unwrap();
    let rows = state.decode().unwrap();
    assert_eq!(rows, vec![None, Some(30)]);
}

#[test]
fn required_page_decodes_plain_values() {
    let page = DataPage {
        descriptor: descriptor(PhysicalType::Int32, Repetition::Required, Encoding::Plain, 2),
        def_levels: vec![],
        values: vec![5, 0, 0, 0, 6, 0, 0, 0],
        selected_rows: None,
    };
    let state = NativePageState::<i32>::try_new(&page, None).unwrap();
    assert_eq!(state.decode().unwrap(), vec![Some(5), Some(6)]);
}

#[test]
fn optional_dictionary_page_resolves_lazily_consumed_indices() {
    let dict = read_native_dictionary::<i32>(&[5, 0, 0, 0, 6, 0, 0, 0]).unwrap();
    let page = DataPage {
        descriptor: descriptor(
            PhysicalType::Int32,
            Repetition::Optional,
            Encoding::RleDictionary,
            3,
        ),
        // validity 1, 0, 1: bit-packed group, byte 0b101
        def_levels: vec![3, 0b0000_0101],
        // two one-bit indices for the non-null rows: 1, 0
        values: vec![3, 0b0000_0001],
        selected_rows: None,
    };
    let state = NativePageState::<i32>::try_new(&page, Some(&dict)).unwrap();
    assert_eq!(state.decode().unwrap(), vec![Some(6), None, Some(5)]);
}

#[test]
fn dictionary_page_with_out_of_range_index_fails() {
    let dict = read_native_dictionary::<i32>(&[5, 0, 0, 0, 6, 0, 0, 0, 7, 0, 0, 0]).unwrap();
    let page = DataPage {
        descriptor: descriptor(
            PhysicalType::Int32,
            Repetition::Required,
            Encoding::RleDictionary,
            2,
        ),
        def_levels: vec![],
        // an RLE run repeating index 3, out of range for a 3-entry table
        values: vec![4, 3],
        selected_rows: None,
    };
    let state = NativePageState::<i32>::try_new(&page, Some(&dict)).unwrap();
    assert_eq!(
        state.decode(),
        Err(DecodeError::DictionaryIndexOutOfRange)
    );
}

#[test]
fn unsupported_combinations_are_rejected_explicitly() {
    // dictionary encoding without a dictionary
    let page = DataPage {
        descriptor: descriptor(
            PhysicalType::Int32,
            Repetition::Required,
            Encoding::RleDictionary,
            1,
        ),
        def_levels: vec![],
        values: vec![],
        selected_rows: None,
    };
    assert!(matches!(
        NativePageState::<i32>::try_new(&page, None),
        Err(DecodeError::UnsupportedEncoding)
    ));

    // filtering combined with dictionary encoding is refused, never
    // silently ignored
    let dict = Dictionary { values: vec![1i32] };
    let filtered = DataPage {
        descriptor: descriptor(
            PhysicalType::Int32,
            Repetition::Required,
            Encoding::RleDictionary,
            1,
        ),
        def_levels: vec![],
        values: vec![],
        selected_rows: Some(vec![RowInterval { start: 0, length: 1 }]),
    };
    assert!(matches!(
        NativePageState::<i32>::try_new(&filtered, Some(&dict)),
        Err(DecodeError::UnsupportedEncoding)
    ));

    // an encoding outside the implemented set
    let delta = DataPage {
        descriptor: descriptor(
            PhysicalType::Int32,
            Repetition::Required,
            Encoding::DeltaBinaryPacked,
            1,
        ),
        def_levels: vec![],
        values: vec![],
        selected_rows: None,
    };
    assert!(matches!(
        NativePageState::<i32>::try_new(&delta, None),
        Err(DecodeError::UnsupportedEncoding)
    ));
}

#[test]
fn required_page_with_too_few_values_is_corrupt() {
    let page = DataPage {
        descriptor: descriptor(PhysicalType::Int32, Repetition::Required, Encoding::Plain, 3),
        def_levels: vec![],
        values: vec![5, 0, 0, 0],
        selected_rows: None,
    };
    let state = NativePageState::<i32>::try_new(&page, None).unwrap();
    assert_eq!(state.decode(), Err(DecodeError::CorruptedStream));
}

#[test]
fn optional_binary_page_interleaves_chunks() {
    let page = DataPage {
        descriptor: descriptor(
            PhysicalType::FixedLenByteArray(2),
            Repetition::Optional,
            Encoding::RleDictionary,
            3,
        ),
        def_levels: vec![],
        values: vec![],
        selected_rows: None,
    };
    // wrong encoding for this shape is rejected up front
    assert!(FixedLenBinaryPageState::try_new(&page, None).is_err());

    let page = DataPage {
        descriptor: descriptor(
            PhysicalType::FixedLenByteArray(2),
            Repetition::Optional,
            Encoding::Plain,
            3,
        ),
        def_levels: vec![3, 0b0000_0101],
        values: vec![1, 2, 3, 4],
        selected_rows: None,
    };
    let state = FixedLenBinaryPageState::try_new(&page, None).unwrap();
    assert_eq!(
        state.decode().unwrap(),
        vec![Some(vec![1, 2]), None, Some(vec![3, 4])]
    );
}

#[test]
fn boolean_pages_decode_bit_packed_values() {
    let page = DataPage {
        descriptor: descriptor(PhysicalType::Boolean, Repetition::Required, Encoding::Plain, 3),
        def_levels: vec![],
        values: vec![0b0000_0101],
        selected_rows: None,
    };
    let state = BooleanPageState::try_new(&page, None).unwrap();
    assert_eq!(
        state.decode().unwrap(),
        vec![Some(true), Some(false), Some(true)]
    );

    let page = DataPage {
        descriptor: descriptor(PhysicalType::Boolean, Repetition::Optional, Encoding::Plain, 4),
        def_levels: vec![3, 0b0000_1101],
        values: vec![0b0000_0010],
        selected_rows: None,
    };
    let state = BooleanPageState::try_new(&page, None).unwrap();
    assert_eq!(
        state.decode().unwrap(),
        vec![Some(false), None, Some(true), Some(false)]
    );

    let page = DataPage {
        descriptor: descriptor(PhysicalType::Boolean, Repetition::Required, Encoding::Plain, 3),
        def_levels: vec![],
        values: vec![0b0000_0101],
        selected_rows: Some(vec![RowInterval { start: 2, length: 1 }]),
    };
    let state = BooleanPageState::try_new(&page, None).unwrap();
    assert_eq!(state.decode().unwrap(), vec![Some(true)]);
}

#[test]
fn hybrid_rle_reads_multi_byte_headers() {
    // the header 400 (an RLE run of 200 values) takes two varint bytes
    let data = vec![0x90u8, 0x03, 9];
    let decoded = hybrid_rle_decode(&data, 8, 200).unwrap();
    assert_eq!(decoded.len(), 200);
    assert!(decoded.iter().all(|v| *v == 9));
}

#[test]
fn uppercasing_and_integer_parsing_back_the_parser() {
    assert_eq!(to_ascii_upper("int32"), "INT32");
    assert_eq!(to_ascii_upper("Fixed_Len_Byte_Array(16)"), "FIXED_LEN_BYTE_ARRAY(16)");
    assert!(str_eq("abc", "abc"));
    assert!(!str_eq("abc", "abd"));
    assert_eq!(parse_decimal_i32("38"), Some(38));
    assert_eq!(parse_decimal_i32("-7"), Some(-7));
    assert_eq!(parse_decimal_i32("2147483647"), Some(i32::MAX));
    assert_eq!(parse_decimal_i32("-2147483648"), Some(i32::MIN));
    assert_eq!(parse_decimal_i32("2147483648"), None);
    assert_eq!(parse_decimal_i32(""), None);
    assert_eq!(parse_decimal_i32("1x"), None);
}

#[test]
fn boolean_dictionary_page_resolves_indices() {
    // a two-entry table: [false, true]
    let dict = read_boolean_dictionary(&[0b0000_0010], 2).unwrap();
    let page = DataPage {
        descriptor: descriptor(
            PhysicalType::Boolean,
            Repetition::Required,
            Encoding::RleDictionary,
            3,
        ),
        def_levels: vec![],
        // one bit-packed group of one-bit indices: 1, 0, 1
        values: vec![3, 0b0000_0101],
        selected_rows: None,
    };
    let state = BooleanPageState::try_new(&page, Some(&dict)).unwrap();
    assert_eq!(
        state.decode().unwrap(),
        vec![Some(true), Some(false), Some(true)]
    );
}

#[test]
fn filtered_binary_page_keeps_selected_rows() {
    let page = DataPage {
        descriptor: descriptor(
            PhysicalType::FixedLenByteArray(2),
            Repetition::Optional,
            Encoding::Plain,
            3,
        ),
        def_levels: vec![3, 0b0000_0101],
        values: vec![1, 2, 3, 4],
        selected_rows: Some(vec![RowInterval { start: 1, length: 2 }]),
    };
    let state = FixedLenBinaryPageState::try_new(&page, None).unwrap();
    assert_eq!(state.decode().unwrap(), vec![None, Some(vec![3, 4])]);

    let page = DataPage {
        descriptor: descriptor(
            PhysicalType::FixedLenByteArray(1),
            Repetition::Required,
            Encoding::Plain,
            3,
        ),
        def_levels: vec![],
        values: vec![7, 8, 9],
        selected_rows: Some(vec![RowInterval { start: 2, length: 1 }]),
    };
    let state = FixedLenBinaryPageState::try_new(&page, None).unwrap();
    assert_eq!(state.decode().unwrap(), vec![Some(vec![9])]);
}
