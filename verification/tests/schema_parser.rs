use parquet2::errors::ParquetError;
use parquet2::schema::parser::{assert_token, parse_message_type, Parser, Tokenizer};
use parquet2::schema::types::{
    GroupConvertedType, ParquetType, PhysicalType, PrimitiveConvertedType, Repetition,
};

#[test]
fn test_tokenize_empty_string() {
    assert_eq!(Tokenizer::from_str("").next(), None);
}

#[test]
fn test_tokenize_delimiters() {
    let mut iter = Tokenizer::from_str(",;{}()=");
    assert_eq!(iter.next(), Some(","));
    assert_eq!(iter.next(), Some(";"));
    assert_eq!(iter.next(), Some("{"));
    assert_eq!(iter.next(), Some("}"));
    assert_eq!(iter.next(), Some("("));
    assert_eq!(iter.next(), Some(")"));
    assert_eq!(iter.next(), Some("="));
    assert_eq!(iter.next(), None);
}

#[test]
fn test_tokenize_delimiters_with_whitespaces() {
    let mut iter = Tokenizer::from_str(" , ; { } ( ) = ");
    assert_eq!(iter.next(), Some(","));
    assert_eq!(iter.next(), Some(";"));
    assert_eq!(iter.next(), Some("{"));
    assert_eq!(iter.next(), Some("}"));
    assert_eq!(iter.next(), Some("("));
    assert_eq!(iter.next(), Some(")"));
    assert_eq!(iter.next(), Some("="));
    assert_eq!(iter.next(), None);
}

#[test]
fn test_tokenize_words() {
    let mut iter = Tokenizer::from_str("abc def ghi jkl mno");
    assert_eq!(iter.next(), Some("abc"));
    assert_eq!(iter.next(), Some("def"));
    assert_eq!(iter.next(), Some("ghi"));
    assert_eq!(iter.next(), Some("jkl"));
    assert_eq!(iter.next(), Some("mno"));
    assert_eq!(iter.next(), None);
}

#[test]
fn test_tokenize_backtrack() {
    let mut iter = Tokenizer::from_str("abc;");
    assert_eq!(iter.next(), Some("abc"));
    assert_eq!(iter.next(), Some(";"));
    iter.backtrack();
    assert_eq!(iter.next(), Some(";"));
    assert_eq!(iter.next(), None);
}

#[test]
fn test_tokenize_message_type() {
    let schema = "
    message schema {
      required int32 a;
      optional binary c (UTF8);
      required group d {
        required int32 a;
        optional binary c (UTF8);
      }
      required group e (LIST) {
        repeated group list {
          required int32 element;
        }
      }
    }
    ";
    let mut iter = Tokenizer::from_str(schema);
    let mut res = Vec::new();
    while let Some(token) = iter.next() {
        res.push(token);
    }
    assert_eq!(
        res,
        vec![
            "message", "schema", "{", "required", "int32", "a", ";", "optional", "binary", "c",
            "(", "UTF8", ")", ";", "required", "group", "d", "{", "required", "int32", "a", ";",
            "optional", "binary", "c", "(", "UTF8", ")", ";", "}", "required", "group", "e", "(",
            "LIST", ")", "{", "repeated", "group", "list", "{", "required", "int32", "element",
            ";", "}", "}", "}"
        ]
    );
}

#[test]
fn test_assert_token() {
    assert!(assert_token(Some("a"), "a").is_ok());
    assert!(assert_token(Some("a"), "b").is_err());
    assert!(assert_token(None, "b").is_err());
}

#[test]
fn test_parse_message_type_invalid() {
    let iter = Tokenizer::from_str("test");
    let result = Parser { tokenizer: iter }.parse_message_type();
    assert!(result.is_err());
    assert_eq!(
        result.unwrap_err().to_string(),
        "Parquet error: Message type does not start with 'message'"
    );
}

#[test]
fn test_parse_message_type_no_name() {
    let iter = Tokenizer::from_str("message");
    let result = Parser { tokenizer: iter }.parse_message_type();
    assert!(result.is_err());
    assert_eq!(
        result.unwrap_err().to_string(),
        "Parquet error: Expected name, found None"
    );
}

#[test]
fn test_parse_message_type_fixed_byte_array() {
    let schema = "
    message schema {
      REQUIRED FIXED_LEN_BYTE_ARRAY col;
    }
    ";
    let iter = Tokenizer::from_str(schema);
    let result = Parser { tokenizer: iter }.parse_message_type();
    assert!(result.is_err());

    let schema = "
    message schema {
      REQUIRED FIXED_LEN_BYTE_ARRAY(16) col;
    }
    ";
    let iter = Tokenizer::from_str(schema);
    let result = Parser { tokenizer: iter }.parse_message_type();
    assert!(result.is_ok());
}

#[test]
fn test_parse_message_type_decimal() {
    // It is okay for decimal to omit precision and scale with right syntax.
    // Here we test wrong syntax of decimal type

    // Invalid decimal syntax
    let schema = "
    message root {
      optional int32 f1 (DECIMAL();
    }
    ";
    let iter = Tokenizer::from_str(schema);
    let result = Parser { tokenizer: iter }.parse_message_type();
    assert!(result.is_err());

    // Invalid decimal, need precision and scale
    let schema = "
    message root {
      optional int32 f1 (DECIMAL());
    }
    ";
    let iter = Tokenizer::from_str(schema);
    let result = Parser { tokenizer: iter }.parse_message_type();
    assert!(result.is_err());

    // Invalid decimal because of `,` - has precision, needs scale
    let schema = "
    message root {
      optional int32 f1 (DECIMAL(8,));
    }
    ";
    let iter = Tokenizer::from_str(schema);
    let result = Parser { tokenizer: iter }.parse_message_type();
    assert!(result.is_err());
}

#[test]
fn test_parse_decimal_wrong() {
    // Invalid decimal because, we always require either precision or scale to be
    // specified as part of converted type
    let schema = "
    message root {
      optional int32 f3 (DECIMAL);
    }
    ";
    let iter = Tokenizer::from_str(schema);
    let result = Parser { tokenizer: iter }.parse_message_type();
    assert!(result.is_err());

    // Valid decimal (precision, scale)
    let schema = "
    message root {
      optional int32 f1 (DECIMAL(8, 3));
      optional int32 f2 (DECIMAL(8));
    }
    ";
    let iter = Tokenizer::from_str(schema);
    let result = Parser { tokenizer: iter }.parse_message_type();
    assert!(result.is_ok());
}

#[test]
fn test_parse_message_type_compare_1() -> Result<(), ParquetError> {
    let schema = "
    message root {
      optional fixed_len_byte_array(5) f1 (DECIMAL(9, 3));
      optional fixed_len_byte_array (16) f2 (DECIMAL (38, 18));
    }
    ";
    let iter = Tokenizer::from_str(schema);
    let message = Parser { tokenizer: iter }.parse_message_type().unwrap();

    let fields = vec![
        ParquetType::try_from_primitive(
            "f1".to_string(),
            PhysicalType::FixedLenByteArray(5),
            Repetition::Optional,
            Some(PrimitiveConvertedType::Decimal(9, 3)),
            None,
        )?,
        ParquetType::try_from_primitive(
            "f2".to_string(),
            PhysicalType::FixedLenByteArray(16),
            Repetition::Optional,
            Some(PrimitiveConvertedType::Decimal(38, 18)),
            None,
        )?,
    ];

    let expected = ParquetType::from_fields("root".to_string(), fields);

    assert_eq!(message, expected);
    Ok(())
}

#[test]
fn test_parse_message_type_compare_2() -> Result<(), ParquetError> {
    let schema = "
    message root {
      required group a0 {
        optional group a1 (LIST) {
          repeated binary a2 (UTF8);
        }

        optional group b1 (LIST) {
          repeated group b2 {
            optional int32 b3;
            optional double b4;
          }
        }
      }
    }
    ";
    let iter = Tokenizer::from_str(schema);
    let message = Parser { tokenizer: iter }.parse_message_type().unwrap();

    let a2 = ParquetType::try_from_primitive(
        "a2".to_string(),
        PhysicalType::ByteArray,
        Repetition::Repeated,
        Some(PrimitiveConvertedType::Utf8),
        None,
    )?;
    let a1 = ParquetType::from_converted(
        "a1".to_string(),
        vec![a2],
        None,
        Some(GroupConvertedType::List),
        None,
    );
    let b2 = ParquetType::from_converted(
        "b2".to_string(),
        vec![
            ParquetType::from_physical("b3".to_string(), PhysicalType::Int32),
            ParquetType::from_physical("b4".to_string(), PhysicalType::Double),
        ],
        Some(Repetition::Repeated),
        None,
        None,
    );
    let b1 = ParquetType::from_converted(
        "b1".to_string(),
        vec![b2],
        None,
        Some(GroupConvertedType::List),
        None,
    );
    let a0 = ParquetType::from_converted(
        "a0".to_string(),
        vec![a1, b1],
        Some(Repetition::Required),
        None,
        None,
    );

    let expected = ParquetType::from_fields("root".to_string(), vec![a0]);

    assert_eq!(message, expected);
    Ok(())
}

#[test]
fn test_parse_message_type_free_function() {
    let message = parse_message_type("message m { required int32 a; }").unwrap();
    let expected = ParquetType::from_fields(
        "m".to_string(),
        vec![ParquetType::try_from_primitive(
            "a".to_string(),
            PhysicalType::Int32,
            Repetition::Required,
            None,
            None,
        )
        .unwrap()],
    );
    assert_eq!(message, expected);
}

#[test]
fn test_tokenize_unicode_whitespace() {
    let mut iter = Tokenizer::from_str("a\u{2003}b\u{00a0};");
    assert_eq!(iter.next(), Some("a"));
    assert_eq!(iter.next(), Some("b"));
    assert_eq!(iter.next(), Some(";"));
    assert_eq!(iter.next(), None);
}
