use resp_kv::resp::data_type::{DataType, DataTypeParsingError};

#[test]
fn type_flags() {
    assert!(matches!(DataType::try_from('+'), Ok(DataType::SimpleString)));
    assert!(matches!(DataType::try_from('-'), Ok(DataType::SimpleError)));
    assert!(matches!(DataType::try_from(':'), Ok(DataType::Integer)));
    assert!(matches!(DataType::try_from('$'), Ok(DataType::BulkString)));
    assert!(matches!(DataType::try_from('*'), Ok(DataType::Array)));
    assert!(matches!(
        DataType::try_from('x'),
        Err(DataTypeParsingError::UnknownTypeFlag('x'))
    ));
}

#[test]
fn unknown_flag_message() {
    assert_eq!(
        DataTypeParsingError::UnknownTypeFlag('x').message(),
        "Unknown type_flag: x"
    );
}
