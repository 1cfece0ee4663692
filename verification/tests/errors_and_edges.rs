use bencode::BEncoder;
use bencode::BType;
use bencode::ErrorKind;

#[test]
fn a_stray_character_is_an_unexpected_token() {
    assert_eq!(BEncoder::decode("xx".to_string()), Err(ErrorKind::UnexpectedToken));
}

#[test]
fn an_integer_without_its_e_is_unterminated() {
    assert_eq!(BEncoder::decode("i123".to_string()), Err(ErrorKind::UnterminatedInteger));
}

#[test]
fn an_empty_integer_body_does_not_parse() {
    assert_eq!(BEncoder::decode("ie".to_string()), Err(ErrorKind::IntegerParseError));
}

#[test]
fn a_lone_minus_does_not_parse() {
    assert_eq!(BEncoder::decode("i-e".to_string()), Err(ErrorKind::IntegerParseError));
}

#[test]
fn a_stray_character_in_an_integer_does_not_parse() {
    assert_eq!(BEncoder::decode("i12x4e".to_string()), Err(ErrorKind::IntegerParseError));
}

#[test]
fn a_64_bit_overflow_is_a_parse_error_not_a_wrap() {
    assert_eq!(
        BEncoder::decode("i9223372036854775808e".to_string()),
        Err(ErrorKind::IntegerParseError)
    );
    assert_eq!(
        BEncoder::decode("i-9223372036854775809e".to_string()),
        Err(ErrorKind::IntegerParseError)
    );
}

#[test]
fn the_64_bit_bounds_themselves_parse() {
    assert_eq!(
        BEncoder::decode("i9223372036854775807e".to_string()),
        Ok(BType::Integer(i64::MAX))
    );
    assert_eq!(
        BEncoder::decode("i-9223372036854775808e".to_string()),
        Ok(BType::Integer(i64::MIN))
    );
}

#[test]
fn leading_zeros_and_minus_zero_are_accepted() {
    assert_eq!(BEncoder::decode("i007e".to_string()), Ok(BType::Integer(7)));
    assert_eq!(BEncoder::decode("i-0e".to_string()), Ok(BType::Integer(0)));
}

#[test]
fn an_empty_string_decodes() {
    assert_eq!(BEncoder::decode("0:".to_string()), Ok(BType::ByteString(String::new())));
}

#[test]
fn a_short_payload_is_truncated_not_an_error() {
    assert_eq!(BEncoder::decode("5:he".to_string()), Ok(BType::ByteString("he".to_string())));
}

#[test]
fn a_length_prefix_without_its_colon_is_a_length_error() {
    assert_eq!(BEncoder::decode("12".to_string()), Err(ErrorKind::StringLengthParseError));
}

#[test]
fn a_stray_character_in_a_length_prefix_is_a_length_error() {
    assert_eq!(BEncoder::decode("1x:aa".to_string()), Err(ErrorKind::StringLengthParseError));
}

#[test]
fn a_list_without_its_e_is_unterminated() {
    assert_eq!(BEncoder::decode("l5:hello".to_string()), Err(ErrorKind::UnterminatedList));
}

#[test]
fn a_nested_list_missing_the_outer_e_is_unterminated() {
    assert_eq!(BEncoder::decode("ll5:helloe".to_string()), Err(ErrorKind::UnterminatedList));
}

#[test]
fn a_dict_without_its_e_is_unterminated() {
    assert_eq!(BEncoder::decode("d4:key1".to_string()), Err(ErrorKind::UnterminatedDict));
}

#[test]
fn an_unterminated_list_inside_a_dict_reports_the_list() {
    assert_eq!(BEncoder::decode("d2:okli1e".to_string()), Err(ErrorKind::UnterminatedList));
}

#[test]
fn a_dict_with_an_odd_element_count_is_rejected() {
    assert_eq!(BEncoder::decode("d2:oke".to_string()), Err(ErrorKind::OddDictElements));
}

#[test]
fn a_non_string_dict_key_is_rejected() {
    assert_eq!(BEncoder::decode("di1e2:oke".to_string()), Err(ErrorKind::NonStringDictKey));
}

#[test]
fn a_repeated_dict_key_keeps_the_later_value() {
    assert_eq!(
        BEncoder::decode("d1:a1:x1:a1:ye".to_string()),
        Ok(BType::Dict(vec![("a".to_string(), BType::ByteString("y".to_string()))]))
    );
}

#[test]
fn errors_inside_a_list_are_propagated_unchanged() {
    assert_eq!(BEncoder::decode("li12xee".to_string()), Err(ErrorKind::IntegerParseError));
}

#[test]
fn whatever_follows_a_complete_value_is_ignored() {
    assert_eq!(BEncoder::decode("lei9e".to_string()), Ok(BType::List(vec![])));
}

#[test]
fn decoding_the_same_input_twice_gives_the_same_answer() {
    let a = BEncoder::decode("ll5:helloei-10ee".to_string());
    let b = BEncoder::decode("ll5:helloei-10ee".to_string());
    assert_eq!(a, b);
}
