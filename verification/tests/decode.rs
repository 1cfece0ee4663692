use bencode::BEncoder;
use bencode::BType;
use bencode::ErrorKind;

#[test]
fn it_errors_when_string_is_too_short() {
    let result = BEncoder::decode("l".to_string());

    assert_eq!(result, Err(ErrorKind::InputTooShort));
}

#[test]
fn it_can_parse_a_positive_integer() {
    let result = BEncoder::decode("i123456789e".to_string());

    assert!(result.is_ok());
    assert_eq!(result.unwrap(), BType::Integer(123456789));
}

#[test]
fn it_can_parse_a_negative_integer() {
    let result = BEncoder::decode("i-123e".to_string());

    assert!(result.is_ok());
    assert_eq!(result.unwrap(), BType::Integer(-123));
}

#[test]
fn it_can_parse_a_string() {
    let result = BEncoder::decode("5:hello".to_string());

    assert!(result.is_ok());
    assert_eq!(result.unwrap(), BType::ByteString("hello".to_string()));
}

#[test]
fn it_only_parses_the_number_of_bytes_specified() {
    let result = BEncoder::decode("4:hello".to_string());

    assert!(result.is_ok());
    assert_eq!(result.unwrap(), BType::ByteString("hell".to_string()));
}

#[test]
fn it_can_parse_an_empty_list() {
    let result = BEncoder::decode("le".to_string());

    assert!(result.is_ok());
    assert_eq!(result.unwrap(), BType::List(vec![]));
}

#[test]
fn it_can_parse_a_basic_list() {
    let result = BEncoder::decode("l5:helloe".to_string());

    assert!(result.is_ok());
    assert_eq!(result.unwrap(), BType::List(vec![BType::ByteString("hello".to_string())]));
}

#[test]
fn it_can_parse_a_nested_list() {
    let result = BEncoder::decode("ll5:helloee".to_string());

    assert!(result.is_ok());
    assert_eq!(
        result.unwrap(),
        BType::List(vec![BType::List(vec![BType::ByteString("hello".to_string())])])
    );
}

#[test]
fn it_can_parse_a_complex_list() {
    let result = BEncoder::decode("ll5:helloei-10ee".to_string());

    assert!(result.is_ok());
    assert_eq!(
        result.unwrap(),
        BType::List(vec![
            BType::List(vec![BType::ByteString("hello".to_string())]),
            BType::Integer(-10)
        ])
    );
}

#[test]
fn it_can_parse_an_empty_dict() {
    let result = BEncoder::decode("de".to_string());

    assert!(result.is_ok());
    assert_eq!(result.unwrap(), BType::Dict(vec![]));
}

#[test]
fn it_can_parse_a_simple_dict() {
    let result = BEncoder::decode("d4:key16:value14:key26:value2e".to_string());

    let example = vec![
        ("key1".to_string(), BType::ByteString("value1".to_string())),
        ("key2".to_string(), BType::ByteString("value2".to_string())),
    ];

    assert!(result.is_ok());
    assert_eq!(result.unwrap(), BType::Dict(example));
}

#[test]
fn it_can_parse_a_complex_dict() {
    let result =
        BEncoder::decode("d4:key16:value14:key26:value22:okll5:helloei-10eee".to_string());

    let example = vec![
        ("key1".to_string(), BType::ByteString("value1".to_string())),
        ("key2".to_string(), BType::ByteString("value2".to_string())),
        (
            "ok".to_string(),
            BType::List(vec![
                BType::List(vec![BType::ByteString("hello".to_string())]),
                BType::Integer(-10),
            ]),
        ),
    ];

    assert!(result.is_ok());
    assert_eq!(result.unwrap(), BType::Dict(example));
}
