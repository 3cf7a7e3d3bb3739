use hanekawa::encode::encode;
use hanekawa::parse::{
    parse, parse_integer, parse_string, parse_value, ParseError, MAX_DEPTH, MAX_INPUT_SIZE,
};
use hanekawa::value::{Dict, Value};

fn text(s: &str) -> Value {
    Value::Str(s.as_bytes().to_vec())
}

fn dict(entries: Vec<(&str, Value)>) -> Value {
    let mut d = Dict::new();
    for (key, value) in entries {
        d.insert(key.as_bytes().to_vec(), value);
    }
    Value::Dict(d)
}

#[test]
fn parses_string() {
    let enc = "4:spam";
    assert_eq!(text("spam"), parse(enc.as_bytes()).unwrap())
}

#[test]
fn parses_valid_ints() {
    assert_eq!(Value::Int(3), parse("i3e".as_bytes()).unwrap());
    assert_eq!(Value::Int(0), parse("i0e".as_bytes()).unwrap())
}

#[test]
fn rejects_invalid_ints() {
    assert!(parse("i03e".as_bytes()).is_err(), "leading zeros are invalid");
    assert!(parse("i-0e".as_bytes()).is_err(), "negative zero is invalid");
}

#[test]
fn parses_lists() {
    let enc = "l4:spam4:eggse";
    assert_eq!(
        Value::List(vec![text("spam"), text("eggs")]),
        parse(enc.as_bytes()).unwrap()
    )
}

#[test]
fn parses_dicts() {
    assert_eq!(
        dict(vec![("cow", text("moo")), ("spam", text("eggs"))]),
        parse("d3:cow3:moo4:spam4:eggse".as_bytes()).unwrap()
    );

    assert_eq!(
        dict(vec![("spam", Value::List(vec![text("a"), text("b")]))]),
        parse("d4:spaml1:a1:bee".as_bytes()).unwrap()
    );
}

#[test]
fn invalid_ints_give_invalid_integer() {
    for input in ["i03e", "i-0e", "ie", "i-e", "i12", "i1x", "i", "i-", "i00e", "i+1e", "i1-e"] {
        assert_eq!(
            Err(ParseError::InvalidInteger),
            parse(input.as_bytes()),
            "{}",
            input
        );
    }
}

#[test]
fn parses_negative_ints() {
    assert_eq!(Ok(Value::Int(-42)), parse("i-42e".as_bytes()));
    assert_eq!(Ok(Value::Int(-1)), parse("i-1e".as_bytes()));
    assert_eq!(Ok(Value::Int(10)), parse("i10e".as_bytes()));
}

#[test]
fn integers_are_bounded_to_32_bits() {
    assert_eq!(Ok(Value::Int(2147483647)), parse("i2147483647e".as_bytes()));
    assert_eq!(Ok(Value::Int(-2147483648)), parse("i-2147483648e".as_bytes()));
    assert_eq!(
        Err(ParseError::IntegerOverflow),
        parse("i2147483648e".as_bytes())
    );
    assert_eq!(
        Err(ParseError::IntegerOverflow),
        parse("i-2147483649e".as_bytes())
    );
    assert_eq!(
        Err(ParseError::IntegerOverflow),
        parse("i99999999999999999999999999999999999999999e".as_bytes())
    );
}

#[test]
fn rejects_truncated_string() {
    assert_eq!(Err(ParseError::TruncatedString), parse("5:spam".as_bytes()));
    assert_eq!(Err(ParseError::TruncatedString), parse("1:".as_bytes()));
    assert_eq!(
        Err(ParseError::TruncatedString),
        parse("99999999999999999999999999999999:spam".as_bytes())
    );
}

#[test]
fn string_lengths_are_in_shortest_form() {
    assert_eq!(Ok(text("")), parse("0:".as_bytes()));
    assert_eq!(Err(ParseError::InvalidInteger), parse("04:spam".as_bytes()));
    assert_eq!(Err(ParseError::InvalidInteger), parse("00:".as_bytes()));
    assert_eq!(Ok(text("0123456789")), parse("10:0123456789".as_bytes()));
}

#[test]
fn strings_hold_any_bytes() {
    let input = [b'3', b':', 0xc0, 0x00, 0xff];
    assert_eq!(Ok(Value::Str(vec![0xc0, 0x00, 0xff])), parse(&input));
    assert_eq!(input.to_vec(), encode(&Value::Str(vec![0xc0, 0x00, 0xff])));
}

#[test]
fn rejects_trailing_data() {
    assert_eq!(Err(ParseError::TrailingData), parse("4:spamextra".as_bytes()));
    assert_eq!(Err(ParseError::TrailingData), parse("i1ei2e".as_bytes()));
    assert_eq!(Err(ParseError::TrailingData), parse("i1e\n\n".as_bytes()));
    assert_eq!(Err(ParseError::TrailingData), parse("i1e ".as_bytes()));
}

#[test]
fn accepts_one_line_feed_after_the_document() {
    assert_eq!(Ok(Value::Int(1)), parse("i1e\n".as_bytes()));
    assert_eq!(Ok(text("spam")), parse("4:spam\n".as_bytes()));
    assert_eq!(Ok(text("spa\n")), parse("4:spa\n".as_bytes()));
}

#[test]
fn rejects_unexpected_tokens() {
    for input in ["", "x", "e", "\n", "l4:spam", "l", "d", "d3:cow", "4spam", "4", "di1ei2ee", "lxe", "-1"] {
        assert_eq!(
            Err(ParseError::UnexpectedToken),
            parse(input.as_bytes()),
            "{:?}",
            input
        );
    }
}

#[test]
fn rejects_unsorted_and_repeated_keys() {
    assert_eq!(
        Err(ParseError::UnsortedDictKey),
        parse("d4:spam4:eggs3:cow3:mooe".as_bytes())
    );
    assert_eq!(
        Err(ParseError::UnsortedDictKey),
        parse("d3:cow3:moo3:cow3:mooe".as_bytes())
    );
    assert_eq!(
        Err(ParseError::UnsortedDictKey),
        parse("d2:abi1e1:ai2ee".as_bytes())
    );
    assert_eq!(
        Ok(dict(vec![("a", Value::Int(2)), ("ab", Value::Int(1))])),
        parse("d1:ai2e2:abi1ee".as_bytes())
    );
}

#[test]
fn key_order_is_checked_before_the_value_is_read() {
    assert_eq!(
        Err(ParseError::UnsortedDictKey),
        parse("d1:bi1e1:ai03ee".as_bytes())
    );
}

fn nested_lists(depth: usize) -> Vec<u8> {
    let mut input = vec![b'l'; depth];
    input.extend(vec![b'e'; depth]);
    input
}

#[test]
fn nesting_is_limited() {
    assert_eq!(64, MAX_DEPTH);
    assert!(parse(&nested_lists(MAX_DEPTH)).is_ok());
    assert_eq!(
        Err(ParseError::RecursionLimitExceeded),
        parse(&nested_lists(MAX_DEPTH + 1))
    );
    let mut dicts = Vec::new();
    for _ in 0..(MAX_DEPTH + 1) {
        dicts.extend_from_slice("d1:a".as_bytes());
    }
    assert_eq!(Err(ParseError::RecursionLimitExceeded), parse(&dicts));
}

#[test]
fn input_size_is_limited() {
    assert_eq!(1048576, MAX_INPUT_SIZE);
    let mut input = "1048568:".as_bytes().to_vec();
    input.extend(vec![b'x'; 1048568]);
    assert_eq!(MAX_INPUT_SIZE, input.len());
    assert_eq!(Ok(Value::Str(vec![b'x'; 1048568])), parse(&input));
    let mut longer = "1048569:".as_bytes().to_vec();
    longer.extend(vec![b'x'; 1048569]);
    assert_eq!(Err(ParseError::InputTooLarge), parse(&longer));
    assert_eq!(
        Err(ParseError::InputTooLarge),
        parse(&vec![b'x'; MAX_INPUT_SIZE + 1])
    );
}

#[test]
fn productions_report_where_they_end() {
    let input = "xx4:spami-7ele".as_bytes();
    assert_eq!(Ok(("spam".as_bytes().to_vec(), 8)), parse_string(input, 2));
    assert_eq!(Ok((Value::Int(-7), 12)), parse_integer(input, 8));
    assert_eq!(Ok((Value::List(vec![]), 14)), parse_value(input, 12, 1));
    assert_eq!(
        Err(ParseError::RecursionLimitExceeded),
        parse_value(input, 12, 0)
    );
    assert_eq!(Err(ParseError::UnexpectedToken), parse_value(input, 14, 1));
    assert_eq!(Err(ParseError::UnexpectedToken), parse_value(input, 99, 1));
    assert_eq!(Err(ParseError::UnexpectedToken), parse_string(input, 0));
}

#[test]
fn encodes_each_kind() {
    assert_eq!("4:spam".as_bytes(), encode(&text("spam")));
    assert_eq!("0:".as_bytes(), encode(&text("")));
    assert_eq!("i3e".as_bytes(), encode(&Value::Int(3)));
    assert_eq!("i0e".as_bytes(), encode(&Value::Int(0)));
    assert_eq!("i-42e".as_bytes(), encode(&Value::Int(-42)));
    assert_eq!("i2147483647e".as_bytes(), encode(&Value::Int(i32::MAX)));
    assert_eq!("i-2147483648e".as_bytes(), encode(&Value::Int(i32::MIN)));
    assert_eq!("le".as_bytes(), encode(&Value::List(vec![])));
    assert_eq!("de".as_bytes(), encode(&Value::Dict(Dict::new())));
    assert_eq!(
        "l4:spam4:eggse".as_bytes(),
        encode(&Value::List(vec![text("spam"), text("eggs")]))
    );
    assert_eq!(
        "12:abcdefghijkl".as_bytes(),
        encode(&text("abcdefghijkl"))
    );
}

#[test]
fn encodes_dict_keys_in_ascending_order() {
    let forward = dict(vec![("cow", text("moo")), ("spam", text("eggs"))]);
    let backward = dict(vec![("spam", text("eggs")), ("cow", text("moo"))]);
    assert_eq!("d3:cow3:moo4:spam4:eggse".as_bytes(), encode(&forward));
    assert_eq!("d3:cow3:moo4:spam4:eggse".as_bytes(), encode(&backward));
    assert_eq!(forward, backward);
    let many = dict(vec![
        ("b", Value::Int(2)),
        ("", Value::Int(0)),
        ("ab", Value::Int(12)),
        ("a", Value::Int(1)),
        ("B", Value::Int(-2)),
    ]);
    assert_eq!("d0:i0e1:Bi-2e1:ai1e2:abi12e1:bi2ee".as_bytes(), encode(&many));
}

#[test]
fn dict_keeps_the_last_value_of_a_key() {
    let mut d = Dict::new();
    d.insert("k".as_bytes().to_vec(), Value::Int(1));
    d.insert("j".as_bytes().to_vec(), Value::Int(5));
    d.insert("k".as_bytes().to_vec(), Value::Int(2));
    assert_eq!(2, d.len());
    assert_eq!("j".as_bytes(), d.key_at(0).as_slice());
    assert_eq!(&Value::Int(5), d.value_at(0));
    assert_eq!("k".as_bytes(), d.key_at(1).as_slice());
    assert_eq!(&Value::Int(2), d.value_at(1));
    assert_eq!(Some(&Value::Int(2)), d.get("k".as_bytes()));
    assert_eq!(Some(&Value::Int(5)), d.get("j".as_bytes()));
    assert_eq!(None, d.get("l".as_bytes()));
    assert_eq!(None, d.get("".as_bytes()));
    assert_eq!("d1:ji5e1:ki2ee".as_bytes(), encode(&Value::Dict(d)));
}

fn sample() -> Value {
    dict(vec![
        ("interval", Value::Int(1800)),
        ("peers", Value::Str(vec![192, 0, 2, 1, 0x1a, 0xe1])),
        (
            "nested",
            Value::List(vec![
                Value::Int(-5),
                dict(vec![("z", text("")), ("a", Value::List(vec![]))]),
                text("e"),
            ]),
        ),
    ])
}

#[test]
fn parse_undoes_encode() {
    let values = vec![
        text(""),
        text("spam"),
        Value::Int(0),
        Value::Int(i32::MIN),
        Value::Int(i32::MAX),
        Value::List(vec![]),
        Value::Dict(Dict::new()),
        sample(),
        Value::List(vec![sample(), sample()]),
    ];
    for value in values {
        let encoded = encode(&value);
        assert_eq!(Ok(value.clone()), parse(&encoded));
        let mut with_line_feed = encoded.clone();
        with_line_feed.push(b'\n');
        assert_eq!(Ok(value), parse(&with_line_feed));
    }
}

#[test]
fn encode_undoes_parse() {
    for input in [
        "d3:cow3:moo4:spam4:eggse",
        "d4:spaml1:a1:bee",
        "li1ei-1e0:lelee",
        "d0:de1:ai0ee",
    ] {
        let value = parse(input.as_bytes()).unwrap();
        assert_eq!(input.as_bytes(), encode(&value));
    }
}

#[test]
fn clone_gives_an_equal_value() {
    let value = sample();
    let copy = value.clone();
    assert_eq!(value, copy);
    assert_eq!(encode(&value), encode(&copy));
}

#[test]
fn values_compare_by_content() {
    assert_eq!(sample(), sample());
    assert_ne!(text("a"), text("b"));
    assert_ne!(text("1"), Value::Int(1));
    assert_ne!(Value::List(vec![]), Value::Dict(Dict::new()));
    assert_ne!(
        Value::List(vec![Value::Int(1)]),
        Value::List(vec![Value::Int(1), Value::Int(1)])
    );
    assert_ne!(
        dict(vec![("a", Value::Int(1))]),
        dict(vec![("a", Value::Int(2))])
    );
    assert_ne!(
        dict(vec![("a", Value::Int(1))]),
        dict(vec![("b", Value::Int(1))])
    );
}
