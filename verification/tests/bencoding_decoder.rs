use web_rust::bencoding::decoder::{to_dic, to_integer, to_list, to_string};
use web_rust::bencoding::values::{ErrorBencoding, ErrorType, ValuesBencoding};

#[test]
fn to_string_ok() {
    let bencoding_string = String::from("3:exe");
    let bencoding_bytes = bencoding_string.as_bytes().to_vec();
    let return_str = String::from("exe").as_bytes().to_vec();
    let return_rest = vec![];

    let result = to_string(bencoding_bytes);
    assert_eq!(result, Ok((return_str, return_rest)));
}

#[test]
fn to_string_ok_rest_valid() {
    let bencoding_string = String::from("5:magic4:testi32e");
    let bencoding_bytes = bencoding_string.as_bytes().to_vec();
    let return_str = "magic".as_bytes().to_vec();
    let return_rest = "4:testi32e".as_bytes().to_vec();

    let result = to_string(bencoding_bytes);

    assert_eq!(result, Ok((return_str, return_rest)));

    let return_str = "test".as_bytes().to_vec();
    let return_rest = "i32e".as_bytes().to_vec();

    if let Ok((_, rest)) = result {
        let result = to_string(rest);
        assert_eq!(result, Ok((return_str, return_rest)));
    }
}

#[test]
fn to_string_error_format() {
    let bencoding = "4exe".as_bytes().to_vec();
    assert_eq!(to_string(bencoding), Err(ErrorBencoding::String(ErrorType::Format)));
}

#[test]
fn to_string_error_without_number() {
    let bencoding = "test".as_bytes().to_vec();
    assert_eq!(to_string(bencoding), Err(ErrorBencoding::String(ErrorType::Format)));
}

#[test]
fn to_string_error_invalid_number() {
    let bencoding = "a:test".as_bytes().to_vec();
    assert_eq!(to_string(bencoding), Err(ErrorBencoding::String(ErrorType::Format)));
}

#[test]
fn to_string_error_invalid_long() {
    let bencoding = "12:test".as_bytes().to_vec();
    assert_eq!(to_string(bencoding), Err(ErrorBencoding::String(ErrorType::Long)));
}

#[test]
fn to_integer_ok_positive() {
    let bencoding_int = "i32e".as_bytes().to_vec();
    let return_int = 32;
    let return_rest = vec![];

    let result = to_integer(bencoding_int);
    assert_eq!(result, Ok((return_int, return_rest)));
}

#[test]
fn to_integer_ok_negative() {
    let bencoding_int = "i-320e".as_bytes().to_vec();
    let return_int = -320;
    let return_rest = vec![];

    let result = to_integer(bencoding_int);
    assert_eq!(result, Ok((return_int, return_rest)));
}

#[test]
fn to_integer_ok_rest_valid() {
    let bencoding_int = "i32ei-200e4:test".as_bytes().to_vec();
    let return_int = 32;
    let return_rest = "i-200e4:test".as_bytes().to_vec();

    let result = to_integer(bencoding_int);
    assert_eq!(result, Ok((return_int, return_rest)));

    let return_int = -200;
    let return_rest = "4:test".as_bytes().to_vec();

    if let Ok((_, rest)) = result {
        let result = to_integer(rest);
        assert_eq!(result, Ok((return_int, return_rest)))
    }
}

#[test]
fn to_integer_error_format() {
    let bencoding_int = "32e".as_bytes().to_vec();
    assert_eq!(to_integer(bencoding_int), Err(ErrorBencoding::Integer(ErrorType::Format)));

    let bencoding_int = "i32".as_bytes().to_vec();
    assert_eq!(to_integer(bencoding_int), Err(ErrorBencoding::Integer(ErrorType::Format)));
}

#[test]
fn to_integer_error_minus_zero() {
    let bencoding_int = "i-0e".as_bytes().to_vec();
    assert_eq!(to_integer(bencoding_int), Err(ErrorBencoding::Integer(ErrorType::Number)));
}

#[test]
fn to_integer_error_zero_and_number() {
    let bencoding_int = "i018e".as_bytes().to_vec();
    assert_eq!(to_integer(bencoding_int), Err(ErrorBencoding::Integer(ErrorType::Number)));

    let bencoding_int = "i-08e".as_bytes().to_vec();
    assert_eq!(to_integer(bencoding_int), Err(ErrorBencoding::Integer(ErrorType::Number)));
}

#[test]
fn to_integer_error_invalid_number() {
    let bencoding_int = "i2a3e".as_bytes().to_vec();
    assert_eq!(to_integer(bencoding_int), Err(ErrorBencoding::Integer(ErrorType::Number)));
}

#[test]
fn to_list_ok() {
    let str_expected = ValuesBencoding::String("test".as_bytes().to_vec());
    let int_expected = ValuesBencoding::Integer(32);
    let rest_expected = "3:exe".as_bytes().to_vec();
    let result_expected = (vec![str_expected, int_expected], rest_expected);
    let to_parse = "l4:testi32ee3:exe".as_bytes().to_vec();
    let result = to_list(to_parse);
    assert_eq!(result, Ok(result_expected));
}

#[test]
fn to_list_inside_list_ok() {
    let str_expected = ValuesBencoding::String("test".as_bytes().to_vec());
    let int_expected = ValuesBencoding::Integer(32);
    let vec_expected = ValuesBencoding::List(vec![str_expected, int_expected]);
    let rest_expected = "3:exe".as_bytes().to_vec();
    let result_expected = (vec![vec_expected], rest_expected);
    let to_parse = "ll4:testi32eee3:exe".as_bytes().to_vec();
    let result = to_list(to_parse);
    assert_eq!(result, Ok(result_expected));
}

#[test]
fn to_list_error_format() {
    let to_parse = "4:testi32ee3:exe".as_bytes().to_vec();
    assert_eq!(to_list(to_parse), Err(ErrorBencoding::List(ErrorType::Format)));

    let to_parse = "la:testi32ee3:exe".as_bytes().to_vec();
    assert_eq!(to_list(to_parse), Err(ErrorBencoding::List(ErrorType::Format)));
}

#[test]
fn to_list_error_not_close() {
    let to_parse = "l4:testi32e3:exe".as_bytes().to_vec();
    assert_eq!(to_list(to_parse), Err(ErrorBencoding::List(ErrorType::Format)));
}

#[test]
fn to_list_error_string() {
    let to_parse = "l4teste".as_bytes().to_vec();
    assert_eq!(to_list(to_parse), Err(ErrorBencoding::String(ErrorType::Format)));

    let to_parse = "l10:teste".as_bytes().to_vec();
    assert_eq!(to_list(to_parse), Err(ErrorBencoding::String(ErrorType::Long)));
}

#[test]
fn to_list_error_integer() {
    let to_parse = "li-0ee".as_bytes().to_vec();
    assert_eq!(to_list(to_parse), Err(ErrorBencoding::Integer(ErrorType::Number)));

    let to_parse = "li032ee".as_bytes().to_vec();
    assert_eq!(to_list(to_parse), Err(ErrorBencoding::Integer(ErrorType::Number)));

    let to_parse = "li5".as_bytes().to_vec();
    assert_eq!(to_list(to_parse), Err(ErrorBencoding::Integer(ErrorType::Format)));
}

#[test]
fn to_dic_create_ok() {
    let bencoding = "d8:announcei32e4:test3:exee3:exe".as_bytes().to_vec();
    let mut dic_expected = Vec::new();
    dic_expected.push(("announce".as_bytes().to_vec(), ValuesBencoding::Integer(32)));
    dic_expected.push((
        "test".as_bytes().to_vec(),
        ValuesBencoding::String("exe".as_bytes().to_vec()),
    ));
    let rest_expected = "3:exe".as_bytes().to_vec();

    assert_eq!(Ok((dic_expected, rest_expected)), to_dic(bencoding));
}

#[test]
fn to_dic_create_with_list_inside_ok() {
    let bencoding = "d8:announceli32ei-12ei0e4:abcde4:test3:exee3:exe"
        .as_bytes()
        .to_vec();
    let mut dic_expected = Vec::new();
    let list = vec![
        ValuesBencoding::Integer(32),
        ValuesBencoding::Integer(-12),
        ValuesBencoding::Integer(0),
        ValuesBencoding::String("abcd".as_bytes().to_vec()),
    ];
    dic_expected.push(("announce".as_bytes().to_vec(), ValuesBencoding::List(list)));
    dic_expected.push((
        "test".as_bytes().to_vec(),
        ValuesBencoding::String("exe".as_bytes().to_vec()),
    ));
    let rest_expected = "3:exe".as_bytes().to_vec();

    assert_eq!(Ok((dic_expected, rest_expected)), to_dic(bencoding));
}

#[test]
fn to_dic_create_with_dic_inside_ok() {
    let bencoding = "d8:announced4:abcdi32ee4:test3:exee3:exe"
        .as_bytes()
        .to_vec();
    let mut dic_expected = Vec::new();
    let mut dic = Vec::new();
    dic.push(("abcd".as_bytes().to_vec(), ValuesBencoding::Integer(32)));
    dic_expected.push(("announce".as_bytes().to_vec(), ValuesBencoding::Dic(dic)));
    dic_expected.push((
        "test".as_bytes().to_vec(),
        ValuesBencoding::String("exe".as_bytes().to_vec()),
    ));
    let rest_expected = "3:exe".as_bytes().to_vec();

    assert_eq!(Ok((dic_expected, rest_expected)), to_dic(bencoding));
}

#[test]
fn to_dic_create_complex_ok() {
    let bencoding = "d4:listl1:A1:B1:Ci32ei0ee3:dicd1:Ai-125e1:Bi100e1:C3:fine8:dic_listd1:Ali1ei2ei3ee1:Bli-1ei-2ei-3eee8:list_dicld1:Ai32e1:Bi-125eeee".as_bytes().to_vec();

    let mut dic_expected = Vec::new();

    let a = String::from("A");
    let b = String::from("B");
    let c = String::from("C");
    let list = vec![
        ValuesBencoding::String(a.clone().as_bytes().to_vec()),
        ValuesBencoding::String(b.clone().as_bytes().to_vec()),
        ValuesBencoding::String(c.clone().as_bytes().to_vec()),
        ValuesBencoding::Integer(32),
        ValuesBencoding::Integer(0),
    ];

    dic_expected.push(("list".as_bytes().to_vec(), ValuesBencoding::List(list)));

    let mut dic = Vec::new();

    dic.push((a.clone().as_bytes().to_vec(), ValuesBencoding::Integer(-125)));
    dic.push((b.clone().as_bytes().to_vec(), ValuesBencoding::Integer(100)));
    dic.push((
        c.clone().as_bytes().to_vec(),
        ValuesBencoding::String("fin".as_bytes().to_vec()),
    ));

    dic_expected.push(("dic".as_bytes().to_vec(), ValuesBencoding::Dic(dic)));

    let list1 = vec![
        ValuesBencoding::Integer(1),
        ValuesBencoding::Integer(2),
        ValuesBencoding::Integer(3),
    ];
    let list2 = vec![
        ValuesBencoding::Integer(-1),
        ValuesBencoding::Integer(-2),
        ValuesBencoding::Integer(-3),
    ];

    let mut dic_list = Vec::new();
    dic_list.push((a.clone().as_bytes().to_vec(), ValuesBencoding::List(list1)));
    dic_list.push((b.clone().as_bytes().to_vec(), ValuesBencoding::List(list2)));

    dic_expected.push(("dic_list".as_bytes().to_vec(), ValuesBencoding::Dic(dic_list)));

    let mut dic_in_list = Vec::new();
    dic_in_list.push((a.clone().as_bytes().to_vec(), ValuesBencoding::Integer(32)));
    dic_in_list.push((b.clone().as_bytes().to_vec(), ValuesBencoding::Integer(-125)));

    let list_dic = vec![ValuesBencoding::Dic(dic_in_list)];

    dic_expected.push(("list_dic".as_bytes().to_vec(), ValuesBencoding::List(list_dic)));

    assert_eq!(Ok((dic_expected, vec![])), to_dic(bencoding))
}

#[test]
fn to_dic_invalid_format() {
    let bencoding = "8:announcei32e4:test3:exee3:exe".as_bytes().to_vec();
    assert_eq!(Err(ErrorBencoding::Dic(ErrorType::Format)), to_dic(bencoding));

    let bencoding = "d8:announcei32e4:test3:exe3:exe".as_bytes().to_vec();
    assert_eq!(Err(ErrorBencoding::Dic(ErrorType::Format)), to_dic(bencoding));

    let bencoding = "d8:announcei32e4:test3:exe".as_bytes().to_vec();
    assert_eq!(Err(ErrorBencoding::Dic(ErrorType::Format)), to_dic(bencoding));
}

#[test]
fn to_dic_invalid_key() {
    let bencoding = "di0ei32e4:test3:exee3:exe".as_bytes().to_vec();
    assert_eq!(Err(ErrorBencoding::Dic(ErrorType::Format)), to_dic(bencoding));
}

#[test]
fn to_dic_invalid_num() {
    let bencoding = "d8:announcei-0e4:test3:exee3:exe".as_bytes().to_vec();
    assert_eq!(Err(ErrorBencoding::Integer(ErrorType::Number)), to_dic(bencoding));
}

#[test]
fn to_dic_invalid_list() {
    let bencoding = "d8:announcei32e4:testl2:el".as_bytes().to_vec();
    assert_eq!(Err(ErrorBencoding::List(ErrorType::Format)), to_dic(bencoding));

    let bencoding = "d8:announcei32e4:testlf:ele".as_bytes().to_vec();
    assert_eq!(Err(ErrorBencoding::List(ErrorType::Format)), to_dic(bencoding));

    let bencoding = "d8:announcei32e4:testl2:eli-0eee".as_bytes().to_vec();
    assert_eq!(Err(ErrorBencoding::Integer(ErrorType::Number)), to_dic(bencoding));
}

#[test]
fn to_dic_invalid_dic() {
    let bencoding = "d8:announcei32e4:testdi32ee".as_bytes().to_vec();
    assert_eq!(Err(ErrorBencoding::Dic(ErrorType::Format)), to_dic(bencoding));

    let bencoding = "d8:announcei32e4:testd3:exei-12e".as_bytes().to_vec();
    assert_eq!(Err(ErrorBencoding::Dic(ErrorType::Format)), to_dic(bencoding));

    let bencoding = "d8:announcei32e3:inid4:testi-0ee".as_bytes().to_vec();
    assert_eq!(Err(ErrorBencoding::Integer(ErrorType::Number)), to_dic(bencoding));
}
