use bencode::decoder::{parse, parse_data, parse_dict, parse_list, parse_number, parse_string, read_bytes, read_int};
use bencode::grammar::{ParseErr, MAX_DEPTH};
use bencode::value::{BData, BDict};

fn doc(s: &str) -> Vec<u8> {
    s.as_bytes().to_vec()
}

fn bytes(s: &str) -> BData {
    BData::BString(s.as_bytes().to_vec())
}

fn error_of(s: &str) -> ParseErr {
    match parse(&doc(s)) {
        Ok(_) => panic!("{} was accepted", s),
        Err(e) => e,
    }
}

#[test]
fn empty_containers_decode() {
    assert_eq!(parse(&doc("le")), Ok((BData::List(vec![]), 2)));
    assert_eq!(parse(&doc("de")), Ok((BData::Dict(BDict::new()), 2)));
    assert_eq!(parse(&doc("0:")), Ok((BData::BString(vec![]), 2)));
}

#[test]
fn integer_boundaries() {
    assert_eq!(parse(&doc("i0e")), Ok((BData::Number(0), 3)));
    assert_eq!(error_of("i-0e"), ParseErr::SyntaxError);
    assert_eq!(error_of("i3.2e"), ParseErr::SyntaxError);
    assert_eq!(parse(&doc("i2147483647e")), Ok((BData::Number(i32::MAX), 12)));
    assert_eq!(parse(&doc("i-2147483648e")), Ok((BData::Number(i32::MIN), 13)));
    assert_eq!(error_of("i2147483648e"), ParseErr::ParseFailure);
    assert_eq!(error_of("i-2147483649e"), ParseErr::ParseFailure);
    assert_eq!(error_of("i9223372036854775807e"), ParseErr::ParseFailure);
    assert_eq!(
        error_of("i340282366920938463463374607431768211456000e"),
        ParseErr::ParseFailure
    );
}

#[test]
fn zero_is_written_in_one_way_only() {
    assert_eq!(error_of("i00e"), ParseErr::SyntaxError);
    assert_eq!(error_of("i-00e"), ParseErr::SyntaxError);
    assert_eq!(error_of("i000000000000000000000000000000e"), ParseErr::SyntaxError);
}

#[test]
fn leading_zeros_of_other_numbers_are_read() {
    assert_eq!(parse(&doc("i007e")), Ok((BData::Number(7), 5)));
    assert_eq!(parse(&doc("i-012e")), Ok((BData::Number(-12), 6)));
    assert_eq!(
        parse(&doc("i00000000000000000000000000000002147483647e")),
        Ok((BData::Number(i32::MAX), 43))
    );
    assert_eq!(parse(&doc("03:abc")), Ok((bytes("abc"), 6)));
    assert_eq!(parse(&doc("000000000000000000000000000001:x")), Ok((bytes("x"), 32)));
    assert_eq!(parse(&doc("00:")), Ok((bytes(""), 3)));
}

#[test]
fn signs_in_integers() {
    assert_eq!(error_of("i+5e"), ParseErr::SyntaxError);
    assert_eq!(error_of("i--5e"), ParseErr::SyntaxError);
    assert_eq!(error_of("i5-e"), ParseErr::SyntaxError);
    assert_eq!(error_of("i3-2e"), ParseErr::SyntaxError);
    assert_eq!(error_of("i-e"), ParseErr::SyntaxError);
    assert_eq!(error_of("ie"), ParseErr::SyntaxError);
    assert_eq!(error_of("i e"), ParseErr::SyntaxError);
}

#[test]
fn truncated_input() {
    assert_eq!(error_of("3:ab"), ParseErr::DataException);
    assert_eq!(error_of("i32"), ParseErr::DataException);
    assert_eq!(error_of(""), ParseErr::DataException);
    assert_eq!(error_of("i"), ParseErr::DataException);
    assert_eq!(error_of("i-"), ParseErr::DataException);
    assert_eq!(error_of("i-0"), ParseErr::DataException);
    assert_eq!(error_of("3"), ParseErr::DataException);
    assert_eq!(error_of("3:"), ParseErr::DataException);
    assert_eq!(error_of("l"), ParseErr::DataException);
    assert_eq!(error_of("li1e"), ParseErr::DataException);
    assert_eq!(error_of("d"), ParseErr::DataException);
    assert_eq!(error_of("d3:foo"), ParseErr::DataException);
    assert_eq!(error_of("d3:fooi1e"), ParseErr::DataException);
    assert_eq!(error_of("99999999999999999999999999999999999999999:a"), ParseErr::DataException);
    assert_eq!(error_of("18446744073709551616:a"), ParseErr::DataException);
}

#[test]
fn malformed_tokens() {
    assert_eq!(error_of("3abc"), ParseErr::SyntaxError);
    assert_eq!(error_of("3;abc"), ParseErr::SyntaxError);
    assert_eq!(error_of("di1e3:fooe"), ParseErr::SyntaxError);
    assert_eq!(error_of("dle3:fooe"), ParseErr::SyntaxError);
    assert_eq!(error_of("dde3:fooe"), ParseErr::SyntaxError);
    assert_eq!(error_of("d:e"), ParseErr::SyntaxError);
    assert_eq!(error_of("dxe"), ParseErr::SyntaxError);
}

#[test]
fn unsupported_leading_bytes() {
    assert_eq!(error_of("x"), ParseErr::UnsupportedByte);
    assert_eq!(error_of("-1:"), ParseErr::UnsupportedByte);
    assert_eq!(error_of(":"), ParseErr::UnsupportedByte);
    assert_eq!(error_of("e"), ParseErr::UnsupportedByte);
    assert_eq!(error_of(" i1e"), ParseErr::UnsupportedByte);
    assert_eq!(error_of("lxe"), ParseErr::UnsupportedByte);
    assert_eq!(error_of("d3:fooe"), ParseErr::UnsupportedByte);
    assert_eq!(error_of("d3:foo?e"), ParseErr::UnsupportedByte);
}

#[test]
fn first_failure_ends_the_list() {
    assert_eq!(error_of("li1ei-0ei2e"), ParseErr::SyntaxError);
    assert_eq!(error_of("li1ei99999999999exe"), ParseErr::ParseFailure);
    assert_eq!(error_of("d1:ai1e1:b5:abe"), ParseErr::DataException);
}

#[test]
fn bytes_behind_the_document_are_counted_out() {
    assert_eq!(parse(&doc("3:abcd")), Ok((bytes("abc"), 5)));
    assert_eq!(parse(&doc("i1ei2e")), Ok((BData::Number(1), 3)));
    assert_eq!(parse(&doc("lee")), Ok((BData::List(vec![]), 2)));
    assert_eq!(parse(&doc("de garbage")), Ok((BData::Dict(BDict::new()), 2)));
    assert_eq!(parse(&doc("4:spam")), Ok((bytes("spam"), 6)));
}

#[test]
fn byte_strings_hold_any_bytes() {
    let src: Vec<u8> = vec![b'4', b':', 0x00, 0xff, b'e', b':'];
    assert_eq!(parse(&src), Ok((BData::BString(vec![0x00, 0xff, b'e', b':']), 6)));
    let src: Vec<u8> = vec![b'd', b'2', b':', 0xff, 0xfe, b'i', b'1', b'e', b'e'];
    let mut d = BDict::new();
    d.insert(vec![0xff, 0xfe], BData::Number(1));
    assert_eq!(parse(&src), Ok((BData::Dict(d), 9)));
}

#[test]
fn end_to_end_dictionary() {
    let (v, n) = parse(&doc("d3:bar4:spam3:fooi42ee")).expect("a document");
    assert_eq!(n, 22);
    match &v {
        BData::Dict(d) => {
            assert_eq!(d.len(), 2);
            assert_eq!(d.get(&doc("bar")), Some(&bytes("spam")));
            assert_eq!(d.get(&doc("foo")), Some(&BData::Number(42)));
            assert_eq!(d.get(&doc("baz")), None);
        }
        _ => panic!("not a dictionary"),
    }
    assert_eq!(bencode::encoder::stringify(&v), Ok(doc("d3:bar4:spam3:fooi42ee")));
}

#[test]
fn later_entry_with_the_same_key_stays() {
    let (v, n) = parse(&doc("d1:ai1e1:bi2e1:ai3ee")).expect("a document");
    assert_eq!(n, 20);
    let mut d = BDict::new();
    d.insert(doc("a"), BData::Number(3));
    d.insert(doc("b"), BData::Number(2));
    assert_eq!(v, BData::Dict(d));
}

#[test]
fn dictionaries_are_equal_whatever_the_order_of_the_document() {
    let a = parse(&doc("d1:ai1e1:bi2ee")).expect("a document").0;
    let b = parse(&doc("d1:bi2e1:ai1ee")).expect("a document").0;
    assert_eq!(a, b);
    let x = parse(&doc("li1ei2ee")).expect("a document").0;
    let y = parse(&doc("li2ei1ee")).expect("a document").0;
    assert_ne!(x, y);
}

fn nested_lists(depth: usize) -> Vec<u8> {
    let mut src = Vec::new();
    for _ in 0..depth {
        src.push(b'l');
    }
    for _ in 0..depth {
        src.push(b'e');
    }
    src
}

#[test]
fn nesting_up_to_the_limit() {
    assert_eq!(MAX_DEPTH, 128);
    let src = nested_lists(MAX_DEPTH);
    let (v, n) = parse(&src).expect("a document");
    assert_eq!(n, 2 * MAX_DEPTH);
    let mut depth = 0;
    let mut at = &v;
    while let BData::List(l) = at {
        depth += 1;
        if l.is_empty() {
            break;
        }
        assert_eq!(l.len(), 1);
        at = &l[0];
    }
    assert_eq!(depth, MAX_DEPTH);
}

#[test]
fn nesting_beyond_the_limit() {
    assert_eq!(parse(&nested_lists(MAX_DEPTH + 1)), Err(ParseErr::TooDeep));
    assert_eq!(parse(&nested_lists(100_000)), Err(ParseErr::TooDeep));
    let mut src = Vec::new();
    for _ in 0..MAX_DEPTH + 1 {
        src.extend_from_slice(b"d1:k");
    }
    assert_eq!(parse(&src), Err(ParseErr::TooDeep));
    assert_eq!(parse_data(&doc("lli1eee"), 0, 1), Err(ParseErr::TooDeep));
    assert_eq!(parse_data(&doc("i1e"), 0, 0), Ok((BData::Number(1), 3)));
    assert_eq!(parse_data(&doc("le"), 0, 0), Err(ParseErr::TooDeep));
    assert_eq!(parse_list(&doc("le"), 0, 1), Ok((BData::List(vec![]), 2)));
    assert_eq!(parse_dict(&doc("de"), 0, 0), Err(ParseErr::TooDeep));
}

#[test]
fn productions_start_at_a_position() {
    let src = doc("xx3:abci-5eli1eed1:a0:e");
    assert_eq!(parse_string(&src, 2), Ok((bytes("abc"), 7)));
    assert_eq!(read_bytes(&src, 2), Ok((doc("abc"), 7)));
    assert_eq!(parse_number(&src, 7), Ok((BData::Number(-5), 11)));
    assert_eq!(read_int(&src, 7), Ok((-5, 11)));
    assert_eq!(parse_list(&src, 11, 1), Ok((BData::List(vec![BData::Number(1)]), 16)));
    let mut d = BDict::new();
    d.insert(doc("a"), bytes(""));
    assert_eq!(parse_dict(&src, 16, 1), Ok((BData::Dict(d), 23)));
    assert_eq!(parse_data(&src, 7, 0), Ok((BData::Number(-5), 11)));
    assert_eq!(parse_data(&src, 23, 5), Err(ParseErr::DataException));
}

#[test]
fn nothing_is_left_behind_the_end() {
    let src = doc("i1e");
    assert_eq!(parse_data(&src, 3, 5), Err(ParseErr::DataException));
    assert_eq!(parse_data(&src, 4, 5), Err(ParseErr::DataException));
    assert_eq!(parse_data(&src, usize::MAX, 5), Err(ParseErr::DataException));
    assert_eq!(parse_string(&src, 9), Err(ParseErr::DataException));
    assert_eq!(read_bytes(&src, 9), Err(ParseErr::DataException));
    assert_eq!(parse_number(&src, 9), Err(ParseErr::DataException));
    assert_eq!(read_int(&src, usize::MAX), Err(ParseErr::DataException));
    assert_eq!(parse_list(&src, 9, 1), Err(ParseErr::DataException));
    assert_eq!(parse_dict(&src, 9, 1), Err(ParseErr::DataException));
}

#[test]
fn productions_refuse_another_kind() {
    let src = doc("i1e3:abcle");
    assert_eq!(parse_string(&src, 0), Err(ParseErr::SyntaxError));
    assert_eq!(parse_number(&src, 3), Err(ParseErr::SyntaxError));
    assert_eq!(parse_list(&src, 0, 4), Err(ParseErr::SyntaxError));
    assert_eq!(parse_dict(&src, 8, 4), Err(ParseErr::SyntaxError));
    assert_eq!(parse_string(&doc(":abc"), 0), Err(ParseErr::SyntaxError));
    assert_eq!(parse_string(&src, 10), Err(ParseErr::DataException));
    assert_eq!(parse_number(&src, 10), Err(ParseErr::DataException));
    assert_eq!(parse_list(&src, 10, 4), Err(ParseErr::DataException));
    assert_eq!(parse_dict(&src, 10, 4), Err(ParseErr::DataException));
}
