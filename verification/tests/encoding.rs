use bencode::decimal::{read_digits, scan_digits, write_decimal};
use bencode::encoder::{stringify_dict, stringify_list, stringify_number, stringify_string};
use bencode::value::{BData, BDict};

fn doc(s: &str) -> Vec<u8> {
    s.as_bytes().to_vec()
}

fn bytes(s: &str) -> BData {
    BData::BString(s.as_bytes().to_vec())
}

fn written(v: &BData) -> Vec<u8> {
    bencode::encoder::stringify(v).expect("a value that can be written")
}

#[test]
fn integers_are_written_in_base_ten() {
    assert_eq!(written(&BData::Number(0)), doc("i0e"));
    assert_eq!(written(&BData::Number(7)), doc("i7e"));
    assert_eq!(written(&BData::Number(10)), doc("i10e"));
    assert_eq!(written(&BData::Number(-1)), doc("i-1e"));
    assert_eq!(written(&BData::Number(42)), doc("i42e"));
    assert_eq!(written(&BData::Number(-1000)), doc("i-1000e"));
    assert_eq!(written(&BData::Number(i32::MAX)), doc("i2147483647e"));
    assert_eq!(written(&BData::Number(i32::MIN)), doc("i-2147483648e"));
    assert_eq!(stringify_number(&-90), Ok(doc("i-90e")));
}

#[test]
fn byte_strings_are_written_with_their_length() {
    assert_eq!(written(&bytes("")), doc("0:"));
    assert_eq!(written(&bytes("spam")), doc("4:spam"));
    assert_eq!(written(&bytes("0123456789")), doc("10:0123456789"));
    assert_eq!(written(&BData::BString(vec![0xff, 0x00])), vec![b'2', b':', 0xff, 0x00]);
    let long = vec![b'z'; 1234];
    let mut expected = doc("1234:");
    expected.extend_from_slice(&long);
    assert_eq!(stringify_string(&long), Ok(expected));
}

#[test]
fn lists_are_written_in_their_order() {
    assert_eq!(written(&BData::List(vec![])), doc("le"));
    assert_eq!(
        written(&BData::List(vec![BData::Number(2), BData::Number(1), bytes("b"), bytes("a")])),
        doc("li2ei1e1:b1:ae")
    );
    assert_eq!(
        stringify_list(&vec![BData::List(vec![]), BData::List(vec![BData::List(vec![])])]),
        Ok(doc("llelleee"))
    );
}

#[test]
fn dictionaries_are_written_in_ascending_key_order() {
    assert_eq!(written(&BData::Dict(BDict::new())), doc("de"));
    let mut d = BDict::new();
    d.insert(doc("foo"), BData::Number(42));
    d.insert(doc("bar"), bytes("spam"));
    assert_eq!(stringify_dict(&d), Ok(doc("d3:bar4:spam3:fooi42ee")));
    assert_eq!(written(&BData::Dict(d)), doc("d3:bar4:spam3:fooi42ee"));

    let mut d = BDict::new();
    for key in ["b", "", "aa", "a", "B", "ab", "~"] {
        d.insert(doc(key), BData::List(vec![]));
    }
    d.insert(vec![0xff], BData::Number(0));
    let mut expected = doc("d0:le1:Ble1:ale2:aale2:able1:ble1:~le1:");
    expected.push(0xff);
    expected.extend_from_slice(b"i0ee");
    assert_eq!(written(&BData::Dict(d)), expected);
}

#[test]
fn nested_values_are_written_whole() {
    let mut inner = BDict::new();
    inner.insert(doc("k1"), bytes("v1"));
    let v = BData::List(vec![BData::Dict(inner), BData::Number(32)]);
    assert_eq!(written(&v), doc("ld2:k12:v1ei32ee"));
}

#[test]
fn decimal_writer_and_reader() {
    let mut out = doc("n=");
    write_decimal(0, &mut out);
    assert_eq!(out, doc("n=0"));
    write_decimal(18446744073709551615, &mut out);
    assert_eq!(out, doc("n=018446744073709551615"));
    let mut out = Vec::new();
    write_decimal(1905, &mut out);
    assert_eq!(out, doc("1905"));

    let src = doc("ab0123456789c");
    assert_eq!(scan_digits(&src, 2), 12);
    assert_eq!(scan_digits(&src, 5), 12);
    assert_eq!(scan_digits(&src, 12), 12);
    assert_eq!(scan_digits(&src, 0), 0);
    assert_eq!(scan_digits(&src, 13), 13);
    assert_eq!(read_digits(&src, 2, 12, u64::MAX), Some(123456789));
    assert_eq!(read_digits(&src, 2, 12, 123456789), Some(123456789));
    assert_eq!(read_digits(&src, 2, 12, 123456788), None);
    assert_eq!(read_digits(&src, 2, 5, 12), Some(12));
    assert_eq!(read_digits(&src, 4, 4, 0), Some(0));
    let big = doc("18446744073709551616");
    assert_eq!(read_digits(&big, 0, 20, u64::MAX), None);
    let most = doc("18446744073709551615");
    assert_eq!(read_digits(&most, 0, 20, u64::MAX), Some(u64::MAX));
}
