use bencode::decoder::parse;
use bencode::value::{BData, BDict};

fn parse_bstring(s: &str) -> Result<String, &str> {
    let v = parse(&s.as_bytes().to_vec());
    if let Ok((BData::BString(data), _)) = v {
        Ok(String::from_utf8(data).unwrap())
    } else {
        Err("err")
    }
}

#[test]
fn parse_bstring_test() {
    assert_eq!(parse_bstring("3:abc"), Ok("abc".to_string()));
    assert_eq!(parse_bstring("3:ab"), Err("err"));
    assert_eq!(parse_bstring("3:abcd"), Ok("abc".to_string()));
    assert_eq!(parse_bstring("0:"), Ok("".to_string()));
    assert_eq!(parse_bstring("-1:"), Err("err"));
}

fn parse_num(s: &str) -> Result<i32, &str> {
    let v = parse(&s.as_bytes().to_vec());
    if let Ok((BData::Number(data), _)) = v {
        Ok(data)
    } else {
        Err("err")
    }
}

#[test]
fn parse_num_test() {
    assert_eq!(parse_num("i32e"), Ok(32));
    assert_eq!(parse_num("i-32e"), Ok(-32));
    assert_eq!(parse_num("i0e"), Ok(0));
    assert_eq!(parse_num("i3.2e"), Err("err"));
    assert_eq!(
        parse_num(&format!("i{}e", i64::MAX).to_string()),
        Err("err")
    );
}

fn parse_list(s: &str) -> Result<Vec<BData>, &str> {
    let v = parse(&s.as_bytes().to_vec());
    if let Ok((BData::List(rc), _)) = v {
        Ok(rc)
    } else {
        Err("err")
    }
}

fn parse_list_check(s: &'static str, check: &Vec<BData>) {
    let v = parse_list(s);
    match v {
        Ok(rc) => {
            let mut ch = check.iter();
            for e in rc.iter() {
                if let Some(data) = ch.next() {
                    assert_eq!(data, e);
                } else {
                    assert!(false);
                }
            }
        }
        Err(_) => assert!(false),
    };
}

#[test]
fn parse_list_test() {
    parse_list_check("le", &vec![]);
    parse_list_check("l3:abce", &vec![BData::BString("abc".as_bytes().to_vec())]);
    parse_list_check(
        "l3:abc4:abcde",
        &vec![
            BData::BString("abc".as_bytes().to_vec()),
            BData::BString("abcd".as_bytes().to_vec()),
        ],
    );
    parse_list_check(
        "l3:abci32el2:abee",
        &vec![
            BData::BString("abc".as_bytes().to_vec()),
            BData::Number(32),
            BData::List(vec![BData::BString("ab".as_bytes().to_vec())]),
        ],
    );
}

fn parse_dict(s: &str) -> Result<BDict, &str> {
    let v = parse(&s.as_bytes().to_vec());
    if let Ok((BData::Dict(map), _)) = v {
        Ok(map)
    } else {
        Err("err")
    }
}

fn parse_dict_check(s: &str, map: &BDict) {
    let data = parse_dict(s);

    let m = data.expect("parse dict failed");

    assert_eq!(m.len(), map.len());
    for i in 0..m.len() {
        let key = m.key_at(i);
        assert_eq!(map.contains_key(key), true);
        assert_eq!(m.value_at(i), map.get(key).unwrap());
    }
}

#[test]
fn parse_dict_test() {
    parse_dict_check("de", &BDict::new());
    let source = "d2:k13:abce";
    let mut m = BDict::new();
    m.insert("k1".as_bytes().to_vec(), BData::BString("abc".as_bytes().to_vec()));
    parse_dict_check(source, &m);

    let mut m = BDict::new();
    let source = "d2:k13:abc2:k2l3:defi-23eee";
    m.insert("k1".as_bytes().to_vec(), BData::BString("abc".as_bytes().to_vec()));
    let mut k2_list = Vec::new();
    k2_list.push(BData::BString("def".as_bytes().to_vec()));
    k2_list.push(BData::Number(-23));
    m.insert("k2".as_bytes().to_vec(), BData::List(k2_list));
    parse_dict_check(source, &m);
}

fn assert_stringify(s: &str, assert_s: Vec<u8>) {
    if let Ok((data, _)) = parse(&s.as_bytes().to_vec()) {
        let stringify = bencode::encoder::stringify(&data);
        println!("parse: {}", s);
        if let Ok(st) = stringify {
            assert_eq!(st, assert_s);
        } else {
            panic!("stringify error!");
        }
    } else {
        panic!("parse error!");
    }
}

#[test]
fn stringify_test() {
    let s = "3:abc";
    assert_stringify(s, s.as_bytes().to_vec());
    let s = "3:lsd";
    assert_stringify(s, s.as_bytes().to_vec());
    let s = "ld2:k12:v1ei32ee";
    assert_stringify(s, s.as_bytes().to_vec());

    let s = "d4:key24:val24:key14:val14:key34:val34:key44:val43:key3:vale";
    let assert_s = "d3:key3:val4:key14:val14:key24:val24:key34:val34:key44:val4e"
        .as_bytes()
        .to_vec();
    assert_stringify(s, assert_s);
}
