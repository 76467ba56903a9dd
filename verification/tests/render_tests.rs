use bencode::{decode_all, encode, render, Bencode};

#[test]
fn render_string_is_quoted() {
    let v = Bencode::StringValue(b"Hey".to_vec());
    assert_eq!(render(&v), b"\"Hey\"".to_vec());
}

#[test]
fn render_integers_bare() {
    assert_eq!(render(&Bencode::IntegerValue(52)), b"52".to_vec());
    assert_eq!(render(&Bencode::IntegerValue(-42)), b"-42".to_vec());
    assert_eq!(render(&Bencode::IntegerValue(0)), b"0".to_vec());
}

#[test]
fn render_list_with_separators() {
    let v = decode_all(&b"l4:spam4:eggse".to_vec()).unwrap();
    assert_eq!(render(&v), b"[\"spam\", \"eggs\"]".to_vec());
    let v = decode_all(&b"le".to_vec()).unwrap();
    assert_eq!(render(&v), b"[]".to_vec());
}

#[test]
fn render_dictionary_sorted() {
    let v = decode_all(&b"d5:helloi52e3:foo3:bare".to_vec()).unwrap();
    assert_eq!(render(&v), b"{\"foo\": \"bar\", \"hello\": 52}".to_vec());
    let v = decode_all(&b"de".to_vec()).unwrap();
    assert_eq!(render(&v), b"{}".to_vec());
}

#[test]
fn encode_exact_bytes() {
    let v = Bencode::ListValue(vec![
        Bencode::StringValue(b"hello".to_vec()),
        Bencode::IntegerValue(52),
    ]);
    assert_eq!(encode(&v), b"l5:helloi52ee".to_vec());
    let v = Bencode::IntegerValue(0);
    assert_eq!(encode(&v), b"i0e".to_vec());
}
