use bencode::{decode_bencoded_value, Bencode};

#[test]
fn decode_bencode_sting() {
    let input = b"3:Hey".to_vec();
    assert_eq!(
        decode_bencoded_value(&input),
        Ok((Bencode::StringValue(b"Hey".to_vec()), 5))
    );
    let input = b"4:Test".to_vec();
    assert_eq!(
        decode_bencoded_value(&input),
        Ok((Bencode::StringValue(b"Test".to_vec()), 6))
    )
}

#[test]
fn decode_bencode_integer() {
    let input = b"i30e".to_vec();
    assert_eq!(
        decode_bencoded_value(&input),
        Ok((Bencode::IntegerValue(30), 4))
    );
    let input = b"i-42e".to_vec();
    assert_eq!(
        decode_bencoded_value(&input),
        Ok((Bencode::IntegerValue(-42), 5))
    );
}

#[test]
fn decode_bencode_list() {
    let input = b"l4:spam4:eggse".to_vec();
    assert_eq!(
        decode_bencoded_value(&input),
        Ok((
            Bencode::ListValue(vec![
                Bencode::StringValue(b"spam".to_vec()),
                Bencode::StringValue(b"eggs".to_vec())
            ]),
            14
        ))
    );
    let input = b"l5:helloi52ee".to_vec();
    assert_eq!(
        decode_bencoded_value(&input),
        Ok((
            Bencode::ListValue(vec![
                Bencode::StringValue(b"hello".to_vec()),
                Bencode::IntegerValue(52)
            ]),
            13
        ))
    )
}

#[test]
fn decode_bencode_dictionary() {
    let test = vec![
        (b"foo".to_vec(), Bencode::StringValue(b"bar".to_vec())),
        (b"hello".to_vec(), Bencode::IntegerValue(52)),
    ];

    let input = b"d3:foo3:bar5:helloi52ee".to_vec();
    assert_eq!(
        decode_bencoded_value(&input),
        Ok((Bencode::DictionaryValue(test), 23))
    )
}
