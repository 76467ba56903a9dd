use bencode::{decode_all, decode_bencoded_value, encode, Bencode, ErrorKind};

#[test]
fn round_trip_nested_tree() {
    let tree = Bencode::DictionaryValue(vec![
        (
            b"list".to_vec(),
            Bencode::ListValue(vec![
                Bencode::StringValue(b"spam".to_vec()),
                Bencode::IntegerValue(-7),
                Bencode::ListValue(vec![]),
            ]),
        ),
        (b"num".to_vec(), Bencode::IntegerValue(42)),
        (b"str".to_vec(), Bencode::StringValue(b"eggs".to_vec())),
    ]);
    let wire = encode(&tree);
    assert_eq!(decode_all(&wire), Ok(tree));
}

#[test]
fn round_trip_simple_values() {
    let v = Bencode::StringValue(b"".to_vec());
    let wire = encode(&v);
    assert_eq!(wire, b"0:".to_vec());
    assert_eq!(decode_all(&wire), Ok(v));

    let v = Bencode::IntegerValue(i64::MIN);
    let wire = encode(&v);
    assert_eq!(wire, b"i-9223372036854775808e".to_vec());
    assert_eq!(decode_all(&wire), Ok(v));

    let v = Bencode::IntegerValue(i64::MAX);
    let wire = encode(&v);
    assert_eq!(wire, b"i9223372036854775807e".to_vec());
    assert_eq!(decode_all(&wire), Ok(v));
}

#[test]
fn canonical_integers() {
    assert_eq!(
        decode_all(&b"i0e".to_vec()),
        Ok(Bencode::IntegerValue(0))
    );
    let r = decode_all(&b"i-0e".to_vec());
    assert_eq!(r.unwrap_err().kind, ErrorKind::MalformedInteger);
    let r = decode_all(&b"i042e".to_vec());
    assert_eq!(r.unwrap_err().kind, ErrorKind::MalformedInteger);
    assert_eq!(
        decode_all(&b"i-42e".to_vec()),
        Ok(Bencode::IntegerValue(-42))
    );
}

#[test]
fn integer_overflow_is_rejected() {
    let r = decode_all(&b"i9223372036854775808e".to_vec());
    assert_eq!(r.unwrap_err().kind, ErrorKind::MalformedInteger);
    let r = decode_all(&b"i-9223372036854775809e".to_vec());
    assert_eq!(r.unwrap_err().kind, ErrorKind::MalformedInteger);
    assert_eq!(
        decode_all(&b"i-9223372036854775808e".to_vec()),
        Ok(Bencode::IntegerValue(i64::MIN))
    );
}

#[test]
fn string_length_exactness() {
    let input = b"4:spam".to_vec();
    assert_eq!(
        decode_bencoded_value(&input),
        Ok((Bencode::StringValue(b"spam".to_vec()), 6))
    );
    assert_eq!(
        decode_all(&b"0:".to_vec()),
        Ok(Bencode::StringValue(b"".to_vec()))
    );
}

#[test]
fn nested_containers() {
    assert_eq!(
        decode_all(&b"l4:spam4:eggse".to_vec()),
        Ok(Bencode::ListValue(vec![
            Bencode::StringValue(b"spam".to_vec()),
            Bencode::StringValue(b"eggs".to_vec())
        ]))
    );
    assert_eq!(
        decode_all(&b"d3:foo3:bar5:helloi52ee".to_vec()),
        Ok(Bencode::DictionaryValue(vec![
            (b"foo".to_vec(), Bencode::StringValue(b"bar".to_vec())),
            (b"hello".to_vec(), Bencode::IntegerValue(52)),
        ]))
    );
}

#[test]
fn empty_containers() {
    assert_eq!(decode_all(&b"le".to_vec()), Ok(Bencode::ListValue(vec![])));
    assert_eq!(
        decode_all(&b"de".to_vec()),
        Ok(Bencode::DictionaryValue(vec![]))
    );
}

#[test]
fn malformed_inputs_are_rejected() {
    let r = decode_all(&b"".to_vec());
    assert_eq!(r.unwrap_err().kind, ErrorKind::UnexpectedEndOfInput);
    let r = decode_all(&b"i e".to_vec());
    assert_eq!(r.unwrap_err().kind, ErrorKind::MalformedInteger);
    let r = decode_all(&b"5:ab".to_vec());
    assert_eq!(r.unwrap_err().kind, ErrorKind::MalformedLength);
    let r = decode_all(&b"x".to_vec());
    assert_eq!(r.unwrap_err().kind, ErrorKind::MalformedInput);
}

#[test]
fn error_kinds_and_offsets() {
    let e = decode_all(&b"3:ab".to_vec()).unwrap_err();
    assert_eq!(e.kind, ErrorKind::MalformedLength);
    assert_eq!(e.offset, 0);

    let e = decode_all(&b"i12".to_vec()).unwrap_err();
    assert_eq!(e.kind, ErrorKind::UnexpectedEndOfInput);
    assert_eq!(e.offset, 3);

    let e = decode_all(&b"12a:b".to_vec()).unwrap_err();
    assert_eq!(e.kind, ErrorKind::MalformedLength);

    let e = decode_all(&b"l4:spam".to_vec()).unwrap_err();
    assert_eq!(e.kind, ErrorKind::UnexpectedEndOfInput);

    let e = decode_all(&b"di1e3:fooe".to_vec()).unwrap_err();
    assert_eq!(e.kind, ErrorKind::UnexpectedKeyType);
    assert_eq!(e.offset, 1);

    let e = decode_all(&b"i1ex".to_vec()).unwrap_err();
    assert_eq!(e.kind, ErrorKind::MalformedInput);
    assert_eq!(e.offset, 3);
}

#[test]
fn reencoding_sorts_and_deduplicates_keys() {
    let unsorted = b"d5:helloi52e3:foo3:bare".to_vec();
    let decoded = decode_all(&unsorted).unwrap();
    assert_eq!(encode(&decoded), b"d3:foo3:bar5:helloi52ee".to_vec());

    let duplicate = b"d1:ai1e1:ai2ee".to_vec();
    assert_eq!(
        decode_all(&duplicate),
        Ok(Bencode::DictionaryValue(vec![(
            b"a".to_vec(),
            Bencode::IntegerValue(2)
        )]))
    );
}

#[test]
fn reencoding_canonical_input_is_identity() {
    let wire = b"d3:foo3:bar5:helloi52ee".to_vec();
    let decoded = decode_all(&wire).unwrap();
    assert_eq!(encode(&decoded), wire);
}
