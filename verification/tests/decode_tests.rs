use bencode::decode;
use bencode::DecodeError;
use bencode::Value;
use bencode::MAX_DEPTH;

#[test]
fn byte_string_round_trip() {
    let input = b"5:abcdeXYZ";
    let (value, consumed) = decode(input).unwrap();
    assert_eq!(value, Value::Bytes(b"abcde".to_vec()));
    assert_eq!(consumed, 7);
    assert_eq!(&input[consumed..], b"XYZ");
}

#[test]
fn byte_string_spam() {
    let input = b"4:spam";
    let (value, consumed) = decode(input).unwrap();
    assert_eq!(value, Value::Bytes(b"spam".to_vec()));
    assert_eq!(consumed, input.len());
}

#[test]
fn empty_byte_string() {
    let (value, consumed) = decode(b"0:").unwrap();
    assert_eq!(value, Value::Bytes(Vec::new()));
    assert_eq!(consumed, 2);
}

#[test]
fn integer_forty_two() {
    let (value, consumed) = decode(b"i42e").unwrap();
    assert_eq!(value, Value::Int(42));
    assert_eq!(consumed, 4);
}

#[test]
fn negative_integer_rejected() {
    assert_eq!(decode(b"i-3e"), Err(DecodeError::InvalidLength));
}

#[test]
fn list_spam_eggs() {
    let (value, consumed) = decode(b"l4:spam4:eggse").unwrap();
    assert_eq!(
        value,
        Value::List(vec![
            Value::Bytes(b"spam".to_vec()),
            Value::Bytes(b"eggs".to_vec()),
        ])
    );
    assert_eq!(consumed, 14);
}

#[test]
fn dict_cow_spam() {
    let (value, consumed) = decode(b"d3:cow3:moo4:spam4:eggse").unwrap();
    assert_eq!(
        value,
        Value::Dict(vec![
            (b"cow".to_vec(), Value::Bytes(b"moo".to_vec())),
            (b"spam".to_vec(), Value::Bytes(b"eggs".to_vec())),
        ])
    );
    assert_eq!(consumed, 24);
}

#[test]
fn duplicate_keys_kept_in_order() {
    let (value, _) = decode(b"d1:ai1e1:ai2ee").unwrap();
    assert_eq!(
        value,
        Value::Dict(vec![
            (b"a".to_vec(), Value::Int(1)),
            (b"a".to_vec(), Value::Int(2)),
        ])
    );
}

#[test]
fn truncating_a_dictionary_anywhere_gives_truncated() {
    let input = b"d3:cow3:moo4:spam4:eggse";
    for m in 0..input.len() {
        match decode(&input[..m]) {
            Err(DecodeError::Truncated(_)) => {}
            other => panic!("prefix of {} bytes gave {:?}", m, other),
        }
    }
}

#[test]
fn truncating_other_productions_gives_truncated() {
    for input in [&b"5:abcde"[..], &b"i42e"[..], &b"l4:spami7ee"[..]] {
        for m in 0..input.len() {
            match decode(&input[..m]) {
                Err(DecodeError::Truncated(_)) => {}
                other => panic!("prefix of {} bytes gave {:?}", m, other),
            }
        }
    }
}

#[test]
fn truncated_hint_counts_missing_payload() {
    assert_eq!(decode(b"5:ab"), Err(DecodeError::Truncated(3)));
}

#[test]
fn empty_input_is_truncated() {
    assert_eq!(decode(b""), Err(DecodeError::Truncated(1)));
}

#[test]
fn malformed_tags_give_error_not_panic() {
    for first in [b'x', b':', b'e', b' ', 0xFFu8, b'-'] {
        let mut input = vec![first];
        input.extend_from_slice(b"l4:spam4:eggse");
        assert_eq!(decode(&input), Err(DecodeError::MalformedTag));
    }
}

#[test]
fn nesting_at_the_limit_decodes() {
    let mut input = Vec::new();
    for _ in 0..MAX_DEPTH {
        input.push(b'l');
    }
    input.extend_from_slice(b"i7e");
    for _ in 0..MAX_DEPTH {
        input.push(b'e');
    }
    let (value, consumed) = decode(&input).unwrap();
    assert_eq!(consumed, input.len());
    let mut v = &value;
    for _ in 0..MAX_DEPTH {
        match v {
            Value::List(items) => {
                assert_eq!(items.len(), 1);
                v = &items[0];
            }
            other => panic!("expected a list, got {:?}", other),
        }
    }
    assert_eq!(*v, Value::Int(7));
}

#[test]
fn nesting_past_the_limit_gives_too_deep() {
    let mut input = Vec::new();
    for _ in 0..MAX_DEPTH + 1 {
        input.push(b'l');
    }
    input.extend_from_slice(b"i7e");
    for _ in 0..MAX_DEPTH + 1 {
        input.push(b'e');
    }
    assert_eq!(decode(&input), Err(DecodeError::TooDeep));
}

#[test]
fn adversarial_deep_nesting_does_not_crash() {
    let input = vec![b'l'; 1_000_000];
    assert_eq!(decode(&input), Err(DecodeError::TooDeep));
}

#[test]
fn list_with_stray_byte_is_unterminated() {
    assert_eq!(decode(b"l4:spamx"), Err(DecodeError::Unterminated));
}

#[test]
fn dict_with_non_string_key_is_unterminated() {
    assert_eq!(decode(b"di1ei2ee"), Err(DecodeError::Unterminated));
}

#[test]
fn length_not_followed_by_colon_is_invalid() {
    assert_eq!(decode(b"3x"), Err(DecodeError::InvalidLength));
}

#[test]
fn oversized_length_is_invalid() {
    assert_eq!(
        decode(b"99999999999999999999999:a"),
        Err(DecodeError::InvalidLength)
    );
}

#[test]
fn integer_without_digits_is_invalid() {
    assert_eq!(decode(b"ie"), Err(DecodeError::InvalidLength));
}

#[test]
fn oversized_integer_is_invalid() {
    assert_eq!(
        decode(b"i99999999999999999999999e"),
        Err(DecodeError::InvalidLength)
    );
}

#[test]
fn integer_at_the_i64_bound_decodes() {
    let (value, _) = decode(b"i9223372036854775807e").unwrap();
    assert_eq!(value, Value::Int(i64::MAX));
    assert_eq!(
        decode(b"i9223372036854775808e"),
        Err(DecodeError::InvalidLength)
    );
}

#[test]
fn trailing_bytes_are_left_over() {
    let (value, consumed) = decode(b"i1eXX").unwrap();
    assert_eq!(value, Value::Int(1));
    assert_eq!(consumed, 3);
}

#[test]
fn leading_zeros_are_accepted() {
    let (value, consumed) = decode(b"i007e").unwrap();
    assert_eq!(value, Value::Int(7));
    assert_eq!(consumed, 5);
}

#[test]
fn empty_aggregates_decode() {
    assert_eq!(decode(b"le").unwrap(), (Value::List(Vec::new()), 2));
    assert_eq!(decode(b"de").unwrap(), (Value::Dict(Vec::new()), 2));
}
