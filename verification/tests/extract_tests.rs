use bencode::extract;
use bencode::metainfo;
use bencode::split_digests;
use bencode::ExtractError;
use bencode::Field;
use bencode::Kind;
use bencode::Layout;
use bencode::MetainfoError;
use bencode::Value;
use bencode::ValueFault;

fn bytes(s: &str) -> Value {
    Value::Bytes(s.as_bytes().to_vec())
}

fn key(s: &str) -> Vec<u8> {
    s.as_bytes().to_vec()
}

fn info_dict(entries: Vec<(Vec<u8>, Value)>) -> Value {
    let mut info = vec![
        (key("name"), bytes("example")),
        (key("piece length"), Value::Int(512)),
        (key("pieces"), Value::Bytes(vec![7u8; 20])),
    ];
    info.extend(entries);
    Value::Dict(info)
}

fn top_dict(info: Value) -> Value {
    Value::Dict(vec![
        (key("announce"), bytes("http://tracker.example/announce")),
        (key("info"), info),
    ])
}

#[test]
fn single_file_record_extracts() {
    let v = top_dict(info_dict(vec![(key("length"), Value::Int(1024))]));
    let m = extract(&v).unwrap();
    assert_eq!(m.announce, "http://tracker.example/announce");
    assert_eq!(m.name, "example");
    assert_eq!(m.piece_length, 512);
    assert_eq!(m.pieces.len(), 1);
    assert_eq!(m.pieces[0].bytes, vec![7u8; 20]);
    assert_eq!(m.layout, Layout::SingleFile(1024));
}

#[test]
fn multi_file_record_extracts() {
    let files = Value::List(vec![
        Value::Dict(vec![
            (key("length"), Value::Int(10)),
            (key("path"), Value::List(vec![bytes("dir"), bytes("a.txt")])),
        ]),
        Value::Dict(vec![
            (key("length"), Value::Int(0)),
            (key("path"), Value::List(vec![bytes("b.txt")])),
        ]),
    ]);
    let v = top_dict(info_dict(vec![(key("files"), files)]));
    let m = extract(&v).unwrap();
    match m.layout {
        Layout::MultiFile(entries) => {
            assert_eq!(entries.len(), 2);
            assert_eq!(entries[0].length, 10);
            assert_eq!(entries[0].path, vec!["dir".to_string(), "a.txt".to_string()]);
            assert_eq!(entries[1].length, 0);
            assert_eq!(entries[1].path, vec!["b.txt".to_string()]);
        }
        other => panic!("expected a multi-file layout, got {:?}", other),
    }
}

#[test]
fn metainfo_decodes_and_extracts_bytes() {
    let mut input = Vec::new();
    input.extend_from_slice(b"d8:announce7:tracker4:infod6:lengthi99e4:name1:n");
    input.extend_from_slice(b"12:piece lengthi1e6:pieces20:");
    input.extend_from_slice(&[1u8; 20]);
    input.extend_from_slice(b"ee");
    let m = metainfo(&input).unwrap();
    assert_eq!(m.announce, "tracker");
    assert_eq!(m.name, "n");
    assert_eq!(m.piece_length, 1);
    assert_eq!(m.pieces.len(), 1);
    assert_eq!(m.layout, Layout::SingleFile(99));
}

#[test]
fn both_length_and_files_conflict() {
    let files = Value::List(vec![Value::Dict(vec![
        (key("length"), Value::Int(1)),
        (key("path"), Value::List(vec![bytes("x")])),
    ])]);
    let v = top_dict(info_dict(vec![
        (key("length"), Value::Int(5)),
        (key("files"), files),
    ]));
    assert_eq!(extract(&v), Err(ExtractError::ConflictingLayout));
}

#[test]
fn neither_length_nor_files_is_missing_layout() {
    let v = top_dict(info_dict(Vec::new()));
    assert_eq!(extract(&v), Err(ExtractError::MissingLayout));
}

#[test]
fn pieces_of_partial_digest_are_invalid() {
    let v = Value::Dict(vec![
        (key("announce"), bytes("t")),
        (
            key("info"),
            Value::Dict(vec![
                (key("name"), bytes("n")),
                (key("piece length"), Value::Int(1)),
                (key("pieces"), Value::Bytes(vec![0u8; 30])),
                (key("length"), Value::Int(1)),
            ]),
        ),
    ]);
    assert_eq!(
        extract(&v),
        Err(ExtractError::InvalidValue(
            Field::Pieces,
            ValueFault::NotWholeDigests
        ))
    );
}

#[test]
fn forty_byte_pieces_give_two_digests_in_order() {
    let mut pieces = vec![0u8; 20];
    pieces.extend_from_slice(&[9u8; 20]);
    let v = Value::Dict(vec![
        (key("announce"), bytes("t")),
        (
            key("info"),
            Value::Dict(vec![
                (key("name"), bytes("n")),
                (key("piece length"), Value::Int(1)),
                (key("pieces"), Value::Bytes(pieces)),
                (key("length"), Value::Int(1)),
            ]),
        ),
    ]);
    let m = extract(&v).unwrap();
    assert_eq!(m.pieces.len(), 2);
    assert_eq!(m.pieces[0].bytes, vec![0u8; 20]);
    assert_eq!(m.pieces[1].bytes, vec![9u8; 20]);
}

#[test]
fn split_digests_slices_without_overlap() {
    let mut input = Vec::new();
    for b in 0..40u8 {
        input.push(b);
    }
    let digests = split_digests(&input);
    assert_eq!(digests.len(), 2);
    assert_eq!(digests[0].bytes, (0..20u8).collect::<Vec<u8>>());
    assert_eq!(digests[1].bytes, (20..40u8).collect::<Vec<u8>>());
}

#[test]
fn unknown_keys_change_nothing() {
    let with_extras = Value::Dict(vec![
        (key("announce"), bytes("http://tracker.example/announce")),
        (key("comment"), bytes("no part of the schema")),
        (
            key("info"),
            Value::Dict(vec![
                (key("name"), bytes("example")),
                (key("private"), Value::Int(1)),
                (key("piece length"), Value::Int(512)),
                (key("pieces"), Value::Bytes(vec![7u8; 20])),
                (key("length"), Value::Int(1024)),
                (key("md5sum"), bytes("ignored")),
            ]),
        ),
        (key("creation date"), Value::Int(0)),
    ]);
    let plain = top_dict(info_dict(vec![(key("length"), Value::Int(1024))]));
    assert_eq!(extract(&with_extras).unwrap(), extract(&plain).unwrap());
}

#[test]
fn top_value_must_be_a_dictionary() {
    assert_eq!(extract(&Value::Int(5)), Err(ExtractError::NotADictionary));
    assert_eq!(
        metainfo(b"i5e"),
        Err(MetainfoError::Extract(ExtractError::NotADictionary))
    );
}

#[test]
fn metainfo_reports_decode_errors() {
    assert_eq!(
        metainfo(b"xyz"),
        Err(MetainfoError::Decode(bencode::DecodeError::MalformedTag))
    );
    assert_eq!(
        metainfo(b""),
        Err(MetainfoError::Decode(bencode::DecodeError::Truncated(1)))
    );
}

#[test]
fn missing_announce_is_reported() {
    let v = Value::Dict(vec![(key("info"), info_dict(Vec::new()))]);
    assert_eq!(extract(&v), Err(ExtractError::MissingField(Field::Announce)));
}

#[test]
fn announce_of_wrong_type_is_reported() {
    let v = Value::Dict(vec![
        (key("announce"), Value::Int(3)),
        (key("info"), info_dict(Vec::new())),
    ]);
    assert_eq!(
        extract(&v),
        Err(ExtractError::WrongType(Field::Announce, Kind::ByteString))
    );
}

#[test]
fn announce_that_is_no_utf8_is_reported() {
    let v = Value::Dict(vec![
        (key("announce"), Value::Bytes(vec![0xFF, 0xFE])),
        (key("info"), info_dict(Vec::new())),
    ]);
    assert_eq!(extract(&v), Err(ExtractError::InvalidText(Field::Announce)));
}

#[test]
fn multibyte_text_survives_extraction() {
    let v = Value::Dict(vec![
        (key("announce"), bytes("http://tracker.example/announce")),
        (
            key("info"),
            Value::Dict(vec![
                (key("name"), Value::Bytes("café".as_bytes().to_vec())),
                (key("piece length"), Value::Int(512)),
                (key("pieces"), Value::Bytes(vec![7u8; 20])),
                (key("length"), Value::Int(1)),
            ]),
        ),
    ]);
    assert_eq!(extract(&v).unwrap().name, "café");
}

#[test]
fn missing_info_is_reported() {
    let v = Value::Dict(vec![(key("announce"), bytes("t"))]);
    assert_eq!(extract(&v), Err(ExtractError::MissingField(Field::Info)));
}

#[test]
fn missing_name_is_reported() {
    let v = Value::Dict(vec![
        (key("announce"), bytes("t")),
        (key("info"), Value::Dict(vec![])),
    ]);
    assert_eq!(extract(&v), Err(ExtractError::MissingField(Field::Name)));
}

#[test]
fn nonpositive_piece_length_is_reported() {
    for pl in [0i64, -4] {
        let v = Value::Dict(vec![
            (key("announce"), bytes("t")),
            (
                key("info"),
                Value::Dict(vec![
                    (key("name"), bytes("n")),
                    (key("piece length"), Value::Int(pl)),
                    (key("pieces"), Value::Bytes(vec![0u8; 20])),
                    (key("length"), Value::Int(1)),
                ]),
            ),
        ]);
        assert_eq!(
            extract(&v),
            Err(ExtractError::InvalidValue(
                Field::PieceLength,
                ValueFault::NotPositive
            ))
        );
    }
}

#[test]
fn negative_length_is_reported() {
    let v = top_dict(info_dict(vec![(key("length"), Value::Int(-1))]));
    assert_eq!(
        extract(&v),
        Err(ExtractError::InvalidValue(Field::Length, ValueFault::Negative))
    );
}

#[test]
fn file_entry_faults_are_reported() {
    let entry_not_dict = top_dict(info_dict(vec![(
        key("files"),
        Value::List(vec![Value::Int(1)]),
    )]));
    assert_eq!(
        extract(&entry_not_dict),
        Err(ExtractError::WrongType(Field::Files, Kind::Dictionary))
    );

    let missing_length = top_dict(info_dict(vec![(
        key("files"),
        Value::List(vec![Value::Dict(vec![(
            key("path"),
            Value::List(vec![bytes("x")]),
        )])]),
    )]));
    assert_eq!(
        extract(&missing_length),
        Err(ExtractError::MissingField(Field::FileLength))
    );

    let negative_length = top_dict(info_dict(vec![(
        key("files"),
        Value::List(vec![Value::Dict(vec![
            (key("length"), Value::Int(-2)),
            (key("path"), Value::List(vec![bytes("x")])),
        ])]),
    )]));
    assert_eq!(
        extract(&negative_length),
        Err(ExtractError::InvalidValue(
            Field::FileLength,
            ValueFault::Negative
        ))
    );

    let path_not_list = top_dict(info_dict(vec![(
        key("files"),
        Value::List(vec![Value::Dict(vec![
            (key("length"), Value::Int(1)),
            (key("path"), bytes("x")),
        ])]),
    )]));
    assert_eq!(
        extract(&path_not_list),
        Err(ExtractError::WrongType(Field::FilePath, Kind::List))
    );

    let segment_not_bytes = top_dict(info_dict(vec![(
        key("files"),
        Value::List(vec![Value::Dict(vec![
            (key("length"), Value::Int(1)),
            (key("path"), Value::List(vec![Value::Int(1)])),
        ])]),
    )]));
    assert_eq!(
        extract(&segment_not_bytes),
        Err(ExtractError::WrongType(Field::FilePath, Kind::ByteString))
    );

    let segment_not_utf8 = top_dict(info_dict(vec![(
        key("files"),
        Value::List(vec![Value::Dict(vec![
            (key("length"), Value::Int(1)),
            (key("path"), Value::List(vec![Value::Bytes(vec![0xC0])])),
        ])]),
    )]));
    assert_eq!(
        extract(&segment_not_utf8),
        Err(ExtractError::InvalidText(Field::FilePath))
    );
}

#[test]
fn duplicate_key_lets_the_later_value_win() {
    let v = Value::Dict(vec![
        (key("announce"), bytes("first")),
        (key("announce"), bytes("second")),
        (key("info"), info_dict(vec![(key("length"), Value::Int(1))])),
    ]);
    assert_eq!(extract(&v).unwrap().announce, "second");
}
