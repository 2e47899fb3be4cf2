use bencode::util::ByteString;
use bencode::Bencode;
use crypto::digest::Digest;
use crypto::sha1::Sha1;
use std::collections::BTreeMap;
use torrent_meta::bencode::{encode, BencodeValue, Entry};
use torrent_meta::decode::DecodeError;
use torrent_meta::digest::hex_digest;
use torrent_meta::fields::{
    find, read_bytes_field, read_number_field, read_text_field, text_from_bytes,
};
use torrent_meta::keys::{key_bytes, Key};
use torrent_meta::pieces::{segment_pieces, SegmentError};
use torrent_meta::torrent::{
    File, FromBufferError, FromStringError, Info, LoadError, Torrent, UpdateError,
};

fn hashes(n: usize) -> Vec<u8> {
    let mut v: Vec<u8> = Vec::new();
    for i in 0..(20 * n) {
        v.push((i % 251) as u8);
    }
    v
}

fn single_file(length: u64, piece_length: u64, pieces: &[u8], head: &[u8]) -> Vec<u8> {
    let mut b: Vec<u8> = Vec::new();
    b.push(b'd');
    b.extend_from_slice(head);
    b.extend_from_slice(b"4:infod");
    b.extend_from_slice(format!("6:lengthi{}e", length).as_bytes());
    b.extend_from_slice(b"4:name5:x.txt");
    b.extend_from_slice(format!("12:piece lengthi{}e", piece_length).as_bytes());
    b.extend_from_slice(format!("6:pieces{}:", pieces.len()).as_bytes());
    b.extend_from_slice(pieces);
    b.extend_from_slice(b"ee");
    b
}

fn blank(info: Info) -> Torrent {
    Torrent {
        info,
        info_buffer: Vec::new(),
        info_hash: String::new(),
        info_hash_buffer: Vec::new(),
        name: String::new(),
        announce: String::new(),
        announce_list: Vec::new(),
        creation_date: 0,
        comment: String::new(),
        created_by: String::new(),
        url_list: String::new(),
        private: false,
        length: 0,
        pieces: Vec::new(),
        last_piece_length: 0,
        piece_length: 0,
        files: Vec::new(),
    }
}

#[test]
fn segment_two_records() {
    let buffer = hashes(2);
    let records = segment_pieces(&buffer).unwrap();
    assert_eq!(records.len(), 2);
    assert_eq!(records[0], buffer[0..20].to_vec());
    assert_eq!(records[1], buffer[20..40].to_vec());
}

#[test]
fn segment_refuses_misaligned_buffers() {
    assert_eq!(segment_pieces(&[0u8; 21]), Err(SegmentError::MisalignedLength));
    assert_eq!(segment_pieces(&[0u8; 19]), Err(SegmentError::MisalignedLength));
    assert_eq!(segment_pieces(&[0u8; 1]), Err(SegmentError::MisalignedLength));
}

#[test]
fn segment_empty_buffer() {
    assert_eq!(segment_pieces(&[]), Ok(Vec::new()));
}

#[test]
fn single_file_torrent() {
    let pieces = hashes(2);
    let buffer = single_file(40, 20, &pieces, b"");
    let mut t = Torrent::from_buffer(&buffer).unwrap();
    assert_eq!(t.name, "");
    assert_eq!(t.info.name, "x.txt");
    assert_eq!(t.info.length, 40);
    assert_eq!(t.info.piece_length, 20);
    assert_eq!(t.info.pieces, pieces);
    assert!(t.pieces.is_empty());
    assert!(t.files.is_empty());
    assert_eq!(t.update_torrent(), Ok(()));
    assert_eq!(t.name, "x.txt");
    assert_eq!(t.length, 40);
    assert_eq!(t.piece_length, 20);
    assert_eq!(t.last_piece_length, 0);
    assert_eq!(t.pieces, vec![pieces[0..20].to_vec(), pieces[20..40].to_vec()]);
    assert_eq!(
        t.files,
        vec![File {
            name: "x.txt".to_string(),
            path: "./x.txt".to_string(),
            length: 40,
            offset: 0,
            md5sum: String::new(),
        }]
    );
    assert_eq!(t.pieces.len() * 20, t.info.pieces.len());
}

#[test]
fn last_piece_length_is_the_remainder() {
    let buffer = single_file(45, 20, &hashes(3), b"");
    let mut t = Torrent::from_buffer(&buffer).unwrap();
    assert_eq!(t.update_torrent(), Ok(()));
    assert_eq!(t.last_piece_length, 5);
    assert_eq!(t.length, 45);
}

#[test]
fn empty_pieces_with_zero_piece_length() {
    let buffer = single_file(0, 0, &[], b"");
    let mut t = Torrent::from_buffer(&buffer).unwrap();
    assert_eq!(t.update_torrent(), Ok(()));
    assert!(t.pieces.is_empty());
    assert_eq!(t.last_piece_length, 0);
    assert_eq!(t.piece_length, 0);
}

#[test]
fn zero_piece_length_with_pieces_is_refused() {
    let buffer = single_file(40, 0, &hashes(2), b"");
    assert_eq!(Torrent::from_buffer(&buffer).err(), Some(FromBufferError::InvalidPieceLength));
    assert_eq!(
        Torrent::from_buffer(b"d4:infod6:pieces20:aaaaaaaaaaaaaaaaaaaaee").err(),
        Some(FromBufferError::InvalidPieceLength)
    );
}

#[test]
fn missing_info_is_refused() {
    assert_eq!(Torrent::from_buffer(b"de").err(), Some(FromBufferError::MissingInfo));
    assert_eq!(Torrent::from_buffer(b"i1e").err(), Some(FromBufferError::MissingInfo));
    assert_eq!(Torrent::from_buffer(b"d4:infoi1ee").err(), Some(FromBufferError::MissingInfo));
    assert_eq!(
        Torrent::from_buffer(b"d8:announce3:urle").err(),
        Some(FromBufferError::MissingInfo)
    );
}

#[test]
fn decode_errors_are_passed_on() {
    assert_eq!(
        Torrent::from_buffer(b"d4:info").err(),
        Some(FromBufferError::DecodeError(DecodeError::Truncated))
    );
    assert_eq!(
        Torrent::from_buffer(b"i-0e").err(),
        Some(FromBufferError::DecodeError(DecodeError::InvalidFormat))
    );
    assert_eq!(
        Torrent::from_string("i-0e").err(),
        Some(FromStringError::DecodeError(DecodeError::InvalidFormat))
    );
    assert_eq!(Torrent::from_string("de").err(), Some(FromStringError::MissingInfo));
    assert_eq!(
        Torrent::from_string("d4:infod6:pieces20:aaaaaaaaaaaaaaaaaaaaee").err(),
        Some(FromStringError::InvalidPieceLength)
    );
}

#[test]
fn from_string_reads_a_torrent() {
    let t = Torrent::from_string(
        "d8:announce9:http://tr4:infod6:lengthi7e4:name1:a12:piece lengthi4e7:privatei1ee7:privatei2ee",
    )
    .unwrap();
    assert_eq!(t.announce, "http://tr");
    assert_eq!(t.info.name, "a");
    assert_eq!(t.info.length, 7);
    assert_eq!(t.info.piece_length, 4);
    assert_eq!(t.info.private, 1);
    assert!(t.private);
    assert_eq!(t.length, 0);
}

#[test]
fn top_level_fields_are_read_and_kept() {
    let mut b: Vec<u8> = vec![b'd'];
    b.extend_from_slice(b"8:announce3:url7:comment2:hi10:created by2:me");
    b.extend_from_slice(b"13:creation datei99e");
    b.extend_from_slice(b"4:infod6:lengthi40e4:name5:x.txt12:piece lengthi20e6:pieces0:e");
    b.extend_from_slice(b"6:lengthi50e4:name3:top12:piece lengthi10e7:urlList1:ue");
    let mut t = Torrent::from_buffer(&b).unwrap();
    assert_eq!(t.announce, "url");
    assert_eq!(t.comment, "hi");
    assert_eq!(t.created_by, "me");
    assert_eq!(t.creation_date, 99);
    assert_eq!(t.url_list, "u");
    assert_eq!(t.update_torrent(), Ok(()));
    assert_eq!(t.name, "top");
    assert_eq!(t.length, 50);
    assert_eq!(t.piece_length, 10);
    assert_eq!(t.last_piece_length, 0);
    assert_eq!(t.files[0].name, "x.txt");
    assert_eq!(t.files[0].path, "./x.txt");
    assert_eq!(t.files[0].length, 50);
}

#[test]
fn mistyped_fields_take_their_zero_value() {
    let t = Torrent::from_buffer(
        b"d8:announcei5e4:infod6:length1:x4:namei3e12:piece lengthi0e7:privatei256eee",
    )
    .unwrap();
    assert_eq!(t.announce, "");
    assert_eq!(t.info.length, 0);
    assert_eq!(t.info.name, "");
    assert_eq!(t.info.private, 0);
    assert!(!t.private);
    let negative =
        Torrent::from_buffer(b"d4:infod6:lengthi-5e12:piece lengthi0eee").unwrap();
    assert_eq!(negative.info.length, 0);
    let not_text =
        Torrent::from_buffer(b"d4:infod4:name2:\xff\xfe12:piece lengthi0eee").unwrap();
    assert_eq!(not_text.info.name, "");
}

#[test]
fn text_from_bytes_reads_utf8() {
    assert_eq!(text_from_bytes(b"x.txt"), "x.txt");
    assert_eq!(text_from_bytes("h\u{e9}".as_bytes()), "h\u{e9}");
    assert_eq!(text_from_bytes(&[0xff, 0x41]), "");
    assert_eq!(text_from_bytes(&[]), "");
}

#[test]
fn fields_of_a_dictionary() {
    let entries = vec![
        Entry { key: b"n".to_vec(), value: BencodeValue::Integer(12) },
        Entry { key: b"s".to_vec(), value: BencodeValue::ByteString(b"abc".to_vec()) },
    ];
    assert_eq!(find(&entries, b"n"), Some(&BencodeValue::Integer(12)));
    assert_eq!(find(&entries, b"q"), None);
    assert_eq!(read_number_field(&entries, b"n"), 12);
    assert_eq!(read_number_field(&entries, b"s"), 0);
    assert_eq!(read_bytes_field(&entries, b"s"), b"abc".to_vec());
    assert_eq!(read_bytes_field(&entries, b"n"), Vec::<u8>::new());
    assert_eq!(read_text_field(&entries, b"s"), "abc");
    assert_eq!(read_text_field(&entries, b"missing"), "");
}

#[test]
fn keys_are_spelled_as_in_a_torrent_file() {
    assert_eq!(key_bytes(Key::Info), b"info".to_vec());
    assert_eq!(key_bytes(Key::PieceLength), b"piece length".to_vec());
    assert_eq!(key_bytes(Key::CreatedBy), b"created by".to_vec());
    assert_eq!(key_bytes(Key::CreationDate), b"creation date".to_vec());
    assert_eq!(key_bytes(Key::UrlList), b"urlList".to_vec());
}

#[test]
fn digest_of_known_inputs() {
    assert_eq!(
        hex_digest(b"abc"),
        Some("a9993e364706816aba3e25717850c26c9cd0d89d".to_string())
    );
    assert_eq!(hex_digest(b""), Some("da39a3ee5e6b4b0d3255bfef95601890afd80709".to_string()));
}

#[test]
fn info_buffer_is_the_canonical_info_dictionary() {
    let pieces = hashes(2);
    let mut t = Torrent::from_buffer(&single_file(40, 20, &pieces, b"")).unwrap();
    assert_eq!(t.update_torrent(), Ok(()));
    let mut expected: Vec<u8> = Vec::new();
    expected.extend_from_slice(b"d6:lengthi40e4:name5:x.txt12:piece lengthi20e6:pieces40:");
    expected.extend_from_slice(&pieces);
    expected.extend_from_slice(b"7:privatei0ee");
    assert_eq!(t.info_buffer, expected);
    assert_eq!(encode(&t.to_bencode()), expected);

    let mut m: BTreeMap<ByteString, Bencode> = BTreeMap::new();
    m.insert(ByteString::from_str("length"), Bencode::Number(40));
    m.insert(ByteString::from_str("name"), Bencode::ByteString(b"x.txt".to_vec()));
    m.insert(ByteString::from_str("pieces"), Bencode::ByteString(pieces.clone()));
    m.insert(ByteString::from_str("piece length"), Bencode::Number(20));
    m.insert(ByteString::from_str("private"), Bencode::Number(0));
    assert_eq!(t.info_buffer, Bencode::Dict(m).to_bytes().unwrap());

    let mut hasher = Sha1::new();
    hasher.input(&expected);
    assert_eq!(t.info_hash, hasher.result_str());
    assert_eq!(t.info_hash.len(), 40);
}

#[test]
fn info_hash_ignores_fields_outside_info() {
    let pieces = hashes(1);
    let mut a = Torrent::from_buffer(&single_file(20, 20, &pieces, b"")).unwrap();
    let mut b =
        Torrent::from_buffer(&single_file(20, 20, &pieces, b"8:announce10:http://a.b7:comment1:c"))
            .unwrap();
    assert_eq!(b.announce, "http://a.b");
    assert_eq!(a.update_torrent(), Ok(()));
    assert_eq!(b.update_torrent(), Ok(()));
    assert_eq!(a.info_hash, b.info_hash);
    assert_eq!(a.info_buffer, b.info_buffer);
    let mut c = Torrent::from_buffer(&single_file(21, 20, &pieces, b"")).unwrap();
    assert_eq!(c.update_torrent(), Ok(()));
    assert_ne!(a.info_hash, c.info_hash);
}

#[test]
fn derivation_twice_is_derivation_once() {
    let mut t = Torrent::from_buffer(&single_file(45, 20, &hashes(3), b"")).unwrap();
    assert_eq!(t.update_torrent(), Ok(()));
    let once = t.clone();
    assert_eq!(t.update_torrent(), Ok(()));
    assert_eq!(t, once);
    let mut zero = Torrent::from_buffer(&single_file(0, 0, &[], b"")).unwrap();
    assert_eq!(zero.update_torrent(), Ok(()));
    let zero_once = zero.clone();
    assert_eq!(zero.update_torrent(), Ok(()));
    assert_eq!(zero, zero_once);
}

#[test]
fn derivation_keeps_fields_already_set() {
    let mut t = Torrent::from_buffer(&single_file(45, 20, &hashes(3), b"")).unwrap();
    t.name = "kept".to_string();
    t.length = 7;
    t.piece_length = 4;
    t.last_piece_length = 1;
    t.info_hash = "abc".to_string();
    t.info_buffer = vec![1, 2, 3];
    t.pieces = vec![vec![9u8; 20]];
    assert_eq!(t.update_torrent(), Ok(()));
    assert_eq!(t.name, "kept");
    assert_eq!(t.length, 7);
    assert_eq!(t.piece_length, 4);
    assert_eq!(t.last_piece_length, 1);
    assert_eq!(t.info_hash, "abc");
    assert_eq!(t.info_buffer, vec![1, 2, 3]);
    assert_eq!(t.pieces, vec![vec![9u8; 20]]);
    assert_eq!(t.files[0].length, 7);
}

#[test]
fn derivation_refuses_misaligned_pieces() {
    let info = Info {
        length: 40,
        name: "x".to_string(),
        pieces: vec![0u8; 21],
        piece_length: 20,
        private: 0,
    };
    let mut t = blank(info);
    let before = t.clone();
    assert_eq!(t.update_torrent(), Err(UpdateError::Segment(SegmentError::MisalignedLength)));
    assert_eq!(t, before);
    t.info.pieces = vec![0u8; 19];
    assert_eq!(t.update_torrent(), Err(UpdateError::Segment(SegmentError::MisalignedLength)));
}

#[test]
fn lengths_beyond_the_signed_range_wrap() {
    let info = Info {
        length: u64::MAX,
        name: String::new(),
        pieces: Vec::new(),
        piece_length: 1 << 63,
        private: 255,
    };
    let t = blank(info);
    assert_eq!(
        encode(&t.to_bencode()),
        b"d6:lengthi-1e4:name0:12:piece lengthi-9223372036854775808e6:pieces0:7:privatei255ee"
            .to_vec()
    );
}

#[test]
fn apply_derived_takes_the_values_given() {
    let info = Info {
        length: 45,
        name: "n".to_string(),
        pieces: Vec::new(),
        piece_length: 20,
        private: 0,
    };
    let mut t = blank(info);
    t.apply_derived(vec![vec![7u8; 20]], vec![1, 2], "ff".to_string());
    assert_eq!(t.pieces, vec![vec![7u8; 20]]);
    assert_eq!(t.info_buffer, vec![1, 2]);
    assert_eq!(t.info_hash, "ff");
    assert_eq!(t.name, "n");
    assert_eq!(t.last_piece_length, 5);
    assert_eq!(t.files.len(), 1);
    assert_eq!(t.files[0].path, "./n");
    assert_eq!(t.files[0].offset, 0);
    assert_eq!(t.files[0].md5sum, "");
}

#[test]
fn announce_list_is_read_by_tier() {
    let head: &[u8] = b"13:announce-listll5:http14:udp1el4:wxyzi5eei7e0:e";
    let t = Torrent::from_buffer(&single_file(20, 20, &hashes(1), head)).unwrap();
    assert_eq!(
        t.announce_list,
        vec![
            vec!["http1".to_string(), "udp1".to_string()],
            vec!["wxyz".to_string(), String::new()],
            Vec::new(),
            Vec::new(),
        ]
    );
    let none = Torrent::from_buffer(&single_file(20, 20, &hashes(1), b"")).unwrap();
    assert!(none.announce_list.is_empty());
    let mistyped =
        Torrent::from_buffer(&single_file(20, 20, &hashes(1), b"13:announce-listi3e")).unwrap();
    assert!(mistyped.announce_list.is_empty());
}

#[test]
fn top_level_files_are_kept() {
    let head: &[u8] =
        b"5:filesld6:lengthi3e6:md5sum2:ab4:name1:a6:offseti9e4:path3:d/aei4eded6:lengthi0eee";
    let mut t = Torrent::from_buffer(&single_file(20, 20, &hashes(1), head)).unwrap();
    let expected = vec![
        File {
            name: "a".to_string(),
            path: "d/a".to_string(),
            length: 3,
            offset: 9,
            md5sum: "ab".to_string(),
        },
        File {
            name: String::new(),
            path: String::new(),
            length: 0,
            offset: 0,
            md5sum: String::new(),
        },
        File {
            name: String::new(),
            path: String::new(),
            length: 0,
            offset: 0,
            md5sum: String::new(),
        },
        File {
            name: String::new(),
            path: String::new(),
            length: 0,
            offset: 0,
            md5sum: String::new(),
        },
    ];
    assert_eq!(t.files, expected);
    assert_eq!(t.update_torrent(), Ok(()));
    assert_eq!(t.files, expected);
}

#[test]
fn from_value_reads_a_decoded_dictionary() {
    let info = BencodeValue::Dict(vec![
        Entry { key: b"length".to_vec(), value: BencodeValue::Integer(5) },
        Entry { key: b"name".to_vec(), value: BencodeValue::ByteString(b"n".to_vec()) },
        Entry { key: b"piece length".to_vec(), value: BencodeValue::Integer(2) },
    ]);
    let top = BencodeValue::Dict(vec![Entry { key: b"info".to_vec(), value: info }]);
    let t = Torrent::from_value(&top).unwrap();
    assert_eq!(t.info.length, 5);
    assert_eq!(t.info.name, "n");
    assert_eq!(
        Torrent::from_value(&BencodeValue::List(Vec::new())).err(),
        Some(FromBufferError::MissingInfo)
    );
}

#[test]
fn private_flag_beside_info_is_its_own() {
    let t = Torrent::from_string("d4:infod12:piece lengthi0e7:privatei1eee").unwrap();
    assert_eq!(t.info.private, 1);
    assert!(!t.private);
}

#[test]
fn derived_fields_found_in_the_buffer_are_kept() {
    let head: &[u8] = b"10:infoBuffer3:abc8:infoHash2:ff14:infoHashBuffer1:z15:lastPieceLengthi3e6:piecesl2:aai1ee";
    let mut t = Torrent::from_buffer(&single_file(45, 20, &hashes(3), head)).unwrap();
    assert_eq!(t.info_buffer, b"abc".to_vec());
    assert_eq!(t.info_hash, "ff");
    assert_eq!(t.info_hash_buffer, b"z".to_vec());
    assert_eq!(t.last_piece_length, 3);
    assert_eq!(t.pieces, vec![b"aa".to_vec(), Vec::new()]);
    assert_eq!(t.update_torrent(), Ok(()));
    assert_eq!(t.info_buffer, b"abc".to_vec());
    assert_eq!(t.info_hash, "ff");
    assert_eq!(t.last_piece_length, 3);
    assert_eq!(t.pieces, vec![b"aa".to_vec(), Vec::new()]);
    assert_eq!(t.length, 45);
}

#[test]
fn info_buffer_decodes_to_the_info_dictionary() {
    let mut t = Torrent::from_buffer(&single_file(40, 20, &hashes(2), b"")).unwrap();
    assert_eq!(t.update_torrent(), Ok(()));
    let value = torrent_meta::decode::decode(&t.info_buffer).unwrap();
    assert_eq!(value, t.to_bencode());
}

#[test]
fn missing_piece_length_is_refused() {
    assert_eq!(
        Torrent::from_buffer(b"d4:infod4:name1:xee").err(),
        Some(FromBufferError::InvalidPieceLength)
    );
    assert_eq!(Torrent::from_buffer(b"d4:infodee").err(), Some(FromBufferError::InvalidPieceLength));
    assert_eq!(
        Torrent::from_buffer(b"d4:infod12:piece length2:20ee").err(),
        Some(FromBufferError::InvalidPieceLength)
    );
    assert_eq!(
        Torrent::from_buffer(b"d4:infod12:piece lengthi-1eee").err(),
        Some(FromBufferError::InvalidPieceLength)
    );
    assert_eq!(
        Torrent::from_string("d4:infod4:name1:xee").err(),
        Some(FromStringError::InvalidPieceLength)
    );
    let info = BencodeValue::Dict(vec![Entry {
        key: b"name".to_vec(),
        value: BencodeValue::ByteString(b"x".to_vec()),
    }]);
    let top = BencodeValue::Dict(vec![Entry { key: b"info".to_vec(), value: info }]);
    assert_eq!(Torrent::from_value(&top).err(), Some(FromBufferError::InvalidPieceLength));
    let zero = Torrent::from_buffer(b"d4:infod12:piece lengthi0eee").unwrap();
    assert_eq!(zero.info.piece_length, 0);
    assert!(zero.info.pieces.is_empty());
}

#[test]
fn digest_is_lower_case_hexadecimal() {
    let inputs: Vec<&[u8]> = vec![b"", b"abc", b"d4:infodee", &[0xff, 0x00, 0x80]];
    for input in inputs {
        let text = hex_digest(input).unwrap();
        assert_eq!(text.len(), 40);
        assert!(text.chars().all(|c| ('0'..='9').contains(&c) || ('a'..='f').contains(&c)));
    }
    assert_ne!(hex_digest(b"abc"), hex_digest(b"abd"));
}

fn wrap(info_buffer: &[u8]) -> Vec<u8> {
    let mut b: Vec<u8> = b"d4:info".to_vec();
    b.extend_from_slice(info_buffer);
    b.push(b'e');
    b
}

#[test]
fn load_reads_and_derives() {
    let pieces = hashes(3);
    let t = Torrent::load(&single_file(45, 20, &pieces, b"8:announce1:u")).unwrap();
    assert_eq!(t.announce, "u");
    assert_eq!(t.name, "x.txt");
    assert_eq!(t.length, 45);
    assert_eq!(t.last_piece_length, 5);
    assert_eq!(t.pieces.len(), 3);
    assert_eq!(t.info_hash.len(), 40);
    let mut by_hand = Torrent::from_buffer(&single_file(45, 20, &pieces, b"8:announce1:u")).unwrap();
    assert_eq!(by_hand.update_torrent(), Ok(()));
    assert_eq!(t, by_hand);
}

#[test]
fn load_passes_on_both_kinds_of_error() {
    assert_eq!(
        Torrent::load(b"i-0e").err(),
        Some(LoadError::Buffer(FromBufferError::DecodeError(DecodeError::InvalidFormat)))
    );
    assert_eq!(Torrent::load(b"de").err(), Some(LoadError::Buffer(FromBufferError::MissingInfo)));
    assert_eq!(
        Torrent::load(b"d4:infod4:name1:xee").err(),
        Some(LoadError::Buffer(FromBufferError::InvalidPieceLength))
    );
    assert_eq!(
        Torrent::load(&single_file(40, 20, &[7u8; 21], b"")).err(),
        Some(LoadError::Update(UpdateError::Segment(SegmentError::MisalignedLength)))
    );
}

#[test]
fn wrapped_info_buffer_reads_back_the_info() {
    let pieces = hashes(2);
    let t = Torrent::load(&single_file(40, 20, &pieces, b"7:comment1:c")).unwrap();
    let again = Torrent::from_buffer(&wrap(&t.info_buffer)).unwrap();
    assert_eq!(again.info, t.info);
    assert_eq!(again.info.length, 40);
    assert_eq!(again.info.name, "x.txt");
    assert_eq!(again.info.pieces, pieces);
    assert_eq!(again.info.piece_length, 20);
    assert_eq!(again.info.private, 0);
    assert_eq!(again.comment, "");
    assert!(again.info_buffer.is_empty());
    assert!(again.info_hash.is_empty());

    let info = Info {
        length: 7,
        name: "h\u{e9}".to_string(),
        pieces: Vec::new(),
        piece_length: 0,
        private: 1,
    };
    let mut by_hand = blank(info);
    assert_eq!(by_hand.update_torrent(), Ok(()));
    let read = Torrent::from_buffer(&wrap(&by_hand.info_buffer)).unwrap();
    assert_eq!(read.info, by_hand.info);
}

#[test]
fn loading_again_gives_the_same_buffer_and_hash() {
    let first = Torrent::load(&single_file(45, 20, &hashes(3), b"8:announce1:u")).unwrap();
    let second = Torrent::load(&wrap(&first.info_buffer)).unwrap();
    assert_eq!(second.info, first.info);
    assert_eq!(second.info_buffer, first.info_buffer);
    assert_eq!(second.info_hash, first.info_hash);
    let third = Torrent::load(&wrap(&second.info_buffer)).unwrap();
    assert_eq!(third, second);
}
