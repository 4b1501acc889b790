use file_parts::decode::decode_input_file_extension;
use file_parts::decode::decode_metafile;
use file_parts::decode::decode_part;
use file_parts::decode::decode_str;
use file_parts::decode::DecodeType;
use file_parts::encode::encode_metafile;
use file_parts::encode::encode_part;
use file_parts::encode::utf8_len;
use file_parts::errors::DecodeErrors;
use file_parts::errors::EncodeErrors;
use file_parts::errors::MetadataFault;
use file_parts::model::CompositeFile;
use file_parts::model::FilePart;
use file_parts::model::HashPart;
use file_parts::wire::ByteIter;

fn descriptor(filename: &str, extension: &str, token: &str, count: u8) -> CompositeFile {
    CompositeFile {
        filename: String::from(filename),
        file_extension: String::from(extension),
        parts: (0..count).map(|i| HashPart([i; 16])).collect(),
        uuid_parts: String::from(token),
    }
}

#[test]
fn part_file_is_identifier_then_chunk() {
    let part = encode_part("tok", 1, &[10, 20, 30]);
    assert_eq!(part.part_file_name, "tok_1.part");
    assert_eq!(
        part.hash_bytes.0,
        [199, 183, 73, 70, 97, 113, 240, 2, 100, 168, 20, 222, 190, 189, 233, 121]
    );
    assert_eq!(
        part.part_file,
        vec![
            199, 183, 73, 70, 97, 113, 240, 2, 100, 168, 20, 222, 190, 189, 233, 121, 10, 20, 30
        ]
    );
    assert_eq!(part.data(), &[10, 20, 30]);
}

#[test]
fn part_identifier_follows_token_and_number() {
    let second = encode_part("tok", 2, &[]);
    assert_eq!(
        second.hash_bytes.0,
        [153, 232, 77, 94, 176, 78, 49, 43, 128, 152, 253, 47, 242, 136, 144, 109]
    );
    assert_eq!(second.part_file.len(), 16);
    let tenth = encode_part("run", 10, &[1]);
    assert_eq!(
        tenth.hash_bytes.0,
        [167, 29, 212, 180, 15, 252, 114, 201, 255, 41, 5, 238, 254, 241, 58, 226]
    );
    assert_eq!(encode_part("run", 10, &[2]).hash_bytes, tenth.hash_bytes);
}

#[test]
fn part_file_shorter_than_an_identifier_carries_nothing() {
    let short = FilePart {
        part_file: vec![1, 2, 3],
        hash_bytes: HashPart([0; 16]),
        part_file_name: String::from("n"),
    };
    assert_eq!(short.data(), &[] as &[u8]);
    let exact = FilePart {
        part_file: vec![0; 16],
        hash_bytes: HashPart([0; 16]),
        part_file_name: String::from("n"),
    };
    assert_eq!(exact.data(), &[] as &[u8]);
}

#[test]
fn part_file_assembled_from_given_identifier() {
    let part = FilePart::assemble(String::from("n"), HashPart([5; 16]), &[1, 2]);
    let mut expected = vec![5u8; 16];
    expected.extend_from_slice(&[1, 2]);
    assert_eq!(part.part_file, expected);
    assert_eq!(part.hash_bytes, HashPart([5; 16]));
    assert_eq!(part.part_file_name, "n");
    assert_eq!(part.data(), &[1, 2]);
}

#[test]
fn metadata_file_layout() {
    let meta = encode_metafile(&descriptor("ab", "c", "tok", 2)).unwrap();
    assert_eq!(meta.name, "build_file_ab.meta");
    let mut expected = vec![2, b'a', b'b', 1, b'c', 3, b't', b'o', b'k'];
    expected.extend_from_slice(&[0, 0, 0, 0, 0, 0, 0, 2]);
    expected.extend_from_slice(&[0; 16]);
    expected.extend_from_slice(&[1; 16]);
    assert_eq!(meta.bytes, expected);
}

#[test]
fn metadata_file_without_parts() {
    let meta = encode_metafile(&descriptor("", "", "", 0)).unwrap();
    assert_eq!(meta.name, "build_file_.meta");
    assert_eq!(meta.bytes, vec![0, 0, 0, 0, 0, 0, 0, 0, 0, 0, 0]);
}

#[test]
fn metadata_lengths_count_bytes_not_characters() {
    let meta = encode_metafile(&descriptor("пример", "txt", "t", 0)).unwrap();
    assert_eq!(utf8_len("пример"), 12);
    assert_eq!(meta.bytes[0], 12);
    assert_eq!(&meta.bytes[1..13], "пример".as_bytes());
    assert_eq!(meta.bytes[13], 3);
}

#[test]
fn metadata_text_of_255_bytes_fits() {
    let name = "x".repeat(255);
    let meta = encode_metafile(&descriptor(&name, "e", "t", 0)).unwrap();
    assert_eq!(meta.bytes[0], 255);
    assert_eq!(meta.bytes.len(), 1 + 255 + 2 + 2 + 8);
    assert_eq!(
        decode_metafile(&meta.bytes),
        Ok(descriptor(&name, "e", "t", 0))
    );
}

#[test]
fn metadata_text_of_256_bytes_is_refused() {
    let long = "x".repeat(256);
    assert_eq!(
        encode_metafile(&descriptor(&long, "e", "t", 1)),
        Err(EncodeErrors::MalformedMetadata)
    );
    assert_eq!(
        encode_metafile(&descriptor("n", &long, "t", 1)),
        Err(EncodeErrors::MalformedMetadata)
    );
    assert_eq!(
        encode_metafile(&descriptor("n", "e", &long, 1)),
        Err(EncodeErrors::MalformedMetadata)
    );
}

#[test]
fn metadata_written_is_read_back() {
    for count in [0u8, 1, 2, 17] {
        let written = descriptor("report", "pdf", "0a1b-2c3d", count);
        let meta = encode_metafile(&written).unwrap();
        assert_eq!(decode_metafile(&meta.bytes), Ok(written));
    }
}

#[test]
fn metadata_read_is_written_back() {
    let mut bytes = vec![1, b'n', 0, 2, b't', b't', 0, 0, 0, 0, 0, 0, 0, 1];
    bytes.extend_from_slice(&[9; 16]);
    let read = decode_metafile(&bytes).unwrap();
    assert_eq!(read.filename, "n");
    assert_eq!(read.file_extension, "");
    assert_eq!(read.uuid_parts, "tt");
    assert_eq!(read.parts, vec![HashPart([9; 16])]);
    assert_eq!(encode_metafile(&read).unwrap().bytes, bytes);
}

#[test]
fn metadata_truncated() {
    let truncated = Err(DecodeErrors::MalformedMetadata(MetadataFault::Truncated));
    assert_eq!(decode_metafile(&[]), truncated);
    assert_eq!(decode_metafile(&[3, b'a', b'b']), truncated);
    assert_eq!(decode_metafile(&[1, b'a']), truncated);
    assert_eq!(decode_metafile(&[1, b'a', 1, b'b', 2, b't']), truncated);
    assert_eq!(
        decode_metafile(&[1, b'a', 1, b'b', 1, b't', 0, 0, 0, 0, 0, 0, 0]),
        truncated
    );
    let meta = encode_metafile(&descriptor("report", "pdf", "tok", 3)).unwrap();
    for len in 0..(meta.bytes.len() - 3 * 16) {
        assert_eq!(decode_metafile(&meta.bytes[..len]), truncated);
    }
}

#[test]
fn metadata_invalid_utf8() {
    let invalid = Err(DecodeErrors::MalformedMetadata(MetadataFault::InvalidUtf8));
    assert_eq!(
        decode_metafile(&[1, 0xFF, 0, 0, 0, 0, 0, 0, 0, 0, 0, 0]),
        invalid
    );
    assert_eq!(
        decode_metafile(&[1, b'a', 2, 0xC3, 0x28, 0, 0, 0, 0, 0, 0, 0, 0, 0]),
        invalid
    );
    assert_eq!(
        decode_metafile(&[0, 0, 1, 0x80, 0, 0, 0, 0, 0, 0, 0, 0]),
        invalid
    );
}

#[test]
fn metadata_truncation_is_met_before_invalid_utf8_behind_it() {
    assert_eq!(
        decode_metafile(&[2, 0xFF]),
        Err(DecodeErrors::MalformedMetadata(MetadataFault::Truncated))
    );
    assert_eq!(
        decode_metafile(&[1, 0xFF]),
        Err(DecodeErrors::MalformedMetadata(MetadataFault::InvalidUtf8))
    );
}

#[test]
fn metadata_count_mismatch() {
    let mismatch = Err(DecodeErrors::MalformedMetadata(MetadataFault::CountMismatch));
    let meta = encode_metafile(&descriptor("report", "pdf", "tok", 2)).unwrap();
    let full = meta.bytes;
    assert_eq!(decode_metafile(&full[..full.len() - 1]), mismatch);
    assert_eq!(decode_metafile(&full[..full.len() - 16]), mismatch);
    let mut longer = full.clone();
    longer.push(0);
    assert_eq!(decode_metafile(&longer), mismatch);
    longer.extend_from_slice(&[0; 15]);
    assert_eq!(decode_metafile(&longer), mismatch);
    let mut header = vec![0, 0, 0];
    header.extend_from_slice(&[0xFF; 8]);
    assert_eq!(decode_metafile(&header), mismatch);
    let mut declared_one = vec![0, 0, 0, 0, 0, 0, 0, 0, 0, 0, 1];
    assert_eq!(decode_metafile(&declared_one), mismatch);
    declared_one.extend_from_slice(&[4; 16]);
    assert_eq!(decode_metafile(&declared_one), Ok(CompositeFile {
        filename: String::new(),
        file_extension: String::new(),
        parts: vec![HashPart([4; 16])],
        uuid_parts: String::new(),
    }));
}

#[test]
fn integer_width_decides_how_many_bytes_are_read() {
    let bytes = [0u8, 0, 0, 0, 0, 0, 1, 2, 9];
    let mut iter = ByteIter::new(&bytes);
    assert_eq!(DecodeType::U8.byte_len(), 1);
    assert_eq!(DecodeType::U64.byte_len(), 8);
    assert_eq!(DecodeType::U64.decode_from_iter(&mut iter), Ok(258));
    assert_eq!(iter.len(), 1);
    assert_eq!(
        DecodeType::U64.decode_from_iter(&mut iter),
        Err(DecodeErrors::MalformedMetadata(MetadataFault::Truncated))
    );
    assert_eq!(iter.len(), 1);
    assert_eq!(DecodeType::U8.decode_from_iter(&mut iter), Ok(9));
    assert_eq!(
        DecodeType::U8.decode_from_iter(&mut iter),
        Err(DecodeErrors::MalformedMetadata(MetadataFault::Truncated))
    );
}

#[test]
fn text_behind_one_byte_length() {
    let bytes = [3u8, b'p', b'd', b'f', 7];
    let mut iter = ByteIter::new(&bytes);
    assert_eq!(decode_str(DecodeType::U8, &mut iter), Ok(String::from("pdf")));
    assert_eq!(iter.rest(), &[7]);
    assert_eq!(
        decode_str(DecodeType::U8, &mut iter),
        Err(DecodeErrors::MalformedMetadata(MetadataFault::Truncated))
    );
    assert_eq!(iter.rest(), &[7]);
}

#[test]
fn text_behind_eight_byte_length() {
    let bytes = [0u8, 0, 0, 0, 0, 0, 0, 2, b'g', b'z', 1];
    let mut iter = ByteIter::new(&bytes);
    assert_eq!(decode_str(DecodeType::U64, &mut iter), Ok(String::from("gz")));
    assert_eq!(iter.rest(), &[1]);
    let mut iter = ByteIter::new(&bytes);
    assert_eq!(
        decode_input_file_extension(&mut iter),
        Ok(String::from("gz"))
    );
    assert_eq!(iter.rest(), &[1]);
}

#[test]
fn text_with_a_length_beyond_the_bytes_is_truncated() {
    let bytes = [0xFFu8, 0xFF, 0xFF, 0xFF, 0xFF, 0xFF, 0xFF, 0xFF, b'a'];
    let mut iter = ByteIter::new(&bytes);
    assert_eq!(
        decode_input_file_extension(&mut iter),
        Err(DecodeErrors::MalformedMetadata(MetadataFault::Truncated))
    );
    assert_eq!(iter.len(), 9);
    let short = [0u8, 0, 0];
    let mut iter = ByteIter::new(&short);
    assert_eq!(
        decode_input_file_extension(&mut iter),
        Err(DecodeErrors::MalformedMetadata(MetadataFault::Truncated))
    );
}

#[test]
fn text_that_is_not_utf8_is_refused_and_not_read() {
    let bytes = [2u8, 0xE2, 0x82, 9];
    let mut iter = ByteIter::new(&bytes);
    assert_eq!(
        decode_str(DecodeType::U8, &mut iter),
        Err(DecodeErrors::MalformedMetadata(MetadataFault::InvalidUtf8))
    );
    assert_eq!(iter.len(), 4);
    let euro = [3u8, 0xE2, 0x82, 0xAC];
    let mut iter = ByteIter::new(&euro);
    assert_eq!(decode_str(DecodeType::U8, &mut iter), Ok(String::from("€")));
}

#[test]
fn part_with_recorded_identifier_is_taken() {
    let written = encode_part("tok", 3, &[1, 2, 3, 4]);
    let read = decode_part(
        "tok",
        3,
        &written.hash_bytes,
        Some(written.part_file.clone()),
    );
    assert_eq!(read, Ok(written.clone()));
    assert_eq!(read.unwrap().data(), &[1, 2, 3, 4]);
}

#[test]
fn part_that_is_absent_is_missing() {
    assert_eq!(
        decode_part("tok", 4, &HashPart([0; 16]), None),
        Err(DecodeErrors::MissingPart(4))
    );
}

#[test]
fn part_shorter_than_an_identifier_is_corrupt() {
    assert_eq!(
        decode_part("tok", 5, &HashPart([0; 16]), Some(vec![0; 15])),
        Err(DecodeErrors::CorruptPart(5))
    );
    assert_eq!(
        decode_part("tok", 6, &HashPart([0; 16]), Some(Vec::new())),
        Err(DecodeErrors::CorruptPart(6))
    );
    let empty_chunk = decode_part("tok", 6, &HashPart([0; 16]), Some(vec![0; 16])).unwrap();
    assert_eq!(empty_chunk.data(), &[] as &[u8]);
    assert_eq!(empty_chunk.part_file_name, "tok_6.part");
}

#[test]
fn part_with_another_identifier_is_corrupt() {
    let written = encode_part("tok", 7, &[1, 2, 3]);
    for at in 0..16 {
        let mut bytes = written.part_file.clone();
        bytes[at] ^= 0x01;
        assert_eq!(
            decode_part("tok", 7, &written.hash_bytes, Some(bytes)),
            Err(DecodeErrors::CorruptPart(7))
        );
    }
    let mut payload_changed = written.part_file.clone();
    payload_changed[16] ^= 0x01;
    let read = decode_part("tok", 7, &written.hash_bytes, Some(payload_changed)).unwrap();
    assert_eq!(read.data(), &[0, 2, 3]);
}
