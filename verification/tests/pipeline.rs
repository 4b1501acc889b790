use file_parts::decode::decode_file;
use file_parts::decode::decode_metafile;
use file_parts::decode::find_part;
use file_parts::decode::Decoder;
use file_parts::encode::encode_file;
use file_parts::encode::encode_file_with_token;
use file_parts::encode::Encoder;
use file_parts::encode::DEFAULT_SIZE_PART;
use file_parts::errors::DecodeErrors;
use file_parts::errors::EncodeErrors;
use file_parts::errors::MetadataFault;
use file_parts::model::HashPart;
use file_parts::model::HASH_LEN;

fn pattern(len: usize) -> Vec<u8> {
    (0..len).map(|i| (i * 31 + i / 7) as u8).collect()
}

fn token() -> String {
    String::from("tok")
}

#[test]
fn report_of_two_and_a_half_million_bytes() {
    let content = pattern(2_500_000);
    let encoded = encode_file("dir/report.pdf", &content, Some(1_000_000)).unwrap();
    assert_eq!(encoded.parts.len(), 3);
    assert_eq!(encoded.parts[0].part_file.len(), 1_000_000 + 16);
    assert_eq!(encoded.parts[1].part_file.len(), 1_000_000 + 16);
    assert_eq!(encoded.parts[2].part_file.len(), 500_000 + 16);
    assert_eq!(encoded.parts[0].data(), &content[..1_000_000]);
    assert_eq!(encoded.parts[1].data(), &content[1_000_000..2_000_000]);
    assert_eq!(encoded.parts[2].data(), &content[2_000_000..]);
    assert_eq!(encoded.meta.name, "build_file_report.meta");
    let descriptor = decode_metafile(&encoded.meta.bytes).unwrap();
    assert_eq!(descriptor.parts.len(), 3);
    let count_at = 1 + 6 + 1 + 3 + 1 + 36;
    assert_eq!(
        &encoded.meta.bytes[count_at..count_at + 8],
        &[0, 0, 0, 0, 0, 0, 0, 3]
    );
    let rebuilt = decode_file(&encoded.meta.bytes, &encoded.parts).unwrap();
    assert_eq!(rebuilt.name, "report.pdf");
    assert_eq!(rebuilt.content.len(), 2_500_000);
    assert_eq!(rebuilt.content, content);
}

#[test]
fn empty_source_gives_no_parts() {
    let encoded = encode_file("empty.bin", &[], None).unwrap();
    assert_eq!(encoded.parts.len(), 0);
    let descriptor = decode_metafile(&encoded.meta.bytes).unwrap();
    assert_eq!(descriptor.parts.len(), 0);
    assert_eq!(descriptor.filename, "empty");
    assert_eq!(descriptor.file_extension, "bin");
    let len = encoded.meta.bytes.len();
    assert_eq!(&encoded.meta.bytes[len - 8..], &[0; 8]);
    let rebuilt = decode_file(&encoded.meta.bytes, &encoded.parts).unwrap();
    assert_eq!(rebuilt.name, "empty.bin");
    assert_eq!(rebuilt.content, Vec::<u8>::new());
}

#[test]
fn what_is_split_is_put_together_again() {
    for len in [0usize, 1, 2, 15, 16, 17, 99, 100, 101, 1000] {
        for size in [1usize, 2, 7, 16, 100, 1000, 5000] {
            let content = pattern(len);
            let encoded =
                encode_file_with_token("some/dir/data.bin", &content, Some(size), token())
                    .unwrap();
            assert_eq!(encoded.parts.len(), (len + size - 1) / size);
            let rebuilt = decode_file(&encoded.meta.bytes, &encoded.parts).unwrap();
            assert_eq!(rebuilt.name, "data.bin");
            assert_eq!(rebuilt.content, content);
        }
    }
}

#[test]
fn parts_are_found_in_any_order_of_the_store() {
    let content = pattern(50);
    let mut encoded = encode_file_with_token("a.b", &content, Some(7), token()).unwrap();
    encoded.parts.reverse();
    let rebuilt = decode_file(&encoded.meta.bytes, &encoded.parts).unwrap();
    assert_eq!(rebuilt.content, content);
}

#[test]
fn chunks_have_the_configured_size_but_the_last() {
    let content = pattern(23);
    let encoded = encode_file_with_token("a.b", &content, Some(10), token()).unwrap();
    let sizes: Vec<usize> = encoded.parts.iter().map(|p| p.data().len()).collect();
    assert_eq!(sizes, vec![10, 10, 3]);
    let names: Vec<&str> = encoded
        .parts
        .iter()
        .map(|p| p.part_file_name.as_str())
        .collect();
    assert_eq!(names, vec!["tok_1.part", "tok_2.part", "tok_3.part"]);
    let exact = encode_file_with_token("a.b", &pattern(20), Some(10), token()).unwrap();
    let sizes: Vec<usize> = exact.parts.iter().map(|p| p.data().len()).collect();
    assert_eq!(sizes, vec![10, 10]);
}

#[test]
fn same_token_and_number_give_the_same_identifier() {
    let first = encode_file_with_token("a.b", &pattern(30), Some(10), token()).unwrap();
    let second = encode_file_with_token("c.d", &pattern(25), Some(9), token()).unwrap();
    for i in 0..3 {
        assert_eq!(first.parts[i].hash_bytes, second.parts[i].hash_bytes);
    }
    assert_eq!(
        first.parts[0].hash_bytes.0,
        [199, 183, 73, 70, 97, 113, 240, 2, 100, 168, 20, 222, 190, 189, 233, 121]
    );
    assert_eq!(
        first.parts[1].hash_bytes.0,
        [153, 232, 77, 94, 176, 78, 49, 43, 128, 152, 253, 47, 242, 136, 144, 109]
    );
    let other = encode_file_with_token("a.b", &pattern(30), Some(10), String::from("kot")).unwrap();
    assert_ne!(first.parts[0].hash_bytes, other.parts[0].hash_bytes);
}

#[test]
fn declared_count_is_the_number_of_identifiers_and_of_parts() {
    for len in [0usize, 1, 10, 11, 64] {
        let encoded = encode_file_with_token("a.b", &pattern(len), Some(10), token()).unwrap();
        let descriptor = decode_metafile(&encoded.meta.bytes).unwrap();
        assert_eq!(descriptor.parts.len(), encoded.parts.len());
        let header = 1 + 1 + 1 + 1 + 1 + 3;
        let mut declared = [0u8; 8];
        declared.copy_from_slice(&encoded.meta.bytes[header..header + 8]);
        assert_eq!(u64::from_be_bytes(declared), encoded.parts.len() as u64);
        assert_eq!(
            encoded.meta.bytes.len(),
            header + 8 + HASH_LEN * encoded.parts.len()
        );
        for (recorded, part) in descriptor.parts.iter().zip(encoded.parts.iter()) {
            assert_eq!(*recorded, part.hash_bytes);
        }
    }
}

#[test]
fn flipped_identifier_byte_is_a_corrupt_part() {
    let content = pattern(35);
    let encoded = encode_file_with_token("a.b", &content, Some(10), token()).unwrap();
    for k in 0..encoded.parts.len() {
        for j in 0..16 {
            let mut store = encoded.parts.clone();
            store[k].part_file[j] ^= 0x80;
            assert_eq!(
                decode_file(&encoded.meta.bytes, &store),
                Err(DecodeErrors::CorruptPart(k as u64 + 1))
            );
        }
    }
}

#[test]
fn truncated_part_is_a_corrupt_part() {
    let encoded = encode_file_with_token("a.b", &pattern(35), Some(10), token()).unwrap();
    let mut store = encoded.parts.clone();
    store[1].part_file.truncate(15);
    assert_eq!(
        decode_file(&encoded.meta.bytes, &store),
        Err(DecodeErrors::CorruptPart(2))
    );
}

#[test]
fn deleted_part_is_a_missing_part() {
    let content = pattern(35);
    let encoded = encode_file_with_token("a.b", &content, Some(10), token()).unwrap();
    assert_eq!(encoded.parts.len(), 4);
    for k in 0..encoded.parts.len() {
        let mut store = encoded.parts.clone();
        store.remove(k);
        assert_eq!(
            decode_file(&encoded.meta.bytes, &store),
            Err(DecodeErrors::MissingPart(k as u64 + 1))
        );
    }
    assert_eq!(
        decode_file(&encoded.meta.bytes, &Vec::new()),
        Err(DecodeErrors::MissingPart(1))
    );
}

#[test]
fn first_refused_part_decides() {
    let encoded = encode_file_with_token("a.b", &pattern(35), Some(10), token()).unwrap();
    let mut store = encoded.parts.clone();
    store[2].part_file[0] ^= 1;
    store.remove(1);
    assert_eq!(
        decode_file(&encoded.meta.bytes, &store),
        Err(DecodeErrors::MissingPart(2))
    );
    let mut store = encoded.parts.clone();
    store[0].part_file[3] ^= 1;
    store.remove(3);
    assert_eq!(
        decode_file(&encoded.meta.bytes, &store),
        Err(DecodeErrors::CorruptPart(1))
    );
}

#[test]
fn malformed_metadata_ends_the_run() {
    let encoded = encode_file_with_token("a.b", &pattern(35), Some(10), token()).unwrap();
    let meta = &encoded.meta.bytes;
    assert_eq!(
        decode_file(&meta[..5], &encoded.parts),
        Err(DecodeErrors::MalformedMetadata(MetadataFault::Truncated))
    );
    assert_eq!(
        decode_file(&meta[..meta.len() - 1], &encoded.parts),
        Err(DecodeErrors::MalformedMetadata(MetadataFault::CountMismatch))
    );
    let mut invalid = meta.clone();
    invalid[1] = 0xFF;
    assert_eq!(
        decode_file(&invalid, &encoded.parts),
        Err(DecodeErrors::MalformedMetadata(MetadataFault::InvalidUtf8))
    );
}

#[test]
fn changed_chunk_bytes_are_not_noticed() {
    let content = pattern(20);
    let encoded = encode_file_with_token("a.b", &content, Some(10), token()).unwrap();
    let mut store = encoded.parts.clone();
    store[1].part_file[16] ^= 0xFF;
    let rebuilt = decode_file(&encoded.meta.bytes, &store).unwrap();
    assert_ne!(rebuilt.content, content);
    assert_eq!(rebuilt.content.len(), content.len());
}

#[test]
fn source_path_decides_whether_a_run_starts() {
    assert_eq!(
        encode_file("no_extension", &[1], None),
        Err(EncodeErrors::InvalidPath)
    );
    assert_eq!(
        encode_file_with_token("dir.d/none", &[1], Some(4), token()),
        Err(EncodeErrors::InvalidPath)
    );
    let long = format!("{}.bin", "n".repeat(256));
    assert_eq!(
        encode_file(&long, &[1], None),
        Err(EncodeErrors::MalformedMetadata)
    );
    let long_extension = format!("n.{}", "e".repeat(256));
    assert_eq!(
        encode_file(&long_extension, &[1], None),
        Err(EncodeErrors::MalformedMetadata)
    );
    let fits = format!("{}.{}", "n".repeat(255), "e".repeat(255));
    assert!(encode_file(&fits, &[1], None).is_ok());
}

#[test]
fn grouping_token_of_more_than_255_bytes_is_refused() {
    assert_eq!(
        encode_file_with_token("a.b", &[1], None, "t".repeat(256)),
        Err(EncodeErrors::MalformedMetadata)
    );
    assert!(encode_file_with_token("a.b", &[1], None, "t".repeat(255)).is_ok());
    assert!(Encoder::start_with_token("a.b", "t".repeat(256), None).is_err());
}

#[test]
fn fresh_token_is_a_hyphenated_uuid() {
    let encoded = encode_file("a.b", &pattern(3), Some(2)).unwrap();
    let descriptor = decode_metafile(&encoded.meta.bytes).unwrap();
    let token = descriptor.uuid_parts;
    assert_eq!(token.len(), 36);
    assert_eq!(token.chars().count(), 36);
    assert!(token.is_ascii());
    for (i, c) in token.chars().enumerate() {
        if i == 8 || i == 13 || i == 18 || i == 23 {
            assert_eq!(c, '-');
        } else {
            assert!(c.is_ascii_hexdigit());
        }
    }
    assert_eq!(
        encoded.parts[0].part_file_name,
        format!("{}_1.part", token)
    );
    assert_eq!(
        encoded.parts[1].part_file_name,
        format!("{}_2.part", token)
    );
    assert_eq!(
        encoded.parts[1].hash_bytes,
        HashPart::of_key(&format!("{}_2.part", token))
    );
}

#[test]
fn encoder_takes_chunks_one_by_one() {
    let mut encoder = Encoder::start_with_token("dir/movie.mkv", token(), Some(4)).unwrap();
    assert_eq!(encoder.size_part(), 4);
    assert_eq!(encoder.count_parts(), 0);
    let first = encoder.push(&[1, 2, 3, 4]).unwrap().unwrap();
    assert_eq!(first.part_file_name, "tok_1.part");
    assert_eq!(first.data(), &[1, 2, 3, 4]);
    assert_eq!(encoder.count_parts(), 1);
    let second = encoder.push(&[5]).unwrap().unwrap();
    assert_eq!(second.part_file_name, "tok_2.part");
    assert_eq!(encoder.count_parts(), 2);
    assert_eq!(encoder.push(&[]), Ok(None));
    assert_eq!(encoder.count_parts(), 2);
    let meta = encoder.finish();
    assert_eq!(meta.name, "build_file_movie.meta");
    let descriptor = decode_metafile(&meta.bytes).unwrap();
    assert_eq!(descriptor.filename, "movie");
    assert_eq!(descriptor.file_extension, "mkv");
    assert_eq!(descriptor.uuid_parts, "tok");
    assert_eq!(descriptor.parts, vec![first.hash_bytes, second.hash_bytes]);
}

#[test]
fn encoder_default_chunk_size_is_one_gibibyte() {
    let encoder = Encoder::start("a.b", None).unwrap();
    assert_eq!(encoder.size_part(), 1_073_741_824);
    assert_eq!(DEFAULT_SIZE_PART, 1 << 30);
    let encoder = Encoder::start("a.b", Some(5)).unwrap();
    assert_eq!(encoder.size_part(), 5);
    assert!(Encoder::start("ab", Some(5)).is_err());
}

#[test]
fn decoder_takes_parts_one_by_one() {
    let content = pattern(9);
    let encoded = encode_file_with_token("x/y.z", &content, Some(4), token()).unwrap();
    let mut decoder = Decoder::start(&encoded.meta.bytes).unwrap();
    assert_eq!(decoder.output_file_name(), "y.z");
    assert_eq!(decoder.count_parts(), 3);
    assert_eq!(decoder.count_taken(), 0);
    assert_eq!(decoder.next_part_name(), Some(String::from("tok_1.part")));
    let first = decoder
        .accept(Some(encoded.parts[0].part_file.clone()))
        .unwrap();
    assert_eq!(first.data(), &content[..4]);
    assert_eq!(decoder.count_taken(), 1);
    assert_eq!(decoder.next_part_name(), Some(String::from("tok_2.part")));
    assert_eq!(decoder.accept(None), Err(DecodeErrors::MissingPart(2)));
    assert_eq!(decoder.count_taken(), 1);
    assert_eq!(
        decoder.accept(Some(encoded.parts[0].part_file.clone())),
        Err(DecodeErrors::CorruptPart(2))
    );
    assert_eq!(decoder.count_taken(), 1);
    assert_eq!(decoder.next_part_name(), Some(String::from("tok_2.part")));
    let second = decoder
        .accept(Some(encoded.parts[1].part_file.clone()))
        .unwrap();
    assert_eq!(second.data(), &content[4..8]);
    let third = decoder
        .accept(Some(encoded.parts[2].part_file.clone()))
        .unwrap();
    assert_eq!(third.data(), &content[8..]);
    assert_eq!(decoder.count_taken(), 3);
    assert_eq!(decoder.next_part_name(), None);
}

#[test]
fn decoder_does_not_start_on_malformed_metadata() {
    assert_eq!(
        Decoder::start(&[1]).err(),
        Some(DecodeErrors::MalformedMetadata(MetadataFault::Truncated))
    );
    assert_eq!(
        Decoder::start(&[0, 0, 0, 0, 0, 0, 0, 0, 0, 0, 2]).err(),
        Some(DecodeErrors::MalformedMetadata(MetadataFault::CountMismatch))
    );
    let empty = Decoder::start(&[0, 0, 0, 0, 0, 0, 0, 0, 0, 0, 0]).unwrap();
    assert_eq!(empty.count_parts(), 0);
    assert_eq!(empty.next_part_name(), None);
    assert_eq!(empty.output_file_name(), ".");
}

#[test]
fn first_file_of_a_name_is_found() {
    let encoded = encode_file_with_token("a.b", &pattern(8), Some(4), token()).unwrap();
    let mut store = encoded.parts.clone();
    assert_eq!(
        find_part(&store, &String::from("tok_2.part")),
        Some(encoded.parts[1].part_file.clone())
    );
    assert_eq!(find_part(&store, &String::from("tok_3.part")), None);
    assert_eq!(find_part(&store, &String::from("tok_2")), None);
    let mut double = encoded.parts[0].clone();
    double.part_file_name = String::from("tok_2.part");
    store.insert(0, double);
    assert_eq!(
        find_part(&store, &String::from("tok_2.part")),
        Some(encoded.parts[0].part_file.clone())
    );
}
