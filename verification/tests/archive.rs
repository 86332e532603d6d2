use std::io::{Cursor, Read, Write};

use cbzpack::archive::{assemble, entry_agrees, verify_archive, AssembleError};
use cbzpack::container::Entry;
use cbzpack::member::{
    choose_representation, encode_member, member_of_trial, same_bytes, EncodeError,
    Representation, THOROUGH,
};

fn noise(len: usize) -> Vec<u8> {
    let mut state: u32 = 0x2545_f491;
    let mut out = Vec::with_capacity(len);
    for _ in 0..len {
        state ^= state << 13;
        state ^= state >> 17;
        state ^= state << 5;
        out.push((state >> 11) as u8);
    }
    out
}

fn repetitive(len: usize) -> Vec<u8> {
    (0..len).map(|i| b"abcabcab"[i % 8]).collect()
}

fn trial(name: &str, stored: bool, compressed_size: u64, content: &[u8]) -> Entry {
    Entry {
        name: name.to_string(),
        stored,
        compressed_size,
        content: content.to_vec(),
    }
}

#[test]
fn smaller_trial_is_kept() {
    let content = vec![7u8; 100];
    let t = trial("0.GIF", false, 99, &content);
    assert_eq!(
        choose_representation("0.GIF", &content, &t),
        Ok(Representation::Compressed)
    );
}

#[test]
fn trial_of_equal_or_larger_size_is_dropped() {
    let content = vec![7u8; 100];
    let equal = trial("0.GIF", false, 100, &content);
    assert_eq!(
        choose_representation("0.GIF", &content, &equal),
        Ok(Representation::Stored)
    );
    let larger = trial("0.GIF", false, 190, &content);
    assert_eq!(
        choose_representation("0.GIF", &content, &larger),
        Ok(Representation::Stored)
    );
}

#[test]
fn empty_file_is_refused() {
    let t = trial("0.GIF", false, 2, &[]);
    assert_eq!(
        choose_representation("0.GIF", &Vec::new(), &t),
        Err(EncodeError::EmptyFile)
    );
    assert_eq!(
        encode_member("0.GIF", Vec::new(), 6).err(),
        Some(EncodeError::EmptyFile)
    );
}

#[test]
fn trial_that_reads_back_wrong_is_a_codec_failure() {
    let content = vec![7u8; 100];
    let other_name = trial("1.GIF", false, 50, &content);
    assert_eq!(
        choose_representation("0.GIF", &content, &other_name),
        Err(EncodeError::CodecFailure)
    );
    let other_content = trial("0.GIF", false, 50, &[7u8; 99]);
    assert_eq!(
        choose_representation("0.GIF", &content, &other_content),
        Err(EncodeError::CodecFailure)
    );
    let not_compressed = trial("0.GIF", true, 50, &content);
    assert_eq!(
        choose_representation("0.GIF", &content, &not_compressed),
        Err(EncodeError::CodecFailure)
    );
}

#[test]
fn unknown_level_is_a_codec_failure() {
    assert_eq!(
        encode_member("0.GIF", vec![1, 2, 3], 100_000).err(),
        Some(EncodeError::CodecFailure)
    );
}

#[test]
fn same_bytes_compares_contents() {
    assert!(same_bytes(&vec![1, 2, 3], &vec![1, 2, 3]));
    assert!(!same_bytes(&vec![1, 2, 3], &vec![1, 2, 4]));
    assert!(!same_bytes(&vec![1, 2, 3], &vec![1, 2]));
    assert!(same_bytes(&vec![], &vec![]));
}

#[test]
fn compressible_content_is_compressed() {
    let content = repetitive(4000);
    let member = encode_member("0.GIF", content.clone(), 6).unwrap();
    assert!(member.is_precompressed());
    assert_eq!(member.name(), "0.GIF");
    assert_eq!(member.file_size(), 4000);
    assert!(member.compressed_size() < 4000);
    assert_eq!(member.stored_size(), member.compressed_size());
    assert_ne!(member.payload(), &content);
}

#[test]
fn incompressible_content_is_stored() {
    let content = noise(600);
    let member = encode_member("1.PNG", content.clone(), 6).unwrap();
    assert!(!member.is_precompressed());
    assert_eq!(member.payload(), &content);
    assert!(member.compressed_size() >= 600);
    assert_eq!(member.stored_size(), 600);
}

#[test]
fn thorough_level_compresses() {
    let content = repetitive(512);
    let member = encode_member("0.GIF", content, THOROUGH).unwrap();
    assert!(member.is_precompressed());
    assert!(member.stored_size() < 512);
}

#[test]
fn member_is_never_larger_than_either_form() {
    for content in [repetitive(3000), noise(300), vec![0u8; 1], noise(5)] {
        let len = content.len() as u64;
        let member = encode_member("x.PNG", content, 6).unwrap();
        assert!(member.stored_size() <= len);
        assert!(member.stored_size() <= member.compressed_size());
        assert_eq!(member.is_precompressed(), member.compressed_size() < len);
    }
}

#[test]
fn archive_reads_back_with_names_order_and_contents() {
    let files = vec![
        ("0.GIF", repetitive(5000)),
        ("1.GIF", noise(400)),
        ("2.PNG", noise(900)),
    ];
    let members: Vec<_> = files
        .iter()
        .map(|(name, content)| encode_member(name, content.clone(), 6).unwrap())
        .collect();
    assert!(members[0].is_precompressed());
    assert!(!members[1].is_precompressed());
    assert!(!members[2].is_precompressed());
    let archive = assemble(&members).unwrap();
    assert_eq!(verify_archive(&archive, &members), Ok(()));

    let mut reader = zip::ZipArchive::new(Cursor::new(archive)).unwrap();
    assert_eq!(reader.len(), 3);
    for (i, (name, content)) in files.iter().enumerate() {
        let mut file = reader.by_index(i).unwrap();
        assert_eq!(file.name().unwrap(), *name);
        let mut read = Vec::new();
        file.read_to_end(&mut read).unwrap();
        assert_eq!(&read, content);
        assert_eq!(file.compressed_size(), members[i].stored_size());
        let stored = file.compression() == zip::CompressionMethod::Stored;
        assert_eq!(stored, !members[i].is_precompressed());
    }
}

#[test]
fn archive_of_no_members_is_empty() {
    let archive = assemble(&Vec::new()).unwrap();
    let reader = zip::ZipArchive::new(Cursor::new(archive)).unwrap();
    assert_eq!(reader.len(), 0);
}

#[test]
fn archive_refuses_a_name_twice() {
    let members = vec![
        encode_member("0.PNG", noise(50), 6).unwrap(),
        encode_member("0.PNG", noise(60), 6).unwrap(),
    ];
    assert_eq!(assemble(&members), Err(AssembleError::Rejected { index: 1 }));
}

#[test]
fn archive_of_other_members_does_not_pass() {
    let members = vec![
        encode_member("0.PNG", noise(50), 6).unwrap(),
        encode_member("1.GIF", repetitive(900), 6).unwrap(),
    ];
    let archive = assemble(&members).unwrap();
    let swapped = vec![
        encode_member("1.GIF", repetitive(900), 6).unwrap(),
        encode_member("0.PNG", noise(50), 6).unwrap(),
    ];
    assert_eq!(
        verify_archive(&archive, &swapped),
        Err(AssembleError::Mismatch { index: 0 })
    );
    let fewer = vec![encode_member("0.PNG", noise(50), 6).unwrap()];
    assert_eq!(
        verify_archive(&archive, &fewer),
        Err(AssembleError::Mismatch { index: 1 })
    );
    let changed = vec![
        encode_member("0.PNG", noise(50), 6).unwrap(),
        encode_member("1.GIF", repetitive(901), 6).unwrap(),
    ];
    assert_eq!(
        verify_archive(&archive, &changed),
        Err(AssembleError::Mismatch { index: 1 })
    );
    assert_eq!(
        verify_archive(&vec![1, 2, 3], &fewer),
        Err(AssembleError::Mismatch { index: 0 })
    );
}

#[test]
fn entry_agrees_on_every_field() {
    let e = trial("0.GIF", true, 3, &[1, 2, 3]);
    assert!(entry_agrees(&e, "0.GIF", true, 3, &vec![1, 2, 3]));
    assert!(!entry_agrees(&e, "0.gif", true, 3, &vec![1, 2, 3]));
    assert!(!entry_agrees(&e, "0.GIF", false, 3, &vec![1, 2, 3]));
    assert!(!entry_agrees(&e, "0.GIF", true, 4, &vec![1, 2, 3]));
    assert!(!entry_agrees(&e, "0.GIF", true, 3, &vec![1, 2, 4]));
}

fn container_of(name: &str, content: &[u8], method: zip::CompressionMethod) -> Vec<u8> {
    let mut writer = zip::ZipWriter::new(Cursor::new(Vec::new()));
    let options = zip::write::SimpleFileOptions::default()
        .compression_method(method)
        .compression_level(match method {
            zip::CompressionMethod::Deflated => Some(6),
            _ => None,
        });
    writer.start_file(name, options).unwrap();
    writer.write_all(content).unwrap();
    writer.finish().unwrap().into_inner()
}

#[test]
fn member_keeps_a_smaller_trial() {
    let content = repetitive(2000);
    let scratch = container_of("0.GIF", &content, zip::CompressionMethod::Deflated);
    let member = member_of_trial("0.GIF", content.clone(), scratch.clone()).unwrap();
    assert!(member.is_precompressed());
    assert_eq!(member.payload(), &scratch);
    assert_eq!(member.name(), "0.GIF");
    assert_eq!(member.file_size(), 2000);
    assert!(member.compressed_size() < 2000);
}

#[test]
fn member_drops_a_larger_trial() {
    let content = noise(500);
    let scratch = container_of("0.GIF", &content, zip::CompressionMethod::Deflated);
    let member = member_of_trial("0.GIF", content.clone(), scratch).unwrap();
    assert!(!member.is_precompressed());
    assert_eq!(member.payload(), &content);
    assert!(member.compressed_size() >= 500);
    assert_eq!(member.stored_size(), 500);
}

#[test]
fn member_is_not_made_of_a_trial_of_something_else() {
    let content = repetitive(2000);
    let other_name = container_of("1.GIF", &content, zip::CompressionMethod::Deflated);
    assert_eq!(
        member_of_trial("0.GIF", content.clone(), other_name).err(),
        Some(EncodeError::CodecFailure)
    );
    let other_content = container_of("0.GIF", &repetitive(2001), zip::CompressionMethod::Deflated);
    assert_eq!(
        member_of_trial("0.GIF", content.clone(), other_content).err(),
        Some(EncodeError::CodecFailure)
    );
    let stored = container_of("0.GIF", &content, zip::CompressionMethod::Stored);
    assert_eq!(
        member_of_trial("0.GIF", content.clone(), stored).err(),
        Some(EncodeError::CodecFailure)
    );
    assert_eq!(
        member_of_trial("0.GIF", content.clone(), vec![0; 64]).err(),
        Some(EncodeError::CodecFailure)
    );
    let good = container_of("0.GIF", &content, zip::CompressionMethod::Deflated);
    assert_eq!(
        member_of_trial("0.GIF", Vec::new(), good).err(),
        Some(EncodeError::EmptyFile)
    );
}

#[test]
fn damaged_container_does_not_read_back() {
    let content = repetitive(2000);
    let mut scratch = container_of("0.GIF", &content, zip::CompressionMethod::Deflated);
    let middle = scratch.len() / 3;
    scratch[middle] ^= 0x55;
    assert_eq!(
        member_of_trial("0.GIF", content, scratch).err(),
        Some(EncodeError::CodecFailure)
    );
}
