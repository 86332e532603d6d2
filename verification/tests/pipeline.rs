use std::io::{Cursor, Read};

use cbzpack::archive::AssembleError;
use cbzpack::member::EncodeError;
use cbzpack::naming::default_extensions;
use cbzpack::pipeline::{
    archive_name, assemble_in_order, collate, encode_members, pack, split_entries, CollateError, PackError,
};

fn owned(names: &[&str]) -> Vec<String> {
    names.iter().map(|n| n.to_string()).collect()
}

fn noise(len: usize, seed: u32) -> Vec<u8> {
    let mut state: u32 = seed;
    let mut out = Vec::with_capacity(len);
    for _ in 0..len {
        state ^= state << 13;
        state ^= state >> 17;
        state ^= state << 5;
        out.push((state >> 11) as u8);
    }
    out
}

fn repetitive(len: usize) -> Vec<u8> {
    (0..len).map(|i| b"GIF89a--"[i % 8]).collect()
}

#[test]
fn entries_are_split_in_listing_order() {
    let entries = owned(&["b.png", "notes.txt", "a1.gif", "Thumbs.db", "a10.GIF", ".png"]);
    let (images, others) = split_entries(&entries, &default_extensions());
    assert_eq!(images, owned(&["b.png", "a1.gif", "a10.GIF"]));
    assert_eq!(others, owned(&["notes.txt", "Thumbs.db", ".png"]));
}

#[test]
fn directory_is_collated_in_natural_order() {
    let files = owned(&["b.png", "a10.gif", "notes.txt", "a1.gif"]);
    let kept = owned(&["extras", "old.png"]);
    let collation = collate(&files, &kept, &default_extensions()).unwrap();
    assert_eq!(collation.sources, owned(&["a1.gif", "a10.gif", "b.png"]));
    assert_eq!(collation.others, owned(&["notes.txt", "extras", "old.png"]));
    assert_eq!(collation.plan.names, owned(&["0.GIF", "1.GIF", "2.PNG"]));
    assert_eq!(collation.plan.steps.len(), 3);
}

#[test]
fn directory_without_images_gives_an_empty_plan() {
    let collation = collate(&owned(&["notes.txt", "a"]), &owned(&[]), &default_extensions())
        .unwrap();
    assert!(collation.sources.is_empty());
    assert!(collation.plan.names.is_empty());
    assert!(collation.plan.steps.is_empty());
    assert_eq!(collation.others, owned(&["notes.txt", "a"]));
}

#[test]
fn image_with_a_number_too_large_stops_the_collation() {
    let files = owned(&["1.png", "x.txt", "340282366920938463463374607431768211456.png"]);
    assert_eq!(
        collate(&files, &owned(&[]), &default_extensions()),
        Err(CollateError::NumberTooLarge {
            name: "340282366920938463463374607431768211456.png".to_string()
        })
    );
    let not_an_image = owned(&["1.png", "340282366920938463463374607431768211456.txt"]);
    assert!(collate(&not_an_image, &owned(&[]), &default_extensions()).is_ok());
}

#[test]
fn canonical_name_of_a_folder_stops_the_collation() {
    let files = owned(&["b.png", "a.png"]);
    assert_eq!(
        collate(&files, &owned(&["1.png"]), &default_extensions()),
        Err(CollateError::TargetTaken {
            name: "1.PNG".to_string()
        })
    );
}

#[test]
fn canonical_name_of_a_file_that_is_no_image_stops_the_collation() {
    let files = owned(&["a.jpeg", "0.jpg"]);
    assert_eq!(
        collate(&files, &owned(&[]), &owned(&["jpeg"])),
        Err(CollateError::TargetTaken {
            name: "0.JPG".to_string()
        })
    );
    let collation = collate(&files, &owned(&[]), &default_extensions()).unwrap();
    assert_eq!(collation.sources, owned(&["0.jpg", "a.jpeg"]));
    assert_eq!(collation.plan.names, owned(&["0.JPG", "1.JPG"]));
    assert_eq!(collation.plan.steps.len(), 4);
}

#[test]
fn three_pages_end_to_end() {
    let files = owned(&["b.png", "a1.gif", "a10.gif"]);
    let collation = collate(&files, &owned(&[]), &default_extensions()).unwrap();
    assert_eq!(collation.sources, owned(&["a1.gif", "a10.gif", "b.png"]));
    assert_eq!(collation.plan.names, owned(&["0.GIF", "1.GIF", "2.PNG"]));

    let b = noise(5000, 1);
    let a1 = repetitive(2000);
    let a10 = noise(1800, 2);
    let contents = vec![a1.clone(), a10.clone(), b.clone()];
    let archive = pack(&collation.plan.names, contents, 6).unwrap();

    let mut reader = zip::ZipArchive::new(Cursor::new(archive)).unwrap();
    assert_eq!(reader.len(), 3);
    let expected = [("0.GIF", &a1, false), ("1.GIF", &a10, true), ("2.PNG", &b, true)];
    for (i, (name, content, stored)) in expected.iter().enumerate() {
        let mut file = reader.by_index(i).unwrap();
        assert_eq!(file.name().unwrap(), *name);
        assert_eq!(file.compression() == zip::CompressionMethod::Stored, *stored);
        if *stored {
            assert_eq!(file.compressed_size(), content.len() as u64);
        } else {
            assert!(file.compressed_size() < content.len() as u64);
        }
        let mut read = Vec::new();
        file.read_to_end(&mut read).unwrap();
        assert_eq!(&read, *content);
    }
}

#[test]
fn members_follow_the_files() {
    let names = owned(&["0.GIF", "1.PNG"]);
    let contents = vec![repetitive(900), noise(100, 3)];
    let members = encode_members(&names, contents.clone(), 6).unwrap();
    assert_eq!(members.len(), 2);
    assert_eq!(members[0].name(), "0.GIF");
    assert_eq!(members[1].name(), "1.PNG");
    assert!(members[0].is_precompressed());
    assert!(!members[1].is_precompressed());
    assert_eq!(members[1].payload(), &contents[1]);
}

#[test]
fn names_and_contents_must_pair() {
    assert_eq!(
        pack(&owned(&["0.GIF"]), vec![], 6),
        Err(PackError::Unpaired)
    );
    assert_eq!(
        encode_members(&owned(&[]), vec![vec![1]], 6).err(),
        Some(PackError::Unpaired)
    );
}

#[test]
fn empty_file_stops_the_archive() {
    let names = owned(&["0.GIF", "1.GIF", "2.GIF"]);
    let contents = vec![vec![1, 2, 3], vec![], vec![]];
    assert_eq!(
        pack(&names, contents, 6),
        Err(PackError::Member {
            index: 1,
            error: EncodeError::EmptyFile
        })
    );
}

#[test]
fn archive_of_nothing() {
    let archive = pack(&owned(&[]), vec![], 6).unwrap();
    let reader = zip::ZipArchive::new(Cursor::new(archive)).unwrap();
    assert_eq!(reader.len(), 0);
}

#[test]
fn members_out_of_order_are_not_assembled() {
    let names = owned(&["0.GIF", "1.PNG"]);
    let members = encode_members(&names, vec![repetitive(900), noise(100, 3)], 6).unwrap();
    assert!(assemble_in_order(&names, &members).is_ok());
    let swapped = owned(&["1.PNG", "0.GIF"]);
    assert_eq!(
        assemble_in_order(&swapped, &members),
        Err(PackError::Misplaced { index: 0 })
    );
    let half = owned(&["0.GIF", "2.PNG"]);
    assert_eq!(
        assemble_in_order(&half, &members),
        Err(PackError::Misplaced { index: 1 })
    );
    assert_eq!(
        assemble_in_order(&owned(&["0.GIF"]), &members),
        Err(PackError::Unpaired)
    );
}

#[test]
fn two_files_of_one_name_are_not_archived() {
    let names = owned(&["0.GIF", "0.GIF"]);
    assert_eq!(
        pack(&names, vec![vec![1, 2, 3], vec![4, 5]], 6),
        Err(PackError::Archive {
            cause: AssembleError::Rejected { index: 1 }
        })
    );
}

#[test]
fn archive_is_named_after_its_directory() {
    assert_eq!(archive_name("Volume 01"), "Volume 01.cbz");
    assert_eq!(archive_name("scans.2024"), "scans.2024.cbz");
    assert_eq!(archive_name(""), ".cbz");
}

#[test]
fn only_a_canonical_name_can_be_taken() {
    let files = owned(&["b.png", "notes.txt", "a.png", "b.txt"]);
    let kept = owned(&["extras", "0", "1.png.old"]);
    let collation = collate(&files, &kept, &default_extensions()).unwrap();
    assert_eq!(collation.plan.names, owned(&["0.PNG", "1.PNG"]));
    assert_eq!(
        collation.others,
        owned(&["notes.txt", "b.txt", "extras", "0", "1.png.old"])
    );
}

#[test]
fn empty_first_file_stops_the_archive() {
    assert_eq!(
        pack(&owned(&["0.GIF"]), vec![vec![]], 6),
        Err(PackError::Member {
            index: 0,
            error: EncodeError::EmptyFile
        })
    );
    assert_eq!(
        encode_members(&owned(&["0.GIF", "1.GIF"]), vec![vec![7], vec![]], 6).err(),
        Some(PackError::Member {
            index: 1,
            error: EncodeError::EmptyFile
        })
    );
}

#[test]
fn same_files_give_the_same_archive() {
    let names = owned(&["0.GIF", "1.PNG", "2.PNG"]);
    let contents = vec![repetitive(3000), noise(700, 5), repetitive(40)];
    let first = pack(&names, contents.clone(), 6).unwrap();
    let second = pack(&names, contents.clone(), 6).unwrap();
    assert_eq!(first, second);
    let other_level = pack(&names, contents, 1).unwrap();
    let mut reader = zip::ZipArchive::new(Cursor::new(other_level)).unwrap();
    assert_eq!(reader.len(), 3);
    let entry = reader.by_index(0).unwrap();
    assert_eq!(entry.last_modified(), Some(zip::DateTime::default()));
}
