use cbzpack::natural::natural_compare;
use cbzpack::order::Order;
use cbzpack::sort::sorted_names;
use cbzpack::naming::{
    canonical_names, default_extensions, digit, extension, is_image_name, normalized_extension,
    padding_width, zero_pad, MissingExtension,
};

fn owned(names: &[&str]) -> Vec<String> {
    names.iter().map(|n| n.to_string()).collect()
}

#[test]
fn digit_counts_decimal_digits() {
    assert_eq!(digit(0), 1);
    assert_eq!(digit(9), 1);
    assert_eq!(digit(10), 2);
    assert_eq!(digit(99), 2);
    assert_eq!(digit(100), 3);
    assert_eq!(digit(usize::MAX), usize::MAX.to_string().len());
}

#[test]
fn width_is_that_of_the_largest_index() {
    assert_eq!(padding_width(0), 1);
    assert_eq!(padding_width(1), 1);
    assert_eq!(padding_width(10), 1);
    assert_eq!(padding_width(11), 2);
    assert_eq!(padding_width(100), 2);
    assert_eq!(padding_width(101), 3);
}

#[test]
fn zero_pad_fills_to_width() {
    assert_eq!(zero_pad(7, 3), "007");
    assert_eq!(zero_pad(0, 1), "0");
    assert_eq!(zero_pad(0, 0), "0");
    assert_eq!(zero_pad(123, 2), "123");
    assert_eq!(zero_pad(42, 2), "42");
}

#[test]
fn extension_follows_the_last_dot() {
    assert_eq!(extension("a.b.png"), Some("png".to_string()));
    assert_eq!(extension("noext"), None);
    assert_eq!(extension(".hidden"), None);
    assert_eq!(extension("trailing."), Some(String::new()));
    assert_eq!(extension(".hidden.gif"), Some("gif".to_string()));
}

#[test]
fn extension_is_normalized_to_upper_case() {
    assert_eq!(normalized_extension("a.png"), Some("PNG".to_string()));
    assert_eq!(normalized_extension("a.JpEg"), Some("JPG".to_string()));
    assert_eq!(normalized_extension("a.jpeg"), Some("JPG".to_string()));
    assert_eq!(normalized_extension("a.jpg"), Some("JPG".to_string()));
    assert_eq!(normalized_extension("a.tiff"), Some("TIFF".to_string()));
    assert_eq!(normalized_extension("a"), None);
}

#[test]
fn recognized_extensions_ignore_case() {
    let set = default_extensions();
    assert!(is_image_name("x.PNG", &set));
    assert!(is_image_name("x.webp", &set));
    assert!(is_image_name("x.Heic", &set));
    assert!(is_image_name("x.tif", &set));
    assert!(!is_image_name("x.txt", &set));
    assert!(!is_image_name("png", &set));
    assert!(!is_image_name(".png", &set));
    assert!(is_image_name("x.txt", &owned(&["TXT"])));
    assert!(!is_image_name("x.png", &owned(&[])));
}

#[test]
fn default_set_is_the_canonical_one() {
    assert_eq!(
        default_extensions(),
        owned(&["AVIF", "GIF", "HEIC", "JPEG", "JPG", "PNG", "TIF", "TIFF", "WEBP"])
    );
}

#[test]
fn canonical_names_of_three() {
    let names = canonical_names(&owned(&["a1.gif", "a10.gif", "b.png"])).unwrap();
    assert_eq!(names, owned(&["0.GIF", "1.GIF", "2.PNG"]));
}

#[test]
fn canonical_names_are_padded_to_one_width() {
    let sources: Vec<String> = (0..11).map(|i| format!("p{i}.jpeg")).collect();
    let names = canonical_names(&sources).unwrap();
    assert_eq!(names[0], "00.JPG");
    assert_eq!(names[9], "09.JPG");
    assert_eq!(names[10], "10.JPG");
    let ten: Vec<String> = (0..10).map(|i| format!("p{i}.png")).collect();
    let names = canonical_names(&ten).unwrap();
    assert_eq!(names[0], "0.PNG");
    assert_eq!(names[9], "9.PNG");
}

#[test]
fn canonical_names_are_distinct_and_sorted_as_text() {
    let sources: Vec<String> = (0..120).map(|i| format!("scan {i}.webp")).collect();
    let names = canonical_names(&sources).unwrap();
    assert_eq!(names.len(), 120);
    for (i, name) in names.iter().enumerate() {
        assert_eq!(name, &format!("{i:03}.WEBP"));
    }
    let mut sorted = names.clone();
    sorted.sort();
    sorted.dedup();
    assert_eq!(sorted, names);
}

#[test]
fn canonical_names_need_an_extension() {
    assert_eq!(
        canonical_names(&owned(&["a.png", "README", "b"])),
        Err(MissingExtension { index: 1 })
    );
    assert_eq!(canonical_names(&owned(&[])), Ok(vec![]));
}

#[test]
fn canonical_names_are_in_natural_order_too() {
    let sources: Vec<String> = (0..12).map(|i| format!("p{}.mp{}", 11 - i, i % 5)).collect();
    let names = canonical_names(&sources).unwrap();
    for i in 0..names.len() {
        for j in 0..names.len() {
            let expected = if i < j {
                Order::Less
            } else if i == j {
                Order::Equal
            } else {
                Order::Greater
            };
            assert_eq!(natural_compare(&names[i], &names[j]), Ok(expected));
        }
    }
    let mut shuffled = names.clone();
    shuffled.reverse();
    assert_eq!(sorted_names(&shuffled), Ok(names.clone()));
    assert_eq!(canonical_names(&names).unwrap(), {
        let upper: Vec<String> = names.iter().map(|n| n.to_uppercase()).collect();
        upper
    });
}
