use image_grouper::filesysutils::FileSystemIterator;
use image_grouper::{is_valid_image_ext, GroupInfo, HashType, ImageInfo};
use std::path::PathBuf;

#[test]
fn a_walk_starts_with_its_root() {
    let mut walk = FileSystemIterator::new(PathBuf::from("root"));
    assert_eq!(walk.pending(), 1);
    assert_eq!(walk.next(), Some(PathBuf::from("root")));
    assert_eq!(walk.next(), None);
    assert_eq!(walk.pending(), 0);
}

#[test]
fn entries_are_visited_in_the_order_found() {
    let mut walk = FileSystemIterator::new(PathBuf::from("root"));
    assert_eq!(walk.next(), Some(PathBuf::from("root")));
    walk.push_entries(vec![PathBuf::from("root/a"), PathBuf::from("root/b")]);
    assert_eq!(walk.pending(), 2);
    assert_eq!(walk.next(), Some(PathBuf::from("root/a")));
    walk.push_entries(vec![PathBuf::from("root/a/1"), PathBuf::from("root/a/2")]);
    // breadth first: b comes before what was found under a
    assert_eq!(walk.next(), Some(PathBuf::from("root/b")));
    walk.push_entries(vec![]);
    assert_eq!(walk.next(), Some(PathBuf::from("root/a/1")));
    assert_eq!(walk.next(), Some(PathBuf::from("root/a/2")));
    assert_eq!(walk.next(), None);
}

#[test]
fn many_entries_keep_their_order() {
    let mut walk = FileSystemIterator::new(PathBuf::from("r"));
    walk.next();
    let names: Vec<PathBuf> = (0..100).map(|i| PathBuf::from(format!("r/{}", i))).collect();
    walk.push_entries(names.clone());
    for name in names {
        assert_eq!(walk.next(), Some(name));
    }
    assert_eq!(walk.next(), None);
}

#[test]
fn the_default_hash_is_the_average_hash() {
    assert!(matches!(HashType::default(), HashType::AHASH));
}

#[test]
fn infos_can_be_copied() {
    let group = GroupInfo { hash: 9, similar_images: vec![ImageInfo { hash: 8, image_idx: 3 }] };
    let copy = group.clone();
    assert_eq!(copy.hash, 9);
    assert_eq!(copy.similar_images[0].image_idx, 3);
    assert_eq!(copy.similar_images[0].hash, 8);
}

#[test]
fn image_extensions_are_told_from_others() {
    for ext in ["bmp", "png", "jpg", "jpeg", "gif", "tga", "tiff", "ppm"] {
        assert!(is_valid_image_ext(ext.as_bytes()), "{}", ext);
    }
    for ext in ["", "PNG", "pn", "pngx", "txt", "jpe", "jpegs", "tif", "webp", "bm p"] {
        assert!(!is_valid_image_ext(ext.as_bytes()), "{}", ext);
    }
}
