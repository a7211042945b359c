use mnist::augment::{scan_bounds, shift_image, Shifts};
use mnist::dataset::{
    all_images, DatasetFile, LoadError, Mnist, COLS, ROWS, TEST_COUNT, TRAIN_COUNT,
};
use mnist::idx::{encode_images, encode_labels, HeaderField, IdxError};

fn image(seed: usize) -> Vec<u8> {
    let mut pixels = vec![0u8; 784];
    let row = 4 + seed % 18;
    let col = 3 + (seed / 18) % 20;
    pixels[row * 28 + col] = 1 + (seed % 255) as u8;
    pixels[(row + 1) * 28 + col + 2] = 200;
    pixels
}

fn images(count: usize, salt: usize) -> Vec<Vec<u8>> {
    (0..count).map(|i| image(i + salt)).collect()
}

fn labels(count: usize, salt: usize) -> Vec<u8> {
    (0..count).map(|i| ((i + salt) % 10) as u8).collect()
}

fn dataset() -> Mnist {
    Mnist {
        train_images: images(60000, 0),
        test_images: images(10000, 7),
        train_labels: labels(60000, 0),
        test_labels: labels(10000, 3),
    }
}

fn limit(margin: usize) -> usize {
    if margin > 0 {
        margin
    } else {
        1
    }
}

fn is_move_within_margins(image: &[u8], out: &[u8]) -> bool {
    let b = scan_bounds(image);
    for left in 0..limit(b.left) {
        for right in 0..limit(27 - b.right) {
            for top in 0..limit(b.top) {
                for bottom in 0..limit(27 - b.bottom) {
                    if shift_image(image, Shifts { left, right, top, bottom }) == out {
                        return true;
                    }
                }
            }
        }
    }
    false
}

#[test]
fn dataset_sizes() {
    assert_eq!(TRAIN_COUNT, 60000);
    assert_eq!(TEST_COUNT, 10000);
    assert_eq!(ROWS, 28);
    assert_eq!(COLS, 28);
}

#[test]
fn dataset_survives_encoding_and_decoding() {
    let d = dataset();
    let train_images = encode_images(&d.train_images, 28, 28);
    let train_labels = encode_labels(&d.train_labels);
    let test_images = encode_images(&d.test_images, 28, 28);
    let test_labels = encode_labels(&d.test_labels);
    assert_eq!(train_images.len(), 16 + 60000 * 784);
    assert_eq!(test_images.len(), 16 + 10000 * 784);
    assert_eq!(train_labels.len(), 8 + 60000);
    assert_eq!(test_labels.len(), 8 + 10000);
    let back = Mnist::from_file(&train_images, &train_labels, &test_images, &test_labels).unwrap();
    assert!(back == d);
}

#[test]
fn loaded_dataset_has_its_full_size() {
    let d = dataset();
    let back = Mnist::from_file(
        &encode_images(&d.train_images, 28, 28),
        &encode_labels(&d.train_labels),
        &encode_images(&d.test_images, 28, 28),
        &encode_labels(&d.test_labels),
    )
    .unwrap();
    assert_eq!(back.train_images.len(), 60000);
    assert_eq!(back.train_labels.len(), 60000);
    assert_eq!(back.test_images.len(), 10000);
    assert_eq!(back.test_labels.len(), 10000);
    assert!(back.train_images.iter().all(|i| i.len() == 784));
    assert!(back.test_images.iter().all(|i| i.len() == 784));
    assert_eq!(back.train_images[12345], image(12345));
    assert_eq!(back.test_images[9999], image(9999 + 7));
    assert_eq!(back.train_labels[59999], (59999 % 10) as u8);
    assert_eq!(back.test_labels[0], 3);
}

fn rejected(file: DatasetFile, cause: IdxError) -> Result<Mnist, LoadError> {
    Err(LoadError { file, cause })
}

fn wrong(field: HeaderField, expected: u32, actual: u32) -> IdxError {
    IdxError::Format { field, expected, actual }
}

#[test]
fn first_failing_file_decides() {
    let good_train_labels = encode_labels(&labels(60000, 0));
    let good_test_labels = encode_labels(&labels(10000, 0));
    let small = encode_images(&images(2, 0), 28, 28);
    let r = Mnist::from_file(&small, &[], &[], &[]);
    assert!(r == rejected(DatasetFile::TrainImages, wrong(HeaderField::ItemCount, 60000, 2)));
    let r = Mnist::from_file(&[], &good_train_labels, &small, &good_test_labels);
    assert!(r == rejected(DatasetFile::TrainImages, IdxError::Truncated));
    let r = Mnist::from_file(&good_train_labels, &good_train_labels, &small, &good_test_labels);
    assert!(r == rejected(DatasetFile::TrainImages, wrong(HeaderField::MagicNumber, 2051, 2049)));
}

#[test]
fn test_images_are_checked_second() {
    let train_images = encode_images(&images(60000, 0), 28, 28);
    let r = Mnist::from_file(&train_images, &[], &train_images, &[]);
    assert!(r == rejected(DatasetFile::TestImages, wrong(HeaderField::ItemCount, 10000, 60000)));
    let r = Mnist::from_file(&train_images, &[1, 2, 3], &[0, 0, 8, 3], &[9]);
    assert!(r == rejected(DatasetFile::TestImages, IdxError::Truncated));
    let test_images = encode_images(&images(10000, 0), 16, 49);
    let r = Mnist::from_file(&train_images, &[], &test_images, &[]);
    assert!(r == rejected(DatasetFile::TestImages, wrong(HeaderField::RowCount, 28, 16)));
    let test_images = encode_images(&images(10000, 0), 28, 28);
    let r = Mnist::from_file(&train_images, &[], &test_images[..test_images.len() - 1], &[]);
    assert!(r == rejected(DatasetFile::TestImages, IdxError::Truncated));
}

#[test]
fn labels_are_checked_after_the_images() {
    let train_images = encode_images(&images(60000, 0), 28, 28);
    let test_images = encode_images(&images(10000, 0), 28, 28);
    let train_labels = encode_labels(&labels(60000, 0));
    let test_labels = encode_labels(&labels(10000, 0));
    let r = Mnist::from_file(&train_images, &test_labels, &test_images, &train_labels);
    assert!(r == rejected(DatasetFile::TrainLabels, wrong(HeaderField::ItemCount, 60000, 10000)));
    let r = Mnist::from_file(&train_images, &train_labels, &test_images, &train_labels);
    assert!(r == rejected(DatasetFile::TestLabels, wrong(HeaderField::ItemCount, 10000, 60000)));
    let r = Mnist::from_file(&train_images, &train_labels, &test_images, &test_images);
    assert!(r == rejected(DatasetFile::TestLabels, wrong(HeaderField::MagicNumber, 2049, 2051)));
    let r = Mnist::from_file(
        &train_images,
        &train_labels[..train_labels.len() - 1],
        &test_images,
        &test_labels,
    );
    assert!(r == rejected(DatasetFile::TrainLabels, IdxError::Truncated));
    let r = Mnist::from_file(
        &train_images,
        &train_labels,
        &test_images,
        &test_labels[..test_labels.len() - 1],
    );
    assert!(r == rejected(DatasetFile::TestLabels, IdxError::Truncated));
}

#[test]
fn extra_bytes_after_the_last_record_are_ignored() {
    let d = dataset();
    let mut train_images = encode_images(&d.train_images, 28, 28);
    let mut train_labels = encode_labels(&d.train_labels);
    let mut test_images = encode_images(&d.test_images, 28, 28);
    let mut test_labels = encode_labels(&d.test_labels);
    train_images.extend_from_slice(&[1, 2, 3]);
    train_labels.push(4);
    test_images.push(5);
    test_labels.extend_from_slice(&[6, 7]);
    let back = Mnist::from_file(&train_images, &train_labels, &test_images, &test_labels).unwrap();
    assert!(back == d);
}

#[test]
fn random_offset_replaces_the_training_images_only() {
    let mut d = dataset();
    let before = d.clone();
    d.random_xy_offset();
    assert_eq!(d.train_images.len(), 60000);
    assert!(d.train_images.iter().all(|i| i.len() == 784));
    assert!(d.test_images == before.test_images);
    assert!(d.train_labels == before.train_labels);
    assert!(d.test_labels == before.test_labels);
    assert!(d.train_images != before.train_images);
    for i in (0..60000).step_by(997) {
        assert!(is_move_within_margins(&before.train_images[i], &d.train_images[i]));
    }
}

#[test]
fn random_offset_on_a_small_set() {
    let mut d = Mnist {
        train_images: images(40, 1),
        test_images: images(3, 2),
        train_labels: labels(40, 1),
        test_labels: labels(3, 2),
    };
    let before = d.clone();
    d.random_xy_offset();
    assert_eq!(d.train_images.len(), 40);
    for i in 0..40 {
        assert!(is_move_within_margins(&before.train_images[i], &d.train_images[i]));
    }
    assert!(d.test_images == before.test_images);
    assert!(d.train_labels == before.train_labels);
    assert!(d.test_labels == before.test_labels);
}

#[test]
fn random_offset_keeps_blank_images() {
    let mut d = Mnist {
        train_images: vec![vec![0u8; 784]; 25],
        test_images: vec![],
        train_labels: vec![0u8; 25],
        test_labels: vec![],
    };
    d.random_xy_offset();
    assert!(d.train_images == vec![vec![0u8; 784]; 25]);
}

#[test]
fn well_formed_means_full_size_and_whole_images() {
    let good = dataset();
    assert!(good.is_well_formed());
    let mut d = good.clone();
    d.train_images.pop();
    assert!(!d.is_well_formed());
    let mut d = good.clone();
    d.test_labels.push(1);
    assert!(!d.is_well_formed());
    let mut d = good.clone();
    d.train_labels.pop();
    assert!(!d.is_well_formed());
    let mut d = good.clone();
    d.test_images.push(vec![0u8; 784]);
    assert!(!d.is_well_formed());
    let mut d = good.clone();
    d.train_images[59999].push(0);
    assert!(!d.is_well_formed());
    let mut d = good;
    d.test_images[0].pop();
    assert!(!d.is_well_formed());
}

#[test]
fn whole_images_have_784_pixels() {
    assert!(all_images(&vec![]));
    assert!(all_images(&images(3, 0)));
    assert!(!all_images(&vec![vec![0u8; 784], vec![0u8; 783]]));
    assert!(!all_images(&vec![vec![0u8; 785], vec![0u8; 784]]));
    assert!(!all_images(&vec![vec![]]));
}

#[test]
fn test_download() {
    let d = dataset();
    let mut m = Mnist::from_file(
        &encode_images(&d.train_images, 28, 28),
        &encode_labels(&d.train_labels),
        &encode_images(&d.test_images, 28, 28),
        &encode_labels(&d.test_labels),
    )
    .unwrap();
    m.random_xy_offset();
}
