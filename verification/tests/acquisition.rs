use mnist::acquire::{next_action, Action, Present};

fn all() -> Present {
    Present { train_images: true, train_labels: true, test_images: true, test_labels: true }
}

fn none() -> Present {
    Present { train_images: false, train_labels: false, test_images: false, test_labels: false }
}

fn all_but(index: usize) -> Present {
    Present {
        train_images: index != 0,
        train_labels: index != 1,
        test_images: index != 2,
        test_labels: index != 3,
    }
}

#[test]
fn complete_only_with_all_four() {
    assert!(all().is_complete());
    assert!(!none().is_complete());
    for index in 0..4 {
        assert!(!all_but(index).is_complete());
    }
}

#[test]
fn empty_folder_calls_for_download() {
    assert_eq!(next_action(&none(), &none()), Action::Download);
}

#[test]
fn one_missing_archive_calls_for_download() {
    for index in 0..4 {
        assert_eq!(next_action(&all_but(index), &none()), Action::Download);
        assert_eq!(next_action(&all_but(index), &all()), Action::Download);
    }
}

#[test]
fn one_missing_file_calls_for_unpacking() {
    assert_eq!(next_action(&all(), &none()), Action::Decompress);
    for index in 0..4 {
        assert_eq!(next_action(&all(), &all_but(index)), Action::Decompress);
    }
}

#[test]
fn full_folder_is_read() {
    assert_eq!(next_action(&all(), &all()), Action::Load);
}
