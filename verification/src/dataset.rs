//! The dataset: 60000 training and 10000 test images of 28 x 28 pixels, each
//! with its label.

use crate::augment::{are_images, augment, is_augmentation, IMAGE_LEN};
use crate::idx::{
    all_of_len, encoded_images, encoded_labels, lemma_images_round_trip, lemma_labels_round_trip,
    lemma_records_of, parse_images, parse_labels, parsed_images, parsed_labels, views, IdxError,
    IMAGE_HEADER_LEN,
};
use crate::random::RandomSource;
use vstd::prelude::*;

verus! {

/// Number of images, and of labels, in the training set.
pub const TRAIN_COUNT: u32 = 60000;

/// Number of images, and of labels, in the test set.
pub const TEST_COUNT: u32 = 10000;

/// Number of rows of an image.
pub const ROWS: u32 = 28;

/// Number of columns of an image.
pub const COLS: u32 = 28;

/// The dataset in memory. Every image holds its pixels row by row; the label
/// at a position belongs to the image at the same position.
#[derive(Clone, Debug, PartialEq, Eq)]
pub struct Mnist {
    pub train_images: Vec<Vec<u8>>,
    pub test_images: Vec<Vec<u8>>,
    pub train_labels: Vec<u8>,
    pub test_labels: Vec<u8>,
}

/// The dataset as four sequences.
pub struct MnistView {
    pub train_images: Seq<Seq<u8>>,
    pub test_images: Seq<Seq<u8>>,
    pub train_labels: Seq<u8>,
    pub test_labels: Seq<u8>,
}

impl MnistView {
    /// Whether both sets have their full size, one label per image, and every
    /// image its 784 pixels.
    pub open spec fn well_formed(self) -> bool {
        &&& self.train_images.len() == TRAIN_COUNT
        &&& self.train_labels.len() == TRAIN_COUNT
        &&& self.test_images.len() == TEST_COUNT
        &&& self.test_labels.len() == TEST_COUNT
        &&& all_of_len(self.train_images, IMAGE_LEN as int)
        &&& all_of_len(self.test_images, IMAGE_LEN as int)
    }
}

impl View for Mnist {
    type V = MnistView;

    open spec fn view(&self) -> MnistView {
        MnistView {
            train_images: views(self.train_images@),
            test_images: views(self.test_images@),
            train_labels: self.train_labels@,
            test_labels: self.test_labels@,
        }
    }
}

/// One of the four files of the dataset.
#[derive(Clone, Copy, Debug, PartialEq, Eq, Structural)]
pub enum DatasetFile {
    TrainImages,
    TestImages,
    TrainLabels,
    TestLabels,
}

/// Why the dataset could not be built: the file that was rejected, and the
/// reason as its decoder gave it.
#[derive(Clone, Copy, Debug, PartialEq, Eq, Structural)]
pub struct LoadError {
    pub file: DatasetFile,
    pub cause: IdxError,
}

/// What the four files decode to. They are decoded in the order training
/// images, test images, training labels, test labels, and the first failure
/// is the outcome.
pub open spec fn loaded(
    train_images: Seq<u8>,
    train_labels: Seq<u8>,
    test_images: Seq<u8>,
    test_labels: Seq<u8>,
) -> Result<MnistView, LoadError> {
    match parsed_images(train_images, TRAIN_COUNT, ROWS, COLS) {
        Err(cause) => Err(LoadError { file: DatasetFile::TrainImages, cause }),
        Ok(train_records) => match parsed_images(test_images, TEST_COUNT, ROWS, COLS) {
            Err(cause) => Err(LoadError { file: DatasetFile::TestImages, cause }),
            Ok(test_records) => match parsed_labels(train_labels, TRAIN_COUNT) {
                Err(cause) => Err(LoadError { file: DatasetFile::TrainLabels, cause }),
                Ok(train_marks) => match parsed_labels(test_labels, TEST_COUNT) {
                    Err(cause) => Err(LoadError { file: DatasetFile::TestLabels, cause }),
                    Ok(test_marks) => Ok(
                        MnistView {
                            train_images: train_records,
                            test_images: test_records,
                            train_labels: train_marks,
                            test_labels: test_marks,
                        },
                    ),
                },
            },
        },
    }
}

/// A dataset that decodes from four files is well formed.
pub proof fn lemma_loaded_well_formed(
    train_images: Seq<u8>,
    train_labels: Seq<u8>,
    test_images: Seq<u8>,
    test_labels: Seq<u8>,
)
    ensures
        loaded(train_images, train_labels, test_images, test_labels) matches Ok(d)
            ==> d.well_formed(),
{
    assert(ROWS * COLS == IMAGE_LEN);
    if parsed_images(train_images, TRAIN_COUNT, ROWS, COLS) is Ok {
        lemma_records_of(
            train_images.skip(IMAGE_HEADER_LEN as int),
            TRAIN_COUNT as int,
            IMAGE_LEN as int,
        );
    }
    if parsed_images(test_images, TEST_COUNT, ROWS, COLS) is Ok {
        lemma_records_of(
            test_images.skip(IMAGE_HEADER_LEN as int),
            TEST_COUNT as int,
            IMAGE_LEN as int,
        );
    }
}

/// Writing a well-formed dataset to four files and decoding them gives the
/// same dataset.
pub proof fn lemma_dataset_round_trip(d: MnistView)
    requires
        d.well_formed(),
    ensures
        loaded(
            encoded_images(d.train_images, ROWS, COLS),
            encoded_labels(d.train_labels),
            encoded_images(d.test_images, ROWS, COLS),
            encoded_labels(d.test_labels),
        ) == Ok::<MnistView, LoadError>(d),
{
    assert(ROWS * COLS == IMAGE_LEN);
    lemma_images_round_trip(d.train_images, ROWS, COLS);
    lemma_images_round_trip(d.test_images, ROWS, COLS);
    lemma_labels_round_trip(d.train_labels);
    lemma_labels_round_trip(d.test_labels);
}

/// Tells whether every member of `images` has the 784 pixels of an image.
pub fn all_images(images: &Vec<Vec<u8>>) -> (ok: bool)
    ensures
        ok == are_images(images@),
{
    let mut i: usize = 0;
    while i < images.len()
        invariant
            i <= images@.len(),
            forall|k: int| 0 <= k < i ==> (#[trigger] views(images@)[k]).len() == IMAGE_LEN,
        decreases images@.len() - i,
    {
        if images[i].len() != IMAGE_LEN {
            assert(views(images@)[i as int].len() != IMAGE_LEN);
            return false;
        }
        assert(views(images@)[i as int] == images@[i as int]@);
        i += 1;
    }
    true
}

impl Mnist {
    /// Builds the dataset from the contents of its four files: the images
    /// and the labels of the training set, then those of the test set. The
    /// files are decoded in the order training images, test images, training
    /// labels, test labels; the first failure is returned, with the file it
    /// concerns, and nothing else.
    pub fn from_file(
        train_images: &[u8],
        train_labels: &[u8],
        test_images: &[u8],
        test_labels: &[u8],
    ) -> (r: Result<Mnist, LoadError>)
        ensures
            match r {
                Ok(d) => loaded(train_images@, train_labels@, test_images@, test_labels@)
                    == Ok::<MnistView, LoadError>(d@) && d@.well_formed(),
                Err(e) => loaded(train_images@, train_labels@, test_images@, test_labels@)
                    == Err::<MnistView, LoadError>(e),
            },
    {
        let train_records = match parse_images(train_images, TRAIN_COUNT, ROWS, COLS) {
            Ok(records) => records,
            Err(cause) => { return Err(LoadError { file: DatasetFile::TrainImages, cause }); },
        };
        let test_records = match parse_images(test_images, TEST_COUNT, ROWS, COLS) {
            Ok(records) => records,
            Err(cause) => { return Err(LoadError { file: DatasetFile::TestImages, cause }); },
        };
        let train_marks = match parse_labels(train_labels, TRAIN_COUNT) {
            Ok(marks) => marks,
            Err(cause) => { return Err(LoadError { file: DatasetFile::TrainLabels, cause }); },
        };
        let test_marks = match parse_labels(test_labels, TEST_COUNT) {
            Ok(marks) => marks,
            Err(cause) => { return Err(LoadError { file: DatasetFile::TestLabels, cause }); },
        };
        proof {
            lemma_loaded_well_formed(train_images@, train_labels@, test_images@, test_labels@);
        }
        Ok(
            Mnist {
                train_images: train_records,
                test_images: test_records,
                train_labels: train_marks,
                test_labels: test_marks,
            },
        )
    }

    /// Tells whether both sets have their full size, one label per image, and
    /// every image its 784 pixels.
    pub fn is_well_formed(&self) -> (ok: bool)
        ensures
            ok == self@.well_formed(),
    {
        self.train_images.len() == TRAIN_COUNT as usize && self.train_labels.len()
            == TRAIN_COUNT as usize && self.test_images.len() == TEST_COUNT as usize
            && self.test_labels.len() == TEST_COUNT as usize && all_images(&self.train_images)
            && all_images(&self.test_images)
    }

    /// Replaces every training image by a copy moved at random within the
    /// margins around its ink. The shifts come from the generator of the
    /// running thread. Labels and test images stay as they are.
    pub fn random_xy_offset(&mut self)
        requires
            are_images(old(self).train_images@),
        ensures
            final(self).train_images@.len() == old(self).train_images@.len(),
            are_images(final(self).train_images@),
            forall|i: int|
                0 <= i < old(self).train_images@.len() ==> is_augmentation(
                    old(self).train_images@[i]@,
                    #[trigger] final(self).train_images@[i]@,
                ),
            final(self).test_images == old(self).test_images,
            final(self).train_labels == old(self).train_labels,
            final(self).test_labels == old(self).test_labels,
    {
        let mut rng = RandomSource::thread();
        let moved = augment(&self.train_images, &mut rng);
        self.train_images = moved;
    }
}

} // verus!
