//! The order in which the images of several sequences are preprocessed.
//!
//! The preprocessing itself runs elsewhere. It is handed one image after the other and hands back what
//! it made of each.

use candle_core::Error;
use image::DynamicImage;
use vstd::prelude::*;

use crate::resize::{are_capped, images_fit, images_for_vision_checked};
use crate::sequence::Sequence;
use crate::vision_meta::{PreparedImage, PreparedImages};

verus! {

/// The images of several sequences, and what the preprocessing has made of them so far.
pub struct ImagePreparation {
    images: Vec<Vec<DynamicImage>>,
    prepared: Vec<Vec<PreparedImage>>,
    current: Vec<PreparedImage>,
    failure: Option<Error>,
}

impl ImagePreparation {
    /// The images of each sequence as the preprocessing is handed them.
    pub closed spec fn images(self) -> Seq<Seq<DynamicImage>> {
        Seq::new(self.images@.len(), |k: int| self.images@[k]@)
    }

    /// The number of sequences, from the first on, of which every image is preprocessed.
    pub closed spec fn complete(self) -> nat {
        self.prepared@.len()
    }

    /// The reason for which an image failed, where one did.
    pub closed spec fn failure(self) -> Option<Error> {
        self.failure
    }

    /// What became of image `j` of sequence `k`, once it is preprocessed.
    pub closed spec fn result(self, k: int, j: int) -> Option<PreparedImage> {
        if 0 <= k < self.prepared@.len() && 0 <= j < self.prepared@[k]@.len() {
            Some(self.prepared@[k]@[j])
        } else if k == self.prepared@.len() && 0 <= j < self.current@.len() {
            Some(self.current@[j])
        } else {
            None
        }
    }

    /// The sequence and the place in it of the image that is to be preprocessed next, unless one
    /// failed or all are done.
    pub closed spec fn cursor(self) -> Option<(int, int)> {
        if self.failure is Some || self.prepared@.len() == self.images@.len() {
            None
        } else {
            Some((self.prepared@.len() as int, self.current@.len() as int))
        }
    }

    /// Complete sequences have one result per image, and the one at work has not more results than
    /// images.
    closed spec fn in_step(self) -> bool {
        &&& self.prepared@.len() <= self.images@.len()
        &&& forall|k: int|
            0 <= k < self.prepared@.len() ==> (#[trigger] self.prepared@[k])@.len()
                == self.images@[k]@.len()
        &&& self.prepared@.len() == self.images@.len() ==> self.current@.len() == 0
            && self.failure is None
        &&& self.prepared@.len() < self.images@.len() ==> self.current@.len()
            <= self.images@[self.prepared@.len() as int]@.len()
    }

    /// What holds between the steps: besides, the sequence at work has an image without a result.
    pub closed spec fn well_formed(self) -> bool {
        &&& self.in_step()
        &&& self.prepared@.len() < self.images@.len() ==> self.current@.len()
            < self.images@[self.prepared@.len() as int]@.len()
    }

    /// Images are preprocessed in order, and none is left out: those that have a result are those
    /// before the next one.
    pub proof fn lemma_in_order(self, k: int, j: int)
        requires
            self.well_formed(),
            self.cursor() is Some,
            0 <= k < self.images().len(),
            0 <= j < self.images()[k].len(),
        ensures
            self.result(k, j) is Some <==> k < (self.cursor()->0).0 || k == (self.cursor()->0).0 && j
                < (self.cursor()->0).1,
    {
        if k < self.prepared@.len() {
            assert(self.prepared@[k]@.len() == self.images@[k]@.len());
        }
    }

    /// Starts on the images of the sequences, each brought under the cap, unless one cannot be.
    pub fn new(input_seqs: &Vec<Sequence>) -> (res: Option<ImagePreparation>)
        ensures
            match res {
                Some(p) => {
                    &&& p.well_formed()
                    &&& p.images().len() == input_seqs@.len()
                    &&& forall|k: int|
                        0 <= k < input_seqs@.len() ==> are_capped(
                            #[trigger] p.images()[k],
                            input_seqs@[k],
                        )
                    &&& forall|k: int|
                        0 <= k < input_seqs@.len() ==> images_fit(#[trigger] input_seqs@[k])
                    &&& forall|k: int, j: int| #[trigger] p.result(k, j) is None
                    &&& p.failure() is None
                },
                None => exists|k: int|
                    0 <= k < input_seqs@.len() && !images_fit(#[trigger] input_seqs@[k]),
            },
    {
        let mut images: Vec<Vec<DynamicImage>> = Vec::with_capacity(input_seqs.len());
        for i in 0..input_seqs.len()
            invariant
                images@.len() == i,
                forall|k: int|
                    0 <= k < i ==> are_capped((#[trigger] images@[k])@, input_seqs@[k]),
                forall|k: int| 0 <= k < i ==> images_fit(#[trigger] input_seqs@[k]),
        {
            match images_for_vision_checked(&input_seqs[i]) {
                Some(capped) => images.push(capped),
                None => {
                    assert(!images_fit(input_seqs@[i as int]));
                    return None;
                },
            }
        }
        let mut res = ImagePreparation {
            images,
            prepared: Vec::new(),
            current: Vec::new(),
            failure: None,
        };
        assert forall|k: int, j: int| #[trigger] res.result(k, j) is None by {}
        assert forall|k: int| 0 <= k < input_seqs@.len() implies are_capped(
            #[trigger] res.images()[k],
            input_seqs@[k],
        ) by {
            assert(are_capped(res.images@[k]@, input_seqs@[k]));
        }
        res.settle();
        Some(res)
    }

    /// Closes the sequences of which every image has its result.
    fn settle(&mut self)
        requires
            old(self).in_step(),
            old(self).failure() is None,
        ensures
            final(self).well_formed(),
            final(self).images() == old(self).images(),
            final(self).failure() is None,
            forall|k: int, j: int| #[trigger]
                final(self).result(k, j) == old(self).result(k, j),
    {
        let ghost before = *self;
        while self.prepared.len() < self.images.len() && self.current.len()
            == self.images[self.prepared.len()].len()
            invariant
                self.in_step(),
                self.images == before.images,
                self.failure is None,
                forall|k: int, j: int| #[trigger] self.result(k, j) == before.result(k, j),
            decreases self.images@.len() - self.prepared@.len(),
        {
            let ghost last = *self;
            let mut done: Vec<PreparedImage> = Vec::new();
            std::mem::swap(&mut done, &mut self.current);
            self.prepared.push(done);
            assert forall|k: int, j: int| #[trigger] self.result(k, j) == before.result(k, j) by {
                assert(last.result(k, j) == before.result(k, j));
            }
        }
    }

    /// The image that is to be preprocessed next, unless one failed or all are done.
    pub fn next(&self) -> (res: Option<&DynamicImage>)
        requires
            self.well_formed(),
        ensures
            match res {
                Some(img) => {
                    &&& self.cursor() matches Some((k, j))
                    &&& 0 <= k < self.images().len()
                    &&& 0 <= j < self.images()[k].len()
                    &&& *img == self.images()[k][j]
                },
                None => self.cursor() is None,
            },
    {
        if self.failure.is_some() || self.prepared.len() == self.images.len() {
            return None;
        }
        Some(&self.images[self.prepared.len()][self.current.len()])
    }

    /// Records what became of the image that was next. A failure ends the preparation, and the
    /// sequence of that image is not complete.
    pub fn record(&mut self, outcome: Result<PreparedImage, Error>)
        requires
            old(self).well_formed(),
            old(self).cursor() is Some,
        ensures
            final(self).well_formed(),
            final(self).images() == old(self).images(),
            match outcome {
                Ok(image) => {
                    &&& final(self).failure() is None
                    &&& forall|k: int, j: int| #[trigger]
                        final(self).result(k, j) == if Some((k, j)) == old(self).cursor() {
                            Some(image)
                        } else {
                            old(self).result(k, j)
                        }
                },
                Err(e) => {
                    &&& final(self).failure() == Some(e)
                    &&& final(self).complete() == old(self).complete() == (old(self).cursor()->0).0
                    &&& forall|k: int, j: int| #[trigger]
                        final(self).result(k, j) == old(self).result(k, j)
                },
            },
    {
        let ghost before = *self;
        match outcome {
            Ok(image) => {
                self.current.push(image);
                assert forall|k: int, j: int| #[trigger] self.result(k, j) == if Some((k, j))
                    == before.cursor() {
                    Some(image)
                } else {
                    before.result(k, j)
                } by {}
                self.settle();
            },
            Err(e) => {
                self.failure = Some(e);
            },
        }
    }

    /// What the preprocessing gave, once one image failed or all are done: the results of each complete
    /// sequence, image by image.
    pub fn finish(self) -> (res: PreparedImages)
        requires
            self.well_formed(),
            self.cursor() is None,
        ensures
            res.failure == self.failure(),
            res.per_sequence@.len() == self.complete(),
            res.failure is None ==> self.complete() == self.images().len(),
            res.failure is Some ==> self.complete() < self.images().len(),
            forall|k: int|
                0 <= k < self.complete() ==> (#[trigger] res.per_sequence@[k])@.len()
                    == self.images()[k].len(),
            forall|k: int, j: int|
                0 <= k < self.complete() && 0 <= j < self.images()[k].len()
                    ==> #[trigger] self.result(k, j) == Some(res.per_sequence@[k]@[j]),
    {
        proof {
            assert forall|k: int| 0 <= k < self.complete() implies (
            #[trigger] self.prepared@[k])@.len() == self.images()[k].len() by {}
        }
        PreparedImages { per_sequence: self.prepared, failure: self.failure }
    }
}

} // verus!
