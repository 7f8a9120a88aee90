//! The batch: one image after another, each on its own.

use vstd::prelude::*;
use crate::detections::faces_model;
use crate::detections::DecodedImage;
use crate::detections::FaceModel;
use crate::detections::FoundFace;
use crate::detections::ImageModel;
use crate::error::PostProcessError;

verus! {

/// The models of the images of a batch.
pub open spec fn images_model(images: Seq<DecodedImage>) -> Seq<ImageModel> {
    Seq::new(images.len(), |i: int| images[i]@)
}

/// The models of the detections of a batch.
pub open spec fn batch_model(batch: Seq<Vec<FoundFace>>) -> Seq<Seq<FaceModel>> {
    Seq::new(batch.len(), |i: int| faces_model(batch[i]@))
}

/// The candidates of each image of a batch.
pub open spec fn batch_candidates_model(images: Seq<ImageModel>, threshold: u32) -> Seq<Seq<usize>> {
    Seq::new(images.len(), |i: int| images[i].candidates(threshold))
}

/// The detections of the first `n` images of a batch, or the reason why the
/// first image that fails does.
pub open spec fn batch_faces_upto(
    images: Seq<ImageModel>,
    candidates: Seq<Seq<usize>>,
    keeps: Seq<Seq<usize>>,
    n: int,
) -> Result<Seq<Seq<FaceModel>>, PostProcessError>
    decreases n,
{
    if n <= 0 {
        Ok(Seq::empty())
    } else {
        match batch_faces_upto(images, candidates, keeps, n - 1) {
            Err(e) => Err(e),
            Ok(done) => match images[n - 1].faces(candidates[n - 1], keeps[n - 1]) {
                Err(e) => Err(e),
                Ok(faces) => Ok(done.push(faces)),
            },
        }
    }
}

/// The detections of a batch: those of each image, in the order of the
/// images. A batch without one list of candidates and one list of kept
/// places per image is refused, and so is a batch with an image that fails.
pub open spec fn batch_faces_model(
    images: Seq<ImageModel>,
    candidates: Seq<Seq<usize>>,
    keeps: Seq<Seq<usize>>,
) -> Result<Seq<Seq<FaceModel>>, PostProcessError> {
    if candidates.len() != images.len() || keeps.len() != images.len() {
        Err(PostProcessError::InvalidInputShape)
    } else {
        batch_faces_upto(images, candidates, keeps, images.len() as int)
    }
}

/// The candidate filter on every image of a batch.
pub fn batch_candidates(images: &Vec<DecodedImage>, threshold: u32) -> (out: Vec<Vec<usize>>)
    ensures
        out.deep_view() == batch_candidates_model(images_model(images@), threshold),
{
    let mut out: Vec<Vec<usize>> = Vec::new();
    let mut i: usize = 0;
    while i < images.len()
        invariant
            i <= images.len(),
            out.len() == i,
            forall|j: int| 0 <= j < i ==> (#[trigger] out[j])@ == images[j]@.candidates(threshold),
        decreases images.len() - i,
    {
        let found = images[i].candidates(threshold);
        out.push(found);
        i = i + 1;
    }
    assert(out.deep_view() =~~= batch_candidates_model(images_model(images@), threshold));
    out
}

/// The assembly of the detections of a batch.
///
/// Image `i` gives the detections that `candidates[i]` and `keeps[i]` pick
/// from it, in the order of `keeps[i]`. The batch succeeds as a whole or
/// fails as a whole: with `InvalidInputShape` where the three lists are not
/// of one length, else with the reason of the first image that fails.
pub fn batch_faces(
    images: &Vec<DecodedImage>,
    candidates: &Vec<Vec<usize>>,
    keeps: &Vec<Vec<usize>>,
) -> (out: Result<Vec<Vec<FoundFace>>, PostProcessError>)
    ensures
        out matches Ok(batch) ==> batch_faces_model(
            images_model(images@),
            candidates.deep_view(),
            keeps.deep_view(),
        ) == Ok::<Seq<Seq<FaceModel>>, PostProcessError>(batch_model(batch@)),
        out matches Ok(batch) ==> batch@.len() == images@.len(),
        out matches Err(e) ==> batch_faces_model(
            images_model(images@),
            candidates.deep_view(),
            keeps.deep_view(),
        ) == Err::<Seq<Seq<FaceModel>>, PostProcessError>(e),
{
    if candidates.len() != images.len() || keeps.len() != images.len() {
        return Err(PostProcessError::InvalidInputShape);
    }
    let ghost im = images_model(images@);
    let ghost ca = candidates.deep_view();
    let ghost ke = keeps.deep_view();
    let mut batch: Vec<Vec<FoundFace>> = Vec::new();
    let mut i: usize = 0;
    assert(batch_model(batch@) =~= Seq::<Seq<FaceModel>>::empty());
    while i < images.len()
        invariant
            im == images_model(images@),
            ca == candidates.deep_view(),
            ke == keeps.deep_view(),
            candidates.len() == images.len(),
            keeps.len() == images.len(),
            i <= images.len(),
            batch@.len() == i,
            batch_faces_upto(im, ca, ke, i as int) == Ok::<Seq<Seq<FaceModel>>, PostProcessError>(
                batch_model(batch@),
            ),
        decreases images.len() - i,
    {
        proof {
            assert(ca[i as int] == candidates[i as int]@);
            assert(ke[i as int] == keeps[i as int]@);
            assert(im[i as int] == images[i as int]@);
        }
        match images[i].faces(&candidates[i], &keeps[i]) {
            Err(e) => {
                proof {
                    lemma_failure_stays(im, ca, ke, i + 1, images.len() as int);
                }
                return Err(e);
            },
            Ok(faces) => {
                proof {
                    assert(batch_model(batch@.push(faces)) =~= batch_model(batch@).push(
                        faces_model(faces@),
                    ));
                }
                batch.push(faces);
            },
        }
        i = i + 1;
    }
    Ok(batch)
}

/// Once an image fails, the images after it change nothing.
pub proof fn lemma_failure_stays(
    images: Seq<ImageModel>,
    candidates: Seq<Seq<usize>>,
    keeps: Seq<Seq<usize>>,
    n: int,
    m: int,
)
    requires
        0 <= n <= m,
        batch_faces_upto(images, candidates, keeps, n) is Err,
    ensures
        batch_faces_upto(images, candidates, keeps, m) == batch_faces_upto(
            images,
            candidates,
            keeps,
            n,
        ),
    decreases m - n,
{
    if n < m {
        lemma_failure_stays(images, candidates, keeps, n, m - 1);
    }
}

/// What a batch comes to: where every image succeeds, the detections of
/// each; else the reason of the first image that fails.
pub proof fn lemma_batch_faces_upto(
    images: Seq<ImageModel>,
    candidates: Seq<Seq<usize>>,
    keeps: Seq<Seq<usize>>,
    n: int,
)
    requires
        0 <= n,
    ensures
        match batch_faces_upto(images, candidates, keeps, n) {
            Ok(batch) => {
                &&& batch.len() == n
                &&& forall|i: int|
                    0 <= i < n ==> (#[trigger] images[i]).faces(candidates[i], keeps[i]) == Ok::<
                        Seq<FaceModel>,
                        PostProcessError,
                    >(batch[i])
            },
            Err(e) => exists|i: int|
                {
                    &&& 0 <= i < n
                    &&& (#[trigger] images[i]).faces(candidates[i], keeps[i]) == Err::<
                        Seq<FaceModel>,
                        PostProcessError,
                    >(e)
                },
        },
    decreases n,
{
    if n > 0 {
        lemma_batch_faces_upto(images, candidates, keeps, n - 1);
        match batch_faces_upto(images, candidates, keeps, n - 1) {
            Err(e) => {
                let i = choose|i: int|
                    0 <= i < n - 1 && (#[trigger] images[i]).faces(candidates[i], keeps[i]) == Err::<
                        Seq<FaceModel>,
                        PostProcessError,
                    >(e);
                assert(0 <= i < n);
            },
            Ok(done) => {
                match images[n - 1].faces(candidates[n - 1], keeps[n - 1]) {
                    Err(e) => {
                        assert(0 <= n - 1 < n);
                    },
                    Ok(faces) => {
                        let batch = done.push(faces);
                        assert forall|i: int| 0 <= i < n implies (#[trigger] images[i]).faces(
                            candidates[i],
                            keeps[i],
                        ) == Ok::<Seq<FaceModel>, PostProcessError>(batch[i]) by {
                            if i < n - 1 {
                                assert(batch[i] == done[i]);
                            }
                        }
                    },
                }
            },
        }
    }
}

/// Whether some place of `order` takes what stood at place `j`.
pub open spec fn taken(order: Seq<int>, j: int) -> bool {
    exists|i: int| 0 <= i < order.len() && #[trigger] order[i] == j
}

/// An order of the `n` images of a batch: every place below `n` is taken
/// from a place below `n`, and every place below `n` is taken.
pub open spec fn is_permutation(order: Seq<int>, n: int) -> bool {
    &&& order.len() == n
    &&& forall|i: int| 0 <= i < n ==> 0 <= #[trigger] order[i] < n
    &&& forall|j: int| 0 <= j < n ==> #[trigger] taken(order, j)
}

/// The items in another order: place `i` holds what stood at `order[i]`.
pub open spec fn reordered<T>(items: Seq<T>, order: Seq<int>) -> Seq<T> {
    Seq::new(order.len(), |i: int| items[order[i]])
}

/// The images of a batch do not touch one another: with the images in
/// another order, each image has the candidates it had, the batch succeeds
/// where it succeeded, and each image has the detections it had.
pub proof fn lemma_batch_independent(
    images: Seq<ImageModel>,
    candidates: Seq<Seq<usize>>,
    keeps: Seq<Seq<usize>>,
    threshold: u32,
    order: Seq<int>,
)
    requires
        candidates.len() == images.len(),
        keeps.len() == images.len(),
        is_permutation(order, images.len() as int),
    ensures
        batch_candidates_model(reordered(images, order), threshold) == reordered(
            batch_candidates_model(images, threshold),
            order,
        ),
        batch_faces_model(
            reordered(images, order),
            reordered(candidates, order),
            reordered(keeps, order),
        ) is Ok <==> batch_faces_model(images, candidates, keeps) is Ok,
        batch_faces_model(images, candidates, keeps) matches Ok(batch) ==> batch_faces_model(
            reordered(images, order),
            reordered(candidates, order),
            reordered(keeps, order),
        ) == Ok::<Seq<Seq<FaceModel>>, PostProcessError>(reordered(batch, order)),
{
    let n = images.len() as int;
    let images2 = reordered(images, order);
    let candidates2 = reordered(candidates, order);
    let keeps2 = reordered(keeps, order);
    assert(batch_candidates_model(images2, threshold) =~= reordered(
        batch_candidates_model(images, threshold),
        order,
    ));
    lemma_batch_faces_upto(images, candidates, keeps, n);
    lemma_batch_faces_upto(images2, candidates2, keeps2, n);
    let one = batch_faces_upto(images, candidates, keeps, n);
    let two = batch_faces_upto(images2, candidates2, keeps2, n);
    match one {
        Ok(batch) => {
            match two {
                Ok(batch2) => {
                    assert forall|i: int| 0 <= i < n implies batch2[i] == batch[order[i]] by {
                        assert(images2[i].faces(candidates2[i], keeps2[i]) == Ok::<
                            Seq<FaceModel>,
                            PostProcessError,
                        >(batch2[i]));
                        assert(images[order[i]].faces(candidates[order[i]], keeps[order[i]]) == Ok::<
                            Seq<FaceModel>,
                            PostProcessError,
                        >(batch[order[i]]));
                    }
                    assert(batch2 =~= reordered(batch, order));
                },
                Err(e) => {
                    let i = choose|i: int|
                        0 <= i < n && (#[trigger] images2[i]).faces(candidates2[i], keeps2[i])
                            == Err::<Seq<FaceModel>, PostProcessError>(e);
                    assert(images[order[i]].faces(candidates[order[i]], keeps[order[i]]) == Ok::<
                        Seq<FaceModel>,
                        PostProcessError,
                    >(batch[order[i]]));
                    assert(false);
                },
            }
        },
        Err(e) => {
            let j = choose|j: int|
                0 <= j < n && (#[trigger] images[j]).faces(candidates[j], keeps[j]) == Err::<
                    Seq<FaceModel>,
                    PostProcessError,
                >(e);
            assert(taken(order, j));
            let i = choose|i: int| 0 <= i < n && #[trigger] order[i] == j;
            match two {
                Ok(batch2) => {
                    assert(images2[i].faces(candidates2[i], keeps2[i]) == Ok::<
                        Seq<FaceModel>,
                        PostProcessError,
                    >(batch2[i]));
                    assert(false);
                },
                Err(e2) => {},
            }
        },
    }
}

} // verus!
