//! One image: its decoded values, the candidate filter, and the assembly of
//! the detections that suppression kept.
//!
//! Every real number here is an IEEE-754 single-precision bit pattern.

use vstd::prelude::*;
use crate::binary32::exceeds;
use crate::binary32::greater;
use crate::binary32::lemma_greater_through;
use crate::binary32::not_below;
use crate::binary32::rank;
use crate::binary32::signed_magnitude;
use crate::error::PostProcessError;

verus! {

/// A detected face: its box `(x_min, y_min, x_max, y_max)` in pixels, its
/// confidence, and its five landmarks `(x, y)` in pixels.
#[derive(Clone, Copy, Debug, PartialEq, Eq)]
pub struct FoundFace {
    pub bbox: [u32; 4],
    pub score: u32,
    pub landmarks: [[u32; 2]; 5],
}

/// The mathematical model of a detected face.
#[verifier::ext_equal]
pub struct FaceModel {
    pub bbox: Seq<u32>,
    pub score: u32,
    pub landmarks: Seq<Seq<u32>>,
}

impl FaceModel {
    /// A detection as three groups of numbers: the four of its box, its
    /// confidence alone, and the ten of its landmarks, `x` before `y`, point
    /// after point.
    pub open spec fn groups(self) -> Seq<Seq<u32>> {
        seq![
            self.bbox,
            seq![self.score],
            Seq::new(10, |c: int| self.landmarks[c / 2][c % 2]),
        ]
    }
}

impl FoundFace {
    /// The detection as three groups of numbers: the four of its box, its
    /// confidence alone, and the ten of its landmarks.
    pub fn to_groups(&self) -> (out: Vec<Vec<u32>>)
        ensures
            out.deep_view() == self@.groups(),
    {
        let b: Vec<u32> = vec![self.bbox[0], self.bbox[1], self.bbox[2], self.bbox[3]];
        let c: Vec<u32> = vec![self.score];
        let l: Vec<u32> = vec![
            self.landmarks[0][0],
            self.landmarks[0][1],
            self.landmarks[1][0],
            self.landmarks[1][1],
            self.landmarks[2][0],
            self.landmarks[2][1],
            self.landmarks[3][0],
            self.landmarks[3][1],
            self.landmarks[4][0],
            self.landmarks[4][1],
        ];
        let mut out: Vec<Vec<u32>> = Vec::new();
        proof {
            assert(b@ =~= self@.bbox);
            assert(c@ =~= seq![self.score]);
            assert(l@ =~= self@.groups()[2]);
        }
        out.push(b);
        out.push(c);
        out.push(l);
        proof {
            assert(out.deep_view() =~~= self@.groups());
        }
        out
    }
}

impl View for FoundFace {
    type V = FaceModel;

    open spec fn view(&self) -> FaceModel {
        FaceModel {
            bbox: self.bbox@,
            score: self.score,
            landmarks: self.landmarks.deep_view(),
        }
    }
}

/// The mathematical model of the decoded values of one image: for each
/// anchor its box, its confidence, and its ten landmark coordinates
/// `x0, y0, .., x4, y4`.
#[verifier::ext_equal]
pub struct ImageModel {
    pub boxes: Seq<Seq<u32>>,
    pub scores: Seq<u32>,
    pub landmarks: Seq<Seq<u32>>,
}

impl ImageModel {
    /// One box of four, one confidence and one row of ten per anchor.
    pub open spec fn wf(self) -> bool {
        &&& self.boxes.len() == self.scores.len()
        &&& self.landmarks.len() == self.scores.len()
        &&& forall|i: int| 0 <= i < self.boxes.len() ==> (#[trigger] self.boxes[i]).len() == 4
        &&& forall|i: int| 0 <= i < self.landmarks.len() ==> (#[trigger] self.landmarks[i]).len() == 10
    }

    /// The number of anchors.
    pub open spec fn len(self) -> int {
        self.scores.len() as int
    }

    /// Whether the box of anchor `i` lacks a positive width or a positive height.
    pub open spec fn degenerate(self, i: int) -> bool {
        !(greater(self.boxes[i][2], self.boxes[i][0]) && greater(self.boxes[i][3], self.boxes[i][1]))
    }

    /// Whether anchor `i` passes the filter: its confidence is strictly above
    /// the threshold, and its box has a positive width and height.
    pub open spec fn eligible(self, i: int, threshold: u32) -> bool {
        greater(self.scores[i], threshold) && !self.degenerate(i)
    }

    /// The anchors below `n` that pass the filter, in rising order.
    pub open spec fn candidates_upto(self, threshold: u32, n: int) -> Seq<usize>
        decreases n,
    {
        if n <= 0 {
            Seq::empty()
        } else if self.eligible(n - 1, threshold) {
            self.candidates_upto(threshold, n - 1).push((n - 1) as usize)
        } else {
            self.candidates_upto(threshold, n - 1)
        }
    }

    /// The anchors that pass the filter, in rising order.
    pub open spec fn candidates(self, threshold: u32) -> Seq<usize> {
        self.candidates_upto(threshold, self.len())
    }

    /// The detection that anchor `i` gives.
    pub open spec fn face(self, i: int) -> FaceModel {
        FaceModel {
            bbox: self.boxes[i],
            score: self.scores[i],
            landmarks: Seq::new(
                5,
                |p: int| seq![self.landmarks[i][2 * p], self.landmarks[i][2 * p + 1]],
            ),
        }
    }
}

impl ImageModel {
    /// What stands against entry `k` of `keep`, if anything. An entry of
    /// `keep` is a place in `candidates`, and what stands there is an anchor.
    pub open spec fn refusal(self, candidates: Seq<usize>, keep: Seq<usize>, k: int) -> Option<
        PostProcessError,
    > {
        if keep[k] >= candidates.len() {
            Some(PostProcessError::IndexOutOfRange)
        } else if candidates[keep[k] as int] >= self.len() {
            Some(PostProcessError::IndexOutOfRange)
        } else if self.degenerate(candidates[keep[k] as int] as int) {
            Some(PostProcessError::DegenerateGeometry)
        } else {
            None
        }
    }

    /// The detections of the first `n` entries of `keep`, in that order, or
    /// what stands against the first entry that is refused.
    pub open spec fn faces_upto(self, candidates: Seq<usize>, keep: Seq<usize>, n: int) -> Result<
        Seq<FaceModel>,
        PostProcessError,
    >
        decreases n,
    {
        if n <= 0 {
            Ok(Seq::empty())
        } else {
            match self.faces_upto(candidates, keep, n - 1) {
                Err(e) => Err(e),
                Ok(faces) => match self.refusal(candidates, keep, n - 1) {
                    Some(e) => Err(e),
                    None => Ok(faces.push(self.face(candidates[keep[n - 1] as int] as int))),
                },
            }
        }
    }

    /// The detections of an image: one for each entry of `keep`, in the order
    /// of `keep`; or, where an entry is refused, the reason for the first such.
    pub open spec fn faces(self, candidates: Seq<usize>, keep: Seq<usize>) -> Result<
        Seq<FaceModel>,
        PostProcessError,
    > {
        self.faces_upto(candidates, keep, keep.len() as int)
    }

    /// Once an entry of `keep` is refused, the entries after it change nothing.
    pub proof fn lemma_refusal_stays(self, candidates: Seq<usize>, keep: Seq<usize>, n: int, m: int)
        requires
            0 <= n <= m,
            self.faces_upto(candidates, keep, n) is Err,
        ensures
            self.faces_upto(candidates, keep, m) == self.faces_upto(candidates, keep, n),
        decreases m - n,
    {
        if n < m {
            self.lemma_refusal_stays(candidates, keep, n, m - 1);
        }
    }

    /// What the filter keeps: exactly the anchors that pass, each once, in
    /// rising order.
    pub proof fn lemma_candidates_upto(self, threshold: u32, n: int)
        requires
            0 <= n <= usize::MAX,
        ensures
            forall|k: int|
                0 <= k < self.candidates_upto(threshold, n).len() ==> {
                    &&& 0 <= (#[trigger] self.candidates_upto(threshold, n)[k]) < n
                    &&& self.eligible(self.candidates_upto(threshold, n)[k] as int, threshold)
                },
            forall|j: int, k: int|
                0 <= j < k < self.candidates_upto(threshold, n).len() ==> (
                #[trigger] self.candidates_upto(threshold, n)[j]) < (
                #[trigger] self.candidates_upto(threshold, n)[k]),
            forall|i: int|
                0 <= i < n && self.eligible(i, threshold) ==> self.candidates_upto(
                    threshold,
                    n,
                ).contains(i as usize),
            self.candidates_upto(threshold, n).len() <= n,
        decreases n,
    {
        if n > 0 {
            self.lemma_candidates_upto(threshold, n - 1);
            let before = self.candidates_upto(threshold, n - 1);
            let now = self.candidates_upto(threshold, n);
            assert forall|i: int| 0 <= i < n && self.eligible(i, threshold) implies now.contains(
                i as usize,
            ) by {
                if i < n - 1 {
                    let k = choose|k: int| 0 <= k < before.len() && before[k] == i as usize;
                    assert(now[k] == i as usize);
                } else {
                    assert(now[now.len() - 1] == i as usize);
                }
            }
        }
    }

    /// Raising the threshold never lets another anchor through: what passes
    /// the higher threshold passes the lower one, so the filter keeps no more
    /// anchors than before, and none that it did not keep before.
    pub proof fn lemma_filter_monotonic(self, low: u32, high: u32)
        requires
            self.len() <= usize::MAX,
            not_below(high, low),
        ensures
            self.candidates(high).len() <= self.candidates(low).len(),
            forall|i: usize|
                self.candidates(high).contains(i) ==> self.candidates(low).contains(i),
    {
        self.lemma_fewer_upto(low, high, self.len());
        self.lemma_candidates_upto(low, self.len());
        self.lemma_candidates_upto(high, self.len());
        assert forall|i: usize| self.candidates(high).contains(i) implies self.candidates(
            low,
        ).contains(i) by {
            let k = choose|k: int|
                0 <= k < self.candidates(high).len() && self.candidates(high)[k] == i;
            assert(self.eligible(self.candidates(high)[k] as int, high));
            lemma_greater_through(self.scores[i as int], high, low);
            assert(self.eligible(i as int, low));
        }
    }

    /// Among the anchors below `n`, no more pass the higher threshold than the lower.
    proof fn lemma_fewer_upto(self, low: u32, high: u32, n: int)
        requires
            not_below(high, low),
        ensures
            self.candidates_upto(high, n).len() <= self.candidates_upto(low, n).len(),
        decreases n,
    {
        if n > 0 {
            self.lemma_fewer_upto(low, high, n - 1);
            if self.eligible(n - 1, high) {
                lemma_greater_through(self.scores[n - 1], high, low);
            }
        }
    }

    /// What the assembly comes to. Where no entry of `keep` is refused, there
    /// is one detection per entry, that of the anchor the entry stands for;
    /// else the reason is that of the first entry that is refused.
    pub proof fn lemma_faces_upto(self, candidates: Seq<usize>, keep: Seq<usize>, n: int)
        requires
            0 <= n,
        ensures
            match self.faces_upto(candidates, keep, n) {
                Ok(faces) => {
                    &&& faces.len() == n
                    &&& forall|k: int|
                        0 <= k < n ==> #[trigger] self.refusal(candidates, keep, k) is None
                    &&& forall|k: int|
                        0 <= k < n ==> #[trigger] faces[k] == self.face(
                            candidates[keep[k] as int] as int,
                        )
                },
                Err(e) => exists|k: int|
                    {
                        &&& 0 <= k < n
                        &&& #[trigger] self.refusal(candidates, keep, k) == Some(e)
                        &&& forall|j: int|
                            0 <= j < k ==> #[trigger] self.refusal(candidates, keep, j) is None
                    },
            },
        decreases n,
    {
        if n > 0 {
            self.lemma_faces_upto(candidates, keep, n - 1);
            match self.faces_upto(candidates, keep, n - 1) {
                Ok(faces) => {
                    match self.refusal(candidates, keep, n - 1) {
                        Some(e) => {
                            assert(self.faces_upto(candidates, keep, n) == Err::<
                                Seq<FaceModel>,
                                PostProcessError,
                            >(e));
                            assert(self.refusal(candidates, keep, n - 1) == Some(e));
                        },
                        None => {
                            let face = self.face(candidates[keep[n - 1] as int] as int);
                            let now = faces.push(face);
                            assert(self.faces_upto(candidates, keep, n) == Ok::<
                                Seq<FaceModel>,
                                PostProcessError,
                            >(now));
                            assert forall|k: int| 0 <= k < n implies #[trigger] now[k] == self.face(
                                candidates[keep[k] as int] as int,
                            ) by {
                                if k < n - 1 {
                                    assert(now[k] == faces[k]);
                                }
                            }
                        },
                    }
                },
                Err(e) => {
                    let k = choose|k: int|
                        {
                            &&& 0 <= k < n - 1
                            &&& #[trigger] self.refusal(candidates, keep, k) == Some(e)
                            &&& forall|j: int|
                                0 <= j < k ==> #[trigger] self.refusal(candidates, keep, j) is None
                        };
                    assert(0 <= k < n);
                },
            }
        }
    }

    /// The assembly succeeds on what the filter and suppression hand over:
    /// with the candidates of the filter, and a `keep` of places in them,
    /// there is one detection for each entry of `keep`.
    pub proof fn lemma_faces_of_candidates(self, threshold: u32, keep: Seq<usize>)
        requires
            self.wf(),
            self.len() <= usize::MAX,
            forall|k: int| 0 <= k < keep.len() ==> keep[k] < self.candidates(threshold).len(),
        ensures
            self.faces(self.candidates(threshold), keep) is Ok,
            self.faces(self.candidates(threshold), keep)->Ok_0.len() == keep.len(),
            forall|k: int|
                0 <= k < keep.len() ==> #[trigger] self.faces(
                    self.candidates(threshold),
                    keep,
                )->Ok_0[k] == self.face(self.candidates(threshold)[keep[k] as int] as int),
    {
        let candidates = self.candidates(threshold);
        self.lemma_candidates_upto(threshold, self.len());
        self.lemma_faces_upto(candidates, keep, keep.len() as int);
        assert forall|k: int| 0 <= k < keep.len() implies self.refusal(
            candidates,
            keep,
            k,
        ) is None by {
            let place = keep[k] as int;
            assert(0 <= candidates[place] < self.len());
            assert(self.eligible(candidates[place] as int, threshold));
        }
    }
}

impl ImageModel {
    /// Whether every entry of `keep` is a place in `candidates` that holds an
    /// anchor of the image.
    pub open spec fn in_range(self, candidates: Seq<usize>, keep: Seq<usize>) -> bool {
        forall|k: int|
            0 <= k < keep.len() ==> (#[trigger] keep[k]) < candidates.len() && candidates[keep[k] as int]
                < self.len()
    }

    /// Whether place `p` of `candidates` is selected no later than place
    /// `q`: its anchor has the higher confidence, or the same and `p` is not
    /// the later place.
    pub open spec fn selected_first(self, candidates: Seq<usize>, p: usize, q: usize) -> bool {
        let score_p = rank(self.scores[candidates[p as int] as int]);
        let score_q = rank(self.scores[candidates[q as int] as int]);
        score_p > score_q || (score_p == score_q && p <= q)
    }

    /// Whether the places stand in selection order: by falling confidence,
    /// and among equal confidences by rising place.
    pub open spec fn in_selection_order(self, candidates: Seq<usize>, keep: Seq<usize>) -> bool {
        forall|i: int, j: int|
            0 <= i < j < keep.len() ==> self.selected_first(
                candidates,
                #[trigger] keep[i],
                #[trigger] keep[j],
            )
    }

    /// Selection order leaves no choice: two lists of the same places, each
    /// place as often in one as in the other, that both stand in selection
    /// order are one list.
    pub proof fn lemma_selection_order_unique(
        self,
        candidates: Seq<usize>,
        one: Seq<usize>,
        other: Seq<usize>,
    )
        requires
            one.to_multiset() == other.to_multiset(),
            self.in_selection_order(candidates, one),
            self.in_selection_order(candidates, other),
        ensures
            one == other,
    {
        let first = |p: usize, q: usize| self.selected_first(candidates, p, q);
        assert(vstd::relations::total_ordering(first));
        assert(vstd::relations::sorted_by(one, first));
        assert(vstd::relations::sorted_by(other, first));
        vstd::seq_lib::lemma_sorted_unique(one, other, first);
    }
}

impl ImageModel {
    /// Whether every candidate is an anchor of the image.
    pub open spec fn holds_all(self, candidates: Seq<usize>) -> bool {
        forall|k: int| 0 <= k < candidates.len() ==> (#[trigger] candidates[k]) < self.len()
    }

    /// The boxes of the candidates, in the order of the candidates.
    pub open spec fn selected_boxes(self, candidates: Seq<usize>) -> Seq<Seq<u32>> {
        Seq::new(candidates.len(), |k: int| self.boxes[candidates[k] as int])
    }

    /// The confidences of the candidates, in the order of the candidates.
    pub open spec fn selected_scores(self, candidates: Seq<usize>) -> Seq<u32> {
        Seq::new(candidates.len(), |k: int| self.scores[candidates[k] as int])
    }
}

/// The models of a list of faces.
pub open spec fn faces_model(faces: Seq<FoundFace>) -> Seq<FaceModel> {
    Seq::new(faces.len(), |k: int| faces[k]@)
}

/// The decoded values of one image, with one box, one confidence and one row
/// of landmarks per anchor.
pub struct DecodedImage {
    boxes: Vec<[u32; 4]>,
    scores: Vec<u32>,
    landmarks: Vec<[u32; 10]>,
}

impl View for DecodedImage {
    type V = ImageModel;

    closed spec fn view(&self) -> ImageModel {
        ImageModel {
            boxes: self.boxes.deep_view(),
            scores: self.scores@,
            landmarks: self.landmarks.deep_view(),
        }
    }
}

impl DecodedImage {
    #[verifier::type_invariant]
    spec fn same_lengths(self) -> bool {
        &&& self.boxes.len() == self.scores.len()
        &&& self.landmarks.len() == self.scores.len()
    }

    /// Puts the decoded values of one image together. They are refused where
    /// the three lists are not of one length.
    pub fn new(boxes: Vec<[u32; 4]>, scores: Vec<u32>, landmarks: Vec<[u32; 10]>) -> (made: Result<
        DecodedImage,
        PostProcessError,
    >)
        ensures
            made is Ok <==> boxes.len() == scores.len() && landmarks.len() == scores.len(),
            made matches Ok(image) ==> {
                &&& image@.wf()
                &&& image@.boxes == boxes.deep_view()
                &&& image@.scores == scores@
                &&& image@.landmarks == landmarks.deep_view()
            },
            made matches Err(e) ==> e == PostProcessError::BufferSizeMismatch,
    {
        if boxes.len() != scores.len() || landmarks.len() != scores.len() {
            Err(PostProcessError::BufferSizeMismatch)
        } else {
            Ok(DecodedImage { boxes, scores, landmarks })
        }
    }

    /// The number of anchors.
    pub fn len(&self) -> (n: usize)
        ensures
            n == self@.len(),
            self@.wf(),
    {
        proof {
            use_type_invariant(self);
        }
        self.scores.len()
    }

    /// The candidate filter: the anchors whose confidence is strictly above
    /// `threshold` and whose box has a positive width and height, in rising order.
    pub fn candidates(&self, threshold: u32) -> (out: Vec<usize>)
        ensures
            out@ == self@.candidates(threshold),
    {
        proof {
            use_type_invariant(self);
        }
        let n: usize = self.scores.len();
        let mut out: Vec<usize> = Vec::new();
        let mut i: usize = 0;
        while i < n
            invariant
                n == self.scores.len(),
                n == self.boxes.len(),
                i <= n,
                out@ == self@.candidates_upto(threshold, i as int),
            decreases n - i,
        {
            let b: [u32; 4] = self.boxes[i];
            assert(self@.boxes[i as int] == b@);
            if exceeds(self.scores[i], threshold) && exceeds(b[2], b[0]) && exceeds(b[3], b[1]) {
                out.push(i);
            }
            i = i + 1;
        }
        out
    }
    /// Builds the detection of one anchor.
    fn face_at(&self, anchor: usize) -> (face: FoundFace)
        requires
            anchor < self@.len(),
        ensures
            face@ == self@.face(anchor as int),
    {
        proof {
            use_type_invariant(self);
        }
        let b: [u32; 4] = self.boxes[anchor];
        let l: [u32; 10] = self.landmarks[anchor];
        let face = FoundFace {
            bbox: b,
            score: self.scores[anchor],
            landmarks: [[l[0], l[1]], [l[2], l[3]], [l[4], l[5]], [l[6], l[7]], [l[8], l[9]]],
        };
        proof {
            assert(self@.boxes[anchor as int] == b@);
            assert(self@.landmarks[anchor as int] == l@);
            let want = self@.face(anchor as int);
            assert(face@.landmarks.len() == 5);
            assert forall|p: int| 0 <= p < 5 implies face@.landmarks[p] =~= want.landmarks[p] by {
                assert(face.landmarks[p]@.len() == 2);
            }
            assert(face@.landmarks =~= want.landmarks);
            assert(face@ =~= want);
        }
        face
    }

    /// Tells whether the box of an anchor lacks a positive width or height.
    fn is_degenerate(&self, anchor: usize) -> (r: bool)
        requires
            anchor < self@.len(),
        ensures
            r == self@.degenerate(anchor as int),
    {
        proof {
            use_type_invariant(self);
        }
        let b: [u32; 4] = self.boxes[anchor];
        assert(self@.boxes[anchor as int] == b@);
        !(exceeds(b[2], b[0]) && exceeds(b[3], b[1]))
    }

    /// The assembly of the detections of an image.
    ///
    /// `candidates` lists anchors, as the filter gives them, and `keep`
    /// lists places in `candidates`, as suppression gives them. There is one
    /// detection for each entry of `keep`, in the order of `keep`. The whole
    /// is refused where an entry of either list points outside what it
    /// indexes, or where a kept box lacks a positive width or height; the
    /// reason given is that of the first entry of `keep` that is refused.
    pub fn faces(&self, candidates: &Vec<usize>, keep: &Vec<usize>) -> (out: Result<
        Vec<FoundFace>,
        PostProcessError,
    >)
        ensures
            out matches Ok(faces) ==> self@.faces(candidates@, keep@) == Ok::<
                Seq<FaceModel>,
                PostProcessError,
            >(faces_model(faces@)),
            out matches Ok(faces) ==> faces@.len() == keep@.len(),
            out matches Err(e) ==> self@.faces(candidates@, keep@) == Err::<
                Seq<FaceModel>,
                PostProcessError,
            >(e),
    {
        proof {
            use_type_invariant(self);
            self@.lemma_faces_upto(candidates@, keep@, keep@.len() as int);
        }
        let n: usize = self.scores.len();
        let mut faces: Vec<FoundFace> = Vec::new();
        let mut k: usize = 0;
        assert(faces_model(faces@) =~= Seq::<FaceModel>::empty());
        while k < keep.len()
            invariant
                n == self@.len(),
                k <= keep.len(),
                self@.faces_upto(candidates@, keep@, k as int) == Ok::<
                    Seq<FaceModel>,
                    PostProcessError,
                >(faces_model(faces@)),
            decreases keep.len() - k,
        {
            let place: usize = keep[k];
            proof {
                if self@.refusal(candidates@, keep@, k as int) is Some {
                    self@.lemma_refusal_stays(candidates@, keep@, k + 1, keep@.len() as int);
                }
            }
            if place >= candidates.len() {
                return Err(PostProcessError::IndexOutOfRange);
            }
            let anchor: usize = candidates[place];
            if anchor >= n {
                return Err(PostProcessError::IndexOutOfRange);
            }
            if self.is_degenerate(anchor) {
                return Err(PostProcessError::DegenerateGeometry);
            }
            let face = self.face_at(anchor);
            proof {
                assert(faces_model(faces@.push(face)) =~= faces_model(faces@).push(face@));
            }
            faces.push(face);
            k = k + 1;
        }
        Ok(faces)
    }
    /// Tells whether place `p` of `candidates` is selected no later than place `q`.
    fn is_selected_first(&self, candidates: &Vec<usize>, p: usize, q: usize) -> (r: bool)
        requires
            p < candidates@.len(),
            q < candidates@.len(),
            candidates@[p as int] < self@.len(),
            candidates@[q as int] < self@.len(),
        ensures
            r == self@.selected_first(candidates@, p, q),
    {
        let score_p: i64 = signed_magnitude(self.scores[candidates[p]]);
        let score_q: i64 = signed_magnitude(self.scores[candidates[q]]);
        score_p > score_q || (score_p == score_q && p <= q)
    }

    /// Puts what suppression kept into selection order: by falling
    /// confidence, and among equal confidences by rising place in
    /// `candidates`. The result holds the entries of `keep`, each as often as
    /// `keep` does. The list is refused where an entry is no place in
    /// `candidates`, or stands for no anchor of the image.
    pub fn selection_order(&self, candidates: &Vec<usize>, keep: &Vec<usize>) -> (out: Result<
        Vec<usize>,
        PostProcessError,
    >)
        ensures
            out is Ok <==> self@.in_range(candidates@, keep@),
            out matches Ok(ordered) ==> {
                &&& ordered@.to_multiset() == keep@.to_multiset()
                &&& self@.in_range(candidates@, ordered@)
                &&& self@.in_selection_order(candidates@, ordered@)
            },
            out matches Err(e) ==> e == PostProcessError::IndexOutOfRange,
    {
        let n: usize = self.len();
        let mut ordered: Vec<usize> = Vec::new();
        let mut k: usize = 0;
        assert(keep@.take(0) =~= Seq::<usize>::empty());
        while k < keep.len()
            invariant
                n == self@.len(),
                k <= keep.len(),
                self@.in_range(candidates@, keep@.take(k as int)),
                self@.in_range(candidates@, ordered@),
                self@.in_selection_order(candidates@, ordered@),
                ordered@.to_multiset() == keep@.take(k as int).to_multiset(),
            decreases keep.len() - k,
        {
            let place: usize = keep[k];
            if place >= candidates.len() || candidates[place] >= n {
                return Err(PostProcessError::IndexOutOfRange);
            }
            let mut at: usize = 0;
            while at < ordered.len() && self.is_selected_first(candidates, ordered[at], place)
                invariant
                    at <= ordered.len(),
                    place < candidates@.len(),
                    candidates@[place as int] < self@.len(),
                    self@.in_range(candidates@, ordered@),
                    forall|i: int|
                        0 <= i < at ==> self@.selected_first(candidates@, #[trigger] ordered@[i], place),
                decreases ordered.len() - at,
            {
                at = at + 1;
            }
            proof {
                let before = ordered@;
                let after = before.insert(at as int, place);
                assert forall|i: int, j: int| 0 <= i < j < after.len() implies self@.selected_first(
                    candidates@,
                    #[trigger] after[i],
                    #[trigger] after[j],
                ) by {
                    if j < at {
                        assert(after[i] == before[i] && after[j] == before[j]);
                    } else if j == at {
                        assert(after[i] == before[i]);
                    } else if i < at {
                        assert(after[i] == before[i] && after[j] == before[j - 1]);
                    } else if i == at {
                        assert(after[j] == before[j - 1]);
                        assert(!self@.selected_first(candidates@, before[at as int], place));
                        if j - 1 > at {
                            assert(self@.selected_first(
                                candidates@,
                                before[at as int],
                                before[j - 1],
                            ));
                        }
                    } else {
                        assert(after[i] == before[i - 1] && after[j] == before[j - 1]);
                    }
                }
                assert forall|i: int| 0 <= i < after.len() implies (#[trigger] after[i])
                    < candidates@.len() && candidates@[after[i] as int] < self@.len() by {
                    if i < at {
                        assert(after[i] == before[i]);
                    } else if i > at {
                        assert(after[i] == before[i - 1]);
                    }
                }
                assert(keep@.take(k + 1) =~= keep@.take(k as int).push(place));
                vstd::seq_lib::to_multiset_build(keep@.take(k as int), place);
                vstd::seq_lib::to_multiset_insert(before, at as int, place);
                assert(after.to_multiset() =~= keep@.take(k + 1).to_multiset());
                assert forall|i: int| 0 <= i < k + 1 implies (#[trigger] keep@.take(k + 1)[i])
                    < candidates@.len() && candidates@[keep@.take(k + 1)[i] as int]
                    < self@.len() by {
                    if i < k {
                        assert(keep@.take(k + 1)[i] == keep@.take(k as int)[i]);
                    }
                }
            }
            ordered.insert(at, place);
            k = k + 1;
        }
        assert(keep@.take(k as int) =~= keep@);
        Ok(ordered)
    }
    /// What suppression works on: the boxes and the confidences of the
    /// candidates, in the order of the candidates, so that place `k` of
    /// either list belongs to `candidates[k]`. The list of candidates is
    /// refused where one of them is no anchor of the image.
    pub fn suppression_input(&self, candidates: &Vec<usize>) -> (out: Result<
        (Vec<[u32; 4]>, Vec<u32>),
        PostProcessError,
    >)
        ensures
            out is Ok <==> self@.holds_all(candidates@),
            out matches Ok(input) ==> {
                &&& input.0.deep_view() == self@.selected_boxes(candidates@)
                &&& input.1@ == self@.selected_scores(candidates@)
            },
            out matches Err(e) ==> e == PostProcessError::IndexOutOfRange,
    {
        let n: usize = self.len();
        proof {
            use_type_invariant(self);
        }
        let mut boxes: Vec<[u32; 4]> = Vec::new();
        let mut scores: Vec<u32> = Vec::new();
        let mut k: usize = 0;
        while k < candidates.len()
            invariant
                n == self@.len(),
                n == self.boxes.len(),
                n == self.scores.len(),
                k <= candidates.len(),
                boxes.len() == k,
                scores.len() == k,
                forall|j: int| 0 <= j < k ==> (#[trigger] candidates@[j]) < n,
                forall|j: int|
                    0 <= j < k ==> (#[trigger] boxes@[j])@ == self@.boxes[candidates@[j] as int],
                forall|j: int|
                    0 <= j < k ==> #[trigger] scores@[j] == self@.scores[candidates@[j] as int],
            decreases candidates.len() - k,
        {
            let anchor: usize = candidates[k];
            if anchor >= n {
                return Err(PostProcessError::IndexOutOfRange);
            }
            let b: [u32; 4] = self.boxes[anchor];
            assert(self@.boxes[anchor as int] == b@);
            boxes.push(b);
            scores.push(self.scores[anchor]);
            k = k + 1;
        }
        proof {
            assert(boxes.deep_view() =~~= self@.selected_boxes(candidates@));
            assert(scores@ =~= self@.selected_scores(candidates@));
        }
        Ok((boxes, scores))
    }
}

} // verus!
