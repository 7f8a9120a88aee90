//! The raw tensors: a checked view of a buffer shaped
//! `(batch_size, anchor_count, channel_width)`, row-major.

use vstd::prelude::*;
use vstd::slice::slice_subrange;
use crate::error::PostProcessError;

verus! {

/// Values per anchor of the landmark tensor.
pub const LANDMARK_WIDTH: usize = 10;

/// Values per anchor of the confidence tensor.
pub const CONFIDENCE_WIDTH: usize = 2;

/// Values per anchor of the box tensor.
pub const BOX_WIDTH: usize = 4;

/// The number of values of a tensor of the given shape.
pub open spec fn volume(batch: int, anchors: int, width: int) -> int {
    batch * anchors * width
}

/// The place of channel `c` of anchor `a` of image `b` in the buffer.
pub open spec fn offset_of(anchors: int, width: int, b: int, a: int, c: int) -> int {
    (b * anchors + a) * width + c
}

/// The number of values of a tensor of the given shape, where a `usize`
/// can hold it.
pub fn expected_len(batch: usize, anchors: usize, width: usize) -> (len: Option<usize>)
    ensures
        match len {
            Some(n) => n == volume(batch as int, anchors as int, width as int),
            None => volume(batch as int, anchors as int, width as int) > usize::MAX,
        },
{
    if batch == 0 || anchors == 0 || width == 0 {
        proof {
            assert(batch * anchors * width == 0) by (nonlinear_arith)
                requires
                    batch == 0 || anchors == 0 || width == 0,
            ;
        }
        return Some(0);
    }
    match batch.checked_mul(anchors) {
        None => {
            proof {
                assert(batch * anchors * width >= batch * anchors) by (nonlinear_arith)
                    requires
                        batch > 0,
                        anchors > 0,
                        width > 0,
                ;
            }
            None
        },
        Some(rows) => rows.checked_mul(width),
    }
}

/// The mathematical model of a tensor: its values and its shape.
#[verifier::ext_equal]
pub struct TensorModel<T> {
    pub values: Seq<T>,
    pub batch: nat,
    pub anchors: nat,
    pub width: nat,
}

impl<T> TensorModel<T> {
    /// The buffer holds one value per place of the shape.
    pub open spec fn wf(self) -> bool {
        self.values.len() == volume(self.batch as int, self.anchors as int, self.width as int)
    }

    /// The values of image `b`: its anchors one after another.
    pub open spec fn image(self, b: int) -> Seq<T> {
        self.values.subrange(
            offset_of(self.anchors as int, self.width as int, b, 0, 0),
            offset_of(self.anchors as int, self.width as int, b + 1, 0, 0),
        )
    }

    /// The values of anchor `a` of image `b`.
    pub open spec fn row(self, b: int, a: int) -> Seq<T> {
        self.values.subrange(
            offset_of(self.anchors as int, self.width as int, b, a, 0),
            offset_of(self.anchors as int, self.width as int, b, a + 1, 0),
        )
    }
}

/// The places of a shape lie in its buffer, image after image and anchor
/// after anchor.
pub proof fn lemma_offsets(batch: int, anchors: int, width: int, b: int, a: int)
    requires
        0 <= b < batch,
        0 <= a < anchors,
        0 <= width,
    ensures
        0 <= offset_of(anchors, width, b, 0, 0) <= offset_of(anchors, width, b, a, 0),
        offset_of(anchors, width, b, a, 0) + width == offset_of(anchors, width, b, a + 1, 0),
        offset_of(anchors, width, b, a + 1, 0) <= offset_of(anchors, width, b + 1, 0, 0),
        offset_of(anchors, width, b + 1, 0, 0) <= volume(batch, anchors, width),
        offset_of(anchors, width, b, 0, 0) + anchors * width == offset_of(
            anchors,
            width,
            b + 1,
            0,
            0,
        ),
{
    assert(0 <= b * anchors) by (nonlinear_arith)
        requires
            0 <= b,
            0 <= anchors,
    ;
    assert(0 <= (b * anchors) * width <= (b * anchors + a) * width) by (nonlinear_arith)
        requires
            0 <= b * anchors,
            0 <= a,
            0 <= width,
    ;
    assert((b * anchors + a) * width + width == (b * anchors + (a + 1)) * width)
        by (nonlinear_arith);
    assert((b * anchors + (a + 1)) * width <= ((b + 1) * anchors) * width) by (nonlinear_arith)
        requires
            a + 1 <= anchors,
            0 <= width,
    ;
    assert(((b + 1) * anchors) * width <= batch * anchors * width) by (nonlinear_arith)
        requires
            0 <= b + 1 <= batch,
            0 <= anchors,
            0 <= width,
    ;
    assert((b * anchors) * width + anchors * width == ((b + 1) * anchors) * width)
        by (nonlinear_arith);
}

/// A read-only view of a buffer that was checked against its shape.
pub struct TensorView<'a, T> {
    data: &'a [T],
    batch: usize,
    anchors: usize,
    width: usize,
}

impl<'a, T> View for TensorView<'a, T> {
    type V = TensorModel<T>;

    closed spec fn view(&self) -> TensorModel<T> {
        TensorModel {
            values: self.data@,
            batch: self.batch as nat,
            anchors: self.anchors as nat,
            width: self.width as nat,
        }
    }
}

impl<'a, T> TensorView<'a, T> {
    #[verifier::type_invariant]
    spec fn fits(self) -> bool {
        self.data@.len() == volume(self.batch as int, self.anchors as int, self.width as int)
    }

    /// A view of `data` as a tensor of `batch` images, `anchors` anchors per
    /// image and `width` values per anchor. The buffer is refused unless it
    /// holds exactly `batch * anchors * width` values.
    pub fn new(data: &'a [T], batch: usize, anchors: usize, width: usize) -> (made: Result<
        TensorView<'a, T>,
        PostProcessError,
    >)
        ensures
            made is Ok <==> data@.len() == volume(batch as int, anchors as int, width as int),
            made matches Ok(view) ==> {
                &&& view@.wf()
                &&& view@.values == data@
                &&& view@.batch == batch
                &&& view@.anchors == anchors
                &&& view@.width == width
            },
            made matches Err(e) ==> e == PostProcessError::BufferSizeMismatch,
    {
        let len: usize = data.len();
        match expected_len(batch, anchors, width) {
            Some(n) => {
                if len == n {
                    Ok(TensorView { data, batch, anchors, width })
                } else {
                    Err(PostProcessError::BufferSizeMismatch)
                }
            },
            None => Err(PostProcessError::BufferSizeMismatch),
        }
    }

    /// The number of images.
    pub fn batch_size(&self) -> (n: usize)
        ensures
            n == self@.batch,
            self@.wf(),
    {
        proof {
            use_type_invariant(self);
        }
        self.batch
    }

    /// The number of anchors per image.
    pub fn anchor_count(&self) -> (n: usize)
        ensures
            n == self@.anchors,
            self@.wf(),
    {
        proof {
            use_type_invariant(self);
        }
        self.anchors
    }

    /// The number of values per anchor.
    pub fn channel_width(&self) -> (n: usize)
        ensures
            n == self@.width,
            self@.wf(),
    {
        proof {
            use_type_invariant(self);
        }
        self.width
    }

    /// The values of image `b`, if the tensor has such an image.
    pub fn image(&self, b: usize) -> (out: Option<&'a [T]>)
        ensures
            out is Some <==> b < self@.batch,
            out matches Some(values) ==> values@ == self@.image(b as int),
    {
        proof {
            use_type_invariant(self);
        }
        let total: usize = self.data.len();
        if b >= self.batch {
            return None;
        }
        if self.anchors == 0 {
            proof {
                assert(offset_of(0, self.width as int, b as int, 0, 0) == 0) by (nonlinear_arith);
                assert(offset_of(0, self.width as int, b + 1, 0, 0) == 0) by (nonlinear_arith);
            }
            return Some(slice_subrange(self.data, 0, 0));
        }
        proof {
            lemma_offsets(self.batch as int, self.anchors as int, self.width as int, b as int, 0);
            let per = self.anchors * self.width;
            assert(0 <= per) by (nonlinear_arith)
                requires
                    per == self.anchors * self.width,
                    0 <= self.anchors,
                    0 <= self.width,
            ;
            assert(b * per == (b * self.anchors + 0) * self.width + 0) by (nonlinear_arith)
                requires
                    per == self.anchors * self.width,
            ;
            assert(0 <= b * per && per <= b * per + per) by (nonlinear_arith)
                requires
                    0 <= b,
                    0 <= per,
            ;
            assert(b * per + per == ((b + 1) * self.anchors + 0) * self.width + 0)
                by (nonlinear_arith)
                requires
                    per == self.anchors * self.width,
            ;
            assert(b * per + per <= total);
        }
        let per_image: usize = self.anchors * self.width;
        let start: usize = b * per_image;
        Some(slice_subrange(self.data, start, start + per_image))
    }

    /// The values of anchor `a` of image `b`, if the tensor has such an anchor.
    pub fn row(&self, b: usize, a: usize) -> (out: Option<&'a [T]>)
        ensures
            out is Some <==> b < self@.batch && a < self@.anchors,
            out matches Some(values) ==> values@ == self@.row(b as int, a as int),
            out matches Some(values) ==> values@.len() == self@.width,
    {
        proof {
            use_type_invariant(self);
        }
        let total: usize = self.data.len();
        if b >= self.batch || a >= self.anchors {
            return None;
        }
        proof {
            lemma_offsets(
                self.batch as int,
                self.anchors as int,
                self.width as int,
                b as int,
                a as int,
            );
            assert(0 <= b * self.anchors <= b * self.anchors + a) by (nonlinear_arith)
                requires
                    0 <= b,
                    0 <= a,
                    0 <= self.anchors,
            ;
            if self.width > 0 {
                assert(b * self.anchors + a <= (b * self.anchors + a) * self.width)
                    by (nonlinear_arith)
                    requires
                        0 <= b * self.anchors + a,
                        self.width >= 1,
                ;
            }
        }
        if self.width == 0 {
            proof {
                assert(offset_of(self.anchors as int, 0, b as int, a as int, 0) == 0)
                    by (nonlinear_arith);
            }
            return Some(slice_subrange(self.data, 0, 0));
        }
        proof {
            assert((b * self.anchors + a) * self.width + self.width <= total);
            assert(b * self.anchors + a <= (b * self.anchors + a) * self.width);
        }
        let index: usize = b * self.anchors + a;
        let start: usize = index * self.width;
        Some(slice_subrange(self.data, start, start + self.width))
    }
}

/// The three tensors of a call: landmark offsets, class confidences and box
/// offsets, for the same images and the same anchors.
pub struct RawOutputs<'a, T> {
    pub landmarks: TensorView<'a, T>,
    pub confidence: TensorView<'a, T>,
    pub boxes: TensorView<'a, T>,
}

impl<'a, T> RawOutputs<'a, T> {
    /// The three tensors have the widths 10, 2 and 4, and one number of
    /// images and one number of anchors.
    pub open spec fn wf(self) -> bool {
        &&& self.landmarks@.wf()
        &&& self.confidence@.wf()
        &&& self.boxes@.wf()
        &&& self.landmarks@.width == LANDMARK_WIDTH
        &&& self.confidence@.width == CONFIDENCE_WIDTH
        &&& self.boxes@.width == BOX_WIDTH
        &&& self.landmarks@.batch == self.boxes@.batch
        &&& self.confidence@.batch == self.boxes@.batch
        &&& self.landmarks@.anchors == self.boxes@.anchors
        &&& self.confidence@.anchors == self.boxes@.anchors
    }

    /// Checks the three buffers of a call against `batch` images of
    /// `anchors` anchors. They are refused unless the landmark buffer holds
    /// `batch * anchors * 10` values, the confidence buffer `batch * anchors
    /// * 2` and the box buffer `batch * anchors * 4`.
    pub fn new(
        landmarks: &'a [T],
        confidence: &'a [T],
        boxes: &'a [T],
        batch: usize,
        anchors: usize,
    ) -> (made: Result<RawOutputs<'a, T>, PostProcessError>)
        ensures
            made is Ok <==> {
                &&& landmarks@.len() == volume(batch as int, anchors as int, LANDMARK_WIDTH as int)
                &&& confidence@.len() == volume(
                    batch as int,
                    anchors as int,
                    CONFIDENCE_WIDTH as int,
                )
                &&& boxes@.len() == volume(batch as int, anchors as int, BOX_WIDTH as int)
            },
            made matches Ok(raw) ==> {
                &&& raw.wf()
                &&& raw.landmarks@.values == landmarks@
                &&& raw.confidence@.values == confidence@
                &&& raw.boxes@.values == boxes@
                &&& raw.boxes@.batch == batch
                &&& raw.boxes@.anchors == anchors
            },
            made matches Err(e) ==> e == PostProcessError::BufferSizeMismatch,
    {
        let landmarks = match TensorView::new(landmarks, batch, anchors, LANDMARK_WIDTH) {
            Ok(view) => view,
            Err(e) => {
                return Err(e);
            },
        };
        let confidence = match TensorView::new(confidence, batch, anchors, CONFIDENCE_WIDTH) {
            Ok(view) => view,
            Err(e) => {
                return Err(e);
            },
        };
        let boxes = match TensorView::new(boxes, batch, anchors, BOX_WIDTH) {
            Ok(view) => view,
            Err(e) => {
                return Err(e);
            },
        };
        Ok(RawOutputs { landmarks, confidence, boxes })
    }
}

/// Checks the arity of a call: exactly three tensor handles, in the order
/// landmarks, confidences, boxes, and an image size of exactly two numbers,
/// height and width. Hands both back as arrays.
pub fn check_call_shape(handles: &Vec<usize>, image_size: &Vec<usize>) -> (out: Result<
    ([usize; 3], [usize; 2]),
    PostProcessError,
>)
    ensures
        out is Ok <==> handles@.len() == 3 && image_size@.len() == 2,
        out matches Ok(pair) ==> pair.0@ == handles@ && pair.1@ == image_size@,
        out matches Err(e) ==> e == PostProcessError::InvalidInputShape,
{
    if handles.len() != 3 || image_size.len() != 2 {
        return Err(PostProcessError::InvalidInputShape);
    }
    let h: [usize; 3] = [handles[0], handles[1], handles[2]];
    let s: [usize; 2] = [image_size[0], image_size[1]];
    assert(h@ =~= handles@);
    assert(s@ =~= image_size@);
    Ok((h, s))
}

} // verus!
