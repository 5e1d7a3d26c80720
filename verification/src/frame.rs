//! The portable data model of a rendered scene.
//!
//! A [`Frame`] is one scene snapshot: an ordered list of draw items (a clip
//! rectangle plus a shape) and a platform-output record. Geometry is carried
//! in fixed-point integer coordinates so that every field is a plain value
//! the codec can serialize, hash and compare exactly. A text run travels as
//! its portable layout description ([`TextJob`]); the realized glyph layout
//! is a local resource that never crosses the wire and is re-derived on the
//! viewer (see the decoder).

use vstd::prelude::*;

verus! {

/// An axis-aligned rectangle in fixed-point coordinates.
#[derive(Clone, Copy, PartialEq, Eq, Structural, Debug)]
pub struct Rect {
    pub min_x: i32,
    pub min_y: i32,
    pub max_x: i32,
    pub max_y: i32,
}

/// A point in fixed-point coordinates.
#[derive(Clone, Copy, PartialEq, Eq, Structural, Debug)]
pub struct Point {
    pub x: i32,
    pub y: i32,
}

/// The portable description of a text layout request: the text itself plus
/// the style and wrap constraints. Two equal jobs must realize to the same
/// layout on one viewer, which is what lets the layout cache reuse results.
#[derive(Debug, PartialEq, Eq)]
pub struct TextJob {
    pub text: Vec<u8>,
    pub style: u32,
    pub wrap_width: u32,
}

/// Spec-level value of a [`TextJob`].
#[verifier::ext_equal]
pub ghost struct TextJobView {
    pub text: Seq<u8>,
    pub style: u32,
    pub wrap_width: u32,
}

impl View for TextJob {
    type V = TextJobView;

    open spec fn view(&self) -> TextJobView {
        TextJobView { text: self.text@, style: self.style, wrap_width: self.wrap_width }
    }
}

/// One shape variant of a draw item.
#[derive(Debug, PartialEq, Eq)]
pub enum ShapeData {
    /// A filled path through the given points.
    Path { points: Vec<Point>, color: u32 },
    /// A text run, carried as its portable layout description.
    Text(TextJob),
    /// An image, as a texture id plus the sampled region.
    Image { texture: u64, uv: Rect },
}

/// Spec-level value of a [`ShapeData`].
#[verifier::ext_equal]
pub ghost enum ShapeView {
    Path { points: Seq<Point>, color: u32 },
    Text(TextJobView),
    Image { texture: u64, uv: Rect },
}

impl View for ShapeData {
    type V = ShapeView;

    open spec fn view(&self) -> ShapeView {
        match self {
            ShapeData::Path { points, color } => ShapeView::Path {
                points: points@,
                color: *color,
            },
            ShapeData::Text(job) => ShapeView::Text(job@),
            ShapeData::Image { texture, uv } => ShapeView::Image { texture: *texture, uv: *uv },
        }
    }
}

/// One draw item: a clip rectangle plus a shape. The item's position in the
/// frame's list is its paint order.
#[derive(Debug, PartialEq, Eq)]
pub struct DrawItem {
    pub clip: Rect,
    pub shape: ShapeData,
}

/// Spec-level value of a [`DrawItem`].
#[verifier::ext_equal]
pub ghost struct ItemView {
    pub clip: Rect,
    pub shape: ShapeView,
}

impl View for DrawItem {
    type V = ItemView;

    open spec fn view(&self) -> ItemView {
        ItemView { clip: self.clip, shape: self.shape@ }
    }
}

/// The per-frame platform-output record: clipboard text, the requested
/// cursor icon and any URL-open request. It travels inline in every update
/// and is never deduplicated.
#[derive(Debug, PartialEq, Eq)]
pub struct PlatformOutput {
    pub cursor_icon: u32,
    pub copied_text: Vec<u8>,
    pub open_url: Option<Vec<u8>>,
}

/// Spec-level value of a [`PlatformOutput`].
#[verifier::ext_equal]
pub ghost struct PlatformView {
    pub cursor_icon: u32,
    pub copied_text: Seq<u8>,
    pub open_url: Option<Seq<u8>>,
}

impl View for PlatformOutput {
    type V = PlatformView;

    open spec fn view(&self) -> PlatformView {
        PlatformView {
            cursor_icon: self.cursor_icon,
            copied_text: self.copied_text@,
            open_url: match &self.open_url {
                Some(url) => Some(url@),
                None => None,
            },
        }
    }
}

impl PlatformOutput {
    /// An empty platform-output record.
    pub fn new() -> (r: PlatformOutput)
        ensures
            r@ == (PlatformView { cursor_icon: 0, copied_text: Seq::<u8>::empty(), open_url: None }),
    {
        let r = PlatformOutput { cursor_icon: 0, copied_text: Vec::new(), open_url: None };
        proof {
            assert(r@ =~= PlatformView {
                cursor_icon: 0,
                copied_text: Seq::<u8>::empty(),
                open_url: None,
            });
        }
        r
    }
}

/// One scene snapshot: the ordered draw items plus the platform output.
#[derive(Debug, PartialEq, Eq)]
pub struct Frame {
    pub items: Vec<DrawItem>,
    pub platform: PlatformOutput,
}

/// Spec-level value of a [`Frame`].
#[verifier::ext_equal]
pub ghost struct FrameView {
    pub items: Seq<ItemView>,
    pub platform: PlatformView,
}

/// The spec-level values of a list of draw items, in order.
pub open spec fn items_view(s: Seq<DrawItem>) -> Seq<ItemView> {
    Seq::new(s.len(), |i: int| s[i]@)
}

impl View for Frame {
    type V = FrameView;

    open spec fn view(&self) -> FrameView {
        FrameView { items: items_view(self.items@), platform: self.platform@ }
    }
}

/// Byte-for-byte duplicate of a byte vector.
pub fn dup_bytes(v: &Vec<u8>) -> (r: Vec<u8>)
    ensures
        r@ == v@,
{
    let mut out: Vec<u8> = Vec::new();
    let mut i: usize = 0;
    while i < v.len()
        invariant
            i <= v.len(),
            out@ == v@.subrange(0, i as int),
        decreases v.len() - i,
    {
        out.push(v[i]);
        i += 1;
        proof {
            assert(out@ =~= v@.subrange(0, i as int));
        }
    }
    proof {
        assert(v@.subrange(0, v@.len() as int) =~= v@);
    }
    out
}

/// Element-for-element duplicate of a point list.
pub fn dup_points(v: &Vec<Point>) -> (r: Vec<Point>)
    ensures
        r@ == v@,
{
    let mut out: Vec<Point> = Vec::new();
    let mut i: usize = 0;
    while i < v.len()
        invariant
            i <= v.len(),
            out@ == v@.subrange(0, i as int),
        decreases v.len() - i,
    {
        out.push(v[i]);
        i += 1;
        proof {
            assert(out@ =~= v@.subrange(0, i as int));
        }
    }
    proof {
        assert(v@.subrange(0, v@.len() as int) =~= v@);
    }
    out
}

impl TextJob {
    /// A duplicate with the same spec-level value.
    pub fn dup(&self) -> (r: TextJob)
        ensures
            r@ == self@,
    {
        let r = TextJob {
            text: dup_bytes(&self.text),
            style: self.style,
            wrap_width: self.wrap_width,
        };
        proof {
            assert(r@ =~= self@);
        }
        r
    }
}

impl ShapeData {
    /// A duplicate with the same spec-level value.
    pub fn dup(&self) -> (r: ShapeData)
        ensures
            r@ == self@,
    {
        match self {
            ShapeData::Path { points, color } => {
                let r = ShapeData::Path { points: dup_points(points), color: *color };
                proof {
                    assert(r@ =~= self@);
                }
                r
            }
            ShapeData::Text(job) => ShapeData::Text(job.dup()),
            ShapeData::Image { texture, uv } => ShapeData::Image { texture: *texture, uv: *uv },
        }
    }
}

impl DrawItem {
    /// A duplicate with the same spec-level value.
    pub fn dup(&self) -> (r: DrawItem)
        ensures
            r@ == self@,
    {
        let r = DrawItem { clip: self.clip, shape: self.shape.dup() };
        proof {
            assert(r@ =~= self@);
        }
        r
    }
}

impl PlatformOutput {
    /// A duplicate with the same spec-level value.
    pub fn dup(&self) -> (r: PlatformOutput)
        ensures
            r@ == self@,
    {
        let open_url = match &self.open_url {
            Some(url) => Some(dup_bytes(url)),
            None => None,
        };
        let r = PlatformOutput {
            cursor_icon: self.cursor_icon,
            copied_text: dup_bytes(&self.copied_text),
            open_url,
        };
        proof {
            assert(r@ =~= self@);
        }
        r
    }
}

/// Whether two byte vectors hold the same bytes.
pub fn bytes_eq(a: &Vec<u8>, b: &Vec<u8>) -> (r: bool)
    ensures
        r == (a@ == b@),
{
    if a.len() != b.len() {
        proof {
            assert(a@ != b@);
        }
        return false;
    }
    let mut i: usize = 0;
    while i < a.len()
        invariant
            i <= a.len(),
            a@.len() == b@.len(),
            forall|j: int| 0 <= j < i ==> a@[j] == b@[j],
        decreases a.len() - i,
    {
        if a[i] != b[i] {
            return false;
        }
        i += 1;
    }
    proof {
        assert(a@ =~= b@);
    }
    true
}

/// Whether two point lists hold the same points.
pub fn points_eq(a: &Vec<Point>, b: &Vec<Point>) -> (r: bool)
    ensures
        r == (a@ == b@),
{
    if a.len() != b.len() {
        proof {
            assert(a@ != b@);
        }
        return false;
    }
    let mut i: usize = 0;
    while i < a.len()
        invariant
            i <= a.len(),
            a@.len() == b@.len(),
            forall|j: int| 0 <= j < i ==> a@[j] == b@[j],
        decreases a.len() - i,
    {
        if a[i] != b[i] {
            return false;
        }
        i += 1;
    }
    proof {
        assert(a@ =~= b@);
    }
    true
}

/// Whether two text jobs describe the same layout request.
pub fn job_eq(a: &TextJob, b: &TextJob) -> (r: bool)
    ensures
        r == (a@ == b@),
{
    let r = bytes_eq(&a.text, &b.text) && a.style == b.style && a.wrap_width == b.wrap_width;
    proof {
        if r {
            assert(a@ =~= b@);
        }
    }
    r
}

/// Whether two shapes hold the same content.
pub fn shape_eq(a: &ShapeData, b: &ShapeData) -> (r: bool)
    ensures
        r == (a@ == b@),
{
    match (a, b) {
        (
            ShapeData::Path { points: pa, color: ca },
            ShapeData::Path { points: pb, color: cb },
        ) => {
            let r = points_eq(pa, pb) && ca == cb;
            proof {
                if r {
                    assert(a@ =~= b@);
                }
            }
            r
        },
        (ShapeData::Text(ja), ShapeData::Text(jb)) => job_eq(ja, jb),
        (
            ShapeData::Image { texture: ta, uv: ua },
            ShapeData::Image { texture: tb, uv: ub },
        ) => {
            let r = ta == tb && ua == ub;
            proof {
                if r {
                    assert(a@ =~= b@);
                }
            }
            r
        },
        _ => {
            proof {
                assert(a@ != b@);
            }
            false
        },
    }
}

/// Whether two draw items hold the same content.
pub fn item_eq(a: &DrawItem, b: &DrawItem) -> (r: bool)
    ensures
        r == (a@ == b@),
{
    let r = a.clip == b.clip && shape_eq(&a.shape, &b.shape);
    proof {
        if r {
            assert(a@ =~= b@);
        }
    }
    r
}

impl Frame {
    /// A duplicate with the same spec-level value.
    pub fn dup(&self) -> (r: Frame)
        ensures
            r@ == self@,
    {
        let mut items: Vec<DrawItem> = Vec::new();
        let mut i: usize = 0;
        while i < self.items.len()
            invariant
                i <= self.items.len(),
                items@.len() == i,
                forall|j: int| 0 <= j < i ==> items@[j]@ == self.items@[j]@,
            decreases self.items.len() - i,
        {
            items.push(self.items[i].dup());
            i += 1;
        }
        let r = Frame { items, platform: self.platform.dup() };
        proof {
            assert(r@.items =~= self@.items);
            assert(r@ =~= self@);
        }
        r
    }
}


/// A draw shape as the viewer displays it: like [`ShapeData`], but a text
/// run additionally carries the locally realized layout, of a type `G` the
/// embedding chooses (a handle to a glyph layout). Realized layouts never
/// cross the wire; the decoder rebuilds them from the portable description.
#[derive(Debug, PartialEq, Eq)]
pub enum DisplayShape<G> {
    Path { points: Vec<Point>, color: u32 },
    Text { job: TextJob, galley: G },
    Image { texture: u64, uv: Rect },
}

/// Spec-level value of a [`DisplayShape`].
#[verifier::ext_equal]
pub ghost enum DisplayShapeView<G> {
    Path { points: Seq<Point>, color: u32 },
    Text { job: TextJobView, galley: G },
    Image { texture: u64, uv: Rect },
}

impl<G> View for DisplayShape<G> {
    type V = DisplayShapeView<G>;

    open spec fn view(&self) -> DisplayShapeView<G> {
        match self {
            DisplayShape::Path { points, color } => DisplayShapeView::Path {
                points: points@,
                color: *color,
            },
            DisplayShape::Text { job, galley } => DisplayShapeView::Text {
                job: job@,
                galley: *galley,
            },
            DisplayShape::Image { texture, uv } => DisplayShapeView::Image {
                texture: *texture,
                uv: *uv,
            },
        }
    }
}

/// A displayable draw item: clip rectangle plus display shape.
#[derive(Debug, PartialEq, Eq)]
pub struct DisplayItem<G> {
    pub clip: Rect,
    pub shape: DisplayShape<G>,
}

/// Spec-level value of a [`DisplayItem`].
#[verifier::ext_equal]
pub ghost struct DisplayItemView<G> {
    pub clip: Rect,
    pub shape: DisplayShapeView<G>,
}

impl<G> View for DisplayItem<G> {
    type V = DisplayItemView<G>;

    open spec fn view(&self) -> DisplayItemView<G> {
        DisplayItemView { clip: self.clip, shape: self.shape@ }
    }
}

/// A displayable frame: what the decoder hands the embedding renderer.
#[derive(Debug, PartialEq, Eq)]
pub struct DisplayFrame<G> {
    pub items: Vec<DisplayItem<G>>,
    pub platform: PlatformOutput,
}

/// Spec-level value of a [`DisplayFrame`].
#[verifier::ext_equal]
pub ghost struct DisplayFrameView<G> {
    pub items: Seq<DisplayItemView<G>>,
    pub platform: PlatformView,
}

/// The spec-level values of a list of display items, in order.
pub open spec fn display_items_view<G>(s: Seq<DisplayItem<G>>) -> Seq<DisplayItemView<G>> {
    Seq::new(s.len(), |i: int| s[i]@)
}

impl<G> View for DisplayFrame<G> {
    type V = DisplayFrameView<G>;

    open spec fn view(&self) -> DisplayFrameView<G> {
        DisplayFrameView { items: display_items_view(self.items@), platform: self.platform@ }
    }
}

/// The portable content of a display shape: the shape with its realized
/// layout forgotten.
pub open spec fn portable_shape<G>(s: DisplayShapeView<G>) -> ShapeView {
    match s {
        DisplayShapeView::Path { points, color } => ShapeView::Path { points, color },
        DisplayShapeView::Text { job, galley } => ShapeView::Text(job),
        DisplayShapeView::Image { texture, uv } => ShapeView::Image { texture, uv },
    }
}

/// The portable content of a display item.
pub open spec fn portable_item<G>(it: DisplayItemView<G>) -> ItemView {
    ItemView { clip: it.clip, shape: portable_shape(it.shape) }
}

/// The portable contents of a list of display items, in order.
pub open spec fn portable_items<G>(s: Seq<DisplayItemView<G>>) -> Seq<ItemView> {
    Seq::new(s.len(), |i: int| portable_item(s[i]))
}

/// The portable content of a display frame.
pub open spec fn portable_frame<G>(f: DisplayFrameView<G>) -> FrameView {
    FrameView { items: portable_items(f.items), platform: f.platform }
}

/// A duplicate of a display item with the same spec-level value. The
/// realized layout handle is copied.
pub fn dup_display_item<G: Copy>(it: &DisplayItem<G>) -> (r: DisplayItem<G>)
    ensures
        r@ == it@,
{
    let shape = match &it.shape {
        DisplayShape::Path { points, color } => DisplayShape::Path {
            points: dup_points(points),
            color: *color,
        },
        DisplayShape::Text { job, galley } => DisplayShape::Text { job: job.dup(), galley: *galley },
        DisplayShape::Image { texture, uv } => DisplayShape::Image { texture: *texture, uv: *uv },
    };
    let r = DisplayItem { clip: it.clip, shape };
    proof {
        assert(r@ =~= it@);
    }
    r
}

/// A duplicate of a display frame with the same spec-level value.
pub fn dup_display_frame<G: Copy>(f: &DisplayFrame<G>) -> (r: DisplayFrame<G>)
    ensures
        r@ == f@,
{
    let mut items: Vec<DisplayItem<G>> = Vec::new();
    let mut i: usize = 0;
    while i < f.items.len()
        invariant
            i <= f.items.len(),
            items@.len() == i,
            forall|j: int| 0 <= j < i ==> items@[j]@ == f.items@[j]@,
        decreases f.items.len() - i,
    {
        items.push(dup_display_item(&f.items[i]));
        i += 1;
    }
    let r = DisplayFrame { items, platform: f.platform.dup() };
    proof {
        assert(r@.items =~= f@.items);
        assert(r@ =~= f@);
    }
    r
}

} // verus!
