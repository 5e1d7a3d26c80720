//! The delta synchronization codec.
//!
//! The host-side [`Encoder`] turns each frame into either a Full Update —
//! the whole frame, which also becomes the new *baseline* — or a Partial
//! Update: the frame's platform output plus one operation per draw item,
//! each either a reference to a position in the baseline or the item
//! inline. Partial updates always reference the baseline, never an earlier
//! partial update, so reference chains cannot compound.
//!
//! An item is looked up in the baseline by its content key (see
//! [`crate::hash_abuse`]); on a key hit the stored item is verified against
//! the new one, so a hash collision can only cost bytes, never correctness.
//!
//! The viewer-side [`Decoder`] reconstructs a displayable frame, resolving
//! references against its own copy of the baseline and rehydrating text
//! runs through the content-addressed layout cache.

use vstd::prelude::*;

use std::collections::HashMap;

use crate::frame::DisplayFrame;
use crate::frame::DisplayItem;
use crate::frame::DisplayItemView;
use crate::frame::DisplayShape;
use crate::frame::DrawItem;
use crate::frame::Frame;
use crate::frame::FrameView;
use crate::frame::ItemView;
use crate::frame::DisplayShapeView;
use crate::frame::ShapeData;
use crate::frame::ShapeView;
use crate::frame::TextJob;
use crate::frame::display_items_view;
use crate::frame::dup_display_frame;
use crate::frame::dup_display_item;
use crate::frame::item_eq;
use crate::frame::items_view;
use crate::frame::portable_frame;
use crate::frame::portable_item;
use crate::frame::portable_items;
use crate::hash_abuse::ContentCache;
use crate::hash_abuse::item_key;
use crate::wire::write_job;

verus! {

broadcast use vstd::std_specs::hash::group_hash_axioms;

/// One update on the wire: a whole frame, or a frame without its shared
/// shapes plus the operations that rebuild them.
#[derive(Debug, PartialEq, Eq)]
pub enum UpdateData {
    /// The whole frame; it becomes the new baseline on both sides.
    FullUpdate(Frame),
    /// A frame carrying only what travels inline every time (platform
    /// output), plus one operation per draw item.
    Partial(Frame, Vec<PartialUpdate>),
}

/// One partial-update operation, in paint order.
#[derive(Debug, PartialEq, Eq)]
pub enum PartialUpdate {
    /// Take the item at this position of the baseline.
    Reference(usize),
    /// Take this item as it stands.
    Shape(DrawItem),
}

/// Spec-level value of a [`PartialUpdate`].
#[verifier::ext_equal]
pub ghost enum PartialView {
    Reference(usize),
    Shape(ItemView),
}

impl View for PartialUpdate {
    type V = PartialView;

    open spec fn view(&self) -> PartialView {
        match self {
            PartialUpdate::Reference(p) => PartialView::Reference(*p),
            PartialUpdate::Shape(it) => PartialView::Shape(it@),
        }
    }
}

/// The spec-level values of an operation list, in order.
pub open spec fn ops_view(s: Seq<PartialUpdate>) -> Seq<PartialView> {
    Seq::new(s.len(), |i: int| s[i]@)
}

/// Spec-level value of an [`UpdateData`].
#[verifier::ext_equal]
pub ghost enum UpdateView {
    FullUpdate(FrameView),
    Partial(FrameView, Seq<PartialView>),
}

impl View for UpdateData {
    type V = UpdateView;

    open spec fn view(&self) -> UpdateView {
        match self {
            UpdateData::FullUpdate(f) => UpdateView::FullUpdate(f@),
            UpdateData::Partial(f, ops) => UpdateView::Partial(f@, ops_view(ops@)),
        }
    }
}

/// The baseline's dictionary: each item's content key, mapped to the
/// position of its last occurrence.
pub open spec fn index_of(items: Seq<ItemView>) -> Map<u64, usize>
    decreases items.len(),
{
    if items.len() == 0 {
        Map::empty()
    } else {
        index_of(items.drop_last()).insert(item_key(items.last()), (items.len() - 1) as usize)
    }
}

/// What the dictionary promises: every entry points into the list, at an
/// item with that key, and every item's key has an entry.
pub proof fn lemma_index_of_props(items: Seq<ItemView>)
    requires
        items.len() <= usize::MAX,
    ensures
        forall|k: u64| #[trigger] index_of(items).contains_key(k) ==> index_of(items)[k]
            < items.len() && item_key(items[index_of(items)[k] as int]) == k,
        forall|i: int| 0 <= i < items.len() ==> index_of(items).contains_key(
            #[trigger] item_key(items[i]),
        ),
    decreases items.len(),
{
    if items.len() > 0 {
        let dl = items.drop_last();
        lemma_index_of_props(dl);
        let idx = index_of(items);
        assert(idx == index_of(dl).insert(item_key(items.last()), (items.len() - 1) as usize));
        assert forall|k: u64| #[trigger] idx.contains_key(k) implies idx[k] < items.len()
            && item_key(items[idx[k] as int]) == k by {
            if k == item_key(items.last()) {
                assert(items[items.len() - 1] == items.last());
            } else {
                assert(index_of(dl).contains_key(k));
                assert(dl[idx[k] as int] == items[idx[k] as int]);
            }
        }
        assert forall|i: int| 0 <= i < items.len() implies idx.contains_key(
            item_key(items[i]),
        ) by {
            if i < items.len() - 1 {
                assert(dl[i] == items[i]);
                assert(index_of(dl).contains_key(item_key(dl[i])));
            }
        }
    }
}

/// The operation the encoder emits for one item against a baseline: a
/// reference when the dictionary holds the item's key and the baseline item
/// there really matches, the item inline otherwise.
pub open spec fn encode_op(b: Seq<ItemView>, it: ItemView) -> PartialView {
    let idx = index_of(b);
    let k = item_key(it);
    if idx.contains_key(k) && idx[k] < b.len() && b[idx[k] as int] == it {
        PartialView::Reference(idx[k])
    } else {
        PartialView::Shape(it)
    }
}

/// The operations the encoder emits for a whole frame, in paint order.
pub open spec fn encode_ops(b: Seq<ItemView>, items: Seq<ItemView>) -> Seq<PartialView> {
    Seq::new(items.len(), |i: int| encode_op(b, items[i]))
}

/// The host-side delta encoder: the baseline with its dictionary, and the
/// tick counter that forces a periodic Full Update.
pub struct Encoder {
    memory: HashMap<u64, usize>,
    baseline: Option<Vec<DrawItem>>,
    /// How many Partial-eligible ticks pass before a Full Update is forced.
    pub interval: usize,
    counter: usize,
}

impl Encoder {
    /// The retained baseline's items, if a Full Update happened yet.
    pub closed spec fn baseline_view(&self) -> Option<Seq<ItemView>> {
        match self.baseline {
            Some(b) => Some(items_view(b@)),
            None => None,
        }
    }

    /// The tick counter's current value.
    pub closed spec fn counter_spec(&self) -> usize {
        self.counter
    }

    /// The configured full-update interval.
    pub closed spec fn interval_spec(&self) -> usize {
        self.interval
    }

    /// Well-formed: the dictionary is exactly the baseline's index.
    pub closed spec fn wf(&self) -> bool {
        match self.baseline {
            Some(b) => self.memory@ == index_of(items_view(b@)),
            None => self.memory@ == Map::<u64, usize>::empty(),
        }
    }

    /// The tick counter's current value, for embeddings that must check
    /// there is room to count another tick.
    pub fn counter(&self) -> (r: usize)
        ensures
            r == self.counter_spec(),
    {
        self.counter
    }

    /// A fresh encoder: no baseline, the default interval, counter at zero.
    pub fn new() -> (r: Encoder)
        ensures
            r.wf(),
            r.baseline_view() is None,
            r.counter_spec() == 0,
            r.interval_spec() == 90,
    {
        Encoder { memory: HashMap::new(), baseline: None, interval: 90, counter: 0 }
    }

    /// Encodes one frame, deciding the mode by policy: Partial when a
    /// baseline exists, except that every `interval` ticks a Full Update is
    /// forced and the counter resets.
    pub fn encode(&mut self, data: &Frame) -> (r: UpdateData)
        requires
            old(self).wf(),
            old(self).counter_spec() < usize::MAX,
        ensures
            final(self).wf(),
            final(self).interval_spec() == old(self).interval_spec(),
            ({
                let bumped = old(self).counter_spec() + 1;
                let forced_full = bumped > old(self).interval_spec();
                let partial_mode = !forced_full && old(self).baseline_view() is Some;
                &&& final(self).counter_spec() == if forced_full {
                    0usize
                } else {
                    bumped as usize
                }
                &&& if partial_mode {
                    &&& final(self).baseline_view() == old(self).baseline_view()
                    &&& r@ == UpdateView::Partial(
                        FrameView { items: Seq::empty(), platform: data@.platform },
                        encode_ops(old(self).baseline_view()->Some_0, data@.items),
                    )
                } else {
                    &&& final(self).baseline_view() == Some(data@.items)
                    &&& r@ == UpdateView::FullUpdate(data@)
                }
            }),
    {
        let mut do_partial = self.baseline.is_some();
        self.counter += 1;
        if self.counter > self.interval {
            do_partial = false;
            self.counter = 0;
        }
        self.encode_manual_partial(data, do_partial)
    }

    /// Encodes one frame in the requested mode. A Partial Update is only
    /// legal once a baseline exists; without one, a Full Update is produced
    /// whatever was asked. The tick counter is not touched.
    pub fn encode_manual_partial(&mut self, data: &Frame, partial: bool) -> (r: UpdateData)
        requires
            old(self).wf(),
        ensures
            final(self).wf(),
            final(self).interval_spec() == old(self).interval_spec(),
            final(self).counter_spec() == old(self).counter_spec(),
            if partial && old(self).baseline_view() is Some {
                &&& final(self).baseline_view() == old(self).baseline_view()
                &&& r@ == UpdateView::Partial(
                    FrameView { items: Seq::empty(), platform: data@.platform },
                    encode_ops(old(self).baseline_view()->Some_0, data@.items),
                )
            } else {
                &&& final(self).baseline_view() == Some(data@.items)
                &&& r@ == UpdateView::FullUpdate(data@)
            },
    {
        if partial && self.baseline.is_some() {
            self.encode_partial_path(data)
        } else {
            self.encode_full_path(data)
        }
    }

    /// The Partial path: one operation per item, referencing the baseline
    /// where the dictionary holds a verified match. The baseline itself is
    /// left untouched, so later partial updates still reference it.
    fn encode_partial_path(&mut self, data: &Frame) -> (r: UpdateData)
        requires
            old(self).wf(),
            old(self).baseline_view() is Some,
        ensures
            final(self).wf(),
            final(self).interval_spec() == old(self).interval_spec(),
            final(self).counter_spec() == old(self).counter_spec(),
            final(self).baseline_view() == old(self).baseline_view(),
            r@ == UpdateView::Partial(
                FrameView { items: Seq::empty(), platform: data@.platform },
                encode_ops(old(self).baseline_view()->Some_0, data@.items),
            ),
    {
        let base = match &self.baseline {
            Some(b) => b,
            None => unreached(),
        };
        let base_len: usize = base.len();
        let ghost bv = items_view(base@);
        proof {
            assert(bv.len() == base_len);
            lemma_index_of_props(bv);
        }
        let mut ops: Vec<PartialUpdate> = Vec::new();
        let mut i: usize = 0;
        while i < data.items.len()
            invariant
                i <= data.items.len(),
                ops@.len() == i,
                self.memory@ == index_of(bv),
                bv == items_view(base@),
                bv.len() <= usize::MAX,
                forall|k: u64| #[trigger] index_of(bv).contains_key(k) ==> index_of(bv)[k]
                    < bv.len() && item_key(bv[index_of(bv)[k] as int]) == k,
                forall|j: int| 0 <= j < i ==> ops@[j]@ == encode_op(
                    bv,
                    #[trigger] data.items@[j]@,
                ),
            decreases data.items.len() - i,
        {
            let it = &data.items[i];
            let k = crate::hash_abuse::key_of_item(it);
            let op = match self.memory.get(&k) {
                Some(p_ref) => {
                    let p = *p_ref;
                    if item_eq(&base[p], it) {
                        PartialUpdate::Reference(p)
                    } else {
                        PartialUpdate::Shape(it.dup())
                    }
                },
                None => PartialUpdate::Shape(it.dup()),
            };
            proof {
                assert(op@ == encode_op(bv, it@));
            }
            ops.push(op);
            i += 1;
        }
        let partial_frame = Frame { items: Vec::new(), platform: data.platform.dup() };
        let r = UpdateData::Partial(partial_frame, ops);
        proof {
            assert(ops_view(ops@) =~= encode_ops(bv, data@.items));
            assert(items_view(Seq::<DrawItem>::empty()) =~= Seq::<ItemView>::empty());
            assert(r@ =~= UpdateView::Partial(
                FrameView { items: Seq::empty(), platform: data@.platform },
                encode_ops(bv, data@.items),
            ));
        }
        r
    }

    /// The Full path: rebuild the dictionary from the frame, retain the
    /// frame as the new baseline, and send it whole.
    fn encode_full_path(&mut self, data: &Frame) -> (r: UpdateData)
        requires
            old(self).wf(),
        ensures
            final(self).wf(),
            final(self).interval_spec() == old(self).interval_spec(),
            final(self).counter_spec() == old(self).counter_spec(),
            final(self).baseline_view() == Some(data@.items),
            r@ == UpdateView::FullUpdate(data@),
    {
        self.memory = HashMap::new();
        let mut base: Vec<DrawItem> = Vec::new();
        let mut i: usize = 0;
        while i < data.items.len()
            invariant
                i <= data.items.len(),
                base@.len() == i,
                forall|j: int| 0 <= j < i ==> base@[j]@ == data.items@[j]@,
                self.memory@ == index_of(items_view(data.items@).subrange(0, i as int)),
                self.interval == old(self).interval,
                self.counter == old(self).counter,
            decreases data.items.len() - i,
        {
            let ghost prefix = items_view(data.items@).subrange(0, i as int);
            let it = &data.items[i];
            let k = crate::hash_abuse::key_of_item(it);
            self.memory.insert(k, i);
            base.push(it.dup());
            i += 1;
            proof {
                let prefix2 = items_view(data.items@).subrange(0, i as int);
                assert(prefix2.drop_last() =~= prefix);
                assert(prefix2.last() == data.items@[i - 1]@);
                assert(self.memory@ == index_of(prefix2));
            }
        }
        self.baseline = Some(base);
        proof {
            let all = items_view(data.items@);
            assert(all.subrange(0, all.len() as int) =~= all);
            match &self.baseline {
                Some(b) => {
                    assert(items_view(b@) =~= all);
                },
                None => {},
            }
        }
        UpdateData::FullUpdate(data.dup())
    }
}


impl Default for Encoder {
    /// The same state as [`Encoder::new`].
    fn default() -> (r: Encoder)
        ensures
            r.wf(),
            r.baseline_view() is None,
            r.counter_spec() == 0,
            r.interval_spec() == 90,
    {
        Encoder::new()
    }
}

/// Why a Partial Update could not be decoded. Baseline desynchronization is
/// surfaced explicitly, never papered over with a blank shape.
#[derive(Clone, Copy, PartialEq, Eq, Structural, Debug)]
pub enum DecodeError {
    /// A reference arrived before any Full Update established a baseline.
    MissingBaseline,
    /// A reference names a position beyond the baseline's items.
    ReferenceOutOfRange,
}

/// What a list of operations decodes to against a baseline, at the level
/// of portable content: references resolve to baseline items (or are
/// dropped in debug mode), inline shapes stand as they are. The first
/// unresolvable reference is the error.
pub open spec fn decode_ops(
    base: Option<Seq<ItemView>>,
    debug: bool,
    ops: Seq<PartialView>,
) -> Result<Seq<ItemView>, DecodeError>
    decreases ops.len(),
{
    if ops.len() == 0 {
        Ok(Seq::empty())
    } else {
        match decode_ops(base, debug, ops.drop_last()) {
            Ok(done) => match ops.last() {
                PartialView::Shape(it) => Ok(done.push(it)),
                PartialView::Reference(p) => if debug {
                    Ok(done)
                } else {
                    match base {
                        None => Err(DecodeError::MissingBaseline),
                        Some(b) => if p < b.len() {
                            Ok(done.push(b[p as int]))
                        } else {
                            Err(DecodeError::ReferenceOutOfRange)
                        },
                    }
                },
            },
            Err(e) => Err(e),
        }
    }
}

/// Once a prefix of the operations fails, the whole list fails the same
/// way.
pub proof fn lemma_decode_ops_err_persists(
    base: Option<Seq<ItemView>>,
    debug: bool,
    ops: Seq<PartialView>,
    j: int,
)
    requires
        0 <= j <= ops.len(),
        decode_ops(base, debug, ops.take(j)) is Err,
    ensures
        decode_ops(base, debug, ops) == decode_ops(base, debug, ops.take(j)),
    decreases ops.len() - j,
{
    if j == ops.len() {
        assert(ops.take(j) =~= ops);
    } else {
        assert(ops.take(j + 1).drop_last() =~= ops.take(j));
        assert(decode_ops(base, debug, ops.take(j + 1)) == decode_ops(base, debug, ops.take(j)));
        lemma_decode_ops_err_persists(base, debug, ops, j + 1);
    }
}

/// The viewer-side delta decoder. `G` is the embedding's realized text
/// layout (a handle to a locally shaped glyph run); the decoder obtains one
/// from the supplied builder for every text run it has not seen before, and
/// reuses cached ones for repeated identical layout requests.
pub struct Decoder<G> {
    galley_cache: ContentCache<G>,
    memory: Option<DisplayFrame<G>>,
    /// When set, referenced items are left out of decoded partial updates,
    /// so only the items that changed this tick stay visible.
    pub debug_mode: bool,
}

impl<G: Copy> Decoder<G> {
    /// The retained baseline's display items, if a Full Update arrived yet.
    pub closed spec fn baseline_view(&self) -> Option<Seq<DisplayItemView<G>>> {
        match self.memory {
            Some(f) => Some(display_items_view(f.items@)),
            None => None,
        }
    }

    /// The retained baseline's portable content.
    pub open spec fn baseline_portable(&self) -> Option<Seq<ItemView>> {
        match self.baseline_view() {
            Some(s) => Some(portable_items(s)),
            None => None,
        }
    }

    /// The layout cache's contents: content key of a text job, to the
    /// realized layout.
    pub closed spec fn cache_view(&self) -> Map<u64, G> {
        self.galley_cache@
    }

    /// Whether reference visualization is on.
    pub closed spec fn debug_spec(&self) -> bool {
        self.debug_mode
    }

    /// A fresh decoder: no baseline, an empty layout cache, debug off.
    pub fn new() -> (r: Decoder<G>)
        ensures
            r.baseline_view() is None,
            r.cache_view() == Map::<u64, G>::empty(),
            !r.debug_spec(),
    {
        Decoder { galley_cache: ContentCache::new(), memory: None, debug_mode: false }
    }

    /// Realizes the layout for one text run through the content-addressed
    /// cache: an identical request seen before yields the cached layout and
    /// the builder is not run.
    pub fn doctor_text<F: Fn(TextJob) -> G>(&mut self, job: &TextJob, build: &F) -> (g: G)
        requires
            forall|j: TextJob| call_requires(*build, (j,)),
        ensures
            final(self).baseline_view() == old(self).baseline_view(),
            final(self).debug_spec() == old(self).debug_spec(),
            ({
                let k = crate::hash_abuse::fnv64(crate::wire::enc_job(job@));
                if old(self).cache_view().contains_key(k) {
                    &&& g == old(self).cache_view()[k]
                    &&& final(self).cache_view() == old(self).cache_view()
                } else {
                    &&& exists|j: TextJob| j@ == job@ && call_ensures(*build, (j,), g)
                    &&& final(self).cache_view() == old(self).cache_view().insert(k, g)
                }
            }),
    {
        let mut buf: Vec<u8> = Vec::new();
        write_job(&mut buf, job);
        let j2 = job.dup();
        let builder = move || -> (gg: G)
            ensures
                call_ensures(*build, (j2,), gg),
            {
                build(j2)
            };
        self.galley_cache.get_or_compute(buf.as_slice(), builder)
    }

    /// Rebuilds one draw item for display: its portable content is kept
    /// exactly; a text run gains its locally realized layout.
    pub fn doctor_shape<F: Fn(TextJob) -> G>(&mut self, it: &DrawItem, build: &F) -> (r:
        DisplayItem<G>)
        requires
            forall|j: TextJob| call_requires(*build, (j,)),
        ensures
            portable_item(r@) == it@,
            final(self).baseline_view() == old(self).baseline_view(),
            final(self).debug_spec() == old(self).debug_spec(),
            match it@.shape {
                ShapeView::Text(jv) => ({
                    let k = crate::hash_abuse::fnv64(crate::wire::enc_job(jv));
                    if old(self).cache_view().contains_key(k) {
                        &&& r@.shape == (DisplayShapeView::Text {
                            job: jv,
                            galley: old(self).cache_view()[k],
                        })
                        &&& final(self).cache_view() == old(self).cache_view()
                    } else {
                        r@.shape matches DisplayShapeView::Text { job, galley } && job == jv
                            && final(self).cache_view() == old(self).cache_view().insert(k, galley)
                    }
                }),
                _ => final(self).cache_view() == old(self).cache_view(),
            },
    {
        let r = match &it.shape {
            ShapeData::Path { points, color } => DisplayItem {
                clip: it.clip,
                shape: DisplayShape::Path {
                    points: crate::frame::dup_points(points),
                    color: *color,
                },
            },
            ShapeData::Text(job) => {
                let g = self.doctor_text(job, build);
                DisplayItem { clip: it.clip, shape: DisplayShape::Text { job: job.dup(), galley: g } }
            },
            ShapeData::Image { texture, uv } => DisplayItem {
                clip: it.clip,
                shape: DisplayShape::Image { texture: *texture, uv: *uv },
            },
        };
        proof {
            assert(portable_item(r@) =~= it@);
        }
        r
    }

    /// Decodes one update into a displayable frame.
    ///
    /// A Full Update is rehydrated, retained as the new baseline, and the
    /// layout cache is reset with the baseline. A Partial Update resolves
    /// its operations against the retained baseline and leaves it
    /// untouched; an unresolvable reference is an explicit error. In debug
    /// mode referenced items are left out, leaving only inline items.
    pub fn decode<F: Fn(TextJob) -> G>(&mut self, update: UpdateData, build: &F) -> (r: Result<
        DisplayFrame<G>,
        DecodeError,
    >)
        requires
            forall|j: TextJob| call_requires(*build, (j,)),
        ensures
            final(self).debug_spec() == old(self).debug_spec(),
            match update@ {
                UpdateView::FullUpdate(f) => {
                    &&& r matches Ok(df) && portable_frame(df@) == f
                        && final(self).baseline_view() == Some(df@.items)
                    &&& final(self).baseline_portable() == Some(f.items)
                    &&& final(self).cache_view() == Map::<u64, G>::empty()
                },
                UpdateView::Partial(pf, ops) => match decode_ops(
                    old(self).baseline_portable(),
                    old(self).debug_spec(),
                    ops,
                ) {
                    Ok(extra) => {
                        &&& r matches Ok(df) && portable_frame(df@) == (FrameView {
                            items: pf.items + extra,
                            platform: pf.platform,
                        })
                        &&& final(self).baseline_view() == old(self).baseline_view()
                    },
                    Err(e) => {
                        &&& r matches Err(e2) && e2 == e
                        &&& final(self).baseline_view() == old(self).baseline_view()
                    },
                },
            },
    {
        match update {
            UpdateData::FullUpdate(full) => {
                let ghost fullv = full@;
                proof {
                    assert(update@ == UpdateView::FullUpdate(fullv));
                }
                let mut items: Vec<DisplayItem<G>> = Vec::new();
                let mut i: usize = 0;
                while i < full.items.len()
                    invariant
                        i <= full.items.len(),
                        items@.len() == i,
                        forall|j: int| 0 <= j < i ==> portable_item(#[trigger] items@[j]@)
                            == full.items@[j]@,
                        forall|j: TextJob| call_requires(*build, (j,)),
                        self.debug_mode == old(self).debug_mode,
                        update@ == UpdateView::FullUpdate(fullv),
                        full@ == fullv,
                    decreases full.items.len() - i,
                {
                    let d = self.doctor_shape(&full.items[i], build);
                    items.push(d);
                    i += 1;
                }
                self.galley_cache.reset();
                let df = DisplayFrame { items, platform: full.platform.dup() };
                let ret = dup_display_frame(&df);
                self.memory = Some(df);
                proof {
                    assert(portable_items(display_items_view(ret.items@)) =~= items_view(
                        full.items@,
                    ));
                    assert(portable_frame(ret@) =~= full@);
                }
                Ok(ret)
            },
            UpdateData::Partial(pf, ops) => {
                let ghost base0 = self.baseline_portable();
                let ghost dbg0 = self.debug_mode;
                let ghost pfv = pf@;
                let ghost pf_items_v = items_view(pf.items@);
                let ghost opsv = ops_view(ops@);
                proof {
                    assert(update@ == UpdateView::Partial(pfv, opsv));
                }
                let mut items: Vec<DisplayItem<G>> = Vec::new();
                let mut i: usize = 0;
                while i < pf.items.len()
                    invariant
                        i <= pf.items.len(),
                        items@.len() == i,
                        forall|j: int| 0 <= j < i ==> portable_item(#[trigger] items@[j]@)
                            == pf.items@[j]@,
                        forall|j: TextJob| call_requires(*build, (j,)),
                        self.debug_mode == old(self).debug_mode,
                        self.baseline_view() == old(self).baseline_view(),
                        base0 == old(self).baseline_portable(),
                        dbg0 == old(self).debug_spec(),
                        update@ == UpdateView::Partial(pfv, opsv),
                        pf@ == pfv,
                        pf_items_v == pfv.items,
                        opsv == ops_view(ops@),
                    decreases pf.items.len() - i,
                {
                    let d = self.doctor_shape(&pf.items[i], build);
                    items.push(d);
                    i += 1;
                }
                proof {
                    assert(opsv.take(0) =~= Seq::<PartialView>::empty());
                    assert(portable_items(display_items_view(items@)) =~= pf_items_v
                        + Seq::<ItemView>::empty());
                }
                let mut k: usize = 0;
                while k < ops.len()
                    invariant
                        k <= ops.len(),
                        forall|j: TextJob| call_requires(*build, (j,)),
                        self.debug_mode == old(self).debug_mode,
                        self.baseline_view() == old(self).baseline_view(),
                        base0 == old(self).baseline_portable(),
                        dbg0 == old(self).debug_spec(),
                        update@ == UpdateView::Partial(pfv, opsv),
                        pf@ == pfv,
                        pf_items_v == pfv.items,
                        opsv == ops_view(ops@),
                        pf_items_v.len() <= items@.len(),
                        ({
                            decode_ops(base0, dbg0, opsv.take(k as int)) matches Ok(extra)
                                && portable_items(display_items_view(items@)) == pf_items_v + extra
                        }),
                    decreases ops.len() - k,
                {
                    let ghost extra0 = decode_ops(base0, dbg0, opsv.take(k as int))->Ok_0;
                    let ghost pre = display_items_view(items@);
                    match &ops[k] {
                        PartialUpdate::Shape(it) => {
                            let d = self.doctor_shape(it, build);
                            let ghost dv = d@;
                            items.push(d);
                            proof {
                                assert(opsv.take(k + 1).drop_last() =~= opsv.take(k as int));
                                assert(decode_ops(base0, dbg0, opsv.take(k + 1)) == Ok::<
                                    Seq<ItemView>,
                                    DecodeError,
                                >(extra0.push(it@)));
                                assert(display_items_view(items@) =~= pre.push(dv));
                                assert(portable_items(pre.push(dv)) =~= portable_items(pre).push(
                                    portable_item(dv),
                                ));
                                assert(portable_items(display_items_view(items@)) =~= pf_items_v
                                    + extra0.push(it@));
                            }
                        },
                        PartialUpdate::Reference(p) => {
                            let p = *p;
                            if !self.debug_mode {
                                let has_mem = self.memory.is_some();
                                if !has_mem {
                                    proof {
                                        assert(opsv.take(k + 1).drop_last() =~= opsv.take(
                                            k as int,
                                        ));
                                        assert(decode_ops(base0, dbg0, opsv.take(k + 1)) == Err::<
                                            Seq<ItemView>,
                                            DecodeError,
                                        >(DecodeError::MissingBaseline));
                                        lemma_decode_ops_err_persists(base0, dbg0, opsv, k + 1);
                                        assert(opsv.take(opsv.len() as int) =~= opsv);
                                    }
                                    return Err(DecodeError::MissingBaseline);
                                }
                                let mem = match &self.memory {
                                    Some(m) => m,
                                    None => unreached(),
                                };
                                if p < mem.items.len() {
                                    let d = dup_display_item(&mem.items[p]);
                                    let ghost dv = d@;
                                    items.push(d);
                                    proof {
                                        assert(opsv.take(k + 1).drop_last() =~= opsv.take(
                                            k as int,
                                        ));
                                        let b = base0->Some_0;
                                        assert(b[p as int] == portable_item(
                                            display_items_view(mem.items@)[p as int],
                                        ));
                                        assert(dv == display_items_view(mem.items@)[p as int]);
                                        assert(decode_ops(base0, dbg0, opsv.take(k + 1)) == Ok::<
                                            Seq<ItemView>,
                                            DecodeError,
                                        >(extra0.push(b[p as int])));
                                        assert(display_items_view(items@) =~= pre.push(dv));
                                        assert(portable_items(pre.push(dv)) =~= portable_items(
                                            pre,
                                        ).push(portable_item(dv)));
                                        assert(portable_items(display_items_view(items@))
                                            =~= pf_items_v + extra0.push(b[p as int]));
                                    }
                                } else {
                                    proof {
                                        assert(opsv.take(k + 1).drop_last() =~= opsv.take(
                                            k as int,
                                        ));
                                        assert(decode_ops(base0, dbg0, opsv.take(k + 1)) == Err::<
                                            Seq<ItemView>,
                                            DecodeError,
                                        >(DecodeError::ReferenceOutOfRange));
                                        lemma_decode_ops_err_persists(base0, dbg0, opsv, k + 1);
                                        assert(opsv.take(opsv.len() as int) =~= opsv);
                                    }
                                    return Err(DecodeError::ReferenceOutOfRange);
                                }
                            } else {
                                proof {
                                    assert(opsv.take(k + 1).drop_last() =~= opsv.take(k as int));
                                    assert(decode_ops(base0, dbg0, opsv.take(k + 1)) == Ok::<
                                        Seq<ItemView>,
                                        DecodeError,
                                    >(extra0));
                                }
                            }
                        },
                    }
                    k += 1;
                }
                proof {
                    assert(opsv.take(opsv.len() as int) =~= opsv);
                }
                let df = DisplayFrame { items, platform: pf.platform };
                proof {
                    match decode_ops(base0, dbg0, opsv) {
                        Ok(extra) => {
                            assert(portable_frame(df@) =~= FrameView {
                                items: items_view(pf.items@) + extra,
                                platform: pf@.platform,
                            });
                        },
                        Err(_) => {},
                    }
                }
                Ok(df)
            },
        }
    }
}


/// The inline items of an operation list, in order.
pub open spec fn inline_items(ops: Seq<PartialView>) -> Seq<ItemView>
    decreases ops.len(),
{
    if ops.len() == 0 {
        Seq::empty()
    } else {
        match ops.last() {
            PartialView::Shape(it) => inline_items(ops.drop_last()).push(it),
            PartialView::Reference(_) => inline_items(ops.drop_last()),
        }
    }
}

/// Round trip of the partial codec: decoding the operations the encoder
/// emits for any frame, against the same baseline the encoder used,
/// reproduces the frame's items exactly — references resolve to equal
/// content because the encoder verifies every dictionary hit.
pub proof fn lemma_partial_round_trip(b: Seq<ItemView>, items: Seq<ItemView>)
    ensures
        decode_ops(Some(b), false, encode_ops(b, items)) == Ok::<Seq<ItemView>, DecodeError>(
            items,
        ),
    decreases items.len(),
{
    let ops = encode_ops(b, items);
    if items.len() == 0 {
        assert(items =~= Seq::<ItemView>::empty());
    } else {
        let dl = items.drop_last();
        lemma_partial_round_trip(b, dl);
        assert(ops.drop_last() =~= encode_ops(b, dl));
        assert(ops.last() == encode_op(b, items.last()));
        match encode_op(b, items.last()) {
            PartialView::Reference(p) => {
                assert(b[p as int] == items.last());
                assert(dl.push(items.last()) =~= items);
            },
            PartialView::Shape(it) => {
                assert(it == items.last());
                assert(dl.push(items.last()) =~= items);
            },
        }
    }
}

/// Every reference the encoder emits resolves, in the same baseline, to an
/// item with exactly the encoded item's content.
pub proof fn lemma_reference_sound(b: Seq<ItemView>, it: ItemView)
    ensures
        encode_op(b, it) matches PartialView::Reference(p) ==> p < b.len() && b[p as int] == it,
{
}

/// When an item already stands in the baseline and no other baseline item
/// shares its content key, the encoder emits a reference for it, never the
/// item inline.
pub proof fn lemma_dedup_reference(b: Seq<ItemView>, it: ItemView, p: int)
    requires
        b.len() <= usize::MAX,
        0 <= p < b.len(),
        b[p] == it,
        forall|q: int| 0 <= q < b.len() && item_key(#[trigger] b[q]) == item_key(it) ==> b[q]
            == it,
    ensures
        encode_op(b, it) matches PartialView::Reference(r2) && b[r2 as int] == it,
{
    lemma_index_of_props(b);
    assert(index_of(b).contains_key(item_key(b[p])));
}

/// In debug mode, decoding keeps exactly the inline items, in order, and
/// never fails: referenced items are deliberately left out so that only the
/// items that changed are visible.
pub proof fn lemma_debug_keeps_inline(base: Option<Seq<ItemView>>, ops: Seq<PartialView>)
    ensures
        decode_ops(base, true, ops) == Ok::<Seq<ItemView>, DecodeError>(inline_items(ops)),
    decreases ops.len(),
{
    if ops.len() > 0 {
        lemma_debug_keeps_inline(base, ops.drop_last());
    }
}

} // verus!
