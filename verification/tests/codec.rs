use meterm::delta_encoding::{DecodeError, Decoder, Encoder, PartialUpdate, UpdateData};
use meterm::frame::{
    DisplayFrame, DisplayItem, DisplayShape, DrawItem, Frame, PlatformOutput, Point, Rect,
    ShapeData, TextJob,
};

fn rect(min_x: i32, min_y: i32, max_x: i32, max_y: i32) -> Rect {
    Rect { min_x, min_y, max_x, max_y }
}

fn path_item(xs: &[(i32, i32)], color: u32) -> DrawItem {
    DrawItem {
        clip: rect(0, 0, 100, 100),
        shape: ShapeData::Path {
            points: xs.iter().map(|&(x, y)| Point { x, y }).collect(),
            color,
        },
    }
}

fn text_item(text: &str, style: u32) -> DrawItem {
    DrawItem {
        clip: rect(0, 0, 100, 100),
        shape: ShapeData::Text(TextJob {
            text: text.as_bytes().to_vec(),
            style,
            wrap_width: 640,
        }),
    }
}

fn image_item(texture: u64) -> DrawItem {
    DrawItem {
        clip: rect(10, 10, 90, 90),
        shape: ShapeData::Image { texture, uv: rect(0, 0, 1, 1) },
    }
}

fn make_frame(items: Vec<DrawItem>) -> Frame {
    Frame { items, platform: PlatformOutput::new() }
}

fn builder(job: TextJob) -> usize {
    job.text.len() + job.style as usize
}

/// Forgets the realized layouts: the decoded frame's portable content.
fn portable(df: &DisplayFrame<usize>) -> Frame {
    let items = df
        .items
        .iter()
        .map(|it: &DisplayItem<usize>| DrawItem {
            clip: it.clip,
            shape: match &it.shape {
                DisplayShape::Path { points, color } => ShapeData::Path {
                    points: points.clone(),
                    color: *color,
                },
                DisplayShape::Text { job, galley: _ } => ShapeData::Text(job.dup()),
                DisplayShape::Image { texture, uv } => ShapeData::Image {
                    texture: *texture,
                    uv: *uv,
                },
            },
        })
        .collect();
    Frame { items, platform: df.platform.dup() }
}

#[test]
fn full_round_trip() {
    let frame = make_frame(vec![
        path_item(&[(0, 0), (10, 20), (-5, 7)], 0xff0000ff),
        text_item("hello viewer", 3),
        image_item(42),
    ]);
    let mut enc = Encoder::new();
    let update = enc.encode_manual_partial(&frame, false);
    assert!(matches!(update, UpdateData::FullUpdate(_)));
    let mut dec: Decoder<usize> = Decoder::new();
    let out = dec.decode(update, &builder).expect("full update decodes");
    assert_eq!(portable(&out), frame);
}

#[test]
fn empty_frame_round_trip() {
    let frame = make_frame(vec![]);
    let mut enc = Encoder::new();
    let update = enc.encode(&frame);
    assert!(matches!(update, UpdateData::FullUpdate(_)));
    let mut dec: Decoder<usize> = Decoder::new();
    let out = dec.decode(update, &builder).expect("empty full update decodes");
    assert_eq!(portable(&out).items.len(), 0);
}

#[test]
fn dedup_one_inline() {
    let f1 = make_frame(vec![
        path_item(&[(1, 1)], 1),
        text_item("unchanged", 0),
        image_item(7),
    ]);
    let f2 = make_frame(vec![
        path_item(&[(1, 1)], 1),
        text_item("changed!", 0),
        image_item(7),
    ]);
    let mut enc = Encoder::new();
    let full = enc.encode_manual_partial(&f1, false);
    let partial = enc.encode_manual_partial(&f2, true);
    let ops = match &partial {
        UpdateData::Partial(_, ops) => ops,
        _ => panic!("expected a partial update"),
    };
    let inline: Vec<&PartialUpdate> = ops
        .iter()
        .filter(|op| matches!(op, PartialUpdate::Shape(_)))
        .collect();
    assert_eq!(inline.len(), 1);
    assert_eq!(ops.len(), 3);
    assert!(matches!(ops[0], PartialUpdate::Reference(0)));
    assert!(matches!(ops[2], PartialUpdate::Reference(2)));

    let mut dec: Decoder<usize> = Decoder::new();
    dec.decode(full, &builder).expect("full decodes");
    let out = dec.decode(partial, &builder).expect("partial decodes");
    assert_eq!(portable(&out), f2);
}

#[test]
fn baseline_only_reference() {
    // F1 establishes the baseline; F2 and F3 both carry a new item. If
    // partial updates compounded, F3 would reference F2's copy of the new
    // item; since only the baseline is referenced, it stays inline and the
    // unchanged items keep F1's positions.
    let f1 = make_frame(vec![
        path_item(&[(1, 1)], 1),
        text_item("old", 0),
        image_item(7),
    ]);
    let f2 = make_frame(vec![
        path_item(&[(1, 1)], 1),
        text_item("new", 0),
        image_item(7),
    ]);
    let f3 = make_frame(vec![
        path_item(&[(1, 1)], 1),
        text_item("new", 0),
        image_item(7),
    ]);
    let mut enc = Encoder::new();
    let full = enc.encode_manual_partial(&f1, false);
    let p2 = enc.encode_manual_partial(&f2, true);
    let p3 = enc.encode_manual_partial(&f3, true);
    for partial in [&p2, &p3] {
        match partial {
            UpdateData::Partial(_, ops) => {
                assert!(matches!(ops[0], PartialUpdate::Reference(0)));
                assert!(matches!(ops[1], PartialUpdate::Shape(_)));
                assert!(matches!(ops[2], PartialUpdate::Reference(2)));
            }
            _ => panic!("expected a partial update"),
        }
    }
    let mut dec: Decoder<usize> = Decoder::new();
    dec.decode(full, &builder).expect("full decodes");
    let o2 = dec.decode(p2, &builder).expect("second frame decodes");
    assert_eq!(portable(&o2), f2);
    let o3 = dec.decode(p3, &builder).expect("third frame decodes");
    assert_eq!(portable(&o3), f3);
}

#[test]
fn periodicity_forces_full() {
    let frame = make_frame(vec![path_item(&[(2, 3)], 9)]);
    let mut enc = Encoder::new();
    enc.interval = 2;
    let kinds: Vec<bool> = (0..6)
        .map(|_| matches!(enc.encode(&frame), UpdateData::FullUpdate(_)))
        .collect();
    // tick counts 1, 2 stay eligible; the third exceeds the interval and
    // resets the counter, so every third encode is a full update.
    assert_eq!(kinds, vec![true, false, true, false, false, true]);
}

#[test]
fn no_baseline_forces_full() {
    let frame = make_frame(vec![path_item(&[(2, 3)], 9)]);
    let mut enc = Encoder::new();
    let update = enc.encode_manual_partial(&frame, true);
    assert!(matches!(update, UpdateData::FullUpdate(_)));
}

#[test]
fn missing_baseline_is_an_error() {
    let mut dec: Decoder<usize> = Decoder::new();
    let partial = UpdateData::Partial(
        make_frame(vec![]),
        vec![PartialUpdate::Reference(0)],
    );
    assert_eq!(dec.decode(partial, &builder), Err(DecodeError::MissingBaseline));
}

#[test]
fn out_of_range_reference_is_an_error() {
    let f1 = make_frame(vec![path_item(&[(1, 1)], 1)]);
    let mut enc = Encoder::new();
    let full = enc.encode_manual_partial(&f1, false);
    let mut dec: Decoder<usize> = Decoder::new();
    dec.decode(full, &builder).expect("full decodes");
    let partial = UpdateData::Partial(
        make_frame(vec![]),
        vec![PartialUpdate::Reference(5)],
    );
    assert_eq!(dec.decode(partial, &builder), Err(DecodeError::ReferenceOutOfRange));
}

#[test]
fn desynchronized_baseline_fails_explicitly() {
    // The encoder's baseline holds three items, but this decoder only ever
    // saw a one-item baseline. A reference past its baseline must surface
    // as an explicit decode failure, never as a silently wrong scene.
    let wide = make_frame(vec![
        path_item(&[(1, 1)], 1),
        text_item("mid", 0),
        image_item(7),
    ]);
    let narrow = make_frame(vec![path_item(&[(1, 1)], 1)]);
    let mut enc = Encoder::new();
    enc.encode_manual_partial(&wide, false);
    let partial = enc.encode_manual_partial(&wide, true);
    let mut dec: Decoder<usize> = Decoder::new();
    let mut enc2 = Encoder::new();
    dec.decode(enc2.encode_manual_partial(&narrow, false), &builder)
        .expect("narrow full decodes");
    assert_eq!(dec.decode(partial, &builder), Err(DecodeError::ReferenceOutOfRange));
}

#[test]
fn debug_mode_drops_referenced_items() {
    let f1 = make_frame(vec![
        path_item(&[(1, 1)], 1),
        text_item("kept only when changed", 0),
    ]);
    let f2 = make_frame(vec![
        path_item(&[(1, 1)], 1),
        text_item("the changed one", 0),
    ]);
    let mut enc = Encoder::new();
    let full = enc.encode_manual_partial(&f1, false);
    let partial = enc.encode_manual_partial(&f2, true);
    let mut dec: Decoder<usize> = Decoder::new();
    dec.decode(full, &builder).expect("full decodes");
    dec.debug_mode = true;
    let out = dec.decode(partial, &builder).expect("debug partial decodes");
    let got = portable(&out);
    assert_eq!(got.items.len(), 1);
    assert_eq!(got.items[0], text_item("the changed one", 0));
}

#[test]
fn platform_output_travels_inline() {
    // Platform output is carried by every update, full or partial, and is
    // never deduplicated.
    let platform = PlatformOutput {
        cursor_icon: 4,
        copied_text: b"to clipboard".to_vec(),
        open_url: Some(b"https://example.test".to_vec()),
    };
    let f1 = Frame { items: vec![path_item(&[(1, 1)], 1)], platform: platform.dup() };
    let f2 = Frame { items: vec![path_item(&[(1, 1)], 1)], platform: platform.dup() };
    let mut enc = Encoder::new();
    let full = enc.encode_manual_partial(&f1, false);
    let partial = enc.encode_manual_partial(&f2, true);
    let mut dec: Decoder<usize> = Decoder::new();
    let o1 = dec.decode(full, &builder).expect("full decodes");
    assert_eq!(o1.platform, platform);
    let o2 = dec.decode(partial, &builder).expect("partial decodes");
    assert_eq!(o2.platform, platform);
}

#[test]
fn galley_cache_reuses_layouts() {
    // Two identical text jobs in one frame realize one layout: the second
    // request hits the cache and the builder runs once.
    let f1 = make_frame(vec![text_item("stable", 1), text_item("stable", 1)]);
    let mut enc = Encoder::new();
    let full = enc.encode_manual_partial(&f1, false);
    let mut dec: Decoder<u32> = Decoder::new();
    let counter = std::cell::Cell::new(0u32);
    let counting = |_job: TextJob| -> u32 {
        counter.set(counter.get() + 1);
        counter.get()
    };
    let out = dec.decode(full, &counting).expect("full decodes");
    let galleys: Vec<u32> = out
        .items
        .iter()
        .map(|it| match &it.shape {
            DisplayShape::Text { galley, .. } => *galley,
            _ => panic!("expected a text item"),
        })
        .collect();
    assert_eq!(galleys, vec![1, 1]);
    assert_eq!(counter.get(), 1);
}
