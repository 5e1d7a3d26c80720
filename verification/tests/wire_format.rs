use meterm::delta_encoding::{PartialUpdate, UpdateData};
use meterm::frame::{DrawItem, Frame, PlatformOutput, Point, Rect, ShapeData, TextJob};
use meterm::hash_abuse::{EqByHash, HashBySerialize, HashWriter};
use meterm::input::{read_events, InputEvent, InputSnapshot};
use meterm::wire::{read_byte_seq, read_i32, read_u32, read_update, write_byte_seq, write_i32,
    WireError};
use meterm::{deserialize, deserialize_input, serialize, serialize_input, ClientToServer,
    ServerToClient};

fn sample_item(seed: u32) -> DrawItem {
    DrawItem {
        clip: Rect { min_x: -4, min_y: 0, max_x: 800, max_y: 600 },
        shape: ShapeData::Path {
            points: vec![Point { x: seed as i32, y: -(seed as i32) }, Point { x: 0, y: 1 }],
            color: seed,
        },
    }
}

fn sample_frame() -> Frame {
    Frame {
        items: vec![
            sample_item(5),
            DrawItem {
                clip: Rect { min_x: 0, min_y: 0, max_x: 10, max_y: 10 },
                shape: ShapeData::Text(TextJob {
                    text: b"wire me".to_vec(),
                    style: 2,
                    wrap_width: 320,
                }),
            },
            DrawItem {
                clip: Rect { min_x: 1, min_y: 2, max_x: 3, max_y: 4 },
                shape: ShapeData::Image {
                    texture: 77,
                    uv: Rect { min_x: 0, min_y: 0, max_x: 1, max_y: 1 },
                },
            },
        ],
        platform: PlatformOutput {
            cursor_icon: 3,
            copied_text: b"copied".to_vec(),
            open_url: Some(b"https://host.example".to_vec()),
        },
    }
}

#[test]
fn message_round_trip_full() {
    let msg = ServerToClient { update: UpdateData::FullUpdate(sample_frame()) };
    let bytes = serialize(&msg).expect("serializes");
    let back = deserialize(&bytes).expect("deserializes");
    assert_eq!(back, msg);
}

#[test]
fn message_round_trip_partial() {
    let partial_frame = Frame { items: vec![], platform: PlatformOutput::new() };
    let msg = ServerToClient {
        update: UpdateData::Partial(
            partial_frame,
            vec![
                PartialUpdate::Reference(2),
                PartialUpdate::Shape(sample_item(9)),
                PartialUpdate::Reference(0),
            ],
        ),
    };
    let bytes = serialize(&msg).expect("serializes");
    let back = deserialize(&bytes).expect("deserializes");
    assert_eq!(back, msg);
}

#[test]
fn input_message_round_trip() {
    let msg = ClientToServer {
        raw_input: InputSnapshot {
            events: vec![
                InputEvent::PointerMoved { x: -3, y: 14 },
                InputEvent::PointerButton { x: 5, y: 5, button: 1, pressed: true },
                InputEvent::Key { code: 32, pressed: false },
                InputEvent::Text(b"typed".to_vec()),
            ],
            viewport_w: 1024,
            viewport_h: 768,
            time_ms: 123_456_789,
        },
    };
    let bytes = serialize_input(&msg).expect("serializes");
    let back = deserialize_input(&bytes).expect("deserializes");
    assert_eq!(back, msg);
}

#[test]
fn compression_changes_the_bytes() {
    // A long run of equal items compresses well; if the compressor handed
    // its input back unchanged, the output could not be smaller than the
    // raw encoding of fifty items.
    let frame = Frame {
        items: (0..50).map(|_| sample_item(1)).collect(),
        platform: PlatformOutput::new(),
    };
    let msg = ServerToClient { update: UpdateData::FullUpdate(frame) };
    let bytes = serialize(&msg).expect("serializes");
    assert!(bytes.len() < 50 * 30);
    let back = deserialize(&bytes).expect("deserializes");
    assert_eq!(back, msg);
}

#[test]
fn garbage_bytes_are_rejected() {
    // A small claimed size followed by an invalid compressed stream.
    let garbage: Vec<u8> = vec![4, 0, 0, 0, 0xAA, 0xBB];
    assert!(deserialize(&garbage).is_err());
    assert!(deserialize_input(&garbage).is_err());
}

#[test]
fn unknown_update_tag_is_malformed() {
    let bytes: Vec<u8> = vec![9, 0, 0];
    let mut pos: usize = 0;
    assert_eq!(read_update(&bytes, &mut pos), Err(WireError::Malformed));
    assert_eq!(pos, 0);
}

#[test]
fn truncated_integer_read() {
    let bytes: Vec<u8> = vec![1, 2, 3];
    let mut pos: usize = 0;
    assert_eq!(read_u32(&bytes, &mut pos), Err(WireError::Truncated));
    assert_eq!(pos, 0);
}

#[test]
fn little_endian_integer_read() {
    let bytes: Vec<u8> = vec![1, 2, 3, 4];
    let mut pos: usize = 0;
    assert_eq!(read_u32(&bytes, &mut pos), Ok(0x04030201));
    assert_eq!(pos, 4);
}

#[test]
fn biased_coordinate_encoding() {
    let mut out: Vec<u8> = Vec::new();
    write_i32(&mut out, 0);
    assert_eq!(out, vec![0, 0, 0, 0x80]);
    let mut out2: Vec<u8> = Vec::new();
    write_i32(&mut out2, -1);
    assert_eq!(out2, vec![0xFF, 0xFF, 0xFF, 0x7F]);
    let mut pos: usize = 0;
    assert_eq!(read_i32(&out, &mut pos), Ok(0));
    let mut pos2: usize = 0;
    assert_eq!(read_i32(&out2, &mut pos2), Ok(-1));
}

#[test]
fn length_prefixed_bytes_encoding() {
    let mut out: Vec<u8> = Vec::new();
    write_byte_seq(&mut out, &vec![0xAB, 0xCD]);
    assert_eq!(out, vec![2, 0, 0, 0, 0, 0, 0, 0, 0xAB, 0xCD]);
    let mut pos: usize = 0;
    assert_eq!(read_byte_seq(&out, &mut pos), Ok(vec![0xAB, 0xCD]));
    assert_eq!(pos, 10);
}

#[test]
fn malformed_event_flag_is_rejected() {
    // One event claimed; a key event whose pressed byte is neither 0 nor 1.
    let mut bytes: Vec<u8> = vec![1, 0, 0, 0, 0, 0, 0, 0];
    bytes.push(2);
    bytes.extend_from_slice(&[32, 0, 0, 0]);
    bytes.push(7);
    let mut pos: usize = 0;
    assert!(read_events(&bytes, &mut pos).is_err());
    assert_eq!(pos, 0);
}

#[test]
fn streaming_hash_matches_reference_vectors() {
    // 64-bit FNV-1a reference values: the offset basis for empty input,
    // and the published value for the single byte "a".
    let mut w = HashWriter::new();
    w.flush();
    assert_eq!(w.finish(), 0xcbf29ce484222325);
    let mut w2 = HashWriter::new();
    w2.write(&[0x61]);
    assert_eq!(w2.finish(), 0xaf63dc4c8601ec8c);
}

#[test]
fn hash_by_content_not_identity() {
    let a = HashBySerialize(sample_item(5));
    let b = HashBySerialize(sample_item(5));
    let c = HashBySerialize(sample_item(6));
    assert_eq!(a.hash(), b.hash());
    assert_ne!(a.hash(), c.hash());
    let ea = EqByHash(a);
    let eb = EqByHash(b);
    let ec = EqByHash(c);
    assert!(ea.eq(&eb));
    assert!(!ea.eq(&ec));
}
