//! The portable input snapshot a viewer sends each tick: discrete events
//! (pointer, key, text) plus continuous state (viewport size, timestamp).
//!
//! The session manager keeps a *blank* copy of the latest snapshot — the
//! same snapshot with every discrete event removed — to re-render a viewer
//! when another session changed shared state and no fresh input arrived.

use vstd::prelude::*;

use crate::frame::dup_bytes;
use crate::wire::WireError;
use crate::wire::dec_byte_seq_at;
use crate::wire::dec_u32_at;
use crate::wire::dec_u64_at;
use crate::wire::enc_byte_seq;
use crate::wire::enc_u32;
use crate::wire::enc_u64;
use crate::wire::lemma_add_assoc;
use crate::wire::lemma_byte_seq_round_trip;
use crate::wire::lemma_skip_concat;
use crate::wire::lemma_skip_twice;
use crate::wire::lemma_u32_round_trip;
use crate::wire::lemma_u64_round_trip;
use crate::wire::read_byte_seq;
use crate::wire::read_u32;
use crate::wire::read_u64;
use crate::wire::write_byte_seq;
use crate::wire::write_u32;
use crate::wire::write_u64;
use crate::wire::enc_i32;
use crate::wire::dec_i32_at;
use crate::wire::lemma_i32_round_trip;
use crate::wire::read_i32;
use crate::wire::write_i32;

verus! {

/// One discrete input event.
#[derive(Debug, PartialEq, Eq)]
pub enum InputEvent {
    /// The pointer moved to this position.
    PointerMoved { x: i32, y: i32 },
    /// A pointer button changed state at this position.
    PointerButton { x: i32, y: i32, button: u8, pressed: bool },
    /// A key changed state.
    Key { code: u32, pressed: bool },
    /// Text was entered.
    Text(Vec<u8>),
}

/// Spec-level value of an [`InputEvent`].
#[verifier::ext_equal]
pub ghost enum InputEventView {
    PointerMoved { x: i32, y: i32 },
    PointerButton { x: i32, y: i32, button: u8, pressed: bool },
    Key { code: u32, pressed: bool },
    Text(Seq<u8>),
}

impl View for InputEvent {
    type V = InputEventView;

    open spec fn view(&self) -> InputEventView {
        match self {
            InputEvent::PointerMoved { x, y } => InputEventView::PointerMoved { x: *x, y: *y },
            InputEvent::PointerButton { x, y, button, pressed } => InputEventView::PointerButton {
                x: *x,
                y: *y,
                button: *button,
                pressed: *pressed,
            },
            InputEvent::Key { code, pressed } => InputEventView::Key {
                code: *code,
                pressed: *pressed,
            },
            InputEvent::Text(t) => InputEventView::Text(t@),
        }
    }
}

/// The spec-level values of an event list, in order.
pub open spec fn events_view(s: Seq<InputEvent>) -> Seq<InputEventView> {
    Seq::new(s.len(), |i: int| s[i]@)
}

/// One raw-input snapshot.
#[derive(Debug, PartialEq, Eq)]
pub struct InputSnapshot {
    pub events: Vec<InputEvent>,
    pub viewport_w: u32,
    pub viewport_h: u32,
    pub time_ms: u64,
}

/// Spec-level value of an [`InputSnapshot`].
#[verifier::ext_equal]
pub ghost struct InputView {
    pub events: Seq<InputEventView>,
    pub viewport_w: u32,
    pub viewport_h: u32,
    pub time_ms: u64,
}

impl View for InputSnapshot {
    type V = InputView;

    open spec fn view(&self) -> InputView {
        InputView {
            events: events_view(self.events@),
            viewport_w: self.viewport_w,
            viewport_h: self.viewport_h,
            time_ms: self.time_ms,
        }
    }
}

/// The blank form of an input: every discrete event removed, continuous
/// state kept.
pub open spec fn blank_of(v: InputView) -> InputView {
    InputView {
        events: Seq::empty(),
        viewport_w: v.viewport_w,
        viewport_h: v.viewport_h,
        time_ms: v.time_ms,
    }
}

impl InputEvent {
    /// A duplicate with the same spec-level value.
    pub fn dup(&self) -> (r: InputEvent)
        ensures
            r@ == self@,
    {
        match self {
            InputEvent::PointerMoved { x, y } => InputEvent::PointerMoved { x: *x, y: *y },
            InputEvent::PointerButton { x, y, button, pressed } => InputEvent::PointerButton {
                x: *x,
                y: *y,
                button: *button,
                pressed: *pressed,
            },
            InputEvent::Key { code, pressed } => InputEvent::Key {
                code: *code,
                pressed: *pressed,
            },
            InputEvent::Text(t) => InputEvent::Text(dup_bytes(t)),
        }
    }
}

impl InputSnapshot {
    /// A duplicate with the same spec-level value.
    pub fn dup(&self) -> (r: InputSnapshot)
        ensures
            r@ == self@,
    {
        let mut events: Vec<InputEvent> = Vec::new();
        let mut i: usize = 0;
        while i < self.events.len()
            invariant
                i <= self.events.len(),
                events@.len() == i,
                forall|j: int| 0 <= j < i ==> events@[j]@ == self.events@[j]@,
            decreases self.events.len() - i,
        {
            events.push(self.events[i].dup());
            i += 1;
        }
        let r = InputSnapshot {
            events,
            viewport_w: self.viewport_w,
            viewport_h: self.viewport_h,
            time_ms: self.time_ms,
        };
        proof {
            assert(r@.events =~= self@.events);
            assert(r@ =~= self@);
        }
        r
    }

    /// The blank form: the same snapshot with all events stripped.
    pub fn blank(&self) -> (r: InputSnapshot)
        ensures
            r@ == blank_of(self@),
    {
        let r = InputSnapshot {
            events: Vec::new(),
            viewport_w: self.viewport_w,
            viewport_h: self.viewport_h,
            time_ms: self.time_ms,
        };
        proof {
            assert(r@ =~= blank_of(self@));
        }
        r
    }
}

/// Specification encoding of an [`InputEvent`]: a tag byte, then the
/// payload.
pub open spec fn enc_event(e: InputEventView) -> Seq<u8> {
    match e {
        InputEventView::PointerMoved { x, y } => seq![0u8] + enc_i32(x) + enc_i32(y),
        InputEventView::PointerButton { x, y, button, pressed } => seq![1u8] + enc_i32(x) + enc_i32(
            y,
        ) + seq![button] + seq![(if pressed { 1u8 } else { 0u8 })],
        InputEventView::Key { code, pressed } => seq![2u8] + enc_u32(code) + seq![
            (if pressed {
                1u8
            } else {
                0u8
            }),
        ],
        InputEventView::Text(t) => seq![3u8] + enc_byte_seq(t),
    }
}

/// Specification decoding of an [`InputEvent`] from the front of `s`.
pub open spec fn dec_event_at(s: Seq<u8>) -> Option<(InputEventView, int)> {
    if s.len() < 1 {
        None
    } else if s[0] == 0u8 {
        match (dec_i32_at(s.skip(1)), dec_i32_at(s.skip(5))) {
            (Some((x, _)), Some((y, _))) => Some((InputEventView::PointerMoved { x, y }, 9)),
            _ => None,
        }
    } else if s[0] == 1u8 {
        if s.len() >= 11 {
            match (dec_i32_at(s.skip(1)), dec_i32_at(s.skip(5))) {
                (Some((x, _)), Some((y, _))) => if s[10] == 0u8 || s[10] == 1u8 {
                    Some(
                        (
                            InputEventView::PointerButton {
                                x,
                                y,
                                button: s[9],
                                pressed: s[10] == 1u8,
                            },
                            11,
                        ),
                    )
                } else {
                    None
                },
                _ => None,
            }
        } else {
            None
        }
    } else if s[0] == 2u8 {
        if s.len() >= 6 {
            match dec_u32_at(s.skip(1)) {
                Some((code, _)) => if s[5] == 0u8 || s[5] == 1u8 {
                    Some((InputEventView::Key { code, pressed: s[5] == 1u8 }, 6))
                } else {
                    None
                },
                None => None,
            }
        } else {
            None
        }
    } else if s[0] == 3u8 {
        match dec_byte_seq_at(s.skip(1)) {
            Some((t, n)) => Some((InputEventView::Text(t), 1 + n)),
            None => None,
        }
    } else {
        None
    }
}

/// Machine-size bounds under which an event can exist in memory.
pub open spec fn wf_event(e: InputEventView) -> bool {
    match e {
        InputEventView::Text(t) => t.len() <= usize::MAX,
        _ => true,
    }
}

/// Decoding inverts encoding for [`InputEvent`].
#[verifier::rlimit(50)]
pub proof fn lemma_event_round_trip(e: InputEventView, rest: Seq<u8>)
    requires
        wf_event(e),
    ensures
        dec_event_at(enc_event(e) + rest) == Some((e, enc_event(e).len() as int)),
{
    let whole = enc_event(e) + rest;
    match e {
        InputEventView::PointerMoved { x, y } => {
            assert(whole =~= seq![0u8] + (enc_i32(x) + (enc_i32(y) + rest)));
            assert(whole[0] == 0u8);
            assert(whole.skip(1) =~= enc_i32(x) + (enc_i32(y) + rest));
            lemma_i32_round_trip(x, enc_i32(y) + rest);
            assert(whole.skip(5) =~= enc_i32(y) + rest);
            lemma_i32_round_trip(y, rest);
        },
        InputEventView::PointerButton { x, y, button, pressed } => {
            let pb: u8 = if pressed {
                1u8
            } else {
                0u8
            };
            assert(whole =~= seq![1u8] + (enc_i32(x) + (enc_i32(y) + (seq![button] + (seq![pb]
                + rest)))));
            assert(whole[0] == 1u8);
            assert(whole.skip(1) =~= enc_i32(x) + (enc_i32(y) + (seq![button] + (seq![pb]
                + rest))));
            lemma_i32_round_trip(x, enc_i32(y) + (seq![button] + (seq![pb] + rest)));
            assert(whole.skip(5) =~= enc_i32(y) + (seq![button] + (seq![pb] + rest)));
            lemma_i32_round_trip(y, seq![button] + (seq![pb] + rest));
            assert(whole[9] == button);
            assert(whole[10] == pb);
        },
        InputEventView::Key { code, pressed } => {
            let pb: u8 = if pressed {
                1u8
            } else {
                0u8
            };
            assert(whole =~= seq![2u8] + (enc_u32(code) + (seq![pb] + rest)));
            assert(whole[0] == 2u8);
            assert(whole.skip(1) =~= enc_u32(code) + (seq![pb] + rest));
            lemma_u32_round_trip(code, seq![pb] + rest);
            assert(whole[5] == pb);
        },
        InputEventView::Text(t) => {
            assert(whole =~= seq![3u8] + (enc_byte_seq(t) + rest));
            assert(whole[0] == 3u8);
            assert(whole.skip(1) =~= enc_byte_seq(t) + rest);
            lemma_byte_seq_round_trip(t, rest);
        },
    }
}

/// Writes an [`InputEvent`] onto `out`.
pub fn write_event(out: &mut Vec<u8>, e: &InputEvent)
    ensures
        final(out)@ == old(out)@ + enc_event(e@),
{
    match e {
        InputEvent::PointerMoved { x, y } => {
            out.push(0u8);
            write_i32(out, *x);
            write_i32(out, *y);
        },
        InputEvent::PointerButton { x, y, button, pressed } => {
            out.push(1u8);
            write_i32(out, *x);
            write_i32(out, *y);
            out.push(*button);
            out.push(if *pressed {
                1u8
            } else {
                0u8
            });
        },
        InputEvent::Key { code, pressed } => {
            out.push(2u8);
            write_u32(out, *code);
            out.push(if *pressed {
                1u8
            } else {
                0u8
            });
        },
        InputEvent::Text(t) => {
            out.push(3u8);
            write_byte_seq(out, t);
        },
    }
    proof {
        assert(final(out)@ =~= old(out)@ + enc_event(e@));
    }
}

/// Reads an [`InputEvent`] at `*pos`, advancing `*pos` past it on success.
#[verifier::rlimit(60)]
pub fn read_event(bytes: &Vec<u8>, pos: &mut usize) -> (r: Result<InputEvent, WireError>)
    requires
        *old(pos) <= bytes@.len(),
    ensures
        match r {
            Ok(v) => {
                &&& dec_event_at(bytes@.skip(*old(pos) as int)) matches Some((d, n)) && d == v@
                    && *final(pos) == *old(pos) + n
            },
            Err(_) => {
                &&& dec_event_at(bytes@.skip(*old(pos) as int)) is None
                &&& *final(pos) == *old(pos)
            },
        },
        *final(pos) <= bytes@.len(),
        *old(pos) <= *final(pos),
{
    let start: usize = *pos;
    if bytes.len() - *pos < 1 {
        return Err(WireError::Truncated);
    }
    let tag = bytes[*pos];
    *pos = *pos + 1;
    proof {
        assert(bytes@.skip(start as int)[0] == tag);
        assert(bytes@.skip(start as int).skip(1) =~= bytes@.skip(start + 1));
    }
    if tag == 0 {
        if bytes.len() - start < 9 {
            *pos = start;
            return Err(WireError::Truncated);
        }
        proof {
            assert(bytes@.skip(start as int).skip(5) =~= bytes@.skip(start + 5));
        }
        let x = match read_i32(bytes, pos) {
            Ok(v) => v,
            Err(_) => {
                *pos = start;
                return Err(WireError::Truncated);
            },
        };
        let y = match read_i32(bytes, pos) {
            Ok(v) => v,
            Err(_) => {
                *pos = start;
                return Err(WireError::Truncated);
            },
        };
        Ok(InputEvent::PointerMoved { x, y })
    } else if tag == 1 {
        if bytes.len() - start < 11 {
            proof {
                assert(bytes@.skip(start as int).len() < 11);
                assert(dec_event_at(bytes@.skip(start as int)) is None);
            }
            *pos = start;
            return Err(WireError::Truncated);
        }
        proof {
            assert(bytes@.skip(start as int).skip(5) =~= bytes@.skip(start + 5));
        }
        let x = match read_i32(bytes, pos) {
            Ok(v) => v,
            Err(_) => {
                *pos = start;
                return Err(WireError::Truncated);
            },
        };
        let y = match read_i32(bytes, pos) {
            Ok(v) => v,
            Err(_) => {
                *pos = start;
                return Err(WireError::Truncated);
            },
        };
        let button = bytes[*pos];
        let pb = bytes[*pos + 1];
        proof {
            assert(bytes@.skip(start as int)[9] == button);
            assert(bytes@.skip(start as int)[10] == pb);
        }
        *pos = *pos + 2;
        if pb == 0 || pb == 1 {
            Ok(InputEvent::PointerButton { x, y, button, pressed: pb == 1 })
        } else {
            *pos = start;
            Err(WireError::Malformed)
        }
    } else if tag == 2 {
        if bytes.len() - start < 6 {
            proof {
                assert(bytes@.skip(start as int).len() < 6);
                assert(dec_event_at(bytes@.skip(start as int)) is None);
            }
            *pos = start;
            return Err(WireError::Truncated);
        }
        let code = match read_u32(bytes, pos) {
            Ok(v) => v,
            Err(_) => {
                *pos = start;
                return Err(WireError::Truncated);
            },
        };
        let pb = bytes[*pos];
        proof {
            assert(bytes@.skip(start as int)[5] == pb);
        }
        *pos = *pos + 1;
        if pb == 0 || pb == 1 {
            Ok(InputEvent::Key { code, pressed: pb == 1 })
        } else {
            *pos = start;
            Err(WireError::Malformed)
        }
    } else if tag == 3 {
        let t = match read_byte_seq(bytes, pos) {
            Ok(v) => v,
            Err(e) => {
                *pos = start;
                return Err(e);
            },
        };
        Ok(InputEvent::Text(t))
    } else {
        *pos = start;
        Err(WireError::Malformed)
    }
}


/// Specification encoding of an event list without its length prefix.
pub open spec fn enc_event_seq(s: Seq<InputEventView>) -> Seq<u8>
    decreases s.len(),
{
    if s.len() == 0 {
        Seq::empty()
    } else {
        enc_event(s[0]) + enc_event_seq(s.skip(1))
    }
}

/// Specification encoding of an event list: a length prefix, then the
/// events.
pub open spec fn enc_events(s: Seq<InputEventView>) -> Seq<u8> {
    enc_u64(s.len() as u64) + enc_event_seq(s)
}

/// Specification decoding of `count` events from the front of `s`.
pub open spec fn dec_event_seq_at(s: Seq<u8>, count: nat) -> Option<(Seq<InputEventView>, int)>
    decreases count,
{
    if count == 0 {
        Some((Seq::empty(), 0))
    } else {
        match dec_event_at(s) {
            Some((v, n)) => match dec_event_seq_at(s.skip(n), (count - 1) as nat) {
                Some((vs, m)) => Some((seq![v] + vs, n + m)),
                None => None,
            },
            None => None,
        }
    }
}

/// Specification decoding of a length-prefixed event list.
pub open spec fn dec_events_at(s: Seq<u8>) -> Option<(Seq<InputEventView>, int)> {
    match dec_u64_at(s) {
        Some((count, _)) => if count <= usize::MAX as u64 {
            match dec_event_seq_at(s.skip(8), count as nat) {
                Some((vs, m)) => Some((vs, 8 + m)),
                None => None,
            }
        } else {
            None
        },
        None => None,
    }
}

/// Machine-size bounds under which an event list can exist in memory.
pub open spec fn wf_events(s: Seq<InputEventView>) -> bool {
    &&& s.len() <= usize::MAX
    &&& forall|i: int| 0 <= i < s.len() ==> wf_event(#[trigger] s[i])
}

/// Appending one event extends the encoding by that event's bytes.
pub proof fn lemma_enc_event_seq_push(s: Seq<InputEventView>, e: InputEventView)
    ensures
        enc_event_seq(s.push(e)) == enc_event_seq(s) + enc_event(e),
    decreases s.len(),
{
    let sp = s.push(e);
    if s.len() == 0 {
        assert(sp[0] == e);
        assert(sp.skip(1) =~= Seq::<InputEventView>::empty());
        assert(enc_event_seq(sp.skip(1)) == Seq::<u8>::empty());
        assert(enc_event_seq(sp) == enc_event(e) + enc_event_seq(sp.skip(1)));
        assert(enc_event_seq(s) == Seq::<u8>::empty());
        assert(enc_event_seq(sp) =~= enc_event_seq(s) + enc_event(e));
    } else {
        assert(sp[0] == s[0]);
        assert(sp.skip(1) =~= s.skip(1).push(e));
        lemma_enc_event_seq_push(s.skip(1), e);
        assert(enc_event_seq(sp) == enc_event(s[0]) + enc_event_seq(sp.skip(1)));
        assert(enc_event_seq(sp.skip(1)) == enc_event_seq(s.skip(1)) + enc_event(e));
        assert(enc_event_seq(s) == enc_event(s[0]) + enc_event_seq(s.skip(1)));
        lemma_add_assoc(enc_event(s[0]), enc_event_seq(s.skip(1)), enc_event(e));
        assert(enc_event_seq(sp) =~= enc_event_seq(s) + enc_event(e));
    }
}

/// Decoding inverts encoding for an event list of known count.
#[verifier::rlimit(100)]
pub proof fn lemma_event_seq_round_trip(s: Seq<InputEventView>, rest: Seq<u8>)
    requires
        forall|i: int| 0 <= i < s.len() ==> wf_event(#[trigger] s[i]),
    ensures
        dec_event_seq_at(enc_event_seq(s) + rest, s.len() as nat) == Some(
            (s, enc_event_seq(s).len() as int),
        ),
    decreases s.len(),
{
    if s.len() == 0 {
        assert(enc_event_seq(s) + rest =~= rest);
        assert(s =~= Seq::<InputEventView>::empty());
    } else {
        let whole = enc_event_seq(s) + rest;
        let tail = enc_event_seq(s.skip(1)) + rest;
        lemma_add_assoc(enc_event(s[0]), enc_event_seq(s.skip(1)), rest);
        assert(whole == enc_event(s[0]) + tail);
        lemma_event_round_trip(s[0], tail);
        lemma_skip_concat(enc_event(s[0]), tail);
        lemma_event_seq_round_trip(s.skip(1), rest);
        assert(seq![s[0]] + s.skip(1) =~= s);
    }
}

/// Decoding inverts encoding for a length-prefixed event list.
#[verifier::rlimit(100)]
pub proof fn lemma_events_round_trip(s: Seq<InputEventView>, rest: Seq<u8>)
    requires
        wf_events(s),
    ensures
        dec_events_at(enc_events(s) + rest) == Some((s, enc_events(s).len() as int)),
{
    let whole = enc_events(s) + rest;
    let tail = enc_event_seq(s) + rest;
    lemma_add_assoc(enc_u64(s.len() as u64), enc_event_seq(s), rest);
    assert(whole == enc_u64(s.len() as u64) + tail);
    lemma_u64_round_trip(s.len() as u64, tail);
    lemma_skip_concat(enc_u64(s.len() as u64), tail);
    lemma_event_seq_round_trip(s, rest);
}

/// Writes a length-prefixed event list onto `out`.
pub fn write_events(out: &mut Vec<u8>, events: &Vec<InputEvent>)
    ensures
        final(out)@ == old(out)@ + enc_events(events_view(events@)),
{
    write_u64(out, events.len() as u64);
    let mut i: usize = 0;
    while i < events.len()
        invariant
            i <= events.len(),
            out@ == old(out)@ + enc_u64(events@.len() as u64) + enc_event_seq(
                events_view(events@).subrange(0, i as int),
            ),
        decreases events.len() - i,
    {
        let ghost prefix = events_view(events@).subrange(0, i as int);
        write_event(out, &events[i]);
        i += 1;
        proof {
            lemma_enc_event_seq_push(prefix, events@[i - 1]@);
            assert(prefix.push(events@[i - 1]@) =~= events_view(events@).subrange(0, i as int));
            assert(out@ =~= old(out)@ + enc_u64(events@.len() as u64) + enc_event_seq(
                events_view(events@).subrange(0, i as int),
            ));
        }
    }
    proof {
        let all = events_view(events@);
        assert(all.subrange(0, all.len() as int) =~= all);
        assert(out@ =~= old(out)@ + enc_events(all));
    }
}

/// The decoding state half-way through an event list.
#[verifier::opaque]
pub open spec fn events_cont(
    bytes: Seq<u8>,
    base: int,
    cur: int,
    done: Seq<InputEventView>,
    total: nat,
) -> bool {
    match dec_event_seq_at(bytes.skip(cur), (total - done.len()) as nat) {
        Some((vs, m)) => dec_event_seq_at(bytes.skip(base), total) == Some(
            (done + vs, (cur - base) + m),
        ),
        None => dec_event_seq_at(bytes.skip(base), total) is None,
    }
}

/// At the start, with nothing decoded, the continuation holds trivially.
pub proof fn lemma_events_cont_init(bytes: Seq<u8>, base: int, total: nat)
    requires
        0 <= base <= bytes.len(),
    ensures
        events_cont(bytes, base, base, Seq::empty(), total),
{
    reveal(events_cont);
    match dec_event_seq_at(bytes.skip(base), total) {
        Some((vs, m)) => {
            assert(Seq::<InputEventView>::empty() + vs =~= vs);
        },
        None => {},
    }
}

/// One decoded event advances the continuation.
pub proof fn lemma_events_cont_step(
    bytes: Seq<u8>,
    base: int,
    cur: int,
    nxt: int,
    done: Seq<InputEventView>,
    e: InputEventView,
    total: nat,
)
    requires
        events_cont(bytes, base, cur, done, total),
        done.len() < total,
        dec_event_at(bytes.skip(cur)) == Some((e, nxt - cur)),
        0 <= base <= cur <= nxt <= bytes.len(),
    ensures
        events_cont(bytes, base, nxt, done.push(e), total),
{
    reveal(events_cont);
    let rem0 = (total - done.len()) as nat;
    let rem1 = (total - done.len() - 1) as nat;
    lemma_skip_twice(bytes, cur, nxt - cur);
    assert(bytes.skip(cur).skip(nxt - cur) == bytes.skip(nxt));
    match dec_event_seq_at(bytes.skip(nxt), rem1) {
        Some((vs, m)) => {
            assert(dec_event_seq_at(bytes.skip(cur), rem0) == Some(
                (seq![e] + vs, (nxt - cur) + m),
            ));
            assert(done + (seq![e] + vs) =~= done.push(e) + vs);
        },
        None => {
            assert(dec_event_seq_at(bytes.skip(cur), rem0) is None);
        },
    }
}

/// A failing event read half-way through means the whole list fails.
pub proof fn lemma_events_cont_fail(
    bytes: Seq<u8>,
    base: int,
    cur: int,
    done: Seq<InputEventView>,
    total: nat,
)
    requires
        events_cont(bytes, base, cur, done, total),
        done.len() < total,
        dec_event_at(bytes.skip(cur)) is None,
    ensures
        dec_event_seq_at(bytes.skip(base), total) is None,
{
    reveal(events_cont);
    assert(dec_event_seq_at(bytes.skip(cur), (total - done.len()) as nat) is None);
}

/// When every event was decoded, the continuation gives the whole result.
pub proof fn lemma_events_cont_finish(
    bytes: Seq<u8>,
    base: int,
    cur: int,
    done: Seq<InputEventView>,
    total: nat,
)
    requires
        events_cont(bytes, base, cur, done, total),
        done.len() == total,
    ensures
        dec_event_seq_at(bytes.skip(base), total) == Some((done, cur - base)),
{
    reveal(events_cont);
    assert(dec_event_seq_at(bytes.skip(cur), 0) == Some((Seq::<InputEventView>::empty(), 0int)));
    assert(done + Seq::<InputEventView>::empty() =~= done);
}

/// Reads a length-prefixed event list at `*pos`.
#[verifier::rlimit(100)]
pub fn read_events(bytes: &Vec<u8>, pos: &mut usize) -> (r: Result<Vec<InputEvent>, WireError>)
    requires
        *old(pos) <= bytes@.len(),
    ensures
        match r {
            Ok(v) => {
                &&& dec_events_at(bytes@.skip(*old(pos) as int)) matches Some((d, n)) && d
                    == events_view(v@) && *final(pos) == *old(pos) + n
            },
            Err(_) => {
                &&& dec_events_at(bytes@.skip(*old(pos) as int)) is None
                &&& *final(pos) == *old(pos)
            },
        },
        *final(pos) <= bytes@.len(),
        *old(pos) <= *final(pos),
{
    let start: usize = *pos;
    let count64 = match read_u64(bytes, pos) {
        Ok(v) => v,
        Err(e) => {
            return Err(e);
        },
    };
    if count64 > usize::MAX as u64 {
        *pos = start;
        return Err(WireError::Malformed);
    }
    let count = count64 as usize;
    let mut out: Vec<InputEvent> = Vec::new();
    let mut k: usize = 0;
    proof {
        assert(bytes@.skip(start as int).skip(8) =~= bytes@.skip(start + 8));
        lemma_events_cont_init(bytes@, start + 8, count as nat);
        assert(events_view(out@) =~= Seq::<InputEventView>::empty());
    }
    while k < count
        invariant
            k <= count,
            *pos <= bytes@.len(),
            out@.len() == k,
            start == *old(pos),
            start <= bytes@.len(),
            dec_u64_at(bytes@.skip(start as int)) == Some((count as u64, 8int)),
            count <= usize::MAX,
            start + 8 <= *pos,
            events_cont(bytes@, start + 8, *pos as int, events_view(out@), count as nat),
        decreases count - k,
    {
        let ghost pos0: usize = *pos;
        let ghost done0 = events_view(out@);
        let e = match read_event(bytes, pos) {
            Ok(v) => v,
            Err(_) => {
                proof {
                    lemma_events_cont_fail(bytes@, start + 8, *pos as int, done0, count as nat);
                    assert(bytes@.skip(start as int).skip(8) =~= bytes@.skip(start + 8));
                    assert(dec_events_at(bytes@.skip(start as int)) is None);
                }
                *pos = start;
                return Err(WireError::Truncated);
            },
        };
        out.push(e);
        k += 1;
        proof {
            lemma_events_cont_step(
                bytes@,
                start + 8,
                pos0 as int,
                *pos as int,
                done0,
                out@[k - 1]@,
                count as nat,
            );
            assert(done0.push(out@[k - 1]@) =~= events_view(out@));
        }
    }
    proof {
        lemma_events_cont_finish(bytes@, start + 8, *pos as int, events_view(out@), count as nat);
        assert(bytes@.skip(start as int).skip(8) =~= bytes@.skip(start + 8));
        assert(dec_events_at(bytes@.skip(start as int)) == Some((events_view(out@), *pos - start)));
    }
    Ok(out)
}

/// Specification encoding of an [`InputSnapshot`]: events, then viewport
/// size, then timestamp.
pub open spec fn enc_input(v: InputView) -> Seq<u8> {
    enc_events(v.events) + enc_u32(v.viewport_w) + enc_u32(v.viewport_h) + enc_u64(v.time_ms)
}

/// Specification decoding of an [`InputSnapshot`] from the front of `s`.
pub open spec fn dec_input_at(s: Seq<u8>) -> Option<(InputView, int)> {
    match dec_events_at(s) {
        Some((events, n1)) => match dec_u32_at(s.skip(n1)) {
            Some((viewport_w, _)) => match dec_u32_at(s.skip(n1 + 4)) {
                Some((viewport_h, _)) => match dec_u64_at(s.skip(n1 + 8)) {
                    Some((time_ms, _)) => Some(
                        (InputView { events, viewport_w, viewport_h, time_ms }, n1 + 16),
                    ),
                    None => None,
                },
                None => None,
            },
            None => None,
        },
        None => None,
    }
}

/// Machine-size bounds under which a snapshot can exist in memory.
pub open spec fn wf_input(v: InputView) -> bool {
    wf_events(v.events)
}

/// Decoding inverts encoding for [`InputSnapshot`].
#[verifier::rlimit(100)]
pub proof fn lemma_input_round_trip(v: InputView, rest: Seq<u8>)
    requires
        wf_input(v),
    ensures
        dec_input_at(enc_input(v) + rest) == Some((v, enc_input(v).len() as int)),
{
    let whole = enc_input(v) + rest;
    let t3 = enc_u64(v.time_ms) + rest;
    let t2 = enc_u32(v.viewport_h) + t3;
    let t1 = enc_u32(v.viewport_w) + t2;
    lemma_add_assoc(
        enc_events(v.events) + enc_u32(v.viewport_w) + enc_u32(v.viewport_h),
        enc_u64(v.time_ms),
        rest,
    );
    lemma_add_assoc(enc_events(v.events) + enc_u32(v.viewport_w), enc_u32(v.viewport_h), t3);
    lemma_add_assoc(enc_events(v.events), enc_u32(v.viewport_w), t2);
    assert(whole == enc_events(v.events) + t1);
    lemma_events_round_trip(v.events, t1);
    let n1 = enc_events(v.events).len() as int;
    lemma_skip_concat(enc_events(v.events), t1);
    assert(whole.skip(n1) == t1);
    lemma_u32_round_trip(v.viewport_w, t2);
    lemma_skip_twice(whole, n1, 4);
    lemma_skip_concat(enc_u32(v.viewport_w), t2);
    assert(whole.skip(n1 + 4) == t2);
    lemma_u32_round_trip(v.viewport_h, t3);
    lemma_skip_twice(whole, n1 + 4, 4);
    lemma_skip_concat(enc_u32(v.viewport_h), t3);
    assert(whole.skip(n1 + 8) == t3);
    lemma_u64_round_trip(v.time_ms, rest);
    assert(dec_input_at(whole) == Some((v, n1 + 16)));
}

/// Writes an [`InputSnapshot`] onto `out`.
pub fn write_input(out: &mut Vec<u8>, v: &InputSnapshot)
    ensures
        final(out)@ == old(out)@ + enc_input(v@),
{
    write_events(out, &v.events);
    write_u32(out, v.viewport_w);
    write_u32(out, v.viewport_h);
    write_u64(out, v.time_ms);
    proof {
        assert(final(out)@ =~= old(out)@ + enc_input(v@));
    }
}

/// Reads an [`InputSnapshot`] at `*pos`, advancing `*pos` past it on
/// success.
pub fn read_input(bytes: &Vec<u8>, pos: &mut usize) -> (r: Result<InputSnapshot, WireError>)
    requires
        *old(pos) <= bytes@.len(),
    ensures
        match r {
            Ok(v) => {
                &&& dec_input_at(bytes@.skip(*old(pos) as int)) matches Some((d, n)) && d == v@
                    && *final(pos) == *old(pos) + n
            },
            Err(_) => {
                &&& dec_input_at(bytes@.skip(*old(pos) as int)) is None
                &&& *final(pos) == *old(pos)
            },
        },
        *final(pos) <= bytes@.len(),
        *old(pos) <= *final(pos),
{
    let start: usize = *pos;
    let events = match read_events(bytes, pos) {
        Ok(v) => v,
        Err(e) => {
            return Err(e);
        },
    };
    let ghost n1: int = *pos as int - start as int;
    proof {
        lemma_skip_twice(bytes@, start as int, n1);
        assert(bytes@.skip(start as int).skip(n1) == bytes@.skip(*pos as int));
    }
    let viewport_w = match read_u32(bytes, pos) {
        Ok(v) => v,
        Err(e) => {
            *pos = start;
            return Err(e);
        },
    };
    proof {
        lemma_skip_twice(bytes@, start as int, n1 + 4);
        assert(bytes@.skip(start as int).skip(n1 + 4) == bytes@.skip(*pos as int));
    }
    let viewport_h = match read_u32(bytes, pos) {
        Ok(v) => v,
        Err(e) => {
            *pos = start;
            return Err(e);
        },
    };
    proof {
        lemma_skip_twice(bytes@, start as int, n1 + 8);
        assert(bytes@.skip(start as int).skip(n1 + 8) == bytes@.skip(*pos as int));
    }
    let time_ms = match read_u64(bytes, pos) {
        Ok(v) => v,
        Err(e) => {
            *pos = start;
            return Err(e);
        },
    };
    let r = InputSnapshot { events, viewport_w, viewport_h, time_ms };
    proof {
        assert(r@ =~= InputView {
            events: events_view(events@),
            viewport_w,
            viewport_h,
            time_ms,
        });
    }
    Ok(r)
}

} // verus!
