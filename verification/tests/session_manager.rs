use meterm::delta_encoding::UpdateData;
use meterm::frame::{DrawItem, Frame, PlatformOutput, Point, Rect, ShapeData};
use meterm::input::{InputEvent, InputSnapshot};
use meterm::session::{needs_blank_update, Client, ClientGuiHandler, Server, UiResponse};
use meterm::utils::{AuxStore, ClientIdentifier};
use meterm::ClientToServer;

fn input_with_click() -> InputSnapshot {
    InputSnapshot {
        events: vec![InputEvent::PointerButton { x: 10, y: 10, button: 0, pressed: true }],
        viewport_w: 640,
        viewport_h: 480,
        time_ms: 1000,
    }
}

fn some_frame(color: u32) -> Frame {
    Frame {
        items: vec![DrawItem {
            clip: Rect { min_x: 0, min_y: 0, max_x: 640, max_y: 480 },
            shape: ShapeData::Path { points: vec![Point { x: 1, y: 2 }], color },
        }],
        platform: PlatformOutput::new(),
    }
}

fn ui(frame: Frame, repaint: bool) -> UiResponse {
    UiResponse { frame, repaint_requested: repaint }
}

#[test]
fn suppression_without_repaint() {
    // A tick whose input produced no repaint request sends nothing.
    let mut client = Client::new();
    let packet = ClientToServer { raw_input: input_with_click() };
    let out = client.handle_packet(&packet, ui(some_frame(1), false));
    assert!(out.is_none());
}

#[test]
fn repaint_produces_a_message() {
    let mut client = Client::new();
    let packet = ClientToServer { raw_input: input_with_click() };
    let out = client.handle_packet(&packet, ui(some_frame(1), true));
    let msg = out.expect("a repainting tick sends an update");
    assert!(matches!(msg.update, UpdateData::FullUpdate(_)));
}

#[test]
fn blank_input_strips_events() {
    let mut handler = ClientGuiHandler::new();
    assert!(handler.blank_input().is_none());
    let packet = ClientToServer { raw_input: input_with_click() };
    handler.handle_packet_in_ui(&packet, ui(some_frame(1), true));
    let blank = handler.blank_input().expect("blank recorded after a packet");
    assert!(blank.events.is_empty());
    assert_eq!(blank.viewport_w, 640);
    assert_eq!(blank.viewport_h, 480);
    assert_eq!(blank.time_ms, 1000);
}

#[test]
fn propagation_to_idle_viewer() {
    // Viewer A's input changes shared state and repaints; on the next tick
    // viewer B, which sent nothing, is re-rendered from its blank input and
    // still receives an update.
    let mut server = Server::new();
    let mut a = Client::new();
    let mut b = Client::new();

    // Tick one: both viewers send their first input and repaint.
    let force = server.begin_tick();
    assert!(!force);
    let mut any = false;
    let pa = ClientToServer { raw_input: input_with_click() };
    let out_a = a.handle_packet(&pa, ui(some_frame(1), true));
    assert!(out_a.is_some());
    any = Server::note_repaint(any, true);
    let pb = ClientToServer { raw_input: input_with_click() };
    let out_b = b.handle_packet(&pb, ui(some_frame(1), true));
    assert!(out_b.is_some());
    any = Server::note_repaint(any, true);
    server.end_tick(any);

    // Tick two: only A sends input; its action repaints shared state.
    let force = server.begin_tick();
    assert!(force);
    let mut any = false;
    let pa = ClientToServer { raw_input: input_with_click() };
    let out_a = a.handle_packet(&pa, ui(some_frame(2), true));
    assert!(out_a.is_some());
    any = Server::note_repaint(any, true);
    // B drained nothing, but the force flag was set, so it replays blank.
    assert!(needs_blank_update(false, force));
    let blank = b.gui_handler.blank_input().expect("b saw input on tick one");
    assert!(blank.events.is_empty());
    let out_b = b.handle_blank(ui(some_frame(2), true));
    let msg_b = out_b.expect("the idle viewer still receives the change");
    assert!(matches!(msg_b.update, UpdateData::Partial(..)));
    any = Server::note_repaint(any, true);
    server.end_tick(any);
}

#[test]
fn no_blank_replay_without_force() {
    assert!(!needs_blank_update(false, false));
    assert!(!needs_blank_update(true, true));
    assert!(needs_blank_update(false, true));
}

#[test]
fn blank_replay_without_repaint_sends_nothing() {
    let mut client = Client::new();
    let packet = ClientToServer { raw_input: input_with_click() };
    client.handle_packet(&packet, ui(some_frame(1), true));
    let out = client.handle_blank(ui(some_frame(1), false));
    assert!(out.is_none());
}

#[test]
fn client_identifier_is_stable_per_session() {
    let mut ids = ClientIdentifier::new();
    let mut store_a: AuxStore<usize> = AuxStore::new();
    let mut store_b: AuxStore<usize> = AuxStore::new();
    let ia1 = ids.get_idx(&mut store_a);
    let ib1 = ids.get_idx(&mut store_b);
    let ia2 = ids.get_idx(&mut store_a);
    let ib2 = ids.get_idx(&mut store_b);
    assert_eq!(ia1, 0);
    assert_eq!(ib1, 1);
    assert_eq!(ia2, ia1);
    assert_eq!(ib2, ib1);
}
