//! Per-viewer session logic: the decisions the host makes on every tick.
//!
//! The embedding's render loop owns the outside work — draining queues and
//! running the UI toolkit — and drives these functions with plain values:
//! for each drained packet it runs the UI callback and hands the resulting
//! frame, plus whether the toolkit requested a repaint, back to the
//! session. The session decides what is recorded, what is sent and what is
//! suppressed:
//!
//! - a packet whose UI run requested no repaint produces no outbound
//!   message that tick (bandwidth suppression);
//! - the latest input is kept in *blank* form (events stripped) so the
//!   viewer can be re-rendered without fresh input;
//! - a viewer that sent nothing is re-rendered from that blank input only
//!   when the force-update flag is set, because some session's action
//!   changed shared state last tick;
//! - whether *any* session requested a repaint this tick becomes the next
//!   tick's force-update flag for all sessions, which is how one viewer's
//!   change propagates to every other viewer.

use vstd::prelude::*;

use crate::ClientToServer;
use crate::ServerToClient;
use crate::delta_encoding::Encoder;
use crate::delta_encoding::UpdateView;
use crate::delta_encoding::encode_ops;
use crate::frame::Frame;
use crate::frame::FrameView;
use crate::input::InputSnapshot;
use crate::input::InputView;
use crate::input::blank_of;

verus! {

/// What one UI-callback run produced: the frame, and whether the toolkit
/// asked for the result to be painted.
pub struct UiResponse {
    pub frame: Frame,
    pub repaint_requested: bool,
}

/// The per-viewer handler around the UI toolkit's execution context: it
/// keeps the latest input in blank form. The context itself lives with the
/// embedding; this type holds the decisions around it.
pub struct ClientGuiHandler {
    latest_blank_input: Option<InputSnapshot>,
}

impl ClientGuiHandler {
    /// The recorded blank input, if any packet arrived yet.
    pub closed spec fn blank_view(&self) -> Option<InputView> {
        match self.latest_blank_input {
            Some(b) => Some(b@),
            None => None,
        }
    }

    /// A fresh handler: no input seen yet.
    pub fn new() -> (r: ClientGuiHandler)
        ensures
            r.blank_view() is None,
    {
        ClientGuiHandler { latest_blank_input: None }
    }

    /// Handles one packet whose input was just run through the UI callback:
    /// records the packet's input in blank form, and passes the frame on
    /// exactly when the toolkit requested a repaint — otherwise nothing is
    /// sent for this packet.
    pub fn handle_packet_in_ui(&mut self, packet: &ClientToServer, ui: UiResponse) -> (r: Option<
        Frame,
    >)
        ensures
            final(self).blank_view() == Some(blank_of(packet@.raw_input)),
            if ui.repaint_requested {
                r matches Some(f) && f@ == ui.frame@
            } else {
                r is None
            },
    {
        self.latest_blank_input = Some(packet.raw_input.blank());
        if ui.repaint_requested {
            Some(ui.frame)
        } else {
            None
        }
    }

    /// The blank input to replay when this viewer must be re-rendered
    /// without fresh input of its own; none before any packet arrived.
    pub fn blank_input(&self) -> (r: Option<InputSnapshot>)
        ensures
            match r {
                Some(b) => self.blank_view() == Some(b@),
                None => self.blank_view() is None,
            },
    {
        match &self.latest_blank_input {
            Some(b) => Some(b.dup()),
            None => None,
        }
    }

    /// Handles the result of a blank-input replay: the frame is passed on
    /// exactly when the toolkit requested a repaint. The recorded blank
    /// input is kept as it was.
    pub fn handle_blank_packet_in_ui(&mut self, ui: UiResponse) -> (r: Option<Frame>)
        ensures
            final(self).blank_view() == old(self).blank_view(),
            if ui.repaint_requested {
                r matches Some(f) && f@ == ui.frame@
            } else {
                r is None
            },
    {
        if ui.repaint_requested {
            Some(ui.frame)
        } else {
            None
        }
    }
}

/// Whether a session with no fresh input this tick must still be
/// re-rendered from its blank input: only when the force-update flag is
/// set and nothing arrived.
pub fn needs_blank_update(had_input: bool, force_update: bool) -> (r: bool)
    ensures
        r == (force_update && !had_input),
{
    force_update && !had_input
}

/// One connected viewer's host-side state: the handler around its UI
/// context and its own delta encoder. The connection's queues stay with
/// the embedding.
pub struct Client {
    pub gui_handler: ClientGuiHandler,
    pub encoder: Encoder,
}

impl Client {
    /// Well-formed: the encoder's dictionary matches its baseline.
    pub open spec fn wf(&self) -> bool {
        self.encoder.wf()
    }

    /// A fresh viewer state.
    pub fn new() -> (r: Client)
        ensures
            r.wf(),
            r.gui_handler.blank_view() is None,
            r.encoder.baseline_view() is None,
            r.encoder.counter_spec() == 0,
    {
        Client { gui_handler: ClientGuiHandler::new(), encoder: Encoder::new() }
    }

    /// Handles one packet after its UI run: records the blank input, and
    /// when the toolkit requested a repaint, encodes the frame into the
    /// outbound message for this viewer; a run without a repaint request
    /// yields no message.
    pub fn handle_packet(&mut self, packet: &ClientToServer, ui: UiResponse) -> (r: Option<
        ServerToClient,
    >)
        requires
            old(self).wf(),
            old(self).encoder.counter_spec() < usize::MAX,
        ensures
            final(self).wf(),
            final(self).gui_handler.blank_view() == Some(blank_of(packet@.raw_input)),
            final(self).encoder.interval_spec() == old(self).encoder.interval_spec(),
            if ui.repaint_requested {
                ({
                    let bumped = old(self).encoder.counter_spec() + 1;
                    let forced_full = bumped > old(self).encoder.interval_spec();
                    let partial_mode = !forced_full && old(self).encoder.baseline_view() is Some;
                    &&& r matches Some(msg)
                    &&& if partial_mode {
                        msg@.update == UpdateView::Partial(
                            FrameView { items: Seq::empty(), platform: ui.frame@.platform },
                            encode_ops(old(self).encoder.baseline_view()->Some_0, ui.frame@.items),
                        )
                    } else {
                        msg@.update == UpdateView::FullUpdate(ui.frame@)
                    }
                })
            } else {
                r is None && final(self).encoder == old(self).encoder
            },
    {
        match self.gui_handler.handle_packet_in_ui(packet, ui) {
            Some(frame) => {
                let update = self.encoder.encode(&frame);
                Some(ServerToClient { update })
            },
            None => None,
        }
    }

    /// Handles the result of a blank-input replay: when the toolkit
    /// requested a repaint, the frame is encoded into the outbound message;
    /// otherwise nothing is sent.
    pub fn handle_blank(&mut self, ui: UiResponse) -> (r: Option<ServerToClient>)
        requires
            old(self).wf(),
            old(self).encoder.counter_spec() < usize::MAX,
        ensures
            final(self).wf(),
            final(self).gui_handler.blank_view() == old(self).gui_handler.blank_view(),
            final(self).encoder.interval_spec() == old(self).encoder.interval_spec(),
            if ui.repaint_requested {
                ({
                    let bumped = old(self).encoder.counter_spec() + 1;
                    let forced_full = bumped > old(self).encoder.interval_spec();
                    let partial_mode = !forced_full && old(self).encoder.baseline_view() is Some;
                    &&& r matches Some(msg)
                    &&& if partial_mode {
                        msg@.update == UpdateView::Partial(
                            FrameView { items: Seq::empty(), platform: ui.frame@.platform },
                            encode_ops(old(self).encoder.baseline_view()->Some_0, ui.frame@.items),
                        )
                    } else {
                        msg@.update == UpdateView::FullUpdate(ui.frame@)
                    }
                })
            } else {
                r is None && final(self).encoder == old(self).encoder
            },
    {
        match self.gui_handler.handle_blank_packet_in_ui(ui) {
            Some(frame) => {
                let update = self.encoder.encode(&frame);
                Some(ServerToClient { update })
            },
            None => None,
        }
    }
}

/// The render loop's cross-session state: the force-update flag. It is
/// recomputed every tick from whether any session requested a repaint, and
/// only the single render-loop thread touches it.
pub struct Server {
    pub force_repaint: bool,
}

impl Server {
    /// A fresh server: no session has changed anything yet.
    pub fn new() -> (r: Server)
        ensures
            !r.force_repaint,
    {
        Server { force_repaint: false }
    }

    /// The flag sessions see this tick: whether some session's action last
    /// tick requires every session to re-render now.
    pub fn begin_tick(&self) -> (r: bool)
        ensures
            r == self.force_repaint,
    {
        self.force_repaint
    }

    /// Folds one session's outcome into this tick's accumulator.
    pub fn note_repaint(any_so_far: bool, this_session: bool) -> (r: bool)
        ensures
            r == (any_so_far || this_session),
    {
        any_so_far || this_session
    }

    /// Ends the tick: whether any session requested a repaint becomes the
    /// force-update flag every session sees next tick. This is how one
    /// viewer's change propagates to all viewers that share state.
    pub fn end_tick(&mut self, any_requested_repaint: bool)
        ensures
            final(self).force_repaint == any_requested_repaint,
    {
        self.force_repaint = any_requested_repaint;
    }
}

} // verus!
