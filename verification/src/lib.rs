//! Remote-viewer synchronization library.
//!
//! A host process drives many remote viewers of an interactively rendered
//! surface. Each tick, a viewer's input snapshot ([`input::InputSnapshot`])
//! is fed to the embedding's UI callback, the resulting frame
//! ([`frame::Frame`]) is compressed by the delta codec
//! ([`delta_encoding::Encoder`]) into a full or partial update, and the
//! update travels as one compressed wire message. On the viewer, the
//! matching [`delta_encoding::Decoder`] reconstructs a displayable frame,
//! resolving references against its baseline and rebuilding text layouts
//! through a content-addressed cache ([`hash_abuse::ContentCache`]).
//!
//! This crate holds the data model, the codec, the wire format and the
//! per-session tick logic, all with verified contracts. Network transport
//! and the UI toolkit stay outside; they exchange plain values with this
//! library.

use vstd::prelude::*;

pub mod delta_encoding;
pub mod frame;
pub mod hash_abuse;
pub mod input;
pub mod session;
pub mod utils;
pub mod wire;

use delta_encoding::UpdateData;
use delta_encoding::UpdateView;
use input::InputSnapshot;
use input::InputView;
use input::enc_input;
use input::lemma_input_round_trip;
use input::read_input;
use input::wf_input;
use input::write_input;
use wire::WireError;
use wire::enc_update;
use wire::lemma_update_round_trip;
use wire::read_update;
use wire::wf_update;
use wire::write_update;

verus! {

/// One host-to-viewer message: an update.
#[derive(Debug, PartialEq, Eq)]
pub struct ServerToClient {
    pub update: UpdateData,
}

/// Spec-level value of a [`ServerToClient`].
#[verifier::ext_equal]
pub ghost struct ServerToClientView {
    pub update: UpdateView,
}

impl View for ServerToClient {
    type V = ServerToClientView;

    open spec fn view(&self) -> ServerToClientView {
        ServerToClientView { update: self.update@ }
    }
}

/// One viewer-to-host message: a raw-input snapshot.
#[derive(Debug, PartialEq, Eq)]
pub struct ClientToServer {
    pub raw_input: InputSnapshot,
}

/// Spec-level value of a [`ClientToServer`].
#[verifier::ext_equal]
pub ghost struct ClientToServerView {
    pub raw_input: InputView,
}

impl View for ClientToServer {
    type V = ClientToServerView;

    open spec fn view(&self) -> ClientToServerView {
        ClientToServerView { raw_input: self.raw_input@ }
    }
}

/// The compressed form of a byte sequence: what the block compressor, with
/// the uncompressed size prepended, produces for it. The compressor is a
/// deterministic function of its input alone; its output is not restated
/// here, only named.
pub uninterp spec fn lz4_block_of(s: Seq<u8>) -> Seq<u8>;

/// Relies on lz4_flex::compress_prepend_size: deterministic block
/// compression of the input bytes alone, with the uncompressed size
/// prepended as a 32-bit count.
#[verifier::external_body]
fn lz4_compress(input: &Vec<u8>) -> (r: Vec<u8>)
    requires
        input@.len() <= u32::MAX,
    ensures
        r@ == lz4_block_of(input@),
{
    lz4_flex::compress_prepend_size(input.as_slice())
}

/// Relies on lz4_flex::decompress_size_prepended: block compression is
/// lossless, so decompressing what compress_prepend_size produced yields
/// exactly the original bytes; any failure is mapped to `None`.
#[verifier::external_body]
fn lz4_decompress(input: &Vec<u8>) -> (r: Option<Vec<u8>>)
    ensures
        match r {
            Some(v) => forall|x: Seq<u8>|
                x.len() <= u32::MAX && input@ == lz4_block_of(x) ==> v@ == x,
            None => forall|x: Seq<u8>| x.len() <= u32::MAX ==> input@ != lz4_block_of(x),
        },
{
    match lz4_flex::decompress_size_prepended(input.as_slice()) {
        Ok(v) => Some(v),
        Err(_) => None,
    }
}

/// Serializes one host-to-viewer message: the update's wire encoding,
/// compressed. Fails only when the encoded update cannot be framed by the
/// compressor's 32-bit size prefix.
pub fn serialize(val: &ServerToClient) -> (r: Result<Vec<u8>, WireError>)
    ensures
        match r {
            Ok(v) => enc_update(val@.update).len() <= u32::MAX && v@ == lz4_block_of(
                enc_update(val@.update),
            ),
            Err(_) => enc_update(val@.update).len() > u32::MAX,
        },
{
    let mut plain: Vec<u8> = Vec::new();
    write_update(&mut plain, &val.update);
    if plain.len() as u64 > u32::MAX as u64 {
        return Err(WireError::Malformed);
    }
    Ok(lz4_compress(&plain))
}

/// Deserializes one host-to-viewer message: decompress, then decode the
/// update. Whatever [`serialize`] produced deserializes back to the same
/// message; bytes that decompress but do not hold exactly one update are
/// rejected.
pub fn deserialize(bytes: &Vec<u8>) -> (r: Result<ServerToClient, WireError>)
    ensures
        forall|u: UpdateView|
            wf_update(u) && enc_update(u).len() <= u32::MAX && bytes@ == lz4_block_of(
                enc_update(u),
            ) ==> (r matches Ok(m) && m@.update == u),
{
    let plain = match lz4_decompress(bytes) {
        Some(v) => v,
        None => {
            return Err(WireError::Truncated);
        },
    };
    let mut pos: usize = 0;
    let r_update = read_update(&plain, &mut pos);
    let trailing = match &r_update {
        Ok(_) => pos != plain.len(),
        Err(_) => false,
    };
    proof {
        assert forall|u: UpdateView|
            wf_update(u) && enc_update(u).len() <= u32::MAX && bytes@ == lz4_block_of(
                enc_update(u),
            ) implies r_update matches Ok(upd) && upd@ == u && !trailing by {
            lemma_update_round_trip(u, Seq::empty());
            assert(enc_update(u) + Seq::<u8>::empty() =~= enc_update(u));
            assert(plain@ == enc_update(u));
            assert(plain@.skip(0) =~= plain@);
        }
    }
    match r_update {
        Ok(update) => {
            if trailing {
                Err(WireError::Malformed)
            } else {
                Ok(ServerToClient { update })
            }
        },
        Err(e) => Err(e),
    }
}

/// Serializes one viewer-to-host message: the input snapshot's wire
/// encoding, compressed. Fails only when the encoded snapshot cannot be
/// framed by the compressor's 32-bit size prefix.
pub fn serialize_input(val: &ClientToServer) -> (r: Result<Vec<u8>, WireError>)
    ensures
        match r {
            Ok(v) => enc_input(val@.raw_input).len() <= u32::MAX && v@ == lz4_block_of(
                enc_input(val@.raw_input),
            ),
            Err(_) => enc_input(val@.raw_input).len() > u32::MAX,
        },
{
    let mut plain: Vec<u8> = Vec::new();
    write_input(&mut plain, &val.raw_input);
    if plain.len() as u64 > u32::MAX as u64 {
        return Err(WireError::Malformed);
    }
    Ok(lz4_compress(&plain))
}

/// Deserializes one viewer-to-host message: decompress, then decode the
/// input snapshot. Whatever [`serialize_input`] produced deserializes back
/// to the same message; trailing bytes are rejected.
pub fn deserialize_input(bytes: &Vec<u8>) -> (r: Result<ClientToServer, WireError>)
    ensures
        forall|v: InputView|
            wf_input(v) && enc_input(v).len() <= u32::MAX && bytes@ == lz4_block_of(
                enc_input(v),
            ) ==> (r matches Ok(m) && m@.raw_input == v),
{
    let plain = match lz4_decompress(bytes) {
        Some(v) => v,
        None => {
            return Err(WireError::Truncated);
        },
    };
    let mut pos: usize = 0;
    let r_input = read_input(&plain, &mut pos);
    let trailing = match &r_input {
        Ok(_) => pos != plain.len(),
        Err(_) => false,
    };
    proof {
        assert forall|v: InputView|
            wf_input(v) && enc_input(v).len() <= u32::MAX && bytes@ == lz4_block_of(
                enc_input(v),
            ) implies r_input matches Ok(inp) && inp@ == v && !trailing by {
            lemma_input_round_trip(v, Seq::empty());
            assert(enc_input(v) + Seq::<u8>::empty() =~= enc_input(v));
            assert(plain@ == enc_input(v));
            assert(plain@.skip(0) =~= plain@);
        }
    }
    match r_input {
        Ok(raw_input) => {
            if trailing {
                Err(WireError::Malformed)
            } else {
                Ok(ClientToServer { raw_input })
            }
        },
        Err(e) => Err(e),
    }
}

} // verus!
