//! Reading a packet from the bytes of a connection. A connection is read
//! once, into a buffer of fixed capacity: what lies beyond the capacity is
//! never looked at.

use vstd::prelude::*;
use vstd::slice::slice_subrange;
use vstd::utf8::{
    decode_utf8, encode_utf8, encode_utf8_decode_utf8, encode_utf8_valid_utf8, valid_utf8,
};
use crate::packet::{
    canonical, decoded, lemma_decode_ignores_trailer, NormanPacket, PacketView, ParseError,
    ParseErrorView, SEPARATOR, lemma_lookup_tables, wire_text,
};
use crate::text::free_of;

verus! {

/// The number of bytes that one read of a connection takes at most.
pub const READ_CAPACITY: usize = 512;

/// Why the bytes read from a connection are not a packet.
#[derive(PartialEq, Clone, Debug)]
pub enum FrameError {
    /// The bytes are not UTF-8 text.
    NotText,
    /// The text is not the wire form of a packet.
    NotPacket(ParseError),
}

/// A frame error as a mathematical value.
pub enum FrameErrorView {
    NotText,
    NotPacket(ParseErrorView),
}

impl View for FrameError {
    type V = FrameErrorView;

    open spec fn view(&self) -> FrameErrorView {
        match self {
            FrameError::NotText => FrameErrorView::NotText,
            FrameError::NotPacket(error) => FrameErrorView::NotPacket(error@),
        }
    }
}

/// The part of the received bytes that is read: all of them up to the read
/// capacity, and the first `READ_CAPACITY` of more.
pub open spec fn window(received: Seq<u8>) -> Seq<u8> {
    if received.len() <= READ_CAPACITY {
        received
    } else {
        received.take(READ_CAPACITY as int)
    }
}

/// What reading a frame gives: the bytes in the window are taken as UTF-8
/// text, and the text is decoded as a packet.
pub open spec fn frame_decoded(received: Seq<u8>) -> Result<PacketView, FrameErrorView> {
    let bytes = window(received);
    if !valid_utf8(bytes) {
        Err(FrameErrorView::NotText)
    } else {
        match decoded(decode_utf8(bytes)) {
            Ok(packet) => Ok(packet),
            Err(error) => Err(FrameErrorView::NotPacket(error)),
        }
    }
}

/// The view of the result of reading a frame.
pub open spec fn frame_view(res: Result<NormanPacket, FrameError>) -> Result<
    PacketView,
    FrameErrorView,
> {
    match res {
        Ok(packet) => Ok(packet@),
        Err(error) => Err(error@),
    }
}

/// `std::str::from_utf8`: the bytes as a string slice where they are valid
/// UTF-8, and nothing where they are not. The contract takes from the
/// documentation of std that the call succeeds exactly on valid UTF-8 and
/// that the slice then holds the characters that the bytes encode.
#[verifier::external_body]
fn utf8_text(bytes: &[u8]) -> (text: Option<&str>)
    ensures
        text is Some <==> valid_utf8(bytes@),
        text matches Some(s) ==> s@ == decode_utf8(bytes@),
{
    match std::str::from_utf8(bytes) {
        Ok(text) => Some(text),
        Err(_) => None,
    }
}

/// Reads a packet from the bytes received on a connection. Only the first
/// `READ_CAPACITY` bytes count: a longer frame is cut there, and whatever
/// the cut leaves is decoded or refused like any other text.
pub fn read_frame(received: &[u8]) -> (res: Result<NormanPacket, FrameError>)
    ensures
        frame_view(res) == frame_decoded(received@),
{
    let end: usize = if received.len() <= READ_CAPACITY {
        received.len()
    } else {
        READ_CAPACITY
    };
    let bytes = slice_subrange(received, 0, end);
    assert(bytes@ =~= window(received@));
    match utf8_text(bytes) {
        None => Err(FrameError::NotText),
        Some(text) => match NormanPacket::decode(text) {
            Ok(packet) => Ok(packet),
            Err(error) => Err(FrameError::NotPacket(error)),
        },
    }
}

/// What lies beyond the read capacity has no part in the result: two
/// sequences of bytes that agree on their first `READ_CAPACITY` bytes are
/// read alike, and a frame that is too long is read as its cut.
pub proof fn lemma_overflow_is_cut(received: Seq<u8>, other: Seq<u8>)
    ensures
        window(received).len() <= READ_CAPACITY,
        frame_decoded(received) == frame_decoded(window(received)),
        window(received) == window(other) ==> frame_decoded(received) == frame_decoded(other),
{
    assert(window(window(received)) =~= window(received));
}

/// A canonical packet is read back from the bytes of its wire form as long
/// as they fit the read capacity, whatever fills the rest of the buffer
/// behind them without a separator: so the zero bytes of a buffer that the
/// frame does not fill do no harm.
pub proof fn lemma_frame_round_trip(packet: PacketView, filler: Seq<char>)
    requires
        canonical(packet),
        free_of(filler, SEPARATOR),
        encode_utf8(wire_text(packet) + filler).len() <= READ_CAPACITY,
    ensures
        frame_decoded(encode_utf8(wire_text(packet) + filler)) == Ok::<
            PacketView,
            FrameErrorView,
        >(packet),
{
    let text = wire_text(packet) + filler;
    encode_utf8_valid_utf8(text);
    encode_utf8_decode_utf8(text);
    lemma_decode_ignores_trailer(packet, filler);
    lemma_lookup_tables(
        packet.return_output,
        true,
        packet.service,
        packet.req_type,
        packet.status,
    );
}

} // verus!
