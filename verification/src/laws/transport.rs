//! What connections do.

use vstd::prelude::*;

use crate::endian::{be_bytes, be_value};
use crate::transport::{
    closed_one, closed_unreached, connect_next, frame_at, frame_bytes, frame_fits, is_listed,
    last_unreached, left_after, living, others, place_of, reader_next, CloseReason, ConnectAction,
    ConnectStage, FrameError, PeerView, ReaderActionView, ReaderInput,
};
use crate::wire::MessageView;

verus! {

/// The stage of a search after some steps on which nothing else happened: the program goes
/// on, the connection may be sought, and none stands.
pub open spec fn seeking(stage: ConnectStage, steps: nat) -> ConnectStage
    decreases steps,
{
    if steps == 0 {
        stage
    } else {
        connect_next(seeking(stage, (steps - 1) as nat), false, true, false).0
    }
}

/// How many steps a search is from the next attempt.
pub open spec fn distance(stage: ConnectStage) -> nat {
    match stage {
        ConnectStage::Ready => 0,
        ConnectStage::Waiting { steps } => 1 + steps as nat,
        ConnectStage::Connected => 22,
    }
}

/// A lost connection is sought again: as long as the program goes on and the connection may
/// be sought, every step brings a search that has none nearer to the next attempt, and
/// when it is there it connects.
pub proof fn law_lost_connection_is_sought_again(stage: ConnectStage)
    ensures
        distance(stage) > 0 ==> distance(connect_next(stage, false, true, false).0) == distance(
            stage,
        ) - 1,
        distance(stage) == 0 ==> connect_next(stage, false, true, false) == (
            ConnectStage::Ready,
            ConnectAction::Connect,
        ),
        distance(stage) <= 256,
        connect_next(seeking(stage, distance(stage)), false, true, false).1
            == ConnectAction::Connect,
{
    lemma_seeking(stage, distance(stage));
}

proof fn lemma_seeking(stage: ConnectStage, steps: nat)
    requires
        steps <= distance(stage),
    ensures
        distance(seeking(stage, steps)) == distance(stage) - steps,
    decreases steps,
{
    if steps > 0 {
        lemma_seeking(stage, (steps - 1) as nat);
    }
}

/// A search sleeps a tenth of a second at a time while it waits, and two seconds in all
/// after a connection was lost; it is told once that the connection is closed.
pub proof fn law_search_waits_two_seconds(steps: u8)
    ensures
        connect_next(ConnectStage::Connected, false, true, false) == (
            ConnectStage::Waiting { steps: 20 },
            ConnectAction::Closed,
        ),
        steps > 0 ==> connect_next(ConnectStage::Waiting { steps }, false, true, false).1
            == (ConnectAction::Sleep { millis: 100 }),
        steps == 0 ==> connect_next(ConnectStage::Waiting { steps }, false, true, false).1
            == ConnectAction::Again,
{
}

/// A connection that stands is only watched, four times a second, whatever else is true,
/// until it is lost, may no longer be sought or the program ends; then it is closed.
pub proof fn law_standing_connection_is_watched(shutdown: bool, enabled: bool, alive: bool)
    ensures
        alive && enabled && !shutdown ==> connect_next(
            ConnectStage::Connected,
            shutdown,
            enabled,
            alive,
        ) == (ConnectStage::Connected, ConnectAction::Sleep { millis: 250 }),
        !(alive && enabled && !shutdown) ==> connect_next(
            ConnectStage::Connected,
            shutdown,
            enabled,
            alive,
        ).1 == ConnectAction::Closed,
        !(alive && enabled && !shutdown) ==> connect_next(
            ConnectStage::Connected,
            shutdown,
            enabled,
            alive,
        ).0 is Waiting,
{
}

/// A search stops with the program, from every stage in at most three steps; while it may
/// not seek, it comes back to where it began in as many, and sleeps there.
pub proof fn law_search_stops(stage: ConnectStage, enabled: bool, alive: bool)
    ensures
        ({
            let one = connect_next(stage, true, enabled, alive).0;
            let two = connect_next(one, true, enabled, alive).0;
            &&& two == ConnectStage::Ready
            &&& connect_next(two, true, enabled, alive) == (
                ConnectStage::Ready,
                ConnectAction::Stop,
            )
        }),
        ({
            let one = connect_next(stage, false, false, alive).0;
            let two = connect_next(one, false, false, alive).0;
            &&& two == ConnectStage::Ready
            &&& connect_next(two, false, false, alive) == (
                ConnectStage::Ready,
                ConnectAction::Sleep { millis: 100 },
            )
        }),
        connect_next(stage, false, enabled, alive).1 != ConnectAction::Stop,
{
}

/// After the handshake every message but another greeting is delivered as it came.
pub proof fn law_messages_are_delivered(message: crate::wire::WireMessage)
    requires
        !(message@ is Hello),
    ensures
        reader_next(true, ReaderInput::Message(message)) == ReaderActionView::Deliver(message@),
        reader_next(false, ReaderInput::Message(message)) == ReaderActionView::Close(
            CloseReason::NoHandshake,
        ),
{
}

/// A greeting is taken once, before anything else, and in the first version only.
pub proof fn law_greeting_is_taken_once(message: crate::wire::WireMessage, version: u16)
    requires
        message@ == (MessageView::Hello { version }),
    ensures
        version == 1 ==> reader_next(false, ReaderInput::Message(message))
            == ReaderActionView::Register,
        version != 1 ==> reader_next(false, ReaderInput::Message(message))
            == ReaderActionView::Close(CloseReason::Version { theirs: version }),
        reader_next(true, ReaderInput::Message(message)) == ReaderActionView::Close(
            CloseReason::RepeatedHello,
        ),
{
}

/// What is not a message closes the connection, each for its own reason.
pub proof fn law_broken_input_closes(handshaken: bool)
    ensures
        reader_next(handshaken, ReaderInput::Invalid) == ReaderActionView::Close(
            CloseReason::InvalidMessage,
        ),
        reader_next(handshaken, ReaderInput::Ended) == ReaderActionView::Close(CloseReason::Ended),
        reader_next(handshaken, ReaderInput::TimedOut) == ReaderActionView::Close(
            CloseReason::HandshakeTimeout,
        ),
        reader_next(handshaken, ReaderInput::Failed) == ReaderActionView::Close(
            CloseReason::ReadFailed,
        ),
{
}

/// A frame has between one byte and four mebibytes.
pub proof fn law_frames_are_limited(length: nat)
    ensures
        frame_fits(length) <==> 1 <= length <= 4_194_304,
{
}

/// A frame is its length, in four bytes with the highest first, and then its bytes.
pub proof fn law_frame_begins_with_its_length(frame: Seq<u8>)
    requires
        1 <= frame.len() <= 4_194_304,
    ensures
        frame_bytes(frame).len() == 4 + frame.len(),
        frame_bytes(frame).skip(4) == frame,
        frame_bytes(frame)[0] * 0x100_0000 + frame_bytes(frame)[1] * 0x1_0000 + frame_bytes(
            frame,
        )[2] * 0x100 + frame_bytes(frame)[3] == frame.len(),
{
    let n = frame.len() as u32;
    assert(frame_bytes(frame).take(4) == be_bytes(n));
    assert(frame_bytes(frame)[0] == be_bytes(n)[0]);
    assert(frame_bytes(frame)[1] == be_bytes(n)[1]);
    assert(frame_bytes(frame)[2] == be_bytes(n)[2]);
    assert(frame_bytes(frame)[3] == be_bytes(n)[3]);
    assert(frame_bytes(frame).skip(4) == frame);
    assert(n == (n / 0x100_0000) * 0x100_0000 + (n / 0x1_0000 % 0x100) * 0x1_0000 + (n / 0x100
        % 0x100) * 0x100 + n % 0x100) by (bit_vector);
    assert(n / 0x100_0000 < 0x100) by (bit_vector);
}

/// Four bytes are read as a number with the highest first.
pub proof fn law_four_bytes_are_a_number(bytes: Seq<u8>)
    requires
        bytes.len() == 4,
    ensures
        be_value(bytes) == bytes[0] * 0x100_0000 + bytes[1] * 0x1_0000 + bytes[2] * 0x100
            + bytes[3],
{
    let three = bytes.drop_last();
    let two = three.drop_last();
    let one = two.drop_last();
    assert(one.drop_last() == Seq::<u8>::empty());
    assert(be_value(one.drop_last()) == 0);
    assert(be_value(one) == bytes[0]);
    assert(be_value(two) == bytes[0] * 0x100 + bytes[1]);
    assert(be_value(three) == (bytes[0] * 0x100 + bytes[1]) * 0x100 + bytes[2]);
}

/// What is read from a stream is what its first four bytes announce: nothing where there
/// are not four, an error where the length is unfit or the bytes are missing, else exactly
/// the bytes announced, and reading goes on behind them.
pub proof fn law_frame_is_what_is_announced(bytes: Seq<u8>, length: nat)
    requires
        bytes.len() >= 4 ==> length == bytes[0] * 0x100_0000 + bytes[1] * 0x1_0000 + bytes[2]
            * 0x100 + bytes[3],
    ensures
        bytes.len() < 4 ==> frame_at(bytes) == Ok::<Option<Seq<u8>>, FrameError>(None)
            && left_after(bytes).len() == 0,
        bytes.len() >= 4 && (length == 0 || length > 4_194_304) ==> frame_at(bytes) == Err::<
            Option<Seq<u8>>,
            FrameError,
        >(FrameError::InvalidSize) && left_after(bytes) == bytes.skip(4),
        bytes.len() >= 4 && 1 <= length <= 4_194_304 && bytes.len() < 4 + length ==> frame_at(
            bytes,
        ) == Err::<Option<Seq<u8>>, FrameError>(FrameError::Truncated) && left_after(bytes).len()
            == 0,
        bytes.len() >= 4 && 1 <= length <= 4_194_304 && bytes.len() >= 4 + length ==> frame_at(
            bytes,
        ) == Ok::<Option<Seq<u8>>, FrameError>(Some(bytes.skip(4).take(length as int)))
            && left_after(bytes) == bytes.skip(4 + length as int),
{
    if bytes.len() >= 4 {
        law_four_bytes_are_a_number(bytes.take(4));
        if 1 <= length <= 4_194_304 && bytes.len() >= 4 + length {
            assert(bytes.subrange(4, 4 + length as int) == bytes.skip(4).take(length as int));
        }
    }
}

/// Those devices count whose connection stands, in their order.
pub proof fn law_living_devices_count(peers: Seq<PeerView>, peer: PeerView)
    ensures
        living(Seq::<PeerView>::empty()).len() == 0,
        peer.alive ==> living(peers.push(peer)) == living(peers).push(peer),
        !peer.alive ==> living(peers.push(peer)) == living(peers),
{
    assert(peers.push(peer).drop_last() == peers);
}

/// A device that is removed goes, and no other.
pub proof fn law_one_device_is_removed(peers: Seq<PeerView>, peer: PeerView, id: u64)
    ensures
        others(Seq::<PeerView>::empty(), id).len() == 0,
        peer.id != id ==> others(peers.push(peer), id) == others(peers, id).push(peer),
        peer.id == id ==> others(peers.push(peer), id) == others(peers, id),
{
    assert(peers.push(peer).drop_last() == peers);
}

proof fn lemma_place_of(peers: Seq<PeerView>, id: u64)
    ensures
        0 <= place_of(peers, id) <= peers.len(),
        forall|i: int| 0 <= i < place_of(peers, id) ==> (#[trigger] peers[i]).id != id,
        place_of(peers, id) < peers.len() ==> peers[place_of(peers, id)].id == id,
    decreases peers.len(),
{
    if peers.len() > 0 && peers[0].id != id {
        lemma_place_of(peers.skip(1), id);
        assert forall|i: int| 0 <= i < place_of(peers, id) implies (#[trigger] peers[i]).id
            != id by {
            if i > 0 {
                assert(peers.skip(1)[i - 1] == peers[i]);
            }
        }
    }
}

/// A device is known if one of the list has its number.
pub proof fn law_device_is_known_by_its_number(peers: Seq<PeerView>, id: u64)
    ensures
        is_listed(peers, id) <==> exists|i: int|
            0 <= i < peers.len() && (#[trigger] peers[i]).id == id,
{
    lemma_place_of(peers, id);
}

/// Closing a connection marks the first device of that number, and nothing else of it or
/// of the others.
pub proof fn law_one_connection_is_closed(peers: Seq<PeerView>, id: u64, at: int)
    requires
        0 <= at < peers.len(),
    ensures
        closed_one(peers, id).len() == peers.len(),
        closed_one(peers, id)[at].id == peers[at].id,
        closed_one(peers, id)[at].address == peers[at].address,
        closed_one(peers, id)[at].alive == (peers[at].alive && !(peers[at].id == id && forall|
            i: int,
        |
            0 <= i < at ==> (#[trigger] peers[i]).id != id)),
{
    lemma_place_of(peers, id);
    let found = place_of(peers, id);
    if found < at {
        assert(peers[found].id == id);
    }
}

/// After a sending, the connections to those that were not reached are closed, and no
/// others; the last of them is named.
pub proof fn law_unreached_devices_are_closed(
    peers: Seq<PeerView>,
    targets: Seq<u64>,
    target: u64,
    reached: Seq<bool>,
)
    requires
        reached.len() > targets.len(),
    ensures
        closed_unreached(peers, Seq::<u64>::empty(), reached) == peers,
        last_unreached(Seq::<u64>::empty(), reached) is None,
        reached[targets.len() as int] ==> closed_unreached(peers, targets.push(target), reached)
            == closed_unreached(peers, targets, reached) && last_unreached(
            targets.push(target),
            reached,
        ) == last_unreached(targets, reached),
        !reached[targets.len() as int] ==> closed_unreached(peers, targets.push(target), reached)
            == closed_one(closed_unreached(peers, targets, reached), target) && last_unreached(
            targets.push(target),
            reached,
        ) == Some(target),
{
    assert(targets.push(target).drop_last() == targets);
}

/// A device is found at the first place that has its number.
pub proof fn law_device_is_found(peers: Seq<PeerView>, id: u64, at: int)
    requires
        0 <= at <= peers.len(),
        forall|i: int| 0 <= i < at ==> (#[trigger] peers[i]).id != id,
        at < peers.len() ==> peers[at].id == id,
    ensures
        place_of(peers, id) == at,
{
    lemma_place_of(peers, id);
    let found = place_of(peers, id);
    if found < at {
        assert(peers[found].id != id);
    }
}

/// Bytes are read as a number with the highest first, however many there are.
pub proof fn law_bytes_are_a_number(bytes: Seq<u8>, last: u8)
    ensures
        be_value(Seq::<u8>::empty()) == 0,
        be_value(bytes.push(last)) == be_value(bytes) * 256 + last,
{
    assert(bytes.push(last).drop_last() == bytes);
}

/// Whether a connection stands matters only while one is held; what a search does before and
/// after follows from whether the program ends and whether the connection may be sought.
pub proof fn law_search_follows_its_orders(
    steps: u8,
    shutdown: bool,
    enabled: bool,
    alive: bool,
)
    ensures
        ({
            let next = connect_next(ConnectStage::Ready, shutdown, enabled, alive);
            &&& next.0 == ConnectStage::Ready
            &&& shutdown ==> next.1 == ConnectAction::Stop
            &&& !shutdown && !enabled ==> next.1 == (ConnectAction::Sleep { millis: 100 })
            &&& !shutdown && enabled ==> next.1 == ConnectAction::Connect
        }),
        ({
            let next = connect_next(ConnectStage::Waiting { steps }, shutdown, enabled, alive);
            &&& steps > 0 && !shutdown && enabled ==> (next.0 matches ConnectStage::Waiting {
                steps: left,
            } && left == steps - 1) && next.1 == (ConnectAction::Sleep { millis: 100 })
            &&& steps == 0 || shutdown || !enabled ==> next == (
                ConnectStage::Ready,
                ConnectAction::Again,
            )
        }),
        ({
            let next = connect_next(ConnectStage::Connected, shutdown, enabled, alive);
            &&& !alive || shutdown || !enabled ==> next == (
                ConnectStage::Waiting { steps: 20 },
                ConnectAction::Closed,
            )
        }),
{
}

} // verus!
