//! Frames on a connection, the devices that are connected, and what a connection
//! does with what it reads.

use vstd::prelude::*;
use vstd::slice::{slice_subrange, slice_to_vec};

use crate::endian::{be_bytes, be_value, from_be, law_be_round_trip, to_be};
use crate::wire::{MessageView, WireMessage, FRAME_LIMIT, MAX_PEERS, PROTOCOL_VERSION};

verus! {

/// Why a frame is not written or read.
#[derive(Debug, Clone, Copy, PartialEq, Eq, Structural)]
pub enum FrameError {
    /// It would be empty or too long.
    InvalidSize,
    /// The connection ends inside it.
    Truncated,
}

/// Whether a frame may have this length.
pub open spec fn frame_fits(length: nat) -> bool {
    0 < length <= FRAME_LIMIT
}

/// A frame as it goes over a connection: its length, in four bytes, and itself.
pub open spec fn frame_bytes(frame: Seq<u8>) -> Seq<u8> {
    be_bytes(frame.len() as u32) + frame
}

/// The length that goes before a frame; an empty frame or one that is too long is
/// refused.
pub fn frame_header(frame: &[u8]) -> (r: Result<[u8; 4], FrameError>)
    ensures
        r is Ok <==> frame_fits(frame@.len()),
        r matches Ok(header) ==> header@ == be_bytes(frame@.len() as u32),
        r matches Err(error) ==> error == FrameError::InvalidSize,
{
    if frame.len() == 0 || frame.len() > FRAME_LIMIT {
        return Err(FrameError::InvalidSize);
    }
    Ok(to_be(frame.len() as u32))
}

/// Writes a frame to the end of what is to be sent. An empty frame or one that is
/// too long is refused, and nothing is written.
pub fn write_frame(stream: &mut Vec<u8>, frame: &[u8]) -> (r: Result<(), FrameError>)
    ensures
        r is Ok <==> frame_fits(frame@.len()),
        r is Ok ==> final(stream)@ == old(stream)@ + frame_bytes(frame@),
        r matches Err(error) ==> error == FrameError::InvalidSize && final(stream)@ == old(stream)@,
{
    let header = match frame_header(frame) {
        Ok(header) => header,
        Err(error) => {
            return Err(error);
        },
    };
    let ghost before = stream@;
    stream.extend_from_slice(header.as_slice());
    stream.extend_from_slice(frame);
    proof {
        assert(stream@ == before + frame_bytes(frame@));
    }
    Ok(())
}

/// What came in over a connection, and how much of it was read.
pub struct FrameReader {
    bytes: Vec<u8>,
    at: usize,
}

impl View for FrameReader {
    type V = Seq<u8>;

    /// What is left to read.
    closed spec fn view(&self) -> Seq<u8> {
        self.bytes@.skip(self.at as int)
    }
}

/// The length of the frame that this header announces.
pub fn frame_length(header: [u8; 4]) -> (r: Result<usize, FrameError>)
    ensures
        r is Ok <==> frame_fits(be_value(header@)),
        r matches Ok(length) ==> length == be_value(header@),
        r matches Err(error) ==> error == FrameError::InvalidSize,
{
    let length: u32 = from_be(header);
    if length == 0 || length > FRAME_LIMIT as u32 {
        return Err(FrameError::InvalidSize);
    }
    Ok(length as usize)
}

/// What reading one frame gives: nothing where the bytes end before a length is
/// there.
pub open spec fn frame_at(bytes: Seq<u8>) -> Result<Option<Seq<u8>>, FrameError> {
    let length = be_value(bytes.take(4));
    if bytes.len() < 4 {
        Ok(None)
    } else if !frame_fits(length) {
        Err(FrameError::InvalidSize)
    } else if bytes.len() < 4 + length {
        Err(FrameError::Truncated)
    } else {
        Ok(Some(bytes.subrange(4, 4 + length as int)))
    }
}

/// What is left of the bytes once one frame was read, or could not be.
pub open spec fn left_after(bytes: Seq<u8>) -> Seq<u8> {
    match frame_at(bytes) {
        Ok(Some(frame)) => bytes.skip(4 + frame.len() as int),
        Err(FrameError::InvalidSize) => bytes.skip(4),
        _ => seq![],
    }
}

/// A frame that was read, as a value.
pub open spec fn frame_view(r: Result<Option<Vec<u8>>, FrameError>) -> Result<
    Option<Seq<u8>>,
    FrameError,
> {
    match r {
        Ok(Some(frame)) => Ok(Some(frame@)),
        Ok(None) => Ok(None),
        Err(error) => Err(error),
    }
}

impl FrameReader {
    /// No more was read than there is.
    pub closed spec fn wf(self) -> bool {
        self.at <= self.bytes@.len()
    }

    /// A reader of these bytes.
    pub fn new(bytes: Vec<u8>) -> (reader: FrameReader)
        ensures
            reader.wf(),
            reader@ == bytes@,
    {
        let reader = FrameReader { bytes, at: 0 };
        proof {
            assert(bytes@.skip(0) == bytes@);
        }
        reader
    }
}

/// Reads the next frame. A length that is refused is consumed, and so is all that
/// there is where the bytes end too early.
pub fn read_frame(stream: &mut FrameReader) -> (r: Result<Option<Vec<u8>>, FrameError>)
    requires
        old(stream).wf(),
    ensures
        final(stream).wf(),
        frame_view(r) == frame_at(old(stream)@),
        final(stream)@ == left_after(old(stream)@),
{
    let ghost rest = stream@;
    let end: usize = stream.bytes.len();
    let left: usize = end - stream.at;
    if left < 4 {
        stream.at = end;
        proof {
            assert(stream@ == left_after(rest));
        }
        return Ok(None);
    }
    let at: usize = stream.at;
    let header: [u8; 4] = [
        stream.bytes[at],
        stream.bytes[at + 1],
        stream.bytes[at + 2],
        stream.bytes[at + 3],
    ];
    let from: usize = at + 4;
    stream.at = from;
    proof {
        assert(header@ == rest.take(4));
        assert(stream@ == rest.skip(4));
    }
    let length: usize = match frame_length(header) {
        Ok(length) => length,
        Err(error) => {
            return Err(error);
        },
    };
    if left - 4 < length {
        stream.at = end;
        proof {
            assert(stream@ == left_after(rest));
        }
        return Err(FrameError::Truncated);
    }
    let frame = slice_to_vec(slice_subrange(stream.bytes.as_slice(), from, from + length));
    stream.at = from + length;
    proof {
        assert(frame@ == rest.subrange(4, 4 + length as int));
        assert(stream@ == rest.skip(4 + length as int));
    }
    Ok(Some(frame))
}

/// A frame that was written is read back as it was, and what follows it stays.
pub proof fn law_frame_round_trip(frame: Seq<u8>, rest: Seq<u8>)
    requires
        frame_fits(frame.len()),
    ensures
        frame_at(frame_bytes(frame) + rest) == Ok::<Option<Seq<u8>>, FrameError>(Some(frame)),
        left_after(frame_bytes(frame) + rest) == rest,
{
    let bytes = frame_bytes(frame) + rest;
    law_be_round_trip(frame.len() as u32);
    assert(be_bytes(frame.len() as u32).len() == 4);
    assert(bytes.take(4) == be_bytes(frame.len() as u32));
    assert(bytes.subrange(4, 4 + frame.len() as int) == frame);
    assert(bytes.skip(4 + frame.len() as int) == rest);
}

/// Whether a serialised message may be sent as one frame.
pub fn encode_message(frame: Vec<u8>) -> (r: Result<Vec<u8>, FrameError>)
    ensures
        r is Ok <==> frame_fits(frame@.len()),
        r matches Ok(checked) ==> checked@ == frame@,
        r matches Err(error) ==> error == FrameError::InvalidSize,
{
    if frame.len() == 0 || frame.len() > FRAME_LIMIT {
        return Err(FrameError::InvalidSize);
    }
    Ok(frame)
}

/// Whether the connection to a device may be sought.
pub struct ConnectControl {
    enabled: bool,
}

impl Default for ConnectControl {
    /// It may, to begin with.
    fn default() -> (control: ConnectControl)
        ensures
            control.enabled(),
    {
        ConnectControl { enabled: true }
    }
}

impl ConnectControl {
    /// Whether the connection may be sought.
    pub closed spec fn enabled(self) -> bool {
        self.enabled
    }

    /// From now on it may not.
    pub fn pause(&mut self)
        ensures
            !final(self).enabled(),
    {
        self.enabled = false;
    }

    /// From now on it may.
    pub fn resume(&mut self)
        ensures
            final(self).enabled(),
    {
        self.enabled = true;
    }

    /// Whether the connection may be sought.
    pub fn is_enabled(&self) -> (r: bool)
        ensures
            r == self.enabled(),
    {
        self.enabled
    }
}

/// How far the search for a connection is.
#[derive(Debug, Clone, Copy, PartialEq, Eq, Structural)]
pub enum ConnectStage {
    /// About to connect.
    Ready,
    Connected,
    /// Waiting before the next attempt, for this many more steps.
    Waiting { steps: u8 },
}

/// What to do next for a connection.
#[derive(Debug, Clone, Copy, PartialEq, Eq, Structural)]
pub enum ConnectAction {
    Stop,
    /// Connect, and say with `connect_outcome` how that went.
    Connect,
    /// Sleep for this many milliseconds.
    Sleep { millis: u64 },
    /// Note that the connection was closed.
    Closed,
    /// Go on at once.
    Again,
}

/// How many steps are waited between two attempts.
pub const RETRY_STEPS: u8 = 20;

/// The next stage and action of a connection.
pub open spec fn connect_next(
    stage: ConnectStage,
    shutdown: bool,
    enabled: bool,
    alive: bool,
) -> (ConnectStage, ConnectAction) {
    match stage {
        ConnectStage::Ready => if shutdown {
            (ConnectStage::Ready, ConnectAction::Stop)
        } else if !enabled {
            (ConnectStage::Ready, ConnectAction::Sleep { millis: 100 })
        } else {
            (ConnectStage::Ready, ConnectAction::Connect)
        },
        ConnectStage::Connected => if alive && enabled && !shutdown {
            (ConnectStage::Connected, ConnectAction::Sleep { millis: 250 })
        } else {
            (ConnectStage::Waiting { steps: RETRY_STEPS }, ConnectAction::Closed)
        },
        ConnectStage::Waiting { steps } => if steps == 0 || shutdown || !enabled {
            (ConnectStage::Ready, ConnectAction::Again)
        } else {
            (
                ConnectStage::Waiting { steps: (steps - 1) as u8 },
                ConnectAction::Sleep { millis: 100 },
            )
        },
    }
}

/// Decides what to do next for a connection, given whether the program is ending,
/// whether the connection may be sought, and whether it still stands.
pub fn connect_step(stage: ConnectStage, shutdown: bool, enabled: bool, alive: bool) -> (r: (
    ConnectStage,
    ConnectAction,
))
    ensures
        r == connect_next(stage, shutdown, enabled, alive),
{
    match stage {
        ConnectStage::Ready => {
            if shutdown {
                (ConnectStage::Ready, ConnectAction::Stop)
            } else if !enabled {
                (ConnectStage::Ready, ConnectAction::Sleep { millis: 100 })
            } else {
                (ConnectStage::Ready, ConnectAction::Connect)
            }
        },
        ConnectStage::Connected => {
            if alive && enabled && !shutdown {
                (ConnectStage::Connected, ConnectAction::Sleep { millis: 250 })
            } else {
                (ConnectStage::Waiting { steps: RETRY_STEPS }, ConnectAction::Closed)
            }
        },
        ConnectStage::Waiting { steps } => {
            if steps == 0 || shutdown || !enabled {
                (ConnectStage::Ready, ConnectAction::Again)
            } else {
                (ConnectStage::Waiting { steps: steps - 1 }, ConnectAction::Sleep { millis: 100 })
            }
        },
    }
}

/// The stage after an attempt to connect, and whether all connections are to be
/// closed again, because the search was paused meanwhile.
pub fn connect_outcome(connected: bool, enabled: bool) -> (r: (ConnectStage, bool))
    ensures
        r.0 == if connected {
            ConnectStage::Connected
        } else {
            ConnectStage::Waiting { steps: RETRY_STEPS }
        },
        r.1 == (connected && !enabled),
{
    if connected {
        (ConnectStage::Connected, !enabled)
    } else {
        (ConnectStage::Waiting { steps: RETRY_STEPS }, false)
    }
}

/// While the search is paused, and once the program ends, no connection is
/// attempted, at any stage.
pub proof fn law_no_attempt_while_paused(
    stage: ConnectStage,
    shutdown: bool,
    enabled: bool,
    alive: bool,
)
    requires
        shutdown || !enabled,
    ensures
        connect_next(stage, shutdown, enabled, alive).1 != ConnectAction::Connect,
{
}

/// What a connection reads.
pub enum ReaderInput {
    Message(WireMessage),
    /// A frame that holds no message.
    Invalid,
    /// The connection ended.
    Ended,
    TimedOut,
    Failed,
}

/// Why a connection is closed.
#[derive(Debug, Clone, Copy, PartialEq, Eq, Structural)]
pub enum CloseReason {
    Ended,
    HandshakeTimeout,
    ReadFailed,
    InvalidMessage,
    /// The other device speaks this version.
    Version { theirs: u16 },
    RepeatedHello,
    NoHandshake,
}

/// What a connection does with what it read.
pub enum ReaderAction {
    /// Lift the time limit and register the device.
    Register,
    Deliver(WireMessage),
    Close(CloseReason),
}

/// What a connection does, as a value.
pub ghost enum ReaderActionView {
    Register,
    Deliver(MessageView),
    Close(CloseReason),
}

impl View for ReaderAction {
    type V = ReaderActionView;

    open spec fn view(&self) -> ReaderActionView {
        match self {
            ReaderAction::Register => ReaderActionView::Register,
            ReaderAction::Deliver(message) => ReaderActionView::Deliver(message@),
            ReaderAction::Close(reason) => ReaderActionView::Close(*reason),
        }
    }
}

/// What a connection does with what it read, before or after the handshake.
pub open spec fn reader_next(handshaken: bool, input: ReaderInput) -> ReaderActionView {
    match input {
        ReaderInput::Message(message) => match message@ {
            MessageView::Hello { version } => if handshaken {
                ReaderActionView::Close(CloseReason::RepeatedHello)
            } else if version != PROTOCOL_VERSION {
                ReaderActionView::Close(CloseReason::Version { theirs: version })
            } else {
                ReaderActionView::Register
            },
            other => if handshaken {
                ReaderActionView::Deliver(other)
            } else {
                ReaderActionView::Close(CloseReason::NoHandshake)
            },
        },
        ReaderInput::Invalid => ReaderActionView::Close(CloseReason::InvalidMessage),
        ReaderInput::Ended => ReaderActionView::Close(CloseReason::Ended),
        ReaderInput::TimedOut => ReaderActionView::Close(CloseReason::HandshakeTimeout),
        ReaderInput::Failed => ReaderActionView::Close(CloseReason::ReadFailed),
    }
}

/// Decides what a connection does with what it read. Before the other device has
/// greeted in the same version, nothing it says is delivered.
pub fn reader_step(handshaken: bool, input: ReaderInput) -> (action: ReaderAction)
    ensures
        action@ == reader_next(handshaken, input),
{
    match input {
        ReaderInput::Message(message) => match message {
            WireMessage::Hello { version } => {
                if handshaken {
                    ReaderAction::Close(CloseReason::RepeatedHello)
                } else if version != PROTOCOL_VERSION {
                    ReaderAction::Close(CloseReason::Version { theirs: version })
                } else {
                    ReaderAction::Register
                }
            },
            other => {
                if handshaken {
                    ReaderAction::Deliver(other)
                } else {
                    ReaderAction::Close(CloseReason::NoHandshake)
                }
            },
        },
        ReaderInput::Invalid => ReaderAction::Close(CloseReason::InvalidMessage),
        ReaderInput::Ended => ReaderAction::Close(CloseReason::Ended),
        ReaderInput::TimedOut => ReaderAction::Close(CloseReason::HandshakeTimeout),
        ReaderInput::Failed => ReaderAction::Close(CloseReason::ReadFailed),
    }
}

/// The message that a connection begins with.
pub fn hello() -> (message: WireMessage)
    ensures
        message@ == (MessageView::Hello { version: PROTOCOL_VERSION }),
{
    WireMessage::Hello { version: PROTOCOL_VERSION }
}

/// The greeting of a device is accepted by every device of the same version that
/// has not been greeted.
pub proof fn law_hello_is_accepted(message: WireMessage)
    requires
        message@ == (MessageView::Hello { version: PROTOCOL_VERSION }),
    ensures
        reader_next(false, ReaderInput::Message(message)) == ReaderActionView::Register,
{
}

/// A connected device.
pub struct Peer {
    pub peer_id: u64,
    pub address: String,
    pub alive: bool,
}

/// A connected device as a value.
pub ghost struct PeerView {
    pub id: u64,
    pub address: Seq<char>,
    pub alive: bool,
}

impl View for Peer {
    type V = PeerView;

    open spec fn view(&self) -> PeerView {
        PeerView { id: self.peer_id, address: self.address@, alive: self.alive }
    }
}

/// Why a message is not sent to all that it was meant for.
#[derive(Debug, Clone, Copy, PartialEq, Eq, Structural)]
pub enum TargetError {
    /// It was meant for nobody.
    NoPeers,
    /// A device is no longer listed.
    Gone,
    /// This device was closed.
    Closed { peer_id: u64 },
}

/// The devices of a list whose connection stands.
pub open spec fn living(peers: Seq<PeerView>) -> Seq<PeerView>
    decreases peers.len(),
{
    if peers.len() == 0 {
        seq![]
    } else if peers.last().alive {
        living(peers.drop_last()).push(peers.last())
    } else {
        living(peers.drop_last())
    }
}

/// The devices of a list other than one.
pub open spec fn others(peers: Seq<PeerView>, id: u64) -> Seq<PeerView>
    decreases peers.len(),
{
    if peers.len() == 0 {
        seq![]
    } else if peers.last().id != id {
        others(peers.drop_last(), id).push(peers.last())
    } else {
        others(peers.drop_last(), id)
    }
}

/// The first place of a device in the list; the end where it is not listed.
pub open spec fn place_of(peers: Seq<PeerView>, id: u64) -> int
    decreases peers.len(),
{
    if peers.len() == 0 {
        0
    } else if peers[0].id == id {
        0
    } else {
        1 + place_of(peers.skip(1), id)
    }
}

/// Whether a device is listed.
pub open spec fn is_listed(peers: Seq<PeerView>, id: u64) -> bool {
    place_of(peers, id) < peers.len()
}

/// The list with a device marked as closed.
pub open spec fn closed_one(peers: Seq<PeerView>, id: u64) -> Seq<PeerView> {
    let at = place_of(peers, id);
    if at < peers.len() {
        peers.update(at, PeerView { alive: false, ..peers[at] })
    } else {
        peers
    }
}

/// The list with every device marked as closed that a message did not reach.
pub open spec fn closed_unreached(
    peers: Seq<PeerView>,
    targets: Seq<u64>,
    reached: Seq<bool>,
) -> Seq<PeerView>
    decreases targets.len(),
{
    if targets.len() == 0 {
        peers
    } else {
        let before = closed_unreached(peers, targets.drop_last(), reached);
        if reached[targets.len() - 1] {
            before
        } else {
            closed_one(before, targets.last())
        }
    }
}

/// The last device that a message did not reach.
pub open spec fn last_unreached(targets: Seq<u64>, reached: Seq<bool>) -> Option<u64>
    decreases targets.len(),
{
    if targets.len() == 0 {
        None
    } else if !reached[targets.len() - 1] {
        Some(targets.last())
    } else {
        last_unreached(targets.drop_last(), reached)
    }
}

proof fn lemma_place_of(peers: Seq<PeerView>, id: u64)
    ensures
        0 <= place_of(peers, id) <= peers.len(),
        place_of(peers, id) < peers.len() ==> peers[place_of(peers, id)].id == id,
        forall|i: int| 0 <= i < place_of(peers, id) ==> (#[trigger] peers[i]).id != id,
    decreases peers.len(),
{
    if peers.len() > 0 && peers[0].id != id {
        lemma_place_of(peers.skip(1), id);
        assert forall|i: int| 0 <= i < place_of(peers, id) implies (#[trigger] peers[i]).id
            != id by {
            if i > 0 {
                assert(peers[i] == peers.skip(1)[i - 1]);
            }
        }
    }
}

proof fn lemma_place_is(peers: Seq<PeerView>, id: u64, at: int)
    requires
        0 <= at <= peers.len(),
        at < peers.len() ==> peers[at].id == id,
        forall|i: int| 0 <= i < at ==> (#[trigger] peers[i]).id != id,
    ensures
        place_of(peers, id) == at,
{
    lemma_place_of(peers, id);
    let p = place_of(peers, id);
    if p < at {
        assert(peers[p].id != id);
    }
    if at < p {
        assert(peers[at].id != id);
    }
}

proof fn lemma_living_len(peers: Seq<PeerView>)
    ensures
        living(peers).len() <= peers.len(),
    decreases peers.len(),
{
    if peers.len() > 0 {
        lemma_living_len(peers.drop_last());
    }
}

proof fn lemma_others_len(peers: Seq<PeerView>, id: u64)
    ensures
        others(peers, id).len() <= peers.len(),
    decreases peers.len(),
{
    if peers.len() > 0 {
        lemma_others_len(peers.drop_last(), id);
    }
}

/// The connected devices.
pub struct PeerHub {
    peers: Vec<Peer>,
    shutdown: bool,
}

impl View for PeerHub {
    type V = Seq<PeerView>;

    closed spec fn view(&self) -> Seq<PeerView> {
        self.peers@.map_values(|p: Peer| p@)
    }
}

impl Default for PeerHub {
    /// No device is connected.
    fn default() -> (hub: PeerHub)
        ensures
            hub.wf(),
            hub@ == Seq::<PeerView>::empty(),
            !hub.ending(),
    {
        let hub = PeerHub { peers: Vec::new(), shutdown: false };
        proof {
            assert(hub@ == Seq::<PeerView>::empty());
        }
        hub
    }
}

impl PeerHub {
    /// There are not too many devices.
    pub closed spec fn wf(self) -> bool {
        self.peers@.len() <= MAX_PEERS
    }

    /// Whether the program is ending.
    pub closed spec fn ending(self) -> bool {
        self.shutdown
    }

    /// There are never more devices than allowed.
    pub proof fn law_bounded(self)
        requires
            self.wf(),
        ensures
            self@.len() <= MAX_PEERS,
    {
    }

    /// Drops the devices whose connection was closed.
    fn retain_living(&mut self)
        ensures
            final(self)@ == living(old(self)@),
            final(self).ending() == old(self).ending(),
            old(self).wf() ==> final(self).wf(),
    {
        let ghost all = self@;
        let ghost n = all.len() as int;
        let mut i: usize = 0;
        proof {
            assert(all.take(0) == Seq::<PeerView>::empty());
            assert(living(all.take(0)) + all.skip(0) == all);
        }
        while i < self.peers.len()
            invariant
                all == old(self)@,
                n == all.len(),
                i <= self.peers@.len() <= n,
                living(all.take(n - (self.peers@.len() - i))).len() == i,
                self@ == living(all.take(n - (self.peers@.len() - i))) + all.skip(
                    n - (self.peers@.len() - i),
                ),
                self.shutdown == old(self).shutdown,
            decreases self.peers@.len() - i,
        {
            let ghost j = n - (self.peers@.len() - i);
            let ghost before = self@;
            proof {
                assert(before[i as int] == self.peers@[i as int]@);
                assert(before[i as int] == all[j]);
                assert(all.take(j + 1).drop_last() == all.take(j));
            }
            if self.peers[i].alive {
                i += 1;
                proof {
                    assert(living(all.take(j)).push(all[j]) + all.skip(j + 1) == living(
                        all.take(j),
                    ) + all.skip(j));
                }
            } else {
                self.peers.remove(i);
                proof {
                    assert(self@ == before.remove(i as int));
                    assert(self@ == living(all.take(j)) + all.skip(j + 1));
                }
            }
        }
        proof {
            assert(all.take(n) == all);
            assert(living(all) + all.skip(n) == living(all));
            lemma_living_len(all);
        }
    }

    /// Registers a device. One whose connection was closed meanwhile is not, and
    /// neither is one too many.
    pub fn add(&mut self, peer_id: u64, address: String, alive: bool) -> (r: bool)
        requires
            old(self).wf(),
        ensures
            final(self).wf(),
            final(self).ending() == old(self).ending(),
            r == (alive && living(old(self)@).len() < MAX_PEERS),
            !alive ==> final(self)@ == old(self)@,
            alive && !r ==> final(self)@ == living(old(self)@),
            r ==> final(self)@ == living(old(self)@).push(
                PeerView { id: peer_id, address: address@, alive: true },
            ),
    {
        if !alive {
            return false;
        }
        self.retain_living();
        proof {
            assert(self@.len() == self.peers@.len());
        }
        if self.peers.len() >= MAX_PEERS {
            return false;
        }
        let ghost before = self@;
        let peer = Peer { peer_id, address, alive };
        self.peers.push(peer);
        proof {
            assert(self@ == before.push(peer@));
        }
        true
    }

    /// The devices whose connection stands.
    pub fn active_peer_ids(&mut self) -> (ids: Vec<u64>)
        requires
            old(self).wf(),
        ensures
            final(self).wf(),
            final(self).ending() == old(self).ending(),
            final(self)@ == living(old(self)@),
            ids@ == living(old(self)@).map_values(|p: PeerView| p.id),
    {
        self.retain_living();
        let ghost wanted = self@.map_values(|p: PeerView| p.id);
        let mut ids: Vec<u64> = Vec::new();
        let mut i: usize = 0;
        while i < self.peers.len()
            invariant
                i <= self.peers@.len(),
                wanted == self@.map_values(|p: PeerView| p.id),
                ids@ == wanted.take(i as int),
            decreases self.peers@.len() - i,
        {
            proof {
                assert(self@[i as int] == self.peers@[i as int]@);
                assert(wanted.take(i as int + 1) == wanted.take(i as int).push(wanted[i as int]));
            }
            ids.push(self.peers[i].peer_id);
            i += 1;
        }
        proof {
            assert(wanted.take(wanted.len() as int) == wanted);
        }
        ids
    }

    /// The addresses of the devices whose connection stands.
    pub fn active_peer_addresses(&mut self) -> (addresses: Vec<String>)
        requires
            old(self).wf(),
        ensures
            final(self).wf(),
            final(self).ending() == old(self).ending(),
            final(self)@ == living(old(self)@),
            addresses@.map_values(|a: String| a@) == living(old(self)@).map_values(
                |p: PeerView| p.address,
            ),
    {
        self.retain_living();
        let ghost wanted = self@.map_values(|p: PeerView| p.address);
        let mut addresses: Vec<String> = Vec::new();
        let mut i: usize = 0;
        while i < self.peers.len()
            invariant
                i <= self.peers@.len(),
                wanted == self@.map_values(|p: PeerView| p.address),
                addresses@.map_values(|a: String| a@) == wanted.take(i as int),
            decreases self.peers@.len() - i,
        {
            let ghost before = addresses@.map_values(|a: String| a@);
            let address = self.peers[i].address.clone();
            proof {
                assert(self@[i as int] == self.peers@[i as int]@);
                assert(wanted.take(i as int + 1) == wanted.take(i as int).push(wanted[i as int]));
            }
            addresses.push(address);
            proof {
                assert(addresses@.map_values(|a: String| a@) == before.push(address@));
            }
            i += 1;
        }
        proof {
            assert(wanted.take(wanted.len() as int) == wanted);
        }
        addresses
    }

    /// Marks every device as closed.
    pub fn disconnect_all(&mut self)
        requires
            old(self).wf(),
        ensures
            final(self).wf(),
            final(self).ending() == old(self).ending(),
            final(self)@ == old(self)@.map_values(|p: PeerView| PeerView { alive: false, ..p }),
    {
        let ghost all = self@;
        let ghost wanted = all.map_values(|p: PeerView| PeerView { alive: false, ..p });
        let mut i: usize = 0;
        proof {
            assert(wanted.take(0) + all.skip(0) == all);
        }
        while i < self.peers.len()
            invariant
                i <= self.peers@.len(),
                self.peers@.len() == all.len(),
                self.peers@.len() <= MAX_PEERS,
                self.shutdown == old(self).shutdown,
                wanted == all.map_values(|p: PeerView| PeerView { alive: false, ..p }),
                self@ == wanted.take(i as int) + all.skip(i as int),
            decreases self.peers@.len() - i,
        {
            let ghost before = self@;
            proof {
                assert(before[i as int] == self.peers@[i as int]@);
                assert(before[i as int] == all[i as int]);
            }
            self.peers[i].alive = false;
            proof {
                assert(self@ == before.update(i as int, wanted[i as int]));
                assert(self@ == wanted.take(i as int + 1) + all.skip(i as int + 1));
            }
            i += 1;
        }
        proof {
            assert(wanted.take(all.len() as int) + all.skip(all.len() as int) == wanted);
        }
    }

    /// Begins to end the program: every device is marked as closed.
    pub fn shutdown(&mut self)
        requires
            old(self).wf(),
        ensures
            final(self).wf(),
            final(self).ending(),
            final(self)@ == old(self)@.map_values(|p: PeerView| PeerView { alive: false, ..p }),
    {
        let ghost before = self@;
        self.shutdown = true;
        proof {
            assert(self@ == before);
        }
        self.disconnect_all();
    }

    /// Whether the program is ending.
    pub fn is_shutdown(&self) -> (r: bool)
        ensures
            r == self.ending(),
    {
        self.shutdown
    }

    /// Takes a device off the list.
    pub fn remove(&mut self, peer_id: u64)
        requires
            old(self).wf(),
        ensures
            final(self).wf(),
            final(self).ending() == old(self).ending(),
            final(self)@ == others(old(self)@, peer_id),
    {
        let ghost all = self@;
        let ghost n = all.len() as int;
        let mut i: usize = 0;
        proof {
            assert(others(all.take(0), peer_id) + all.skip(0) == all);
        }
        while i < self.peers.len()
            invariant
                all == old(self)@,
                n == all.len(),
                i <= self.peers@.len() <= n,
                others(all.take(n - (self.peers@.len() - i)), peer_id).len() == i,
                self@ == others(all.take(n - (self.peers@.len() - i)), peer_id) + all.skip(
                    n - (self.peers@.len() - i),
                ),
                self.shutdown == old(self).shutdown,
            decreases self.peers@.len() - i,
        {
            let ghost j = n - (self.peers@.len() - i);
            let ghost before = self@;
            proof {
                assert(before[i as int] == self.peers@[i as int]@);
                assert(before[i as int] == all[j]);
                assert(all.take(j + 1).drop_last() == all.take(j));
            }
            if self.peers[i].peer_id != peer_id {
                i += 1;
                proof {
                    assert(others(all.take(j), peer_id).push(all[j]) + all.skip(j + 1) == others(
                        all.take(j),
                        peer_id,
                    ) + all.skip(j));
                }
            } else {
                self.peers.remove(i);
                proof {
                    assert(self@ == before.remove(i as int));
                    assert(self@ == others(all.take(j), peer_id) + all.skip(j + 1));
                }
            }
        }
        proof {
            assert(all.take(n) == all);
            assert(others(all, peer_id) + all.skip(n) == others(all, peer_id));
            lemma_others_len(all, peer_id);
        }
    }

    /// The place of a device in the list.
    fn find(&self, peer_id: u64) -> (at: Option<usize>)
        ensures
            at is Some <==> is_listed(self@, peer_id),
            at matches Some(at) ==> at == place_of(self@, peer_id) && at < self.peers@.len(),
            at is None ==> place_of(self@, peer_id) == self@.len(),
    {
        let mut i: usize = 0;
        while i < self.peers.len()
            invariant
                i <= self.peers@.len(),
                forall|k: int| 0 <= k < i ==> (#[trigger] self@[k]).id != peer_id,
            decreases self.peers@.len() - i,
        {
            proof {
                assert(self@[i as int] == self.peers@[i as int]@);
            }
            if self.peers[i].peer_id == peer_id {
                proof {
                    lemma_place_is(self@, peer_id, i as int);
                }
                return Some(i);
            }
            i += 1;
        }
        proof {
            lemma_place_is(self@, peer_id, self@.len() as int);
        }
        None
    }

    /// Marks a device as closed.
    pub fn mark_closed(&mut self, peer_id: u64)
        requires
            old(self).wf(),
        ensures
            final(self).wf(),
            final(self).ending() == old(self).ending(),
            final(self)@ == closed_one(old(self)@, peer_id),
    {
        let ghost before = self@;
        if let Some(at) = self.find(peer_id) {
            proof {
                assert(before[at as int] == self.peers@[at as int]@);
            }
            self.peers[at].alive = false;
            proof {
                assert(self@ == closed_one(before, peer_id));
            }
        }
    }

    /// Whether a device is listed and its connection stands.
    pub fn is_alive(&self, peer_id: u64) -> (r: bool)
        ensures
            r == (is_listed(self@, peer_id) && self@[place_of(self@, peer_id)].alive),
    {
        match self.find(peer_id) {
            Some(at) => {
                proof {
                    assert(self@[at as int] == self.peers@[at as int]@);
                }
                self.peers[at].alive
            },
            None => false,
        }
    }

    /// Whether a message can be sent to these devices: there has to be one, and all
    /// have to be listed.
    pub fn check_targets(&self, peer_ids: &Vec<u64>) -> (r: Result<(), TargetError>)
        ensures
            r == Err::<(), TargetError>(TargetError::NoPeers) <==> peer_ids@.len() == 0,
            r is Ok <==> peer_ids@.len() > 0 && forall|i: int|
                0 <= i < peer_ids@.len() ==> is_listed(self@, #[trigger] peer_ids@[i]),
            r matches Err(TargetError::Closed { .. }) ==> false,
    {
        if peer_ids.len() == 0 {
            return Err(TargetError::NoPeers);
        }
        let mut i: usize = 0;
        while i < peer_ids.len()
            invariant
                i <= peer_ids@.len(),
                forall|k: int| 0 <= k < i ==> is_listed(self@, #[trigger] peer_ids@[k]),
            decreases peer_ids@.len() - i,
        {
            if self.find(peer_ids[i]).is_none() {
                proof {
                    assert(!is_listed(self@, peer_ids@[i as int]));
                }
                return Err(TargetError::Gone);
            }
            i += 1;
        }
        Ok(())
    }

    /// Takes note of which devices a message reached: the others are marked as
    /// closed, and the closed ones are dropped. The message failed if it did not
    /// reach all of them, and the last one that it did not reach is named.
    pub fn send_to_targets(&mut self, peer_ids: &Vec<u64>, reached: &Vec<bool>) -> (r: Result<
        (),
        TargetError,
    >)
        requires
            old(self).wf(),
            peer_ids@.len() == reached@.len(),
        ensures
            final(self).wf(),
            final(self).ending() == old(self).ending(),
            final(self)@ == living(closed_unreached(old(self)@, peer_ids@, reached@)),
            match last_unreached(peer_ids@, reached@) {
                Some(peer_id) => r == Err::<(), TargetError>(TargetError::Closed { peer_id }),
                None => r == Ok::<(), TargetError>(()),
            },
    {
        let ghost all = self@;
        let mut failed: Option<u64> = None;
        let mut i: usize = 0;
        while i < peer_ids.len()
            invariant
                i <= peer_ids@.len(),
                peer_ids@.len() == reached@.len(),
                all == old(self)@,
                self.wf(),
                self.ending() == old(self).ending(),
                self@ == closed_unreached(all, peer_ids@.take(i as int), reached@),
                failed == last_unreached(peer_ids@.take(i as int), reached@),
            decreases peer_ids@.len() - i,
        {
            proof {
                assert(peer_ids@.take(i as int + 1).drop_last() == peer_ids@.take(i as int));
            }
            if !reached[i] {
                self.mark_closed(peer_ids[i]);
                failed = Some(peer_ids[i]);
            }
            i += 1;
        }
        proof {
            assert(peer_ids@.take(peer_ids@.len() as int) == peer_ids@);
        }
        self.retain_living();
        match failed {
            Some(peer_id) => Err(TargetError::Closed { peer_id }),
            None => Ok(()),
        }
    }
}

/// Once all devices were disconnected, none is active.
pub proof fn law_disconnect_all_leaves_none(peers: Seq<PeerView>)
    ensures
        living(peers.map_values(|p: PeerView| PeerView { alive: false, ..p })).len() == 0,
    decreases peers.len(),
{
    let closed = peers.map_values(|p: PeerView| PeerView { alive: false, ..p });
    if peers.len() > 0 {
        law_disconnect_all_leaves_none(peers.drop_last());
        assert(closed.drop_last() == peers.drop_last().map_values(
            |p: PeerView| PeerView { alive: false, ..p },
        ));
    }
}

} // verus!
