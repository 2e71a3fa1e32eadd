//! The packet envelope and the packets of the connection's opening phases.
//!
//! A packet type carries an identifier, a protocol state, a direction and a
//! protocol version; identifiers are unique only within one direction and
//! state.  On the wire a packet is its VarInt identifier followed by its
//! payload.  Decoding dispatches on the identifier over the closed set of
//! payload types of the current direction and state; an unmatched identifier
//! fails with `BadPacketId`.
use crate::packet::{
    remaining_of, PacketRead, PacketReadable, PacketReadableError, PacketVariantReadable,
    PacketVariantWritable, PacketWritable, PacketWritableError, PacketWrite, RoundTrip,
    SlicePacketRead,
};
use crate::packet_types::RemainingBytesSlice;
use crate::strings::{read_string_with_limit, string_dec, string_enc, write_str_with_limit,
    STRING_LIMIT};
use crate::varnum::{var_enc, var_int_dec, VarInt};
use vstd::prelude::*;
use vstd::utf8::encode_utf8;

verus! {

/// The coarse phase a connection is in, gating which packets are valid.
#[derive(Clone, Copy, Debug, PartialEq, Eq, Structural)]
pub enum PacketState {
    Handshake,
    Status,
    Login,
    Play,
}

/// The direction a packet flows in.
#[derive(Clone, Copy, Debug, PartialEq, Eq, Structural)]
pub enum PacketSide {
    Server,
    Client,
}

/// A payload type's binding to the envelope: identifier, direction, state
/// and protocol version.
pub trait Packet {
    spec fn spec_id() -> int;

    spec fn spec_side() -> PacketSide;

    spec fn spec_state() -> PacketState;

    spec fn spec_protocol() -> int;

    fn id() -> (r: i32)
        ensures
            r as int == Self::spec_id(),
    ;

    fn side() -> (r: PacketSide)
        ensures
            r == Self::spec_side(),
    ;

    fn state() -> (r: PacketState)
        ensures
            r == Self::spec_state(),
    ;

    fn protocol() -> (r: i32)
        ensures
            r as int == Self::spec_protocol(),
    ;
}

/// Strategy: a packet under its envelope.  Writing puts the VarInt packet
/// identifier before the payload; reading is the payload's own decode, the
/// identifier having been dispatched on already.
pub struct PacketVariant;

impl<T: PacketReadable> PacketVariantReadable<T> for PacketVariant {
    open spec fn dec_variant(s: Seq<u8>) -> Result<(T::V, int), PacketReadableError> {
        T::dec(s)
    }

    fn read_variant<R: PacketRead>(read: &mut R) -> (r: Result<T, PacketReadableError>) {
        T::read(read)
    }
}

impl<T: PacketWritable + Packet> PacketVariantWritable<T> for PacketVariant {
    open spec fn enc_variant(object: &T) -> Seq<u8> {
        var_enc((T::spec_id() as i32) as u32 as nat) + object.enc()
    }

    open spec fn encodable_variant(object: &T) -> bool {
        object.encodable()
    }

    fn write_variant<W: PacketWrite>(object: &T, write: &mut W) -> (r: Result<
        (),
        PacketWritableError,
    >) {
        let ghost c0 = write.contents();
        let id = T::id();
        let ri = <VarInt as PacketVariantWritable<i32>>::write_variant(&id, write);
        match ri {
            Ok(()) => (),
            Err(e) => {
                proof {
                    assert(false);
                }
                return Err(e);
            },
        }
        let r = object.write(write);
        match r {
            Ok(()) => {
                proof {
                    assert(write.contents() =~= c0 + Self::enc_variant(object));
                }
                Ok(())
            },
            Err(e) => Err(e),
        }
    }
}

/// The intention a handshake announces for the connection's next phase.
#[derive(Clone, Copy, Debug, PartialEq, Eq, Structural)]
pub enum HandshakeNextState {
    Status,
    Login,
}

impl DeepView for HandshakeNextState {
    type V = HandshakeNextState;

    open spec fn deep_view(&self) -> HandshakeNextState {
        *self
    }
}

/// The wire discriminant of a next-state intention.
pub open spec fn next_state_code(v: HandshakeNextState) -> int {
    match v {
        HandshakeNextState::Status => 1,
        HandshakeNextState::Login => 2,
    }
}

impl PacketReadable for HandshakeNextState {
    open spec fn dec(s: Seq<u8>) -> Result<(HandshakeNextState, int), PacketReadableError> {
        match var_int_dec(s) {
            Ok((v, n)) => if v == 1 {
                Ok((HandshakeNextState::Status, n))
            } else if v == 2 {
                Ok((HandshakeNextState::Login, n))
            } else {
                Err(PacketReadableError::BadEnumValue)
            },
            Err(e) => Err(e),
        }
    }

    fn read<R: PacketRead>(read: &mut R) -> (r: Result<Self, PacketReadableError>) {
        let v = match <VarInt as PacketVariantReadable<i32>>::read_variant(read) {
            Ok(v) => v,
            Err(e) => {
                return Err(e);
            },
        };
        if v == 1 {
            Ok(HandshakeNextState::Status)
        } else if v == 2 {
            Ok(HandshakeNextState::Login)
        } else {
            Err(PacketReadableError::BadEnumValue)
        }
    }
}

impl PacketWritable for HandshakeNextState {
    open spec fn enc(&self) -> Seq<u8> {
        var_enc(next_state_code(*self) as nat)
    }

    open spec fn encodable(&self) -> bool {
        true
    }

    fn write<W: PacketWrite>(&self, write: &mut W) -> (r: Result<(), PacketWritableError>) {
        let code: i32 = match self {
            HandshakeNextState::Status => 1,
            HandshakeNextState::Login => 2,
        };
        <VarInt as PacketVariantWritable<i32>>::write_variant(&code, write)
    }
}

impl RoundTrip for HandshakeNextState {
    proof fn round_trip(&self, tail: Seq<u8>) {
        let code = next_state_code(*self);
        <VarInt as crate::packet::VariantRoundTrip<i32>>::round_trip_variant(&(code as i32), tail);
    }
}

/// The first packet of every connection: protocol version, the address and
/// port dialled, and the intended next phase.
#[derive(Debug, Clone, PartialEq, Eq)]
pub struct HandshakePacket {
    pub protocol_version: i32,
    pub server_address: String,
    pub server_port: u16,
    pub next_state: HandshakeNextState,
}

impl DeepView for HandshakePacket {
    type V = (i32, Seq<char>, u16, HandshakeNextState);

    open spec fn deep_view(&self) -> (i32, Seq<char>, u16, HandshakeNextState) {
        (self.protocol_version, self.server_address@, self.server_port, self.next_state)
    }
}

impl PacketReadable for HandshakePacket {
    open spec fn dec(s: Seq<u8>) -> Result<
        ((i32, Seq<char>, u16, HandshakeNextState), int),
        PacketReadableError,
    > {
        match var_int_dec(s) {
            Ok((pv, n1)) => match string_dec(s.skip(n1), STRING_LIMIT as int) {
                Ok((addr, n2)) => match u16::dec(s.skip(n1 + n2)) {
                    Ok((port, n3)) => match HandshakeNextState::dec(s.skip(n1 + n2 + n3)) {
                        Ok((ns, n4)) => Ok(((pv, addr, port, ns), n1 + n2 + n3 + n4)),
                        Err(e) => Err(e),
                    },
                    Err(e) => Err(e),
                },
                Err(e) => Err(e),
            },
            Err(e) => Err(e),
        }
    }

    fn read<R: PacketRead>(read: &mut R) -> (r: Result<Self, PacketReadableError>) {
        proof {
            read.wf_bounds();
        }
        let ghost rem = remaining_of(*read);
        let ghost p0 = read.pos();
        let protocol_version = match <VarInt as PacketVariantReadable<i32>>::read_variant(read) {
            Ok(v) => v,
            Err(e) => {
                return Err(e);
            },
        };
        proof {
            assert(remaining_of(*read) =~= rem.skip(read.pos() - p0));
        }
        let ghost p1 = read.pos();
        let server_address = match read_string_with_limit(read, STRING_LIMIT) {
            Ok(v) => v,
            Err(e) => {
                return Err(e);
            },
        };
        proof {
            assert(remaining_of(*read) =~= rem.skip(read.pos() - p0));
        }
        let ghost p2 = read.pos();
        let server_port = match u16::read(read) {
            Ok(v) => v,
            Err(e) => {
                return Err(e);
            },
        };
        proof {
            assert(remaining_of(*read) =~= rem.skip(read.pos() - p0));
        }
        let next_state = match HandshakeNextState::read(read) {
            Ok(v) => v,
            Err(e) => {
                return Err(e);
            },
        };
        Ok(HandshakePacket { protocol_version, server_address, server_port, next_state })
    }
}

impl PacketWritable for HandshakePacket {
    open spec fn enc(&self) -> Seq<u8> {
        var_enc((self.protocol_version as u32) as nat) + string_enc(
            encode_utf8(self.server_address@),
        ) + crate::numbers::be_bytes(self.server_port as nat, 2) + self.next_state.enc()
    }

    open spec fn encodable(&self) -> bool {
        self.server_address.encodable()
    }

    fn write<W: PacketWrite>(&self, write: &mut W) -> (r: Result<(), PacketWritableError>) {
        let ghost c0 = write.contents();
        let ri = <VarInt as PacketVariantWritable<i32>>::write_variant(
            &self.protocol_version,
            write,
        );
        match ri {
            Ok(()) => (),
            Err(e) => {
                proof {
                    assert(false);
                }
                return Err(e);
            },
        }
        let rs = write_str_with_limit(self.server_address.as_str(), write);
        match rs {
            Ok(()) => (),
            Err(e) => {
                return Err(e);
            },
        }
        let rp = self.server_port.write(write);
        match rp {
            Ok(()) => (),
            Err(e) => {
                proof {
                    assert(false);
                }
                return Err(e);
            },
        }
        let rn = self.next_state.write(write);
        match rn {
            Ok(()) => (),
            Err(e) => {
                proof {
                    assert(false);
                }
                return Err(e);
            },
        }
        proof {
            assert(write.contents() =~= c0 + self.enc());
        }
        Ok(())
    }
}

impl Packet for HandshakePacket {
    open spec fn spec_id() -> int {
        0
    }

    open spec fn spec_side() -> PacketSide {
        PacketSide::Server
    }

    open spec fn spec_state() -> PacketState {
        PacketState::Handshake
    }

    open spec fn spec_protocol() -> int {
        0
    }

    fn id() -> (r: i32) {
        0
    }

    fn side() -> (r: PacketSide) {
        PacketSide::Server
    }

    fn state() -> (r: PacketState) {
        PacketState::Handshake
    }

    fn protocol() -> (r: i32) {
        0
    }
}

impl RoundTrip for HandshakePacket {
    proof fn round_trip(&self, tail: Seq<u8>) {
        let e1 = var_enc((self.protocol_version as u32) as nat);
        let e2 = string_enc(encode_utf8(self.server_address@));
        let e3 = crate::numbers::be_bytes(self.server_port as nat, 2);
        let e4 = self.next_state.enc();
        let s = self.enc() + tail;
        <VarInt as crate::packet::VariantRoundTrip<i32>>::round_trip_variant(
            &self.protocol_version,
            e2 + (e3 + (e4 + tail)),
        );
        assert(s =~= e1 + (e2 + (e3 + (e4 + tail))));
        let n1 = e1.len() as int;
        assert(s.skip(n1) =~= e2 + (e3 + (e4 + tail)));
        broadcast use vstd::utf8::encode_utf8_valid_utf8, vstd::utf8::encode_utf8_decode_utf8;

        crate::strings::lemma_string_round(encode_utf8(self.server_address@), STRING_LIMIT as int,
            e3 + (e4 + tail));
        let n2 = e2.len() as int;
        assert(s.skip(n1).skip(n2) =~= e3 + (e4 + tail));
        assert(s.skip(n1 + n2) =~= e3 + (e4 + tail));
        crate::numbers::lemma_pow256_val_2();
        crate::numbers::lemma_be_bytes_len(self.server_port as nat, 2);
        crate::numbers::lemma_fixed_round(self.server_port as nat, 2, e4 + tail);
        let n3 = e3.len() as int;
        assert(s.skip(n1 + n2).skip(n3) =~= e4 + tail);
        assert(s.skip(n1 + n2 + n3) =~= e4 + tail);
        self.next_state.round_trip(tail);
    }
}

/// A status query; it has no payload.
#[derive(Debug, Clone, Copy, PartialEq, Eq, Structural)]
pub struct StatusRequest;

impl DeepView for StatusRequest {
    type V = StatusRequest;

    open spec fn deep_view(&self) -> StatusRequest {
        *self
    }
}

impl PacketReadable for StatusRequest {
    open spec fn dec(s: Seq<u8>) -> Result<(StatusRequest, int), PacketReadableError> {
        Ok((StatusRequest, 0))
    }

    fn read<R: PacketRead>(read: &mut R) -> (r: Result<Self, PacketReadableError>) {
        proof {
            read.wf_bounds();
        }
        Ok(StatusRequest)
    }
}

impl PacketWritable for StatusRequest {
    open spec fn enc(&self) -> Seq<u8> {
        Seq::empty()
    }

    open spec fn encodable(&self) -> bool {
        true
    }

    fn write<W: PacketWrite>(&self, write: &mut W) -> (r: Result<(), PacketWritableError>) {
        proof {
            assert(final(write).contents() =~= old(write).contents() + Seq::<u8>::empty());
        }
        Ok(())
    }
}

impl Packet for StatusRequest {
    open spec fn spec_id() -> int {
        0
    }

    open spec fn spec_side() -> PacketSide {
        PacketSide::Server
    }

    open spec fn spec_state() -> PacketState {
        PacketState::Status
    }

    open spec fn spec_protocol() -> int {
        0
    }

    fn id() -> (r: i32) {
        0
    }

    fn side() -> (r: PacketSide) {
        PacketSide::Server
    }

    fn state() -> (r: PacketState) {
        PacketState::Status
    }

    fn protocol() -> (r: i32) {
        0
    }
}

impl RoundTrip for StatusRequest {
    proof fn round_trip(&self, tail: Seq<u8>) {
    }
}

/// A latency probe carrying an opaque payload the peer echoes.
#[derive(Debug, Clone, Copy, PartialEq, Eq, Structural)]
pub struct StatusPingRequest {
    pub payload: i64,
}

impl DeepView for StatusPingRequest {
    type V = StatusPingRequest;

    open spec fn deep_view(&self) -> StatusPingRequest {
        *self
    }
}

impl PacketReadable for StatusPingRequest {
    open spec fn dec(s: Seq<u8>) -> Result<(StatusPingRequest, int), PacketReadableError> {
        match i64::dec(s) {
            Ok((v, n)) => Ok((StatusPingRequest { payload: v }, n)),
            Err(e) => Err(e),
        }
    }

    fn read<R: PacketRead>(read: &mut R) -> (r: Result<Self, PacketReadableError>) {
        match i64::read(read) {
            Ok(v) => Ok(StatusPingRequest { payload: v }),
            Err(e) => Err(e),
        }
    }
}

impl PacketWritable for StatusPingRequest {
    open spec fn enc(&self) -> Seq<u8> {
        self.payload.enc()
    }

    open spec fn encodable(&self) -> bool {
        true
    }

    fn write<W: PacketWrite>(&self, write: &mut W) -> (r: Result<(), PacketWritableError>) {
        self.payload.write(write)
    }
}

impl Packet for StatusPingRequest {
    open spec fn spec_id() -> int {
        1
    }

    open spec fn spec_side() -> PacketSide {
        PacketSide::Server
    }

    open spec fn spec_state() -> PacketState {
        PacketState::Status
    }

    open spec fn spec_protocol() -> int {
        0
    }

    fn id() -> (r: i32) {
        1
    }

    fn side() -> (r: PacketSide) {
        PacketSide::Server
    }

    fn state() -> (r: PacketState) {
        PacketState::Status
    }

    fn protocol() -> (r: i32) {
        0
    }
}

impl RoundTrip for StatusPingRequest {
    proof fn round_trip(&self, tail: Seq<u8>) {
        self.payload.round_trip(tail);
    }
}

/// The echo of a latency probe.
#[derive(Debug, Clone, Copy, PartialEq, Eq, Structural)]
pub struct StatusPingResponse {
    pub payload: i64,
}

impl DeepView for StatusPingResponse {
    type V = StatusPingResponse;

    open spec fn deep_view(&self) -> StatusPingResponse {
        *self
    }
}

impl PacketReadable for StatusPingResponse {
    open spec fn dec(s: Seq<u8>) -> Result<(StatusPingResponse, int), PacketReadableError> {
        match i64::dec(s) {
            Ok((v, n)) => Ok((StatusPingResponse { payload: v }, n)),
            Err(e) => Err(e),
        }
    }

    fn read<R: PacketRead>(read: &mut R) -> (r: Result<Self, PacketReadableError>) {
        match i64::read(read) {
            Ok(v) => Ok(StatusPingResponse { payload: v }),
            Err(e) => Err(e),
        }
    }
}

impl PacketWritable for StatusPingResponse {
    open spec fn enc(&self) -> Seq<u8> {
        self.payload.enc()
    }

    open spec fn encodable(&self) -> bool {
        true
    }

    fn write<W: PacketWrite>(&self, write: &mut W) -> (r: Result<(), PacketWritableError>) {
        self.payload.write(write)
    }
}

impl Packet for StatusPingResponse {
    open spec fn spec_id() -> int {
        1
    }

    open spec fn spec_side() -> PacketSide {
        PacketSide::Client
    }

    open spec fn spec_state() -> PacketState {
        PacketState::Status
    }

    open spec fn spec_protocol() -> int {
        0
    }

    fn id() -> (r: i32) {
        1
    }

    fn side() -> (r: PacketSide) {
        PacketSide::Client
    }

    fn state() -> (r: PacketState) {
        PacketState::Status
    }

    fn protocol() -> (r: i32) {
        0
    }
}

impl RoundTrip for StatusPingResponse {
    proof fn round_trip(&self, tail: Seq<u8>) {
        self.payload.round_trip(tail);
    }
}

/// The server-bound packets the opening phases can carry, as one closed
/// union.
#[derive(Debug, Clone, PartialEq, Eq)]
pub enum ServerBoundPacket {
    Handshake(HandshakePacket),
    StatusRequest(StatusRequest),
    StatusPing(StatusPingRequest),
    LoginStart(LoginStart),
}

impl DeepView for ServerBoundPacket {
    type V = ServerBoundPacketView;

    open spec fn deep_view(&self) -> ServerBoundPacketView {
        match self {
            ServerBoundPacket::Handshake(p) => ServerBoundPacketView::Handshake(p.deep_view()),
            ServerBoundPacket::StatusRequest(p) => ServerBoundPacketView::StatusRequest(
                p.deep_view(),
            ),
            ServerBoundPacket::StatusPing(p) => ServerBoundPacketView::StatusPing(p.deep_view()),
            ServerBoundPacket::LoginStart(p) => ServerBoundPacketView::LoginStart(p.deep_view()),
        }
    }
}

/// The abstraction of a dispatched server-bound packet.
pub enum ServerBoundPacketView {
    Handshake((i32, Seq<char>, u16, HandshakeNextState)),
    StatusRequest(StatusRequest),
    StatusPing(StatusPingRequest),
    LoginStart((Seq<char>, Option<(i64, Seq<u8>, Seq<u8>)>)),
}

/// The envelope decoder for one direction and state: the VarInt identifier,
/// dispatched by exact match to the payload type it names there.
pub open spec fn server_bound_dec(state: PacketState, s: Seq<u8>) -> Result<
    (ServerBoundPacketView, int),
    PacketReadableError,
> {
    match var_int_dec(s) {
        Ok((id, n)) => match state {
            PacketState::Handshake => if id == 0 {
                match HandshakePacket::dec(s.skip(n)) {
                    Ok((p, m)) => Ok((ServerBoundPacketView::Handshake(p), n + m)),
                    Err(e) => Err(e),
                }
            } else {
                Err(PacketReadableError::BadPacketId)
            },
            PacketState::Status => if id == 0 {
                match StatusRequest::dec(s.skip(n)) {
                    Ok((p, m)) => Ok((ServerBoundPacketView::StatusRequest(p), n + m)),
                    Err(e) => Err(e),
                }
            } else if id == 1 {
                match StatusPingRequest::dec(s.skip(n)) {
                    Ok((p, m)) => Ok((ServerBoundPacketView::StatusPing(p), n + m)),
                    Err(e) => Err(e),
                }
            } else {
                Err(PacketReadableError::BadPacketId)
            },
            PacketState::Login => if id == 0 {
                match LoginStart::dec(s.skip(n)) {
                    Ok((p, m)) => Ok((ServerBoundPacketView::LoginStart(p), n + m)),
                    Err(e) => Err(e),
                }
            } else {
                Err(PacketReadableError::BadPacketId)
            },
            _ => Err(PacketReadableError::BadPacketId),
        },
        Err(e) => Err(e),
    }
}

/// Read one server-bound packet of the given state from a frame: the VarInt
/// identifier, then the payload it names.  An identifier naming no payload
/// type of this direction and state fails with `BadPacketId`.
pub fn read_server_bound<R: PacketRead>(state: PacketState, read: &mut R) -> (r: Result<
    ServerBoundPacket,
    PacketReadableError,
>)
    requires
        old(read).wf(),
    ensures
        final(read).wf(),
        final(read).data() == old(read).data(),
        old(read).pos() <= final(read).pos() <= old(read).data().len(),
        match r {
            Ok(p) => server_bound_dec(state, remaining_of(*old(read))) == Ok::<
                _,
                PacketReadableError,
            >((p.deep_view(), final(read).pos() - old(read).pos())),
            Err(e) => server_bound_dec(state, remaining_of(*old(read))) == Err::<
                (ServerBoundPacketView, int),
                _,
            >(e),
        },
{
    proof {
        read.wf_bounds();
    }
    let ghost rem = remaining_of(*read);
    let ghost p0 = read.pos();
    let id = match <VarInt as PacketVariantReadable<i32>>::read_variant(read) {
        Ok(v) => v,
        Err(e) => {
            return Err(e);
        },
    };
    proof {
        assert(remaining_of(*read) =~= rem.skip(read.pos() - p0));
    }
    match state {
        PacketState::Handshake => {
            if id == 0 {
                match HandshakePacket::read(read) {
                    Ok(p) => Ok(ServerBoundPacket::Handshake(p)),
                    Err(e) => Err(e),
                }
            } else {
                Err(PacketReadableError::BadPacketId)
            }
        },
        PacketState::Status => {
            if id == 0 {
                match StatusRequest::read(read) {
                    Ok(p) => Ok(ServerBoundPacket::StatusRequest(p)),
                    Err(e) => Err(e),
                }
            } else if id == 1 {
                match StatusPingRequest::read(read) {
                    Ok(p) => Ok(ServerBoundPacket::StatusPing(p)),
                    Err(e) => Err(e),
                }
            } else {
                Err(PacketReadableError::BadPacketId)
            }
        },
        PacketState::Login => {
            if id == 0 {
                match LoginStart::read(read) {
                    Ok(p) => Ok(ServerBoundPacket::LoginStart(p)),
                    Err(e) => Err(e),
                }
            } else {
                Err(PacketReadableError::BadPacketId)
            }
        },
        _ => Err(PacketReadableError::BadPacketId),
    }
}

/// The state a handshake's intention moves the connection to.
pub fn next_protocol_state(next: HandshakeNextState) -> (r: PacketState)
    ensures
        next == HandshakeNextState::Status ==> r == PacketState::Status,
        next == HandshakeNextState::Login ==> r == PacketState::Login,
{
    match next {
        HandshakeNextState::Status => PacketState::Status,
        HandshakeNextState::Login => PacketState::Login,
    }
}


/// The key and signature a login announcement may carry.
#[derive(Debug, Clone, PartialEq, Eq)]
pub struct LoginStartSignatureData {
    pub timestamp: i64,
    pub public_key: Vec<u8>,
    pub signature: Vec<u8>,
}

impl DeepView for LoginStartSignatureData {
    type V = (i64, Seq<u8>, Seq<u8>);

    open spec fn deep_view(&self) -> (i64, Seq<u8>, Seq<u8>) {
        (self.timestamp, self.public_key.deep_view(), self.signature.deep_view())
    }
}

type ByteSliceVarInt = crate::packet_types::LengthProvidedBytesSlice<VarInt, i32>;

impl PacketReadable for LoginStartSignatureData {
    open spec fn dec(s: Seq<u8>) -> Result<((i64, Seq<u8>, Seq<u8>), int), PacketReadableError> {
        match i64::dec(s) {
            Ok((ts, n1)) => match ByteSliceVarInt::dec_variant(s.skip(n1)) {
                Ok((key, n2)) => match ByteSliceVarInt::dec_variant(s.skip(n1 + n2)) {
                    Ok((sig, n3)) => Ok(((ts, key, sig), n1 + n2 + n3)),
                    Err(e) => Err(e),
                },
                Err(e) => Err(e),
            },
            Err(e) => Err(e),
        }
    }

    fn read<R: PacketRead>(read: &mut R) -> (r: Result<Self, PacketReadableError>) {
        proof {
            read.wf_bounds();
        }
        let ghost rem = remaining_of(*read);
        let ghost p0 = read.pos();
        let timestamp = match i64::read(read) {
            Ok(v) => v,
            Err(e) => {
                return Err(e);
            },
        };
        proof {
            assert(remaining_of(*read) =~= rem.skip(read.pos() - p0));
        }
        let public_key = match <ByteSliceVarInt as PacketVariantReadable<Vec<u8>>>::read_variant(
            read,
        ) {
            Ok(v) => v,
            Err(e) => {
                return Err(e);
            },
        };
        proof {
            assert(remaining_of(*read) =~= rem.skip(read.pos() - p0));
        }
        let signature = match <ByteSliceVarInt as PacketVariantReadable<Vec<u8>>>::read_variant(
            read,
        ) {
            Ok(v) => v,
            Err(e) => {
                return Err(e);
            },
        };
        Ok(LoginStartSignatureData { timestamp, public_key, signature })
    }
}

impl PacketWritable for LoginStartSignatureData {
    open spec fn enc(&self) -> Seq<u8> {
        self.timestamp.enc() + ByteSliceVarInt::enc_variant(&self.public_key)
            + ByteSliceVarInt::enc_variant(&self.signature)
    }

    open spec fn encodable(&self) -> bool {
        ByteSliceVarInt::encodable_variant(&self.public_key)
            && ByteSliceVarInt::encodable_variant(&self.signature)
    }

    fn write<W: PacketWrite>(&self, write: &mut W) -> (r: Result<(), PacketWritableError>) {
        let ghost c0 = write.contents();
        let rt = self.timestamp.write(write);
        match rt {
            Ok(()) => (),
            Err(e) => {
                proof {
                    assert(false);
                }
                return Err(e);
            },
        }
        let rk = <ByteSliceVarInt as PacketVariantWritable<Vec<u8>>>::write_variant(
            &self.public_key,
            write,
        );
        match rk {
            Ok(()) => (),
            Err(e) => {
                return Err(e);
            },
        }
        let rs = <ByteSliceVarInt as PacketVariantWritable<Vec<u8>>>::write_variant(
            &self.signature,
            write,
        );
        match rs {
            Ok(()) => (),
            Err(e) => {
                return Err(e);
            },
        }
        proof {
            assert(write.contents() =~= c0 + self.enc());
        }
        Ok(())
    }
}

impl RoundTrip for LoginStartSignatureData {
    proof fn round_trip(&self, tail: Seq<u8>) {
        let e1 = self.timestamp.enc();
        let e2 = ByteSliceVarInt::enc_variant(&self.public_key);
        let e3 = ByteSliceVarInt::enc_variant(&self.signature);
        let s = self.enc() + tail;
        self.timestamp.round_trip(e2 + (e3 + tail));
        assert(s =~= e1 + (e2 + (e3 + tail)));
        let n1 = e1.len() as int;
        assert(s.skip(n1) =~= e2 + (e3 + tail));
        <ByteSliceVarInt as crate::packet::VariantRoundTrip<Vec<u8>>>::round_trip_variant(
            &self.public_key,
            e3 + tail,
        );
        let n2 = e2.len() as int;
        assert(s.skip(n1).skip(n2) =~= e3 + tail);
        assert(s.skip(n1 + n2) =~= e3 + tail);
        <ByteSliceVarInt as crate::packet::VariantRoundTrip<Vec<u8>>>::round_trip_variant(
            &self.signature,
            tail,
        );
    }
}

/// The login announcement: the player's name and, optionally, signature
/// material.
#[derive(Debug, Clone, PartialEq, Eq)]
pub struct LoginStart {
    pub name: String,
    pub signature_data: Option<LoginStartSignatureData>,
}

impl DeepView for LoginStart {
    type V = (Seq<char>, Option<(i64, Seq<u8>, Seq<u8>)>);

    open spec fn deep_view(&self) -> (Seq<char>, Option<(i64, Seq<u8>, Seq<u8>)>) {
        (self.name@, self.signature_data.deep_view())
    }
}

impl PacketReadable for LoginStart {
    open spec fn dec(s: Seq<u8>) -> Result<
        ((Seq<char>, Option<(i64, Seq<u8>, Seq<u8>)>), int),
        PacketReadableError,
    > {
        match string_dec(s, STRING_LIMIT as int) {
            Ok((name, n1)) => match <Option<LoginStartSignatureData> as PacketReadable>::dec(
                s.skip(n1),
            ) {
                Ok((sig, n2)) => Ok(((name, sig), n1 + n2)),
                Err(e) => Err(e),
            },
            Err(e) => Err(e),
        }
    }

    fn read<R: PacketRead>(read: &mut R) -> (r: Result<Self, PacketReadableError>) {
        proof {
            read.wf_bounds();
        }
        let ghost rem = remaining_of(*read);
        let ghost p0 = read.pos();
        let name = match read_string_with_limit(read, STRING_LIMIT) {
            Ok(v) => v,
            Err(e) => {
                return Err(e);
            },
        };
        proof {
            assert(remaining_of(*read) =~= rem.skip(read.pos() - p0));
        }
        let signature_data = match <Option<LoginStartSignatureData> as PacketReadable>::read(
            read,
        ) {
            Ok(v) => v,
            Err(e) => {
                return Err(e);
            },
        };
        Ok(LoginStart { name, signature_data })
    }
}

impl PacketWritable for LoginStart {
    open spec fn enc(&self) -> Seq<u8> {
        string_enc(encode_utf8(self.name@)) + self.signature_data.enc()
    }

    open spec fn encodable(&self) -> bool {
        self.name.encodable() && self.signature_data.encodable()
    }

    fn write<W: PacketWrite>(&self, write: &mut W) -> (r: Result<(), PacketWritableError>) {
        let ghost c0 = write.contents();
        let rn = write_str_with_limit(self.name.as_str(), write);
        match rn {
            Ok(()) => (),
            Err(e) => {
                return Err(e);
            },
        }
        let rs = self.signature_data.write(write);
        match rs {
            Ok(()) => (),
            Err(e) => {
                return Err(e);
            },
        }
        proof {
            assert(write.contents() =~= c0 + self.enc());
        }
        Ok(())
    }
}

impl Packet for LoginStart {
    open spec fn spec_id() -> int {
        0
    }

    open spec fn spec_side() -> PacketSide {
        PacketSide::Server
    }

    open spec fn spec_state() -> PacketState {
        PacketState::Login
    }

    open spec fn spec_protocol() -> int {
        0
    }

    fn id() -> (r: i32) {
        0
    }

    fn side() -> (r: PacketSide) {
        PacketSide::Server
    }

    fn state() -> (r: PacketState) {
        PacketState::Login
    }

    fn protocol() -> (r: i32) {
        0
    }
}

impl RoundTrip for LoginStart {
    proof fn round_trip(&self, tail: Seq<u8>) {
        broadcast use vstd::utf8::encode_utf8_valid_utf8, vstd::utf8::encode_utf8_decode_utf8;

        let e1 = string_enc(encode_utf8(self.name@));
        let e2 = self.signature_data.enc();
        let s = self.enc() + tail;
        crate::strings::lemma_string_round(encode_utf8(self.name@), STRING_LIMIT as int, e2 + tail);
        assert(s =~= e1 + (e2 + tail));
        let n1 = e1.len() as int;
        assert(s.skip(n1) =~= e2 + tail);
        self.signature_data.round_trip(tail);
    }
}

/// The compression threshold announcement.
#[derive(Debug, Clone, Copy, PartialEq, Eq, Structural)]
pub struct LoginSetCompression {
    pub threshold: i32,
}

impl DeepView for LoginSetCompression {
    type V = LoginSetCompression;

    open spec fn deep_view(&self) -> LoginSetCompression {
        *self
    }
}

impl PacketReadable for LoginSetCompression {
    open spec fn dec(s: Seq<u8>) -> Result<(LoginSetCompression, int), PacketReadableError> {
        match var_int_dec(s) {
            Ok((v, n)) => Ok((LoginSetCompression { threshold: v }, n)),
            Err(e) => Err(e),
        }
    }

    fn read<R: PacketRead>(read: &mut R) -> (r: Result<Self, PacketReadableError>) {
        match <VarInt as PacketVariantReadable<i32>>::read_variant(read) {
            Ok(v) => Ok(LoginSetCompression { threshold: v }),
            Err(e) => Err(e),
        }
    }
}

impl PacketWritable for LoginSetCompression {
    open spec fn enc(&self) -> Seq<u8> {
        var_enc((self.threshold as u32) as nat)
    }

    open spec fn encodable(&self) -> bool {
        true
    }

    fn write<W: PacketWrite>(&self, write: &mut W) -> (r: Result<(), PacketWritableError>) {
        <VarInt as PacketVariantWritable<i32>>::write_variant(&self.threshold, write)
    }
}

impl Packet for LoginSetCompression {
    open spec fn spec_id() -> int {
        3
    }

    open spec fn spec_side() -> PacketSide {
        PacketSide::Client
    }

    open spec fn spec_state() -> PacketState {
        PacketState::Login
    }

    open spec fn spec_protocol() -> int {
        0
    }

    fn id() -> (r: i32) {
        3
    }

    fn side() -> (r: PacketSide) {
        PacketSide::Client
    }

    fn state() -> (r: PacketState) {
        PacketState::Login
    }

    fn protocol() -> (r: i32) {
        0
    }
}

impl RoundTrip for LoginSetCompression {
    proof fn round_trip(&self, tail: Seq<u8>) {
        <VarInt as crate::packet::VariantRoundTrip<i32>>::round_trip_variant(
            &self.threshold,
            tail,
        );
    }
}


/// The envelope law for the handshake phase: a handshake packet under its
/// envelope dispatches back to itself, whatever follows it.
pub proof fn lemma_dispatch_handshake(p: &HandshakePacket, tail: Seq<u8>)
    requires
        p.encodable(),
    ensures
        server_bound_dec(
            PacketState::Handshake,
            <PacketVariant as PacketVariantWritable<HandshakePacket>>::enc_variant(p) + tail,
        ) == Ok::<_, PacketReadableError>(
            (
                ServerBoundPacketView::Handshake(p.deep_view()),
                <PacketVariant as PacketVariantWritable<HandshakePacket>>::enc_variant(
                    p,
                ).len() as int,
            ),
        ),
{
    let id_bytes = var_enc(0);
    let body = p.enc();
    let s = <PacketVariant as PacketVariantWritable<HandshakePacket>>::enc_variant(p) + tail;
    <VarInt as crate::packet::VariantRoundTrip<i32>>::round_trip_variant(&0i32, body + tail);
    assert(s =~= id_bytes + (body + tail));
    let n = id_bytes.len() as int;
    assert(s.skip(n) =~= body + tail);
    p.round_trip(tail);
}

/// The envelope law for the status phase's query.
pub proof fn lemma_dispatch_status_request(p: &StatusRequest, tail: Seq<u8>)
    ensures
        server_bound_dec(
            PacketState::Status,
            <PacketVariant as PacketVariantWritable<StatusRequest>>::enc_variant(p) + tail,
        ) == Ok::<_, PacketReadableError>(
            (
                ServerBoundPacketView::StatusRequest(p.deep_view()),
                <PacketVariant as PacketVariantWritable<StatusRequest>>::enc_variant(
                    p,
                ).len() as int,
            ),
        ),
{
    let id_bytes = var_enc(0);
    let body = p.enc();
    let s = <PacketVariant as PacketVariantWritable<StatusRequest>>::enc_variant(p) + tail;
    <VarInt as crate::packet::VariantRoundTrip<i32>>::round_trip_variant(&0i32, body + tail);
    assert(s =~= id_bytes + (body + tail));
    let n = id_bytes.len() as int;
    assert(s.skip(n) =~= body + tail);
    p.round_trip(tail);
}

/// The envelope law for the status phase's latency probe.
pub proof fn lemma_dispatch_status_ping(p: &StatusPingRequest, tail: Seq<u8>)
    ensures
        server_bound_dec(
            PacketState::Status,
            <PacketVariant as PacketVariantWritable<StatusPingRequest>>::enc_variant(p) + tail,
        ) == Ok::<_, PacketReadableError>(
            (
                ServerBoundPacketView::StatusPing(p.deep_view()),
                <PacketVariant as PacketVariantWritable<StatusPingRequest>>::enc_variant(
                    p,
                ).len() as int,
            ),
        ),
{
    let id_bytes = var_enc(1);
    let body = p.enc();
    let s = <PacketVariant as PacketVariantWritable<StatusPingRequest>>::enc_variant(p) + tail;
    <VarInt as crate::packet::VariantRoundTrip<i32>>::round_trip_variant(&1i32, body + tail);
    assert(s =~= id_bytes + (body + tail));
    let n = id_bytes.len() as int;
    assert(s.skip(n) =~= body + tail);
    p.round_trip(tail);
}

/// The envelope law for the login phase's announcement.
pub proof fn lemma_dispatch_login_start(p: &LoginStart, tail: Seq<u8>)
    requires
        p.encodable(),
    ensures
        server_bound_dec(
            PacketState::Login,
            <PacketVariant as PacketVariantWritable<LoginStart>>::enc_variant(p) + tail,
        ) == Ok::<_, PacketReadableError>(
            (
                ServerBoundPacketView::LoginStart(p.deep_view()),
                <PacketVariant as PacketVariantWritable<LoginStart>>::enc_variant(p).len() as int,
            ),
        ),
{
    let id_bytes = var_enc(0);
    let body = p.enc();
    let s = <PacketVariant as PacketVariantWritable<LoginStart>>::enc_variant(p) + tail;
    <VarInt as crate::packet::VariantRoundTrip<i32>>::round_trip_variant(&0i32, body + tail);
    assert(s =~= id_bytes + (body + tail));
    let n = id_bytes.len() as int;
    assert(s.skip(n) =~= body + tail);
    p.round_trip(tail);
}


/// The state the connection is in after one dispatched packet: a handshake's
/// announced intention moves it, everything else leaves it.
pub open spec fn state_after(state: PacketState, packet: ServerBoundPacketView) -> PacketState {
    match packet {
        ServerBoundPacketView::Handshake((pv, addr, port, next)) => match next {
            HandshakeNextState::Status => PacketState::Status,
            HandshakeNextState::Login => PacketState::Login,
        },
        _ => state,
    }
}

/// One step of the connection's read loop: decode the frame's packet under
/// the current state and move the state as the packet demands.  Any decode
/// failure is handed up; the caller treats it as fatal for the connection.
pub fn handle_frame(state: PacketState, frame: &[u8]) -> (r: Result<
    (ServerBoundPacket, PacketState),
    PacketReadableError,
>)
    ensures
        match r {
            Ok((packet, next)) => (match server_bound_dec(state, frame@) {
                Ok((pv, n)) => packet.deep_view() == pv && next == state_after(state, pv),
                Err(e) => false,
            }),
            Err(e) => server_bound_dec(state, frame@) == Err::<(ServerBoundPacketView, int), _>(e),
        },
{
    let mut read = SlicePacketRead::new(frame);
    proof {
        assert(frame@.skip(0) =~= frame@);
    }
    let packet = match read_server_bound(state, &mut read) {
        Ok(p) => p,
        Err(e) => {
            return Err(e);
        },
    };
    let next = match &packet {
        ServerBoundPacket::Handshake(p) => next_protocol_state(p.next_state),
        _ => state,
    };
    Ok((packet, next))
}


/// The server's encryption offer: its identifier, public key and a token the
/// client must echo encrypted.
#[derive(Debug, Clone, PartialEq, Eq)]
pub struct LoginEncryptionRequest {
    pub server_id: String,
    pub public_key: Vec<u8>,
    pub verify_token: Vec<u8>,
}

impl DeepView for LoginEncryptionRequest {
    type V = (Seq<char>, Seq<u8>, Seq<u8>);

    open spec fn deep_view(&self) -> (Seq<char>, Seq<u8>, Seq<u8>) {
        (self.server_id@, self.public_key.deep_view(), self.verify_token.deep_view())
    }
}

impl PacketReadable for LoginEncryptionRequest {
    open spec fn dec(s: Seq<u8>) -> Result<((Seq<char>, Seq<u8>, Seq<u8>), int), PacketReadableError> {
        match string_dec(s, STRING_LIMIT as int) {
            Ok((sid, n1)) => match ByteSliceVarInt::dec_variant(s.skip(n1)) {
                Ok((key, n2)) => match ByteSliceVarInt::dec_variant(s.skip(n1 + n2)) {
                    Ok((token, n3)) => Ok(((sid, key, token), n1 + n2 + n3)),
                    Err(e) => Err(e),
                },
                Err(e) => Err(e),
            },
            Err(e) => Err(e),
        }
    }

    fn read<R: PacketRead>(read: &mut R) -> (r: Result<Self, PacketReadableError>) {
        proof {
            read.wf_bounds();
        }
        let ghost rem = remaining_of(*read);
        let ghost p0 = read.pos();
        let server_id = match read_string_with_limit(read, STRING_LIMIT) {
            Ok(v) => v,
            Err(e) => {
                return Err(e);
            },
        };
        proof {
            assert(remaining_of(*read) =~= rem.skip(read.pos() - p0));
        }
        let public_key = match <ByteSliceVarInt as PacketVariantReadable<Vec<u8>>>::read_variant(
            read,
        ) {
            Ok(v) => v,
            Err(e) => {
                return Err(e);
            },
        };
        proof {
            assert(remaining_of(*read) =~= rem.skip(read.pos() - p0));
        }
        let verify_token = match <ByteSliceVarInt as PacketVariantReadable<Vec<u8>>>::read_variant(
            read,
        ) {
            Ok(v) => v,
            Err(e) => {
                return Err(e);
            },
        };
        Ok(LoginEncryptionRequest { server_id, public_key, verify_token })
    }
}

impl PacketWritable for LoginEncryptionRequest {
    open spec fn enc(&self) -> Seq<u8> {
        string_enc(encode_utf8(self.server_id@)) + ByteSliceVarInt::enc_variant(&self.public_key)
            + ByteSliceVarInt::enc_variant(&self.verify_token)
    }

    open spec fn encodable(&self) -> bool {
        &&& self.server_id.encodable()
        &&& ByteSliceVarInt::encodable_variant(&self.public_key)
        &&& ByteSliceVarInt::encodable_variant(&self.verify_token)
    }

    fn write<W: PacketWrite>(&self, write: &mut W) -> (r: Result<(), PacketWritableError>) {
        let ghost c0 = write.contents();
        let rs = write_str_with_limit(self.server_id.as_str(), write);
        match rs {
            Ok(()) => (),
            Err(e) => {
                return Err(e);
            },
        }
        let rk = <ByteSliceVarInt as PacketVariantWritable<Vec<u8>>>::write_variant(
            &self.public_key,
            write,
        );
        match rk {
            Ok(()) => (),
            Err(e) => {
                return Err(e);
            },
        }
        let rt = <ByteSliceVarInt as PacketVariantWritable<Vec<u8>>>::write_variant(
            &self.verify_token,
            write,
        );
        match rt {
            Ok(()) => (),
            Err(e) => {
                return Err(e);
            },
        }
        proof {
            assert(write.contents() =~= c0 + self.enc());
        }
        Ok(())
    }
}

impl Packet for LoginEncryptionRequest {
    open spec fn spec_id() -> int {
        1
    }

    open spec fn spec_side() -> PacketSide {
        PacketSide::Client
    }

    open spec fn spec_state() -> PacketState {
        PacketState::Login
    }

    open spec fn spec_protocol() -> int {
        0
    }

    fn id() -> (r: i32) {
        1
    }

    fn side() -> (r: PacketSide) {
        PacketSide::Client
    }

    fn state() -> (r: PacketState) {
        PacketState::Login
    }

    fn protocol() -> (r: i32) {
        0
    }
}

impl RoundTrip for LoginEncryptionRequest {
    proof fn round_trip(&self, tail: Seq<u8>) {
        broadcast use vstd::utf8::encode_utf8_valid_utf8, vstd::utf8::encode_utf8_decode_utf8;

        let e1 = string_enc(encode_utf8(self.server_id@));
        let e2 = ByteSliceVarInt::enc_variant(&self.public_key);
        let e3 = ByteSliceVarInt::enc_variant(&self.verify_token);
        let s = self.enc() + tail;
        crate::strings::lemma_string_round(
            encode_utf8(self.server_id@),
            STRING_LIMIT as int,
            e2 + (e3 + tail),
        );
        assert(s =~= e1 + (e2 + (e3 + tail)));
        let n1 = e1.len() as int;
        assert(s.skip(n1) =~= e2 + (e3 + tail));
        <ByteSliceVarInt as crate::packet::VariantRoundTrip<Vec<u8>>>::round_trip_variant(
            &self.public_key,
            e3 + tail,
        );
        let n2 = e2.len() as int;
        assert(s.skip(n1).skip(n2) =~= e3 + tail);
        assert(s.skip(n1 + n2) =~= e3 + tail);
        <ByteSliceVarInt as crate::packet::VariantRoundTrip<Vec<u8>>>::round_trip_variant(
            &self.verify_token,
            tail,
        );
    }
}

/// A reply on a plugin channel: the message it answers, whether the channel
/// was understood, and the channel's own data, running to the frame's end.
#[derive(Debug, Clone, PartialEq, Eq)]
pub struct LoginPluginResponse {
    pub message_id: i32,
    pub successful: bool,
    pub data: Vec<u8>,
}

impl DeepView for LoginPluginResponse {
    type V = (i32, bool, Seq<u8>);

    open spec fn deep_view(&self) -> (i32, bool, Seq<u8>) {
        (self.message_id, self.successful, self.data.deep_view())
    }
}

impl PacketReadable for LoginPluginResponse {
    open spec fn dec(s: Seq<u8>) -> Result<((i32, bool, Seq<u8>), int), PacketReadableError> {
        match var_int_dec(s) {
            Ok((mid, n1)) => match bool::dec(s.skip(n1)) {
                Ok((ok, n2)) => match RemainingBytesSlice::dec_variant(s.skip(n1 + n2)) {
                    Ok((data, n3)) => Ok(((mid, ok, data), n1 + n2 + n3)),
                    Err(e) => Err(e),
                },
                Err(e) => Err(e),
            },
            Err(e) => Err(e),
        }
    }

    fn read<R: PacketRead>(read: &mut R) -> (r: Result<Self, PacketReadableError>) {
        proof {
            read.wf_bounds();
        }
        let ghost rem = remaining_of(*read);
        let ghost p0 = read.pos();
        let message_id = match <VarInt as PacketVariantReadable<i32>>::read_variant(read) {
            Ok(v) => v,
            Err(e) => {
                return Err(e);
            },
        };
        proof {
            assert(remaining_of(*read) =~= rem.skip(read.pos() - p0));
        }
        let successful = match bool::read(read) {
            Ok(v) => v,
            Err(e) => {
                return Err(e);
            },
        };
        proof {
            assert(remaining_of(*read) =~= rem.skip(read.pos() - p0));
        }
        let data = match <RemainingBytesSlice as PacketVariantReadable<Vec<u8>>>::read_variant(
            read,
        ) {
            Ok(v) => v,
            Err(e) => {
                return Err(e);
            },
        };
        Ok(LoginPluginResponse { message_id, successful, data })
    }
}

impl PacketWritable for LoginPluginResponse {
    open spec fn enc(&self) -> Seq<u8> {
        var_enc((self.message_id as u32) as nat) + self.successful.enc() + self.data@
    }

    open spec fn encodable(&self) -> bool {
        true
    }

    fn write<W: PacketWrite>(&self, write: &mut W) -> (r: Result<(), PacketWritableError>) {
        let ghost c0 = write.contents();
        let rm = <VarInt as PacketVariantWritable<i32>>::write_variant(&self.message_id, write);
        match rm {
            Ok(()) => (),
            Err(e) => {
                proof {
                    assert(false);
                }
                return Err(e);
            },
        }
        let rb = self.successful.write(write);
        match rb {
            Ok(()) => (),
            Err(e) => {
                proof {
                    assert(false);
                }
                return Err(e);
            },
        }
        let rd = write.write_bytes(self.data.as_slice());
        match rd {
            Ok(()) => (),
            Err(e) => {
                proof {
                    assert(false);
                }
                return Err(e);
            },
        }
        proof {
            assert(write.contents() =~= c0 + self.enc());
        }
        Ok(())
    }
}

impl Packet for LoginPluginResponse {
    open spec fn spec_id() -> int {
        2
    }

    open spec fn spec_side() -> PacketSide {
        PacketSide::Server
    }

    open spec fn spec_state() -> PacketState {
        PacketState::Login
    }

    open spec fn spec_protocol() -> int {
        0
    }

    fn id() -> (r: i32) {
        2
    }

    fn side() -> (r: PacketSide) {
        PacketSide::Server
    }

    fn state() -> (r: PacketState) {
        PacketState::Login
    }

    fn protocol() -> (r: i32) {
        0
    }
}

/// Round trip of a plugin reply within its own frame.  Its data field runs to
/// the frame's end, so the law holds of the frame-bounded bytes alone: with
/// anything after them, the tail would be read as more data.
pub proof fn lemma_login_plugin_response_round(p: &LoginPluginResponse)
    ensures
        LoginPluginResponse::dec(p.enc()) == Ok::<_, PacketReadableError>(
            (p.deep_view(), p.enc().len() as int),
        ),
{
    let e1 = var_enc((p.message_id as u32) as nat);
    let e2 = p.successful.enc();
    let s = p.enc();
    <VarInt as crate::packet::VariantRoundTrip<i32>>::round_trip_variant(
        &p.message_id,
        e2 + p.data@,
    );
    assert(s =~= e1 + (e2 + p.data@));
    let n1 = e1.len() as int;
    assert(s.skip(n1) =~= e2 + p.data@);
    p.successful.round_trip(p.data@);
    let n2 = e2.len() as int;
    assert(s.skip(n1).skip(n2) =~= p.data@);
    assert(s.skip(n1 + n2) =~= p.data@);
    assert(p.data.deep_view() =~= p.data@);
}

} // verus!
