//! Application messages exchanged between the host and the gateway module,
//! and the error taxonomy of the link.
//!
//! Each host request has exactly one acceptable response variant; a
//! syntactically valid but unexpected variant is a protocol anomaly
//! (`InvalidResponse`), not a parse failure.
use vstd::prelude::*;

verus! {

/// Errors of the link and of the protocol layer above it.
#[derive(Clone, Copy, Debug, PartialEq, Eq, Structural)]
pub enum GatewayError {
    /// No complete frame arrived before the timeout elapsed.
    ReadTimeout,
    /// Encoding or decoding would need more than the maximum frame size.
    Overflow,
    /// A payload did not serialize or deserialize as an application message.
    SerDe,
    /// A well-formed but semantically unexpected response.
    InvalidResponse,
}

/// Parameters announcing one firmware image to the module.
#[derive(Clone, Debug, PartialEq, Eq)]
pub struct OtaInitRequest {
    pub destination_address: usize,
    pub binary_size: u32,
    pub binary_sha256: [u8; 32],
    pub block_size: u16,
    pub block_count: u16,
}

/// One block of the image, addressed by its zero-based index.
#[derive(Clone, Debug, PartialEq, Eq)]
pub struct OtaData {
    pub index: u16,
    pub data: Vec<u8>,
}

/// Acknowledgment state reported by the module.
#[derive(Clone, Debug, PartialEq, Eq)]
pub struct OtaStatus {
    pub in_progress: bool,
    pub last_acked: u16,
    pub not_acked: Vec<u16>,
}

/// A request sent by the host.
#[derive(Clone, Debug, PartialEq, Eq)]
pub enum HostPacket {
    PingRequest,
    OtaGetStatus,
    OtaAbortRequest,
    OtaInit(OtaInitRequest),
    OtaData(OtaData),
    OtaDoneRequest,
    SoilSensorRequest(usize),
}

/// A response sent by the gateway module.
#[derive(Clone, Debug, PartialEq, Eq)]
pub enum GatewayPacket {
    PingResponse,
    OtaStatus(OtaStatus),
    OtaInitAck,
    OtaAbortAck,
    OtaDoneAck,
    SoilSensorMoisture([u16; 4]),
}

/// Verdict of the pre-session status query.
#[derive(Clone, Copy, Debug, PartialEq, Eq, Structural)]
pub enum QueryVerdict {
    /// A previous session is still in progress on the module: abort it first.
    AbortFirst,
    /// No session in progress: initialization may start.
    ReadyToStart,
    /// Any response other than a status report: fatal for the run.
    Unexpected,
}

/// Decides the first handshake step from the response to the status query.
pub fn classify_status_response(p: &GatewayPacket) -> (v: QueryVerdict)
    ensures
        v == QueryVerdict::AbortFirst <==> (p matches GatewayPacket::OtaStatus(s)
            && s.in_progress),
        v == QueryVerdict::ReadyToStart <==> (p matches GatewayPacket::OtaStatus(s)
            && !s.in_progress),
        v == QueryVerdict::Unexpected <==> !(p is OtaStatus),
{
    match p {
        GatewayPacket::OtaStatus(s) => {
            if s.in_progress {
                QueryVerdict::AbortFirst
            } else {
                QueryVerdict::ReadyToStart
            }
        },
        _ => QueryVerdict::Unexpected,
    }
}

/// The one acceptable response to a ping request.
pub fn is_ping_response(p: &GatewayPacket) -> (r: bool)
    ensures
        r <==> p is PingResponse,
{
    matches!(p, GatewayPacket::PingResponse)
}

/// The one acceptable response to an abort request.
pub fn is_abort_ack(p: &GatewayPacket) -> (r: bool)
    ensures
        r <==> p is OtaAbortAck,
{
    matches!(p, GatewayPacket::OtaAbortAck)
}

/// The one acceptable response to an init request.
pub fn is_init_ack(p: &GatewayPacket) -> (r: bool)
    ensures
        r <==> p is OtaInitAck,
{
    matches!(p, GatewayPacket::OtaInitAck)
}

} // verus!
