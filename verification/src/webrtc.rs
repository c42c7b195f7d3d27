//! The browser peer connection's states and settings, as the engine sees them.

use vstd::prelude::*;
use crate::transfer::PcState;

verus! {

/// The engine state for a browser `RTCPeerConnectionState` string: a disconnected connection
/// counts as failed, and an unknown state as still connecting.
pub fn pc_state(value: &str) -> (r: PcState)
    ensures
        value@ == "new"@ ==> r == PcState::New,
        value@ == "connecting"@ ==> r == PcState::Connecting,
        value@ == "connected"@ ==> r == PcState::Connected,
        value@ == "failed"@ ==> r == PcState::Failed,
        value@ == "disconnected"@ ==> r == PcState::Failed,
        value@ == "closed"@ ==> r == PcState::Closed,
        !(value@ == "new"@ || value@ == "connecting"@ || value@ == "connected"@ || value@
            == "failed"@ || value@ == "disconnected"@ || value@ == "closed"@) ==> r
            == PcState::Connecting,
{
    proof {
        reveal_strlit("new");
        reveal_strlit("connecting");
        reveal_strlit("connected");
        reveal_strlit("failed");
        reveal_strlit("disconnected");
        reveal_strlit("closed");
        assert("new"@.len() == 3 && "connecting"@.len() == 10 && "connected"@.len() == 9);
        assert("new"@ != "connecting"@);
        assert("new"@ != "connected"@);
        assert("connecting"@ != "connected"@);
        assert("new"@ != "failed"@ && "connecting"@ != "failed"@ && "connected"@ != "failed"@);
        assert("new"@ != "disconnected"@ && "connecting"@ != "disconnected"@ && "connected"@
            != "disconnected"@);
        assert("failed"@[0] != "closed"@[0]);
        assert("new"@ != "closed"@ && "connecting"@ != "closed"@ && "connected"@ != "closed"@
            && "failed"@ != "closed"@ && "disconnected"@ != "closed"@);
    }
    let v = value.to_owned();
    if v == "new".to_owned() {
        PcState::New
    } else if v == "connecting".to_owned() {
        PcState::Connecting
    } else if v == "connected".to_owned() {
        PcState::Connected
    } else if v == "failed".to_owned() || v == "disconnected".to_owned() {
        PcState::Failed
    } else if v == "closed".to_owned() {
        PcState::Closed
    } else {
        PcState::Connecting
    }
}

/// The factory of browser data channels, with the STUN servers it hands each connection.
#[derive(Clone, Debug)]
pub struct WebRtcFactory {
    pub ice_servers: Vec<String>,
}

impl WebRtcFactory {
    /// The public STUN servers of Cloudflare and Google.
    pub fn new() -> (r: WebRtcFactory)
        ensures
            r.ice_servers@.len() == 2,
            r.ice_servers@[0]@ == "stun:stun.cloudflare.com:3478"@,
            r.ice_servers@[1]@ == "stun:stun.l.google.com:19302"@,
    {
        let mut servers: Vec<String> = Vec::new();
        servers.push("stun:stun.cloudflare.com:3478".to_owned());
        servers.push("stun:stun.l.google.com:19302".to_owned());
        WebRtcFactory { ice_servers: servers }
    }
}

} // verus!
