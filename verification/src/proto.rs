//! The messages of protocol version 1 and its constants.
use vstd::prelude::*;

verus! {

/// Beyond this distance (m) nothing is audible.
pub const AUDIBLE_M: u16 = 60;

/// Up to this distance (m) a voice is subscribed to.
pub const SUBSCRIBE_M: u16 = 75;

/// Pushes of the audibility graph per second, on change only.
pub const GRAPH_HZ: u32 = 2;

/// Pushes of the listeners' orientation per second.
pub const YAW_HZ: u32 = 20;

/// Forwarding slots per listener.
pub const SLOTS: usize = 16;

/// Seconds between two roster pushes.
pub const ROSTER_INTERVAL_S: u64 = 2;

/// Seconds for which a roster stays in force.
pub const ROSTER_TTL_S: u64 = 10;

/// Step (m) of a distance.
pub const DIST_QUANT_M: u16 = 1;

/// Step (degrees) of a bearing.
pub const BEARING_QUANT_DEG: u16 = 5;

/// How far (s) the clock of a signed push may be off.
pub const HMAC_SKEW_S: i64 = 30;

/// Seconds that a lost connection is waited for.
pub const DISCONNECT_GRACE_S: u64 = 60;

/// A SteamID64 in decimal.
pub type SteamId = String;

/// The name of a game server.
pub type ServerId = String;

/// A JSON value, carried through and never looked into.
#[verifier::external_type_specification]
#[verifier::external_body]
pub struct ExJsonValue(serde_json::Value);

/// Who may connect, in full. From the plugin.
#[derive(Debug, Clone)]
pub struct RosterPush {
    pub server_id: ServerId,
    pub seq: u64,
    pub ts: i64,
    pub eligible: Vec<SteamId>,
}

/// The audibility graph. From the plugin. No absolute coordinate is in it.
#[derive(Debug, Clone)]
pub struct GraphPush {
    pub server_id: ServerId,
    pub seq: u64,
    pub ts: i64,
    pub listeners: Vec<Listener>,
}

/// What one listener hears.
#[derive(Debug, Clone)]
pub struct Listener {
    pub id: SteamId,
    pub hears: Vec<Heard>,
}

/// The orientation of the listeners, apart from the graph and more often.
#[derive(Debug, Clone)]
pub struct YawPush {
    pub server_id: ServerId,
    pub seq: u64,
    pub ts: i64,
    /// Who, and the degrees from 0 to 355.
    pub yaws: Vec<(SteamId, u16)>,
}

/// One voice as a listener hears it.
#[derive(Debug, Clone)]
pub struct Heard {
    pub id: SteamId,
    /// Distance in metres, in steps of `DIST_QUANT_M`.
    pub d: u16,
    /// Bearing in the world's frame, in degrees, in steps of `BEARING_QUANT_DEG`.
    pub b: u16,
    /// Whether to subscribe (`d <= SUBSCRIBE_M`).
    pub sub: bool,
}

/// A push-to-talk key went down or up. From the plugin.
#[derive(Debug, Clone)]
pub struct TalkPush {
    pub server_id: ServerId,
    pub seq: u64,
    pub ts: i64,
    pub id: SteamId,
    pub talking: bool,
}

/// From the browser.
#[derive(Debug)]
pub enum ClientMsg {
    Hello { v: u32 },
    SdpOffer { sdp: String },
    Ice { candidate: serde_json::Value },
}

/// To the browser.
#[derive(Debug)]
pub enum ServerMsg {
    Ready { steam_id: SteamId, server_id: ServerId },
    SdpAnswer { sdp: String },
    Ice { candidate: serde_json::Value },
    /// A slot is given to `id`, or, with `None`, freed.
    Peer { mid: String, id: Option<SteamId> },
    Graph { hears: Vec<Heard> },
    /// The listener's own orientation.
    Yaw { deg: u16 },
    /// The player's own push-to-talk key.
    Talk { on: bool },
    Bye { reason: ByeReason },
}

/// Why a session is ended.
#[derive(Debug, Clone, Copy, PartialEq, Eq, Structural)]
pub enum ByeReason {
    DuplicateSession,
    NotEligible,
    ServerShutdown,
}

/// What a `Heard` holds.
#[verifier::ext_equal]
pub struct HeardView {
    pub id: Seq<char>,
    pub d: u16,
    pub b: u16,
    pub sub: bool,
}

impl DeepView for Heard {
    type V = HeardView;

    open spec fn deep_view(&self) -> HeardView {
        HeardView { id: self.id@, d: self.d, b: self.b, sub: self.sub }
    }
}

/// What a `Listener` holds.
#[verifier::ext_equal]
pub struct ListenerView {
    pub id: Seq<char>,
    pub hears: Seq<HeardView>,
}

impl DeepView for Listener {
    type V = ListenerView;

    open spec fn deep_view(&self) -> ListenerView {
        ListenerView { id: self.id@, hears: self.hears.deep_view() }
    }
}

/// What a `ServerMsg` holds.
#[verifier::ext_equal]
pub enum ServerMsgView {
    Ready { steam_id: Seq<char>, server_id: Seq<char> },
    SdpAnswer { sdp: Seq<char> },
    Ice { candidate: serde_json::Value },
    Peer { mid: Seq<char>, id: Option<Seq<char>> },
    Graph { hears: Seq<HeardView> },
    Yaw { deg: u16 },
    Talk { on: bool },
    Bye { reason: ByeReason },
}

impl DeepView for ServerMsg {
    type V = ServerMsgView;

    open spec fn deep_view(&self) -> ServerMsgView {
        match self {
            ServerMsg::Ready { steam_id, server_id } => ServerMsgView::Ready {
                steam_id: steam_id@,
                server_id: server_id@,
            },
            ServerMsg::SdpAnswer { sdp } => ServerMsgView::SdpAnswer { sdp: sdp@ },
            ServerMsg::Ice { candidate } => ServerMsgView::Ice { candidate: *candidate },
            ServerMsg::Peer { mid, id } => ServerMsgView::Peer { mid: mid@, id: id.deep_view() },
            ServerMsg::Graph { hears } => ServerMsgView::Graph { hears: hears.deep_view() },
            ServerMsg::Yaw { deg } => ServerMsgView::Yaw { deg: *deg },
            ServerMsg::Talk { on } => ServerMsgView::Talk { on: *on },
            ServerMsg::Bye { reason } => ServerMsgView::Bye { reason: *reason },
        }
    }
}

impl Heard {
    /// A copy.
    pub fn copy(&self) -> (r: Heard)
        ensures
            r == *self,
    {
        Heard { id: self.id.clone(), d: self.d, b: self.b, sub: self.sub }
    }
}

/// A copy of what a listener hears.
pub fn copy_hears(hears: &Vec<Heard>) -> (r: Vec<Heard>)
    ensures
        r.deep_view() == hears.deep_view(),
{
    let mut out: Vec<Heard> = Vec::new();
    let mut i: usize = 0;
    while i < hears.len()
        invariant
            i <= hears@.len(),
            out@ == hears@.take(i as int),
        decreases hears@.len() - i,
    {
        out.push(hears[i].copy());
        i = i + 1;
        assert(hears@.take(i as int) =~= hears@.take(i - 1).push(hears@[i - 1]));
    }
    assert(hears@.take(i as int) =~= hears@);
    out
}

/// Two voices or two messages that differ anywhere are shown as different:
/// nothing of what a browser is told is left out of what the contracts say.
pub proof fn messages_are_shown_whole(a: ServerMsg, b: ServerMsg, k: int)
    requires
        a.deep_view() == b.deep_view(),
    ensures
        match (a, b) {
            (
                ServerMsg::Ready { steam_id: s, server_id: t },
                ServerMsg::Ready { steam_id: u, server_id: v },
            ) => s@ == u@ && t@ == v@,
            (ServerMsg::SdpAnswer { sdp: s }, ServerMsg::SdpAnswer { sdp: t }) => s@ == t@,
            (ServerMsg::Ice { candidate: s }, ServerMsg::Ice { candidate: t }) => s == t,
            (ServerMsg::Peer { mid: s, id: t }, ServerMsg::Peer { mid: u, id: v }) => {
                &&& s@ == u@
                &&& t is None <==> v is None
                &&& t matches Some(x) ==> (v matches Some(y) && x@ == y@)
            },
            (ServerMsg::Graph { hears: s }, ServerMsg::Graph { hears: t }) => {
                &&& s@.len() == t@.len()
                &&& 0 <= k < s@.len() ==> {
                    &&& s@[k].id@ == t@[k].id@
                    &&& s@[k].d == t@[k].d
                    &&& s@[k].b == t@[k].b
                    &&& s@[k].sub == t@[k].sub
                }
            },
            (ServerMsg::Yaw { deg: s }, ServerMsg::Yaw { deg: t }) => s == t,
            (ServerMsg::Talk { on: s }, ServerMsg::Talk { on: t }) => s == t,
            (ServerMsg::Bye { reason: s }, ServerMsg::Bye { reason: t }) => s == t,
            (_, _) => false,
        },
{
    if let (ServerMsg::Graph { hears: s }, ServerMsg::Graph { hears: t }) = (a, b) {
        assert(s.deep_view() == t.deep_view());
        assert(s.deep_view().len() == s@.len() && t.deep_view().len() == t@.len());
        if 0 <= k < s@.len() {
            assert(s.deep_view()[k] == s@[k].deep_view());
            assert(t.deep_view()[k] == t@[k].deep_view());
        }
    }
}

/// Two listeners that differ anywhere are shown as different.
pub proof fn listeners_are_shown_whole(a: Listener, b: Listener, k: int)
    requires
        a.deep_view() == b.deep_view(),
    ensures
        a.id@ == b.id@,
        a.hears@.len() == b.hears@.len(),
        0 <= k < a.hears@.len() ==> {
            &&& a.hears@[k].id@ == b.hears@[k].id@
            &&& a.hears@[k].d == b.hears@[k].d
            &&& a.hears@[k].b == b.hears@[k].b
            &&& a.hears@[k].sub == b.hears@[k].sub
        },
{
    assert(a.hears.deep_view().len() == a.hears@.len() && b.hears.deep_view().len() == b.hears@.len());
    if 0 <= k < a.hears@.len() {
        assert(a.hears.deep_view()[k] == a.hears@[k].deep_view());
        assert(b.hears.deep_view()[k] == b.hears@[k].deep_view());
    }
}

/// The numbers on which game servers, relay and browsers agree.
pub proof fn the_numbers_of_the_protocol()
    ensures
        AUDIBLE_M == 60,
        SUBSCRIBE_M == 75,
        GRAPH_HZ == 2,
        YAW_HZ == 20,
        SLOTS == 16,
        ROSTER_INTERVAL_S == 2,
        ROSTER_TTL_S == 10,
        DIST_QUANT_M == 1,
        BEARING_QUANT_DEG == 5,
        HMAC_SKEW_S == 30,
        DISCONNECT_GRACE_S == 60,
        AUDIBLE_M < SUBSCRIBE_M,
        ROSTER_INTERVAL_S < ROSTER_TTL_S,
{
}

} // verus!
