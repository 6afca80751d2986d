//! The Hue bridge: discovery, pairing, lights and entertainment configurations, as far as they are
//! decided on plain values.
use vstd::prelude::*;
use vstd::string::*;

use crate::core_types::same_text;
use crate::double::Double;
use crate::json::{
    float_or_zero, is_true, pointed, read_float, read_signed, read_text, read_truth, read_unsigned,
    signed_or_zero, text_or, unsigned_or_zero, Json,
};
use crate::text::{concat, joined, labelled};

verus! {

#[derive(Debug)]
pub enum HueError {
    Http(String),
    Mdns(String),
    Bridge(String),
    LinkButtonNotPressed,
    Unexpected(String),
}

/// The error with its text as characters.
pub enum HueErrorModel {
    Http(Seq<char>),
    Mdns(Seq<char>),
    Bridge(Seq<char>),
    LinkButtonNotPressed,
    Unexpected(Seq<char>),
}

impl View for HueError {
    type V = HueErrorModel;

    open spec fn view(&self) -> HueErrorModel {
        match self {
            HueError::Http(s) => HueErrorModel::Http(s@),
            HueError::Mdns(s) => HueErrorModel::Mdns(s@),
            HueError::Bridge(s) => HueErrorModel::Bridge(s@),
            HueError::LinkButtonNotPressed => HueErrorModel::LinkButtonNotPressed,
            HueError::Unexpected(s) => HueErrorModel::Unexpected(s@),
        }
    }
}

impl HueError {
    /// The error in words.
    pub open spec fn description(self) -> Seq<char> {
        match self {
            HueError::Http(s) => "http error: "@ + s@,
            HueError::Mdns(s) => "mdns error: "@ + s@,
            HueError::Bridge(s) => "bridge error: "@ + s@,
            HueError::LinkButtonNotPressed => "link button not pressed"@,
            HueError::Unexpected(s) => "unexpected response: "@ + s@,
        }
    }

    pub fn to_text(&self) -> (s: String)
        ensures
            s@ == self.description(),
    {
        match self {
            HueError::Http(e) => labelled("http error: ", e.as_str()),
            HueError::Mdns(e) => labelled("mdns error: ", e.as_str()),
            HueError::Bridge(e) => labelled("bridge error: ", e.as_str()),
            HueError::LinkButtonNotPressed => "link button not pressed".to_owned(),
            HueError::Unexpected(e) => labelled("unexpected response: ", e.as_str()),
        }
    }
}

#[derive(Debug)]
pub struct DiscoveredBridge {
    pub ip: String,
    pub name: String,
    /// The bridge's identifier, if it announces one.
    pub bridge_id: Option<String>,
}

/// What is known of a bridge that announced itself.
pub struct DiscoveredModel {
    pub ip: Seq<char>,
    pub name: Seq<char>,
    pub bridge_id: Option<Seq<char>>,
}

impl View for DiscoveredBridge {
    type V = DiscoveredModel;

    open spec fn view(&self) -> DiscoveredModel {
        DiscoveredModel {
            ip: self.ip@,
            name: self.name@,
            bridge_id: match self.bridge_id {
                Some(s) => Some(s@),
                None => None,
            },
        }
    }
}

/// The list of bridges after one more address was announced: addresses with a colon, of IP
/// version 6, and addresses that are in the list already are left out.
pub open spec fn after_announcement(found: Seq<DiscoveredModel>, b: DiscoveredModel) -> Seq<
    DiscoveredModel,
> {
    if b.ip.contains(':') || exists|i: int| 0 <= i < found.len() && (#[trigger] found[i]).ip == b.ip {
        found
    } else {
        found.push(b)
    }
}

fn has_colon(s: &str) -> (r: bool)
    ensures
        r == s@.contains(':'),
{
    let n: usize = s.unicode_len();
    let mut i: usize = 0;
    while i < n
        invariant
            i <= n == s@.len(),
            forall|j: int| 0 <= j < i ==> s@[j] != ':',
        decreases n - i,
    {
        if s.get_char(i) == ':' {
            assert(s@[i as int] == ':');
            return true;
        }
        i = i + 1;
    }
    false
}

/// Takes an announced address into a list of bridges.
pub fn announce(found: &mut Vec<DiscoveredBridge>, bridge: DiscoveredBridge)
    ensures
        final(found)@.map_values(|b: DiscoveredBridge| b@) == after_announcement(
            old(found)@.map_values(|b: DiscoveredBridge| b@),
            bridge@,
        ),
{
    let ghost model = found@.map_values(|b: DiscoveredBridge| b@);
    if has_colon(bridge.ip.as_str()) {
        return;
    }
    let mut i: usize = 0;
    while i < found.len()
        invariant
            i <= found@.len(),
            found@ == old(found)@,
            model == found@.map_values(|b: DiscoveredBridge| b@),
            forall|j: int| 0 <= j < i ==> (#[trigger] model[j]).ip != bridge@.ip,
        decreases found@.len() - i,
    {
        if same_text(found[i].ip.as_str(), bridge.ip.as_str()) {
            assert(model[i as int].ip == bridge@.ip);
            return;
        }
        i = i + 1;
    }
    found.push(bridge);
    assert(found@.map_values(|b: DiscoveredBridge| b@) =~= model.push(bridge@));
}

#[derive(Debug)]
pub struct PairedBridge {
    pub ip: String,
    /// Sent with every request.
    pub app_key: String,
    /// The key of the entertainment stream, 32 hexadecimal digits.
    pub client_key: String,
}

pub struct PairedModel {
    pub ip: Seq<char>,
    pub app_key: Seq<char>,
    pub client_key: Seq<char>,
}

impl View for PairedBridge {
    type V = PairedModel;

    open spec fn view(&self) -> PairedModel {
        PairedModel { ip: self.ip@, app_key: self.app_key@, client_key: self.client_key@ }
    }
}

impl Clone for PairedBridge {
    fn clone(&self) -> (r: PairedBridge)
        ensures
            r@ == self@,
    {
        PairedBridge {
            ip: self.ip.clone(),
            app_key: self.app_key.clone(),
            client_key: self.client_key.clone(),
        }
    }
}

/// What a bridge's reply to a pairing request means.
pub open spec fn pairing(ip: Seq<char>, reply: Json) -> Result<PairedModel, HueErrorModel> {
    if reply.items().len() == 0 {
        Err(HueErrorModel::Unexpected(reply.text@))
    } else {
        let first = reply.items()[0];
        match first.member("error"@) {
            Some(e) => if signed_or_zero(e.member("type"@)) == 101 {
                Err(HueErrorModel::LinkButtonNotPressed)
            } else {
                Err(HueErrorModel::Bridge(e.text@))
            },
            None => match first.member("success"@) {
                None => Err(HueErrorModel::Unexpected(reply.text@)),
                Some(s) => match (string_of(s.member("username"@)), string_of(s.member("clientkey"@))) {
                    (None, _) => Err(HueErrorModel::Unexpected("missing username"@)),
                    (_, None) => Err(HueErrorModel::Unexpected("missing clientkey"@)),
                    (Some(u), Some(k)) => Ok(PairedModel { ip, app_key: u, client_key: k }),
                },
            },
        }
    }
}

pub open spec fn string_of(j: Option<Json>) -> Option<Seq<char>> {
    match j {
        Some(v) => v.string(),
        None => None,
    }
}

/// What a result holds, seen through its view.
pub open spec fn paired_view(r: Result<PairedBridge, HueError>) -> Result<
    PairedModel,
    HueErrorModel,
> {
    match r {
        Ok(b) => Ok(b@),
        Err(e) => Err(e@),
    }
}

fn text_of<'a>(j: Option<&'a Json>) -> (r: Option<&'a str>)
    ensures
        r is Some == string_of(pointed(j)) is Some,
        r matches Some(s) ==> Some(s@) == string_of(pointed(j)),
{
    match j {
        Some(v) => v.as_text(),
        None => None,
    }
}

/// Reads a bridge's reply to one pairing attempt; until the button on the bridge is pressed it is
/// an error of its own.
pub fn read_pairing(ip: &str, reply: &Json) -> (r: Result<PairedBridge, HueError>)
    ensures
        paired_view(r) == pairing(ip@, *reply),
{
    let first: &Json = match reply.as_list() {
        Some(v) => {
            if v.len() == 0 {
                return Err(HueError::Unexpected(reply.text.clone()));
            }
            &v[0]
        },
        None => {
            return Err(HueError::Unexpected(reply.text.clone()));
        },
    };
    if let Some(e) = first.get("error") {
        let code: i64 = read_signed(e.get("type"));
        if code == 101 {
            return Err(HueError::LinkButtonNotPressed);
        }
        return Err(HueError::Bridge(e.text.clone()));
    }
    let success: &Json = match first.get("success") {
        Some(s) => s,
        None => {
            return Err(HueError::Unexpected(reply.text.clone()));
        },
    };
    let app_key: String = match text_of(success.get("username")) {
        Some(s) => s.to_owned(),
        None => {
            return Err(HueError::Unexpected("missing username".to_owned()));
        },
    };
    let client_key: String = match text_of(success.get("clientkey")) {
        Some(s) => s.to_owned(),
        None => {
            return Err(HueError::Unexpected("missing clientkey".to_owned()));
        },
    };
    Ok(PairedBridge { ip: ip.to_owned(), app_key, client_key })
}

#[derive(Debug)]
pub struct LightInfo {
    pub id: String,
    pub name: String,
    pub on: bool,
}

pub struct LightModel {
    pub id: Seq<char>,
    pub name: Seq<char>,
    pub on: bool,
}

impl View for LightInfo {
    type V = LightModel;

    open spec fn view(&self) -> LightModel {
        LightModel { id: self.id@, name: self.name@, on: self.on }
    }
}

/// The items of the list under `data`; none where there is no such list.
pub open spec fn data_of(body: Json) -> Seq<Json> {
    match body.member("data"@) {
        Some(d) => d.items(),
        None => Seq::empty(),
    }
}

pub open spec fn light_of(item: Json) -> LightModel {
    LightModel {
        id: text_or(item.member("id"@), ""@),
        name: text_or(item.member_of("metadata"@, "name"@), "light"@),
        on: is_true(item.member_of("on"@, "on"@)),
    }
}

/// The lights that a reply lists.
pub fn read_lights(body: &Json) -> (out: Vec<LightInfo>)
    ensures
        out@.map_values(|l: LightInfo| l@) == data_of(*body).map_values(|j: Json| light_of(j)),
{
    let mut out: Vec<LightInfo> = Vec::new();
    if let Some(data) = body.get("data") {
        if let Some(items) = data.as_list() {
            let mut i: usize = 0;
            while i < items.len()
                invariant
                    i <= items@.len(),
                    out@.len() == i,
                    forall|k: int| 0 <= k < i ==> (#[trigger] out@[k])@ == light_of(items@[k]),
                decreases items@.len() - i,
            {
                let item = &items[i];
                let light = LightInfo {
                    id: read_text(item.get("id"), ""),
                    name: read_text(item.get_in("metadata", "name"), "light"),
                    on: read_truth(item.get_in("on", "on")),
                };
                out.push(light);
                i = i + 1;
            }
        }
    }
    assert(out@.map_values(|l: LightInfo| l@) =~= data_of(*body).map_values(|j: Json| light_of(j)));
    out
}

/// A channel of an entertainment area with its position, from -1 to 1 on each axis.
#[derive(Debug, Clone, Copy)]
pub struct EntertainmentChannel {
    pub channel_id: u8,
    pub x: Double,
    pub y: Double,
    pub z: Double,
}

#[derive(Debug)]
pub struct EntertainmentConfig {
    pub id: String,
    pub name: String,
    pub channels: Vec<EntertainmentChannel>,
}

pub struct EntertainmentModel {
    pub id: Seq<char>,
    pub name: Seq<char>,
    pub channels: Seq<EntertainmentChannel>,
}

impl View for EntertainmentConfig {
    type V = EntertainmentModel;

    open spec fn view(&self) -> EntertainmentModel {
        EntertainmentModel { id: self.id@, name: self.name@, channels: self.channels@ }
    }
}

/// The channel that an item describes; of its number the low 8 bits count.
pub open spec fn channel_of(item: Json) -> EntertainmentChannel {
    EntertainmentChannel {
        channel_id: (unsigned_or_zero(item.member("channel_id"@)) % 256) as u8,
        x: float_or_zero(item.member_of("position"@, "x"@)),
        y: float_or_zero(item.member_of("position"@, "y"@)),
        z: float_or_zero(item.member_of("position"@, "z"@)),
    }
}

pub open spec fn channels_of(item: Json) -> Seq<EntertainmentChannel> {
    match item.member("channels"@) {
        Some(c) => c.items().map_values(|j: Json| channel_of(j)),
        None => Seq::empty(),
    }
}

pub open spec fn config_of(item: Json) -> EntertainmentModel {
    EntertainmentModel {
        id: text_or(item.member("id"@), ""@),
        name: text_or(item.member_of("metadata"@, "name"@), "area"@),
        channels: channels_of(item),
    }
}

fn read_channels(item: &Json) -> (channels: Vec<EntertainmentChannel>)
    ensures
        channels@ == channels_of(*item),
{
    let mut channels: Vec<EntertainmentChannel> = Vec::new();
    if let Some(list) = item.get("channels") {
        if let Some(items) = list.as_list() {
            let mut i: usize = 0;
            while i < items.len()
                invariant
                    i <= items@.len(),
                    channels@.len() == i,
                    forall|k: int| 0 <= k < i ==> #[trigger] channels@[k] == channel_of(items@[k]),
                decreases items@.len() - i,
            {
                let c = &items[i];
                let number: u64 = read_unsigned(c.get("channel_id"));
                channels.push(
                    EntertainmentChannel {
                        channel_id: (number % 256) as u8,
                        x: read_float(c.get_in("position", "x")),
                        y: read_float(c.get_in("position", "y")),
                        z: read_float(c.get_in("position", "z")),
                    },
                );
                i = i + 1;
            }
        }
    }
    assert(channels@ =~= channels_of(*item));
    channels
}

/// The entertainment configurations that a reply lists.
pub fn read_entertainment_configs(body: &Json) -> (out: Vec<EntertainmentConfig>)
    ensures
        out@.map_values(|c: EntertainmentConfig| c@) == data_of(*body).map_values(
            |j: Json| config_of(j),
        ),
{
    let mut out: Vec<EntertainmentConfig> = Vec::new();
    if let Some(data) = body.get("data") {
        if let Some(items) = data.as_list() {
            let mut i: usize = 0;
            while i < items.len()
                invariant
                    i <= items@.len(),
                    out@.len() == i,
                    forall|k: int| 0 <= k < i ==> (#[trigger] out@[k])@ == config_of(items@[k]),
                decreases items@.len() - i,
            {
                let item = &items[i];
                let config = EntertainmentConfig {
                    id: read_text(item.get("id"), ""),
                    name: read_text(item.get_in("metadata", "name"), "area"),
                    channels: read_channels(item),
                };
                out.push(config);
                i = i + 1;
            }
        }
    }
    assert(out@.map_values(|c: EntertainmentConfig| c@) =~= data_of(*body).map_values(
        |j: Json| config_of(j),
    ));
    out
}

/// The body of a reply, or an error with the status and the body where the status says failure.
pub fn check_status(success: bool, status: &str, body: Json) -> (r: Result<Json, HueError>)
    ensures
        r is Ok == success,
        r matches Ok(j) ==> j == body,
        r matches Err(e) ==> e@ == HueErrorModel::Bridge(
            joined(seq![status@, ": "@, body.text@]),
        ),
{
    if success {
        Ok(body)
    } else {
        let parts: Vec<&str> = vec![status, ": ", body.text.as_str()];
        let text = concat(&parts);
        assert(parts@.map_values(|p: &str| p@) =~= seq![status@, ": "@, body.text@]);
        Err(HueError::Bridge(text))
    }
}

/// The identity of the entertainment stream from the header of a reply. Some bridges do not send
/// it; the application key can stand in for it.
pub fn read_application_id(header: Option<String>, status: &str) -> (r: Result<String, HueError>)
    ensures
        r is Ok == header is Some,
        r matches Ok(s) ==> header == Some(s),
        r matches Err(e) ==> e@ == HueErrorModel::Unexpected(
            joined(
                seq![
                    "missing hue-application-id header (GET /auth/v2 -> "@,
                    status@,
                    ")"@,
                ],
            ),
        ),
{
    match header {
        Some(s) => Ok(s),
        None => {
            let parts: Vec<&str> = vec![
                "missing hue-application-id header (GET /auth/v2 -> ",
                status,
                ")",
            ];
            let text = concat(&parts);
            assert(parts@.map_values(|p: &str| p@) =~= seq![
                "missing hue-application-id header (GET /auth/v2 -> "@,
                status@,
                ")"@,
            ]);
            Err(HueError::Unexpected(text))
        },
    }
}

/// The address that a pairing request goes to.
pub fn pairing_url(ip: &str) -> (s: String)
    ensures
        s@ == joined(seq!["https://"@, ip@, "/api"@]),
{
    let parts: Vec<&str> = vec!["https://", ip, "/api"];
    let s = concat(&parts);
    assert(parts@.map_values(|p: &str| p@) =~= seq!["https://"@, ip@, "/api"@]);
    s
}

/// The resource of an entertainment configuration.
pub fn entertainment_resource(config_id: &str) -> (s: String)
    ensures
        s@ == joined(seq!["resource/entertainment_configuration/"@, config_id@]),
{
    let parts: Vec<&str> = vec!["resource/entertainment_configuration/", config_id];
    let s = concat(&parts);
    assert(parts@.map_values(|p: &str| p@) =~= seq![
        "resource/entertainment_configuration/"@,
        config_id@,
    ]);
    s
}

/// A paired bridge as a place to send requests to.
#[derive(Debug)]
pub struct HueClient {
    ip: String,
    app_key: String,
}

/// Address and key of a client.
pub struct ClientModel {
    pub ip: Seq<char>,
    pub app_key: Seq<char>,
}

impl View for HueClient {
    type V = ClientModel;

    closed spec fn view(&self) -> ClientModel {
        ClientModel { ip: self.ip@, app_key: self.app_key@ }
    }
}

impl HueClient {
    pub fn new(bridge: &PairedBridge) -> (c: HueClient)
        ensures
            c@ == (ClientModel { ip: bridge@.ip, app_key: bridge@.app_key }),
    {
        HueClient { ip: bridge.ip.clone(), app_key: bridge.app_key.clone() }
    }

    /// The key that goes with every request.
    pub fn app_key(&self) -> (s: &str)
        ensures
            s@ == self@.app_key,
    {
        self.app_key.as_str()
    }

    /// The address of a resource.
    pub fn url(&self, path: &str) -> (s: String)
        ensures
            s@ == joined(seq!["https://"@, self@.ip, "/clip/v2/"@, path@]),
    {
        let parts: Vec<&str> = vec!["https://", self.ip.as_str(), "/clip/v2/", path];
        let s = concat(&parts);
        assert(parts@.map_values(|p: &str| p@) =~= seq![
            "https://"@,
            self@.ip,
            "/clip/v2/"@,
            path@,
        ]);
        s
    }

    /// The address that the identity of the stream is asked at.
    pub fn auth_url(&self) -> (s: String)
        ensures
            s@ == joined(seq!["https://"@, self@.ip, "/auth/v2"@]),
    {
        let parts: Vec<&str> = vec!["https://", self.ip.as_str(), "/auth/v2"];
        let s = concat(&parts);
        assert(parts@.map_values(|p: &str| p@) =~= seq!["https://"@, self@.ip, "/auth/v2"@]);
        s
    }
}

/// No address is in the list of discovered bridges twice.
pub open spec fn distinct_addresses(found: Seq<DiscoveredModel>) -> bool {
    forall|i: int, j: int|
        0 <= i < j < found.len() ==> (#[trigger] found[i]).ip != (#[trigger] found[j]).ip
}

/// Announcements keep the addresses in the list distinct, keep what is in it, and add no address of
/// IP version 6.
pub proof fn lemma_announcements(found: Seq<DiscoveredModel>, b: DiscoveredModel)
    requires
        distinct_addresses(found),
    ensures
        distinct_addresses(after_announcement(found, b)),
        found.is_prefix_of(after_announcement(found, b)),
        after_announcement(found, b) != found ==> !b.ip.contains(':'),
{
}

} // verus!
