//! The replies of the stand-in network backend, and its route table.

use crate::route::{utf8, KeyView, RouteKey};
use crate::table::{route_views, routes_map, DispatchTable};
use vstd::prelude::*;

verus! {

/// The body of the reply to `GET /networks`.
pub const GREETING_BODY: &'static str = "{ \"greeting\": \"Hola amigo!\" }";

/// The body of the reply to `POST /networks`.
pub const CREATED_NETWORK_BODY: &'static str = "{\n            \"Id\": \"12345\",\n            \"Warnings\": \"\"\n        }";

/// The body of the reply to every other request.
pub const FALLBACK_BODY: &'static str = "boo";

/// The status of every reply here: 200 OK.
pub const STATUS_OK: u16 = 200;

/// The method that reads the networks.
pub const GET: &'static str = "GET";

/// The method that creates a network.
pub const POST: &'static str = "POST";

/// The path that the network routes are registered under.
pub const NETWORKS_PATH: &'static str = "/networks";

/// A media type that a reply declares in its `Content-Type` header.
#[derive(PartialEq, Eq, Structural, Debug, Clone, Copy)]
pub enum MediaType {
    /// `application/json`
    ApplicationJson,
}

/// A response as a handler produces it: status, the content headers it sets
/// explicitly, and the body.
#[derive(Debug)]
pub struct Reply {
    pub status: u16,
    pub content_type: Option<MediaType>,
    pub content_length: Option<u64>,
    pub body: String,
}

impl Reply {
    /// A 200 reply with a JSON body, its `Content-Type` and its
    /// `Content-Length`, the body's length in bytes.
    pub fn json(body: &str) -> (r: Reply)
        ensures
            r.status == STATUS_OK,
            r.content_type == Some(MediaType::ApplicationJson),
            r.content_length == Some(utf8(body@).len() as u64),
            r.body@ == body@,
    {
        let len = body.as_bytes().len() as u64;
        Reply {
            status: STATUS_OK,
            content_type: Some(MediaType::ApplicationJson),
            content_length: Some(len),
            body: body.to_string(),
        }
    }

    /// A 200 reply with a plain body and no content headers.
    pub fn plain(body: &str) -> (r: Reply)
        ensures
            r.status == STATUS_OK,
            r.content_type.is_none(),
            r.content_length.is_none(),
            r.body@ == body@,
    {
        Reply { status: STATUS_OK, content_type: None, content_length: None, body: body.to_string() }
    }

    /// The body's length in bytes.
    pub fn body_len(&self) -> (n: usize)
        ensures
            n == utf8(self.body@).len(),
    {
        self.body.as_str().as_bytes().len()
    }
}

/// The reply to `GET /networks`: a JSON greeting.
pub fn greeting_reply() -> (r: Reply)
    ensures
        r.status == STATUS_OK,
        r.content_type == Some(MediaType::ApplicationJson),
        r.content_length == Some(utf8(GREETING_BODY@).len() as u64),
        r.body@ == GREETING_BODY@,
{
    Reply::json(GREETING_BODY)
}

/// The reply to `POST /networks`: a JSON object with an `Id` and `Warnings`.
pub fn created_network_reply() -> (r: Reply)
    ensures
        r.status == STATUS_OK,
        r.content_type == Some(MediaType::ApplicationJson),
        r.content_length == Some(utf8(CREATED_NETWORK_BODY@).len() as u64),
        r.body@ == CREATED_NETWORK_BODY@,
{
    Reply::json(CREATED_NETWORK_BODY)
}

/// The reply to a request that no route matches: a plain `boo`, without
/// content headers.
pub fn fallback_reply() -> (r: Reply)
    ensures
        r.status == STATUS_OK,
        r.content_type.is_none(),
        r.content_length.is_none(),
        r.body@ == FALLBACK_BODY@,
{
    Reply::plain(FALLBACK_BODY)
}

/// The registrations of the network backend, in order: `GET /networks`, then
/// `POST /networks`.
pub open spec fn network_route_views<H>(on_get: H, on_create: H) -> Seq<(KeyView, H)> {
    seq![((GET@, NETWORKS_PATH@), on_get), ((POST@, NETWORKS_PATH@), on_create)]
}

/// The registrations of the network backend, with the handlers given.
pub fn network_routes<H>(on_get: H, on_create: H) -> (r: Vec<(RouteKey, H)>)
    ensures
        route_views(r@) == network_route_views(on_get, on_create),
{
    let mut routes: Vec<(RouteKey, H)> = Vec::new();
    routes.push((RouteKey::new(GET, NETWORKS_PATH), on_get));
    routes.push((RouteKey::new(POST, NETWORKS_PATH), on_create));
    assert(route_views(routes@) =~= network_route_views(on_get, on_create));
    routes
}

/// The network backend's dispatch table: its two routes, and `default` for
/// everything else.
pub fn network_table<H>(on_get: H, on_create: H, default: H) -> (r: DispatchTable<H>)
    ensures
        r.wf(),
        r.default_handler() == default,
        r@ == routes_map(network_route_views(on_get, on_create)),
{
    DispatchTable::from_routes(network_routes(on_get, on_create), default)
}

/// The handlers of the stand-in network backend.
#[derive(PartialEq, Eq, Structural, Debug, Clone, Copy)]
pub enum NetworkHandler {
    /// Answers `GET /networks` with a greeting.
    GetNetworks,
    /// Answers `POST /networks` with the new network's id.
    CreateNetwork,
    /// Answers everything else with `boo`.
    Fallback,
}

impl NetworkHandler {
    /// The body this handler answers with.
    pub open spec fn body_spec(self) -> Seq<char> {
        match self {
            NetworkHandler::GetNetworks => GREETING_BODY@,
            NetworkHandler::CreateNetwork => CREATED_NETWORK_BODY@,
            NetworkHandler::Fallback => FALLBACK_BODY@,
        }
    }

    /// Whether this handler declares a JSON body with its length.
    pub open spec fn is_json(self) -> bool {
        self != NetworkHandler::Fallback
    }

    /// Produces this handler's reply.
    pub fn call(&self) -> (r: Reply)
        ensures
            r.status == STATUS_OK,
            r.body@ == self.body_spec(),
            r.content_type == (if self.is_json() { Some(MediaType::ApplicationJson) } else { None }),
            r.content_length == (if self.is_json() { Some(utf8(self.body_spec()).len() as u64) } else { None }),
    {
        match self {
            NetworkHandler::GetNetworks => greeting_reply(),
            NetworkHandler::CreateNetwork => created_network_reply(),
            NetworkHandler::Fallback => fallback_reply(),
        }
    }
}

/// The stand-in network backend's table: `GET /networks` and
/// `POST /networks`, and the fallback for everything else.
pub fn network_dispatcher() -> (r: DispatchTable<NetworkHandler>)
    ensures
        r.wf(),
        r.default_handler() == NetworkHandler::Fallback,
        r@ == routes_map(network_route_views(NetworkHandler::GetNetworks, NetworkHandler::CreateNetwork)),
{
    network_table(NetworkHandler::GetNetworks, NetworkHandler::CreateNetwork, NetworkHandler::Fallback)
}

/// Answers one request: picks the handler for its method and path, and
/// invokes it.
pub fn respond(table: &DispatchTable<NetworkHandler>, method: &str, path: &str) -> (r: Reply)
    requires
        table.wf(),
    ensures
        r.status == STATUS_OK,
        r.body@ == table.handler_for((method@, path@)).body_spec(),
        r.content_type == (if table.handler_for((method@, path@)).is_json() {
            Some(MediaType::ApplicationJson)
        } else {
            None
        }),
        r.content_length == (if table.handler_for((method@, path@)).is_json() {
            Some(utf8(table.handler_for((method@, path@)).body_spec()).len() as u64)
        } else {
            None
        }),
{
    table.dispatch(method, path).call()
}

} // verus!
