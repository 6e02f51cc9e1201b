use server::reply::{
    created_network_reply, fallback_reply, greeting_reply, network_dispatcher, network_table, respond, MediaType,
    NetworkHandler, Reply,
};

#[test]
fn get_networks_scenario() {
    let table = network_dispatcher();
    let r = respond(&table, "GET", "/networks");
    assert_eq!(r.status, 200);
    assert_eq!(r.content_type, Some(MediaType::ApplicationJson));
    assert_eq!(r.body, "{ \"greeting\": \"Hola amigo!\" }");
    assert_eq!(r.content_length, Some(r.body.len() as u64));
    assert_eq!(r.content_length, Some(29));
}

#[test]
fn post_networks_scenario() {
    let table = network_dispatcher();
    let r = respond(&table, "POST", "/networks");
    assert_eq!(r.status, 200);
    assert_eq!(r.content_type, Some(MediaType::ApplicationJson));
    assert!(r.body.contains("\"Id\": \"12345\""));
    assert!(r.body.contains("\"Warnings\": \"\""));
    assert!(r.body.starts_with('{') && r.body.ends_with('}'));
    assert_eq!(r.content_length, Some(r.body.len() as u64));
    assert_eq!(r.content_length, Some(65));
}

#[test]
fn delete_networks_scenario() {
    let table = network_dispatcher();
    let r = respond(&table, "DELETE", "/networks");
    assert_eq!(r.status, 200);
    assert_eq!(r.body, "boo");
    assert_eq!(r.content_type, None);
    assert_eq!(r.content_length, None);
}

#[test]
fn unknown_path_scenario() {
    let table = network_dispatcher();
    let r = respond(&table, "GET", "/unknown/path");
    assert_eq!(r.status, 200);
    assert_eq!(r.body, "boo");
    assert_eq!(r.content_type, None);
}

#[test]
fn near_misses_get_the_fallback() {
    let table = network_dispatcher();
    assert_eq!(respond(&table, "GET", "/networks/").body, "boo");
    assert_eq!(respond(&table, "GET", "/Networks").body, "boo");
    assert_eq!(respond(&table, "get", "/networks").body, "boo");
}

#[test]
fn dispatcher_picks_the_network_handlers() {
    let table = network_dispatcher();
    assert_eq!(*table.dispatch("GET", "/networks"), NetworkHandler::GetNetworks);
    assert_eq!(*table.dispatch("POST", "/networks"), NetworkHandler::CreateNetwork);
    assert_eq!(*table.dispatch("PUT", "/networks"), NetworkHandler::Fallback);
    assert_eq!(table.len(), 2);
}

#[test]
fn network_table_carries_any_handler() {
    let table = network_table("get", "create", "default");
    assert_eq!(*table.dispatch("GET", "/networks"), "get");
    assert_eq!(*table.dispatch("POST", "/networks"), "create");
    assert_eq!(*table.dispatch("GET", "/"), "default");
}

#[test]
fn replies_have_their_bodies() {
    assert_eq!(greeting_reply().body, "{ \"greeting\": \"Hola amigo!\" }");
    assert!(created_network_reply().body.contains("12345"));
    assert_eq!(fallback_reply().body, "boo");
    assert_eq!(fallback_reply().body_len(), 3);
}

#[test]
fn json_reply_counts_bytes() {
    let r = Reply::json("\"é\"");
    assert_eq!(r.content_length, Some(4));
    assert_eq!(r.body_len(), 4);
    let p = Reply::plain("hi");
    assert_eq!(p.content_length, None);
    assert_eq!(p.body, "hi");
}
