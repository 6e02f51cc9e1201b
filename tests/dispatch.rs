use server::route::RouteKey;
use server::table::DispatchTable;

fn key(method: &str, path: &str) -> RouteKey {
    RouteKey::new(method, path)
}

fn sample_table() -> DispatchTable<u32> {
    DispatchTable::from_routes(
        vec![
            (key("GET", "/networks"), 1),
            (key("POST", "/networks"), 2),
            (key("GET", "/containers"), 3),
            (key("DELETE", "/containers"), 4),
            (key("PUT", "/"), 5),
        ],
        0,
    )
}

#[test]
fn registered_routes_reach_their_handlers() {
    let table = sample_table();
    assert_eq!(*table.dispatch("GET", "/networks"), 1);
    assert_eq!(*table.dispatch("POST", "/networks"), 2);
    assert_eq!(*table.dispatch("GET", "/containers"), 3);
    assert_eq!(*table.dispatch("DELETE", "/containers"), 4);
    assert_eq!(*table.dispatch("PUT", "/"), 5);
    assert_eq!(table.len(), 5);
}

#[test]
fn unregistered_routes_go_to_default() {
    let table = sample_table();
    assert_eq!(*table.dispatch("DELETE", "/networks"), 0);
    assert_eq!(*table.dispatch("GET", "/unknown/path"), 0);
    assert_eq!(*table.dispatch("GET", ""), 0);
    assert_eq!(*table.dispatch("BREW", "/networks"), 0);
    assert_eq!(*table.dispatch("", ""), 0);
    assert_eq!(table.lookup("GET", "/unknown/path"), None);
}

#[test]
fn trailing_slash_does_not_match() {
    let table = sample_table();
    assert_eq!(*table.dispatch("GET", "/networks/"), 0);
    assert_eq!(table.lookup("GET", "/networks/"), None);
}

#[test]
fn case_difference_does_not_match() {
    let table = sample_table();
    assert_eq!(*table.dispatch("GET", "/Networks"), 0);
    assert_eq!(*table.dispatch("get", "/networks"), 0);
}

#[test]
fn duplicate_registration_keeps_last() {
    let table = DispatchTable::from_routes(
        vec![
            (key("GET", "/networks"), 1),
            (key("POST", "/networks"), 2),
            (key("GET", "/networks"), 7),
        ],
        0,
    );
    assert_eq!(*table.dispatch("GET", "/networks"), 7);
    assert_eq!(*table.dispatch("POST", "/networks"), 2);
    assert_eq!(table.len(), 2);
}

#[test]
fn empty_table_sends_everything_to_default() {
    let table: DispatchTable<u32> = DispatchTable::new(9);
    assert_eq!(table.len(), 0);
    assert_eq!(*table.dispatch("GET", "/networks"), 9);
    assert_eq!(*table.default_ref(), 9);
}

#[test]
fn insert_adds_and_replaces() {
    let mut table: DispatchTable<u32> = DispatchTable::new(0);
    table.insert(key("POST", "/b"), 2);
    table.insert(key("GET", "/a"), 1);
    table.insert(key("GET", "/c"), 3);
    assert_eq!(table.len(), 3);
    assert_eq!(table.lookup("GET", "/a"), Some(&1));
    table.insert(key("GET", "/a"), 10);
    assert_eq!(table.len(), 3);
    assert_eq!(table.lookup("GET", "/a"), Some(&10));
    assert_eq!(table.lookup("POST", "/b"), Some(&2));
    assert_eq!(table.lookup("GET", "/c"), Some(&3));
    assert_eq!(table.lookup("GET", "/b"), None);
}

#[test]
fn many_routes_in_any_order() {
    let mut routes = Vec::new();
    for i in 0..50u32 {
        let n = (i * 37) % 50;
        routes.push((key("GET", &format!("/item/{}", n)), n));
    }
    let table = DispatchTable::from_routes(routes, 1000);
    assert_eq!(table.len(), 50);
    for n in 0..50u32 {
        assert_eq!(*table.dispatch("GET", &format!("/item/{}", n)), n);
    }
    assert_eq!(*table.dispatch("GET", "/item/50"), 1000);
    assert_eq!(*table.dispatch("POST", "/item/3"), 1000);
}

#[test]
fn non_ascii_paths_match_exactly() {
    let table = DispatchTable::from_routes(vec![(key("GET", "/café"), 1), (key("GET", "/cafe"), 2)], 0);
    assert_eq!(*table.dispatch("GET", "/café"), 1);
    assert_eq!(*table.dispatch("GET", "/cafe"), 2);
    assert_eq!(*table.dispatch("GET", "/CAFÉ"), 0);
}
