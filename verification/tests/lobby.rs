use catris::client::ClientLogger;
use catris::lobby::looks_like_lobby_id;
use catris::lobby::lobby_join_error;
use catris::lobby::typed_lobby_id;
use catris::lobby::random_lobby_id;
use catris::lobby::unused_color;
use catris::lobby::ClientInfo;
use catris::lobby::add_client;
use catris::lobby::remove_client;

fn client(id: u64, color: u8) -> ClientInfo {
    ClientInfo { client_id: id, logger: ClientLogger { client_id: id }, name: format!("Client {}", id), color }
}

#[test]
fn test_lobby_ids() {
    assert!(looks_like_lobby_id("DHJKLM"));
    assert!(looks_like_lobby_id("379XYW"));
    assert!(!looks_like_lobby_id("ABCDEF"));
    assert!(!looks_like_lobby_id("DHJKL"));
    assert!(!looks_like_lobby_id("DHJKLMN"));
    assert!(!looks_like_lobby_id("dhjklm"));
    assert!(!looks_like_lobby_id("hello"));
    assert!(!looks_like_lobby_id(""));
}

#[test]
fn test_random_lobby_ids() {
    for _ in 0..100 {
        let id = random_lobby_id();
        assert!(looks_like_lobby_id(&id), "{}", id);
    }
}

#[test]
fn test_unused_colors() {
    assert_eq!(unused_color(&vec![]), 31);
    assert_eq!(unused_color(&vec![client(1, 31), client(2, 33)]), 32);
    assert_eq!(unused_color(&vec![client(1, 32), client(2, 31), client(3, 34), client(4, 33), client(5, 35)]), 36);
}

#[test]
fn test_adding_and_removing_clients() {
    let mut clients: Vec<ClientInfo> = vec![];
    add_client(&mut clients, ClientLogger { client_id: 10 }, "Alice");
    add_client(&mut clients, ClientLogger { client_id: 11 }, "Bob");
    assert_eq!(clients.len(), 2);
    assert_eq!(clients[0].name, "Alice");
    assert_eq!(clients[0].color, 31);
    assert_eq!(clients[1].client_id, 11);
    assert_eq!(clients[1].color, 32);

    let logger = remove_client(&mut clients, 10);
    assert_eq!(logger.client_id, 10);
    assert_eq!(clients.len(), 1);
    assert_eq!(clients[0].name, "Bob");
    // the freed color goes to the next client
    add_client(&mut clients, ClientLogger { client_id: 12 }, "Carol");
    assert_eq!(clients[1].color, 31);
}

#[test]
fn test_lobby_join_errors() {
    assert_eq!(typed_lobby_id("dhjk37"), "DHJK37");
    assert_eq!(
        lobby_join_error("hello", None),
        Some("The text you entered doesn't look like a lobby ID.".to_string())
    );
    assert_eq!(
        lobby_join_error("DHJK37", None),
        Some("There is no lobby with ID 'DHJK37'.".to_string())
    );
    assert_eq!(
        lobby_join_error("DHJK37", Some(false)),
        Some("Lobby 'DHJK37' is full. It already has 6 players.".to_string())
    );
    assert_eq!(lobby_join_error("DHJK37", Some(true)), None);
    assert_eq!(lobby_join_error(&typed_lobby_id("dhjk37"), Some(true)), None);
}
