use carioca::lobby::LobbyQueue;

#[test]
fn lobby_matches_pairs_in_arrival_order() {
    let mut q = LobbyQueue::new();
    assert_eq!(q.join("alice".to_string()), None);
    // joining twice changes nothing
    assert_eq!(q.join("alice".to_string()), None);
    assert_eq!(q.join("bob".to_string()), Some(vec!["alice".to_string(), "bob".to_string()]));
    assert_eq!(q.join("carol".to_string()), None);
    q.leave("carol");
    assert_eq!(q.join("dave".to_string()), None);
    assert_eq!(q.join("erin".to_string()), Some(vec!["dave".to_string(), "erin".to_string()]));
}
