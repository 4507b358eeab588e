use starling::event::ChatMessage;
use starling::sync::{parse_request, sync_response, MAX_MESSAGES, MAX_RESPONSE_BYTES};

fn message(n: i64, body: &str) -> ChatMessage {
    ChatMessage { id: format!("id{n}"), author: "bird".into(), body: body.into(), ts: n }
}

fn expected(messages: &[ChatMessage]) -> Vec<u8> {
    let tuples: Vec<(String, String, String, i64)> = messages
        .iter()
        .map(|m| (m.id.clone(), m.author.clone(), m.body.clone(), m.ts))
        .collect();
    postcard::to_stdvec(&tuples).unwrap()
}

#[test]
fn sync_sends_messages_after_the_timestamp() {
    let history = vec![message(1, "a"), message(3, "c"), message(2, "b"), message(-4, "d")];
    let response = sync_response(&history, 1);
    assert_eq!(response, expected(&[message(3, "c"), message(2, "b")]));
    assert_eq!(sync_response(&history, 10), vec![0]);
    assert_eq!(sync_response(&history, i64::MIN), expected(&history));
}

#[test]
fn sync_keeps_only_the_newest_messages() {
    let history: Vec<ChatMessage> = (0..(MAX_MESSAGES as i64 + 20)).map(|n| message(n, "x")).collect();
    let response = sync_response(&history, -1);
    assert_eq!(response, expected(&history[20..]));
}

#[test]
fn sync_drops_the_oldest_until_the_response_fits() {
    let big = "y".repeat(3 * 1024 * 1024);
    let history = vec![message(1, &big), message(2, &big), message(3, &big), message(4, "small")];
    let response = sync_response(&history, 0);
    assert!(response.len() <= MAX_RESPONSE_BYTES);
    assert_eq!(response, expected(&history[1..]));
}

#[test]
fn sync_requests_carry_a_zigzag_timestamp() {
    for since in [0i64, 1, -1, 1_700_000_000_000, i64::MIN, i64::MAX] {
        let bytes = postcard::to_stdvec(&since).unwrap();
        assert_eq!(parse_request(&bytes), Some(since));
    }
    assert_eq!(parse_request(&[]), None);
    assert_eq!(parse_request(&[0x80]), None);
    assert_eq!(parse_request(&[4, 9, 9]), Some(2));
}
