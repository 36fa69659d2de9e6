//! Webhooks: signatures, headers, retries and the cooldown.
use tilefeed::config::WebhookConfig;
use tilefeed::events::TileEvent;
use tilefeed::webhook::{
    after_attempt, backoff_ms, compute_signature, cooldown_secs, delivery_headers, event_in,
    event_type, should_send, DeliveryStep, Throttle,
};

#[test]
fn test_compute_signature() {
    let sig = compute_signature("my-secret", r#"{"event":"update_complete"}"#);
    assert!(!sig.is_empty());
    assert_eq!(sig.len(), 64); // SHA256 = 32 bytes = 64 hex chars
}

#[test]
fn test_compute_signature_deterministic() {
    let sig1 = compute_signature("key", "payload");
    let sig2 = compute_signature("key", "payload");
    assert_eq!(sig1, sig2);
}

#[test]
fn test_compute_signature_different_keys() {
    let sig1 = compute_signature("key1", "payload");
    let sig2 = compute_signature("key2", "payload");
    assert_ne!(sig1, sig2);
}

fn update(source: &str, tiles: usize) -> TileEvent {
    TileEvent::update_complete(
        source.to_string(),
        tiles,
        &[5u8].into_iter().collect(),
        14,
        vec!["l".to_string()],
    )
}

fn tiles(event: &TileEvent) -> usize {
    match event {
        TileEvent::UpdateComplete { tiles_updated, .. } => *tiles_updated,
        _ => 0,
    }
}

#[test]
fn signatures_are_hmac_sha256_in_hexadecimal() {
    assert_eq!(
        compute_signature("key", "The quick brown fox jumps over the lazy dog"),
        "f7bc83f430538424b13298e6aa6fb143ef4d59a14946175997479dbc2d1a3cd8"
    );
}

#[test]
fn deliveries_carry_the_event_and_the_signature() {
    let payload = r#"{"event":"update_complete"}"#;
    let headers = delivery_headers(payload, Some("my-secret"));
    assert_eq!(headers[2], ("X-Tilefeed-Event".to_string(), "update_complete".to_string()));
    assert_eq!(headers[3].0, "X-Tilefeed-Signature");
    assert_eq!(headers[3].1, format!("sha256={}", compute_signature("my-secret", payload)));
    assert_eq!(delivery_headers(payload, None).len(), 3);
    assert_eq!(event_type("not json"), "unknown");
    assert_eq!(event_type(r#"{"event": 5}"#), "unknown");
    assert_eq!(event_type(r#"["event"]"#), "unknown");
    assert_eq!(event_in(None), "unknown");
}

#[test]
fn retries_wait_twice_as_long_each_time() {
    assert_eq!(after_attempt(0, 2, false), DeliveryStep::Retry { wait_ms: 500 });
    assert_eq!(after_attempt(1, 2, false), DeliveryStep::Retry { wait_ms: 1000 });
    assert_eq!(after_attempt(2, 2, false), DeliveryStep::GiveUp);
    assert_eq!(after_attempt(1, 2, true), DeliveryStep::Delivered);
    assert_eq!(backoff_ms(0), 0);
    assert_eq!(backoff_ms(56), 500 << 55);
}

#[test]
fn switched_off_events_are_not_sent() {
    let mut config = WebhookConfig::default();
    config.on_update = Some(false);
    let generated = TileEvent::GenerateComplete { source: "s".to_string(), duration_ms: 1 };
    assert!(!should_send(&config, &update("s", 1)));
    assert!(should_send(&config, &generated));
    config.on_generate = Some(false);
    assert!(!should_send(&config, &generated));
    assert_eq!(cooldown_secs(&config), None);
    config.cooldown_secs = Some(0);
    assert_eq!(cooldown_secs(&config), None);
    config.cooldown_secs = Some(300);
    assert_eq!(cooldown_secs(&config), Some(300));
}

#[test]
fn a_cooldown_batches_the_events_of_a_source() {
    let mut throttle = Throttle::new();
    assert_eq!(throttle.next_flush(1000), None);
    throttle.accept(update("src", 10), 100);
    throttle.accept(update("src", 20), 300);
    throttle.accept(update("src", 30), 500);
    assert_eq!(throttle.next_flush(1000), Some(1100));
    assert!(throttle.take_expired(1099, 1000).is_empty());
    let sent = throttle.take_expired(1100, 1000);
    assert_eq!(sent.len(), 1);
    assert_eq!(tiles(&sent[0]), 60);
    assert_eq!(throttle.next_flush(1000), None);
}

#[test]
fn events_wait_only_with_a_cooldown() {
    let mut throttle = Throttle::new();
    let at_once = throttle.offer(update("src", 10), 100, None).unwrap();
    assert_eq!((at_once.source(), tiles(&at_once)), ("src", 10));
    assert_eq!(throttle.next_flush(1000), None);
    assert!(throttle.offer(update("src", 10), 100, Some(1000)).is_none());
    assert!(throttle.offer(update("src", 20), 200, Some(1000)).is_none());
    assert_eq!(throttle.next_flush(1000), Some(1100));
    assert_eq!(tiles(&throttle.drain()[0]), 30);
}

#[test]
fn sources_cool_down_independently() {
    let mut throttle = Throttle::new();
    throttle.accept(update("a", 1), 100);
    throttle.accept(update("b", 2), 400);
    throttle.accept(update("a", 4), 450);
    assert!(throttle.can_accept(&update("b", 1)));
    assert!(!throttle.can_accept(&update("b", usize::MAX)));
    assert!(throttle.can_accept(&update("c", usize::MAX)));
    assert_eq!(throttle.next_flush(1000), Some(1100));
    let sent = throttle.take_expired(1200, 1000);
    assert_eq!(sent.len(), 1);
    assert_eq!((sent[0].source(), tiles(&sent[0])), ("a", 5));
    assert_eq!(throttle.next_flush(1000), Some(1400));
    throttle.accept(update("c", 7), 1300);
    let rest = throttle.drain();
    assert_eq!(rest.len(), 2);
    assert_eq!((rest[0].source(), rest[1].source()), ("b", "c"));
    assert!(throttle.drain().is_empty());
}
