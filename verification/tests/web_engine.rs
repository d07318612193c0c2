//! What the page's events do to what this side remembers.

use bluewire::web::engine::{engine_event, EngineAction, EngineCache, PowerState};
use bluewire::web::events::Event;

fn value_event(characteristic: &str, value: &[u8]) -> Event {
    Event::CharacteristicValue {
        device: "dev1".to_string(),
        service: "dev1/svc1".to_string(),
        characteristic: characteristic.to_string(),
        value: value.to_vec(),
    }
}

#[test]
fn a_notified_value_is_cached_and_delivered() {
    let mut cache = EngineCache::new();
    let actions = engine_event(&mut cache, &value_event("dev1/svc1/chr1", &[7, 8]));
    assert_eq!(cache.cached_value("dev1/svc1/chr1"), Some(vec![7, 8]));
    assert_eq!(actions.len(), 1);
    match &actions[0] {
        EngineAction::Deliver { characteristic, value } => {
            assert_eq!(characteristic, "dev1/svc1/chr1");
            assert_eq!(value, &vec![7, 8]);
        }
        other => panic!("unexpected {other:?}"),
    }
    engine_event(&mut cache, &value_event("dev1/svc1/chr1", &[9]));
    assert_eq!(cache.cached_value("dev1/svc1/chr1"), Some(vec![9]));
}

#[test]
fn a_disconnect_evicts_everything_under_the_device() {
    let mut cache = EngineCache::new();
    engine_event(&mut cache, &value_event("dev1/svc1/chr1", &[1]));
    cache.store_value("dev10/svc1/chr1".to_string(), vec![2]);
    cache.store_value("dev2/svc1/chr1".to_string(), vec![3]);
    cache.set_notifying("dev1/svc1/chr1".to_string(), true);
    cache.set_notifying("dev2/svc1/chr1".to_string(), true);
    let actions = engine_event(&mut cache, &Event::Disconnected { device: "dev1".to_string() });
    assert_eq!(cache.cached_value("dev1/svc1/chr1"), None);
    assert!(!cache.is_notifying("dev1/svc1/chr1"));
    // `dev10` is another device, not one under `dev1/`.
    assert_eq!(cache.cached_value("dev10/svc1/chr1"), Some(vec![2]));
    assert_eq!(cache.cached_value("dev2/svc1/chr1"), Some(vec![3]));
    assert!(cache.is_notifying("dev2/svc1/chr1"));
    assert_eq!(actions.len(), 1);
    assert!(matches!(&actions[0], EngineAction::MarkDisconnected { device } if device == "dev1"));
}

#[test]
fn a_service_change_marks_the_device() {
    let mut cache = EngineCache::new();
    let actions = engine_event(&mut cache, &Event::ServiceChanged { device: "dev1".to_string() });
    assert!(matches!(&actions[0], EngineAction::MarkServicesChanged { device } if device == "dev1"));
}

#[test]
fn an_advertisement_is_published() {
    let mut cache = EngineCache::new();
    let event = Event::Advertisement {
        device: "dev3".to_string(),
        name: Some("Polar".to_string()),
        rssi: -60,
        tx_power: None,
        appearance: None,
        uuids: vec![],
        manufacturer_data: vec![],
        service_data: vec![],
    };
    let actions = engine_event(&mut cache, &event);
    assert!(matches!(&actions[0], EngineAction::Publish { device } if device == "dev3"));
}

#[test]
fn availability_follows_the_page() {
    let mut cache = EngineCache::new();
    assert_eq!(cache.state(), PowerState::Unknown);
    assert!(engine_event(&mut cache, &Event::AvailabilityChanged { available: true }).is_empty());
    assert_eq!(cache.state(), PowerState::PoweredOn);
    engine_event(&mut cache, &Event::AvailabilityChanged { available: false });
    assert_eq!(cache.state(), PowerState::PoweredOff);
}

#[test]
fn notifications_can_be_stopped() {
    let mut cache = EngineCache::new();
    cache.set_notifying("dev1/svc1/chr1".to_string(), true);
    cache.set_notifying("dev1/svc1/chr1".to_string(), true);
    assert!(cache.is_notifying("dev1/svc1/chr1"));
    cache.set_notifying("dev1/svc1/chr1".to_string(), false);
    assert!(!cache.is_notifying("dev1/svc1/chr1"));
}
