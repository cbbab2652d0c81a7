use zero_to_prod::subscription::{SubscribeDto, Subscription};

#[test]
fn dto_getters_return_constructor_arguments() {
    let dto = SubscribeDto::new("Ursula Le Guin".to_string(), "em@mail.com".to_string());
    assert_eq!(dto.name(), "Ursula Le Guin");
    assert_eq!(dto.email(), "em@mail.com");
}

#[test]
fn subscription_from_dto_keeps_name_and_email() {
    let dto = SubscribeDto::new("Ursula Le Guin".to_string(), "em@mail.com".to_string());
    let s = Subscription::from(dto);
    assert_eq!(s.name, "Ursula Le Guin");
    assert_eq!(s.email, "em@mail.com");
}

#[test]
fn subscription_ids_are_version_4_uuids() {
    let a = Subscription::new("a@mail.com".to_string(), "a".to_string());
    let b = Subscription::new("b@mail.com".to_string(), "b".to_string());
    assert_eq!((a.id >> 76) & 0xf, 4);
    assert_eq!((a.id >> 62) & 0x3, 2);
    assert_eq!((b.id >> 76) & 0xf, 4);
    assert_ne!(a.id, b.id);
}

#[test]
fn subscription_time_is_after_2020() {
    let s = Subscription::new("a@mail.com".to_string(), "a".to_string());
    assert!(s.subscribed_at.secs > 1_577_836_800);
    assert!(s.subscribed_at.nanos < 1_000_000_000);
}
