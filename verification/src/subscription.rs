//! Newsletter subscriptions: the request body and the stored record.
use vstd::prelude::*;

verus! {

/// The body of a subscription request.
#[derive(Clone)]
pub struct SubscribeDto {
    name: String,
    email: String,
}

/// What a subscription request holds.
pub struct SubscribeDtoView {
    pub name: Seq<char>,
    pub email: Seq<char>,
}

impl View for SubscribeDto {
    type V = SubscribeDtoView;

    closed spec fn view(&self) -> SubscribeDtoView {
        SubscribeDtoView { name: self.name@, email: self.email@ }
    }
}

impl SubscribeDto {
    /// The subscriber's name.
    pub fn name(&self) -> (r: &str)
        ensures
            r@ == self@.name,
    {
        self.name.as_str()
    }

    /// The subscriber's e-mail address.
    pub fn email(&self) -> (r: &str)
        ensures
            r@ == self@.email,
    {
        self.email.as_str()
    }

    /// A request with the given name and e-mail address.
    pub fn new(name: String, email: String) -> (r: Self)
        ensures
            r@.name == name@,
            r@.email == email@,
    {
        SubscribeDto { name, email }
    }
}

/// The UUID version field (bits 76 to 79 of the big-endian 128-bit value).
pub open spec fn uuid_version(id: u128) -> u128 {
    (id >> 76u32) & 0xfu128
}

/// The UUID variant field (bits 62 and 63 of the big-endian 128-bit value).
pub open spec fn uuid_variant(id: u128) -> u128 {
    (id >> 62u32) & 0x3u128
}

/// Calls `uuid::Uuid::new_v4()` and returns the UUID as a big-endian `u128`
/// (`Uuid::as_u128`). Trusted: the bits are random; the contract claims only
/// what `new_v4` sets in every UUID it makes, version 4 (random) and the
/// RFC 4122 variant (`0b10`).
#[verifier::external_body]
fn random_uuid() -> (id: u128)
    ensures
        uuid_version(id) == 4,
        uuid_variant(id) == 2,
{
    uuid::Uuid::new_v4().as_u128()
}

/// A UTC date and time: whole seconds since the Unix epoch and the
/// nanoseconds within that second.
#[derive(Clone, Copy, Debug, PartialEq, Eq, Structural)]
pub struct UtcTimestamp {
    pub secs: i64,
    pub nanos: u32,
}

/// Calls `chrono::Utc::now().naive_utc()` and returns that date and time as
/// whole seconds since the Unix epoch and nanoseconds within the second
/// (`NaiveDateTime::and_utc`, `DateTime::timestamp`,
/// `DateTime::timestamp_subsec_nanos`). Trusted. The value is the machine's
/// clock and is not claimed; `Utc::now` builds it from `SystemTime` after the
/// Unix epoch (it panics on a clock before it, and on one beyond the dates it
/// can represent), so the seconds are never negative and the nanoseconds are
/// those of a `Duration`, below one second.
#[verifier::external_body]
fn utc_now() -> (r: UtcTimestamp)
    ensures
        r.secs >= 0,
        r.nanos < 1_000_000_000,
{
    let now = chrono::Utc::now().naive_utc().and_utc();
    UtcTimestamp { secs: now.timestamp(), nanos: now.timestamp_subsec_nanos() }
}

/// `t` is a reading of the machine's UTC clock, as `utc_now` takes it.
pub closed spec fn clock_reading(t: UtcTimestamp) -> bool {
    call_ensures(utc_now, (), t)
}

/// `id` is a UUID drawn by `uuid::Uuid::new_v4`, as `random_uuid` draws it.
pub closed spec fn drawn_uuid(id: u128) -> bool {
    call_ensures(random_uuid, (), id)
}

/// A clock reading has non-negative seconds and nanoseconds below one second.
pub proof fn law_clock_reading_bounds(t: UtcTimestamp)
    requires
        clock_reading(t),
    ensures
        t.secs >= 0,
        t.nanos < 1_000_000_000,
{
}

/// A drawn UUID is a version 4 UUID of the RFC 4122 variant.
pub proof fn law_drawn_uuid_is_v4(id: u128)
    requires
        drawn_uuid(id),
    ensures
        uuid_version(id) == 4,
        uuid_variant(id) == 2,
{
}

/// A stored subscription.
pub struct Subscription {
    /// The subscription's UUID, as a big-endian 128-bit value.
    pub id: u128,
    pub email: String,
    pub name: String,
    /// When the subscription was made (UTC).
    pub subscribed_at: UtcTimestamp,
}

impl Subscription {
    /// A new subscription for `email` and `name`, with a fresh random (version
    /// 4) UUID, made now: its id is the UUID drawn for it and its time the
    /// clock reading taken for it.
    pub fn new(email: String, name: String) -> (r: Self)
        ensures
            r.email@ == email@,
            r.name@ == name@,
            uuid_version(r.id) == 4,
            uuid_variant(r.id) == 2,
            r.subscribed_at.secs >= 0,
            r.subscribed_at.nanos < 1_000_000_000,
            drawn_uuid(r.id),
            clock_reading(r.subscribed_at),
    {
        let draw = random_uuid;
        let id = draw();
        let clock = utc_now;
        let subscribed_at = clock();
        Subscription { id, email, name, subscribed_at }
    }

    /// The subscription made from a request: its e-mail address and name,
    /// with a fresh UUID, made now.
    pub fn from(val: SubscribeDto) -> (r: Self)
        ensures
            r.email@ == val@.email,
            r.name@ == val@.name,
            uuid_version(r.id) == 4,
            uuid_variant(r.id) == 2,
            r.subscribed_at.secs >= 0,
            r.subscribed_at.nanos < 1_000_000_000,
            drawn_uuid(r.id),
            clock_reading(r.subscribed_at),
    {
        Subscription::new(val.email, val.name)
    }
}

} // verus!
