use bip::dht::token::{IpAddr, Token, TokenStore, REFRESH_INTERVAL_MINS};

const MILLIS_PER_MINUTE: i64 = 60_000;

fn dummy_ipv4_addr() -> IpAddr {
    IpAddr::V4([127, 0, 0, 1])
}

fn dummy_ipv6_addr() -> IpAddr {
    IpAddr::V6([0, 0, 0, 0, 0, 0, 0, 0, 0, 0, 0, 0, 0, 0, 0, 1])
}

fn now() -> i64 {
    std::time::SystemTime::now().duration_since(std::time::UNIX_EPOCH).unwrap().as_millis() as i64
}

#[test]
fn positive_accept_valid_v4_token() {
    let mut store = TokenStore::new();
    let v4_addr = dummy_ipv4_addr();

    let valid_token = store.checkout(v4_addr);

    assert!(store.checkin(v4_addr, valid_token));
}

#[test]
fn positive_accept_valid_v6_token() {
    let mut store = TokenStore::new();
    let v6_addr = dummy_ipv6_addr();

    let valid_token = store.checkout(v6_addr);

    assert!(store.checkin(v6_addr, valid_token));
}

#[test]
fn positive_accept_v4_token_from_second_secret() {
    let start = now();
    let mut store = TokenStore::new_at(start);
    let v4_addr = dummy_ipv4_addr();

    let valid_token = store.checkout_at(v4_addr, start);

    // The secret was last changed almost two intervals before the check
    let later = start + ((REFRESH_INTERVAL_MINS * 2) - 1) * MILLIS_PER_MINUTE;
    assert!(store.checkin_at(v4_addr, valid_token, later));
}

#[test]
fn positive_accept_v6_token_from_second_secret() {
    let start = now();
    let mut store = TokenStore::new_at(start);
    let v6_addr = dummy_ipv6_addr();

    let valid_token = store.checkout_at(v6_addr, start);

    let later = start + ((REFRESH_INTERVAL_MINS * 2) - 1) * MILLIS_PER_MINUTE;
    assert!(store.checkin_at(v6_addr, valid_token, later));
}

#[test]
#[should_panic]
fn negative_reject_expired_v4_token() {
    let start = now();
    let mut store = TokenStore::new_at(start);
    let v4_addr = dummy_ipv4_addr();

    let valid_token = store.checkout_at(v4_addr, start);

    let later = start + (REFRESH_INTERVAL_MINS * 2) * MILLIS_PER_MINUTE;
    assert!(store.checkin_at(v4_addr, valid_token, later));
}

#[test]
#[should_panic]
fn negative_reject_expired_v6_token() {
    let start = now();
    let mut store = TokenStore::new_at(start);
    let v6_addr = dummy_ipv6_addr();

    let valid_token = store.checkout_at(v6_addr, start);

    let later = start + (REFRESH_INTERVAL_MINS * 2) * MILLIS_PER_MINUTE;
    assert!(store.checkin_at(v6_addr, valid_token, later));
}

#[test]
fn token_from_bytes_round_trips() {
    let bytes = [9u8; 20];
    let token = Token::new(&bytes).unwrap();
    assert_eq!(token.as_ref(), &bytes[..]);
    assert!(Token::new(&bytes[..19]).is_err());
    let arr: [u8; 20] = token.into();
    assert_eq!(arr, bytes);
    assert_eq!(Token::from(arr), token);
}

#[test]
fn tokens_differ_between_addresses() {
    let start = now();
    let mut store = TokenStore::new_at(start);
    let a = store.checkout_at(IpAddr::V4([10, 0, 0, 1]), start);
    let b = store.checkout_at(IpAddr::V4([10, 0, 0, 2]), start);
    assert_ne!(a, b);
    assert!(!store.checkin_at(IpAddr::V4([10, 0, 0, 2]), a, start));
}

#[test]
fn token_window_is_counted_from_the_refresh_grid() {
    let start = now();
    let mut store = TokenStore::new_at(start);
    let v4_addr = dummy_ipv4_addr();

    let valid_token = store.checkout_at(v4_addr, start);

    // A check after 19 minutes rotates the secrets once and still accepts the token.
    assert!(store.checkin_at(v4_addr, valid_token, start + 19 * MILLIS_PER_MINUTE));
    // The rotation counts from the 10 minute mark, so at 28 minutes the secret that made the
    // token is gone.
    assert!(!store.checkin_at(v4_addr, valid_token, start + 28 * MILLIS_PER_MINUTE));
}
