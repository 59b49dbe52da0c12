//! Announce tokens: a hash of the asking node's IP address and a secret that changes every
//! ten minutes; a token is accepted under the current or the previous secret.
use vstd::prelude::*;

use crate::dht::message::compact_info::{LengthError, LengthErrorKind};
use crate::dht::random::random_u32;
use crate::dht::routing::node::{lemma_array_eq, now_millis};

verus! {

/// Minutes between changes of the secret.
pub const REFRESH_INTERVAL_MINS: i64 = 10;
/// Bytes hashed for an IPv4 token: the address and the secret.
pub const IPV4_SECRET_BUFFER_LEN: usize = 8;
/// Bytes hashed for an IPv6 token: the address and the secret.
pub const IPV6_SECRET_BUFFER_LEN: usize = 20;
/// Length of a token: that of a SHA-1 digest.
pub const TOKEN_LEN: usize = 20;

/// The SHA-1 digest of `data`.
pub uninterp spec fn sha1_of(data: Seq<u8>) -> Seq<u8>;

/// The SHA-1 digest of `data` (`Digest::digest` of `sha1::Sha1`).
#[verifier::external_body]
fn sha1_digest(data: &[u8]) -> (r: [u8; 20])
    ensures
        r@ == sha1_of(data@),
{
    <sha1::Sha1 as sha1::Digest>::digest(data).into()
}

/// An IP address.
#[derive(Copy, Clone, PartialEq, Eq, Hash, Debug)]
pub enum IpAddr {
    /// IPv4 octets.
    V4([u8; 4]),
    /// IPv6 octets.
    V6([u8; 16]),
}

/// The bytes of an address.
pub open spec fn ip_bytes(addr: IpAddr) -> Seq<u8> {
    match addr {
        IpAddr::V4(b) => b@,
        IpAddr::V6(b) => b@,
    }
}

/// The big-endian bytes of a secret.
pub open spec fn secret_bytes(secret: u32) -> Seq<u8> {
    seq![
        (secret >> 24u32) as u8,
        ((secret >> 16u32) & 0xffu32) as u8,
        ((secret >> 8u32) & 0xffu32) as u8,
        (secret & 0xffu32) as u8,
    ]
}

/// The token of `addr` under `secret`: the digest of the address and the secret.
pub open spec fn token_for(addr: IpAddr, secret: u32) -> Seq<u8> {
    sha1_of(ip_bytes(addr) + secret_bytes(secret))
}

/// A token handed to a node that asks for peers, to be given back when it announces.
#[derive(Copy, Clone, PartialEq, Eq, Hash, Debug)]
pub struct Token {
    token: [u8; 20],
}

impl View for Token {
    type V = Seq<u8>;

    closed spec fn view(&self) -> Seq<u8> {
        self.token@
    }
}

impl Token {
    /// A token with the bytes `bytes`: a length error unless there are twenty.
    pub fn new(bytes: &[u8]) -> (r: Result<Token, LengthError>)
        ensures
            bytes@.len() == TOKEN_LEN ==> (r matches Ok(t) && t@ == bytes@),
            bytes@.len() != TOKEN_LEN ==> r == Err::<Token, LengthError>(
                LengthError { kind: LengthErrorKind::LengthExpected, length: TOKEN_LEN, index: None },
            ),
    {
        if bytes.len() != TOKEN_LEN {
            return Err(LengthError { kind: LengthErrorKind::LengthExpected, length: TOKEN_LEN, index: None });
        }
        let token: [u8; 20] = [
            bytes[0],
            bytes[1],
            bytes[2],
            bytes[3],
            bytes[4],
            bytes[5],
            bytes[6],
            bytes[7],
            bytes[8],
            bytes[9],
            bytes[10],
            bytes[11],
            bytes[12],
            bytes[13],
            bytes[14],
            bytes[15],
            bytes[16],
            bytes[17],
            bytes[18],
            bytes[19],
        ];
        assert(token@ =~= bytes@);
        Ok(Token { token })
    }

    /// The bytes of the token.
    pub fn as_ref(&self) -> (r: &[u8])
        ensures
            r@ == self@,
    {
        self.token.as_slice()
    }
}

impl From<[u8; 20]> for Token {
    fn from(token: [u8; 20]) -> (t: Token) {
        Token { token }
    }
}

impl vstd::std_specs::convert::FromSpecImpl<[u8; 20]> for Token {
    open spec fn obeys_from_spec() -> bool {
        true
    }

    closed spec fn from_spec(token: [u8; 20]) -> Token {
        Token { token }
    }
}

impl From<Token> for [u8; 20] {
    fn from(t: Token) -> (a: [u8; 20]) {
        t.token
    }
}

impl vstd::std_specs::convert::FromSpecImpl<Token> for [u8; 20] {
    open spec fn obeys_from_spec() -> bool {
        true
    }

    closed spec fn from_spec(t: Token) -> [u8; 20] {
        t.token
    }
}

/// The token of `addr` under `secret`.
pub fn generate_token_from_addr(addr: IpAddr, secret: u32) -> (t: Token)
    ensures
        t@ == token_for(addr, secret),
{
    let mut buffer: Vec<u8> = Vec::new();
    match addr {
        IpAddr::V4(b) => {
            let mut i: usize = 0;
            while i < 4
                invariant
                    i <= 4,
                    buffer@ == b@.subrange(0, i as int),
                decreases 4 - i,
            {
                buffer.push(b[i]);
                i = i + 1;
                assert(buffer@ =~= b@.subrange(0, i as int));
            }
        },
        IpAddr::V6(b) => {
            let mut i: usize = 0;
            while i < 16
                invariant
                    i <= 16,
                    buffer@ == b@.subrange(0, i as int),
                decreases 16 - i,
            {
                buffer.push(b[i]);
                i = i + 1;
                assert(buffer@ =~= b@.subrange(0, i as int));
            }
        },
    }
    let ghost ip = buffer@;
    assert(ip =~= ip_bytes(addr));
    buffer.push((secret >> 24u32) as u8);
    buffer.push(((secret >> 16u32) & 0xffu32) as u8);
    buffer.push(((secret >> 8u32) & 0xffu32) as u8);
    buffer.push((secret & 0xffu32) as u8);
    assert(buffer@ =~= ip_bytes(addr) + secret_bytes(secret));
    Token { token: sha1_digest(buffer.as_slice()) }
}

/// Whether `token` is the token of `addr` under either secret.
pub fn validate_token_from_addr(addr: IpAddr, token: Token, secret_one: u32, secret_two: u32) -> (r: bool)
    ensures
        r == (token@ == token_for(addr, secret_one) || token@ == token_for(addr, secret_two)),
{
    same_token(&generate_token_from_addr(addr, secret_one), &token) || same_token(
        &generate_token_from_addr(addr, secret_two),
        &token,
    )
}

/// Whether two tokens are equal.
fn same_token(a: &Token, b: &Token) -> (r: bool)
    ensures
        r == (a@ == b@),
{
    crate::bencode::order::bytes_equal(a.token.as_slice(), b.token.as_slice())
}

/// Milliseconds in a minute.
pub const MILLIS_PER_MINUTE: i64 = 60_000;

/// `a / b` rounded towards zero.
pub open spec fn div_toward_zero(a: int, b: int) -> int {
    if a >= 0 {
        a / b
    } else {
        -((-a) / b)
    }
}

/// Number of whole refresh intervals from `last_refresh` to `now` (negative when the clock
/// went back): the whole minutes elapsed, then the whole intervals in them, each rounded
/// toward zero.
pub open spec fn intervals_between(last_refresh: int, now: int) -> int {
    div_toward_zero(div_toward_zero(now - last_refresh, MILLIS_PER_MINUTE as int), REFRESH_INTERVAL_MINS as int)
}

/// Number of whole refresh intervals from `last_refresh` to `now`.
pub fn intervals_passed(last_refresh: i64, now: i64) -> (r: i128)
    ensures
        r == intervals_between(last_refresh as int, now as int),
{
    let diff: i128 = (now as i128) - (last_refresh as i128);
    if diff >= 0 {
        (diff / 60_000) / 10
    } else {
        let m: i128 = (0 - diff) / 60_000;
        0 - (m / 10)
    }
}

/// The whole intervals between two times fit between them, and the interval `now` falls in
/// starts at most one interval after the last one counted.
proof fn lemma_intervals_fit(last_refresh: int, now: int)
    requires
        last_refresh <= now,
    ensures
        0 <= intervals_between(last_refresh, now),
        last_refresh + intervals_between(last_refresh, now) * interval_millis() <= now,
        now < last_refresh + (intervals_between(last_refresh, now) + 1) * interval_millis(),
{
    let d = now - last_refresh;
    let m = d / 60_000;
    let n = m / 10;
    assert(m * 60_000 <= d < m * 60_000 + 60_000) by (nonlinear_arith)
        requires
            m == d / 60_000,
            d >= 0,
    ;
    assert(n * 10 <= m < n * 10 + 10) by (nonlinear_arith)
        requires
            n == m / 10,
            m >= 0,
    ;
    assert(intervals_between(last_refresh, now) == n);
    assert(n * 600_000 <= d < n * 600_000 + 600_000) by (nonlinear_arith)
        requires
            m * 60_000 <= d < m * 60_000 + 60_000,
            n * 10 <= m < n * 10 + 10,
    ;
    assert(interval_millis() == 600_000);
    assert((n + 1) * 600_000 == n * 600_000 + 600_000) by (nonlinear_arith);
}

/// Model of a token store.
pub struct TokenStoreView {
    /// The current secret.
    pub curr_secret: u32,
    /// The previous secret.
    pub last_secret: u32,
    /// When the current secret was chosen.
    pub last_refresh: int,
}

/// Milliseconds in a refresh interval (`REFRESH_INTERVAL_MINS` minutes).
pub open spec fn interval_millis() -> int {
    600_000
}

/// `after` is a store that `before` may be refreshed to at time `now`: unchanged within the
/// interval; after one interval the current secret becomes the previous one and the refresh
/// time moves on by one interval; after more, both secrets are new and the refresh time moves
/// on by the whole intervals passed; when the clock went back, both secrets are new and the
/// refresh time is `now`.
pub open spec fn refreshed(before: TokenStoreView, now: int, after: TokenStoreView) -> bool {
    let n = intervals_between(before.last_refresh, now);
    if n == 0 {
        after == before
    } else if n == 1 {
        after.last_secret == before.curr_secret && after.last_refresh == before.last_refresh + interval_millis()
    } else if n > 1 {
        after.last_refresh == before.last_refresh + n * interval_millis()
    } else {
        after.last_refresh == now
    }
}

/// Issues and checks announce tokens.
#[derive(Copy, Clone, Debug)]
pub struct TokenStore {
    curr_secret: u32,
    last_secret: u32,
    last_refresh: i64,
}

impl View for TokenStore {
    type V = TokenStoreView;

    closed spec fn view(&self) -> TokenStoreView {
        TokenStoreView {
            curr_secret: self.curr_secret,
            last_secret: self.last_secret,
            last_refresh: self.last_refresh as int,
        }
    }
}

impl TokenStore {
    /// A store with two random secrets, refreshed at time `now`.
    pub fn new_at(now: i64) -> (s: TokenStore)
        ensures
            s@.last_refresh == now,
    {
        TokenStore { curr_secret: random_u32(), last_secret: random_u32(), last_refresh: now }
    }

    /// A store with two random secrets, refreshed now.
    pub fn new() -> (s: TokenStore) {
        TokenStore::new_at(now_millis())
    }

    /// Changes the secrets as time `now` asks for (see `refreshed`).
    fn refresh_check(&mut self, now: i64)
        ensures
            refreshed(old(self)@, now as int, final(self)@),
    {
        let n = intervals_passed(self.last_refresh, now);
        proof {
            if self.last_refresh <= now {
                lemma_intervals_fit(self.last_refresh as int, now as int);
            }
            assert(interval_millis() == 600_000);
        }
        if n == 0 {
        } else if n == 1 {
            self.last_secret = self.curr_secret;
            self.curr_secret = random_u32();
            self.last_refresh = self.last_refresh + 600_000;
        } else if n > 1 {
            self.last_secret = random_u32();
            self.curr_secret = random_u32();
            let moved: i128 = (self.last_refresh as i128) + n * 600_000;
            self.last_refresh = moved as i64;
        } else {
            self.last_secret = random_u32();
            self.curr_secret = random_u32();
            self.last_refresh = now;
        }
    }

    /// The token for `addr` at time `now`, under the current secret after refreshing.
    pub fn checkout_at(&mut self, addr: IpAddr, now: i64) -> (t: Token)
        ensures
            refreshed(old(self)@, now as int, final(self)@),
            t@ == token_for(addr, final(self)@.curr_secret),
    {
        self.refresh_check(now);
        generate_token_from_addr(addr, self.curr_secret)
    }

    /// Whether `token` is valid for `addr` at time `now`: the token under the current or the
    /// previous secret, after refreshing.
    pub fn checkin_at(&mut self, addr: IpAddr, token: Token, now: i64) -> (r: bool)
        ensures
            refreshed(old(self)@, now as int, final(self)@),
            r == (token@ == token_for(addr, final(self)@.curr_secret) || token@ == token_for(
                addr,
                final(self)@.last_secret,
            )),
    {
        self.refresh_check(now);
        validate_token_from_addr(addr, token, self.curr_secret, self.last_secret)
    }

    /// The token for `addr` now.
    pub fn checkout(&mut self, addr: IpAddr) -> (t: Token)
        ensures
            exists|now: i64| #[trigger] refreshed(old(self)@, now as int, final(self)@),
            t@ == token_for(addr, final(self)@.curr_secret),
    {
        self.checkout_at(addr, now_millis())
    }

    /// Whether `token` is valid for `addr` now.
    pub fn checkin(&mut self, addr: IpAddr, token: Token) -> (r: bool)
        ensures
            exists|now: i64| #[trigger] refreshed(old(self)@, now as int, final(self)@),
            r == (token@ == token_for(addr, final(self)@.curr_secret) || token@ == token_for(
                addr,
                final(self)@.last_secret,
            )),
    {
        self.checkin_at(addr, token, now_millis())
    }
}

/// A token checked out from a store is accepted by that store at any time that is less than
/// two refresh intervals later.
pub proof fn lemma_token_accepted(store: TokenStoreView, addr: IpAddr, now: int, after: TokenStoreView)
    requires
        0 <= intervals_between(store.last_refresh, now) <= 1,
        refreshed(store, now, after),
    ensures
        token_for(addr, store.curr_secret) == token_for(addr, after.curr_secret) || token_for(addr, store.curr_secret)
            == token_for(addr, after.last_secret),
{
}


/// `a` lies `m` whole refresh intervals after `b`, for some `m` that is not negative.
pub open spec fn on_grid(a: int, b: int, m: int) -> bool {
    m >= 0 && a == b + m * interval_millis()
}

/// A refresh at a time not before the store's refresh time leaves the refresh time on the
/// same grid of whole intervals, at or before `now` and less than one interval before it.
proof fn lemma_refresh_step(before: TokenStoreView, now: int, after: TokenStoreView)
    requires
        before.last_refresh <= now,
        refreshed(before, now, after),
    ensures
        after.last_refresh <= now < after.last_refresh + interval_millis(),
        exists|m: int| #[trigger] on_grid(after.last_refresh, before.last_refresh, m),
        after.last_refresh == before.last_refresh ==> after.curr_secret == before.curr_secret,
        after.last_refresh == before.last_refresh + interval_millis() ==> after.last_secret == before.curr_secret,
{
    lemma_intervals_fit(before.last_refresh, now);
    let n = intervals_between(before.last_refresh, now);
    assert(interval_millis() == 600_000);
    if n == 0 {
        assert(on_grid(after.last_refresh, before.last_refresh, 0));
    } else if n == 1 {
        assert(on_grid(after.last_refresh, before.last_refresh, 1));
    } else {
        assert(n * 600_000 >= 2 * 600_000) by (nonlinear_arith)
            requires
                n > 1,
        ;
        assert(on_grid(after.last_refresh, before.last_refresh, n));
    }
}

/// What holds of the `k`-th store of a chain of refreshes that follows a checkout at
/// `times[0]`: its refresh time is on the grid of the store right after the checkout, at most
/// `times[k - 1]` and less than one interval before it; and the secret the checkout used is
/// still its current secret, or its previous one after one rotation.
proof fn lemma_refresh_chain(stores: Seq<TokenStoreView>, times: Seq<int>, k: int)
    requires
        stores.len() == times.len() + 1,
        1 <= k <= times.len(),
        stores[0].last_refresh <= times[0],
        forall|i: int| 0 <= i < times.len() ==> refreshed(#[trigger] stores[i], times[i], stores[i + 1]),
        forall|i: int, j: int| 0 <= i <= j < times.len() ==> times[i] <= times[j],
    ensures
        stores[k].last_refresh <= times[k - 1] < stores[k].last_refresh + interval_millis(),
        exists|m: int| #[trigger] on_grid(stores[k].last_refresh, stores[1].last_refresh, m),
        stores[k].last_refresh == stores[1].last_refresh ==> stores[k].curr_secret == stores[1].curr_secret,
        stores[k].last_refresh == stores[1].last_refresh + interval_millis() ==> stores[k].last_secret
            == stores[1].curr_secret,
    decreases k,
{
    assert(interval_millis() == 600_000);
    if k == 1 {
        assert(refreshed(stores[0], times[0], stores[1]));
        lemma_refresh_step(stores[0], times[0], stores[1]);
        assert(on_grid(stores[1].last_refresh, stores[1].last_refresh, 0));
    } else {
        lemma_refresh_chain(stores, times, k - 1);
        let prev = stores[k - 1];
        assert(refreshed(stores[k - 1], times[k - 1], stores[k]));
        assert(times[k - 2] <= times[k - 1]);
        lemma_refresh_step(prev, times[k - 1], stores[k]);
        let m1 = choose|m: int| on_grid(prev.last_refresh, stores[1].last_refresh, m);
        let m2 = choose|m: int| on_grid(stores[k].last_refresh, prev.last_refresh, m);
        assert(stores[k].last_refresh == stores[1].last_refresh + (m1 + m2) * 600_000) by (nonlinear_arith)
            requires
                prev.last_refresh == stores[1].last_refresh + m1 * 600_000,
                stores[k].last_refresh == prev.last_refresh + m2 * 600_000,
        ;
        assert(on_grid(stores[k].last_refresh, stores[1].last_refresh, m1 + m2));
        if stores[k].last_refresh == stores[1].last_refresh {
            assert((m1 + m2) * 600_000 == 0);
            assert(m1 + m2 == 0) by (nonlinear_arith)
                requires
                    (m1 + m2) * 600_000 == 0,
            ;
            assert(m1 == 0 && m2 == 0);
        }
        if stores[k].last_refresh == stores[1].last_refresh + interval_millis() {
            assert(m1 + m2 == 1) by (nonlinear_arith)
                requires
                    (m1 + m2) * 600_000 == 600_000,
            ;
            if m2 == 0 {
                assert(m1 == 1);
            } else {
                assert(m1 == 0);
            }
        }
    }
}

/// The validity window of a token: a token checked out at `times[0]` (the checkout refreshes
/// the store `stores[0]` to `stores[1]`, whose current secret signs it), followed by any
/// checkouts and checkins at the later `times`, is still accepted by the last of them when it
/// comes less than one refresh interval after the checkout. When it comes two intervals or
/// more after the checkout, the store has rotated its secret at least twice since, so neither
/// secret is the one the token was made with.
pub proof fn lemma_token_window(stores: Seq<TokenStoreView>, times: Seq<int>, addr: IpAddr)
    requires
        stores.len() == times.len() + 1,
        times.len() >= 1,
        stores[0].last_refresh <= times[0],
        forall|i: int| 0 <= i < times.len() ==> refreshed(#[trigger] stores[i], times[i], stores[i + 1]),
        forall|i: int, j: int| 0 <= i <= j < times.len() ==> times[i] <= times[j],
    ensures
        times.last() - times[0] < interval_millis() ==> token_for(addr, stores[1].curr_secret) == token_for(
            addr,
            stores.last().curr_secret,
        ) || token_for(addr, stores[1].curr_secret) == token_for(addr, stores.last().last_secret),
        times.last() - times[0] >= 2 * interval_millis() ==> stores.last().last_refresh >= stores[1].last_refresh + 2
            * interval_millis(),
{
    let k = times.len() as int;
    assert(interval_millis() == 600_000);
    lemma_refresh_chain(stores, times, 1);
    lemma_refresh_chain(stores, times, k);
    assert(stores.last() == stores[k]);
    let m = choose|m: int| on_grid(stores[k].last_refresh, stores[1].last_refresh, m);
    if times.last() - times[0] < interval_millis() {
        assert(m * 600_000 < 2 * 600_000);
        assert(m < 2) by (nonlinear_arith)
            requires
                m * 600_000 < 2 * 600_000,
        ;
        if m == 0 {
        } else {
            assert(m == 1);
        }
    }
    if times.last() - times[0] >= 2 * interval_millis() {
        assert(m * 600_000 > 600_000);
        assert(m >= 2) by (nonlinear_arith)
            requires
                m * 600_000 > 600_000,
                m >= 0,
        ;
        assert(m * 600_000 >= 2 * 600_000) by (nonlinear_arith)
            requires
                m >= 2,
        ;
    }
}

} // verus!
