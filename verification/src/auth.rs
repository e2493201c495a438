//! Who a request comes from: signed pushes from the game server, browsers that
//! log in, and the sessions of those that have.
use crate::openid::{claimed, claimed_id, confirms, OpenIdError};
use crate::proto::{SteamId, HMAC_SKEW_S};
use crate::sha256::{digest_length, hmac_sha256, hmac_sha256_spec};
use crate::text::{
    a_part_adds_its_value, begins, contains, find_values, next_mark, next_mark_at_the_end,
    next_mark_bounds, unpadded, values, values_from,
};
use vstd::prelude::*;
use vstd::string::*;
use vstd::utf8::encode_utf8;

verus! {

/// Why a request is refused.
#[derive(Debug, Clone, Copy, PartialEq, Eq, Structural)]
pub enum AuthError {
    /// The signature is not that of the request.
    BadSignature,
    /// The time of the request is not a number of seconds.
    BadTimestamp,
    /// The request is too old, or comes from the future.
    Skewed,
    /// There is no session of that token, or no token.
    NoSession,
}

/// The digit of a number below sixteen.
pub open spec fn hex_digit(n: u8) -> char {
    "0123456789abcdef"@[n as int]
}

/// Bytes in hexadecimal, with small letters.
pub open spec fn hex(bytes: Seq<u8>) -> Seq<char> {
    Seq::new(
        2 * bytes.len(),
        |i: int|
            hex_digit(
                if i % 2 == 0 {
                    (bytes[i / 2] / 16) as u8
                } else {
                    (bytes[i / 2] % 16) as u8
                },
            ),
    )
}

/// Bytes in hexadecimal, with small letters.
pub fn to_hex(bytes: &[u8]) -> (r: String)
    ensures
        r@ == hex(bytes@),
{
    let digits = "0123456789abcdef";
    proof {
        reveal_strlit("0123456789abcdef");
    }
    let n: usize = bytes.len();
    let mut out = String::new();
    let mut i: usize = 0;
    assert(out@ =~= hex(bytes@.take(0)));
    while i < n
        invariant
            n == bytes@.len(),
            i <= n,
            digits@ == "0123456789abcdef"@,
            digits@.len() == 16,
            out@ == hex(bytes@.take(i as int)),
        decreases n - i,
    {
        let high: usize = (bytes[i] / 16) as usize;
        let low: usize = (bytes[i] % 16) as usize;
        out.append(digits.substring_char(high, high + 1));
        out.append(digits.substring_char(low, low + 1));
        proof {
            let before = hex(bytes@.take(i as int));
            let after = hex(bytes@.take(i + 1));
            assert forall|k: int| 0 <= k < after.len() implies #[trigger] out@[k] == after[k] by {
                if k < 2 * i {
                    assert(before[k] == after[k]);
                }
            }
            assert(out@ =~= after);
        }
        i = i + 1;
    }
    assert(bytes@.take(i as int) =~= bytes@);
    out
}

/// Whether two texts are the same. How long this takes depends on their lengths alone.
fn same_text(a: &str, b: &str) -> (r: bool)
    ensures
        r == (a@ == b@),
{
    let x = a.as_bytes();
    let y = b.as_bytes();
    assert(x@ == encode_utf8(a@) && y@ == encode_utf8(b@));
    let n: usize = x.len();
    if y.len() != n {
        return false;
    }
    let mut seen: u8 = 0;
    let mut i: usize = 0;
    while i < n
        invariant
            n == x@.len() == y@.len(),
            i <= n,
            seen == 0 <==> forall|j: int| 0 <= j < i ==> #[trigger] x@[j] == y@[j],
        decreases n - i,
    {
        let p: u8 = x[i];
        let q: u8 = y[i];
        assert((seen | (p ^ q)) == 0 <==> seen == 0 && p == q) by (bit_vector);
        seen = seen | (p ^ q);
        i = i + 1;
    }
    proof {
        if seen == 0 {
            assert(x@ =~= y@);
            vstd::utf8::encode_utf8_decode_utf8(a@);
            vstd::utf8::encode_utf8_decode_utf8(b@);
        }
    }
    seen == 0
}

/// Whether a character is a decimal digit.
pub open spec fn is_digit(c: char) -> bool {
    '0' <= c <= '9'
}

/// The number that decimal digits stand for.
pub open spec fn decimal(s: Seq<char>) -> int
    decreases s.len(),
{
    if s.len() == 0 {
        0
    } else {
        10 * decimal(s.drop_last()) + (s.last() as int - '0' as int)
    }
}

/// The time that a text tells, in seconds: decimal digits and nothing else.
pub open spec fn seconds(s: Seq<char>) -> Option<u64> {
    if s.len() > 0 && (forall|i: int| 0 <= i < s.len() ==> is_digit(#[trigger] s[i])) && decimal(s)
        <= u64::MAX {
        Some(decimal(s) as u64)
    } else {
        None
    }
}

/// The time that a text tells, in seconds.
pub fn parse_seconds(s: &str) -> (r: Option<u64>)
    ensures
        r == seconds(s@),
{
    let mut value: u64 = 0;
    let mut fits: bool = true;
    for c in it: s.chars()
        invariant
            it.seq() == s@,
            forall|i: int| 0 <= i < it.index() ==> is_digit(#[trigger] s@[i]),
            fits ==> value == decimal(s@.take(it.index() as int)),
            !fits ==> decimal(s@.take(it.index() as int)) > u64::MAX,
    {
        let ghost k = it.index() as int;
        if c < '0' || '9' < c {
            assert(!is_digit(s@[k]));
            return None;
        }
        proof {
            assert(s@.take(k + 1).drop_last() =~= s@.take(k));
            assert(s@.take(k + 1).last() == c);
        }
        let digit: u64 = (c as u32 - '0' as u32) as u64;
        if fits {
            if value <= (u64::MAX - digit) / 10 {
                value = value * 10 + digit;
            } else {
                fits = false;
            }
        }
    }
    assert(s@.take(s@.len() as int) =~= s@);
    if fits && !s.is_empty() {
        Some(value)
    } else {
        None
    }
}

/// The signature of a push: the code of its time, a full stop and its body.
pub open spec fn signature_of(secret: Seq<char>, timestamp: Seq<char>, body: Seq<u8>) -> Seq<char> {
    hex(hmac_sha256_spec(encode_utf8(secret), encode_utf8(timestamp) + seq![0x2eu8] + body))
}

/// Whether two times are no more than `HMAC_SKEW_S` seconds apart.
pub open spec fn in_time(now: u64, sent: u64) -> bool {
    -HMAC_SKEW_S <= now - sent <= HMAC_SKEW_S
}

/// The verdict on a signed push.
pub open spec fn verified(
    secret: Seq<char>,
    timestamp: Seq<char>,
    signature: Seq<char>,
    body: Seq<u8>,
    now: u64,
) -> Result<(), AuthError> {
    if signature != signature_of(secret, timestamp, body) {
        Err(AuthError::BadSignature)
    } else {
        match seconds(timestamp) {
            None => Err(AuthError::BadTimestamp),
            Some(sent) => if in_time(now, sent) {
                Ok(())
            } else {
                Err(AuthError::Skewed)
            },
        }
    }
}

/// Tests the signature of a push, in a time that does not depend on where it
/// differs, and then the time at which the push was sent. Whether the push has
/// come before is not tested here: a push that is sent again within
/// `HMAC_SKEW_S` seconds passes. The number in the push tells, and
/// `AppState::receive` tests all three.
pub fn verify_hmac(secret: &str, timestamp: &str, signature: &str, body: &[u8], now: u64) -> (r:
    Result<(), AuthError>)
    ensures
        r == verified(secret@, timestamp@, signature@, body@, now),
{
    let mut message: Vec<u8> = timestamp.as_bytes_vec();
    message.push(0x2e);
    let n: usize = body.len();
    let mut i: usize = 0;
    let ghost head = encode_utf8(timestamp@) + seq![0x2eu8];
    while i < n
        invariant
            n == body@.len(),
            i <= n,
            message@ == head + body@.take(i as int),
        decreases n - i,
    {
        message.push(body[i]);
        assert(body@.take(i + 1) =~= body@.take(i as int).push(body@[i as int]));
        i = i + 1;
    }
    assert(body@.take(i as int) =~= body@);
    let code = hmac_sha256(secret.as_bytes(), message.as_slice());
    let expected = to_hex(code.as_slice());
    if !same_text(expected.as_str(), signature) {
        return Err(AuthError::BadSignature);
    }
    match parse_seconds(timestamp) {
        None => Err(AuthError::BadTimestamp),
        Some(sent) => {
            let apart: i128 = now as i128 - sent as i128;
            if -(HMAC_SKEW_S as i128) <= apart && apart <= HMAC_SKEW_S as i128 {
                Ok(())
            } else {
                Err(AuthError::Skewed)
            }
        },
    }
}

/// A push is taken with one signature only, which has 64 characters: with any
/// character changed it is refused.
pub proof fn one_signature_is_taken(
    secret: Seq<char>,
    timestamp: Seq<char>,
    signature: Seq<char>,
    other: Seq<char>,
    body: Seq<u8>,
    now: u64,
)
    requires
        verified(secret, timestamp, signature, body, now) is Ok,
        other != signature,
    ensures
        signature.len() == 64,
        verified(secret, timestamp, other, body, now) == Err::<(), AuthError>(
            AuthError::BadSignature,
        ),
{
    digest_length(encode_utf8(secret), encode_utf8(timestamp) + seq![0x2eu8] + body);
}

/// A push with the right signature is taken from `HMAC_SKEW_S` seconds before
/// the time in it to as many seconds after, and at no other time.
pub proof fn a_push_is_taken_in_time(
    secret: Seq<char>,
    timestamp: Seq<char>,
    body: Seq<u8>,
    now: u64,
)
    ensures
        verified(secret, timestamp, signature_of(secret, timestamp, body), body, now) is Ok <==> (
        seconds(timestamp) matches Some(sent) && sent - HMAC_SKEW_S <= now <= sent + HMAC_SKEW_S),
{
}

/// Who a browser is that came back to `domain` with `query`, once Steam has
/// replied to what it was asked.
pub fn verify_steam_openid(query: &str, domain: &str, reply: &str) -> (r: Result<
    SteamId,
    OpenIdError,
>)
    ensures
        match r {
            Ok(id) => claimed(query@, domain@) == Ok::<Seq<char>, OpenIdError>(id@) && confirms(
                reply@,
            ),
            Err(e) => claimed(query@, domain@) == Err::<Seq<char>, OpenIdError>(e) || (claimed(
                query@,
                domain@,
            ) is Ok && e == OpenIdError::NotConfirmed && !confirms(reply@)),
        },
{
    let id = match claimed_id(query, domain) {
        Ok(id) => id,
        Err(e) => return Err(e),
    };
    let verdicts = find_values(reply, '\n', "is_valid:");
    if contains(&verdicts, &"true".to_owned()) {
        Ok(id)
    } else {
        Err(OpenIdError::NotConfirmed)
    }
}

/// The name of the cookie that carries the token, and the sign behind it.
pub const SESSION_PREFIX: &'static str = "pv_session=";

/// What follows the token where the cookie is handed out: scripts do not see
/// it, and it travels over TLS only.
pub const SESSION_ATTRIBUTES: &'static str = "; Path=/; HttpOnly; Secure; SameSite=Lax";

/// The token in a cookie header: that of the first pair with the name of the
/// session cookie.
pub open spec fn token_in(cookie: Seq<char>) -> Option<Seq<char>> {
    let tokens = values(cookie, ';', SESSION_PREFIX@);
    if tokens.len() > 0 {
        Some(tokens[0])
    } else {
        None
    }
}

/// The token in a cookie header.
pub fn session_token(cookie: &str) -> (r: Option<String>)
    ensures
        match r {
            Some(token) => token_in(cookie@) == Some(token@),
            None => token_in(cookie@) is None,
        },
{
    let tokens = find_values(cookie, ';', SESSION_PREFIX);
    if tokens.len() > 0 {
        assert(tokens.deep_view()[0] == tokens@[0]@);
        Some(tokens[0].clone())
    } else {
        None
    }
}

/// The pairs of a list as a map, in which the last one of a name counts.
pub open spec fn as_sessions(pairs: Seq<(Seq<char>, Seq<char>)>) -> Map<Seq<char>, Seq<char>>
    decreases pairs.len(),
{
    if pairs.len() == 0 {
        Map::empty()
    } else {
        as_sessions(pairs.drop_last()).insert(pairs.last().0, pairs.last().1)
    }
}

/// Who has logged in: the player behind each token.
pub struct Sessions {
    pairs: Vec<(String, SteamId)>,
}

impl View for Sessions {
    type V = Map<Seq<char>, Seq<char>>;

    closed spec fn view(&self) -> Map<Seq<char>, Seq<char>> {
        as_sessions(self.pairs.deep_view())
    }
}

impl Sessions {
    /// Nobody has logged in.
    pub fn new() -> (r: Sessions)
        ensures
            r@ == Map::<Seq<char>, Seq<char>>::empty(),
    {
        Sessions { pairs: Vec::new() }
    }

    /// The player behind a token.
    pub fn find(&self, token: &str) -> (r: Option<SteamId>)
        ensures
            match r {
                Some(id) => self@.dom().contains(token@) && self@[token@] == id@,
                None => !self@.dom().contains(token@),
            },
    {
        let ghost all = self.pairs.deep_view();
        let mut i: usize = self.pairs.len();
        assert(all.take(i as int) =~= all);
        while i > 0
            invariant
                i <= self.pairs@.len(),
                all == self.pairs.deep_view(),
                ({
                    let rest = as_sessions(all.take(i as int));
                    &&& self@.dom().contains(token@) == rest.dom().contains(token@)
                    &&& rest.dom().contains(token@) ==> self@[token@] == rest[token@]
                }),
            decreases i,
        {
            i = i - 1;
            assert(all.take(i + 1).drop_last() =~= all.take(i as int));
            assert(all.take(i + 1).last() == all[i as int]);
            if same_text(self.pairs[i].0.as_str(), token) {
                return Some(self.pairs[i].1.clone());
            }
        }
        None
    }

    /// Lets a player in under a token made of random bytes. Where a session
    /// has that token already, nothing changes and there is none to hand out.
    pub fn open(&mut self, random: &[u8], steam_id: SteamId) -> (r: Option<String>)
        ensures
            match r {
                Some(token) => token@ == hex(random@) && !old(self)@.dom().contains(hex(random@))
                    && final(self)@ == old(self)@.insert(token@, steam_id@),
                None => old(self)@.dom().contains(hex(random@)) && final(self)@ == old(self)@,
            },
    {
        let token = to_hex(random);
        match self.find(token.as_str()) {
            Some(_) => None,
            None => {
                let ghost before = self.pairs.deep_view();
                let ghost pair = (token@, steam_id@);
                self.pairs.push((token.clone(), steam_id));
                assert(self.pairs.deep_view() =~= before.push(pair));
                assert(before.push(pair).drop_last() =~= before);
                Some(token)
            },
        }
    }
}

impl Default for Sessions {
    fn default() -> (r: Sessions)
        ensures
            r@ == Map::<Seq<char>, Seq<char>>::empty(),
    {
        Sessions::new()
    }
}

/// The header that hands a token out.
pub open spec fn cookie_for(token: Seq<char>) -> Seq<char> {
    SESSION_PREFIX@ + token + SESSION_ATTRIBUTES@
}

/// The header that hands a token out.
pub fn set_cookie(token: &str) -> (r: String)
    ensures
        r@ == cookie_for(token@),
{
    SESSION_PREFIX.to_owned().concat(token).concat(SESSION_ATTRIBUTES)
}

/// Whose session a cookie header belongs to.
pub open spec fn session(sessions: Map<Seq<char>, Seq<char>>, cookie: Seq<char>) -> Option<Seq<char>> {
    match token_in(cookie) {
        Some(token) => if sessions.dom().contains(token) {
            Some(sessions[token])
        } else {
            None
        },
        None => None,
    }
}

/// Whose session a cookie header belongs to.
pub fn require_session(sessions: &Sessions, cookie: &str) -> (r: Result<SteamId, AuthError>)
    ensures
        match r {
            Ok(id) => session(sessions@, cookie@) == Some(id@),
            Err(e) => e == AuthError::NoSession && session(sessions@, cookie@) is None,
        },
{
    match session_token(cookie) {
        Some(token) => match sessions.find(token.as_str()) {
            Some(id) => Ok(id),
            None => Err(AuthError::NoSession),
        },
        None => Err(AuthError::NoSession),
    }
}

proof fn hex_is_plain(bytes: Seq<u8>)
    ensures
        forall|i: int| 0 <= i < hex(bytes).len() ==> #[trigger] hex(bytes)[i] != ';',
{
    reveal_strlit("0123456789abcdef");
}

/// A token that was handed out is found in the cookie that a browser sends
/// back, alone or behind another cookie, and belongs to whom it was handed to.
/// Every other token belongs to whom it belonged to before.
pub proof fn a_session_is_found_again(
    sessions: Map<Seq<char>, Seq<char>>,
    random: Seq<u8>,
    id: Seq<char>,
    before: Seq<char>,
    other: Seq<char>,
)
    requires
        !before.contains(';'),
        !begins(unpadded(before), SESSION_PREFIX@),
        token_in(other) != Some(hex(random)),
    ensures
        ({
            let opened = sessions.insert(hex(random), id);
            let pair = SESSION_PREFIX@ + hex(random);
            &&& session(opened, pair) == Some(id)
            &&& session(opened, before + "; "@ + pair) == Some(id)
            &&& session(opened, other) == session(sessions, other)
        }),
{
    let token = hex(random);
    let pair = SESSION_PREFIX@ + token;
    let both = before + "; "@ + pair;
    let gap = before.len() as int;
    reveal_strlit("pv_session=");
    reveal_strlit("; ");
    hex_is_plain(random);
    next_mark_bounds(pair, 0, ';');
    assert forall|i: int| 0 <= i < pair.len() implies #[trigger] pair[i] != ';' by {
        if i >= 11 {
            assert(pair[i] == token[i - 11]);
        }
    }
    next_mark_at_the_end(pair, 0, ';');
    assert(pair.subrange(0, pair.len() as int) =~= pair);
    assert(pair.take(11) =~= SESSION_PREFIX@);
    assert(pair.skip(11) =~= token);
    assert(unpadded(pair) == pair);
    // Behind another cookie.
    assert forall|i: int| 0 <= i < gap implies #[trigger] both[i] != ';' by {
        assert(before.contains(before[i]));
    }
    first_mark(both, 0, gap, ';');
    assert(both.subrange(0, gap) =~= before);
    let from = gap + 1;
    assert forall|i: int| from <= i < both.len() implies #[trigger] both[i] != ';' by {
        if i >= gap + 2 {
            assert(both[i] == pair[i - gap - 2]);
        }
    }
    next_mark_at_the_end(both, from, ';');
    let padded = both.subrange(from, both.len() as int);
    assert(padded[0] == ' ');
    assert(padded.skip(1) =~= pair);
    assert(unpadded(padded) == pair);
    assert(begins(pair, SESSION_PREFIX@));
    assert(values_from(pair, 0, ';', SESSION_PREFIX@)[0] == token);
    assert(values_from(both, from, ';', SESSION_PREFIX@)[0] == token);
    assert(values_from(both, 0, ';', SESSION_PREFIX@) == values_from(both, from, ';', SESSION_PREFIX@));
}

proof fn first_mark(s: Seq<char>, from: int, to: int, mark: char)
    requires
        0 <= from <= to < s.len(),
        s[to] == mark,
        forall|i: int| from <= i < to ==> #[trigger] s[i] != mark,
    ensures
        next_mark(s, from, mark) == to,
    decreases to - from,
{
    if from < to {
        first_mark(s, from + 1, to, mark);
    }
}

/// What a hexadecimal digit, with small letters, counts.
pub open spec fn nibble(c: char) -> int {
    if '0' <= c <= '9' {
        c as int - '0' as int
    } else {
        c as int - 'a' as int + 10
    }
}

/// Each byte is two digits, the higher half first: read back they give the
/// byte again. There are no other characters but digits and small letters.
pub proof fn hex_gives_each_byte_back(bytes: Seq<u8>, i: int)
    ensures
        hex(bytes).len() == 2 * bytes.len(),
        0 <= i < bytes.len() ==> nibble(hex(bytes)[2 * i]) * 16 + nibble(hex(bytes)[2 * i + 1])
            == bytes[i],
        0 <= i < 2 * bytes.len() ==> ('0' <= hex(bytes)[i] <= '9') || ('a' <= hex(bytes)[i] <= 'f'),
{
    if 0 <= i < 2 * bytes.len() {
        let b = bytes[i / 2];
        digits_are_nibbles((b / 16) as u8);
        digits_are_nibbles((b % 16) as u8);
    }
    if 0 <= i < bytes.len() {
        assert((2 * i) / 2 == i && (2 * i + 1) / 2 == i && (2 * i) % 2 == 0 && (2 * i + 1) % 2 == 1);
        digits_are_nibbles((bytes[i] / 16) as u8);
        digits_are_nibbles((bytes[i] % 16) as u8);
    }
}

proof fn digits_are_nibbles(n: u8)
    requires
        n < 16,
    ensures
        nibble(hex_digit(n)) == n,
        ('0' <= hex_digit(n) <= '9') || ('a' <= hex_digit(n) <= 'f'),
{
    reveal_strlit("0123456789abcdef");
}

/// Two codes are written alike only if they are alike.
pub proof fn different_bytes_are_written_differently(a: Seq<u8>, b: Seq<u8>)
    requires
        hex(a) == hex(b),
    ensures
        a == b,
{
    hex_gives_each_byte_back(a, 0);
    hex_gives_each_byte_back(b, 0);
    assert forall|i: int| 0 <= i < a.len() implies a[i] == b[i] by {
        hex_gives_each_byte_back(a, i);
        hex_gives_each_byte_back(b, i);
    }
    assert(a =~= b);
}

/// A time is read digit by digit: one digit is its number, and one more digit
/// makes ten times the number and the digit, as long as that fits. No text
/// with another character tells a time, nor the empty one.
pub proof fn times_are_read_digit_by_digit(s: Seq<char>, c: char, i: int)
    ensures
        seconds(Seq::empty()) is None,
        0 <= i < s.len() && !('0' <= s[i] <= '9') ==> seconds(s) is None,
        '0' <= c <= '9' ==> seconds(seq![c]) == Some((c as int - '0' as int) as u64),
        '0' <= c <= '9' ==> (seconds(s) matches Some(v) ==> seconds(s.push(c)) == if 10 * v + (
        c as int - '0' as int) <= u64::MAX {
            Some((10 * v + (c as int - '0' as int)) as u64)
        } else {
            None
        }),
        s.len() > 0 && seconds(s) is None ==> seconds(s.push(c)) is None,
{
    reveal_with_fuel(decimal, 2);
    let more = s.push(c);
    assert(more.drop_last() =~= s);
    assert(more.last() == c);
    if 0 <= i < s.len() && !('0' <= s[i] <= '9') {
        assert(!is_digit(s[i]));
    }
    let one = seq![c];
    assert(one.drop_last() =~= Seq::empty());
    assert(forall|k: int| 0 <= k < one.len() ==> one[k] == c);
    if '0' <= c <= '9' && seconds(s) is Some {
        assert forall|k: int| 0 <= k < more.len() implies is_digit(#[trigger] more[k]) by {
            if k < s.len() {
                assert(is_digit(s[k]));
            }
        }
        let v = seconds(s)->0;
        assert(decimal(more) == 10 * decimal(s) + (c as int - '0' as int));
        assert(v == decimal(s)) by {
            decimal_is_natural(s);
        }
        decimal_is_natural(more);
    }
    if s.len() > 0 && seconds(s) is None && seconds(more) is Some {
        assert forall|k: int| 0 <= k < s.len() implies is_digit(#[trigger] s[k]) by {
            assert(is_digit(more[k]));
        }
        assert(is_digit(more[s.len() as int]));
    }
}

proof fn decimal_is_natural(s: Seq<char>)
    requires
        forall|i: int| 0 <= i < s.len() ==> is_digit(#[trigger] s[i]),
    ensures
        decimal(s) >= 0,
    decreases s.len(),
{
    if s.len() > 0 {
        decimal_is_natural(s.drop_last());
        assert(is_digit(s[s.len() - 1]));
    }
}

/// A push is authentic exactly if its signature is, in hexadecimal, the code of
/// its time, a full stop and its body under the secret, and its time is no
/// more than `HMAC_SKEW_S` seconds before or after `now`.
pub proof fn authenticity(
    secret: Seq<char>,
    timestamp: Seq<char>,
    signature: Seq<char>,
    body: Seq<u8>,
    now: u64,
    code: Seq<u8>,
)
    requires
        code == hmac_sha256_spec(
            encode_utf8(secret),
            encode_utf8(timestamp) + seq!['.' as u8] + body,
        ),
    ensures
        ({
            let r = verified(secret, timestamp, signature, body, now);
            &&& r is Ok <==> signature == hex(code) && (seconds(timestamp) matches Some(sent) && sent
                - HMAC_SKEW_S <= now <= sent + HMAC_SKEW_S)
            &&& r == Err::<(), AuthError>(AuthError::BadSignature) <==> signature != hex(code)
            &&& r == Err::<(), AuthError>(AuthError::BadTimestamp) <==> signature == hex(code)
                && seconds(timestamp) is None
        }),
{
    assert('.' as u8 == 0x2eu8);
}

/// The session of a cookie header is that of the first session cookie in it.
pub proof fn the_first_session_cookie_counts(
    sessions: Map<Seq<char>, Seq<char>>,
    cookie: Seq<char>,
)
    ensures
        ({
            let tokens = values(cookie, ';', "pv_session="@);
            &&& tokens.len() > 0 && sessions.contains_key(tokens[0]) ==> session(sessions, cookie)
                == Some(sessions[tokens[0]])
            &&& tokens.len() == 0 || !sessions.contains_key(tokens[0]) ==> session(sessions, cookie)
                is None
        }),
{
}

/// The cookie that is handed out is the session cookie with the token, kept
/// from scripts and from connections without TLS.
pub proof fn the_token_is_handed_out(token: Seq<char>)
    requires
        !token.contains(';'),
    ensures
        values(cookie_for(token), ';', "pv_session="@) == seq![token],
        values(cookie_for(token), ';', "HttpOnly"@) == seq![Seq::<char>::empty()],
        values(cookie_for(token), ';', "Secure"@) == seq![Seq::<char>::empty()],
{
    let none = Seq::<char>::empty();
    reveal_strlit("pv_session=");
    reveal_strlit("; Path=/; HttpOnly; Secure; SameSite=Lax");
    reveal_strlit("HttpOnly");
    reveal_strlit("Secure");
    let path = seq!['P', 'a', 't', 'h', '=', '/'];
    let http = "HttpOnly"@;
    let secure = "Secure"@;
    let site = seq!['S', 'a', 'm', 'e', 'S', 'i', 't', 'e', '=', 'L', 'a', 'x'];
    let name = "pv_session="@;
    let pad = Seq::new(1, |i: int| ' ');
    let c0 = Seq::new(0, |i: int| ' ') + (name + token);
    let c1 = c0 + seq![';'] + (pad + path);
    let c2 = c1 + seq![';'] + (pad + http);
    let c3 = c2 + seq![';'] + (pad + secure);
    let c4 = c3 + seq![';'] + (pad + site);
    assert(cookie_for(token) =~= c4);
    assert(c0 =~= name + token);
    assert(http =~= seq!['H', 't', 't', 'p', 'O', 'n', 'l', 'y']);
    assert(secure =~= seq!['S', 'e', 'c', 'u', 'r', 'e']);
    assert(name =~= seq!['p', 'v', '_', 's', 'e', 's', 's', 'i', 'o', 'n', '=']);
    no_semicolons(path, http, secure, site, name);
    assert(!(name + token).contains(';')) by {
        assert forall|i: int| 0 <= i < (name + token).len() implies #[trigger] (name + token)[i]
            != ';' by {
            if i >= name.len() {
                assert(token.contains(token[i - name.len()]));
            }
        }
    }
    // The session cookie.
    a_part_adds_its_value(none, 0, name, token, path, ';');
    a_part_adds_its_value(c0, 1, name, token, path, ';');
    assert(http[0] == 'H' && secure[0] == 'S' && site[0] == 'S' && path[0] == 'P' && name[0] == 'p');
    a_part_adds_its_value(c1, 1, name, token, http, ';');
    a_part_adds_its_value(c2, 1, name, token, secure, ';');
    assert(site.take(11)[0] == 'S');
    a_part_adds_its_value(c3, 1, name, token, site, ';');
    // Kept from scripts.
    assert((name + token)[0] == 'p');
    assert((name + token).take(8)[0] == 'p');
    a_part_adds_its_value(none, 0, http, none, name + token, ';');
    a_part_adds_its_value(c0, 1, http, none, path, ';');
    a_part_adds_its_value(c1, 1, http, none, path, ';');
    assert(http + none =~= http);
    a_part_adds_its_value(c2, 1, http, none, secure, ';');
    assert(site.take(8)[0] == 'S');
    a_part_adds_its_value(c3, 1, http, none, site, ';');
    assert(values(c1, ';', http) =~= seq![]);
    assert(values(c4, ';', http) =~= seq![none]);
    // Kept to connections with TLS.
    assert((name + token).take(6)[0] == 'p');
    a_part_adds_its_value(none, 0, secure, none, name + token, ';');
    assert(path.take(6)[0] == 'P');
    a_part_adds_its_value(c0, 1, secure, none, path, ';');
    assert(http.take(6)[0] == 'H');
    a_part_adds_its_value(c1, 1, secure, none, http, ';');
    assert(secure + none =~= secure);
    a_part_adds_its_value(c2, 1, secure, none, path, ';');
    assert(site.take(6)[1] == 'a' && secure[1] == 'e');
    a_part_adds_its_value(c3, 1, secure, none, site, ';');
    assert(values(c4, ';', secure) =~= seq![none]);
    assert(values(c4, ';', name) =~= seq![token]);
}

proof fn no_semicolons(
    a: Seq<char>,
    b: Seq<char>,
    c: Seq<char>,
    d: Seq<char>,
    e: Seq<char>,
)
    requires
        a == seq!['P', 'a', 't', 'h', '=', '/'],
        b == seq!['H', 't', 't', 'p', 'O', 'n', 'l', 'y'],
        c == seq!['S', 'e', 'c', 'u', 'r', 'e'],
        d == seq!['S', 'a', 'm', 'e', 'S', 'i', 't', 'e', '=', 'L', 'a', 'x'],
        e == seq!['p', 'v', '_', 's', 'e', 's', 's', 'i', 'o', 'n', '='],
    ensures
        !a.contains(';'),
        !b.contains(';'),
        !c.contains(';'),
        !d.contains(';'),
        !e.contains(';'),
{
}

} // verus!
