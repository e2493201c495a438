//! Login with Steam, by OpenID: where a browser is sent, what Steam is asked
//! once the browser comes back, and who it then is.
use crate::auth::is_digit;
use crate::proto::SteamId;
use crate::text::{
    a_part_adds_its_value, all_chars, find_values, values, values_hold_no_mark,
};
use vstd::prelude::*;
use vstd::string::*;

verus! {

/// Where Steam takes logins, and confirms them.
pub const PROVIDER: &'static str = "https://steamcommunity.com/openid/login";

/// What stands before the SteamID64 in the identity of a player.
pub const IDENTITY: &'static str = "https://steamcommunity.com/openid/id/";

/// The path to which browsers come back.
pub const RETURN_PATH: &'static str = "/auth/steam";

/// How many digits a SteamID64 has.
pub const ID_DIGITS: usize = 17;

/// Why a login is refused.
#[derive(Debug, Clone, Copy, PartialEq, Eq, Structural)]
pub enum OpenIdError {
    /// Steam did not let the player in, or not for sure.
    NotGranted,
    /// The login is not one of Steam.
    WrongProvider,
    /// The login is one for another site.
    WrongSite,
    /// The identity is not that of a player.
    BadIdentity,
    /// Something that Steam signs is missing, or there twice.
    Incomplete,
    /// Steam does not confirm the login.
    NotConfirmed,
}

/// The value of a hexadecimal digit.
pub open spec fn hex_value(c: char) -> Option<int> {
    if '0' <= c <= '9' {
        Some(c as int - '0' as int)
    } else if 'a' <= c <= 'f' {
        Some(c as int - 'a' as int + 10)
    } else if 'A' <= c <= 'F' {
        Some(c as int - 'A' as int + 10)
    } else {
        None
    }
}

/// Whether a sequence begins with a percent sign and two hexadecimal digits
/// that stand for an ASCII character.
pub open spec fn escaped(s: Seq<char>) -> bool {
    &&& s.len() >= 3
    &&& s[0] == '%'
    &&& hex_value(s[1]) matches Some(h)
    &&& hex_value(s[2]) is Some
    &&& h < 8
}

/// What a value in a query stands for, where it stands for ASCII text.
pub open spec fn decoded(s: Seq<char>) -> Option<Seq<char>>
    decreases s.len(),
{
    if s.len() == 0 {
        Some(seq![])
    } else if escaped(s) {
        let c = (16 * hex_value(s[1])->0 + hex_value(s[2])->0) as char;
        match decoded(s.skip(3)) {
            Some(rest) => Some(seq![c] + rest),
            None => None,
        }
    } else if s[0] == '%' {
        None
    } else {
        match decoded(s.skip(1)) {
            Some(rest) => Some(seq![s[0]] + rest),
            None => None,
        }
    }
}

/// How a query writes the value of a field: nothing, unless the field is there once.
pub open spec fn written(query: Seq<char>, prefix: Seq<char>) -> Option<Seq<char>> {
    let found = values(query, '&', prefix);
    if found.len() == 1 {
        Some(found[0])
    } else {
        None
    }
}

/// What a query says of a field.
pub open spec fn field(query: Seq<char>, prefix: Seq<char>) -> Option<Seq<char>> {
    match written(query, prefix) {
        Some(value) => decoded(value),
        None => None,
    }
}

fn digit_value(c: char) -> (r: Option<u8>)
    ensures
        match r {
            Some(n) => hex_value(c) == Some(n as int) && n < 16,
            None => hex_value(c) is None,
        },
{
    let n: u32 = c as u32;
    if '0' <= c && c <= '9' {
        Some((n - '0' as u32) as u8)
    } else if 'a' <= c && c <= 'f' {
        Some((n - 'a' as u32 + 10) as u8)
    } else if 'A' <= c && c <= 'F' {
        Some((n - 'A' as u32 + 10) as u8)
    } else {
        None
    }
}

/// The character that is escaped at `i`.
fn unescape(s: &Vec<char>, i: usize) -> (r: Option<char>)
    requires
        i < s@.len(),
    ensures
        match r {
            Some(c) => escaped(s@.skip(i as int)) && c == (16 * hex_value(s@[i + 1])->0 + hex_value(
                s@[i + 2],
            )->0) as char,
            None => !escaped(s@.skip(i as int)),
        },
{
    if s.len() - i < 3 || s[i] != '%' {
        return None;
    }
    assert(s@.skip(i as int)[1] == s@[i + 1] && s@.skip(i as int)[2] == s@[i + 2]);
    match (digit_value(s[i + 1]), digit_value(s[i + 2])) {
        (Some(high), Some(low)) => if high < 8 {
            let n: u8 = high * 16 + low;
            Some(n as char)
        } else {
            None
        },
        (_, _) => None,
    }
}

fn decode(text: &str) -> (r: Option<Vec<char>>)
    ensures
        match r {
            Some(v) => decoded(text@) == Some(v@),
            None => decoded(text@) is None,
        },
{
    let s = all_chars(text);
    let mut out: Vec<char> = Vec::new();
    let mut i: usize = 0;
    assert(s@.skip(0) =~= s@);
    while i < s.len()
        invariant
            s@ == text@,
            i <= s@.len(),
            match decoded(s@.skip(i as int)) {
                Some(rest) => decoded(text@) == Some(out@ + rest),
                None => decoded(text@) is None,
            },
        decreases s@.len() - i,
    {
        let ghost left = s@.skip(i as int);
        let ghost before = out@;
        match unescape(&s, i) {
            Some(c) => {
                assert(left.skip(3) =~= s@.skip(i + 3));
                assert(left[1] == s@[i + 1] && left[2] == s@[i + 2]);
                out.push(c);
                i = i + 3;
                proof {
                    if let Some(rest) = decoded(s@.skip(i as int)) {
                        assert(before + (seq![c] + rest) =~= out@ + rest);
                    }
                }
            },
            None => {
                if s[i] == '%' {
                    return None;
                }
                assert(left.skip(1) =~= s@.skip(i + 1));
                out.push(s[i]);
                i = i + 1;
                proof {
                    if let Some(rest) = decoded(s@.skip(i as int)) {
                        assert(before + (seq![left[0]] + rest) =~= out@ + rest);
                    }
                }
            },
        }
    }
    assert(s@.skip(i as int) =~= seq![]);
    assert(out@ + Seq::<char>::empty() =~= out@);
    Some(out)
}

fn find_written(query: &str, prefix: &str) -> (r: Option<String>)
    ensures
        match r {
            Some(v) => written(query@, prefix@) == Some(v@),
            None => written(query@, prefix@) is None,
        },
{
    let found = find_values(query, '&', prefix);
    if found.len() == 1 {
        assert(found.deep_view()[0] == found@[0]@);
        Some(found[0].clone())
    } else {
        None
    }
}

fn find_field(query: &str, prefix: &str) -> (r: Option<Vec<char>>)
    ensures
        match r {
            Some(v) => field(query@, prefix@) == Some(v@),
            None => field(query@, prefix@) is None,
        },
{
    match find_written(query, prefix) {
        Some(value) => decode(value.as_str()),
        None => None,
    }
}

fn has_field(query: &str, prefix: &str, value: &str) -> (r: bool)
    ensures
        r == (field(query@, prefix@) == Some(value@)),
{
    match find_field(query, prefix) {
        Some(v) => {
            let w = all_chars(value);
            if v.len() != w.len() {
                return false;
            }
            let mut i: usize = 0;
            while i < v.len()
                invariant
                    v@.len() == w@.len(),
                    forall|j: int| 0 <= j < i ==> #[trigger] v@[j] == w@[j],
                    w@ == value@,
                    field(query@, prefix@) == Some(v@),
                decreases v@.len() - i,
            {
                if v[i] != w[i] {
                    assert(v@[i as int] != value@[i as int]);
                    return false;
                }
                i = i + 1;
            }
            assert(v@ =~= value@);
            true
        },
        None => false,
    }
}

/// The address to which a browser comes back.
pub open spec fn return_to(domain: Seq<char>) -> Seq<char> {
    "https://"@ + domain + RETURN_PATH@
}

/// The SteamID64 in an identity.
pub open spec fn player_of(identity: Seq<char>) -> Option<Seq<char>> {
    let id = identity.skip(IDENTITY@.len() as int);
    if identity.len() == IDENTITY@.len() + ID_DIGITS && identity.take(IDENTITY@.len() as int)
        == IDENTITY@ && forall|i: int| 0 <= i < id.len() ==> is_digit(#[trigger] id[i]) {
        Some(id)
    } else {
        None
    }
}

/// Whether the rest of what Steam signs is there, each once.
pub open spec fn complete(query: Seq<char>) -> bool {
    &&& written(query, "openid.ns="@) is Some
    &&& written(query, "openid.identity="@) is Some
    &&& written(query, "openid.response_nonce="@) is Some
    &&& written(query, "openid.assoc_handle="@) is Some
    &&& written(query, "openid.signed="@) is Some
    &&& written(query, "openid.sig="@) is Some
}

fn is_complete(query: &str) -> (r: bool)
    ensures
        r == complete(query@),
{
    find_written(query, "openid.ns=").is_some() && find_written(query, "openid.identity=").is_some()
        && find_written(query, "openid.response_nonce=").is_some() && find_written(
        query,
        "openid.assoc_handle=",
    ).is_some() && find_written(query, "openid.signed=").is_some() && find_written(
        query,
        "openid.sig=",
    ).is_some()
}

/// Whom a query names with which a browser comes back, before Steam is asked.
pub open spec fn claimed(query: Seq<char>, domain: Seq<char>) -> Result<Seq<char>, OpenIdError> {
    if field(query, "openid.mode="@) != Some("id_res"@) {
        Err(OpenIdError::NotGranted)
    } else if field(query, "openid.op_endpoint="@) != Some(PROVIDER@) {
        Err(OpenIdError::WrongProvider)
    } else if field(query, "openid.return_to="@) != Some(return_to(domain)) {
        Err(OpenIdError::WrongSite)
    } else {
        match field(query, "openid.claimed_id="@) {
            Some(identity) => match player_of(identity) {
                Some(id) => if complete(query) {
                    Ok(id)
                } else {
                    Err(OpenIdError::Incomplete)
                },
                None => Err(OpenIdError::BadIdentity),
            },
            None => Err(OpenIdError::BadIdentity),
        }
    }
}

fn find_player(identity: &Vec<char>) -> (r: Option<SteamId>)
    ensures
        match r {
            Some(id) => player_of(identity@) == Some(id@),
            None => player_of(identity@) is None,
        },
{
    let digits = "0123456789";
    proof {
        reveal_strlit("0123456789");
    }
    let head = all_chars(IDENTITY);
    let n: usize = head.len();
    let total: usize = identity.len();
    if total < n || total - n != ID_DIGITS {
        return None;
    }
    let ghost start = identity@.take(n as int);
    let ghost tail = identity@.skip(n as int);
    let mut i: usize = 0;
    while i < n
        invariant
            n == head@.len(),
            head@ == IDENTITY@,
            n <= identity@.len(),
            start == identity@.take(n as int),
            forall|j: int| 0 <= j < i ==> #[trigger] start[j] == head@[j],
        decreases n - i,
    {
        if identity[i] != head[i] {
            assert(start[i as int] != IDENTITY@[i as int]);
            return None;
        }
        i = i + 1;
    }
    assert(start =~= IDENTITY@);
    let mut id = String::new();
    let mut k: usize = 0;
    assert(id@ =~= tail.take(0));
    while k < ID_DIGITS
        invariant
            k <= ID_DIGITS,
            n == IDENTITY@.len(),
            identity@.len() == total,
            total == n + ID_DIGITS,
            tail == identity@.skip(n as int),
            digits@ == seq!['0', '1', '2', '3', '4', '5', '6', '7', '8', '9'],
            id@ == tail.take(k as int),
            forall|j: int| 0 <= j < k ==> is_digit(#[trigger] tail[j]),
        decreases ID_DIGITS - k,
    {
        let c: char = identity[n + k];
        assert(tail[k as int] == c);
        if c < '0' || '9' < c {
            assert(!is_digit(tail[k as int]));
            return None;
        }
        let d: usize = (c as u32 - '0' as u32) as usize;
        id.append(digits.substring_char(d, d + 1));
        assert(digits@[d as int] == c);
        assert(id@ =~= tail.take(k + 1));
        k = k + 1;
    }
    assert(tail.take(k as int) =~= tail);
    Some(id)
}

/// Whom a query names with which a browser comes back to `domain`. Steam has
/// yet to confirm it.
pub fn claimed_id(query: &str, domain: &str) -> (r: Result<SteamId, OpenIdError>)
    ensures
        match r {
            Ok(id) => claimed(query@, domain@) == Ok::<Seq<char>, OpenIdError>(id@),
            Err(e) => claimed(query@, domain@) == Err::<Seq<char>, OpenIdError>(e),
        },
{
    if !has_field(query, "openid.mode=", "id_res") {
        return Err(OpenIdError::NotGranted);
    }
    if !has_field(query, "openid.op_endpoint=", PROVIDER) {
        return Err(OpenIdError::WrongProvider);
    }
    let site = "https://".to_owned().concat(domain).concat(RETURN_PATH);
    if !has_field(query, "openid.return_to=", site.as_str()) {
        return Err(OpenIdError::WrongSite);
    }
    match find_field(query, "openid.claimed_id=") {
        Some(identity) => match find_player(&identity) {
            Some(id) => if is_complete(query) {
                Ok(id)
            } else {
                Err(OpenIdError::Incomplete)
            },
            None => Err(OpenIdError::BadIdentity),
        },
        None => Err(OpenIdError::BadIdentity),
    }
}

/// A question with one more field, as the query writes it.
pub open spec fn with_field(question: Seq<char>, query: Seq<char>, prefix: Seq<char>) -> Seq<char> {
    match written(query, prefix) {
        Some(value) => question + seq!['&'] + (prefix + value),
        None => question,
    }
}

/// What Steam is asked of a query: the fields that it signs and no other, each
/// under its plain name and as the query writes it, in the mode that asks.
pub open spec fn question(query: Seq<char>) -> Seq<char> {
    let q = "openid.mode=check_authentication"@;
    let q = with_field(q, query, "openid.ns="@);
    let q = with_field(q, query, "openid.op_endpoint="@);
    let q = with_field(q, query, "openid.claimed_id="@);
    let q = with_field(q, query, "openid.identity="@);
    let q = with_field(q, query, "openid.return_to="@);
    let q = with_field(q, query, "openid.response_nonce="@);
    let q = with_field(q, query, "openid.assoc_handle="@);
    let q = with_field(q, query, "openid.signed="@);
    with_field(q, query, "openid.sig="@)
}

fn add_field(question: String, query: &str, prefix: &str) -> (r: String)
    ensures
        r@ == with_field(question@, query@, prefix@),
{
    match find_written(query, prefix) {
        Some(value) => {
            proof {
                reveal_strlit("&");
                assert("&"@ =~= seq!['&']);
                assert(question@ + "&"@ + prefix@ + value@ =~= question@ + seq!['&'] + (prefix@
                    + value@));
            }
            question.concat("&").concat(prefix).concat(value.as_str())
        },
        None => question,
    }
}

/// What Steam is asked of a query.
pub fn ask(query: &str) -> (r: String)
    ensures
        r@ == question(query@),
{
    let q = "openid.mode=check_authentication".to_owned();
    let q = add_field(q, query, "openid.ns=");
    let q = add_field(q, query, "openid.op_endpoint=");
    let q = add_field(q, query, "openid.claimed_id=");
    let q = add_field(q, query, "openid.identity=");
    let q = add_field(q, query, "openid.return_to=");
    let q = add_field(q, query, "openid.response_nonce=");
    let q = add_field(q, query, "openid.assoc_handle=");
    let q = add_field(q, query, "openid.signed=");
    add_field(q, query, "openid.sig=")
}

/// Whether a reply of Steam confirms a login: one of its lines says so.
pub open spec fn confirms(reply: Seq<char>) -> bool {
    values(reply, '\n', "is_valid:"@).contains("true"@)
}

/// The address to which a browser is sent to log in.
pub open spec fn login_address(domain: Seq<char>) -> Seq<char> {
    PROVIDER@ + "?openid.ns=http%3A%2F%2Fspecs.openid.net%2Fauth%2F2.0"@
        + "&openid.mode=checkid_setup"@
        + "&openid.identity=http%3A%2F%2Fspecs.openid.net%2Fauth%2F2.0%2Fidentifier_select"@
        + "&openid.claimed_id=http%3A%2F%2Fspecs.openid.net%2Fauth%2F2.0%2Fidentifier_select"@
        + "&openid.realm=https%3A%2F%2F"@ + domain + "&openid.return_to=https%3A%2F%2F"@ + domain
        + "%2Fauth%2Fsteam"@
}

/// The address to which a browser is sent to log in.
pub fn login_url(domain: &str) -> (r: String)
    ensures
        r@ == login_address(domain@),
{
    PROVIDER.to_owned().concat("?openid.ns=http%3A%2F%2Fspecs.openid.net%2Fauth%2F2.0").concat(
        "&openid.mode=checkid_setup",
    ).concat(
        "&openid.identity=http%3A%2F%2Fspecs.openid.net%2Fauth%2F2.0%2Fidentifier_select",
    ).concat(
        "&openid.claimed_id=http%3A%2F%2Fspecs.openid.net%2Fauth%2F2.0%2Fidentifier_select",
    ).concat("&openid.realm=https%3A%2F%2F").concat(domain).concat(
        "&openid.return_to=https%3A%2F%2F",
    ).concat(domain).concat("%2Fauth%2Fsteam")
}

/// A login that is taken is Steam's, for this site, and the player is the one
/// whose identity it holds.
pub proof fn a_login_is_that_of_its_player(query: Seq<char>, domain: Seq<char>, id: Seq<char>)
    ensures
        claimed(query, domain) == Ok::<Seq<char>, OpenIdError>(id) <==> {
            &&& field(query, "openid.mode="@) == Some("id_res"@)
            &&& field(query, "openid.op_endpoint="@) == Some(PROVIDER@)
            &&& field(query, "openid.return_to="@) == Some(return_to(domain))
            &&& field(query, "openid.claimed_id="@) == Some(IDENTITY@ + id)
            &&& id.len() == ID_DIGITS
            &&& forall|i: int| 0 <= i < id.len() ==> is_digit(#[trigger] id[i])
            &&& complete(query)
        },
{
    let n = IDENTITY@.len() as int;
    let whole = IDENTITY@ + id;
    assert(whole.take(n) =~= IDENTITY@);
    assert(whole.skip(n) =~= id);
    if let Some(identity) = field(query, "openid.claimed_id="@) {
        if let Some(player) = player_of(identity) {
            assert(identity =~= IDENTITY@ + player);
        }
    }
}

/// Whether a text is the name of a field with the sign behind it.
pub open spec fn names_field(prefix: Seq<char>) -> bool {
    &&& prefix.len() > 0
    &&& prefix[0] != ' '
    &&& prefix.last() == '='
    &&& forall|i: int| 0 <= i < prefix.len() - 1 ==> #[trigger] prefix[i] != '='
    &&& !prefix.contains('&')
}

/// One more field is found under its own name and under no other.
proof fn one_more_field(q: Seq<char>, prefix: Seq<char>, value: Seq<char>, wanted: Seq<char>)
    requires
        names_field(prefix),
        names_field(wanted),
        !value.contains('&'),
    ensures
        values(q + seq!['&'] + (prefix + value), '&', wanted) == if prefix == wanted {
            values(q, '&', wanted).push(value)
        } else {
            values(q, '&', wanted)
        },
        values(prefix + value, '&', wanted) == if prefix == wanted {
            seq![value]
        } else {
            seq![]
        },
{
    let part = prefix + value;
    let none = Seq::new(0, |i: int| ' ');
    assert(none + part =~= part);
    assert(!part.contains('&')) by {
        assert forall|i: int| 0 <= i < part.len() implies #[trigger] part[i] != '&' by {
            if i < prefix.len() {
                assert(prefix.contains(prefix[i]));
            } else {
                assert(value.contains(value[i - prefix.len()]));
            }
        }
    }
    assert(part[0] == prefix[0]);
    if prefix == wanted {
        a_part_adds_its_value(q, 0, wanted, value, Seq::empty(), '&');
    } else {
        if part.len() >= wanted.len() && part.take(wanted.len() as int) == wanted {
            let n = wanted.len() as int;
            let m = prefix.len() as int;
            assert(part.take(n)[n - 1] == part[n - 1]);
            if n < m {
                assert(prefix[n - 1] == '=');
            } else if m < n {
                assert(part.take(n)[m - 1] == part[m - 1]);
                assert(wanted[m - 1] == '=');
            } else {
                assert(part.take(n) =~= prefix);
            }
        }
        a_part_adds_its_value(q, 0, wanted, value, part, '&');
    }
}

proof fn one_more_question(q: Seq<char>, query: Seq<char>, prefix: Seq<char>, wanted: Seq<char>)
    requires
        names_field(prefix),
        names_field(wanted),
    ensures
        values(with_field(q, query, prefix), '&', wanted) == if prefix == wanted && written(
            query,
            prefix,
        ) is Some {
            values(q, '&', wanted).push(written(query, prefix)->0)
        } else {
            values(q, '&', wanted)
        },
{
    if let Some(value) = written(query, prefix) {
        values_hold_no_mark(query, 0, '&', prefix);
        one_more_field(q, prefix, value, wanted);
    }
}

/// Whether a field is one that Steam signs, or the signature.
pub open spec fn signed_field(prefix: Seq<char>) -> bool {
    ||| prefix == "openid.ns="@
    ||| prefix == "openid.op_endpoint="@
    ||| prefix == "openid.claimed_id="@
    ||| prefix == "openid.identity="@
    ||| prefix == "openid.return_to="@
    ||| prefix == "openid.response_nonce="@
    ||| prefix == "openid.assoc_handle="@
    ||| prefix == "openid.signed="@
    ||| prefix == "openid.sig="@
}

proof fn field_names()
    ensures
        forall|prefix: Seq<char>| #[trigger] signed_field(prefix) ==> names_field(prefix),
        names_field("openid.mode="@),
        !signed_field("openid.mode="@),
        "openid.ns="@ != "openid.op_endpoint="@,
        names_field("openid.realm="@),
{
    reveal_strlit("openid.ns=");
    reveal_strlit("openid.op_endpoint=");
    reveal_strlit("openid.claimed_id=");
    reveal_strlit("openid.identity=");
    reveal_strlit("openid.return_to=");
    reveal_strlit("openid.response_nonce=");
    reveal_strlit("openid.assoc_handle=");
    reveal_strlit("openid.signed=");
    reveal_strlit("openid.sig=");
    reveal_strlit("openid.mode=");
    reveal_strlit("openid.realm=");
    assert("openid.mode="@[7] == 'm');
    assert("openid.ns="@[7] == 'n');
    assert("openid.op_endpoint="@[7] == 'o');
    assert("openid.claimed_id="@[7] == 'c');
    assert("openid.identity="@[7] == 'i');
    assert("openid.return_to="@[7] == 'r');
    assert("openid.response_nonce="@[7] == 'r');
    assert("openid.assoc_handle="@[7] == 'a');
    assert("openid.signed="@[7] == 's');
    assert("openid.sig="@[7] == 's');
}

/// What Steam is asked holds, of each field that it signs and of the
/// signature, what the query holds where the query has it once, and nothing
/// otherwise; it asks for a verdict, and holds nothing else.
pub proof fn steam_is_asked_field_by_field(query: Seq<char>, wanted: Seq<char>)
    requires
        names_field(wanted),
    ensures
        signed_field(wanted) && values(query, '&', wanted).len() == 1 ==> values(
            question(query),
            '&',
            wanted,
        ) == values(query, '&', wanted),
        signed_field(wanted) && values(query, '&', wanted).len() != 1 ==> values(
            question(query),
            '&',
            wanted,
        ).len() == 0,
        wanted == "openid.mode="@ ==> values(question(query), '&', wanted) == seq![
            "check_authentication"@,
        ],
        !signed_field(wanted) && wanted != "openid.mode="@ ==> values(
            question(query),
            '&',
            wanted,
        ).len() == 0,
{
    field_names();
    let q0 = "openid.mode=check_authentication"@;
    reveal_strlit("openid.mode=check_authentication");
    reveal_strlit("openid.mode=");
    reveal_strlit("check_authentication");
    assert(q0 =~= "openid.mode="@ + "check_authentication"@);
    assert(!"check_authentication"@.contains('&'));
    one_more_field(q0, "openid.mode="@, "check_authentication"@, wanted);
    assert(signed_field("openid.ns="@) && signed_field("openid.op_endpoint="@) && signed_field(
        "openid.claimed_id="@,
    ) && signed_field("openid.identity="@) && signed_field("openid.return_to="@) && signed_field(
        "openid.response_nonce="@,
    ) && signed_field("openid.assoc_handle="@) && signed_field("openid.signed="@) && signed_field(
        "openid.sig="@,
    ));
    distinct_fields();
    let q1 = with_field(q0, query, "openid.ns="@);
    one_more_question(q0, query, "openid.ns="@, wanted);
    let q2 = with_field(q1, query, "openid.op_endpoint="@);
    one_more_question(q1, query, "openid.op_endpoint="@, wanted);
    let q3 = with_field(q2, query, "openid.claimed_id="@);
    one_more_question(q2, query, "openid.claimed_id="@, wanted);
    let q4 = with_field(q3, query, "openid.identity="@);
    one_more_question(q3, query, "openid.identity="@, wanted);
    let q5 = with_field(q4, query, "openid.return_to="@);
    one_more_question(q4, query, "openid.return_to="@, wanted);
    let q6 = with_field(q5, query, "openid.response_nonce="@);
    one_more_question(q5, query, "openid.response_nonce="@, wanted);
    let q7 = with_field(q6, query, "openid.assoc_handle="@);
    one_more_question(q6, query, "openid.assoc_handle="@, wanted);
    let q8 = with_field(q7, query, "openid.signed="@);
    one_more_question(q7, query, "openid.signed="@, wanted);
    one_more_question(q8, query, "openid.sig="@, wanted);
    assert(question(query) == with_field(q8, query, "openid.sig="@));
    let found = values(query, '&', wanted);
    if found.len() == 1 {
        assert(found =~= seq![found[0]]);
        assert(Seq::<Seq<char>>::empty().push(found[0]) =~= found);
    }
}

proof fn distinct_fields()
    ensures
        "openid.ns="@.len() == 10,
        "openid.op_endpoint="@.len() == 19,
        "openid.claimed_id="@.len() == 18,
        "openid.identity="@.len() == 16,
        "openid.return_to="@.len() == 17,
        "openid.response_nonce="@.len() == 22,
        "openid.assoc_handle="@.len() == 20,
        "openid.signed="@.len() == 14,
        "openid.sig="@.len() == 11,
{
    reveal_strlit("openid.ns=");
    reveal_strlit("openid.op_endpoint=");
    reveal_strlit("openid.claimed_id=");
    reveal_strlit("openid.identity=");
    reveal_strlit("openid.return_to=");
    reveal_strlit("openid.response_nonce=");
    reveal_strlit("openid.assoc_handle=");
    reveal_strlit("openid.signed=");
    reveal_strlit("openid.sig=");
}

/// What Steam is asked holds one identity, which is the one of the player whom
/// the query names: what Steam confirms is what is taken.
pub proof fn steam_is_asked_of_the_player(query: Seq<char>, domain: Seq<char>, id: Seq<char>)
    requires
        claimed(query, domain) == Ok::<Seq<char>, OpenIdError>(id),
    ensures
        values(question(query), '&', "openid.claimed_id="@).len() == 1,
        field(question(query), "openid.claimed_id="@) == Some(IDENTITY@ + id),
{
    let wanted = "openid.claimed_id="@;
    a_login_is_that_of_its_player(query, domain, id);
    field_names();
    assert(signed_field(wanted));
    steam_is_asked_field_by_field(query, wanted);
}

/// What a hexadecimal digit counts, with letters of either size.
pub open spec fn counts(c: char) -> int {
    if '0' <= c <= '9' {
        c as int - '0' as int
    } else if 'a' <= c <= 'f' {
        c as int - 'a' as int + 10
    } else if 'A' <= c <= 'F' {
        c as int - 'A' as int + 10
    } else {
        -1
    }
}

/// A value is read from its front: a percent sign and two hexadecimal digits
/// stand for the ASCII character of that number, any other character but a
/// percent sign for itself, and what comes after is read in the same way. A
/// percent sign with anything else behind it makes the value unreadable.
pub proof fn values_are_read_from_the_front(c: char, high: char, low: char, rest: Seq<char>)
    ensures
        decoded(Seq::empty()) == Some(Seq::<char>::empty()),
        c != '%' ==> decoded(seq![c] + rest) == match decoded(rest) {
            Some(r) => Some(seq![c] + r),
            None => None,
        },
        0 <= counts(high) < 8 && 0 <= counts(low) ==> decoded(seq!['%', high, low] + rest)
            == match decoded(rest) {
            Some(r) => Some(seq![(16 * counts(high) + counts(low)) as char] + r),
            None => None,
        },
        !(0 <= counts(high) < 8 && 0 <= counts(low)) ==> decoded(seq!['%', high, low] + rest) is None,
        decoded(seq!['%']) is None,
        decoded(seq!['%', high]) is None,
{
    let plain = seq![c] + rest;
    let esc = seq!['%', high, low] + rest;
    assert(plain.skip(1) =~= rest);
    assert(esc.skip(3) =~= rest);
    assert(esc[0] == '%' && esc[1] == high && esc[2] == low);
    assert(seq!['%'][0] == '%');
    assert(seq!['%', high][0] == '%');
}

/// A query says of a field what its one value stands for. A reply confirms a
/// login exactly if one of its verdicts is that it is valid.
pub proof fn fields_and_verdicts(
    query: Seq<char>,
    prefix: Seq<char>,
    reply: Seq<char>,
    domain: Seq<char>,
)
    ensures
        values(query, '&', prefix).len() == 1 ==> field(query, prefix) == decoded(
            values(query, '&', prefix)[0],
        ),
        values(query, '&', prefix).len() != 1 ==> field(query, prefix) is None,
        confirms(reply) <==> exists|k: int|
            0 <= k < values(reply, '\n', "is_valid:"@).len() && #[trigger] values(
                reply,
                '\n',
                "is_valid:"@,
            )[k] == "true"@,
        return_to(domain) == "https://"@ + domain + "/auth/steam"@,
{
}

proof fn plain_text_stays(s: Seq<char>)
    requires
        !s.contains('%'),
    ensures
        decoded(s) == Some(s),
    decreases s.len(),
{
    if s.len() > 0 {
        assert(s.contains(s[0]));
        assert(!s.skip(1).contains('%')) by {
            assert forall|i: int| 0 <= i < s.skip(1).len() implies #[trigger] s.skip(1)[i] != '%' by {
                assert(s.contains(s[i + 1]));
            }
        }
        plain_text_stays(s.skip(1));
        assert(seq![s[0]] + s.skip(1) =~= s);
    } else {
        assert(s =~= Seq::<char>::empty());
    }
}

proof fn read_on(a: Seq<char>, rest: Seq<char>)
    requires
        !a.contains('%'),
        decoded(rest) is Some,
    ensures
        decoded(a + rest) == Some(a + decoded(rest)->0),
    decreases a.len(),
{
    if a.len() == 0 {
        assert(a + rest =~= rest);
        assert(a + decoded(rest)->0 =~= decoded(rest)->0);
    } else {
        let whole = a + rest;
        assert(a.contains(a[0]));
        assert(!a.skip(1).contains('%')) by {
            assert forall|i: int| 0 <= i < a.skip(1).len() implies #[trigger] a.skip(1)[i] != '%' by {
                assert(a.contains(a[i + 1]));
            }
        }
        read_on(a.skip(1), rest);
        assert(whole.skip(1) =~= a.skip(1) + rest);
        assert(whole[0] == a[0]);
        assert(seq![a[0]] + (a.skip(1) + decoded(rest)->0) =~= a + decoded(rest)->0);
    }
}

/// Two sites send browsers to Steam alike, but for their names, and each to
/// come back to the address that a login for it must name.
pub proof fn logins_come_back(domain: Seq<char>)
    requires
        !domain.contains('%'),
    ensures
        exists|front: Seq<char>| #[trigger] same_front(front),
        decoded("https%3A%2F%2F"@ + (domain + "%2Fauth%2Fsteam"@)) == Some(return_to(domain)),
        decoded("https%3A%2F%2F"@ + domain) == Some("https://"@ + domain),
{
    let front = PROVIDER@ + "?openid.ns=http%3A%2F%2Fspecs.openid.net%2Fauth%2F2.0"@
        + "&openid.mode=checkid_setup"@
        + "&openid.identity=http%3A%2F%2Fspecs.openid.net%2Fauth%2F2.0%2Fidentifier_select"@
        + "&openid.claimed_id=http%3A%2F%2Fspecs.openid.net%2Fauth%2F2.0%2Fidentifier_select"@;
    assert(same_front(front)) by {
        reveal_strlit("https%3A%2F%2F");
        reveal_strlit("&openid.realm=https%3A%2F%2F");
        reveal_strlit("&openid.return_to=https%3A%2F%2F");
        reveal_strlit("&openid.realm=");
        reveal_strlit("&openid.return_to=");
        assert("&openid.realm=https%3A%2F%2F"@ =~= "&openid.realm="@ + "https%3A%2F%2F"@);
        assert("&openid.return_to=https%3A%2F%2F"@ =~= "&openid.return_to="@ + "https%3A%2F%2F"@);
        assert forall|site: Seq<char>| #[trigger] login_address(site) == front + "&openid.realm="@ + (
        "https%3A%2F%2F"@ + site) + "&openid.return_to="@ + ("https%3A%2F%2F"@ + (site
            + "%2Fauth%2Fsteam"@)) by {
            assert(login_address(site) =~= front + "&openid.realm="@ + ("https%3A%2F%2F"@ + site)
                + "&openid.return_to="@ + ("https%3A%2F%2F"@ + (site + "%2Fauth%2Fsteam"@)));
        }
    }
    tail_is_read();
    plain_text_stays(domain);
    read_on(domain, "%2Fauth%2Fsteam"@);
    head_is_read(domain);
    head_is_read(domain + "%2Fauth%2Fsteam"@);
    assert("https://"@ + (domain + "/auth/steam"@) =~= return_to(domain));
}

/// Whether the address of every site is `front`, then its realm, then the
/// address to which browsers come back.
pub open spec fn same_front(front: Seq<char>) -> bool {
    forall|site: Seq<char>| #[trigger]
        login_address(site) == front + "&openid.realm="@ + ("https%3A%2F%2F"@ + site)
            + "&openid.return_to="@ + ("https%3A%2F%2F"@ + (site + "%2Fauth%2Fsteam"@))
}

proof fn tail_is_read()
    ensures
        decoded("%2Fauth%2Fsteam"@) == Some("/auth/steam"@),
{
    reveal_strlit("%2Fauth%2Fsteam");
    reveal_strlit("/auth/steam");
    let none = Seq::<char>::empty();
    let steam = seq!['s', 't', 'e', 'a', 'm'];
    let auth = seq!['a', 'u', 't', 'h'];
    let slash = seq!['%', '2', 'F'];
    plain_text_stays(steam);
    values_are_read_from_the_front('a', '2', 'F', steam);
    read_on(auth, slash + steam);
    values_are_read_from_the_front('a', '2', 'F', auth + (slash + steam));
    assert("%2Fauth%2Fsteam"@ =~= slash + (auth + (slash + steam)));
    assert((16 * counts('2') + counts('F')) as char == '/');
    assert("/auth/steam"@ =~= seq!['/'] + (auth + (seq!['/'] + steam)));
}

proof fn head_is_read(rest: Seq<char>)
    requires
        decoded(rest) is Some,
    ensures
        decoded("https%3A%2F%2F"@ + rest) == Some("https://"@ + decoded(rest)->0),
{
    reveal_strlit("https%3A%2F%2F");
    reveal_strlit("https://");
    let https = seq!['h', 't', 't', 'p', 's'];
    let colon = seq!['%', '3', 'A'];
    let slash = seq!['%', '2', 'F'];
    let r = decoded(rest)->0;
    values_are_read_from_the_front('a', '2', 'F', rest);
    values_are_read_from_the_front('a', '2', 'F', slash + rest);
    values_are_read_from_the_front('a', '3', 'A', slash + (slash + rest));
    assert((16 * counts('2') + counts('F')) as char == '/');
    assert((16 * counts('3') + counts('A')) as char == ':');
    read_on(https, colon + (slash + (slash + rest)));
    assert("https%3A%2F%2F"@ + rest =~= https + (colon + (slash + (slash + rest))));
    assert("https://"@ + r =~= https + (seq![':'] + (seq!['/'] + (seq!['/'] + r))));
}

/// A login is refused for the first thing that is wrong with it: that it was
/// not granted, that it is of another provider, or for another site, that it
/// names no player, or that something of what Steam signs is not there once.
pub proof fn refused_logins(query: Seq<char>, domain: Seq<char>)
    ensures
        ({
            let granted = field(query, "openid.mode="@) == Some("id_res"@);
            let steam = field(query, "openid.op_endpoint="@) == Some(
                "https://steamcommunity.com/openid/login"@,
            );
            let here = field(query, "openid.return_to="@) == Some(
                "https://"@ + domain + "/auth/steam"@,
            );
            let player = exists|id: Seq<char>|
                id.len() == 17 && (forall|i: int| 0 <= i < id.len() ==> '0' <= #[trigger] id[i] <= '9')
                    && field(query, "openid.claimed_id="@) == Some(
                    #[trigger] ("https://steamcommunity.com/openid/id/"@ + id),
                );
            let r = claimed(query, domain);
            &&& r == Err::<Seq<char>, OpenIdError>(OpenIdError::NotGranted) <==> !granted
            &&& r == Err::<Seq<char>, OpenIdError>(OpenIdError::WrongProvider) <==> granted && !steam
            &&& r == Err::<Seq<char>, OpenIdError>(OpenIdError::WrongSite) <==> granted && steam
                && !here
            &&& r == Err::<Seq<char>, OpenIdError>(OpenIdError::BadIdentity) <==> granted && steam
                && here && !player
            &&& r is Ok ==> values(query, '&', "openid.ns="@).len() == 1 && values(
                query,
                '&',
                "openid.identity="@,
            ).len() == 1 && values(query, '&', "openid.response_nonce="@).len() == 1 && values(
                query,
                '&',
                "openid.assoc_handle="@,
            ).len() == 1 && values(query, '&', "openid.signed="@).len() == 1 && values(
                query,
                '&',
                "openid.sig="@,
            ).len() == 1
            &&& r != Err::<Seq<char>, OpenIdError>(OpenIdError::NotConfirmed)
        }),
{
    let n = IDENTITY@.len() as int;
    if let Some(identity) = field(query, "openid.claimed_id="@) {
        if let Some(player) = player_of(identity) {
            assert(identity =~= IDENTITY@ + player);
            assert forall|i: int| 0 <= i < player.len() implies '0' <= #[trigger] player[i] <= '9' by {
                assert(is_digit(player[i]));
            }
            assert(field(query, "openid.claimed_id="@) == Some(
                "https://steamcommunity.com/openid/id/"@ + player,
            ));
        }
        if exists|id: Seq<char>|
            id.len() == 17 && (forall|i: int| 0 <= i < id.len() ==> '0' <= #[trigger] id[i] <= '9')
                && identity == #[trigger] ("https://steamcommunity.com/openid/id/"@ + id) {
            let id = choose|id: Seq<char>|
                id.len() == 17 && (forall|i: int|
                    0 <= i < id.len() ==> '0' <= #[trigger] id[i] <= '9') && identity
                    == #[trigger] ("https://steamcommunity.com/openid/id/"@ + id);
            assert(identity.take(n) =~= IDENTITY@);
            assert(identity.skip(n) =~= id);
        }
    }
}

} // verus!
