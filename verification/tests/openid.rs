use relay::auth::verify_steam_openid;
use relay::openid::{ask, claimed_id, login_url, OpenIdError};

const ID: &str = "76561197960287930";
const CONFIRMED: &str = "ns:http://specs.openid.net/auth/2.0\nis_valid:true\n";

fn query(mode: &str, provider: &str, site: &str, identity: &str) -> String {
    format!(
        "openid.ns=http%3A%2F%2Fspecs.openid.net%2Fauth%2F2.0&openid.mode={mode}\
         &openid.op_endpoint={provider}&openid.claimed_id={identity}\
         &openid.identity={identity}&openid.return_to={site}\
         &openid.response_nonce=2024&openid.assoc_handle=1234567890\
         &openid.signed=signed%2Cclaimed_id&openid.sig=a%2Bb%3D"
    )
}

const PROVIDER: &str = "https%3A%2F%2Fsteamcommunity.com%2Fopenid%2Flogin";
const SITE: &str = "https%3a%2f%2fvc.example.com%2fauth%2fsteam";

fn identity(id: &str) -> String {
    format!("https%3A%2F%2Fsteamcommunity.com%2Fopenid%2Fid%2F{id}")
}

#[test]
fn confirmed_login_gives_the_player() {
    let q = query("id_res", PROVIDER, SITE, &identity(ID));
    assert_eq!(claimed_id(&q, "vc.example.com"), Ok(ID.to_string()));
    assert_eq!(verify_steam_openid(&q, "vc.example.com", CONFIRMED), Ok(ID.to_string()));
}

#[test]
fn login_that_steam_does_not_confirm_is_refused() {
    let q = query("id_res", PROVIDER, SITE, &identity(ID));
    for reply in ["", "is_valid:false\n", "is_valid:truely", "x is_valid:true", "is_valid:"] {
        assert_eq!(
            verify_steam_openid(&q, "vc.example.com", reply),
            Err(OpenIdError::NotConfirmed),
            "{reply}"
        );
    }
}

#[test]
fn login_must_be_granted_by_steam_for_this_site() {
    let of = |q: String| verify_steam_openid(&q, "vc.example.com", CONFIRMED);
    assert_eq!(of(query("cancel", PROVIDER, SITE, &identity(ID))), Err(OpenIdError::NotGranted));
    assert_eq!(of(String::new()), Err(OpenIdError::NotGranted));
    assert_eq!(
        of(query("id_res", "https%3A%2F%2Fevil.example", SITE, &identity(ID))),
        Err(OpenIdError::WrongProvider)
    );
    assert_eq!(
        of(query("id_res", PROVIDER, "https%3A%2F%2Fother.example%2Fauth%2Fsteam", &identity(ID))),
        Err(OpenIdError::WrongSite)
    );
}

#[test]
fn identity_must_be_that_of_a_player() {
    let of = |i: &str| claimed_id(&query("id_res", PROVIDER, SITE, i), "vc.example.com");
    for i in [
        identity(""),
        identity("7656119796028793"),
        identity("765611979602879300"),
        identity("7656119796028793x"),
        identity("7656119796028793%"),
        identity("7656119796028793%F0"),
        ID.to_string(),
        format!("https%3A%2F%2Fsteamcommunity.com%2Fopenid%2Fix%2F{ID}"),
    ] {
        assert_eq!(of(&i), Err(OpenIdError::BadIdentity), "{i}");
    }
    assert_eq!(of(&identity("%37656119796028793%30")), Ok(ID.to_string()));
}

#[test]
fn field_that_is_there_twice_does_not_count() {
    let q = query("id_res", PROVIDER, SITE, &identity(ID));
    let twice = format!("{q}&openid.claimed_id={}", identity("76561197960287931"));
    assert_eq!(claimed_id(&twice, "vc.example.com"), Err(OpenIdError::BadIdentity));
    let modes = format!("{q}&openid.mode=id_res");
    assert_eq!(claimed_id(&modes, "vc.example.com"), Err(OpenIdError::NotGranted));
}

#[test]
fn login_that_lacks_what_steam_signs_is_refused() {
    let q = query("id_res", PROVIDER, SITE, &identity(ID));
    for name in ["ns", "identity", "response_nonce", "assoc_handle", "signed", "sig"] {
        let without = q.replace(&format!("openid.{name}="), "x=");
        assert_eq!(claimed_id(&without, "vc.example.com"), Err(OpenIdError::Incomplete), "{name}");
        let twice = format!("{q}&openid.{name}=1");
        assert_eq!(claimed_id(&twice, "vc.example.com"), Err(OpenIdError::Incomplete), "{name}");
    }
}

#[test]
fn steam_is_asked_what_the_browser_said() {
    assert_eq!(
        ask("openid.sig=a%2Bb%3D&openid.ns=x&openid.mode=id_res"),
        "openid.mode=check_authentication&openid.ns=x&openid.sig=a%2Bb%3D"
    );
    assert_eq!(ask(""), "openid.mode=check_authentication");
}

#[test]
fn steam_is_asked_of_the_one_identity_that_is_taken() {
    let q = query("id_res", PROVIDER, SITE, &identity(ID));
    let other = identity("76561197960287931");
    for name in ["openid%2Eclaimed_id", "openid.claimed%5Fid", "openid_claimed_id"] {
        let hidden = format!("{q}&{name}={other}");
        assert_eq!(claimed_id(&hidden, "vc.example.com"), Ok(ID.to_string()));
        let question = ask(&hidden);
        assert_eq!(question, ask(&q));
        assert_eq!(question.matches(&identity(ID)).count(), 2);
        assert!(!question.contains(&other));
    }
}

#[test]
fn browser_is_sent_to_steam() {
    assert_eq!(
        login_url("vc.example.com"),
        "https://steamcommunity.com/openid/login?openid.ns=http%3A%2F%2Fspecs.openid.net%2Fauth%2F2.0\
         &openid.mode=checkid_setup\
         &openid.identity=http%3A%2F%2Fspecs.openid.net%2Fauth%2F2.0%2Fidentifier_select\
         &openid.claimed_id=http%3A%2F%2Fspecs.openid.net%2Fauth%2F2.0%2Fidentifier_select\
         &openid.realm=https%3A%2F%2Fvc.example.com\
         &openid.return_to=https%3A%2F%2Fvc.example.com%2Fauth%2Fsteam"
    );
}
