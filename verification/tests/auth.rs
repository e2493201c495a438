use relay::auth::{
    parse_seconds, require_session, session_token, set_cookie, to_hex, verify_hmac, AuthError, Sessions,
};
use relay::sha256::{hmac_sha256, sha256};

#[test]
fn digests_match_published_values() {
    assert_eq!(
        to_hex(&sha256(b"")),
        "e3b0c44298fc1c149afbf4c8996fb92427ae41e4649b934ca495991b7852b855"
    );
    assert_eq!(
        to_hex(&sha256(b"abc")),
        "ba7816bf8f01cfea414140de5dae2223b00361a396177a9cb410ff61f20015ad"
    );
    assert_eq!(
        to_hex(&sha256(b"abcdbcdecdefdefgefghfghighijhijkijkljklmklmnlmnomnopnopq")),
        "248d6a61d20638b8e5c026930c3e6039a33ce45964ff2167f6ecedd419db06c1"
    );
}

#[test]
fn digests_at_the_edges_of_a_block() {
    assert_eq!(
        to_hex(&sha256(&[b'a'; 55])),
        "9f4390f8d30c2dd92ec9f095b65e2b9ae9b0a925a5258e241c9f1e910f734318"
    );
    assert_eq!(
        to_hex(&sha256(&[b'a'; 56])),
        "b35439a4ac6f0948b6d6f9e3c6af0f5f590ce20f1bde7090ef7970686ec6738a"
    );
    assert_eq!(
        to_hex(&sha256(&[b'a'; 64])),
        "ffe054fe7ae0cb6dc65c3af9b61d5209f439851db43d0ba5997337df154668eb"
    );
}

#[test]
fn codes_match_published_values() {
    assert_eq!(
        to_hex(&hmac_sha256(&[0x0b; 20], b"Hi There")),
        "b0344c61d8db38535ca8afceaf0bf12b881dc200c9833da726e9376c2e32cff7"
    );
    assert_eq!(
        to_hex(&hmac_sha256(b"Jefe", b"what do ya want for nothing?")),
        "5bdcc146bf60754e6a042426089575c75a003f089d2739839dec58b964ec3843"
    );
    assert_eq!(
        to_hex(&hmac_sha256(
            &[0xaa; 131],
            b"Test Using Larger Than Block-Size Key - Hash Key First"
        )),
        "60e431591ee0b67f0d8a26aacbf5b77f8e0bc6213728c5140546040f0ee37f54"
    );
}

const BODY: &[u8] = b"{\"seq\":1}";
const SIGNATURE: &str = "b12e4ff04270d6c45512d1568c3f8f8228700533fe097ba9077fd6350a87044e";

#[test]
fn signed_push_is_taken() {
    assert_eq!(verify_hmac("s", "1000", SIGNATURE, BODY, 1000), Ok(()));
    assert_eq!(
        verify_hmac(
            "秘密",
            "1000",
            "84c6008454080af2ac750e287c26cfaa206146d37aa5e42efdb668609859b24a",
            b"",
            1000
        ),
        Ok(())
    );
}

#[test]
fn one_changed_byte_of_the_signature_is_refused() {
    for i in 0..SIGNATURE.len() {
        let mut bytes = SIGNATURE.as_bytes().to_vec();
        bytes[i] = if bytes[i] == b'0' { b'1' } else { b'0' };
        let forged = String::from_utf8(bytes).unwrap();
        assert_eq!(
            verify_hmac("s", "1000", &forged, BODY, 1000),
            Err(AuthError::BadSignature)
        );
    }
    assert_eq!(
        verify_hmac("s", "1000", &SIGNATURE.to_uppercase(), BODY, 1000),
        Err(AuthError::BadSignature)
    );
    assert_eq!(
        verify_hmac("s", "1000", &SIGNATURE[..63], BODY, 1000),
        Err(AuthError::BadSignature)
    );
    assert_eq!(verify_hmac("s", "1000", "", BODY, 1000), Err(AuthError::BadSignature));
}

#[test]
fn signature_covers_secret_time_and_body() {
    assert_eq!(verify_hmac("t", "1000", SIGNATURE, BODY, 1000), Err(AuthError::BadSignature));
    assert_eq!(verify_hmac("s", "1001", SIGNATURE, BODY, 1000), Err(AuthError::BadSignature));
    assert_eq!(
        verify_hmac("s", "1000", SIGNATURE, b"{\"seq\":2}", 1000),
        Err(AuthError::BadSignature)
    );
}

#[test]
fn skew_of_thirty_seconds_is_allowed() {
    assert_eq!(verify_hmac("s", "1000", SIGNATURE, BODY, 1029), Ok(()));
    assert_eq!(verify_hmac("s", "1000", SIGNATURE, BODY, 1030), Ok(()));
    assert_eq!(verify_hmac("s", "1000", SIGNATURE, BODY, 1031), Err(AuthError::Skewed));
    assert_eq!(verify_hmac("s", "1000", SIGNATURE, BODY, 971), Ok(()));
    assert_eq!(verify_hmac("s", "1000", SIGNATURE, BODY, 970), Ok(()));
    assert_eq!(verify_hmac("s", "1000", SIGNATURE, BODY, 969), Err(AuthError::Skewed));
    assert_eq!(verify_hmac("s", "1000", SIGNATURE, BODY, u64::MAX), Err(AuthError::Skewed));
}

#[test]
fn time_that_is_no_number_is_refused() {
    assert_eq!(
        verify_hmac(
            "s",
            "",
            "80bfb1c7abd8669985af1a3c80e1421831d5e573f0e8e49c2a2484ba77ededc9",
            BODY,
            0
        ),
        Err(AuthError::BadTimestamp)
    );
    assert_eq!(
        verify_hmac(
            "s",
            "12a",
            "9a0a21a5c2f4c9a99ed611910632e8cf5b1c124c844f00ab73d601963a86cada",
            BODY,
            12
        ),
        Err(AuthError::BadTimestamp)
    );
    assert_eq!(
        verify_hmac(
            "s",
            "18446744073709551616",
            "fa481fac4b03380bbdce0b127a982d507d82cc9f0a9c4b6b6d1fd53170f25c52",
            b"",
            0
        ),
        Err(AuthError::BadTimestamp)
    );
    assert_eq!(
        verify_hmac(
            "s",
            "18446744073709551615",
            "ea105adc924be343e510175b7097a13bea1d560d48eb0781b6e598cad41b132c",
            b"",
            u64::MAX
        ),
        Ok(())
    );
}

#[test]
fn seconds_are_decimal_digits() {
    assert_eq!(parse_seconds("0"), Some(0));
    assert_eq!(parse_seconds("0017"), Some(17));
    assert_eq!(parse_seconds("18446744073709551615"), Some(u64::MAX));
    assert_eq!(parse_seconds("18446744073709551616"), None);
    assert_eq!(parse_seconds("184467440737095516150000"), None);
    assert_eq!(parse_seconds("+5"), None);
    assert_eq!(parse_seconds("-5"), None);
    assert_eq!(parse_seconds(" 5"), None);
    assert_eq!(parse_seconds("５"), None);
}

#[test]
fn session_is_found_again() {
    let mut sessions = Sessions::new();
    let a = sessions.open(&[0x00, 0xff, 0x1a], "alice".to_string()).unwrap();
    let b = sessions.open(&[0x00, 0xff, 0x1b], "bob".to_string()).unwrap();
    assert_eq!(a, "00ff1a");
    assert_eq!(b, "00ff1b");
    assert_eq!(
        require_session(&sessions, "pv_session=00ff1a"),
        Ok("alice".to_string())
    );
    assert_eq!(
        require_session(&sessions, "theme=dark; pv_session=00ff1b; x=y"),
        Ok("bob".to_string())
    );
    assert_eq!(sessions.find("00ff1a"), Some("alice".to_string()));
    assert_eq!(sessions.find("00ff1c"), None);
}

#[test]
fn token_is_never_given_twice() {
    let mut sessions = Sessions::default();
    assert!(sessions.open(&[7; 32], "alice".to_string()).is_some());
    assert_eq!(sessions.open(&[7; 32], "mallory".to_string()), None);
    let cookie = format!("pv_session={}", to_hex(&[7; 32]));
    assert_eq!(require_session(&sessions, &cookie), Ok("alice".to_string()));
}

#[test]
fn cookie_without_a_session_is_refused() {
    let mut sessions = Sessions::new();
    sessions.open(&[1], "alice".to_string());
    for cookie in ["", "pv_session", "pv_session=", "pv_session=02", "xpv_session=01", "a=pv_session=01"] {
        assert_eq!(require_session(&sessions, cookie), Err(AuthError::NoSession), "{cookie}");
    }
}

#[test]
fn first_pair_of_the_name_counts() {
    assert_eq!(session_token("pv_session=1;pv_session=2"), Some("1".to_string()));
    assert_eq!(session_token("a=b;   pv_session=c=d"), Some("c=d".to_string()));
    assert_eq!(session_token(";;"), None);
}

#[test]
fn token_is_handed_out_where_scripts_do_not_see_it() {
    assert_eq!(
        set_cookie("00ff"),
        "pv_session=00ff; Path=/; HttpOnly; Secure; SameSite=Lax"
    );
}
