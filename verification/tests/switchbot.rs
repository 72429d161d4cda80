use onair_bot::daemon::on_off;
use onair_bot::switchbot::{
    check_reply, millis_text, reply_result, sign, unix_millis, ApiReply, Command, Retry, RetryStep, SwitchBot,
};

#[test]
fn sign_matches_known_vector() {
    // Reference value computed independently with:
    //   printf '%s' 'test-token1700000000000test-nonce' \
    //     | openssl dgst -sha256 -hmac 'test-secret' -binary | base64
    let signature = sign("test-token", "test-secret", "1700000000000", "test-nonce");
    assert_eq!(signature, "BQDXIXQGKZ4CKHQB4TTCI1Y0UKNZ9BXLW9EPD4M3RQE=");
}

#[test]
fn sign_is_uppercase_and_deterministic() {
    let a = sign("tok", "sec", "1", "n");
    let b = sign("tok", "sec", "1", "n");
    assert_eq!(a, b);
    assert_eq!(a, a.to_uppercase());
}

#[test]
fn sign_changes_with_every_input() {
    let base = sign("tok", "sec", "1", "n");
    assert_ne!(base, sign("TOK", "sec", "1", "n"));
    assert_ne!(base, sign("tok", "SEC", "1", "n"));
    assert_ne!(base, sign("tok", "sec", "2", "n"));
    assert_ne!(base, sign("tok", "sec", "1", "N"));
}

#[test]
fn sign_is_44_characters_of_the_upper_base64_alphabet() {
    for (token, secret) in [("", ""), ("a", "b"), ("töken", "sécret"), ("x".repeat(200).as_str(), "k")] {
        let s = sign(token, secret, "0", "");
        assert_eq!(s.chars().count(), 44);
        assert!(s.ends_with('='));
        assert!(!s[..43].contains('='));
        assert!(s
            .chars()
            .all(|c| c.is_ascii_uppercase() || c.is_ascii_digit() || c == '+' || c == '/' || c == '='));
    }
}

#[test]
fn command_names_and_state_choice() {
    assert_eq!(Command::for_state(true), Command::TurnOn);
    assert_eq!(Command::for_state(false), Command::TurnOff);
    assert_eq!(Command::TurnOn.name(), "turnOn");
    assert_eq!(Command::TurnOff.name(), "turnOff");
    assert_eq!(on_off(true), "ON");
    assert_eq!(on_off(false), "OFF");
}

#[test]
fn request_carries_url_headers_and_body() {
    let bot = SwitchBot::new("test-token".to_string(), "test-secret".to_string(), "DEV1".to_string());
    let request = bot.request(Command::TurnOn, "1700000000000", "test-nonce");
    assert_eq!(request.url, "https://api.switch-bot.com/v1.1/devices/DEV1/commands");
    let headers: Vec<(&str, &str)> =
        request.headers.iter().map(|(k, v)| (k.as_str(), v.as_str())).collect();
    assert_eq!(
        headers,
        [
            ("Authorization", "test-token"),
            ("sign", "BQDXIXQGKZ4CKHQB4TTCI1Y0UKNZ9BXLW9EPD4M3RQE="),
            ("t", "1700000000000"),
            ("nonce", "test-nonce"),
            ("Content-Type", "application/json; charset=utf8"),
        ]
    );
    assert_eq!(
        request.body,
        r#"{"command":"turnOn","commandType":"command","parameter":"default"}"#
    );
    let off = bot.request(Command::TurnOff, "1", "n");
    assert_eq!(
        off.body,
        r#"{"command":"turnOff","commandType":"command","parameter":"default"}"#
    );
}

#[test]
fn request_now_is_stamped_with_time_and_a_fresh_uuid() {
    let bot = SwitchBot::new("tok".to_string(), "sec".to_string(), "dev".to_string());
    let first = bot.request_now(Command::TurnOff);
    let second = bot.request_now(Command::TurnOff);
    let header = |r: &onair_bot::switchbot::SignedRequest, name: &str| {
        r.headers.iter().find(|(k, _)| k == name).unwrap().1.clone()
    };
    let t = header(&first, "t");
    assert!(!t.is_empty() && t.chars().all(|c| c.is_ascii_digit()));
    assert!(t.parse::<u128>().unwrap() > 1_600_000_000_000);
    let nonce = header(&first, "nonce");
    assert_eq!(nonce.len(), 36);
    for (i, c) in nonce.chars().enumerate() {
        if [8, 13, 18, 23].contains(&i) {
            assert_eq!(c, '-');
        } else {
            assert!(c.is_ascii_digit() || ('a'..='f').contains(&c));
        }
    }
    assert_ne!(nonce, header(&second, "nonce"));
    assert_eq!(header(&first, "sign"), sign("tok", "sec", &t, &nonce));
}

#[test]
fn unix_millis_is_decimal_and_recent() {
    let t = unix_millis();
    assert!(t.chars().all(|c| c.is_ascii_digit()));
    assert!(t.parse::<u128>().unwrap() > 1_600_000_000_000);
    assert_eq!(millis_text(None), "0");
    assert_eq!(millis_text(Some(0)), "0");
    assert_eq!(millis_text(Some(1700000000000)), "1700000000000");
    assert_eq!(millis_text(Some(u128::MAX)), u128::MAX.to_string());
}

#[test]
fn reply_with_status_100_is_success() {
    let reply = ApiReply {
        status_code: Some(100),
        message: Some("success".to_string()),
        text: "{}".to_string(),
    };
    assert_eq!(check_reply(&reply), Ok(()));
}

#[test]
fn reply_with_other_status_is_an_error() {
    let reply = ApiReply {
        status_code: Some(190),
        message: Some("device internal error".to_string()),
        text: "{}".to_string(),
    };
    assert_eq!(
        check_reply(&reply),
        Err("API returned statusCode 190: device internal error".to_string())
    );
    let reply = ApiReply { status_code: Some(-5), message: None, text: "{}".to_string() };
    assert_eq!(
        check_reply(&reply),
        Err("API returned statusCode -5: no message".to_string())
    );
    let reply = ApiReply { status_code: Some(i64::MIN), message: None, text: String::new() };
    assert_eq!(
        check_reply(&reply),
        Err(format!("API returned statusCode {}: no message", i64::MIN))
    );
}

#[test]
fn reply_without_status_is_an_error() {
    let reply = ApiReply {
        status_code: None,
        message: None,
        text: r#"{"message":"unauthorized"}"#.to_string(),
    };
    assert_eq!(
        check_reply(&reply),
        Err(r#"API response is missing statusCode: {"message":"unauthorized"}"#.to_string())
    );
}

fn run(command: Command, outcomes: &[Result<(), &str>]) -> (usize, Result<(), String>) {
    let mut retry = Retry::new(command);
    let mut used = 0;
    loop {
        assert_eq!(retry.attempt() as usize, used + 1);
        let outcome = outcomes[used].map_err(|e| e.to_string());
        used += 1;
        match retry.record(outcome) {
            RetryStep::Again(next) => retry = next,
            RetryStep::Done(result) => return (used, result),
        }
    }
}

#[test]
fn retry_stops_at_the_first_success() {
    assert_eq!(run(Command::TurnOn, &[Ok(())]), (1, Ok(())));
    assert_eq!(run(Command::TurnOn, &[Err("a"), Ok(())]), (2, Ok(())));
    assert_eq!(run(Command::TurnOn, &[Err("a"), Err("b"), Ok(())]), (3, Ok(())));
}

#[test]
fn retry_gives_up_after_three_failures_with_the_last_error() {
    assert_eq!(
        run(Command::TurnOff, &[Err("a"), Err("b"), Err("c"), Ok(())]),
        (3, Err("SwitchBot turnOff failed after 3 attempts: c".to_string()))
    );
}

#[test]
fn reply_body_with_status_100_is_success() {
    assert_eq!(reply_result(r#"{"statusCode":100,"body":{},"message":"success"}"#), Ok(()));
}

#[test]
fn reply_body_with_other_status_reports_code_and_message() {
    assert_eq!(
        reply_result(r#"{"statusCode": 161, "message": "device offline"}"#),
        Err("API returned statusCode 161: device offline".to_string())
    );
    assert_eq!(
        reply_result(r#"{"statusCode": 190, "message": 5}"#),
        Err("API returned statusCode 190: no message".to_string())
    );
}

#[test]
fn reply_body_without_integer_status_shows_the_compact_json() {
    assert_eq!(
        reply_result(r#"{ "message" : "unauthorized" }"#),
        Err(r#"API response is missing statusCode: {"message":"unauthorized"}"#.to_string())
    );
    assert_eq!(
        reply_result(r#"{"statusCode": 100.0}"#),
        Err(r#"API response is missing statusCode: {"statusCode":100.0}"#.to_string())
    );
}

#[test]
fn reply_body_that_is_not_json_is_a_parse_error() {
    let err = reply_result("<html>bad gateway</html>").unwrap_err();
    assert!(err.starts_with("could not parse API response: "), "unexpected error: {err}");
    assert!(err.len() > "could not parse API response: ".len());
}
