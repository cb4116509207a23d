use book_store::models::{CreateBookRequest, User};
use book_store::security::{
    bearer_token, decide_login, login_outcome, token_claims, user_id_from_subject, LoginOutcome, UserLookup,
    TOKEN_LIFETIME_SECS,
};

fn request(title: &str, author: &str) -> CreateBookRequest {
    CreateBookRequest { title: title.to_string(), author: author.to_string() }
}

#[test]
fn valid_book_request_passes() {
    assert_eq!(request("Dune", "Frank Herbert").validate(), Ok(()));
    assert_eq!(request(&"t".repeat(255), "a").validate(), Ok(()));
    // Characters are counted, not bytes.
    assert_eq!(request(&"é".repeat(255), "a").validate(), Ok(()));
}

#[test]
fn invalid_book_request_lists_each_field() {
    assert_eq!(
        request("", "Someone").validate(),
        Err(vec!["title: Title must be between 1 and 255 characters".to_string()])
    );
    assert_eq!(
        request("Dune", &"a".repeat(256)).validate(),
        Err(vec!["author: Author must be between 1 and 255 characters".to_string()])
    );
    assert_eq!(
        request("", "").validate(),
        Err(vec![
            "title: Title must be between 1 and 255 characters".to_string(),
            "author: Author must be between 1 and 255 characters".to_string(),
        ])
    );
}

#[test]
fn bearer_token_is_second_field() {
    assert_eq!(bearer_token("Bearer abc.def"), Some("abc.def".to_string()));
    assert_eq!(bearer_token("Bearer a b"), Some("a".to_string()));
    assert_eq!(bearer_token("Bearer  x"), Some("".to_string()));
    assert_eq!(bearer_token("Bearer "), Some("".to_string()));
    assert_eq!(bearer_token("Bearer"), None);
    assert_eq!(bearer_token(""), None);
}

#[test]
fn token_expires_an_hour_after_issue() {
    let claims = token_claims("42".to_string(), 1_700_000_000);
    assert_eq!(claims.sub, "42");
    assert_eq!(claims.exp, 1_700_003_600);
    assert_eq!(TOKEN_LIFETIME_SECS, 3600);
}

#[test]
fn subject_parses_like_i32() {
    assert_eq!(user_id_from_subject("42"), Some(42));
    assert_eq!(user_id_from_subject("+7"), Some(7));
    assert_eq!(user_id_from_subject("-15"), Some(-15));
    assert_eq!(user_id_from_subject("007"), Some(7));
    assert_eq!(user_id_from_subject("2147483647"), Some(i32::MAX));
    assert_eq!(user_id_from_subject("-2147483648"), Some(i32::MIN));
    assert_eq!(user_id_from_subject("2147483648"), None);
    assert_eq!(user_id_from_subject("-2147483649"), None);
    assert_eq!(user_id_from_subject("99999999999999999999"), None);
    assert_eq!(user_id_from_subject(""), None);
    assert_eq!(user_id_from_subject("-"), None);
    assert_eq!(user_id_from_subject("+"), None);
    assert_eq!(user_id_from_subject("12a"), None);
    assert_eq!(user_id_from_subject(" 1"), None);
    for s in ["0", "-0", "123456", "+2147483647", "--1", "1.5"] {
        assert_eq!(user_id_from_subject(s), s.parse::<i32>().ok());
    }
}

fn user_with_hash(id: i32, hash: &str) -> User {
    User {
        id,
        username: "reader".to_string(),
        password: hash.to_string(),
        full_name: "A Reader".to_string(),
    }
}

#[test]
fn login_decision_follows_verdict() {
    assert_eq!(decide_login(5, Some(true)), LoginOutcome::Authorized(5));
    assert_eq!(decide_login(5, Some(false)), LoginOutcome::Unauthorized);
    assert_eq!(decide_login(5, None), LoginOutcome::Failed);
}

#[test]
fn login_checks_password_against_stored_hash() {
    let stored = bcrypt::hash("s3cret", 4).expect("hashing succeeds");
    let found = UserLookup::Found(user_with_hash(9, &stored));
    assert_eq!(login_outcome(&found, "s3cret"), LoginOutcome::Authorized(9));
    assert_eq!(login_outcome(&found, "wrong"), LoginOutcome::Unauthorized);
    let broken = UserLookup::Found(user_with_hash(9, "not-a-hash"));
    assert_eq!(login_outcome(&broken, "s3cret"), LoginOutcome::Failed);
    assert_eq!(login_outcome(&UserLookup::Missing, "s3cret"), LoginOutcome::Unauthorized);
    assert_eq!(login_outcome(&UserLookup::Failed, "s3cret"), LoginOutcome::Failed);
}
