//! The user store and sessions.

use near_rss::database::users::{User, UserStore};
use near_rss::errors::Errors;
use near_rss::services::Services;

fn same_user(a: &User, b: &User) -> bool {
    a.id == b.id && a.email == b.email && a.password_hash == b.password_hash && a.token == b.token
}

#[test]
fn create_user_should_work() {
    let mut store = UserStore::new();
    let created_user = store.create_user("email", "password");
    assert_eq!(created_user.email, "email");
    assert_ne!(created_user.password_hash, "password");
}

#[test]
fn create_users_with_same_emails_should_not_change_password() {
    let mut store = UserStore::new();
    assert_eq!(store.create_user("email", "1").email, "email");
    assert_eq!(store.create_user("email", "2").email, "email");
    assert!(store.get_user_by_email("email").unwrap().match_password("1"));
}

#[test]
fn get_existing_users_should_succeed() {
    let mut store = UserStore::new();
    let created_user = store.create_user("email", "");
    assert!(same_user(&store.get_user_by_id(&created_user.id).unwrap(), &created_user));
    assert!(same_user(&store.get_user_by_email("email").unwrap(), &created_user));
    assert!(same_user(&store.get_user_by_token(&created_user.token).unwrap(), &created_user));
}

#[test]
fn get_non_existing_users_should_fail() {
    let store = UserStore::new();
    assert!(store.get_user_by_id("id").is_none());
    assert!(store.get_user_by_email("email").is_none());
    assert!(store.get_user_by_token("token").is_none());
}

#[test]
fn hashing_is_deterministic_and_not_the_identity() {
    let a = User::hash_password("password");
    let b = User::hash_password("password");
    let c = User::hash_password("other");
    assert_eq!(a, b);
    assert_ne!(a, c);
    assert_ne!(a, "password");
    // the stored form is the decimal rendering of std's default hasher
    let mut hasher = std::collections::hash_map::DefaultHasher::new();
    std::hash::Hasher::write(&mut hasher, "password".as_bytes());
    assert_eq!(a, std::hash::Hasher::finish(&hasher).to_string());
}

#[test]
fn login_checks_email_then_password() {
    let mut services = Services::new();
    let user = services.register("someone@example.com", "hunter2");
    assert!(matches!(
        services.login("nobody@example.com", "hunter2"),
        Err(Errors::NonExistUser { .. })
    ));
    assert!(matches!(
        services.login("someone@example.com", "wrong"),
        Err(Errors::WrongPassword)
    ));
    let creds = services.login("someone@example.com", "hunter2").unwrap();
    assert_eq!(creds.sid, creds.lsid);
    assert_eq!(creds.cltoken, user.token);
}

#[test]
fn get_user_resolves_tokens() {
    let mut services = Services::new();
    let user = services.register("someone@example.com", "hunter2");
    let found = services.get_user(&user.token).unwrap();
    assert_eq!(found.email, "someone@example.com");
    assert!(matches!(
        services.get_user("sid.99.id"),
        Err(Errors::InvalidToken { .. })
    ));
}
