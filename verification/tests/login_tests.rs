use mud_core::login::{LoginManager, User};

#[test]
fn test_hash_twice() {
    // Hashing one password twice gives one digest.
    let password = "hunter2";
    let user1 = User::new("user", password);
    let user2 = User::new("user", password);
    assert_eq!(user1.password, user2.password);
}

#[test]
fn test_hashing_different_passwords() {
    let user1 = User::new("user", "hunter2");
    let user2 = User::new("user", "hunter3");
    assert_ne!(user1.password, user2.password);
}

#[test]
fn test_user_creation() {
    let user = User::new("alice", "password123");
    assert_eq!(user.username, "alice");
    assert_ne!(user.password, "password123");
}

#[test]
fn test_verify_password() {
    let user = User::new("bob", "secret");
    assert!(user.verify_password("secret"));
    assert!(!user.verify_password("wrong_password"));
}

#[test]
fn test_login_manager_add_and_verify() {
    let mut manager = LoginManager::new();
    manager.add_user("charlie", "mypassword");
    assert!(manager.verify_user("charlie", "mypassword").is_some());
    assert!(manager.verify_user("charlie", "wrongpassword").is_none());
    assert!(manager.verify_user("unknown", "mypassword").is_none());
}

#[test]
fn verify_user_returns_matching_record() {
    let mut manager = LoginManager::new();
    manager.add_user("dora", "pw1");
    manager.add_user("ed", "pw2");
    let found = manager.verify_user("ed", "pw2").expect("ed should verify");
    assert_eq!(found.username, "ed");
}

#[test]
fn stored_password_is_uppercase_hex_digest() {
    // SHA-256 written as upper-case hexadecimal: 64 hex digits.
    let user = User::new("alice", "password123");
    assert_eq!(user.password.len(), 64);
    assert!(user.password.chars().all(|c| c.is_ascii_hexdigit()));
    assert!(!user.password.chars().any(|c| c.is_ascii_lowercase()));
}
