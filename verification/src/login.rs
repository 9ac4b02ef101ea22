//! Credential registry: users with hashed passwords.
//!
//! Passwords are never stored; a user record keeps the SHA-256 digest of
//! the password, written as upper-case hexadecimal.  Verification hashes
//! the offered password and compares digests.

use sha2::Digest;
use vstd::prelude::*;

use crate::text::str_eq;

verus! {

/// The digest a password hashes to: SHA-256 of the UTF-8 bytes, as
/// upper-case hexadecimal.  The result depends on the password alone.
pub uninterp spec fn sha256_hex(password: Seq<char>) -> Seq<char>;

/// Relies on `sha2::Sha256` (through the `Digest` trait: `new`, `update`,
/// `finalize`) to compute the SHA-256 digest of the password's bytes; the
/// digest is a pure function of its input, here rendered as upper-case hex.
#[verifier::external_body]
fn hash_password(password: &str) -> (r: String)
    ensures
        r@ == sha256_hex(password@),
{
    let mut hasher = sha2::Sha256::new();
    hasher.update(password);
    format!("{:X}", hasher.finalize())
}

/// One registered user: the username and the password's digest.
#[derive(Debug)]
pub struct User {
    pub username: String,
    pub password: String,
}

/// Mathematical model of a [`User`].
pub struct UserView {
    pub username: Seq<char>,
    pub password: Seq<char>,
}

impl View for User {
    type V = UserView;

    open spec fn view(&self) -> UserView {
        UserView { username: self.username@, password: self.password@ }
    }
}

impl DeepView for User {
    type V = UserView;

    open spec fn deep_view(&self) -> UserView {
        self.view()
    }
}

impl User {
    /// Create a user record, hashing the password.
    pub fn new(username: &str, password: &str) -> (r: Self)
        ensures
            r.username@ == username@,
            r.password@ == sha256_hex(password@),
    {
        User { username: username.to_owned(), password: hash_password(password) }
    }

    /// Whether the offered password hashes to this user's stored digest.
    pub fn verify_password(&self, password: &str) -> (r: bool)
        ensures
            r == (self.password@ == sha256_hex(password@)),
    {
        self.password == hash_password(password)
    }
}

/// True when `u` matches the credentials: same username, and the password
/// hashes to the stored digest.
pub open spec fn credentials_match(u: UserView, username: Seq<char>, password: Seq<char>) -> bool {
    u.username == username && u.password == sha256_hex(password)
}

/// The first user matching the credentials, if any.
pub open spec fn find_user(users: Seq<UserView>, username: Seq<char>, password: Seq<char>) -> Option<
    UserView,
>
    decreases users.len(),
{
    if users.len() == 0 {
        None
    } else if credentials_match(users[0], username, password) {
        Some(users[0])
    } else {
        find_user(users.drop_first(), username, password)
    }
}

/// When the first `j` users do not match but the `j`-th does, `find_user`
/// returns the `j`-th user.
pub proof fn lemma_find_user_first_index(
    users: Seq<UserView>,
    username: Seq<char>,
    password: Seq<char>,
    j: int,
)
    requires
        0 <= j < users.len(),
        credentials_match(users[j], username, password),
        forall|b: int| 0 <= b < j ==> !credentials_match(#[trigger] users[b], username, password),
    ensures
        find_user(users, username, password) == Some(users[j]),
    decreases j,
{
    if j > 0 {
        assert forall|b: int| 0 <= b < j - 1 implies !credentials_match(
            #[trigger] users.drop_first()[b],
            username,
            password,
        ) by {
            assert(users.drop_first()[b] == users[b + 1]);
        }
        assert(users.drop_first()[j - 1] == users[j]);
        lemma_find_user_first_index(users.drop_first(), username, password, j - 1);
    }
}

/// `find_user` fails exactly when no user matches.
pub proof fn lemma_find_user_none(users: Seq<UserView>, username: Seq<char>, password: Seq<char>)
    requires
        forall|b: int|
            0 <= b < users.len() ==> !credentials_match(#[trigger] users[b], username, password),
    ensures
        find_user(users, username, password) is None,
    decreases users.len(),
{
    if users.len() > 0 {
        assert forall|b: int| 0 <= b < users.drop_first().len() implies !credentials_match(
            #[trigger] users.drop_first()[b],
            username,
            password,
        ) by {
            assert(users.drop_first()[b] == users[b + 1]);
        }
        lemma_find_user_none(users.drop_first(), username, password);
    }
}

/// The registry of users.
#[derive(Debug)]
pub struct LoginManager {
    pub users: Vec<User>,
}

impl LoginManager {
    /// An empty registry.  Loading stored records from disk is the caller's
    /// concern; it can fill `users` from whatever storage it uses.
    pub fn new() -> (r: Self)
        ensures
            r.users.deep_view() == Seq::<UserView>::empty(),
    {
        let users: Vec<User> = Vec::new();
        proof {
            assert(users.deep_view() =~= Seq::<UserView>::empty());
        }
        LoginManager { users }
    }

    /// Register a user, hashing the password.
    pub fn add_user(&mut self, username: &str, password: &str)
        ensures
            final(self).users.deep_view() =~= old(self).users.deep_view().push(
                UserView { username: username@, password: sha256_hex(password@) },
            ),
    {
        proof {
            assert(self.users.deep_view().len() == self.users@.len());
        }
        let ghost prev = self.users.deep_view();
        let user = User::new(username, password);
        self.users.push(user);
        proof {
            assert forall|j: int| 0 <= j < self.users.deep_view().len() implies self
                .users
                .deep_view()[j] == prev.push(
                UserView { username: username@, password: sha256_hex(password@) },
            )[j] by {
                if j < prev.len() {
                    assert(self.users.deep_view()[j] == prev[j]);
                } else {
                    assert(self.users.deep_view()[j] == self.users@[j].view());
                }
            }
            assert(self.users.deep_view() =~= prev.push(
                UserView { username: username@, password: sha256_hex(password@) },
            ));
        }
    }

    /// Look the credentials up: the first user whose username matches and
    /// whose stored digest the offered password hashes to, if any.
    pub fn verify_user(&self, username: &str, password: &str) -> (r: Option<&User>)
        ensures
            match r {
                Some(u) => find_user(self.users.deep_view(), username@, password@) == Some(u@),
                None => find_user(self.users.deep_view(), username@, password@) is None,
            },
    {
        let ghost uv = self.users.deep_view();
        let hashed = hash_password(password);
        let mut j: usize = 0;
        while j < self.users.len()
            invariant
                uv == self.users.deep_view(),
                j <= self.users.len(),
                hashed@ == sha256_hex(password@),
                forall|b: int|
                    0 <= b < j ==> !credentials_match(#[trigger] uv[b], username@, password@),
            decreases self.users.len() - j,
        {
            let u = &self.users[j];
            if str_eq(u.username.as_str(), username) && u.password == hashed {
                proof {
                    assert(credentials_match(uv[j as int], username@, password@));
                    lemma_find_user_first_index(uv, username@, password@, j as int);
                }
                return Some(&self.users[j]);
            }
            proof {
                assert(!credentials_match(uv[j as int], username@, password@));
            }
            j = j + 1;
        }
        proof {
            lemma_find_user_none(uv, username@, password@);
        }
        None
    }
}

} // verus!
