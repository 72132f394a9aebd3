//! Account registry logic: credential lookup and account creation.  The
//! surrounding application owns reading and writing the registry file;
//! these functions decide over the in-memory registry alone.

use crate::models::{UserConfig, UserConfigEntry, UserEntryView};
use vstd::prelude::*;

verus! {

/// The registry entry matches the offered name and password hash.
pub open spec fn user_match(u: UserEntryView, name: Seq<char>, pass: Seq<char>) -> bool {
    u.username == name && u.password_hash == pass
}

/// Clone an optional string.
fn clone_opt(o: &Option<String>) -> (r: Option<String>)
    ensures
        r.deep_view() == o.deep_view(),
{
    match o {
        Some(s) => Some(s.clone()),
        None => None,
    }
}

/// Look the offered credentials up: the stored paths of the first
/// matching account, or nothing when no account matches.
pub fn verify_user(config: &UserConfig, username: &String, password: &String) -> (r: Option<
    (Option<String>, Option<String>),
>)
    ensures
        match r {
            Some(p) => exists|i: int|
                #![auto]
                0 <= i < config@.len() && user_match(config@[i], username@, password@) && (forall|
                    j: int,
                |
                    0 <= j < i ==> !user_match(config@[j], username@, password@))
                    && p.0.deep_view() == config@[i].data_storage_path && p.1.deep_view()
                    == config@[i].last_edited_file,
            None => forall|i: int|
                0 <= i < config@.len() ==> !user_match(
                    #[trigger] config@[i],
                    username@,
                    password@,
                ),
        },
{
    let n = config.users.len();
    for i in 0..n
        invariant
            n == config.users.len(),
            forall|j: int| 0 <= j < i ==> !user_match(#[trigger] config@[j], username@, password@),
    {
        let u = &config.users[i];
        assert(config@[i as int] == u@);
        if u.username == *username && u.password_hash == *password {
            return Some((clone_opt(&u.data_storage_path), clone_opt(&u.last_edited_file)));
        }
    }
    None
}

/// Create an account: refused when the name is taken, otherwise appended
/// to the registry with its own data directory under `users/`.
pub fn create_user(config: &mut UserConfig, username: &String, password_hash: &String) -> (created:
    bool)
    ensures
        created == !exists|i: int|
            0 <= i < old(config)@.len() && (#[trigger] old(config)@[i]).username == username@,
        created ==> final(config)@ == old(config)@.push(
            UserEntryView {
                username: username@,
                password_hash: password_hash@,
                data_storage_path: Some("users/"@ + username@),
                last_edited_file: None,
            },
        ),
        !created ==> final(config)@ == old(config)@,
{
    let n = config.users.len();
    for i in 0..n
        invariant
            n == config.users.len(),
            config@ == old(config)@,
            forall|j: int| 0 <= j < i ==> (#[trigger] config@[j]).username != username@,
    {
        let u = &config.users[i];
        assert(config@[i as int] == u@);
        if u.username == *username {
            return false;
        }
    }
    let dir = String::from_str("users/").concat(username.as_str());
    let entry = UserConfigEntry {
        username: username.clone(),
        password_hash: password_hash.clone(),
        data_storage_path: Some(dir),
        last_edited_file: None,
    };
    let ghost ev = entry@;
    config.users.push(entry);
    proof {
        assert(config@ =~= old(config)@.push(ev));
        assert(ev =~= (UserEntryView {
            username: username@,
            password_hash: password_hash@,
            data_storage_path: Some("users/"@ + username@),
            last_edited_file: None,
        }));
    }
    true
}

} // verus!
