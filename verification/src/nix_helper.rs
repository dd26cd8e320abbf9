//! What depends on the machine: its name, the home directory of the
//! person who runs the program, and where the configuration files are
//! looked for.

use vstd::prelude::*;
use crate::settings::strings;

verus! {

/// `nix::unistd::gethostname`: the name of this machine, or nothing where
/// the system gives none or the name is not valid UTF-8. Nothing is promised
/// of the name.
#[verifier::external_body]
pub fn get_hostname() -> (res: Option<String>)
{
    nix::unistd::gethostname().ok().and_then(|name| name.into_string().ok())
}

/// `nix::unistd::User::from_uid`, for the user that `nix::unistd::Uid::current`
/// names: the home directory of that user, or nothing where the system knows
/// no such user or the directory is not valid UTF-8. Nothing is promised of
/// the directory.
#[verifier::external_body]
pub fn get_user_home() -> (res: Option<String>)
{
    nix::unistd::User::from_uid(nix::unistd::Uid::current())
        .ok()
        .flatten()
        .and_then(|user| user.dir.into_os_string().into_string().ok())
}

/// A path without the slash at its end, if it ends in one.
pub open spec fn without_last_slash(entry: Seq<char>) -> Seq<char> {
    if entry.len() > 0 && entry.last() == '/' {
        entry.drop_last()
    } else {
        entry
    }
}

/// Removes the slash at the end of a path, if it ends in one.
pub fn remove_last_slash(entry: String) -> (res: String)
    ensures
        res@ == without_last_slash(entry@),
{
    let n = entry.as_str().unicode_len();
    if n > 0 && entry.as_str().get_char(n - 1) == '/' {
        let cut = entry.as_str().substring_char(0, n - 1).to_owned();
        assert(entry@.subrange(0, n - 1) =~= entry@.drop_last());
        cut
    } else {
        entry
    }
}

/// The places where a configuration file is looked for, in the order in
/// which they are read, for a person whose home directory is `home`.
pub open spec fn config_files(home: Seq<char>) -> Seq<Seq<char>> {
    seq![
        home + "/.parorc"@,
        home + "/.config/paro/parorc"@,
        home + "/.dotfiles/parorc"@,
        home + "/.dotfiles/config/paro/parorc"@,
    ]
}

/// The places where a configuration file is looked for, for the person
/// who runs the program; nothing where the home directory of that person
/// is not to be had.
pub fn get_default_config_files() -> (res: Option<Vec<String>>)
    ensures
        res matches Some(files) ==> exists|home: Seq<char>| strings(files@) == config_files(home),
{
    match get_user_home() {
        Some(home) => Some(config_files_in(home.as_str())),
        None => None,
    }
}

/// The places where a configuration file is looked for, for a person whose
/// home directory is `home_dir`.
pub fn config_files_in(home_dir: &str) -> (res: Vec<String>)
    ensures
        strings(res@) == config_files(home_dir@),
{
    let res = vec![
        home_dir.to_owned().concat("/.parorc"),
        home_dir.to_owned().concat("/.config/paro/parorc"),
        home_dir.to_owned().concat("/.dotfiles/parorc"),
        home_dir.to_owned().concat("/.dotfiles/config/paro/parorc"),
    ];
    assert(strings(res@) =~= config_files(home_dir@));
    res
}

} // verus!
