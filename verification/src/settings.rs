//! The configuration that one run works from.

use vstd::prelude::*;
use crate::nix_helper::{get_hostname, get_user_home};

verus! {

/// The views of the strings of `v`.
pub open spec fn strings(v: Seq<String>) -> Seq<Seq<char>> {
    v.map_values(|s: String| s@)
}

/// A copy of a vector of strings.
pub fn clone_strings(v: &Vec<String>) -> (out: Vec<String>)
    ensures
        strings(out@) == strings(v@),
{
    let mut out: Vec<String> = Vec::new();
    let mut i: usize = 0;
    while i < v.len()
        invariant
            i <= v.len(),
            strings(out@) == strings(v@).subrange(0, i as int),
        decreases v.len() - i,
    {
        let ghost before = out@;
        out.push(v[i].clone());
        assert(strings(out@) =~= strings(before).push(v@[i as int]@));
        i = i + 1;
        assert(strings(out@) =~= strings(v@).subrange(0, i as int));
    }
    assert(strings(v@).subrange(0, v.len() as int) =~= strings(v@));
    out
}

/// `a` followed by `b`.
pub fn chain_strings(a: Vec<String>, b: Vec<String>) -> (out: Vec<String>)
    ensures
        strings(out@) == strings(a@) + strings(b@),
{
    let mut out = a;
    let mut tail = b;
    out.append(&mut tail);
    assert(strings(out@) =~= strings(a@) + strings(b@));
    out
}

/// What a run is asked to do.
#[derive(Clone, Debug, PartialEq, Eq)]
pub struct Settings {
    pub tags: Vec<String>,
    pub excludes: Vec<String>,
    pub includes: Vec<String>,
    pub directories: Vec<String>,
    pub destination: String,
    pub hostname: String,
    pub force: bool,
    pub down: bool,
    pub dry_run: bool,
    pub verbose: u8,
}

/// The mathematical value of a `Settings`.
pub struct SettingsView {
    pub tags: Seq<Seq<char>>,
    pub excludes: Seq<Seq<char>>,
    pub includes: Seq<Seq<char>>,
    pub directories: Seq<Seq<char>>,
    pub destination: Seq<char>,
    pub hostname: Seq<char>,
    pub force: bool,
    pub down: bool,
    pub dry_run: bool,
    pub verbose: u8,
}

impl View for Settings {
    type V = SettingsView;

    open spec fn view(&self) -> SettingsView {
        SettingsView {
            tags: strings(self.tags@),
            excludes: strings(self.excludes@),
            includes: strings(self.includes@),
            directories: strings(self.directories@),
            destination: self.destination@,
            hostname: self.hostname@,
            force: self.force,
            down: self.down,
            dry_run: self.dry_run,
            verbose: self.verbose,
        }
    }
}

/// The package directory that is scanned when none is named: `.dotfiles` in the home directory.
pub open spec fn default_package(home: Seq<char>) -> Seq<char> {
    home + "/.dotfiles"@
}

/// `b` where it is not empty, else `a`.
pub open spec fn later_text(a: Seq<char>, b: Seq<char>) -> Seq<char> {
    if b.len() == 0 {
        a
    } else {
        b
    }
}

/// Two configurations as one: the lists of the first followed by those of
/// the second, the second's destination and host name where it names one,
/// each switch on where either has it on, and the verbosities or-ed bit by bit.
pub open spec fn merged(a: SettingsView, b: SettingsView) -> SettingsView {
    SettingsView {
        tags: a.tags + b.tags,
        excludes: a.excludes + b.excludes,
        includes: a.includes + b.includes,
        directories: a.directories + b.directories,
        destination: later_text(a.destination, b.destination),
        hostname: later_text(a.hostname, b.hostname),
        force: a.force || b.force,
        down: a.down || b.down,
        dry_run: a.dry_run || b.dry_run,
        verbose: a.verbose | b.verbose,
    }
}

/// A configuration with what it leaves open filled in from the machine.
pub open spec fn completed(s: SettingsView, home: Seq<char>, hostname: Seq<char>) -> SettingsView {
    SettingsView {
        directories: if s.directories.len() == 0 {
            seq![default_package(home)]
        } else {
            s.directories
        },
        destination: later_text(home, s.destination),
        hostname: later_text(hostname, s.hostname),
        ..s
    }
}

/// The configuration that names nothing.
pub open spec fn empty_settings() -> SettingsView {
    SettingsView {
        tags: Seq::empty(),
        excludes: Seq::empty(),
        includes: Seq::empty(),
        directories: Seq::empty(),
        destination: Seq::empty(),
        hostname: Seq::empty(),
        force: false,
        down: false,
        dry_run: false,
        verbose: 0,
    }
}

/// The overlay folders that are active: one `tag-` folder for each tag, in
/// order, then the `host-` folder where a host name is set.
pub open spec fn special_folders(tags: Seq<Seq<char>>, hostname: Seq<char>) -> Seq<Seq<char>> {
    let tagged = tags.map_values(|t: Seq<char>| "tag-"@ + t);
    if hostname.len() == 0 {
        tagged
    } else {
        tagged.push("host-"@ + hostname)
    }
}

impl Settings {
    /// The configuration of this machine where nothing was asked for;
    /// nothing where the machine does not give its name or the home
    /// directory of the person who runs the program.
    pub fn defaults() -> (res: Option<Settings>)
        ensures
            res matches Some(settings) ==> exists|home: Seq<char>, hostname: Seq<char>|
                settings@ == completed(empty_settings(), home, hostname),
    {
        match get_user_home() {
            None => None,
            Some(home) => match get_hostname() {
                None => None,
                Some(hostname) => Some(Settings::defaults_from(home.as_str(), hostname.as_str())),
            },
        }
    }

    /// The configuration of a machine for which nothing was asked.
    pub fn defaults_from(home: &str, hostname: &str) -> (res: Settings)
        ensures
            res@ == completed(empty_settings(), home@, hostname@),
    {
        Settings::default().with_defaults_from(home, hostname)
    }

    /// Whether filling what is left open takes the home directory.
    pub open spec fn wants_home(&self) -> bool {
        self@.directories.len() == 0 || self@.destination.len() == 0
    }

    /// Whether filling what is left open takes the name of the machine.
    pub open spec fn wants_hostname(&self) -> bool {
        self@.hostname.len() == 0
    }

    /// Fills what is left open from this machine. The machine is asked
    /// only for what is missing: a configuration that leaves nothing open
    /// comes back as it is. Nothing comes back where the machine does not
    /// give what is missing.
    pub fn with_defaults(self) -> (res: Option<Settings>)
        ensures
            !self.wants_home() && !self.wants_hostname() ==> res is Some,
            res matches Some(settings) ==> exists|home: Seq<char>, hostname: Seq<char>|
                settings@ == completed(self@, home, hostname),
    {
        let wants_home = self.directories.len() == 0 || self.destination.as_str().unicode_len() == 0;
        let wants_hostname = self.hostname.as_str().unicode_len() == 0;
        let home = if wants_home {
            match get_user_home() {
                Some(home) => home,
                None => {
                    return None;
                },
            }
        } else {
            String::new()
        };
        let hostname = if wants_hostname {
            match get_hostname() {
                Some(hostname) => hostname,
                None => {
                    return None;
                },
            }
        } else {
            String::new()
        };
        Some(self.with_defaults_from(home.as_str(), hostname.as_str()))
    }

    /// Fills what is left open: the package directory and the destination
    /// from the home directory, the host name from the machine's.
    pub fn with_defaults_from(self, home: &str, hostname: &str) -> (res: Settings)
        ensures
            res@ == completed(self@, home@, hostname@),
    {
        let directories = if self.directories.len() == 0 {
            let package = home.to_owned().concat("/.dotfiles");
            let v = vec![package];
            assert(strings(v@) =~= seq![default_package(home@)]);
            v
        } else {
            self.directories
        };
        let destination = if self.destination.as_str().unicode_len() == 0 {
            home.to_owned()
        } else {
            self.destination
        };
        let host = if self.hostname.as_str().unicode_len() == 0 {
            hostname.to_owned()
        } else {
            self.hostname
        };
        Settings {
            tags: self.tags,
            excludes: self.excludes,
            includes: self.includes,
            directories,
            destination,
            hostname: host,
            force: self.force,
            down: self.down,
            dry_run: self.dry_run,
            verbose: self.verbose,
        }
    }

    /// Lays `other` over `self`.
    pub fn merge(self, other: Settings) -> (res: Settings)
        ensures
            res@ == merged(self@, other@),
    {
        let destination = if other.destination.as_str().unicode_len() == 0 {
            self.destination
        } else {
            other.destination
        };
        let hostname = if other.hostname.as_str().unicode_len() == 0 {
            self.hostname
        } else {
            other.hostname
        };
        Settings {
            tags: chain_strings(self.tags, other.tags),
            excludes: chain_strings(self.excludes, other.excludes),
            includes: chain_strings(self.includes, other.includes),
            directories: chain_strings(self.directories, other.directories),
            destination,
            hostname,
            force: self.force || other.force,
            down: self.down || other.down,
            dry_run: self.dry_run || other.dry_run,
            verbose: self.verbose | other.verbose,
        }
    }

    /// The names of the overlay folders that are active.
    pub fn special_folder_vec(&self) -> (res: Vec<String>)
        ensures
            strings(res@) == special_folders(self@.tags, self@.hostname),
    {
        let mut res: Vec<String> = Vec::new();
        let ghost tagged = self@.tags.map_values(|t: Seq<char>| "tag-"@ + t);
        let mut i: usize = 0;
        while i < self.tags.len()
            invariant
                i <= self.tags.len(),
                tagged == self@.tags.map_values(|t: Seq<char>| "tag-"@ + t),
                strings(res@) == tagged.subrange(0, i as int),
            decreases self.tags.len() - i,
        {
            let folder = "tag-".to_owned().concat(self.tags[i].as_str());
            let ghost before = res@;
            res.push(folder);
            assert(strings(res@) =~= strings(before).push(folder@));
            assert(folder@ == tagged[i as int]);
            i = i + 1;
            assert(strings(res@) =~= tagged.subrange(0, i as int));
        }
        assert(tagged.subrange(0, self.tags.len() as int) =~= tagged);
        if self.hostname.as_str().unicode_len() > 0 {
            let folder = "host-".to_owned().concat(self.hostname.as_str());
            let ghost before = res@;
            res.push(folder);
            assert(strings(res@) =~= strings(before).push(folder@));
        }
        res
    }

    /// A copy of this configuration.
    pub fn duplicate(&self) -> (res: Settings)
        ensures
            res@ == self@,
    {
        Settings {
            tags: clone_strings(&self.tags),
            excludes: clone_strings(&self.excludes),
            includes: clone_strings(&self.includes),
            directories: clone_strings(&self.directories),
            destination: self.destination.clone(),
            hostname: self.hostname.clone(),
            force: self.force,
            down: self.down,
            dry_run: self.dry_run,
            verbose: self.verbose,
        }
    }
}

impl Default for Settings {
    fn default() -> (res: Settings)
        ensures
            res@ == empty_settings(),
    {
        let res = Settings {
            tags: Vec::new(),
            excludes: Vec::new(),
            includes: Vec::new(),
            directories: Vec::new(),
            destination: String::new(),
            hostname: String::new(),
            force: false,
            down: false,
            dry_run: false,
            verbose: 0,
        };
        assert(res@.tags =~= Seq::<Seq<char>>::empty());
        assert(res@.excludes =~= Seq::<Seq<char>>::empty());
        assert(res@.includes =~= Seq::<Seq<char>>::empty());
        assert(res@.directories =~= Seq::<Seq<char>>::empty());
        res
    }
}

} // verus!
