//! Connection profiles and the file that keeps them.

use crate::address::{find, index_of, is_ipv6, parses_as_ipv6};
use crate::text::{append_number, decimal, has_char, joined, joined3, parse_number, parsed_number, trim, trim_end_matches, trim_start_matches, trimmed, without_leading, without_trailing, Class};
use std::path::PathBuf;
use vstd::prelude::*;

verus! {

/// The slowest rate that can be set, in KiB/s.
pub const RATE_MIN: u64 = 1;

/// The fastest rate that can be set, in KiB/s.
pub const RATE_MAX: u64 = 1_000_000;

/// Shown for a rate that cannot be set.
pub const RATE_ERROR: &'static str = "Rates must be whole numbers from 1 to 1,000,000 KiB/s.";

/// Shown for a port that cannot be used.
pub const PORT_ERROR: &'static str = "Ports must be whole numbers from 1 to 65535.";

/// Why profiles cannot be saved without a configuration directory.
pub const NO_CONFIG_DIRECTORY: &'static str = "Cannot locate the user configuration directory";

/// The extension of the file that is copied aside, in place of its own.
pub const BACKUP_EXTENSION: &'static str = "json.bak";

/// The extension of the file that is written first, in place of its own.
pub const TEMPORARY_EXTENSION: &'static str = "tmp";

/// Whether `rate` can be set.
pub open spec fn rate_in_range(rate: nat) -> bool {
    RATE_MIN <= rate <= RATE_MAX
}

/// The port that `text` names.
pub open spec fn port_of(text: Seq<char>) -> Option<u16> {
    match parsed_number(trimmed(text)) {
        Some(n) => if 0 < n <= u16::MAX {
            Some(n as u16)
        } else {
            None
        },
        None => None,
    }
}

/// The rate that `text` names.
pub open spec fn rate_of(text: Seq<char>) -> Option<u64> {
    match parsed_number(trimmed(text)) {
        Some(n) => if rate_in_range(n) {
            Some(n as u64)
        } else {
            None
        },
        None => None,
    }
}

/// Reads a port, from 1 to 65535.
pub fn parse_port(text: &str) -> (port: Option<u16>)
    ensures
        port == port_of(text@),
{
    match parse_number(trim(text)) {
        Some(n) => if 0 < n && n <= u16::MAX as u64 {
            Some(n as u16)
        } else {
            None
        },
        None => None,
    }
}

/// Reads a rate in KiB/s, from `RATE_MIN` to `RATE_MAX`.
pub fn parse_rate(text: &str) -> (rate: Option<u64>)
    ensures
        rate == rate_of(text@),
{
    match parse_number(trim(text)) {
        Some(n) => if RATE_MIN <= n && n <= RATE_MAX {
            Some(n)
        } else {
            None
        },
        None => None,
    }
}

/// A port that is written in decimal is read back, unless it is zero.
pub proof fn lemma_port_reads_back(port: u16)
    ensures
        port_of(decimal(port as nat)) == if port > 0 {
            Some(port)
        } else {
            None
        },
{
    crate::text::lemma_decimal_reads_back(port as nat);
}

/// A rate that is written in decimal is read back, if it is in range.
pub proof fn lemma_rate_reads_back(rate: u64)
    ensures
        rate_of(decimal(rate as nat)) == if rate_in_range(rate as nat) {
            Some(rate)
        } else {
            None
        },
{
    crate::text::lemma_decimal_reads_back(rate as nat);
}

/// Where to listen, where to forward to, and how fast.
#[derive(Debug)]
pub struct Profile {
    pub name: String,
    pub host: String,
    pub upstream_port: u16,
    pub local_port: u16,
    pub download_kib: u64,
    pub upload_kib: u64,
    pub limited: bool,
}

/// The contents of a `Profile`.
#[verifier::ext_equal]
pub struct ProfileView {
    pub name: Seq<char>,
    pub host: Seq<char>,
    pub upstream_port: u16,
    pub local_port: u16,
    pub download_kib: u64,
    pub upload_kib: u64,
    pub limited: bool,
}

impl View for Profile {
    type V = ProfileView;

    open spec fn view(&self) -> ProfileView {
        ProfileView {
            name: self.name@,
            host: self.host@,
            upstream_port: self.upstream_port,
            local_port: self.local_port,
            download_kib: self.download_kib,
            upload_kib: self.upload_kib,
            limited: self.limited,
        }
    }
}

impl Clone for Profile {
    fn clone(&self) -> (copy: Self)
        ensures
            copy == *self,
    {
        Profile {
            name: self.name.clone(),
            host: self.host.clone(),
            upstream_port: self.upstream_port,
            local_port: self.local_port,
            download_kib: self.download_kib,
            upload_kib: self.upload_kib,
            limited: self.limited,
        }
    }
}

impl PartialEq for Profile {
    fn eq(&self, other: &Self) -> (same: bool) {
        self.name == other.name && self.host == other.host && self.upstream_port
            == other.upstream_port && self.local_port == other.local_port && self.download_kib
            == other.download_kib && self.upload_kib == other.upload_kib && self.limited
            == other.limited
    }
}

impl vstd::std_specs::cmp::PartialEqSpecImpl for Profile {
    open spec fn obeys_eq_spec() -> bool {
        true
    }

    open spec fn eq_spec(&self, other: &Self) -> bool {
        self@ == other@
    }
}

impl Eq for Profile {

}

/// The part of `s` before the first `c`, or all of it where there is none.
pub open spec fn before(s: Seq<char>, c: char) -> Seq<char> {
    match index_of(s, c) {
        Some(i) => s.take(i),
        None => s,
    }
}

/// Whether `host` holds a character that no host name or address holds.
pub open spec fn looks_like_a_path(host: Seq<char>) -> bool {
    host.contains('/') || host.contains('\\') || host.contains(' ') || host.contains('\t')
        || host.contains('\n') || host.contains('\r')
}

/// Whether `host` carries a port: it holds a comma, or colons outside an IPv6 address.
pub open spec fn carries_a_port(host: Seq<char>) -> bool {
    host.contains(',') || (host.contains(':') && !is_ipv6(before(host, '%')))
}

impl ProfileView {
    /// The profile that a new user sees.
    pub open spec fn standard() -> ProfileView {
        ProfileView {
            name: "Local SQL Server"@,
            host: "127.0.0.1"@,
            upstream_port: 1433,
            local_port: 11433,
            download_kib: 128,
            upload_kib: 128,
            limited: false,
        }
    }

    /// The host without white space and brackets around it.
    pub open spec fn bare_host(self) -> Seq<char> {
        without_trailing(
            without_leading(trimmed(self.host), Class::OpenBracket),
            Class::CloseBracket,
        )
    }

    /// What is wrong with the profile, if anything: the first of the reasons below
    /// that holds.
    pub open spec fn problem(self) -> Option<Seq<char>> {
        if trimmed(self.name).len() == 0 {
            Some("Enter a profile name."@)
        } else if self.bare_host().len() == 0 {
            Some("Enter a destination host."@)
        } else if looks_like_a_path(self.bare_host()) {
            Some("Enter a hostname or IP address, not a URL or instance name."@)
        } else if carries_a_port(self.bare_host()) {
            Some("Enter the destination port in its own field, not in the host."@)
        } else if self.upstream_port == 0 || self.local_port == 0 {
            Some(PORT_ERROR@)
        } else if !rate_in_range(self.download_kib as nat) || !rate_in_range(
            self.upload_kib as nat,
        ) {
            Some(RATE_ERROR@)
        } else {
            None
        }
    }

    /// The destination as `host:port`, with brackets around an IPv6 address.
    pub open spec fn target(self) -> Seq<char> {
        let port = decimal(self.upstream_port as nat);
        if self.bare_host().contains(':') {
            "["@ + self.bare_host() + "]:"@ + port
        } else {
            self.bare_host() + ":"@ + port
        }
    }
}

/// White space around the name and the host changes neither whether a profile is
/// valid nor where it leads.
pub proof fn lemma_trimming_changes_nothing(profile: ProfileView)
    ensures
        ({
            let clean = ProfileView {
                name: trimmed(profile.name),
                host: trimmed(profile.host),
                ..profile
            };
            clean.problem() == profile.problem() && clean.target() == profile.target()
        }),
{
    crate::text::lemma_trimmed_twice(profile.name);
    crate::text::lemma_trimmed_twice(profile.host);
}

/// Brackets around the host change nothing either: an IPv6 address may be written
/// with or without them.
pub proof fn lemma_brackets_change_nothing(profile: ProfileView)
    requires
        trimmed(profile.host) == profile.host,
    ensures
        ({
            let bracketed = ProfileView { host: seq!['['] + profile.host + seq![']'], ..profile };
            bracketed.problem() == profile.problem() && bracketed.target() == profile.target()
        }),
{
    let bracketed = ProfileView { host: seq!['['] + profile.host + seq![']'], ..profile };
    crate::text::lemma_brackets_are_trimmed(profile.host);
    assert(trimmed(bracketed.host) == bracketed.host);
    assert(bracketed.bare_host() == profile.bare_host());
}

impl Default for Profile {
    fn default() -> (profile: Self)
        ensures
            profile@ == ProfileView::standard(),
    {
        Profile {
            name: "Local SQL Server".to_owned(),
            host: "127.0.0.1".to_owned(),
            upstream_port: 1433,
            local_port: 11433,
            download_kib: 128,
            upload_kib: 128,
            limited: false,
        }
    }
}

impl Profile {
    fn bare_host(&self) -> (host: &str)
        ensures
            host@ == self@.bare_host(),
    {
        trim_end_matches(
            trim_start_matches(trim(self.host.as_str()), Class::OpenBracket),
            Class::CloseBracket,
        )
    }

    /// Checks the profile, and says what is wrong with it.
    pub fn validate(&self) -> (res: Result<(), &'static str>)
        ensures
            match (res, self@.problem()) {
                (Ok(_), None) => true,
                (Err(message), Some(text)) => message@ == text,
                _ => false,
            },
    {
        if trim(self.name.as_str()).is_empty() {
            return Err("Enter a profile name.");
        }
        let host = self.bare_host();
        if host.is_empty() {
            return Err("Enter a destination host.");
        }
        if has_char(host, '/') || has_char(host, '\\') || has_char(host, ' ') || has_char(
            host,
            '\t',
        ) || has_char(host, '\n') || has_char(host, '\r') {
            return Err("Enter a hostname or IP address, not a URL or instance name.");
        }
        let address = match find(host, '%') {
            Some(i) => {
                assert(host@.take(i as int) =~= host@.subrange(0, i as int));
                host.substring_char(0, i)
            },
            None => host,
        };
        if has_char(host, ',') || (has_char(host, ':') && !parses_as_ipv6(address)) {
            return Err("Enter the destination port in its own field, not in the host.");
        }
        if self.upstream_port == 0 || self.local_port == 0 {
            return Err(PORT_ERROR);
        }
        if self.download_kib < RATE_MIN || RATE_MAX < self.download_kib || self.upload_kib
            < RATE_MIN || RATE_MAX < self.upload_kib {
            return Err(RATE_ERROR);
        }
        Ok(())
    }

    /// The destination as `host:port`, with brackets around an IPv6 address.
    pub fn target(&self) -> (target: String)
        ensures
            target@ == self@.target(),
    {
        let host = self.bare_host();
        let mut target = if has_char(host, ':') {
            joined3("[", host, "]:")
        } else {
            joined(host, ":")
        };
        append_number(&mut target, self.upstream_port as u128);
        target
    }
}

/// `std::path::PathBuf`: a path, carried along for whoever reads and writes the file.
/// Nothing is claimed of it.
#[verifier::external_type_specification]
#[verifier::external_body]
pub struct ExPathBuf(std::path::PathBuf);

/// The contents of `profiles`.
pub open spec fn views_of(profiles: Seq<Profile>) -> Seq<ProfileView> {
    profiles.map_values(|profile: Profile| profile@)
}

/// Copies a list of profiles.
pub(crate) fn copy_profiles(profiles: &Vec<Profile>) -> (copy: Vec<Profile>)
    ensures
        copy@ == profiles@,
{
    let mut copy: Vec<Profile> = Vec::new();
    let mut i: usize = 0;
    while i < profiles.len()
        invariant
            i <= profiles.len(),
            copy@ == profiles@.take(i as int),
        decreases profiles.len() - i,
    {
        copy.push(profiles[i].clone());
        i += 1;
    }
    assert(copy@ =~= profiles@);
    copy
}

/// Where the file is, below a directory that the environment names.
pub struct ConfigFile {
    pub root: PathBuf,
    pub below: Vec<&'static str>,
}

/// The names of the directories below the root that hold the file, and its own.
pub open spec fn names_below(parts: Seq<&'static str>) -> Seq<Seq<char>> {
    parts.map_values(|part: &'static str| part@)
}

/// Picks the configuration directory: the one for applications, else the one for
/// configuration, else `.config` in the home directory.
pub fn default_path(
    appdata: Option<PathBuf>,
    xdg_config_home: Option<PathBuf>,
    home: Option<PathBuf>,
) -> (file: Option<ConfigFile>)
    ensures
        file is None <==> appdata is None && xdg_config_home is None && home is None,
        appdata matches Some(root) ==> file->0.root == root && names_below(file->0.below@)
            == seq!["bandwidth-proxy"@, "profiles.json"@],
        appdata is None ==> (xdg_config_home matches Some(root) ==> file->0.root == root
            && names_below(file->0.below@) == seq!["bandwidth-proxy"@, "profiles.json"@]),
        appdata is None && xdg_config_home is None ==> (home matches Some(root) ==> file->0.root
            == root && names_below(file->0.below@)
            == seq![".config"@, "bandwidth-proxy"@, "profiles.json"@]),
{
    let mut below: Vec<&'static str> = Vec::new();
    let root = match (appdata, xdg_config_home, home) {
        (Some(root), _, _) => root,
        (None, Some(root), _) => root,
        (None, None, Some(root)) => {
            below.push(".config");
            root
        },
        (None, None, None) => {
            return None;
        },
    };
    below.push("bandwidth-proxy");
    below.push("profiles.json");
    assert(names_below(below@) =~= if below@.len() == 3 {
        seq![".config"@, "bandwidth-proxy"@, "profiles.json"@]
    } else {
        seq!["bandwidth-proxy"@, "profiles.json"@]
    });
    Some(ConfigFile { root, below })
}

/// What reading the file gave.
#[derive(Debug)]
pub enum Stored {
    /// There is no file.
    Missing,
    /// The file could not be opened.
    Unopenable(String),
    /// The file does not hold a list of entries.
    Unreadable(String),
    /// The entries in order, with `None` for each that is not a profile.
    Entries(Vec<Option<Profile>>),
}

/// The saved profiles.
#[derive(Debug)]
pub struct Settings {
    // None when the configuration directory cannot be found. Saving then fails.
    path: Option<PathBuf>,
    profiles: Vec<Profile>,
    // Set when the file on disk holds data that could not be loaded, so that the
    // next save copies it aside instead of silently discarding it.
    backup_pending: bool,
}

/// The contents of `Settings`.
#[verifier::ext_equal]
pub struct SettingsView {
    pub path: Option<PathBuf>,
    pub profiles: Seq<ProfileView>,
    pub backup_pending: bool,
}

impl View for Settings {
    type V = SettingsView;

    closed spec fn view(&self) -> SettingsView {
        SettingsView {
            path: self.path,
            profiles: views_of(self.profiles@),
            backup_pending: self.backup_pending,
        }
    }
}

/// The profile in `entry`, if there is one.
pub open spec fn entry_view(entry: Option<Profile>) -> Option<ProfileView> {
    match entry {
        Some(profile) => Some(profile@),
        None => None,
    }
}

/// The profiles in `entries`, if there are any.
pub open spec fn entry_views(entries: Seq<Option<Profile>>) -> Seq<Option<ProfileView>> {
    entries.map_values(|entry: Option<Profile>| entry_view(entry))
}

/// Whether `entry` is kept: a profile with nothing wrong with it.
pub open spec fn is_kept(entry: Option<ProfileView>) -> bool {
    match entry {
        Some(profile) => profile.problem() is None,
        None => false,
    }
}

/// The entries that are kept, in order.
pub open spec fn kept(entries: Seq<Option<ProfileView>>) -> Seq<ProfileView>
    decreases entries.len(),
{
    if entries.len() == 0 {
        Seq::empty()
    } else {
        let before = kept(entries.drop_last());
        if is_kept(entries.last()) {
            before.push(entries.last()->0)
        } else {
            before
        }
    }
}

/// Shown when some entries were left out.
pub open spec fn skipped_text(skipped: nat) -> Seq<char> {
    "Skipped "@ + decimal(skipped)
        + " invalid saved profile(s). The next save keeps the original file as profiles.json.bak."@
}

/// Shown when nothing could be read.
pub open spec fn unreadable_text(error: Seq<char>) -> Seq<char> {
    "Could not read saved profiles ("@ + error
        + "). The next save keeps the original file as profiles.json.bak."@
}

/// Shown when the file could not be opened.
pub open spec fn unopenable_text(error: Seq<char>) -> Seq<char> {
    "Could not open saved profiles: "@ + error
}

/// The settings that reading the file at `path` gives.
pub open spec fn loaded(path: PathBuf, stored: Stored) -> SettingsView {
    SettingsView {
        path: Some(path),
        profiles: match stored {
            Stored::Entries(entries) => kept(entry_views(entries@)),
            _ => Seq::empty(),
        },
        backup_pending: match stored {
            Stored::Missing => false,
            Stored::Entries(entries) => kept(entry_views(entries@)).len() < entries@.len(),
            _ => true,
        },
    }
}

/// What is said about reading the file.
pub open spec fn load_problem(stored: Stored) -> Option<Seq<char>> {
    match stored {
        Stored::Missing => None,
        Stored::Unopenable(error) => Some(unopenable_text(error@)),
        Stored::Unreadable(error) => Some(unreadable_text(error@)),
        Stored::Entries(entries) => {
            let skipped = entries@.len() - kept(entry_views(entries@)).len();
            if skipped > 0 {
                Some(skipped_text(skipped as nat))
            } else {
                None
            }
        },
    }
}

/// Nothing is wrong with any of `profiles`.
pub open spec fn all_valid(profiles: Seq<ProfileView>) -> bool {
    forall|i: int| 0 <= i < profiles.len() ==> (#[trigger] profiles[i]).problem() is None
}

/// Every profile that loading keeps is valid.
pub proof fn lemma_kept_profiles_are_valid(entries: Seq<Option<ProfileView>>)
    ensures
        all_valid(kept(entries)),
    decreases entries.len(),
{
    if entries.len() > 0 {
        lemma_kept_profiles_are_valid(entries.drop_last());
    }
}

/// Valid profiles that were saved are all kept, in their order, when they are
/// loaded again.
pub proof fn lemma_saved_profiles_load_back(profiles: Seq<ProfileView>)
    requires
        all_valid(profiles),
    ensures
        kept(profiles.map_values(|profile: ProfileView| Some(profile))) == profiles,
    decreases profiles.len(),
{
    let entries = profiles.map_values(|profile: ProfileView| Some(profile));
    if profiles.len() > 0 {
        let before = profiles.drop_last();
        assert forall|i: int| 0 <= i < before.len() implies (
        #[trigger] before[i]).problem() is None by {
            assert(before[i] == profiles[i]);
        }
        lemma_saved_profiles_load_back(before);
        assert(entries.drop_last() =~= before.map_values(|profile: ProfileView| Some(profile)));
        assert(entries.last() == Some(profiles.last()));
        assert(profiles.last() == profiles[profiles.len() - 1]);
        assert(before.push(profiles.last()) =~= profiles);
    } else {
        assert(kept(entries) =~= profiles);
    }
}

impl Default for Settings {
    fn default() -> (settings: Self)
        ensures
            settings@ == (SettingsView {
                path: None,
                profiles: Seq::empty(),
                backup_pending: false,
            }),
    {
        let settings = Settings { path: None, profiles: Vec::new(), backup_pending: false };
        assert(settings@.profiles =~= Seq::empty());
        settings
    }
}

impl Settings {
    /// Starts from what was found: the file and what reading it gave, or no
    /// configuration directory at all. The message explains anything that could
    /// not be loaded.
    pub fn load(found: Option<(PathBuf, Stored)>) -> (res: (Self, Option<String>))
        ensures
            match found {
                Some((path, stored)) => res.0@ == loaded(path, stored) && match (
                    res.1,
                    load_problem(stored),
                ) {
                    (None, None) => true,
                    (Some(message), Some(text)) => message@ == text,
                    _ => false,
                },
                None => res.0@ == (SettingsView {
                    path: None,
                    profiles: Seq::empty(),
                    backup_pending: false,
                }) && res.1 is Some && res.1->0@ == unopenable_text(NO_CONFIG_DIRECTORY@) + "."@,
            },
    {
        match found {
            Some((path, stored)) => Settings::load_from(path, stored),
            None => (
                Settings::default(),
                Some(joined3("Could not open saved profiles: ", NO_CONFIG_DIRECTORY, ".")),
            ),
        }
    }

    /// Starts from what reading the file at `path` gave.
    pub fn load_from(path: PathBuf, stored: Stored) -> (res: (Self, Option<String>))
        ensures
            res.0@ == loaded(path, stored),
            match (res.1, load_problem(stored)) {
                (None, None) => true,
                (Some(message), Some(text)) => message@ == text,
                _ => false,
            },
    {
        match stored {
            Stored::Missing => (Settings::empty(path, false), None),
            Stored::Unopenable(error) => (
                Settings::empty(path, true),
                Some(joined("Could not open saved profiles: ", error.as_str())),
            ),
            Stored::Unreadable(error) => (
                Settings::empty(path, true),
                Some(
                    joined3(
                        "Could not read saved profiles (",
                        error.as_str(),
                        "). The next save keeps the original file as profiles.json.bak.",
                    ),
                ),
            ),
            Stored::Entries(entries) => {
                let (settings, skipped) = Settings::parse(entries);
                let settings = Settings { path: Some(path), ..settings };
                if skipped == 0 {
                    (settings, None)
                } else {
                    let mut message = "Skipped ".to_owned();
                    append_number(&mut message, skipped as u128);
                    message.append(
                        " invalid saved profile(s). The next save keeps the original file as profiles.json.bak.",
                    );
                    (settings, Some(message))
                }
            },
        }
    }

    fn empty(path: PathBuf, backup_pending: bool) -> (settings: Self)
        ensures
            settings@ == (SettingsView {
                path: Some(path),
                profiles: Seq::empty(),
                backup_pending,
            }),
    {
        let settings = Settings { path: Some(path), profiles: Vec::new(), backup_pending };
        assert(settings@.profiles =~= Seq::empty());
        settings
    }

    /// Keeps the valid profiles among `entries`, and counts the rest.
    pub fn parse(entries: Vec<Option<Profile>>) -> (res: (Self, usize))
        ensures
            res.0@ == (SettingsView {
                path: None,
                profiles: kept(entry_views(entries@)),
                backup_pending: res.1 > 0,
            }),
            res.1 == entries@.len() - kept(entry_views(entries@)).len(),
    {
        let ghost views = entry_views(entries@);
        let mut profiles: Vec<Profile> = Vec::new();
        let mut i: usize = 0;
        assert(views.take(0) =~= Seq::empty());
        assert(views_of(profiles@) =~= Seq::empty());
        while i < entries.len()
            invariant
                i <= entries.len(),
                views == entry_views(entries@),
                views_of(profiles@) == kept(views.take(i as int)),
                profiles.len() <= i,
            decreases entries.len() - i,
        {
            proof {
                let next = views.take(i + 1);
                assert(next.drop_last() =~= views.take(i as int));
                assert(next.last() == entry_view(entries[i as int]));
            }
            match &entries[i] {
                Some(profile) => match profile.validate() {
                    Ok(_) => {
                        let ghost before = profiles@;
                        profiles.push(profile.clone());
                        assert(views_of(profiles@) =~= views_of(before).push(profile@));
                    },
                    Err(_) => {},
                },
                None => {},
            }
            i += 1;
        }
        assert(views.take(i as int) =~= views);
        let skipped: usize = entries.len() - profiles.len();
        (Settings { path: None, profiles, backup_pending: skipped > 0 }, skipped)
    }

    /// The saved profiles.
    pub fn profiles(&self) -> (profiles: &[Profile])
        ensures
            views_of(profiles@) == self@.profiles,
    {
        self.profiles.as_slice()
    }

    /// Where the file is.
    pub fn path(&self) -> (path: Option<&PathBuf>)
        ensures
            match path {
                Some(path) => self@.path == Some(*path),
                None => self@.path is None,
            },
    {
        self.path.as_ref()
    }

    pub(crate) fn profile_list(&self) -> (profiles: &Vec<Profile>)
        ensures
            views_of(profiles@) == self@.profiles,
    {
        &self.profiles
    }
}

/// One operation of a save.
#[derive(Clone, Copy, Debug, PartialEq, Eq, Structural)]
pub enum SaveStep {
    /// Create the directory of the file, with its parents.
    CreateDirectory,
    /// Copy the file aside.
    CopyBackup,
    /// Write the profiles to a temporary file beside it.
    WriteTemporary,
    /// Put the temporary file in its place.
    Replace,
}

/// What came of an operation.
#[derive(Debug)]
pub enum StepOutcome {
    Done,
    /// It failed because a file does not exist.
    NotFound(String),
    /// It failed otherwise.
    Failed(String),
}

/// A save under way: what it writes, and the operation that comes next.
#[derive(Debug)]
pub struct PendingSave {
    pub profiles: Vec<Profile>,
    pub step: SaveStep,
}

/// What came of a save so far.
#[derive(Debug)]
pub enum SaveProgress {
    Continue(PendingSave),
    Saved,
    Failed(String),
}

/// What follows `step`. A file that could not be loaded whole is copied aside
/// before it is replaced.
pub open spec fn next_step(step: SaveStep, backup_pending: bool) -> Option<SaveStep> {
    match step {
        SaveStep::CreateDirectory => Some(
            if backup_pending {
                SaveStep::CopyBackup
            } else {
                SaveStep::WriteTemporary
            },
        ),
        SaveStep::CopyBackup => Some(SaveStep::WriteTemporary),
        SaveStep::WriteTemporary => Some(SaveStep::Replace),
        SaveStep::Replace => None,
    }
}

/// Why `step` ends the save, if it does. That there is nothing to copy aside does not.
pub open spec fn step_error(step: SaveStep, outcome: StepOutcome) -> Option<Seq<char>> {
    match outcome {
        StepOutcome::Done => None,
        StepOutcome::NotFound(error) => if step == SaveStep::CopyBackup {
            None
        } else {
            Some(error@)
        },
        StepOutcome::Failed(error) => Some(error@),
    }
}

impl Settings {
    /// Begins to write `profiles` to disk. Without a path there is nowhere to write.
    pub fn save(&self, profiles: Vec<Profile>) -> (res: Result<PendingSave, String>)
        ensures
            res is Ok <==> self@.path is Some,
            res matches Ok(pending) ==> pending.profiles == profiles && pending.step
                == SaveStep::CreateDirectory,
            res matches Err(error) ==> error@ == NO_CONFIG_DIRECTORY@,
    {
        match &self.path {
            Some(_) => Ok(PendingSave { profiles, step: SaveStep::CreateDirectory }),
            None => Err(NO_CONFIG_DIRECTORY.to_owned()),
        }
    }

    /// Goes on after the operation that `pending` names. Only the last success
    /// makes the profiles current.
    pub fn resume(&mut self, pending: PendingSave, outcome: StepOutcome) -> (progress: SaveProgress)
        ensures
            match step_error(pending.step, outcome) {
                Some(text) => final(self)@ == old(self)@ && progress is Failed
                    && progress->Failed_0@ == text,
                None => match next_step(pending.step, old(self)@.backup_pending) {
                    Some(step) => final(self)@ == old(self)@ && progress == SaveProgress::Continue(
                        PendingSave { profiles: pending.profiles, step },
                    ),
                    None => progress is Saved && final(self)@ == (SettingsView {
                        path: old(self)@.path,
                        profiles: views_of(pending.profiles@),
                        backup_pending: false,
                    }),
                },
            },
    {
        match outcome {
            StepOutcome::Done => {},
            StepOutcome::NotFound(error) => {
                if pending.step != SaveStep::CopyBackup {
                    return SaveProgress::Failed(error);
                }
            },
            StepOutcome::Failed(error) => {
                return SaveProgress::Failed(error);
            },
        }
        let profiles = pending.profiles;
        let step = match pending.step {
            SaveStep::CreateDirectory => if self.backup_pending {
                SaveStep::CopyBackup
            } else {
                SaveStep::WriteTemporary
            },
            SaveStep::CopyBackup => SaveStep::WriteTemporary,
            SaveStep::WriteTemporary => SaveStep::Replace,
            SaveStep::Replace => {
                self.profiles = profiles;
                self.backup_pending = false;
                return SaveProgress::Saved;
            },
        };
        SaveProgress::Continue(PendingSave { profiles, step })
    }
}

/// The operations of a save, in order.
pub open spec fn save_plan(backup_pending: bool) -> Seq<SaveStep> {
    if backup_pending {
        seq![
            SaveStep::CreateDirectory,
            SaveStep::CopyBackup,
            SaveStep::WriteTemporary,
            SaveStep::Replace,
        ]
    } else {
        seq![SaveStep::CreateDirectory, SaveStep::WriteTemporary, SaveStep::Replace]
    }
}

/// Each operation of a save is followed by the next one of the plan, and the last
/// one by none. So a file that could not be loaded whole is copied aside before it
/// is replaced, and the file is replaced by one that has been written whole.
pub proof fn lemma_save_follows_the_plan(backup_pending: bool)
    ensures
        save_plan(backup_pending)[0] == SaveStep::CreateDirectory,
        forall|i: int|
            0 <= i < save_plan(backup_pending).len() ==> next_step(
                #[trigger] save_plan(backup_pending)[i],
                backup_pending,
            ) == if i + 1 < save_plan(backup_pending).len() {
                Some(save_plan(backup_pending)[i + 1])
            } else {
                None
            },
{
}

/// What a file holds: profiles as a save writes them, or anything else.
pub enum Content {
    Profiles(Seq<ProfileView>),
    Other(Seq<u8>),
}

/// The files that a save touches, where they exist.
pub struct Files {
    pub file: Option<Content>,
    pub temporary: Option<Content>,
    pub backup: Option<Content>,
}

impl Files {
    /// The files after an operation of a save of `profiles` has succeeded, or has
    /// found nothing to copy aside.
    pub open spec fn after(self, step: SaveStep, profiles: Seq<ProfileView>) -> Files {
        match step {
            SaveStep::CreateDirectory => self,
            SaveStep::CopyBackup => if self.file is Some {
                Files { backup: self.file, ..self }
            } else {
                self
            },
            SaveStep::WriteTemporary => Files {
                temporary: Some(Content::Profiles(profiles)),
                ..self
            },
            SaveStep::Replace => Files { file: self.temporary, temporary: None, ..self },
        }
    }

    /// The files after all of `steps`.
    pub open spec fn after_all(self, steps: Seq<SaveStep>, profiles: Seq<ProfileView>) -> Files
        decreases steps.len(),
    {
        if steps.len() == 0 {
            self
        } else {
            self.after_all(steps.drop_last(), profiles).after(steps.last(), profiles)
        }
    }
}

/// A save is all or nothing: until its last operation the file is as it was, and then
/// it holds the new profiles. A file that could not be loaded whole is kept as the
/// backup, which is otherwise left alone.
pub proof fn lemma_save_is_all_or_nothing(
    files: Files,
    profiles: Seq<ProfileView>,
    backup_pending: bool,
    done: int,
)
    requires
        0 <= done <= save_plan(backup_pending).len(),
    ensures
        ({
            let plan = save_plan(backup_pending);
            let after = files.after_all(plan.take(done), profiles);
            &&& done < plan.len() ==> after.file == files.file
            &&& done == plan.len() ==> after.file == Some(Content::Profiles(profiles))
            &&& done == plan.len() && backup_pending && files.file is Some ==> after.backup
                == files.file
            &&& !backup_pending || files.file is None ==> after.backup == files.backup
        }),
{
    let plan = save_plan(backup_pending);
    assert(plan.take(0) =~= Seq::empty());
    assert(plan.take(1).drop_last() =~= plan.take(0));
    assert(plan.take(2).drop_last() =~= plan.take(1));
    assert(plan.take(3).drop_last() =~= plan.take(2));
    if backup_pending {
        assert(plan.take(4).drop_last() =~= plan.take(3));
    }
    reveal_with_fuel(Files::after_all, 5);
    assert(done == 0 || done == 1 || done == 2 || done == 3 || done == 4);
}

/// Valid profiles that have been saved are what the next load gives, with nothing to
/// report and no backup owed, provided that the file reads back as the entries that
/// were written.
pub proof fn lemma_saved_is_loaded(profiles: Seq<ProfileView>, path: PathBuf, stored: Stored)
    requires
        all_valid(profiles),
        stored is Entries,
        entry_views(stored->Entries_0@) == profiles.map_values(
            |profile: ProfileView| Some(profile),
        ),
    ensures
        loaded(path, stored) == (SettingsView {
            path: Some(path),
            profiles,
            backup_pending: false,
        }),
        load_problem(stored) is None,
{
    lemma_saved_profiles_load_back(profiles);
    assert(stored->Entries_0@.len() == entry_views(stored->Entries_0@).len());
}

/// A text names a port exactly if it reads, without white space around it, as a number from
/// 1 to 65535, and then it names that one.
pub proof fn lemma_ports_are_in_range(text: Seq<char>)
    ensures
        port_of(text) matches Some(port) ==> port > 0 && parsed_number(trimmed(text)) == Some(
            port as nat,
        ),
        parsed_number(trimmed(text)) matches Some(n) ==> (port_of(text) is Some <==> 1 <= n
            <= 65_535),
        parsed_number(trimmed(text)) is None ==> port_of(text) is None,
{
}

/// A text names a rate exactly if it reads, without white space around it, as a number from
/// 1 to 1,000,000, and then it names that one.
pub proof fn lemma_rates_are_in_range(text: Seq<char>, rate: nat)
    ensures
        rate_in_range(rate) <==> 1 <= rate <= 1_000_000,
        rate_of(text) matches Some(rate) ==> parsed_number(trimmed(text)) == Some(rate as nat),
        parsed_number(trimmed(text)) matches Some(n) ==> (rate_of(text) is Some <==> 1 <= n
            <= 1_000_000),
        parsed_number(trimmed(text)) is None ==> rate_of(text) is None,
{
}

/// A host looks like a path for one of these six characters, and for nothing else.
pub proof fn lemma_six_characters_make_a_path(host: Seq<char>)
    ensures
        looks_like_a_path(host) <==> exists|i: int|
            0 <= i < host.len() && (#[trigger] host[i] == '/' || host[i] == '\\' || host[i] == ' '
                || host[i] == '\t' || host[i] == '\n' || host[i] == '\r'),
{
    if looks_like_a_path(host) {
        let c = if host.contains('/') {
            '/'
        } else if host.contains('\\') {
            '\\'
        } else if host.contains(' ') {
            ' '
        } else if host.contains('\t') {
            '\t'
        } else if host.contains('\n') {
            '\n'
        } else {
            '\r'
        };
        let i = choose|i: int| 0 <= i < host.len() && host[i] == c;
        assert(host[i] == c);
    }
}

/// The part before a character holds none of it, and is followed by it or by nothing.
pub proof fn lemma_before_ends_at_the_first(s: Seq<char>, c: char)
    ensures
        !before(s, c).contains(c),
        before(s, c).len() <= s.len(),
        before(s, c) == s.take(before(s, c).len() as int),
        before(s, c).len() < s.len() ==> s[before(s, c).len() as int] == c,
{
    crate::address::lemma_index_of(s, c);
    match index_of(s, c) {
        Some(i) => {},
        None => {
            assert(s.take(s.len() as int) =~= s);
        },
    }
}

/// A host carries a port for a comma, or for a colon unless what stands before its zone is
/// an IPv6 address.
pub proof fn lemma_what_carries_a_port(host: Seq<char>)
    ensures
        carries_a_port(host) <==> host.contains(',') || (host.contains(':') && !is_ipv6(
            before(host, '%'),
        )),
        !host.contains(',') && !host.contains(':') ==> !carries_a_port(host),
        host.contains(',') ==> carries_a_port(host),
        is_ipv6(host) && !host.contains(',') && !host.contains('%') ==> !carries_a_port(host),
{
    lemma_before_ends_at_the_first(host, '%');
    if !host.contains('%') {
        let n = before(host, '%').len() as int;
        assert(n < host.len() ==> host.contains(host[n]));
        assert(host.take(host.len() as int) =~= host);
    }
}

/// A profile is valid exactly if it has a name and a host, the host holds none of the
/// characters of a path and carries no port, and its ports and rates are in range.
pub proof fn lemma_what_makes_a_profile_valid(profile: ProfileView)
    ensures
        profile.problem() is None <==> {
            &&& trimmed(profile.name).len() > 0
            &&& profile.bare_host().len() > 0
            &&& !looks_like_a_path(profile.bare_host())
            &&& !carries_a_port(profile.bare_host())
            &&& profile.upstream_port > 0
            &&& profile.local_port > 0
            &&& 1 <= profile.download_kib <= 1_000_000
            &&& 1 <= profile.upload_kib <= 1_000_000
        },
{
}

/// What is said of a profile is what is wrong with it. The name comes before the host, the
/// host before the ports, and the ports before the rates.
pub proof fn lemma_problems_are_what_they_say(profile: ProfileView)
    ensures
        ({
            let named = trimmed(profile.name).len() > 0;
            let hosted = named && profile.bare_host().len() > 0;
            let plain = hosted && !looks_like_a_path(profile.bare_host());
            let alone = plain && !carries_a_port(profile.bare_host());
            let ported = alone && profile.upstream_port > 0 && profile.local_port > 0;
            let rated = 1 <= profile.download_kib <= 1_000_000 && 1 <= profile.upload_kib
                <= 1_000_000;
            &&& !named ==> profile.problem() == Some("Enter a profile name."@)
            &&& named && !hosted ==> profile.problem() == Some("Enter a destination host."@)
            &&& hosted && !plain ==> profile.problem() == Some(
                "Enter a hostname or IP address, not a URL or instance name."@,
            )
            &&& plain && !alone ==> profile.problem() == Some(
                "Enter the destination port in its own field, not in the host."@,
            )
            &&& alone && !ported ==> profile.problem() == Some(
                "Ports must be whole numbers from 1 to 65535."@,
            )
            &&& ported && !rated ==> profile.problem() == Some(
                "Rates must be whole numbers from 1 to 1,000,000 KiB/s."@,
            )
        }),
{
}

/// Whether `c` is one that host names are made of: a letter, a digit, a dot, a hyphen or an
/// underscore.
pub open spec fn is_host_character(c: char) -> bool {
    'a' <= c <= 'z' || 'A' <= c <= 'Z' || '0' <= c <= '9' || c == '.' || c == '-' || c == '_'
}

/// A host without any of the characters that end or split one is taken as it is: it is not
/// changed, and nothing is wrong with it.
pub proof fn lemma_plain_hosts_are_taken(profile: ProfileView)
    requires
        trimmed(profile.name).len() > 0,
        profile.upstream_port > 0,
        profile.local_port > 0,
        1 <= profile.download_kib <= 1_000_000,
        1 <= profile.upload_kib <= 1_000_000,
        profile.host.len() > 0,
        forall|i: int|
            0 <= i < profile.host.len() ==> {
                let c = #[trigger] profile.host[i];
                &&& !crate::text::is_space(c)
                &&& c != '/' && c != '\\' && c != ',' && c != ':' && c != '[' && c != ']'
            },
    ensures
        profile.bare_host() == profile.host,
        profile.problem() is None,
        profile.target() == profile.host + seq![':'] + decimal(profile.upstream_port as nat),
{
    let host = profile.host;
    assert(!crate::text::is_space(host[0]));
    assert(!crate::text::is_space(host[host.len() - 1]));
    assert(trimmed(host) == host);
    assert(profile.bare_host() == host);
    lemma_six_characters_make_a_path(host);
    assert(!looks_like_a_path(host)) by {
        if looks_like_a_path(host) {
            let i = choose|i: int|
                0 <= i < host.len() && (#[trigger] host[i] == '/' || host[i] == '\\' || host[i]
                    == ' ' || host[i] == '\t' || host[i] == '\n' || host[i] == '\r');
            assert(!crate::text::is_space(host[i]));
        }
    }
    assert(!host.contains(',')) by {
        if host.contains(',') {
            let i = choose|i: int| 0 <= i < host.len() && host[i] == ',';
            assert(host[i] != ',');
        }
    }
    assert(!host.contains(':')) by {
        if host.contains(':') {
            let i = choose|i: int| 0 <= i < host.len() && host[i] == ':';
            assert(host[i] != ':');
        }
    }
    reveal_strlit(":");
    assert(":"@ =~= seq![':']);
}

/// A host name of letters, digits, dots, hyphens and underscores is taken.
pub proof fn lemma_host_names_are_taken(profile: ProfileView)
    requires
        trimmed(profile.name).len() > 0,
        profile.upstream_port > 0,
        profile.local_port > 0,
        1 <= profile.download_kib <= 1_000_000,
        1 <= profile.upload_kib <= 1_000_000,
        profile.host.len() > 0,
        forall|i: int|
            0 <= i < profile.host.len() ==> is_host_character(#[trigger] profile.host[i]),
    ensures
        profile.problem() is None,
        profile.target() == profile.host + seq![':'] + decimal(profile.upstream_port as nat),
{
    assert forall|i: int| 0 <= i < profile.host.len() implies {
        let c = #[trigger] profile.host[i];
        &&& !crate::text::is_space(c)
        &&& c != '/' && c != '\\' && c != ',' && c != ':' && c != '[' && c != ']'
    } by {
        assert(is_host_character(profile.host[i]));
    }
    lemma_plain_hosts_are_taken(profile);
}

/// An IPv6 address is taken and stands in brackets before the port, with any zone after it.
pub proof fn lemma_ipv6_hosts_are_taken(profile: ProfileView)
    requires
        trimmed(profile.name).len() > 0,
        profile.upstream_port > 0,
        profile.local_port > 0,
        1 <= profile.download_kib <= 1_000_000,
        1 <= profile.upload_kib <= 1_000_000,
        profile.bare_host().len() > 0,
        profile.bare_host().contains(':'),
        is_ipv6(before(profile.bare_host(), '%')),
        !profile.bare_host().contains(','),
        !looks_like_a_path(profile.bare_host()),
    ensures
        profile.problem() is None,
        profile.target() == seq!['['] + profile.bare_host() + seq![']', ':'] + decimal(
            profile.upstream_port as nat,
        ),
{
    reveal_strlit("[");
    reveal_strlit("]:");
    assert("["@ =~= seq!['[']);
    assert("]:"@ =~= seq![']', ':']);
}

/// The destination is the host and the port, with a colon between them. Brackets stand
/// around the host exactly if it holds a colon itself.
pub proof fn lemma_target_is_host_and_port(profile: ProfileView)
    ensures
        ({
            let host = profile.bare_host();
            let port = decimal(profile.upstream_port as nat);
            &&& host.contains(':') ==> profile.target() == seq!['['] + host + seq![']', ':'] + port
            &&& !host.contains(':') ==> profile.target() == host + seq![':'] + port
        }),
{
    reveal_strlit("[");
    reveal_strlit("]:");
    reveal_strlit(":");
    assert("["@ =~= seq!['[']);
    assert("]:"@ =~= seq![']', ':']);
    assert(":"@ =~= seq![':']);
}

/// The profile that a new user sees can be used as it is. It leads to the usual port of a
/// server on the same machine, without limits.
pub proof fn lemma_standard_profile_is_valid()
    ensures
        ({
            let standard = ProfileView::standard();
            &&& standard.problem() is None
            &&& !standard.limited
            &&& standard.name == "Local SQL Server"@
            &&& standard.target() == "127.0.0.1"@ + seq![':'] + decimal(1433)
            &&& standard.local_port == 11433
            &&& standard.download_kib == 128
            &&& standard.upload_kib == 128
        }),
{
    reveal_strlit("Local SQL Server");
    reveal_strlit("127.0.0.1");
    let profile = ProfileView::standard();
    let (name, host) = ("Local SQL Server"@, "127.0.0.1"@);
    assert(name.len() == 16 && name[0] == 'L' && name[15] == 'r');
    assert(!crate::text::is_space(name[0]) && !crate::text::is_space(name.last()));
    assert(trimmed(name) == name);
    assert forall|i: int| 0 <= i < host.len() implies is_host_character(#[trigger] host[i]) by {
    }
    lemma_host_names_are_taken(profile);
}

/// Loading keeps exactly the valid entries, in their order.
pub proof fn lemma_valid_entries_are_kept(entries: Seq<Option<ProfileView>>)
    ensures
        kept(entries) == entries.filter(
            |entry: Option<ProfileView>| entry is Some && entry->0.problem() is None,
        ).map_values(|entry: Option<ProfileView>| entry->0),
    decreases entries.len(),
{
    reveal(Seq::filter);
    let valid = |entry: Option<ProfileView>| entry is Some && entry->0.problem() is None;
    let bare = |entry: Option<ProfileView>| entry->0;
    if entries.len() > 0 {
        let rest = entries.drop_last();
        lemma_valid_entries_are_kept(rest);
        if valid(entries.last()) {
            assert(rest.filter(valid).push(entries.last()).map_values(bare) =~= rest.filter(
                valid,
            ).map_values(bare).push(entries.last()->0));
        }
    } else {
        assert(entries.filter(valid).map_values(bare) =~= Seq::empty());
    }
}

/// What is kept of two lists of entries is kept of the two together: no entry decides about
/// another. Of a single entry, the profile is kept if it is valid, and nothing otherwise.
pub proof fn lemma_entries_are_kept_on_their_own(
    a: Seq<Option<ProfileView>>,
    b: Seq<Option<ProfileView>>,
    profile: ProfileView,
)
    ensures
        kept(a + b) == kept(a) + kept(b),
        profile.problem() is None ==> kept(seq![Some(profile)]) == seq![profile],
        profile.problem() is Some ==> kept(seq![Some(profile)]).len() == 0,
        kept(seq![None::<ProfileView>]).len() == 0,
    decreases b.len(),
{
    if b.len() == 0 {
        assert(a + b =~= a);
        assert(kept(b) =~= Seq::empty());
        assert(kept(a) + kept(b) =~= kept(a));
    } else {
        let rest = b.drop_last();
        lemma_entries_are_kept_on_their_own(a, rest, profile);
        assert((a + b).drop_last() =~= a + rest);
        assert(kept(a + b) =~= kept(a) + kept(b));
    }
    let one = seq![Some(profile)];
    let nothing = seq![None::<ProfileView>];
    assert(one.drop_last() =~= Seq::empty());
    assert(nothing.drop_last() =~= Seq::empty());
    reveal_with_fuel(kept, 2);
    assert(profile.problem() is None ==> kept(one) =~= seq![profile]);
}

/// A backup is owed, and a problem is reported, exactly if something on the disk could not
/// be loaded. A file that is not there is no problem.
pub proof fn lemma_backup_is_owed_for_what_is_lost(path: PathBuf, stored: Stored)
    ensures
        loaded(path, stored).path == Some(path),
        loaded(path, stored).backup_pending <==> load_problem(stored) is Some,
        stored is Missing ==> !loaded(path, stored).backup_pending && loaded(
            path,
            stored,
        ).profiles.len() == 0,
        stored is Unopenable || stored is Unreadable ==> loaded(path, stored).backup_pending
            && loaded(path, stored).profiles.len() == 0,
        stored matches Stored::Entries(entries) ==> {
            &&& loaded(path, stored).profiles == kept(entry_views(entries@))
            &&& loaded(path, stored).backup_pending <==> exists|i: int|
                0 <= i < entries@.len() && !(#[trigger] entries@[i] is Some
                    && entries@[i]->0@.problem() is None)
        },
{
    match stored {
        Stored::Entries(entries) => {
            let views = entry_views(entries@);
            lemma_nothing_is_skipped(views);
            if kept(views).len() < views.len() {
                let i = choose|i: int| 0 <= i < views.len() && !is_kept(#[trigger] views[i]);
                assert(views[i] == entry_view(entries@[i]));
            } else {
                assert forall|i: int| 0 <= i < entries@.len() implies #[trigger] entries@[i] is Some
                    && entries@[i]->0@.problem() is None by {
                    assert(is_kept(views[i]));
                }
            }
        },
        _ => {},
    }
}

proof fn lemma_nothing_is_skipped(entries: Seq<Option<ProfileView>>)
    ensures
        kept(entries).len() <= entries.len(),
        kept(entries).len() == entries.len() ==> forall|i: int|
            0 <= i < entries.len() ==> is_kept(#[trigger] entries[i]),
        kept(entries).len() < entries.len() ==> exists|i: int|
            0 <= i < entries.len() && !is_kept(#[trigger] entries[i]),
    decreases entries.len(),
{
    if entries.len() > 0 {
        let rest = entries.drop_last();
        lemma_nothing_is_skipped(rest);
        if kept(entries).len() == entries.len() {
            assert forall|i: int| 0 <= i < entries.len() implies is_kept(#[trigger] entries[i]) by {
                if i < rest.len() {
                    assert(is_kept(rest[i]));
                }
            }
        } else if kept(rest).len() < rest.len() {
            let i = choose|i: int| 0 <= i < rest.len() && !is_kept(#[trigger] rest[i]);
            assert(entries[i] == rest[i]);
        } else {
            assert(!is_kept(entries[entries.len() - 1]));
        }
    }
}

/// What is reported names what went wrong: how many entries were skipped, or the error.
pub proof fn lemma_load_problems_name_their_cause(stored: Stored)
    ensures
        stored matches Stored::Unopenable(error) ==> load_problem(stored) == Some(
            "Could not open saved profiles: "@ + error@,
        ),
        stored matches Stored::Unreadable(error) ==> load_problem(stored) == Some(
            "Could not read saved profiles ("@ + error@
                + "). The next save keeps the original file as profiles.json.bak."@,
        ),
        stored matches Stored::Entries(entries) ==> {
            let skipped = entries@.len() - kept(entry_views(entries@)).len();
            skipped > 0 ==> load_problem(stored) == Some(
                "Skipped "@ + decimal(skipped as nat)
                    + " invalid saved profile(s). The next save keeps the original file as profiles.json.bak."@,
            )
        },
{
}

/// A save creates the directory first and replaces the file last, right after it has written
/// the temporary file. It copies the file aside, before that, exactly if a backup is owed.
pub proof fn lemma_save_plan_is_in_order(backup_pending: bool)
    ensures
        ({
            let plan = save_plan(backup_pending);
            let n = plan.len() as int;
            &&& plan[0] == SaveStep::CreateDirectory
            &&& plan[n - 1] == SaveStep::Replace
            &&& plan[n - 2] == SaveStep::WriteTemporary
            &&& backup_pending ==> n == 4 && plan[1] == SaveStep::CopyBackup
            &&& !backup_pending ==> n == 3
        }),
        next_step(SaveStep::CreateDirectory, true) == Some(SaveStep::CopyBackup),
        next_step(SaveStep::CreateDirectory, false) == Some(SaveStep::WriteTemporary),
        next_step(SaveStep::CopyBackup, backup_pending) == Some(SaveStep::WriteTemporary),
        next_step(SaveStep::WriteTemporary, backup_pending) == Some(SaveStep::Replace),
        next_step(SaveStep::Replace, backup_pending) is None,
{
}

/// An operation that succeeds never ends a save, and one that fails always does, with its own
/// error, but for a backup of a file that is not there.
pub proof fn lemma_failures_end_a_save(step: SaveStep, outcome: StepOutcome)
    ensures
        step_error(step, outcome) is None <==> outcome is Done || (outcome is NotFound && step
            == SaveStep::CopyBackup),
        outcome matches StepOutcome::Failed(error) ==> step_error(step, outcome) == Some(error@),
        outcome matches StepOutcome::NotFound(error) ==> step != SaveStep::CopyBackup
            ==> step_error(step, outcome) == Some(error@),
{
}

/// Lists are viewed item by item.
pub proof fn lemma_lists_are_viewed_in_order(
    profiles: Seq<Profile>,
    entries: Seq<Option<Profile>>,
    parts: Seq<&'static str>,
)
    ensures
        views_of(profiles).len() == profiles.len(),
        forall|i: int|
            0 <= i < profiles.len() ==> #[trigger] views_of(profiles)[i] == profiles[i]@,
        entry_views(entries).len() == entries.len(),
        forall|i: int|
            0 <= i < entries.len() ==> (#[trigger] entry_views(entries)[i] is Some
                <==> entries[i] is Some),
        forall|i: int|
            0 <= i < entries.len() && entries[i] is Some ==> #[trigger] entry_views(entries)[i]
                == Some(entries[i]->0@),
        names_below(parts).len() == parts.len(),
        forall|i: int| 0 <= i < parts.len() ==> #[trigger] names_below(parts)[i] == parts[i]@,
{
}

/// The host is the typed one without white space around it and then without brackets around
/// it: what is removed is nothing else, and what is left has neither bracket at its end.
pub proof fn lemma_host_is_bare(profile: ProfileView)
    ensures
        ({
            let host = profile.bare_host();
            &&& host.len() > 0 ==> host[0] != '[' && host.last() != ']'
            &&& exists|front: Seq<char>, back: Seq<char>|
                #![trigger front + host + back]
                {
                    &&& trimmed(profile.host) == front + host + back
                    &&& forall|i: int| 0 <= i < front.len() ==> #[trigger] front[i] == '['
                    &&& forall|i: int| 0 <= i < back.len() ==> #[trigger] back[i] == ']'
                }
        }),
{
    let all = trimmed(profile.host);
    let open = without_leading(all, Class::OpenBracket);
    let host = profile.bare_host();
    crate::text::lemma_leading_is_removed(all, Class::OpenBracket);
    let n = choose|n: int|
        #![trigger all.skip(n)]
        0 <= n <= all.len() && open == all.skip(n) && (forall|i: int|
            0 <= i < n ==> Class::OpenBracket.holds(#[trigger] all[i])) && (n < all.len()
            ==> !Class::OpenBracket.holds(all[n]));
    crate::text::lemma_trailing_is_removed(open, Class::CloseBracket);
    let k = choose|k: int|
        #![trigger open.take(k)]
        0 <= k <= open.len() && without_trailing(open, Class::CloseBracket) == open.take(k) && (
        forall|i: int|
            k <= i < open.len() ==> Class::CloseBracket.holds(#[trigger] open[i])) && (k > 0
            ==> !Class::CloseBracket.holds(open[k - 1]));
    let (front, back) = (all.take(n), open.skip(k));
    assert(host == open.take(k));
    assert(all =~= front + host + back);
    assert forall|i: int| 0 <= i < front.len() implies #[trigger] front[i] == '[' by {
        assert(Class::OpenBracket.holds(all[i]));
    }
    assert forall|i: int| 0 <= i < back.len() implies #[trigger] back[i] == ']' by {
        assert(Class::CloseBracket.holds(open[k + i]));
    }
    if host.len() > 0 {
        assert(host[0] == all[n]);
    }
}

} // verus!
