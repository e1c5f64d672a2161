//! Settings on an in-memory disk, and the editor in front of them.

use bandwidth_proxy::editor::{
    Choice, Editor, Form, Invalid, ProfileDelete, ProfileDeleteProgress, ProfileSave,
    ProfileSaveProgress, NEW_PROFILE,
};
use bandwidth_proxy::proxy::{Direction, PerDirection};
use bandwidth_proxy::settings::{
    default_path, parse_port, parse_rate, PendingSave, Profile, SaveProgress, SaveStep, Settings,
    StepOutcome, Stored, BACKUP_EXTENSION, NO_CONFIG_DIRECTORY, PORT_ERROR, RATE_ERROR,
    TEMPORARY_EXTENSION,
};
use serde_json::Value;
use std::path::PathBuf;

/// The files that a save touches.
struct Disk {
    file: Option<Vec<u8>>,
    temporary: Option<Vec<u8>>,
    backup: Option<Vec<u8>>,
    refuse: Option<SaveStep>,
    steps: Vec<SaveStep>,
}

impl Disk {
    fn new() -> Disk {
        Disk { file: None, temporary: None, backup: None, refuse: None, steps: Vec::new() }
    }

    fn holding(bytes: &[u8]) -> Disk {
        Disk { file: Some(bytes.to_vec()), ..Disk::new() }
    }

    fn perform(&mut self, pending: &PendingSave) -> StepOutcome {
        self.steps.push(pending.step);
        if self.refuse == Some(pending.step) {
            return StepOutcome::Failed("disk full".to_string());
        }
        match pending.step {
            SaveStep::CreateDirectory => StepOutcome::Done,
            SaveStep::CopyBackup => match &self.file {
                Some(bytes) => {
                    self.backup = Some(bytes.clone());
                    StepOutcome::Done
                }
                None => StepOutcome::NotFound("no such file".to_string()),
            },
            SaveStep::WriteTemporary => {
                self.temporary = Some(encode(&pending.profiles));
                StepOutcome::Done
            }
            SaveStep::Replace => {
                self.file = self.temporary.take();
                StepOutcome::Done
            }
        }
    }

    fn read(&self) -> Stored {
        match &self.file {
            None => Stored::Missing,
            Some(bytes) => decode(bytes),
        }
    }

    fn load(&self) -> (Settings, Option<String>) {
        Settings::load_from(path(), self.read())
    }

    fn save(&mut self, settings: &mut Settings, profiles: Vec<Profile>) -> Result<(), String> {
        let mut pending = settings.save(profiles)?;
        loop {
            let outcome = self.perform(&pending);
            match settings.resume(pending, outcome) {
                SaveProgress::Continue(next) => pending = next,
                SaveProgress::Saved => return Ok(()),
                SaveProgress::Failed(error) => return Err(error),
            }
        }
    }

    fn save_profile(&mut self, editor: &mut Editor) -> Result<String, Invalid> {
        let mut save: ProfileSave = editor.save()?;
        loop {
            let outcome = self.perform(&save.pending);
            match editor.resume_save(save, outcome) {
                ProfileSaveProgress::Continue(next) => save = next,
                ProfileSaveProgress::Saved(name) => return Ok(name),
                ProfileSaveProgress::Failed(invalid) => return Err(invalid),
            }
        }
    }

    fn delete_profile(&mut self, editor: &mut Editor, name: &str) -> Result<(), String> {
        let mut delete: ProfileDelete = editor.delete(name)?;
        loop {
            let outcome = self.perform(&delete.pending);
            match editor.resume_delete(delete, outcome) {
                ProfileDeleteProgress::Continue(next) => delete = next,
                ProfileDeleteProgress::Deleted => return Ok(()),
                ProfileDeleteProgress::Failed(error) => return Err(error),
            }
        }
    }
}

fn path() -> PathBuf {
    PathBuf::from("profiles.json")
}

fn encode(profiles: &[Profile]) -> Vec<u8> {
    let entries = profiles
        .iter()
        .map(|profile| {
            let mut entry = serde_json::Map::new();
            entry.insert("name".to_string(), Value::from(profile.name.as_str()));
            entry.insert("host".to_string(), Value::from(profile.host.as_str()));
            entry.insert("upstream_port".to_string(), Value::from(profile.upstream_port));
            entry.insert("local_port".to_string(), Value::from(profile.local_port));
            entry.insert("download_kib".to_string(), Value::from(profile.download_kib));
            entry.insert("upload_kib".to_string(), Value::from(profile.upload_kib));
            entry.insert("limited".to_string(), Value::from(profile.limited));
            Value::Object(entry)
        })
        .collect();
    let mut stored = serde_json::Map::new();
    stored.insert("profiles".to_string(), Value::Array(entries));
    serde_json::to_vec_pretty(&Value::Object(stored)).unwrap()
}

fn decode(bytes: &[u8]) -> Stored {
    match serde_json::from_slice::<Value>(bytes) {
        Err(error) => Stored::Unreadable(error.to_string()),
        Ok(value) => Stored::Entries(match value.get("profiles") {
            Some(Value::Array(entries)) => entries.iter().map(entry).collect(),
            _ => Vec::new(),
        }),
    }
}

fn entry(value: &Value) -> Option<Profile> {
    Some(Profile {
        name: value.get("name")?.as_str()?.to_string(),
        host: value.get("host")?.as_str()?.to_string(),
        upstream_port: u16::try_from(value.get("upstream_port")?.as_u64()?).ok()?,
        local_port: u16::try_from(value.get("local_port")?.as_u64()?).ok()?,
        download_kib: value.get("download_kib")?.as_u64()?,
        upload_kib: value.get("upload_kib")?.as_u64()?,
        limited: match value.get("limited") {
            Some(limited) => limited.as_bool()?,
            None => false,
        },
    })
}

fn parse(bytes: &[u8]) -> (Settings, usize) {
    match decode(bytes) {
        Stored::Entries(entries) => Settings::parse(entries),
        other => panic!("{other:?}"),
    }
}

fn saved(name: &str) -> Profile {
    Profile { name: name.to_string(), ..Profile::default() }
}

fn editor_with(disk: &mut Disk, profiles: &[&str]) -> Editor {
    let (mut settings, _) = disk.load();
    disk.save(&mut settings, profiles.iter().map(|name| saved(name)).collect()).unwrap();
    Editor::new(settings)
}

fn names(profiles: &[Profile]) -> Vec<String> {
    profiles.iter().map(|profile| profile.name.clone()).collect()
}

fn problem_of(result: Result<String, Invalid>) -> String {
    match result {
        Err(Invalid::Profile(text)) => text,
        other => panic!("{other:?}"),
    }
}

#[test]
fn invalid_rates_restore_the_active_ones() {
    let mut editor = Editor::new(Settings::default());
    editor.form.download = "0".into();
    assert!(editor.commit_rates().is_err());
    assert_eq!(editor.form.download, "128");
    editor.form.download = " 64 ".into();
    editor.commit_rates().unwrap();
    assert_eq!(editor.rates().download, 64);
    assert!(editor.has_unsaved_changes());
}

#[test]
fn presets_apply_to_both_directions() {
    let mut editor = Editor::new(Settings::default());
    editor.apply_preset(16).unwrap();
    assert_eq!(
        editor.limits().bytes_per_second,
        PerDirection { download: 16 * 1024, upload: 16 * 1024 }
    );
    assert!(!editor.rates_pending());
}

#[test]
fn commit_trims_and_validates() {
    let mut editor = Editor::new(Settings::default());
    editor.form.name = "  Prod  ".into();
    assert_eq!(editor.commit().ok().unwrap().name, "Prod");
    assert_eq!(editor.form.name, "Prod");
    editor.form.local_port = "0".into();
    assert!(matches!(editor.commit(), Err(Invalid::Profile(_))));
}

#[test]
fn saving_the_selected_profile_renames_it_in_place() {
    let mut disk = Disk::new();
    let mut editor = editor_with(&mut disk, &["First", "Second"]);
    assert_eq!(editor.selected(), Some("First"));
    editor.form.name = "Renamed".into();
    assert_eq!(disk.save_profile(&mut editor).ok().unwrap(), "Renamed");
    assert_eq!(names(editor.profiles()), ["Renamed", "Second"]);
    assert!(!editor.has_unsaved_changes());
    let (reloaded, problem) = disk.load();
    assert!(problem.is_none());
    assert_eq!(reloaded.profiles(), editor.profiles());
}

#[test]
fn saving_under_another_profiles_name_is_refused() {
    let mut disk = Disk::new();
    let mut editor = editor_with(&mut disk, &["First", "Second"]);
    editor.form.name = "Second".into();
    assert!(matches!(disk.save_profile(&mut editor), Err(Invalid::Profile(_))));
    assert_eq!(editor.profiles().len(), 2);
    assert_eq!(editor.selected(), Some("First"));
    assert_eq!(
        problem_of(disk.save_profile(&mut editor)),
        "Another profile is already named \"Second\"."
    );
}

#[test]
fn a_new_profile_is_added_and_selected_on_save() {
    let mut disk = Disk::new();
    let mut editor = editor_with(&mut disk, &["First"]);
    editor.open(&Choice::New);
    assert_eq!(editor.selected(), None);
    assert_eq!(editor.form.name, NEW_PROFILE);
    disk.save_profile(&mut editor).ok().unwrap();
    assert_eq!(editor.profiles().len(), 2);
    assert_eq!(editor.selected(), Some(NEW_PROFILE));
}

#[test]
fn deleting_keeps_the_form_and_clears_the_selection() {
    let mut disk = Disk::new();
    let mut editor = editor_with(&mut disk, &["First", "Second"]);
    disk.delete_profile(&mut editor, "First").unwrap();
    assert_eq!(editor.selected(), None);
    assert_eq!(editor.form.name, "First");
    assert_eq!(editor.profiles().len(), 1);
    let (reloaded, _) = disk.load();
    assert_eq!(reloaded.profiles().len(), 1);
}

#[test]
fn opening_a_missing_profile_changes_nothing() {
    let mut editor = Editor::new(Settings::default());
    editor.form.name = "Edited".into();
    editor.open(&Choice::Saved("Gone".into()));
    assert_eq!(editor.form.name, "Edited");
}

#[test]
fn saved_profiles_load_back_from_disk() {
    let mut disk = Disk::new();
    let (mut settings, problem) = disk.load();
    assert!(problem.is_none());
    assert!(settings.profiles().is_empty());
    disk.save(&mut settings, vec![Profile::default()]).unwrap();
    let (reloaded, problem) = disk.load();
    assert!(problem.is_none());
    assert_eq!(reloaded.profiles(), [Profile::default()]);
    assert!(disk.backup.is_none());
}

#[test]
fn unreadable_file_is_backed_up_before_the_next_save() {
    let mut disk = Disk::holding(b"not json");
    let (mut settings, problem) = disk.load();
    assert!(problem.is_some());
    assert!(settings.profiles().is_empty());
    disk.save(&mut settings, vec![Profile::default()]).unwrap();
    assert_eq!(disk.backup.as_deref(), Some(&b"not json"[..]));
    let (reloaded, problem) = disk.load();
    assert!(problem.is_none());
    assert_eq!(reloaded.profiles().len(), 1);
}

#[test]
fn saving_without_a_path_fails_and_keeps_the_profiles() {
    let settings = Settings::default();
    assert!(settings.save(vec![Profile::default()]).is_err());
    assert!(settings.profiles().is_empty());
}

#[test]
fn profiles_round_trip() {
    let profiles = [Profile::default()];
    let bytes = encode(&profiles);
    let (restored, skipped) = parse(&bytes);
    assert_eq!(skipped, 0);
    assert_eq!(restored.profiles(), profiles);
    // Nothing was left out, so the next save copies nothing aside.
    let mut disk = Disk::holding(&bytes);
    let (mut settings, _) = disk.load();
    disk.save(&mut settings, Vec::new()).unwrap();
    assert_eq!(
        disk.steps,
        [SaveStep::CreateDirectory, SaveStep::WriteTemporary, SaveStep::Replace]
    );
}

#[test]
fn invalid_profiles_are_skipped_and_the_rest_kept() {
    let bytes = br#"{"profiles": [
        {"name": "Good", "host": "db", "upstream_port": 1433, "local_port": 11433,
         "download_kib": 64, "upload_kib": 64},
        {"name": "Zero rate", "host": "db", "upstream_port": 1433, "local_port": 11433,
         "download_kib": 0, "upload_kib": 64},
        {"name": "Missing fields"}
    ]}"#;
    let (settings, skipped) = parse(bytes);
    assert_eq!(skipped, 2);
    assert_eq!(settings.profiles().len(), 1);
    assert_eq!(settings.profiles()[0].name, "Good");
    // Entries were left out, so the next save copies the file aside first.
    let mut disk = Disk::holding(bytes);
    let (mut loaded, problem) = disk.load();
    assert_eq!(
        problem.as_deref(),
        Some(
            "Skipped 2 invalid saved profile(s). The next save keeps the original file as \
             profiles.json.bak."
        )
    );
    disk.save(&mut loaded, Vec::new()).unwrap();
    assert_eq!(disk.backup.as_deref(), Some(&bytes[..]));
    // Once that is done, the save after it does not.
    disk.steps.clear();
    disk.save(&mut loaded, Vec::new()).unwrap();
    assert_eq!(
        disk.steps,
        [SaveStep::CreateDirectory, SaveStep::WriteTemporary, SaveStep::Replace]
    );
}

#[test]
fn invalid_rates_and_endpoints_are_rejected() {
    let mut profile = Profile { download_kib: 0, ..Profile::default() };
    assert!(profile.validate().is_err());
    profile.download_kib = 128;
    for host in ["https://localhost", "localhost:1433", "localhost,1433", "db\\SQL"] {
        profile.host = host.into();
        assert!(profile.validate().is_err(), "{host}");
    }
}

#[test]
fn ipv6_hosts_are_accepted_and_bracketed() {
    let profile = Profile { host: "::1".into(), ..Profile::default() };
    profile.validate().unwrap();
    assert_eq!(profile.target(), "[::1]:1433");
    let bracketed = Profile { host: "[::1]".into(), ..Profile::default() };
    assert_eq!(bracketed.target(), "[::1]:1433");
    assert_eq!(Profile::default().target(), "127.0.0.1:1433");
}

#[test]
fn field_parsing_uses_shared_ranges() {
    assert_eq!(parse_port(" 1433 "), Some(1433));
    assert_eq!(parse_port("0"), None);
    assert_eq!(parse_port("65536"), None);
    assert_eq!(parse_rate("1000000"), Some(1_000_000));
    assert_eq!(parse_rate("1000001"), None);
    assert_eq!(parse_rate("0"), None);
}

#[test]
fn fields_take_what_a_number_may_look_like() {
    assert_eq!(parse_port("65535"), Some(65535));
    assert_eq!(parse_port("+80"), Some(80));
    assert_eq!(parse_port("0080"), Some(80));
    assert_eq!(parse_port("\u{3000}80\n"), Some(80));
    for text in ["", " ", "-1", "+", "++1", "8 0", "80.0", "0x50", "٣", "99999999999999999999999"] {
        assert_eq!(parse_port(text), None, "{text}");
        assert_eq!(parse_rate(text), None, "{text}");
    }
    assert_eq!(parse_rate("1"), Some(1));
    assert_eq!(parse_rate("00000000000000000000000000001"), Some(1));
    assert_eq!(parse_rate("18446744073709551616"), None);
}

#[test]
fn ports_and_rates_are_read_back_as_written() {
    for port in [1_u16, 80, 1433, 65535] {
        assert_eq!(parse_port(&port.to_string()), Some(port));
    }
    for rate in [1_u64, 128, 999_999, 1_000_000] {
        assert_eq!(parse_rate(&rate.to_string()), Some(rate));
    }
}

#[test]
fn each_problem_of_a_profile_is_named() {
    fn problem(change: fn(&mut Profile)) -> Option<&'static str> {
        let mut profile = Profile::default();
        change(&mut profile);
        profile.validate().err()
    }
    assert_eq!(problem(|_| {}), None);
    assert_eq!(problem(|p| p.name = " \t".into()), Some("Enter a profile name."));
    assert_eq!(problem(|p| p.host = "  ".into()), Some("Enter a destination host."));
    assert_eq!(problem(|p| p.host = "[]".into()), Some("Enter a destination host."));
    for host in ["a/b", "db\\SQL", "a b", "a\tb", "a\nb", "a\rb"] {
        let profile = Profile { host: host.into(), ..Profile::default() };
        assert_eq!(
            profile.validate().err(),
            Some("Enter a hostname or IP address, not a URL or instance name."),
            "{host}"
        );
    }
    for host in ["localhost:1433", "localhost,1433", ":", "1:2", "::1,1433", "fe80::1::2"] {
        let profile = Profile { host: host.into(), ..Profile::default() };
        assert_eq!(
            profile.validate().err(),
            Some("Enter the destination port in its own field, not in the host."),
            "{host}"
        );
    }
    assert_eq!(problem(|p| p.upstream_port = 0), Some(PORT_ERROR));
    assert_eq!(problem(|p| p.local_port = 0), Some(PORT_ERROR));
    assert_eq!(problem(|p| p.download_kib = 0), Some(RATE_ERROR));
    assert_eq!(problem(|p| p.upload_kib = 1_000_001), Some(RATE_ERROR));
}

#[test]
fn hosts_may_carry_a_zone_brackets_and_space() {
    for host in ["fe80::1%eth0", "[fe80::1%eth0]", "  [::1]  ", "db", "1.2.3.4", "a%b"] {
        let profile = Profile { host: host.into(), ..Profile::default() };
        assert_eq!(profile.validate(), Ok(()), "{host}");
    }
    let zoned = Profile { host: " [fe80::1%eth0] ".into(), ..Profile::default() };
    assert_eq!(zoned.target(), "[fe80::1%eth0]:1433");
    let spaced = Profile { host: " db ".into(), upstream_port: 5432, ..Profile::default() };
    assert_eq!(spaced.target(), "db:5432");
}

#[test]
fn profiles_compare_by_every_field() {
    let profile = Profile::default();
    assert_eq!(profile, profile.clone());
    assert_ne!(profile, Profile { name: "Other".into(), ..Profile::default() });
    assert_ne!(profile, Profile { host: "db".into(), ..Profile::default() });
    assert_ne!(profile, Profile { upstream_port: 1, ..Profile::default() });
    assert_ne!(profile, Profile { local_port: 1, ..Profile::default() });
    assert_ne!(profile, Profile { download_kib: 1, ..Profile::default() });
    assert_ne!(profile, Profile { upload_kib: 1, ..Profile::default() });
    assert_ne!(profile, Profile { limited: true, ..Profile::default() });
}

#[test]
fn the_configuration_directory_is_the_first_that_is_set() {
    let set = |name: &str| Some(PathBuf::from(name));
    let file = default_path(set("appdata"), set("xdg"), set("home")).unwrap();
    assert_eq!(file.root, PathBuf::from("appdata"));
    assert_eq!(file.below, ["bandwidth-proxy", "profiles.json"]);
    let file = default_path(None, set("xdg"), set("home")).unwrap();
    assert_eq!(file.root, PathBuf::from("xdg"));
    assert_eq!(file.below, ["bandwidth-proxy", "profiles.json"]);
    let file = default_path(None, None, set("home")).unwrap();
    assert_eq!(file.root, PathBuf::from("home"));
    assert_eq!(file.below, [".config", "bandwidth-proxy", "profiles.json"]);
    assert!(default_path(None, None, None).is_none());
}

#[test]
fn loading_explains_what_went_wrong() {
    let (settings, problem) = Settings::load(None);
    assert!(settings.path().is_none());
    assert_eq!(
        problem.as_deref(),
        Some("Could not open saved profiles: Cannot locate the user configuration directory.")
    );
    let (settings, problem) =
        Settings::load(Some((path(), Stored::Unopenable("permission denied".to_string()))));
    assert_eq!(settings.path(), Some(&path()));
    assert_eq!(
        problem.as_deref(),
        Some("Could not open saved profiles: permission denied")
    );
    let (_, problem) =
        Settings::load(Some((path(), Stored::Unreadable("expected value".to_string()))));
    assert_eq!(
        problem.as_deref(),
        Some(
            "Could not read saved profiles (expected value). The next save keeps the original \
             file as profiles.json.bak."
        )
    );
    let (_, problem) = Settings::load(Some((path(), Stored::Missing)));
    assert_eq!(problem, None);
}

#[test]
fn the_backup_has_the_name_that_is_promised() {
    let file = PathBuf::from("profiles.json");
    assert_eq!(file.with_extension(BACKUP_EXTENSION), PathBuf::from("profiles.json.bak"));
    assert_eq!(file.with_extension(TEMPORARY_EXTENSION), PathBuf::from("profiles.tmp"));
}

#[test]
fn a_backup_of_a_file_that_is_gone_is_no_failure() {
    let mut disk = Disk::new();
    let (mut settings, _) =
        Settings::load_from(path(), Stored::Unopenable("permission denied".to_string()));
    disk.save(&mut settings, vec![Profile::default()]).unwrap();
    assert_eq!(
        disk.steps,
        [
            SaveStep::CreateDirectory,
            SaveStep::CopyBackup,
            SaveStep::WriteTemporary,
            SaveStep::Replace
        ]
    );
    assert!(disk.backup.is_none());
}

#[test]
fn a_save_that_fails_anywhere_changes_nothing() {
    for step in [
        SaveStep::CreateDirectory,
        SaveStep::CopyBackup,
        SaveStep::WriteTemporary,
        SaveStep::Replace,
    ] {
        let mut disk = Disk::holding(b"not json");
        let (mut settings, _) = disk.load();
        disk.refuse = Some(step);
        assert_eq!(
            disk.save(&mut settings, vec![Profile::default()]),
            Err("disk full".to_string())
        );
        assert!(settings.profiles().is_empty());
        assert_eq!(disk.file.as_deref(), Some(&b"not json"[..]));
        // The backup is still owed.
        disk.refuse = None;
        disk.steps.clear();
        disk.save(&mut settings, vec![Profile::default()]).unwrap();
        assert_eq!(disk.steps[1], SaveStep::CopyBackup);
        assert_eq!(disk.backup.as_deref(), Some(&b"not json"[..]));
    }
}

#[test]
fn a_missing_file_fails_every_step_but_the_backup() {
    for step in [SaveStep::CreateDirectory, SaveStep::WriteTemporary, SaveStep::Replace] {
        let (mut settings, _) = Settings::load_from(path(), Stored::Missing);
        let pending = PendingSave { profiles: Vec::new(), step };
        match settings.resume(pending, StepOutcome::NotFound("gone".to_string())) {
            SaveProgress::Failed(error) => assert_eq!(error, "gone"),
            other => panic!("{other:?}"),
        }
    }
}

#[test]
fn an_editor_without_profiles_shows_the_standard_one() {
    let editor = Editor::new(Settings::default());
    assert_eq!(editor.selected(), None);
    assert_eq!(editor.form.name, "Local SQL Server");
    assert_eq!(editor.form.host, "127.0.0.1");
    assert_eq!(editor.form.upstream_port, "1433");
    assert_eq!(editor.form.local_port, "11433");
    assert_eq!(editor.form.download, "128");
    assert_eq!(editor.form.upload, "128");
    assert!(!editor.form.limited);
    assert!(!editor.has_unsaved_changes());
    assert!(!editor.rates_pending());
}

#[test]
fn every_edit_is_an_unsaved_change() {
    fn edited(change: fn(&mut Editor)) -> bool {
        let mut editor = Editor::new(Settings::default());
        change(&mut editor);
        editor.has_unsaved_changes()
    }
    assert!(edited(|e| e.form.name.push('!')));
    assert!(edited(|e| e.form.host.push('!')));
    assert!(edited(|e| e.form.upstream_port = "1".into()));
    assert!(edited(|e| e.form.upstream_port = "none".into()));
    assert!(edited(|e| e.form.local_port = "1".into()));
    assert!(edited(|e| e.form.limited = true));
    assert!(edited(|e| e.form.rate_mut(Direction::Download).push('0')));
    assert!(edited(|e| e.form.rate_mut(Direction::Upload).push('0')));
    // White space around numbers is no change.
    assert!(!edited(|e| e.form.download = " 128 ".into()));
    assert!(!edited(|e| e.form.local_port = " 11433 ".into()));
    // White space in a name is.
    assert!(edited(|e| e.form.name.push(' ')));
}

#[test]
fn a_form_is_typed_as_a_whole() {
    let mut editor = Editor::new(Settings::default());
    editor.set_form(Form {
        name: "Typed".to_string(),
        host: "db".to_string(),
        upstream_port: "1".to_string(),
        local_port: "2".to_string(),
        download: "3".to_string(),
        upload: "4".to_string(),
        limited: true,
    });
    assert_eq!(editor.form().name, "Typed");
    let profile = editor.commit().ok().unwrap();
    assert_eq!(profile.target(), "db:1");
    assert_eq!(editor.limits().bytes_per_second.upload, 4096);
}

#[test]
fn opening_discards_edits() {
    let mut disk = Disk::new();
    let mut editor = editor_with(&mut disk, &["First", "Second"]);
    editor.form.name = "Edited".into();
    editor.form.download = "7".into();
    editor.open(&Choice::Saved("Second".into()));
    assert_eq!(editor.form.name, "Second");
    assert_eq!(editor.form.download, "128");
    assert_eq!(editor.selected(), Some("Second"));
    assert!(!editor.has_unsaved_changes());
    assert_eq!(Choice::New.name(), "New profile");
    assert_eq!(Choice::Saved("Second".into()).name(), "Second");
}

#[test]
fn a_commit_settles_and_repeats() {
    let mut editor = Editor::new(Settings::default());
    editor.form.host = " [::1] ".into();
    editor.form.upload = " 0512".into();
    assert!(editor.rates_pending());
    let first = editor.commit().ok().unwrap();
    assert_eq!(first.host, "[::1]");
    assert_eq!(editor.form.upload, "512");
    assert!(!editor.rates_pending());
    let second = editor.commit().ok().unwrap();
    assert_eq!(first, second);
}

#[test]
fn a_commit_says_what_is_wrong() {
    let mut editor = Editor::new(Settings::default());
    editor.form.upload = "many".into();
    match editor.commit() {
        Err(Invalid::Rates(text)) => assert_eq!(
            text,
            "Rates must be whole numbers from 1 to 1,000,000 KiB/s. The previous rates are still \
             active."
        ),
        other => panic!("{other:?}"),
    }
    // The typed text is gone, the active rates are back.
    assert_eq!(editor.form.upload, "128");
    editor.form.upstream_port = "x".into();
    match editor.commit() {
        Err(Invalid::Profile(text)) => assert_eq!(text, PORT_ERROR),
        other => panic!("{other:?}"),
    }
    editor.form.upstream_port = "1".into();
    editor.form.name = "   ".into();
    match editor.commit() {
        Err(Invalid::Profile(text)) => assert_eq!(text, "Enter a profile name."),
        other => panic!("{other:?}"),
    }
    assert_eq!(editor.form.name, "   ");
}

#[test]
fn one_invalid_rate_applies_neither() {
    let mut editor = Editor::new(Settings::default());
    editor.form.download = "64".into();
    editor.form.upload = "1000001".into();
    assert!(editor.commit_rates().is_err());
    assert_eq!(editor.rates(), PerDirection { download: 128, upload: 128 });
    assert!(editor.apply_preset(0).is_err());
    assert_eq!(editor.rates(), PerDirection { download: 128, upload: 128 });
    assert!(!editor.rates_pending());
}

#[test]
fn the_rate_shown_is_the_typed_one_if_it_is_valid() {
    let mut editor = Editor::new(Settings::default());
    editor.form.download = "64".into();
    editor.form.upload = "x".into();
    assert_eq!(editor.shown_rate(Direction::Download), 64);
    assert_eq!(editor.shown_rate(Direction::Upload), 128);
    assert!(editor.preset_active(128));
    assert!(!editor.preset_active(64));
    assert_eq!(editor.caps(), None);
    editor.form.limited = true;
    assert_eq!(editor.caps(), Some(PerDirection { download: 128, upload: 128 }));
    assert_eq!(editor.local_port(), Some(11433));
    editor.form.local_port = " 9 ".into();
    assert_eq!(editor.route_text(), "127.0.0.1:9 -> 127.0.0.1:1433");
}

#[test]
fn saving_reports_a_disk_that_refuses() {
    let mut disk = Disk::new();
    let mut editor = editor_with(&mut disk, &["First"]);
    editor.form.name = "Renamed".into();
    disk.refuse = Some(SaveStep::WriteTemporary);
    assert_eq!(problem_of(disk.save_profile(&mut editor)), "Could not save: disk full");
    assert_eq!(names(editor.profiles()), ["First"]);
    assert_eq!(editor.selected(), Some("First"));
    assert!(editor.has_unsaved_changes());
    assert_eq!(disk.delete_profile(&mut editor, "First"), Err("disk full".to_string()));
    assert_eq!(names(editor.profiles()), ["First"]);
    assert_eq!(editor.selected(), Some("First"));
}

#[test]
fn saving_needs_a_configuration_directory() {
    let mut editor = Editor::new(Settings::default());
    assert!(editor.path().is_none());
    match editor.save() {
        Err(Invalid::Profile(text)) => {
            assert_eq!(text, format!("Could not save: {NO_CONFIG_DIRECTORY}"))
        }
        other => panic!("{other:?}"),
    }
    match editor.delete("First") {
        Err(error) => assert_eq!(error, NO_CONFIG_DIRECTORY),
        other => panic!("{other:?}"),
    }
}

#[test]
fn deleting_another_profile_keeps_the_selection() {
    let mut disk = Disk::new();
    let mut editor = editor_with(&mut disk, &["First", "Second", "Third"]);
    disk.delete_profile(&mut editor, "Second").unwrap();
    assert_eq!(names(editor.profiles()), ["First", "Third"]);
    assert_eq!(editor.selected(), Some("First"));
    assert!(!editor.has_unsaved_changes());
    disk.delete_profile(&mut editor, "Gone").unwrap();
    assert_eq!(names(editor.profiles()), ["First", "Third"]);
}

#[test]
fn names_stay_distinct() {
    let mut disk = Disk::new();
    let mut editor = editor_with(&mut disk, &["First", "Second"]);
    editor.open(&Choice::New);
    editor.form.name = " Second ".into();
    assert_eq!(
        problem_of(disk.save_profile(&mut editor)),
        "Another profile is already named \"Second\"."
    );
    editor.form.name = "Third".into();
    disk.save_profile(&mut editor).ok().unwrap();
    assert_eq!(names(editor.profiles()), ["First", "Second", "Third"]);
    // Saving the selected profile under its own name is fine.
    disk.save_profile(&mut editor).ok().unwrap();
    assert_eq!(names(editor.profiles()), ["First", "Second", "Third"]);
}
