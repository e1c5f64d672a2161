//! The window: notices, questions, runs and the texts beside the controls.

use bandwidth_proxy::editor::{Choice, Invalid, ProfileSave};
use bandwidth_proxy::gate::SECOND;
use bandwidth_proxy::graph::{Rate, Sample};
use bandwidth_proxy::labels::{
    connections_text, copied, dialog_answer, endpoint_address, endpoint_sql_server, event_line,
    events_heading, legend_text, list_height, megabits, pointed_rate_text, pointed_time_text,
    preset_hint, row_chosen, row_fill, totals_text, RowFill,
};
use bandwidth_proxy::proxy::{Direction, Event, Level, Limits, PerDirection};
use bandwidth_proxy::session::{Status, Worker};
use bandwidth_proxy::settings::{Profile, Settings, StepOutcome, Stored};
use bandwidth_proxy::theme::{direction_color, status_color, tint, Accent, Rgb};
use bandwidth_proxy::window::{
    Answered, App, Modal, Place, DISCONNECT_WARNING, NOTICE_NANOS, PRESETS,
};
use std::path::PathBuf;

fn profile(name: &str) -> Profile {
    Profile { name: name.to_string(), ..Profile::default() }
}

fn app_with(names: &[&str]) -> App {
    let entries = names.iter().map(|name| Some(profile(name))).collect();
    let (settings, problem) =
        Settings::load(Some((PathBuf::from("profiles.json"), Stored::Entries(entries))));
    App::new(settings, problem, 0)
}

fn notice(app: &App) -> Option<(Place, bool, String)> {
    app.notice.as_ref().map(|notice| (notice.place, notice.error, notice.text.clone()))
}

fn names(app: &App) -> Vec<String> {
    app.editor.profiles().iter().map(|profile| profile.name.clone()).collect()
}

fn finish_save(app: &mut App, save: Option<ProfileSave>, now: u64) {
    let mut next = save;
    while let Some(save) = next {
        next = app.resume_save(save, StepOutcome::Done, now);
    }
}

#[test]
fn a_window_starts_with_what_could_not_be_loaded() {
    let app = app_with(&["First"]);
    assert_eq!(notice(&app), None);
    assert!(!app.running());
    assert_eq!(app.status(true), Status::Offline);
    let (settings, problem) = Settings::load(None);
    let app = App::new(settings, problem, 3);
    let (place, error, _) = notice(&app).unwrap();
    assert_eq!((place, error), (Place::Profiles, true));
    assert_eq!(app.notice.unwrap().shown_at, 3);
}

#[test]
fn confirmations_expire_and_errors_stay() {
    let mut app = app_with(&[]);
    app.notify(Place::Header, false, "Saved".to_string(), 10);
    assert_eq!(app.expire_notice(10), Some(NOTICE_NANOS));
    assert_eq!(app.expire_notice(10 + NOTICE_NANOS), Some(0));
    assert!(app.notice.is_some());
    assert_eq!(app.expire_notice(11 + NOTICE_NANOS), None);
    assert!(app.notice.is_none());
    app.notify(Place::Header, true, "Broken".to_string(), 10);
    assert_eq!(app.expire_notice(u64::MAX), None);
    assert!(app.notice.is_some());
}

#[test]
fn notices_are_shown_where_they_belong() {
    let mut app = app_with(&[]);
    app.report(Invalid::Rates("rates".to_string()), 1);
    assert_eq!(notice(&app), Some((Place::Bandwidth, true, "rates".to_string())));
    app.clear_notice(Place::Header);
    assert!(app.notice.is_some());
    assert!(app.notice_at(Place::Header).is_none());
    assert_eq!(app.notice_at(Place::Bandwidth).unwrap().text, "rates");
    app.rates_applied(Ok(()), 2);
    assert!(app.notice.is_none());
    app.rates_applied(Err("bad".to_string()), 3);
    assert_eq!(notice(&app), Some((Place::Bandwidth, true, "bad".to_string())));
    app.report(Invalid::Profile("profile".to_string()), 4);
    assert_eq!(notice(&app), Some((Place::Header, true, "profile".to_string())));
}

#[test]
fn edits_are_not_discarded_without_asking() {
    let mut app = app_with(&["First", "Second"]);
    app.request_open(Choice::Saved("Second".to_string()));
    assert_eq!(app.editor.form.name, "Second");
    assert!(matches!(app.modal, Modal::Absent));
    app.editor.form.name = "Edited".to_string();
    app.request_open(Choice::New);
    assert_eq!(app.editor.form.name, "Edited");
    let dialog = app.dialog().unwrap();
    assert_eq!(dialog.title, "Discard unsaved changes?");
    assert_eq!(
        dialog.body,
        "Your edits to \"Edited\" are not saved. Opening \"New profile\" discards them."
    );
    assert_eq!(dialog.confirm, "Discard changes");
    assert!(matches!(app.answer(None, 1), Answered::Nothing));
    assert!(app.dialog().is_some());
    assert!(matches!(app.answer(Some(false), 1), Answered::Nothing));
    assert!(app.dialog().is_none());
    assert_eq!(app.editor.form.name, "Edited");
    app.request_open(Choice::New);
    assert!(matches!(app.answer(Some(true), 1), Answered::Nothing));
    assert_eq!(app.editor.form.name, "New profile");
    assert!(app.dialog().is_none());
}

#[test]
fn opening_removes_notices_about_other_values() {
    let mut app = app_with(&["First"]);
    app.notify(Place::Bandwidth, true, "old".to_string(), 1);
    app.open_profile(&Choice::New);
    assert!(app.notice.is_none());
    app.notify(Place::Profiles, true, "kept".to_string(), 1);
    app.open_profile(&Choice::New);
    assert!(app.notice.is_some());
}

#[test]
fn a_run_starts_with_the_committed_form() {
    let mut app = app_with(&["First"]);
    app.notify(Place::Header, true, "old".to_string(), 1);
    app.editor.form.host = " ::1 ".to_string();
    app.editor.form.limited = true;
    app.editor.form.upload = "16".to_string();
    let launch = app.start(9).unwrap();
    assert_eq!(launch.local_port, 11433);
    assert_eq!(launch.target, "[::1]:1433");
    assert_eq!(
        launch.limits,
        Limits {
            enabled: true,
            bytes_per_second: PerDirection { download: 128 * 1024, upload: 16 * 1024 }
        }
    );
    assert_eq!(launch.stats.events().len(), 1);
    assert!(app.notice.is_none());
    assert!(app.running());
    assert_eq!(app.session.as_ref().unwrap().started, 9);
    assert_eq!(app.status(false), Status::Starting);
    assert_eq!(app.update_limits(), None);
    app.editor.form.limited = false;
    assert_eq!(app.update_limits(), Some(Limits { enabled: false, ..launch.limits }));
    assert_eq!(app.update_limits(), None);
}

#[test]
fn a_form_that_cannot_be_used_starts_nothing() {
    let mut app = app_with(&["First"]);
    app.editor.form.local_port = "0".to_string();
    assert!(app.start(9).is_none());
    assert!(!app.running());
    assert_eq!(
        notice(&app),
        Some((
            Place::Header,
            true,
            "Ports must be whole numbers from 1 to 65535.".to_string()
        ))
    );
    assert_eq!(app.update_limits(), None);
}

#[test]
fn clients_are_not_disconnected_without_asking() {
    let mut app = app_with(&["First"]);
    assert!(!app.request_stop(3));
    assert!(app.dialog().is_none());
    app.start(1).unwrap();
    assert!(!app.request_stop(3));
    assert_eq!(app.status(true), Status::Listening);
    let dialog = app.dialog().unwrap();
    assert_eq!(dialog.title, "Stop this proxy?");
    assert_eq!(dialog.body, DISCONNECT_WARNING);
    assert_eq!(dialog.confirm, "Disconnect and stop");
    assert!(matches!(app.answer(Some(true), 2), Answered::Stop));
    assert_eq!(app.status(true), Status::Stopping);
    // Without clients there is nothing to ask.
    let mut app = app_with(&["First"]);
    app.start(1).unwrap();
    assert!(app.request_stop(0));
    assert!(app.dialog().is_none());
    assert_eq!(app.status(true), Status::Stopping);
}

#[test]
fn a_window_is_not_closed_over_a_run_without_asking() {
    let mut app = app_with(&["First"]);
    assert!(!app.request_close());
    let mut stats = app.start(1).unwrap().stats;
    assert!(app.request_close());
    let dialog = app.dialog().unwrap();
    assert_eq!(dialog.title, "Close Bandwidth Proxy?");
    assert_eq!(dialog.confirm, "Disconnect and close");
    assert!(!app.allow_close);
    assert!(matches!(app.answer(Some(true), 2), Answered::StopAndClose));
    assert!(app.allow_close);
    assert!(!app.request_close());
    assert_eq!(app.status(true), Status::Stopping);
    // Nor is there anything to ask once the run is over.
    let mut app = app_with(&["First"]);
    app.start(1).unwrap();
    app.session.as_mut().unwrap().reap(Worker::Finished, &mut stats, 3);
    assert!(!app.request_close());
}

#[test]
fn saving_and_deleting_are_confirmed() {
    let mut app = app_with(&["First"]);
    app.editor.form.name = "Renamed".to_string();
    let save = app.save_profile(1);
    assert!(save.is_some());
    finish_save(&mut app, save, 2);
    assert_eq!(names(&app), ["Renamed"]);
    assert_eq!(notice(&app), Some((Place::Header, false, "Saved \"Renamed\".".to_string())));
    app.request_delete();
    let dialog = app.dialog().unwrap();
    assert_eq!(dialog.title, "Delete saved profile?");
    assert_eq!(dialog.body, "Delete \"Renamed\"? This cannot be undone.");
    assert_eq!(dialog.confirm, "Delete");
    let mut next = match app.answer(Some(true), 3) {
        Answered::Delete(delete) => Some(delete),
        other => panic!("{other:?}"),
    };
    assert_eq!(names(&app), ["Renamed"]);
    while let Some(delete) = next {
        next = app.resume_delete(delete, StepOutcome::Done, 4);
    }
    assert!(names(&app).is_empty());
    assert_eq!(
        notice(&app),
        Some((
            Place::Profiles,
            false,
            "Deleted \"Renamed\". Its values stay in the form, unsaved.".to_string()
        ))
    );
    app.request_delete();
    assert!(app.dialog().is_none());
}

#[test]
fn a_disk_that_refuses_is_reported() {
    let mut app = app_with(&["First"]);
    let save = app.save_profile(1).unwrap();
    assert!(app.resume_save(save, StepOutcome::Failed("full".to_string()), 2).is_none());
    assert_eq!(
        notice(&app),
        Some((Place::Header, true, "Could not save: full".to_string()))
    );
    let delete = app.delete_profile("First", 3).unwrap();
    assert!(app.resume_delete(delete, StepOutcome::Failed("full".to_string()), 4).is_none());
    assert_eq!(
        notice(&app),
        Some((Place::Profiles, true, "Could not delete \"First\": full".to_string()))
    );
    assert_eq!(names(&app), ["First"]);
    let mut homeless = App::new(Settings::default(), None, 0);
    assert!(homeless.delete_profile("First", 5).is_none());
    assert_eq!(
        notice(&homeless),
        Some((
            Place::Profiles,
            true,
            "Could not delete \"First\": Cannot locate the user configuration directory"
                .to_string()
        ))
    );
    assert!(homeless.save_profile(6).is_none());
    assert_eq!(
        notice(&homeless),
        Some((
            Place::Header,
            true,
            "Could not save: Cannot locate the user configuration directory".to_string()
        ))
    );
}

#[test]
fn the_title_follows_the_status() {
    let mut app = app_with(&[]);
    assert_eq!(app.update_title(Status::Offline).as_deref(), Some("Bandwidth Proxy"));
    assert_eq!(app.update_title(Status::Offline), None);
    assert_eq!(
        app.update_title(Status::Listening).as_deref(),
        Some("Listening - Bandwidth Proxy")
    );
    assert_eq!(app.title, "Listening - Bandwidth Proxy");
}

#[test]
fn every_preset_can_be_set() {
    let mut app = app_with(&[]);
    for rate in PRESETS {
        app.editor.apply_preset(rate).unwrap();
        assert!(app.editor.preset_active(rate));
    }
}

#[test]
fn hints_follow_the_form_and_the_run() {
    let mut app = app_with(&["First"]);
    assert!(app.save_hint().is_none());
    assert!(app.profiles_hint().is_none());
    let hint = app.rates_hint().unwrap();
    assert_eq!(
        (hint.text, hint.warning),
        ("Limits are off. Traffic passes unrestricted.", false)
    );
    app.editor.form.limited = true;
    assert!(app.rates_hint().is_none());
    let hint = app.save_hint().unwrap();
    assert_eq!((hint.text, hint.warning), ("Unsaved changes", true));
    app.editor.form.download = "1".to_string();
    let hint = app.rates_hint().unwrap();
    assert_eq!((hint.text, hint.warning), ("Press Enter to apply.", true));
    let toggle = app.toggle(Status::Offline);
    assert_eq!((toggle.text, toggle.enabled), ("Start proxy", true));
    assert_eq!(toggle.fill, Accent::Download);
    app.start(1).unwrap();
    let toggle = app.toggle(Status::Listening);
    assert_eq!((toggle.text, toggle.enabled), ("Stop proxy", true));
    assert_eq!(toggle.fill, Accent::Danger);
    assert!(!app.toggle(Status::Stopping).enabled);
    assert_eq!(app.profiles_hint().unwrap().text, "Stop the proxy to switch profiles.");
    app.open_profile(&Choice::New);
    assert_eq!(app.save_hint().unwrap().text, "Not saved yet");
}

#[test]
fn texts_beside_the_controls() {
    assert_eq!(endpoint_address(11433), "127.0.0.1:11433");
    assert_eq!(endpoint_sql_server(11433), "tcp:127.0.0.1,11433");
    assert_eq!(copied("127.0.0.1:1"), "Copied 127.0.0.1:1");
    assert_eq!(preset_hint(512), "512 KiB/s in both directions");
    assert_eq!(connections_text(0), "0 connections");
    assert_eq!(connections_text(1), "1 connection");
    assert_eq!(connections_text(256), "256 connections");
    assert_eq!(events_heading(7), "Session events (7)");
    let totals = PerDirection { download: 1_572_864, upload: 1_048_576 * 3 + 10_486 };
    assert_eq!(totals_text(totals), "1.50 MiB down, 3.01 MiB up");
    for kib in [1_u64, 128, 4096, 1_000_000, u64::MAX] {
        let value = kib as f64 * 1024.0 * 8.0 / 1_000_000.0;
        assert_eq!(megabits(kib), format!("{value:.2} Mbit/s"));
    }
    for bytes in [0, 1, 5_243, 10_486, 1 << 53, (1 << 53) + 1, u64::MAX] {
        let totals = PerDirection { download: bytes, upload: 0 };
        let value = bytes as f64 / 1_048_576.0;
        assert_eq!(totals_text(totals), format!("{value:.2} MiB down, 0.00 MiB up"));
    }
    let event = Event { at: 100 * SECOND, level: Level::Info, text: "Started".to_string() };
    assert_eq!(event_line(&event, 25 * SECOND + 1), "1:14  Started");
    assert_eq!(event_line(&event, 200 * SECOND), "0:00  Started");
    for (count, height) in [(0, 104), (4, 104), (5, 130), (10, 260), (11, 260)] {
        assert_eq!(list_height(count), height);
    }
}

#[test]
fn rates_stand_beside_their_direction() {
    let rate = Rate { bytes: 1536, nanos: SECOND };
    assert_eq!(legend_text(Direction::Download, rate), "Download 1.5 KiB/s");
    assert_eq!(pointed_rate_text(Direction::Upload, Rate::idle()), "Upload: 0.0 KiB/s");
    let sample = Sample {
        at: 75 * SECOND + 7,
        kib_per_second: PerDirection { download: rate, upload: Rate::idle() },
    };
    assert_eq!(pointed_time_text(&sample), "Session 1:15");
    let mut app = app_with(&[]);
    assert_eq!(
        app.latest_rates(),
        PerDirection { download: Rate::idle(), upload: Rate::idle() }
    );
    app.start(0).unwrap();
    assert_eq!(app.latest_rates().download, Rate::idle());
    let session = app.session.as_mut().unwrap();
    session.sample(SECOND, PerDirection { download: 1536, upload: 0 });
    assert_eq!(app.latest_rates().download, rate);
}

#[test]
fn rows_and_dialogs_answer_to_mouse_and_keyboard() {
    assert_eq!(row_fill(true, false, true), RowFill::Selected);
    assert_eq!(row_fill(false, true, false), RowFill::Selected);
    assert_eq!(row_fill(false, false, true), RowFill::Hovered);
    assert_eq!(row_fill(false, false, false), RowFill::Plain);
    assert!(row_chosen(true, false, false, false));
    assert!(row_chosen(false, true, true, false));
    assert!(row_chosen(false, true, false, true));
    assert!(!row_chosen(false, true, false, false));
    assert!(!row_chosen(false, false, true, true));
    assert_eq!(dialog_answer(true, false, false), Some(true));
    assert_eq!(dialog_answer(false, true, false), Some(false));
    assert_eq!(dialog_answer(false, false, true), Some(false));
    assert_eq!(dialog_answer(true, false, true), Some(true));
    assert_eq!(dialog_answer(false, false, false), None);
}

#[test]
fn colors_tell_things_apart() {
    let rgb = |red, green, blue| Rgb { red, green, blue };
    assert_eq!(direction_color(Direction::Download), rgb(71, 211, 181));
    assert_eq!(direction_color(Direction::Upload), rgb(126, 164, 255));
    assert_eq!(status_color(Status::Offline), rgb(140, 140, 140));
    assert_eq!(status_color(Status::Starting), rgb(240, 196, 90));
    assert_eq!(status_color(Status::Stopping), rgb(240, 196, 90));
    assert_eq!(status_color(Status::Listening), rgb(71, 211, 181));
    assert_eq!(tint(Level::Info), None);
    assert_eq!(tint(Level::Error), Some(rgb(235, 110, 110)));
    assert_eq!(Accent::Card.rgb(), rgb(24, 30, 41));
    assert_eq!(Accent::Border.rgb(), rgb(40, 48, 62));
    assert_eq!(Accent::ButtonText.rgb(), rgb(10, 18, 22));
}
