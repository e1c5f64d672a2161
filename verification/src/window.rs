//! What the window shows, and what its controls do.

use crate::editor::{Choice, Editor, EditorView, Invalid, InvalidView, ProfileDelete, ProfileDeleteProgress, ProfileSave, ProfileSaveProgress};
use crate::proxy::{Limits, PerDirection, Stats, StatsView};
use crate::session::{starting_event, Session, SessionView, Status};
use crate::settings::{next_step, step_error, Settings, StepOutcome};
use crate::text::{joined, joined3};
use vstd::prelude::*;

verus! {

/// The rates, in KiB/s, that one click sets.
pub const PRESETS: [u64; 8] = [1, 4, 16, 64, 128, 512, 1024, 4096];

/// How long a confirmation stays, in nanoseconds.
pub const NOTICE_NANOS: u64 = 5_000_000_000;

/// Shown before clients are disconnected.
pub const DISCONNECT_WARNING: &'static str =
    "This disconnects clients and may interrupt a save or transaction. To remove throttling without disconnecting, turn off Limit traffic instead.";

/// A question that waits for an answer.
#[derive(Debug)]
pub enum Modal {
    /// There is none.
    Absent,
    Stop,
    Close,
    Delete(String),
    Discard(Choice),
}

/// The section that a notice is shown in.
#[derive(Clone, Copy, Debug, PartialEq, Eq, Structural)]
pub enum Place {
    Header,
    Profiles,
    Connection,
    Bandwidth,
}

/// A message to the user, and when it appeared.
#[derive(Debug)]
pub struct Notice {
    pub place: Place,
    pub text: String,
    pub error: bool,
    pub shown_at: u64,
}

impl Notice {
    /// Whether the notice is as described.
    pub open spec fn says(self, place: Place, error: bool, text: Seq<char>, now: u64) -> bool {
        self.place == place && self.error == error && self.text@ == text && self.shown_at == now
    }
}

/// The state of the window.
#[derive(Debug)]
pub struct App {
    pub editor: Editor,
    /// The current or most recent run, kept after it stops so that its history stays
    /// visible.
    pub session: Option<Session>,
    pub modal: Modal,
    pub allow_close: bool,
    pub notice: Option<Notice>,
    pub title: String,
}

/// What a run needs to start.
pub struct Launch {
    pub local_port: u16,
    pub target: String,
    pub limits: Limits,
    pub stats: Stats,
}

/// What the caller does after a question has been answered.
#[derive(Debug)]
pub enum Answered {
    Nothing,
    /// Tell the worker to stop, if there is one.
    Stop,
    /// Tell the worker to stop, if there is one, and close the window.
    StopAndClose,
    /// Go on with a deletion.
    Delete(ProfileDelete),
}

/// The limits of an editor whose rates fit.
pub open spec fn limits_of(editor: EditorView) -> Limits {
    Limits {
        enabled: editor.form.limited,
        bytes_per_second: PerDirection {
            download: (editor.rates.download * 1024) as u64,
            upload: (editor.rates.upload * 1024) as u64,
        },
    }
}

impl App {
    /// Whether the window shows a notice as described, and is otherwise as `before`.
    pub open spec fn notified(
        self,
        before: App,
        place: Place,
        error: bool,
        text: Seq<char>,
        now: u64,
    ) -> bool {
        &&& self.notice is Some
        &&& self.notice->0.says(place, error, text, now)
        &&& self == (App { notice: self.notice, ..before })
    }

    /// Whether the window shows why the form could not be used, and is otherwise as
    /// `before`.
    pub open spec fn reported(self, before: App, invalid: InvalidView, now: u64) -> bool {
        match invalid {
            InvalidView::Rates(text) => self.notified(before, Place::Bandwidth, true, text, now),
            InvalidView::Profile(text) => self.notified(before, Place::Header, true, text, now),
        }
    }

    /// The window at first: with `settings`, and a notice if there is a `problem`.
    pub fn new(settings: Settings, problem: Option<String>, now: u64) -> (app: Self)
        ensures
            app.editor@ == EditorView::starting(settings@),
            app.session is None,
            app.modal is Absent,
            !app.allow_close,
            app.title@ == Seq::<char>::empty(),
            problem is None ==> app.notice is None,
            problem matches Some(text) ==> app.notice is Some && app.notice->0.says(
                Place::Profiles,
                true,
                text@,
                now,
            ),
    {
        let mut app = App {
            editor: Editor::new(settings),
            session: None,
            modal: Modal::Absent,
            allow_close: false,
            notice: None,
            title: String::new(),
        };
        match problem {
            Some(text) => {
                app.notify(Place::Profiles, true, text, now);
            },
            None => {},
        }
        app
    }

    /// Whether a run is on.
    pub open spec fn is_running(self) -> bool {
        self.session is Some && self.session->0@.running
    }

    /// Whether a run is on.
    pub fn running(&self) -> (running: bool)
        ensures
            running == self.is_running(),
    {
        match &self.session {
            Some(session) => session.running(),
            None => false,
        }
    }

    /// What the current or most recent run is doing.
    pub fn status(&self, listening: bool) -> (status: Status)
        ensures
            status == match self.session {
                Some(session) => session@.status(listening),
                None => Status::Offline,
            },
    {
        match &self.session {
            Some(session) => session.status(listening),
            None => Status::Offline,
        }
    }

    /// Shows a notice in place of the one before.
    pub fn notify(&mut self, place: Place, error: bool, text: String, now: u64)
        ensures
            final(self).notified(*old(self), place, error, text@, now),
    {
        self.notice = Some(Notice { place, text, error, shown_at: now });
    }

    /// The notice that is shown in `place`, if there is one.
    pub fn notice_at(&self, place: Place) -> (found: Option<&Notice>)
        ensures
            found == if self.notice is Some && self.notice->0.place == place {
                Some(&self.notice->0)
            } else {
                None
            },
    {
        match &self.notice {
            Some(notice) => if notice.place == place {
                Some(notice)
            } else {
                None
            },
            None => None,
        }
    }

    /// Removes a notice that is shown in `place`.
    pub fn clear_notice(&mut self, place: Place)
        ensures
            *final(self) == if old(self).notice is Some && old(self).notice->0.place == place {
                App { notice: None, ..*old(self) }
            } else {
                *old(self)
            },
    {
        let found = match &self.notice {
            Some(notice) => notice.place == place,
            None => false,
        };
        if found {
            self.notice = None;
        }
    }

    /// Shows why the form could not be used, next to the section that it is about.
    pub fn report(&mut self, invalid: Invalid, now: u64)
        ensures
            final(self).reported(*old(self), invalid@, now),
    {
        match invalid {
            Invalid::Rates(text) => self.notify(Place::Bandwidth, true, text, now),
            Invalid::Profile(text) => self.notify(Place::Header, true, text, now),
        }
    }

    /// Removes a confirmation after a few seconds, or says how long it still stays.
    /// Errors stay until replaced.
    pub fn expire_notice(&mut self, now: u64) -> (remaining: Option<u64>)
        ensures
            ({
                let notice = old(self).notice;
                let passed = crate::session::minus(now, notice->0.shown_at);
                if notice is Some && !notice->0.error {
                    if passed <= NOTICE_NANOS {
                        remaining == Some((NOTICE_NANOS - passed) as u64) && *final(self) == *old(
                            self,
                        )
                    } else {
                        remaining is None && *final(self) == (App { notice: None, ..*old(self) })
                    }
                } else {
                    remaining is None && *final(self) == *old(self)
                }
            }),
            old(self).notice matches Some(notice) ==> (final(self).notice is None <==> !notice.error
                && now > notice.shown_at + 5_000_000_000),
            remaining matches Some(rest) ==> rest <= 5_000_000_000 && (now
                >= old(self).notice->0.shown_at ==> now + rest == old(self).notice->0.shown_at
                + 5_000_000_000),
    {
        let shown_at: u64 = match &self.notice {
            Some(notice) => if notice.error {
                return None;
            } else {
                notice.shown_at
            },
            None => {
                return None;
            },
        };
        let passed: u64 = if now > shown_at {
            now - shown_at
        } else {
            0
        };
        if passed <= NOTICE_NANOS {
            Some(NOTICE_NANOS - passed)
        } else {
            self.notice = None;
            None
        }
    }

    /// Shows what came of applying typed rates.
    pub fn rates_applied(&mut self, result: Result<(), String>, now: u64)
        ensures
            match result {
                Ok(_) => *final(self) == if old(self).notice is Some && old(self).notice->0.place
                    == Place::Bandwidth {
                    App { notice: None, ..*old(self) }
                } else {
                    *old(self)
                },
                Err(text) => final(self).notified(
                    *old(self),
                    Place::Bandwidth,
                    true,
                    text@,
                    now,
                ),
            },
    {
        match result {
            Ok(_) => self.clear_notice(Place::Bandwidth),
            Err(text) => self.notify(Place::Bandwidth, true, text, now),
        }
    }

    /// Opens `choice`, but asks first if that would discard edits.
    pub fn request_open(&mut self, choice: Choice)
        ensures
            old(self).editor@.has_unsaved_changes() ==> *final(self) == (App {
                modal: Modal::Discard(choice),
                ..*old(self)
            }),
            !old(self).editor@.has_unsaved_changes() ==> final(self).opened(*old(self), choice),
    {
        if self.editor.has_unsaved_changes() {
            self.modal = Modal::Discard(choice);
        } else {
            self.open_profile(&choice);
        }
    }

    /// Whether `choice` has been opened, which removes notices about other profiles'
    /// values, and all else is as `before`.
    pub open spec fn opened(self, before: App, choice: Choice) -> bool {
        &&& self.editor@ == before.editor@.opened(choice)
        &&& self.notice == if before.notice is Some && before.notice->0.place != Place::Profiles {
            None
        } else {
            before.notice
        }
        &&& self == (App { editor: self.editor, notice: self.notice, ..before })
    }

    /// Opens `choice`, discarding any edits.
    pub fn open_profile(&mut self, choice: &Choice)
        ensures
            final(self).opened(*old(self), *choice),
    {
        self.editor.open(choice);
        let stale = match &self.notice {
            Some(notice) => notice.place != Place::Profiles,
            None => false,
        };
        if stale {
            self.notice = None;
        }
    }

    /// Commits the form and starts a run with it, or shows why it cannot be used.
    pub fn start(&mut self, now: u64) -> (launch: Option<Launch>)
        ensures
            final(self).editor@ == old(self).editor@.after_commit(),
            match old(self).editor@.committed() {
                Ok(profile) => {
                    let limits = limits_of(final(self).editor@);
                    &&& launch is Some
                    &&& launch->0.local_port == profile.local_port
                    &&& launch->0.target@ == profile.target()
                    &&& launch->0.limits == limits
                    &&& launch->0.stats@ == StatsView::empty().with_status(starting_event(now))
                    &&& final(self).session is Some
                    &&& final(self).session->0@ == SessionView::starting(now, limits)
                    &&& final(self).notice is None
                    &&& *final(self) == (App {
                        editor: final(self).editor,
                        session: final(self).session,
                        notice: None,
                        ..*old(self)
                    })
                },
                Err(invalid) => launch is None && final(self).reported(
                    App { editor: final(self).editor, ..*old(self) },
                    invalid,
                    now,
                ),
            },
    {
        match self.editor.commit() {
            Ok(profile) => {
                self.notice = None;
                let limits = self.editor.limits();
                let (session, stats) = Session::start(now, limits);
                self.session = Some(session);
                Some(Launch {
                    local_port: profile.local_port,
                    target: profile.target(),
                    limits,
                    stats,
                })
            },
            Err(invalid) => {
                self.report(invalid, now);
                None
            },
        }
    }

    /// Whether the run, if there is one, has been told to stop, and all else is as
    /// `before`.
    pub open spec fn stopped(self, before: App) -> bool {
        &&& match (self.session, before.session) {
            (Some(after), Some(session)) => after@ == (SessionView { stopping: true, ..session@ }),
            (None, None) => true,
            _ => false,
        }
        &&& self == (App { session: self.session, ..before })
    }

    /// Tells the run to stop, if there is one, and says whether there is.
    pub fn stop(&mut self) -> (told: bool)
        ensures
            told == old(self).session is Some,
            final(self).stopped(*old(self)),
    {
        match self.session.take() {
            Some(session) => {
                let mut session = session;
                session.stop();
                self.session = Some(session);
                true
            },
            None => false,
        }
    }

    /// Stops the run, but asks first if that would disconnect clients.
    pub fn request_stop(&mut self, connections: usize) -> (told: bool)
        ensures
            old(self).session is Some && connections > 0 ==> !told && *final(self) == (App {
                modal: Modal::Stop,
                ..*old(self)
            }),
            !(old(self).session is Some && connections > 0) ==> told == old(self).session is Some
                && final(self).stopped(*old(self)),
    {
        let ask = match &self.session {
            Some(_) => connections > 0,
            None => false,
        };
        if ask {
            self.modal = Modal::Stop;
            false
        } else {
            self.stop()
        }
    }
}

/// Shown once a profile has been saved.
pub open spec fn saved_text(name: Seq<char>) -> Seq<char> {
    "Saved \""@ + name + "\"."@
}

/// Shown once a profile has been deleted.
pub open spec fn deleted_text(name: Seq<char>) -> Seq<char> {
    "Deleted \""@ + name + "\". Its values stay in the form, unsaved."@
}

/// Shown when a profile could not be deleted.
pub open spec fn delete_failed_text(name: Seq<char>, error: Seq<char>) -> Seq<char> {
    "Could not delete \""@ + name + "\": "@ + error
}

impl App {
    /// Commits the form and begins to save it, or shows why it cannot be saved.
    pub fn save_profile(&mut self, now: u64) -> (save: Option<ProfileSave>)
        ensures
            final(self).editor@ == old(self).editor@.after_commit(),
            match old(self).editor@.saving() {
                Ok(profile) => {
                    &&& save is Some
                    &&& save->0.profile@ == profile
                    &&& crate::settings::views_of(save->0.pending.profiles@) == old(
                        self,
                    ).editor@.profiles_with(profile)
                    &&& save->0.pending.step == crate::settings::SaveStep::CreateDirectory
                    &&& *final(self) == (App { editor: final(self).editor, ..*old(self) })
                },
                Err(invalid) => save is None && final(self).reported(
                    App { editor: final(self).editor, ..*old(self) },
                    invalid,
                    now,
                ),
            },
    {
        match self.editor.save() {
            Ok(save) => Some(save),
            Err(invalid) => {
                self.report(invalid, now);
                None
            },
        }
    }

    /// Goes on with a save after the operation that it names, and shows how it ended.
    pub fn resume_save(&mut self, save: ProfileSave, outcome: StepOutcome, now: u64) -> (next:
        Option<ProfileSave>)
        ensures
            match step_error(save.pending.step, outcome) {
                Some(text) => next is None && final(self).editor@ == old(self).editor@
                    && final(self).reported(
                    App { editor: final(self).editor, ..*old(self) },
                    crate::editor::save_failed(text),
                    now,
                ),
                None => match next_step(
                    save.pending.step,
                    old(self).editor@.settings.backup_pending,
                ) {
                    Some(step) => {
                        &&& next is Some
                        &&& next->0.profile == save.profile
                        &&& next->0.pending.profiles == save.pending.profiles
                        &&& next->0.pending.step == step
                        &&& final(self).editor@ == old(self).editor@
                        &&& *final(self) == (App { editor: final(self).editor, ..*old(self) })
                    },
                    None => {
                        &&& next is None
                        &&& final(self).editor@ == old(self).editor@.after_save(
                            crate::settings::views_of(save.pending.profiles@),
                            save.profile@,
                        )
                        &&& final(self).notified(
                            App { editor: final(self).editor, ..*old(self) },
                            Place::Header,
                            false,
                            saved_text(save.profile@.name),
                            now,
                        )
                    },
                },
            },
    {
        match self.editor.resume_save(save, outcome) {
            ProfileSaveProgress::Continue(next) => Some(next),
            ProfileSaveProgress::Saved(name) => {
                self.notify(Place::Header, false, joined3("Saved \"", name.as_str(), "\"."), now);
                None
            },
            ProfileSaveProgress::Failed(invalid) => {
                self.report(invalid, now);
                None
            },
        }
    }

    /// Begins to delete the profile named `name`, or shows why that cannot be done.
    pub fn delete_profile(&mut self, name: &str, now: u64) -> (delete: Option<ProfileDelete>)
        ensures
            final(self).deleting(*old(self), name@, delete, now),
    {
        match self.editor.delete(name) {
            Ok(delete) => Some(delete),
            Err(error) => {
                let mut text = joined3("Could not delete \"", name, "\": ");
                text.append(error.as_str());
                self.notify(Place::Profiles, true, text, now);
                None
            },
        }
    }

    /// Whether the deletion of `name` has begun as `delete`, and all is as `before`,
    /// or the window says why there is none.
    pub open spec fn deleting(
        self,
        before: App,
        name: Seq<char>,
        delete: Option<ProfileDelete>,
        now: u64,
    ) -> bool {
        if before.editor@.settings.path is Some {
            &&& delete is Some
            &&& delete->0.name@ == name
            &&& crate::settings::views_of(delete->0.pending.profiles@) == crate::editor::without(
                before.editor@.settings.profiles,
                name,
            )
            &&& delete->0.pending.step == crate::settings::SaveStep::CreateDirectory
            &&& self == before
        } else {
            &&& delete is None
            &&& self.notified(
                before,
                Place::Profiles,
                true,
                delete_failed_text(name, crate::settings::NO_CONFIG_DIRECTORY@),
                now,
            )
        }
    }

    /// Goes on with a deletion after the operation that it names, and shows how it
    /// ended.
    pub fn resume_delete(&mut self, delete: ProfileDelete, outcome: StepOutcome, now: u64) -> (next:
        Option<ProfileDelete>)
        ensures
            match step_error(delete.pending.step, outcome) {
                Some(text) => next is None && final(self).editor@ == old(self).editor@
                    && final(self).notified(
                    App { editor: final(self).editor, ..*old(self) },
                    Place::Profiles,
                    true,
                    delete_failed_text(delete.name@, text),
                    now,
                ),
                None => match next_step(
                    delete.pending.step,
                    old(self).editor@.settings.backup_pending,
                ) {
                    Some(step) => {
                        &&& next is Some
                        &&& next->0.name == delete.name
                        &&& next->0.pending.profiles == delete.pending.profiles
                        &&& next->0.pending.step == step
                        &&& final(self).editor@ == old(self).editor@
                        &&& *final(self) == (App { editor: final(self).editor, ..*old(self) })
                    },
                    None => {
                        &&& next is None
                        &&& final(self).editor@ == old(self).editor@.after_delete(
                            crate::settings::views_of(delete.pending.profiles@),
                            delete.name@,
                        )
                        &&& final(self).notified(
                            App { editor: final(self).editor, ..*old(self) },
                            Place::Profiles,
                            false,
                            deleted_text(delete.name@),
                            now,
                        )
                    },
                },
            },
    {
        let name = delete.name.clone();
        match self.editor.resume_delete(delete, outcome) {
            ProfileDeleteProgress::Continue(next) => Some(next),
            ProfileDeleteProgress::Deleted => {
                let text = joined3(
                    "Deleted \"",
                    name.as_str(),
                    "\". Its values stay in the form, unsaved.",
                );
                self.notify(Place::Profiles, false, text, now);
                None
            },
            ProfileDeleteProgress::Failed(error) => {
                let mut text = joined3("Could not delete \"", name.as_str(), "\": ");
                text.append(error.as_str());
                self.notify(Place::Profiles, true, text, now);
                None
            },
        }
    }

    /// Asks whether the selected profile is to be deleted.
    pub fn request_delete(&mut self)
        ensures
            match old(self).editor@.selected {
                Some(name) => {
                    &&& final(self).modal is Delete
                    &&& final(self).modal->Delete_0@ == name
                    &&& *final(self) == (App { modal: final(self).modal, ..*old(self) })
                },
                None => *final(self) == *old(self),
            },
    {
        let chosen = match self.editor.selected() {
            Some(name) => Some(name.to_owned()),
            None => None,
        };
        match chosen {
            Some(name) => {
                self.modal = Modal::Delete(name);
            },
            None => {},
        }
    }

    /// The window is to be closed. While a run is on, that is put off until the user
    /// has been asked.
    pub fn request_close(&mut self) -> (cancel: bool)
        ensures
            cancel == (old(self).is_running() && !old(self).allow_close),
            *final(self) == if cancel {
                App { modal: Modal::Close, ..*old(self) }
            } else {
                *old(self)
            },
    {
        if self.running() && !self.allow_close {
            self.modal = Modal::Close;
            true
        } else {
            false
        }
    }

    /// The title of a window whose run has this status.
    pub open spec fn title_for(status: Status) -> Seq<char> {
        if status == Status::Offline {
            "Bandwidth Proxy"@
        } else {
            status.label_text() + " - Bandwidth Proxy"@
        }
    }

    /// Sets the title, and returns it if it changed.
    pub fn update_title(&mut self, status: Status) -> (changed: Option<String>)
        ensures
            changed is None <==> old(self).title@ == App::title_for(status),
            changed matches Some(title) ==> title@ == App::title_for(status) && final(self).title
                == title && *final(self) == (App { title, ..*old(self) }),
            changed is None ==> *final(self) == *old(self),
    {
        let title = if status == Status::Offline {
            "Bandwidth Proxy".to_owned()
        } else {
            joined(status.label(), " - Bandwidth Proxy")
        };
        if title == self.title {
            None
        } else {
            self.title = title.clone();
            Some(title)
        }
    }

    /// Hands the caps to the run, if there is one, and returns them if they changed.
    pub fn update_limits(&mut self) -> (changed: Option<Limits>)
        requires
            old(self).session is Some ==> old(self).editor@.rates_fit(),
        ensures
            match old(self).session {
                Some(session) => {
                    let limits = limits_of(old(self).editor@);
                    &&& changed == if session@.limits != limits {
                        Some(limits)
                    } else {
                        None
                    }
                    &&& final(self).session is Some
                    &&& final(self).session->0@ == (SessionView { limits, ..session@ })
                    &&& *final(self) == (App { session: final(self).session, ..*old(self) })
                },
                None => changed is None && *final(self) == *old(self),
            },
    {
        match self.session.take() {
            Some(session) => {
                let mut session = session;
                let limits = self.editor.limits();
                let changed = session.set_limits(limits);
                self.session = Some(session);
                if changed {
                    Some(limits)
                } else {
                    None
                }
            },
            None => None,
        }
    }
}

/// A question as it is shown.
#[derive(Debug)]
pub struct Dialog {
    pub title: &'static str,
    pub body: String,
    pub confirm: &'static str,
}

/// What the question about discarding edits says.
pub open spec fn discard_text(edited: Seq<char>, opened: Seq<char>) -> Seq<char> {
    "Your edits to \""@ + edited + "\" are not saved. Opening \""@ + opened
        + "\" discards them."@
}

/// What the question about deleting a profile says.
pub open spec fn delete_text(name: Seq<char>) -> Seq<char> {
    "Delete \""@ + name + "\"? This cannot be undone."@
}

impl Dialog {
    /// Whether the question is as described.
    pub open spec fn asks(self, title: Seq<char>, body: Seq<char>, confirm: Seq<char>) -> bool {
        self.title@ == title && self.body@ == body && self.confirm@ == confirm
    }
}

impl App {
    /// The question that waits for an answer, if there is one.
    pub fn dialog(&self) -> (dialog: Option<Dialog>)
        ensures
            dialog is None <==> self.modal is Absent,
            match self.modal {
                Modal::Absent => true,
                Modal::Stop => dialog->0.asks(
                    "Stop this proxy?"@,
                    DISCONNECT_WARNING@,
                    "Disconnect and stop"@,
                ),
                Modal::Close => dialog->0.asks(
                    "Close Bandwidth Proxy?"@,
                    DISCONNECT_WARNING@,
                    "Disconnect and close"@,
                ),
                Modal::Delete(name) => dialog->0.asks(
                    "Delete saved profile?"@,
                    delete_text(name@),
                    "Delete"@,
                ),
                Modal::Discard(choice) => dialog->0.asks(
                    "Discard unsaved changes?"@,
                    discard_text(self.editor@.form.name, choice.shown()),
                    "Discard changes"@,
                ),
            },
    {
        match &self.modal {
            Modal::Absent => None,
            Modal::Stop => Some(
                Dialog {
                    title: "Stop this proxy?",
                    body: DISCONNECT_WARNING.to_owned(),
                    confirm: "Disconnect and stop",
                },
            ),
            Modal::Close => Some(
                Dialog {
                    title: "Close Bandwidth Proxy?",
                    body: DISCONNECT_WARNING.to_owned(),
                    confirm: "Disconnect and close",
                },
            ),
            Modal::Delete(name) => Some(
                Dialog {
                    title: "Delete saved profile?",
                    body: joined3("Delete \"", name.as_str(), "\"? This cannot be undone."),
                    confirm: "Delete",
                },
            ),
            Modal::Discard(choice) => {
                let edited = self.editor.form().name.as_str();
                let mut body = joined3(
                    "Your edits to \"",
                    edited,
                    "\" are not saved. Opening \"",
                );
                body.append(choice.name());
                body.append("\" discards them.");
                Some(
                    Dialog {
                        title: "Discard unsaved changes?",
                        body,
                        confirm: "Discard changes",
                    },
                )
            },
        }
    }

    /// Answers the question: yes, no, or not yet.
    pub fn answer(&mut self, answer: Option<bool>, now: u64) -> (answered: Answered)
        ensures
            ({
                let closed = App { modal: Modal::Absent, ..*old(self) };
                match answer {
                    None => answered is Nothing && *final(self) == *old(self),
                    Some(false) => answered is Nothing && *final(self) == closed,
                    Some(true) => match old(self).modal {
                        Modal::Absent => answered is Nothing && *final(self) == closed,
                        Modal::Stop => answered is Stop && final(self).stopped(closed),
                        Modal::Close => answered is StopAndClose && final(self).stopped(
                            App { allow_close: true, ..closed },
                        ),
                        Modal::Delete(name) => final(self).deleting(
                            closed,
                            name@,
                            match answered {
                                Answered::Delete(delete) => Some(delete),
                                _ => None,
                            },
                            now,
                        ) && (answered is Delete || answered is Nothing),
                        Modal::Discard(choice) => answered is Nothing && final(self).opened(
                            closed,
                            choice,
                        ),
                    },
                }
            }),
    {
        let agreed = match answer {
            Some(agreed) => agreed,
            None => {
                return Answered::Nothing;
            },
        };
        let mut modal = Modal::Absent;
        std::mem::swap(&mut self.modal, &mut modal);
        if !agreed {
            return Answered::Nothing;
        }
        match modal {
            Modal::Absent => Answered::Nothing,
            Modal::Stop => {
                let _ = self.stop();
                Answered::Stop
            },
            Modal::Close => {
                self.allow_close = true;
                let _ = self.stop();
                Answered::StopAndClose
            },
            Modal::Delete(name) => match self.delete_profile(name.as_str(), now) {
                Some(delete) => Answered::Delete(delete),
                None => Answered::Nothing,
            },
            Modal::Discard(choice) => {
                self.open_profile(&choice);
                Answered::Nothing
            },
        }
    }
}

/// The caps of an editor are its active rates, in bytes per second, each in its direction,
/// and they apply as the form says.
pub proof fn lemma_limits_are_the_rates_in_bytes(editor: EditorView)
    requires
        editor.rates_fit(),
    ensures
        limits_of(editor).enabled == editor.form.limited,
        limits_of(editor).bytes_per_second.download == 1024 * editor.rates.download,
        limits_of(editor).bytes_per_second.upload == 1024 * editor.rates.upload,
{
}

/// A notice that is shown says what it was given, where and when it was given, and replaces
/// nothing but the notice before.
pub proof fn lemma_notice_says_what_it_is_given(
    app: App,
    before: App,
    place: Place,
    error: bool,
    text: Seq<char>,
    now: u64,
)
    requires
        app.notified(before, place, error, text, now),
    ensures
        app.notice is Some,
        app.notice->0.place == place,
        app.notice->0.error == error,
        app.notice->0.text@ == text,
        app.notice->0.shown_at == now,
        app.editor == before.editor,
        app.session == before.session,
        app.modal == before.modal,
        app.allow_close == before.allow_close,
        app.title == before.title,
{
}

/// What is wrong with the rates is shown as an error beside the rates, and all else at the
/// top. Nothing else changes.
pub proof fn lemma_problems_are_shown_in_their_place(
    app: App,
    before: App,
    invalid: InvalidView,
    now: u64,
)
    requires
        app.reported(before, invalid, now),
    ensures
        app.notice is Some,
        app.notice->0.error,
        app.notice->0.shown_at == now,
        invalid matches InvalidView::Rates(text) ==> app.notice->0.place == Place::Bandwidth
            && app.notice->0.text@ == text,
        invalid matches InvalidView::Profile(text) ==> app.notice->0.place == Place::Header
            && app.notice->0.text@ == text,
        app.editor == before.editor,
        app.session == before.session,
        app.modal == before.modal,
        app.allow_close == before.allow_close,
        app.title == before.title,
{
}

/// Opening a profile removes every notice but one about the profiles, and leaves the run, the
/// question, the title and what is saved alone.
pub proof fn lemma_opening_removes_stale_notices(app: App, before: App, choice: Choice)
    requires
        app.opened(before, choice),
    ensures
        app.editor@ == before.editor@.opened(choice),
        app.notice matches Some(notice) ==> before.notice == Some(notice) && notice.place
            == Place::Profiles,
        before.notice matches Some(notice) ==> notice.place == Place::Profiles ==> app.notice
            == Some(notice),
        app.session == before.session,
        app.modal == before.modal,
        app.allow_close == before.allow_close,
        app.title == before.title,
{
}

/// Stopping tells the run so and keeps everything that it has measured. Without a run there
/// is nothing to stop.
pub proof fn lemma_stopping_keeps_the_run(app: App, before: App)
    requires
        app.stopped(before),
    ensures
        app.session is Some <==> before.session is Some,
        app.session matches Some(session) ==> {
            let was = before.session->0@;
            &&& session@.stopping
            &&& session@.running == was.running
            &&& session@.started == was.started
            &&& session@.samples == was.samples
            &&& session@.limits == was.limits
            &&& session@ == (SessionView { stopping: true, ..was })
        },
        app.editor == before.editor,
        app.notice == before.notice,
        app.modal == before.modal,
        app.allow_close == before.allow_close,
        app.title == before.title,
{
}

/// A deletion begins exactly if there is a file. It writes the profiles of other names, in
/// order. Without a file an error beside the profiles names the profile.
pub proof fn lemma_deleting_writes_the_others(
    app: App,
    before: App,
    name: Seq<char>,
    delete: Option<ProfileDelete>,
    now: u64,
)
    requires
        app.deleting(before, name, delete, now),
    ensures
        delete is Some <==> before.editor@.settings.path is Some,
        delete matches Some(delete) ==> {
            &&& delete.name@ == name
            &&& crate::settings::views_of(delete.pending.profiles@)
                == before.editor@.settings.profiles.filter(
                |p: crate::settings::ProfileView| p.name != name,
            )
            &&& delete.pending.step is CreateDirectory
            &&& app == before
        },
        delete is None ==> {
            &&& app.notice is Some
            &&& app.notice->0.place == Place::Profiles
            &&& app.notice->0.error
            &&& app.notice->0.shown_at == now
            &&& app.notice->0.text@ == "Could not delete \""@ + name + "\": "@
                + crate::settings::NO_CONFIG_DIRECTORY@
            &&& app.editor == before.editor
            &&& app.session == before.session
            &&& app.modal == before.modal
        },
{
    let mut editor = before.editor@;
    editor.selected = None;
    crate::editor::lemma_deleting_keeps_the_others(editor, name);
}

/// The messages about a profile name it, and those about a failure say what failed.
pub proof fn lemma_messages_name_the_profile(name: Seq<char>, other: Seq<char>, error: Seq<char>)
    ensures
        saved_text(name) == "Saved \""@ + name + "\"."@,
        deleted_text(name) == "Deleted \""@ + name
            + "\". Its values stay in the form, unsaved."@,
        delete_failed_text(name, error) == "Could not delete \""@ + name + "\": "@ + error,
        delete_text(name) == "Delete \""@ + name + "\"? This cannot be undone."@,
        discard_text(name, other) == "Your edits to \""@ + name
            + "\" are not saved. Opening \""@ + other + "\" discards them."@,
{
}

/// The title tells the status of the run in front of the name of the program, and only the
/// name while there is none.
pub proof fn lemma_title_tells_the_status(status: Status)
    ensures
        status is Offline ==> App::title_for(status) == "Bandwidth Proxy"@,
        !(status is Offline) ==> App::title_for(status) == status.label_text()
            + " - Bandwidth Proxy"@,
{
}

/// Each preset is a rate that can be set, and they rise.
pub proof fn lemma_presets_rise()
    ensures
        forall|i: int|
            0 <= i < PRESETS@.len() ==> crate::settings::rate_in_range(
                #[trigger] PRESETS@[i] as nat,
            ),
        forall|i: int, j: int|
            0 <= i < j < PRESETS@.len() ==> #[trigger] PRESETS@[i] < #[trigger] PRESETS@[j],
        NOTICE_NANOS == 5 * crate::gate::SECOND,
{
}

/// A window is running exactly while its session is, and a question says what it is asked to.
pub proof fn lemma_window_follows_its_session(
    app: App,
    dialog: Dialog,
    title: Seq<char>,
    body: Seq<char>,
    confirm: Seq<char>,
)
    ensures
        app.is_running() ==> app.session is Some,
        app.session matches Some(session) ==> (app.is_running() <==> session@.running),
        dialog.asks(title, body, confirm) <==> dialog.title@ == title && dialog.body@ == body
            && dialog.confirm@ == confirm,
{
}

} // verus!
