//! The profile form and the saved profiles behind it.

use crate::proxy::{Direction, Limits, PerDirection};
use crate::settings::{all_valid, copy_profiles, parse_port, parse_rate, port_of, rate_in_range, rate_of, views_of, PendingSave, Profile, ProfileView, SaveProgress, SaveStep, Settings, SettingsView, StepOutcome, Stored, PORT_ERROR, RATE_ERROR};
use crate::text::{decimal, joined, joined3, number_text, parsed_number, same_text, trim, trimmed};
use std::path::PathBuf;
use vstd::prelude::*;

verus! {

/// The name that a new profile starts with.
pub const NEW_PROFILE: &'static str = "New profile";

/// Why the form could not be used. Each kind is shown next to a different section.
#[derive(Debug)]
pub enum Invalid {
    Rates(String),
    Profile(String),
}

/// The contents of an `Invalid`.
pub enum InvalidView {
    Rates(Seq<char>),
    Profile(Seq<char>),
}

impl View for Invalid {
    type V = InvalidView;

    open spec fn view(&self) -> InvalidView {
        match self {
            Invalid::Rates(text) => InvalidView::Rates(text@),
            Invalid::Profile(text) => InvalidView::Profile(text@),
        }
    }
}

/// A profile to open in the form.
#[derive(Debug)]
pub enum Choice {
    Saved(String),
    New,
}

impl Clone for Choice {
    fn clone(&self) -> (copy: Self)
        ensures
            copy == *self,
    {
        match self {
            Choice::Saved(name) => Choice::Saved(name.clone()),
            Choice::New => Choice::New,
        }
    }
}

impl Choice {
    /// The name that is shown for the choice.
    pub open spec fn shown(self) -> Seq<char> {
        match self {
            Choice::Saved(name) => name@,
            Choice::New => NEW_PROFILE@,
        }
    }

    /// The name that is shown for the choice.
    pub fn name(&self) -> (name: &str)
        ensures
            name@ == self.shown(),
    {
        match self {
            Choice::Saved(name) => name.as_str(),
            Choice::New => NEW_PROFILE,
        }
    }
}

/// The form as typed. Any text is allowed here. `Editor` checks it when it is used.
#[derive(Debug)]
pub struct Form {
    pub name: String,
    pub host: String,
    pub upstream_port: String,
    pub local_port: String,
    pub download: String,
    pub upload: String,
    pub limited: bool,
}

/// The contents of a `Form`.
#[verifier::ext_equal]
pub struct FormView {
    pub name: Seq<char>,
    pub host: Seq<char>,
    pub upstream_port: Seq<char>,
    pub local_port: Seq<char>,
    pub download: Seq<char>,
    pub upload: Seq<char>,
    pub limited: bool,
}

impl View for Form {
    type V = FormView;

    open spec fn view(&self) -> FormView {
        FormView {
            name: self.name@,
            host: self.host@,
            upstream_port: self.upstream_port@,
            local_port: self.local_port@,
            download: self.download@,
            upload: self.upload@,
            limited: self.limited,
        }
    }
}

impl FormView {
    /// The form that shows `profile`.
    pub open spec fn showing(profile: ProfileView) -> FormView {
        FormView {
            name: profile.name,
            host: profile.host,
            upstream_port: decimal(profile.upstream_port as nat),
            local_port: decimal(profile.local_port as nat),
            download: decimal(profile.download_kib as nat),
            upload: decimal(profile.upload_kib as nat),
            limited: profile.limited,
        }
    }
}

impl Form {
    fn new(profile: &Profile) -> (form: Self)
        ensures
            form@ == FormView::showing(profile@),
    {
        Form {
            name: profile.name.clone(),
            host: profile.host.clone(),
            upstream_port: number_text(profile.upstream_port as u64),
            local_port: number_text(profile.local_port as u64),
            download: number_text(profile.download_kib),
            upload: number_text(profile.upload_kib),
            limited: profile.limited,
        }
    }

    /// The rate field for `direction`.
    pub fn rate_mut(&mut self, direction: Direction) -> (text: &mut String)
        ensures
            *text == match direction {
                Direction::Download => old(self).download,
                Direction::Upload => old(self).upload,
            },
            *final(self) == match direction {
                Direction::Download => Form { download: *final(text), ..*old(self) },
                Direction::Upload => Form { upload: *final(text), ..*old(self) },
            },
    {
        match direction {
            Direction::Download => &mut self.download,
            Direction::Upload => &mut self.upload,
        }
    }
}

/// The profile form and the saved profiles behind it.
#[derive(Debug)]
pub struct Editor {
    pub form: Form,
    settings: Settings,
    // The rates in KiB/s that the proxy uses. Typed rates apply only on commit.
    rates: PerDirection<u64>,
    // The profile as last loaded or saved, for detecting unsaved edits.
    baseline: Profile,
    // Always the name of a profile in `settings`.
    selected: Option<String>,
}

/// The contents of an `Editor`.
#[verifier::ext_equal]
pub struct EditorView {
    pub form: FormView,
    pub settings: SettingsView,
    pub rates: PerDirection<u64>,
    pub baseline: ProfileView,
    pub selected: Option<Seq<char>>,
}

impl View for Editor {
    type V = EditorView;

    closed spec fn view(&self) -> EditorView {
        EditorView {
            form: self.form@,
            settings: self.settings@,
            rates: self.rates,
            baseline: self.baseline@,
            selected: match self.selected {
                Some(name) => Some(name@),
                None => None,
            },
        }
    }
}

/// Where the first profile named `name` stands.
pub open spec fn position_of(profiles: Seq<ProfileView>, name: Seq<char>) -> Option<int>
    decreases profiles.len(),
{
    if profiles.len() == 0 {
        None
    } else if profiles[0].name == name {
        Some(0)
    } else {
        match position_of(profiles.drop_first(), name) {
            Some(i) => Some(i + 1),
            None => None,
        }
    }
}

/// Whether a profile other than the one at `existing` is named `name`.
pub open spec fn is_taken(
    profiles: Seq<ProfileView>,
    name: Seq<char>,
    existing: Option<int>,
) -> bool {
    exists|i: int|
        0 <= i < profiles.len() && (#[trigger] profiles[i]).name == name && existing != Some(i)
}

/// The profiles whose name is not `name`, in order.
pub open spec fn without(profiles: Seq<ProfileView>, name: Seq<char>) -> Seq<ProfileView>
    decreases profiles.len(),
{
    if profiles.len() == 0 {
        profiles
    } else {
        let before = without(profiles.drop_last(), name);
        if profiles.last().name != name {
            before.push(profiles.last())
        } else {
            before
        }
    }
}

/// The rates of `profile`.
pub open spec fn rates_in(profile: ProfileView) -> PerDirection<u64> {
    PerDirection { download: profile.download_kib, upload: profile.upload_kib }
}

/// Shown for typed rates that cannot be set.
pub open spec fn rates_refused() -> InvalidView {
    InvalidView::Rates(RATE_ERROR@ + " The previous rates are still active."@)
}

/// Shown for a name that another profile has.
pub open spec fn name_refused(name: Seq<char>) -> InvalidView {
    InvalidView::Profile("Another profile is already named \""@ + name + "\"."@)
}

/// Shown when the profiles could not be written.
pub open spec fn save_failed(error: Seq<char>) -> InvalidView {
    InvalidView::Profile("Could not save: "@ + error)
}

impl EditorView {
    /// The form shows `profile`, and nothing in it is edited.
    pub open spec fn showing(
        settings: SettingsView,
        profile: ProfileView,
        selected: Option<Seq<char>>,
    ) -> EditorView {
        EditorView {
            form: FormView::showing(profile),
            settings,
            rates: rates_in(profile),
            baseline: profile,
            selected,
        }
    }

    /// An editor for `settings`: it shows the first saved profile, if there is one.
    pub open spec fn starting(settings: SettingsView) -> EditorView {
        if settings.profiles.len() > 0 {
            let first = settings.profiles[0];
            EditorView::showing(settings, first, Some(first.name))
        } else {
            EditorView::showing(settings, ProfileView::standard(), None)
        }
    }

    /// The selected name is that of a saved profile.
    pub open spec fn selection_exists(self) -> bool {
        match self.selected {
            Some(name) => position_of(self.settings.profiles, name) is Some,
            None => true,
        }
    }

    /// The active rates can be counted in bytes per second.
    pub open spec fn rates_fit(self) -> bool {
        self.rates.download * 1024 <= u64::MAX && self.rates.upload * 1024 <= u64::MAX
    }

    /// After the user has typed `form`.
    pub open spec fn typed(self, form: FormView) -> EditorView {
        EditorView { form, ..self }
    }

    /// After `rate` has been typed into both rate fields.
    pub open spec fn with_preset(self, rate: u64) -> EditorView {
        self.typed(
            FormView {
                download: decimal(rate as nat),
                upload: decimal(rate as nat),
                ..self.form
            },
        )
    }

    /// Every saved profile is valid, and the active rates are in range.
    pub open spec fn is_sound(self) -> bool {
        &&& all_valid(self.settings.profiles)
        &&& rate_in_range(self.rates.download as nat)
        &&& rate_in_range(self.rates.upload as nat)
    }

    /// The profile that the form describes, with the active rates, if its ports can
    /// be used.
    pub open spec fn draft(self) -> Option<ProfileView> {
        match (port_of(self.form.upstream_port), port_of(self.form.local_port)) {
            (Some(upstream_port), Some(local_port)) => Some(
                ProfileView {
                    name: self.form.name,
                    host: self.form.host,
                    upstream_port,
                    local_port,
                    download_kib: self.rates.download,
                    upload_kib: self.rates.upload,
                    limited: self.form.limited,
                },
            ),
            _ => None,
        }
    }

    /// The rate to show for `direction`.
    pub open spec fn shown_rate(self, direction: Direction) -> u64 {
        let typed = match direction {
            Direction::Download => rate_of(self.form.download),
            Direction::Upload => rate_of(self.form.upload),
        };
        match typed {
            Some(rate) => rate,
            None => self.rates.at(direction),
        }
    }

    /// Rates have been typed that are not active yet.
    pub open spec fn rates_pending(self) -> bool {
        trimmed(self.form.download) != decimal(self.rates.download as nat) || trimmed(
            self.form.upload,
        ) != decimal(self.rates.upload as nat)
    }

    /// The form differs from the profile as last loaded or saved.
    pub open spec fn has_unsaved_changes(self) -> bool {
        self.draft() != Some(self.baseline) || self.rates_pending()
    }

    /// Both typed rates can be set.
    pub open spec fn rates_valid(self) -> bool {
        rate_of(self.form.download) is Some && rate_of(self.form.upload) is Some
    }

    /// After typed rates have been applied, or the active ones restored.
    pub open spec fn with_rates_committed(self) -> EditorView {
        let rates = if self.rates_valid() {
            PerDirection {
                download: rate_of(self.form.download)->0,
                upload: rate_of(self.form.upload)->0,
            }
        } else {
            self.rates
        };
        EditorView {
            rates,
            form: FormView {
                download: decimal(rates.download as nat),
                upload: decimal(rates.upload as nat),
                ..self.form
            },
            ..self
        }
    }

    /// The profile that a commit gives, or why there is none.
    pub open spec fn committed(self) -> Result<ProfileView, InvalidView> {
        if !self.rates_valid() {
            Err(rates_refused())
        } else {
            match self.with_rates_committed().draft() {
                Some(draft) => {
                    let profile = ProfileView {
                        name: trimmed(draft.name),
                        host: trimmed(draft.host),
                        ..draft
                    };
                    match profile.problem() {
                        Some(text) => Err(InvalidView::Profile(text)),
                        None => Ok(profile),
                    }
                },
                None => Err(InvalidView::Profile(PORT_ERROR@)),
            }
        }
    }

    /// After a commit: the form shows the profile, or at least rates that are active.
    pub open spec fn after_commit(self) -> EditorView {
        match self.committed() {
            Ok(profile) => EditorView {
                form: FormView::showing(profile),
                ..self.with_rates_committed()
            },
            Err(_) => self.with_rates_committed(),
        }
    }

    /// Where the selected profile stands.
    pub open spec fn existing(self) -> Option<int> {
        match self.selected {
            Some(name) => position_of(self.settings.profiles, name),
            None => None,
        }
    }

    /// The profiles with `profile` in place of the selected one, or at the end.
    pub open spec fn profiles_with(self, profile: ProfileView) -> Seq<ProfileView> {
        match self.existing() {
            Some(i) => self.settings.profiles.update(i, profile),
            None => self.settings.profiles.push(profile),
        }
    }

    /// The profile to be saved, or why it cannot be.
    pub open spec fn saving(self) -> Result<ProfileView, InvalidView> {
        match self.committed() {
            Ok(profile) => if is_taken(self.settings.profiles, profile.name, self.existing()) {
                Err(name_refused(profile.name))
            } else if self.settings.path is None {
                Err(save_failed(crate::settings::NO_CONFIG_DIRECTORY@))
            } else {
                Ok(profile)
            },
            Err(invalid) => Err(invalid),
        }
    }

    /// After `choice` has been opened. A profile that is not there changes nothing.
    pub open spec fn opened(self, choice: Choice) -> EditorView {
        match choice {
            Choice::Saved(name) => match position_of(self.settings.profiles, name@) {
                Some(i) => EditorView::showing(
                    self.settings,
                    self.settings.profiles[i],
                    Some(name@),
                ),
                None => self,
            },
            Choice::New => EditorView::showing(
                self.settings,
                ProfileView { name: NEW_PROFILE@, ..ProfileView::standard() },
                None,
            ),
        }
    }
}

fn rates_of(profile: &Profile) -> (rates: PerDirection<u64>)
    ensures
        rates == rates_in(profile@),
{
    PerDirection { download: profile.download_kib, upload: profile.upload_kib }
}

fn find_profile(profiles: &Vec<Profile>, name: &str) -> (found: Option<usize>)
    ensures
        match (found, position_of(views_of(profiles@), name@)) {
            (Some(i), Some(j)) => i == j && i < profiles.len() && profiles[i as int]@.name == name@,
            (None, None) => true,
            _ => false,
        },
{
    let ghost views = views_of(profiles@);
    let mut i: usize = 0;
    assert(views.skip(0) =~= views);
    while i < profiles.len()
        invariant
            i <= profiles.len(),
            views == views_of(profiles@),
            position_of(views, name@) == match position_of(views.skip(i as int), name@) {
                Some(j) => Some(i + j),
                None => None,
            },
        decreases profiles.len() - i,
    {
        assert(views.skip(i as int)[0] == profiles[i as int]@);
        if same_text(profiles[i].name.as_str(), name) {
            return Some(i);
        }
        assert(views.skip(i as int).drop_first() =~= views.skip(i + 1));
        i += 1;
    }
    None
}

/// What `position_of` finds.
pub proof fn lemma_position_of(profiles: Seq<ProfileView>, name: Seq<char>)
    ensures
        match position_of(profiles, name) {
            Some(i) => 0 <= i < profiles.len() && profiles[i].name == name && forall|j: int|
                0 <= j < i ==> (#[trigger] profiles[j]).name != name,
            None => forall|j: int|
                0 <= j < profiles.len() ==> (#[trigger] profiles[j]).name != name,
        },
    decreases profiles.len(),
{
    if profiles.len() > 0 && profiles[0].name != name {
        let rest = profiles.drop_first();
        lemma_position_of(rest, name);
        assert forall|j: int|
            0 < j < profiles.len() && (position_of(rest, name) is Some ==> j <= position_of(
                rest,
                name,
            )->0) implies (#[trigger] profiles[j]).name != name by {
            assert(profiles[j] == rest[j - 1]);
        }
        if let Some(i) = position_of(rest, name) {
            assert(profiles[i + 1] == rest[i]);
        }
    }
}

impl Editor {
    /// An editor for `settings`.
    pub fn new(settings: Settings) -> (editor: Self)
        ensures
            editor@ == EditorView::starting(settings@),
            editor@.selection_exists(),
    {
        let ghost before = settings@;
        let (profile, selected) = if settings.profile_list().len() > 0 {
            let first = &settings.profile_list()[0];
            (first.clone(), Some(first.name.clone()))
        } else {
            (Profile::default(), None)
        };
        Editor {
            form: Form::new(&profile),
            rates: rates_of(&profile),
            baseline: profile,
            selected,
            settings,
        }
    }

    /// The form as typed.
    pub fn form(&self) -> (form: &Form)
        ensures
            form@ == self@.form,
    {
        &self.form
    }

    /// Types `form` in place of what was there.
    pub fn set_form(&mut self, form: Form)
        ensures
            final(self)@ == old(self)@.typed(form@),
    {
        self.form = form;
    }

    /// The saved profiles.
    pub fn profiles(&self) -> (profiles: &[Profile])
        ensures
            views_of(profiles@) == self@.settings.profiles,
    {
        self.settings.profiles()
    }

    /// Where the profiles are saved.
    pub fn path(&self) -> (path: Option<&PathBuf>)
        ensures
            match path {
                Some(path) => self@.settings.path == Some(*path),
                None => self@.settings.path is None,
            },
    {
        self.settings.path()
    }

    /// The name of the saved profile that the form stands for.
    pub fn selected(&self) -> (name: Option<&str>)
        ensures
            match name {
                Some(name) => self@.selected == Some(name@),
                None => self@.selected is None,
            },
    {
        match &self.selected {
            Some(name) => Some(name.as_str()),
            None => None,
        }
    }

    /// The active rates in KiB/s.
    pub fn rates(&self) -> (rates: PerDirection<u64>)
        ensures
            rates == self@.rates,
    {
        self.rates
    }

    /// The rate to show for `direction`: the typed one, or the active one while the
    /// text is invalid.
    pub fn shown_rate(&self, direction: Direction) -> (rate: u64)
        ensures
            rate == self@.shown_rate(direction),
    {
        let typed = match direction {
            Direction::Download => parse_rate(self.form.download.as_str()),
            Direction::Upload => parse_rate(self.form.upload.as_str()),
        };
        match typed {
            Some(rate) => rate,
            None => *self.rates.get(direction),
        }
    }

    /// Whether both active rates are `rate`.
    pub fn preset_active(&self, rate: u64) -> (active: bool)
        ensures
            active == (self@.rates == (PerDirection { download: rate, upload: rate })),
    {
        self.rates.download == rate && self.rates.upload == rate
    }

    /// The local port, the host and the destination port as typed, in one line.
    pub fn route_text(&self) -> (text: String)
        ensures
            text@ == "127.0.0.1:"@ + trimmed(self@.form.local_port) + " -> "@ + trimmed(
                self@.form.host,
            ) + ":"@ + trimmed(self@.form.upstream_port),
    {
        let mut text = joined3(
            "127.0.0.1:",
            trim(self.form.local_port.as_str()),
            " -> ",
        );
        text.append(trim(self.form.host.as_str()));
        text.append(":");
        text.append(trim(self.form.upstream_port.as_str()));
        text
    }

    /// The port that the proxy would listen on, if the text names one.
    pub fn local_port(&self) -> (port: Option<u16>)
        ensures
            port == port_of(self@.form.local_port),
    {
        parse_port(self.form.local_port.as_str())
    }

    /// The active rates, if limits are on.
    pub fn caps(&self) -> (caps: Option<PerDirection<u64>>)
        ensures
            caps == if self@.form.limited {
                Some(self@.rates)
            } else {
                None
            },
    {
        if self.form.limited {
            Some(self.rates)
        } else {
            None
        }
    }

    /// The caps that the proxy uses.
    pub fn limits(&self) -> (limits: Limits)
        requires
            self@.rates_fit(),
        ensures
            limits.enabled == self@.form.limited,
            limits.bytes_per_second.download == self@.rates.download * 1024,
            limits.bytes_per_second.upload == self@.rates.upload * 1024,
    {
        Limits {
            enabled: self.form.limited,
            bytes_per_second: PerDirection {
                download: self.rates.download * 1024,
                upload: self.rates.upload * 1024,
            },
        }
    }

    fn draft(&self) -> (draft: Option<Profile>)
        ensures
            match (draft, self@.draft()) {
                (Some(profile), Some(view)) => profile@ == view,
                (None, None) => true,
                _ => false,
            },
    {
        match (
            parse_port(self.form.upstream_port.as_str()),
            parse_port(self.form.local_port.as_str()),
        ) {
            (Some(upstream_port), Some(local_port)) => Some(
                Profile {
                    name: self.form.name.clone(),
                    host: self.form.host.clone(),
                    upstream_port,
                    local_port,
                    download_kib: self.rates.download,
                    upload_kib: self.rates.upload,
                    limited: self.form.limited,
                },
            ),
            _ => None,
        }
    }

    /// Whether rates have been typed that are not active yet.
    pub fn rates_pending(&self) -> (pending: bool)
        ensures
            pending == self@.rates_pending(),
    {
        let download = number_text(self.rates.download);
        let upload = number_text(self.rates.upload);
        !same_text(trim(self.form.download.as_str()), download.as_str()) || !same_text(
            trim(self.form.upload.as_str()),
            upload.as_str(),
        )
    }

    /// Whether the form differs from the profile as last loaded or saved.
    pub fn has_unsaved_changes(&self) -> (unsaved: bool)
        ensures
            unsaved == self@.has_unsaved_changes(),
    {
        let same = match self.draft() {
            Some(profile) => profile == self.baseline,
            None => false,
        };
        !same || self.rates_pending()
    }

    /// Replaces the form with a saved or new profile, discarding any edits.
    pub fn open(&mut self, choice: &Choice)
        ensures
            final(self)@ == old(self)@.opened(*choice),
    {
        let (profile, selected) = match choice {
            Choice::Saved(name) => match find_profile(self.settings.profile_list(), name.as_str()) {
                Some(i) => (self.settings.profile_list()[i].clone(), Some(name.clone())),
                None => {
                    return;
                },
            },
            Choice::New => (
                Profile { name: NEW_PROFILE.to_owned(), ..Profile::default() },
                None,
            ),
        };
        self.form = Form::new(&profile);
        self.rates = rates_of(&profile);
        self.baseline = profile;
        self.selected = selected;
    }

    /// Types `rate` into both rate fields and applies it.
    pub fn apply_preset(&mut self, rate: u64) -> (res: Result<(), String>)
        ensures
            final(self)@ == old(self)@.with_preset(rate).with_rates_committed(),
            res is Ok <==> old(self)@.with_preset(rate).rates_valid(),
            res is Err ==> InvalidView::Rates(res->Err_0@) == rates_refused(),
    {
        self.form.download = number_text(rate);
        self.form.upload = number_text(rate);
        self.commit_rates()
    }

    /// Applies typed rates, or restores the active ones if the text is invalid.
    pub fn commit_rates(&mut self) -> (res: Result<(), String>)
        ensures
            final(self)@ == old(self)@.with_rates_committed(),
            res is Ok <==> old(self)@.rates_valid(),
            res is Err ==> InvalidView::Rates(res->Err_0@) == rates_refused(),
    {
        let parsed = match (
            parse_rate(self.form.download.as_str()),
            parse_rate(self.form.upload.as_str()),
        ) {
            (Some(download), Some(upload)) => {
                self.rates = PerDirection { download, upload };
                true
            },
            _ => false,
        };
        self.form.download = number_text(self.rates.download);
        self.form.upload = number_text(self.rates.upload);
        if parsed {
            Ok(())
        } else {
            Err(joined(RATE_ERROR, " The previous rates are still active."))
        }
    }

    /// Commits the form and returns the cleaned-up profile, which the form then shows.
    pub fn commit(&mut self) -> (res: Result<Profile, Invalid>)
        ensures
            final(self)@ == old(self)@.after_commit(),
            match (res, old(self)@.committed()) {
                (Ok(profile), Ok(view)) => profile@ == view,
                (Err(invalid), Err(view)) => invalid@ == view,
                _ => false,
            },
    {
        match self.commit_rates() {
            Ok(_) => {},
            Err(text) => {
                return Err(Invalid::Rates(text));
            },
        }
        let draft = match self.draft() {
            Some(draft) => draft,
            None => {
                return Err(Invalid::Profile(PORT_ERROR.to_owned()));
            },
        };
        let profile = Profile {
            name: trim(draft.name.as_str()).to_owned(),
            host: trim(draft.host.as_str()).to_owned(),
            ..draft
        };
        match profile.validate() {
            Ok(_) => {},
            Err(text) => {
                return Err(Invalid::Profile(text.to_owned()));
            },
        }
        self.form = Form::new(&profile);
        Ok(profile)
    }
}

/// A profile on its way to the disk.
#[derive(Debug)]
pub struct ProfileSave {
    pub profile: Profile,
    pub pending: PendingSave,
}

/// What came of saving a profile so far.
#[derive(Debug)]
pub enum ProfileSaveProgress {
    Continue(ProfileSave),
    /// Saved under this name.
    Saved(String),
    Failed(Invalid),
}

/// A profile on its way off the disk.
#[derive(Debug)]
pub struct ProfileDelete {
    pub name: String,
    pub pending: PendingSave,
}

/// What came of deleting a profile so far.
#[derive(Debug)]
pub enum ProfileDeleteProgress {
    Continue(ProfileDelete),
    Deleted,
    Failed(String),
}

fn name_taken(profiles: &Vec<Profile>, name: &String, existing: Option<usize>) -> (taken: bool)
    ensures
        taken == is_taken(
            views_of(profiles@),
            name@,
            match existing {
                Some(i) => Some(i as int),
                None => None,
            },
        ),
{
    let ghost views = views_of(profiles@);
    let mut i: usize = 0;
    while i < profiles.len()
        invariant
            i <= profiles.len(),
            views == views_of(profiles@),
            forall|j: int|
                0 <= j < i && (existing is None || existing->0 != j) ==> (
                #[trigger] views[j]).name != name@,
        decreases profiles.len() - i,
    {
        let other = match existing {
            Some(index) => index != i,
            None => true,
        };
        assert(views[i as int] == profiles[i as int]@);
        if other && profiles[i].name == *name {
            return true;
        }
        i += 1;
    }
    false
}

fn keep_others(profiles: &Vec<Profile>, name: &str) -> (rest: Vec<Profile>)
    ensures
        views_of(rest@) == without(views_of(profiles@), name@),
{
    let ghost views = views_of(profiles@);
    let mut rest: Vec<Profile> = Vec::new();
    let mut i: usize = 0;
    assert(views.take(0) =~= Seq::empty());
    assert(views_of(rest@) =~= without(views.take(0), name@));
    while i < profiles.len()
        invariant
            i <= profiles.len(),
            views == views_of(profiles@),
            views_of(rest@) == without(views.take(i as int), name@),
        decreases profiles.len() - i,
    {
        proof {
            let next = views.take(i + 1);
            assert(next.drop_last() =~= views.take(i as int));
            assert(next.last() == profiles[i as int]@);
        }
        if !same_text(profiles[i].name.as_str(), name) {
            let ghost before = rest@;
            rest.push(profiles[i].clone());
            assert(views_of(rest@) =~= views_of(before).push(profiles[i as int]@));
        }
        i += 1;
    }
    assert(views.take(i as int) =~= views);
    rest
}

impl Editor {
    /// Commits the form and begins to save it under its name, in place of the
    /// selected profile if there is one.
    pub fn save(&mut self) -> (res: Result<ProfileSave, Invalid>)
        ensures
            final(self)@ == old(self)@.after_commit(),
            match (res, old(self)@.saving()) {
                (Ok(save), Ok(view)) => save.profile@ == view && views_of(save.pending.profiles@)
                    == old(self)@.profiles_with(view) && save.pending.step
                    == SaveStep::CreateDirectory,
                (Err(invalid), Err(view)) => invalid@ == view,
                _ => false,
            },
    {
        let profile = match self.commit() {
            Ok(profile) => profile,
            Err(invalid) => {
                return Err(invalid);
            },
        };
        let mut profiles = copy_profiles(self.settings.profile_list());
        let ghost before = profiles@;
        let existing = match &self.selected {
            Some(name) => find_profile(&profiles, name.as_str()),
            None => None,
        };
        if name_taken(&profiles, &profile.name, existing) {
            return Err(
                Invalid::Profile(
                    joined3("Another profile is already named \"", profile.name.as_str(), "\"."),
                ),
            );
        }
        match existing {
            Some(i) => {
                profiles.set(i, profile.clone());
                assert(views_of(profiles@) =~= views_of(before).update(i as int, profile@));
            },
            None => {
                profiles.push(profile.clone());
                assert(views_of(profiles@) =~= views_of(before).push(profile@));
            },
        }
        match self.settings.save(profiles) {
            Ok(pending) => Ok(ProfileSave { profile, pending }),
            Err(error) => Err(Invalid::Profile(joined("Could not save: ", error.as_str()))),
        }
    }

    /// Goes on with a save after the operation that it names. Once the profiles are
    /// on disk, the saved one is selected and has no unsaved changes.
    pub fn resume_save(&mut self, save: ProfileSave, outcome: StepOutcome) -> (progress:
        ProfileSaveProgress)
        ensures
            match crate::settings::step_error(save.pending.step, outcome) {
                Some(text) => final(self)@ == old(self)@ && progress is Failed
                    && progress->Failed_0@ == save_failed(text),
                None => match crate::settings::next_step(
                    save.pending.step,
                    old(self)@.settings.backup_pending,
                ) {
                    Some(step) => final(self)@ == old(self)@ && progress
                        == ProfileSaveProgress::Continue(
                        ProfileSave {
                            profile: save.profile,
                            pending: PendingSave { profiles: save.pending.profiles, step },
                        },
                    ),
                    None => progress is Saved && progress->Saved_0@ == save.profile@.name
                        && final(self)@ == old(self)@.after_save(
                        views_of(save.pending.profiles@),
                        save.profile@,
                    ),
                },
            },
    {
        let profile = save.profile;
        match self.settings.resume(save.pending, outcome) {
            SaveProgress::Continue(pending) => ProfileSaveProgress::Continue(
                ProfileSave { profile, pending },
            ),
            SaveProgress::Failed(error) => ProfileSaveProgress::Failed(
                Invalid::Profile(joined("Could not save: ", error.as_str())),
            ),
            SaveProgress::Saved => {
                let name = profile.name.clone();
                self.selected = Some(profile.name.clone());
                self.baseline = profile;
                ProfileSaveProgress::Saved(name)
            },
        }
    }

    /// Begins to delete a saved profile. Its values stay in the form, unsaved.
    pub fn delete(&self, name: &str) -> (res: Result<ProfileDelete, String>)
        ensures
            res is Ok <==> self@.settings.path is Some,
            res matches Ok(delete) ==> delete.name@ == name@ && views_of(delete.pending.profiles@)
                == without(self@.settings.profiles, name@) && delete.pending.step
                == SaveStep::CreateDirectory,
            res matches Err(error) ==> error@ == crate::settings::NO_CONFIG_DIRECTORY@,
    {
        let profiles = keep_others(self.settings.profile_list(), name);
        match self.settings.save(profiles) {
            Ok(pending) => Ok(ProfileDelete { name: name.to_owned(), pending }),
            Err(error) => Err(error),
        }
    }

    /// Goes on with a deletion after the operation that it names. Once the profiles
    /// are on disk, the deleted one is no longer selected.
    pub fn resume_delete(&mut self, delete: ProfileDelete, outcome: StepOutcome) -> (progress:
        ProfileDeleteProgress)
        ensures
            match crate::settings::step_error(delete.pending.step, outcome) {
                Some(text) => final(self)@ == old(self)@ && progress is Failed
                    && progress->Failed_0@ == text,
                None => match crate::settings::next_step(
                    delete.pending.step,
                    old(self)@.settings.backup_pending,
                ) {
                    Some(step) => final(self)@ == old(self)@ && progress
                        == ProfileDeleteProgress::Continue(
                        ProfileDelete {
                            name: delete.name,
                            pending: PendingSave { profiles: delete.pending.profiles, step },
                        },
                    ),
                    None => progress is Deleted && final(self)@ == old(self)@.after_delete(
                        views_of(delete.pending.profiles@),
                        delete.name@,
                    ),
                },
            },
    {
        let name = delete.name;
        match self.settings.resume(delete.pending, outcome) {
            SaveProgress::Continue(pending) => ProfileDeleteProgress::Continue(
                ProfileDelete { name, pending },
            ),
            SaveProgress::Failed(error) => ProfileDeleteProgress::Failed(error),
            SaveProgress::Saved => {
                let selected = match &self.selected {
                    Some(selected) => *selected == name,
                    None => false,
                };
                if selected {
                    self.selected = None;
                }
                ProfileDeleteProgress::Deleted
            },
        }
    }
}

impl EditorView {
    /// After `profile` has been saved, as one of `profiles`.
    pub open spec fn after_save(
        self,
        profiles: Seq<ProfileView>,
        profile: ProfileView,
    ) -> EditorView {
        EditorView {
            settings: SettingsView { profiles, backup_pending: false, ..self.settings },
            selected: Some(profile.name),
            baseline: profile,
            ..self
        }
    }

    /// After the profile named `name` has been deleted, which leaves `profiles`.
    pub open spec fn after_delete(self, profiles: Seq<ProfileView>, name: Seq<char>) -> EditorView {
        EditorView {
            settings: SettingsView { profiles, backup_pending: false, ..self.settings },
            selected: if self.selected == Some(name) {
                None
            } else {
                self.selected
            },
            ..self
        }
    }
}

/// No two profiles have the same name.
pub open spec fn names_distinct(profiles: Seq<ProfileView>) -> bool {
    forall|i: int, j: int|
        0 <= i < j < profiles.len() ==> (#[trigger] profiles[i]).name != (
        #[trigger] profiles[j]).name
}

/// A profile that is shown and not edited has no unsaved changes, unless one of its
/// ports is zero, which no form can name.
pub proof fn lemma_shown_profile_is_unchanged(
    settings: SettingsView,
    profile: ProfileView,
    selected: Option<Seq<char>>,
)
    requires
        profile.upstream_port > 0,
        profile.local_port > 0,
    ensures
        EditorView::showing(settings, profile, selected).draft() == Some(profile),
        !EditorView::showing(settings, profile, selected).rates_pending(),
        !EditorView::showing(settings, profile, selected).has_unsaved_changes(),
{
    crate::settings::lemma_port_reads_back(profile.upstream_port);
    crate::settings::lemma_port_reads_back(profile.local_port);
    crate::text::lemma_decimal_reads_back(profile.download_kib as nat);
    crate::text::lemma_decimal_reads_back(profile.upload_kib as nat);
}

/// Opening discards any edits: what it opens has no unsaved changes.
pub proof fn lemma_opening_discards_edits(editor: EditorView, choice: Choice)
    requires
        choice matches Choice::Saved(name) ==> {
            let i = position_of(editor.settings.profiles, name@);
            &&& i is Some
            &&& editor.settings.profiles[i->0].upstream_port > 0
            &&& editor.settings.profiles[i->0].local_port > 0
        },
    ensures
        !editor.opened(choice).has_unsaved_changes(),
        editor.opened(choice).settings == editor.settings,
{
    match choice {
        Choice::Saved(name) => {
            let i = position_of(editor.settings.profiles, name@)->0;
            lemma_shown_profile_is_unchanged(
                editor.settings,
                editor.settings.profiles[i],
                Some(name@),
            );
        },
        Choice::New => {
            lemma_shown_profile_is_unchanged(
                editor.settings,
                ProfileView { name: NEW_PROFILE@, ..ProfileView::standard() },
                None,
            );
        },
    }
}

/// Once typed rates have been committed, nothing is pending, whatever was typed.
/// Invalid rates leave the active ones as they were.
pub proof fn lemma_commit_settles_the_rates(editor: EditorView)
    ensures
        !editor.with_rates_committed().rates_pending(),
        !editor.rates_valid() ==> editor.with_rates_committed().rates == editor.rates,
        editor.rates_valid() ==> rate_in_range(
            editor.with_rates_committed().rates.download as nat,
        ) && rate_in_range(editor.with_rates_committed().rates.upload as nat),
{
    let rates = editor.with_rates_committed().rates;
    crate::text::lemma_decimal_reads_back(rates.download as nat);
    crate::text::lemma_decimal_reads_back(rates.upload as nat);
}

/// A preset within the range that can be set becomes the rate of both directions.
pub proof fn lemma_preset_applies_to_both_directions(editor: EditorView, rate: u64)
    requires
        rate_in_range(rate as nat),
    ensures
        ({
            let typed = editor.with_preset(rate);
            &&& typed.rates_valid()
            &&& typed.with_rates_committed().rates == (PerDirection { download: rate, upload: rate })
            &&& !typed.with_rates_committed().rates_pending()
        }),
{
    crate::text::lemma_decimal_reads_back(rate as nat);
}

/// The profile that a commit gives is valid, and the form then shows it, so that
/// committing again gives the same profile and changes nothing.
pub proof fn lemma_commit_is_stable(editor: EditorView)
    requires
        editor.committed() is Ok,
    ensures
        editor.committed()->Ok_0.problem() is None,
        editor.after_commit().committed() == editor.committed(),
        editor.after_commit().after_commit() == editor.after_commit(),
        editor.after_commit().draft() == Some(editor.committed()->Ok_0),
        !editor.after_commit().rates_pending(),
{
    let profile = editor.committed()->Ok_0;
    let after = editor.after_commit();
    crate::settings::lemma_port_reads_back(profile.upstream_port);
    crate::settings::lemma_port_reads_back(profile.local_port);
    crate::text::lemma_decimal_reads_back(profile.download_kib as nat);
    crate::text::lemma_decimal_reads_back(profile.upload_kib as nat);
    crate::text::lemma_trimmed_twice(editor.form.name);
    crate::text::lemma_trimmed_twice(editor.form.host);
    assert(after.with_rates_committed() == after);
    assert(after.committed() == editor.committed());
}

/// A profile that has been saved is selected, is among the saved ones, and has no
/// unsaved changes.
pub proof fn lemma_saved_profile_is_unchanged(editor: EditorView)
    requires
        editor.saving() is Ok,
    ensures
        ({
            let profile = editor.saving()->Ok_0;
            let saved = editor.after_commit().after_save(editor.profiles_with(profile), profile);
            &&& !saved.has_unsaved_changes()
            &&& saved.selected == Some(profile.name)
            &&& saved.selection_exists()
            &&& saved.settings.profiles.contains(profile)
        }),
{
    let profile = editor.saving()->Ok_0;
    let profiles = editor.profiles_with(profile);
    lemma_commit_is_stable(editor);
    lemma_position_of(profiles, profile.name);
    match editor.selected {
        Some(name) => {
            lemma_position_of(editor.settings.profiles, name);
        },
        None => {},
    }
    let i = match editor.existing() {
        Some(i) => i,
        None => editor.settings.profiles.len() as int,
    };
    assert(profiles[i] == profile);
}

/// Saving keeps the names of profiles distinct. It replaces the selected profile
/// where it stands, or adds one at the end, and leaves the others alone.
pub proof fn lemma_saving_keeps_names_distinct(editor: EditorView)
    requires
        editor.saving() is Ok,
        names_distinct(editor.settings.profiles),
    ensures
        ({
            let before = editor.settings.profiles;
            let profile = editor.saving()->Ok_0;
            let after = editor.profiles_with(profile);
            &&& names_distinct(after)
            &&& after.len() == if editor.existing() is Some {
                before.len()
            } else {
                before.len() + 1
            }
            &&& forall|i: int|
                0 <= i < before.len() && editor.existing() != Some(i) ==> #[trigger] after[i]
                    == before[i]
        }),
{
    let before = editor.settings.profiles;
    let profile = editor.saving()->Ok_0;
    let after = editor.profiles_with(profile);
    match editor.selected {
        Some(name) => {
            lemma_position_of(before, name);
        },
        None => {},
    }
    assert forall|i: int| 0 <= i < before.len() && editor.existing() != Some(i) implies (
    #[trigger] after[i]).name != profile.name by {
        assert(after[i] == before[i]);
    }
}

/// Deleting removes every profile of that name and no other, and keeps the rest in
/// order. The form keeps its values, and the selection stays on a saved profile.
pub proof fn lemma_deleting_keeps_the_others(editor: EditorView, name: Seq<char>)
    requires
        editor.selection_exists(),
    ensures
        ({
            let rest = without(editor.settings.profiles, name);
            let after = editor.after_delete(rest, name);
            &&& rest == editor.settings.profiles.filter(|p: ProfileView| p.name != name)
            &&& position_of(rest, name) is None
            &&& after.selection_exists()
            &&& after.selected != Some(name)
            &&& after.form == editor.form
            &&& after.rates == editor.rates
        }),
{
    let profiles = editor.settings.profiles;
    let rest = without(profiles, name);
    lemma_without_is_filter(profiles, name);
    lemma_position_of(rest, name);
    lemma_without_members(profiles, name);
    if position_of(rest, name) is Some {
        assert(rest.contains(rest[position_of(rest, name)->0]));
    }
    match editor.selected {
        Some(selected) => {
            lemma_position_of(profiles, selected);
            lemma_position_of(rest, selected);
            if selected != name {
                let p = profiles[position_of(profiles, selected)->0];
                assert(profiles.contains(p));
                assert(rest.contains(p));
                let j = choose|j: int| 0 <= j < rest.len() && rest[j] == p;
                assert(rest[j].name == selected);
            }
        },
        None => {},
    }
}

proof fn lemma_without_is_filter(profiles: Seq<ProfileView>, name: Seq<char>)
    ensures
        without(profiles, name) == profiles.filter(|p: ProfileView| p.name != name),
    decreases profiles.len(),
{
    reveal(Seq::filter);
    if profiles.len() > 0 {
        lemma_without_is_filter(profiles.drop_last(), name);
    }
}

proof fn lemma_without_members(profiles: Seq<ProfileView>, name: Seq<char>)
    ensures
        forall|p: ProfileView| #[trigger]
            without(profiles, name).contains(p) <==> profiles.contains(p) && p.name != name,
    decreases profiles.len(),
{
    if profiles.len() > 0 {
        let before = profiles.drop_last();
        let last = profiles.last();
        lemma_without_members(before, name);
        assert forall|p: ProfileView| #[trigger]
            without(profiles, name).contains(p) <==> profiles.contains(p) && p.name != name by {
            assert(profiles =~= before.push(last));
            assert(profiles.contains(p) <==> before.contains(p) || p == last) by {
                if profiles.contains(p) {
                    let i = choose|i: int| 0 <= i < profiles.len() && profiles[i] == p;
                    if i < before.len() {
                        assert(before[i] == p);
                    }
                }
                if before.contains(p) {
                    let i = choose|i: int| 0 <= i < before.len() && before[i] == p;
                    assert(profiles[i] == p);
                }
                assert(profiles[profiles.len() - 1] == last);
            }
            let kept = without(before, name);
            if last.name != name {
                let rest = kept.push(last);
                assert(rest.contains(p) <==> kept.contains(p) || p == last) by {
                    if rest.contains(p) {
                        let i = choose|i: int| 0 <= i < rest.len() && rest[i] == p;
                        if i < kept.len() {
                            assert(kept[i] == p);
                        }
                    }
                    if kept.contains(p) {
                        let i = choose|i: int| 0 <= i < kept.len() && kept[i] == p;
                        assert(rest[i] == p);
                    }
                    assert(rest[rest.len() - 1] == last);
                }
            }
        }
    }
}

/// The selected name is always that of a saved profile: whatever is typed, preset,
/// opened, committed, saved or deleted keeps it so.
pub proof fn lemma_selection_always_exists(
    editor: EditorView,
    choice: Choice,
    rate: u64,
    name: Seq<char>,
)
    requires
        editor.selection_exists(),
    ensures
        forall|form: FormView| #[trigger] editor.typed(form).selection_exists(),
        editor.with_preset(rate).with_rates_committed().selection_exists(),
        editor.opened(choice).selection_exists(),
        editor.with_rates_committed().selection_exists(),
        editor.after_commit().selection_exists(),
        editor.saving() matches Ok(profile) ==> editor.after_commit().after_save(
            editor.profiles_with(profile),
            profile,
        ).selection_exists(),
        editor.after_delete(without(editor.settings.profiles, name), name).selection_exists(),
{
    if editor.saving() is Ok {
        lemma_saved_profile_is_unchanged(editor);
    }
    lemma_deleting_keeps_the_others(editor, name);
}

/// Saved profiles stay valid and the active rates stay in range, whatever is typed,
/// preset, opened, committed, saved or deleted, and sound rates can be counted in bytes
/// per second. Only valid profiles therefore ever reach the disk.
pub proof fn lemma_editor_stays_sound(
    editor: EditorView,
    choice: Choice,
    rate: u64,
    name: Seq<char>,
)
    requires
        editor.is_sound(),
    ensures
        editor.rates_fit(),
        forall|form: FormView| #[trigger] editor.typed(form).is_sound(),
        editor.with_preset(rate).with_rates_committed().is_sound(),
        editor.opened(choice).is_sound(),
        editor.with_rates_committed().is_sound(),
        editor.after_commit().is_sound(),
        editor.saving() matches Ok(profile) ==> editor.after_commit().after_save(
            editor.profiles_with(profile),
            profile,
        ).is_sound(),
        editor.after_delete(without(editor.settings.profiles, name), name).is_sound(),
{
    let profiles = editor.settings.profiles;
    match choice {
        Choice::Saved(chosen) => {
            lemma_position_of(profiles, chosen@);
        },
        Choice::New => {},
    }
    lemma_commit_settles_the_rates(editor);
    lemma_commit_settles_the_rates(editor.with_preset(rate));
    match editor.selected {
        Some(selected) => {
            lemma_position_of(profiles, selected);
        },
        None => {},
    }
    if editor.saving() is Ok {
        lemma_commit_is_stable(editor);
    }
    lemma_without_members(profiles, name);
    let rest = without(profiles, name);
    assert forall|i: int| 0 <= i < rest.len() implies (#[trigger] rest[i]).problem() is None by {
        assert(rest.contains(rest[i]));
    }
}

/// An editor starts out sound with whatever could be loaded from a file.
pub proof fn lemma_loaded_editor_is_sound(path: PathBuf, stored: Stored)
    ensures
        EditorView::starting(crate::settings::loaded(path, stored)).is_sound(),
        EditorView::starting(crate::settings::loaded(path, stored)).selection_exists(),
{
    let settings = crate::settings::loaded(path, stored);
    match stored {
        Stored::Entries(entries) => {
            crate::settings::lemma_kept_profiles_are_valid(
                crate::settings::entry_views(entries@),
            );
        },
        _ => {},
    }
    if settings.profiles.len() > 0 {
        lemma_position_of(settings.profiles, settings.profiles[0].name);
    }
}

/// A form shows the values of its profile: the texts as they are, and the numbers in
/// decimal. The rates of the profile become the active ones.
pub proof fn lemma_form_shows_the_profile(
    settings: SettingsView,
    profile: ProfileView,
    selected: Option<Seq<char>>,
)
    ensures
        ({
            let editor = EditorView::showing(settings, profile, selected);
            &&& editor.settings == settings
            &&& editor.baseline == profile
            &&& editor.selected == selected
            &&& editor.rates.download == profile.download_kib
            &&& editor.rates.upload == profile.upload_kib
            &&& editor.form.name == profile.name
            &&& editor.form.host == profile.host
            &&& editor.form.limited == profile.limited
            &&& parsed_number(editor.form.upstream_port) == Some(profile.upstream_port as nat)
            &&& parsed_number(editor.form.local_port) == Some(profile.local_port as nat)
            &&& parsed_number(editor.form.download) == Some(profile.download_kib as nat)
            &&& parsed_number(editor.form.upload) == Some(profile.upload_kib as nat)
            &&& editor.form.upstream_port == decimal(profile.upstream_port as nat)
            &&& editor.form.local_port == decimal(profile.local_port as nat)
            &&& editor.form.download == decimal(profile.download_kib as nat)
            &&& editor.form.upload == decimal(profile.upload_kib as nat)
        }),
{
    crate::text::lemma_decimal_reads_back(profile.upstream_port as nat);
    crate::text::lemma_decimal_reads_back(profile.local_port as nat);
    crate::text::lemma_decimal_reads_back(profile.download_kib as nat);
    crate::text::lemma_decimal_reads_back(profile.upload_kib as nat);
}

/// An editor starts with the first saved profile selected and shown, or, where there is none,
/// with the standard profile and nothing selected.
pub proof fn lemma_editor_starts_with_the_first(settings: SettingsView)
    ensures
        ({
            let editor = EditorView::starting(settings);
            let shown = if settings.profiles.len() > 0 {
                settings.profiles[0]
            } else {
                ProfileView::standard()
            };
            &&& editor.settings == settings
            &&& editor.baseline == shown
            &&& editor.form == FormView::showing(shown)
            &&& editor.rates.download == shown.download_kib
            &&& editor.rates.upload == shown.upload_kib
            &&& settings.profiles.len() > 0 ==> editor.selected == Some(settings.profiles[0].name)
            &&& settings.profiles.len() == 0 ==> editor.selected is None
        }),
{
}

/// Opening a saved profile selects it and shows the first one of that name. A name that no
/// profile has changes nothing. A new profile differs from the standard one in its name
/// alone, and is not selected.
pub proof fn lemma_open_shows_the_choice(editor: EditorView, choice: Choice)
    ensures
        ({
            let after = editor.opened(choice);
            let profiles = editor.settings.profiles;
            &&& after.settings == editor.settings
            &&& choice matches Choice::Saved(name) ==> {
                &&& (forall|i: int|
                    0 <= i < profiles.len() ==> (#[trigger] profiles[i]).name != name@) ==> after
                    == editor
                &&& forall|i: int|
                    0 <= i < profiles.len() && (#[trigger] profiles[i]).name == name@ && (forall|
                        j: int,
                    |
                        0 <= j < i ==> (#[trigger] profiles[j]).name != name@) ==> {
                        &&& after.baseline == profiles[i]
                        &&& after.form == FormView::showing(profiles[i])
                        &&& after.rates == rates_in(profiles[i])
                        &&& after.selected == Some(name@)
                    }
            }
            &&& choice is New ==> {
                let standard = ProfileView::standard();
                &&& after.selected is None
                &&& after.baseline == (ProfileView { name: "New profile"@, ..standard })
                &&& after.form == FormView::showing(after.baseline)
                &&& after.rates == rates_in(standard)
            }
        }),
{
    if let Choice::Saved(name) = choice {
        let profiles = editor.settings.profiles;
        lemma_position_of(profiles, name@);
        assert forall|i: int|
            0 <= i < profiles.len() && (#[trigger] profiles[i]).name == name@ && (forall|j: int|
                0 <= j < i ==> (#[trigger] profiles[j]).name != name@) implies position_of(
            profiles,
            name@,
        ) == Some(i) by {
            let k = position_of(profiles, name@)->0;
            assert(profiles[k].name == name@);
        }
    }
}

/// What a form describes: its own texts and ports, with the active rates. There is nothing
/// without two ports.
pub proof fn lemma_draft_is_what_is_typed(editor: EditorView)
    ensures
        editor.draft() is Some <==> port_of(editor.form.upstream_port) is Some && port_of(
            editor.form.local_port,
        ) is Some,
        editor.draft() matches Some(draft) ==> {
            &&& draft.name == editor.form.name
            &&& draft.host == editor.form.host
            &&& Some(draft.upstream_port) == port_of(editor.form.upstream_port)
            &&& Some(draft.local_port) == port_of(editor.form.local_port)
            &&& draft.download_kib == editor.rates.download
            &&& draft.upload_kib == editor.rates.upload
            &&& draft.limited == editor.form.limited
        },
{
}

/// A form has no unsaved changes exactly if every value in it is that of the profile as last
/// loaded or saved.
pub proof fn lemma_any_edit_is_unsaved(editor: EditorView)
    ensures
        !editor.has_unsaved_changes() <==> {
            let (form, saved) = (editor.form, editor.baseline);
            &&& form.name == saved.name
            &&& form.host == saved.host
            &&& form.limited == saved.limited
            &&& port_of(form.upstream_port) == Some(saved.upstream_port)
            &&& port_of(form.local_port) == Some(saved.local_port)
            &&& editor.rates.download == saved.download_kib
            &&& editor.rates.upload == saved.upload_kib
            &&& trimmed(form.download) == decimal(saved.download_kib as nat)
            &&& trimmed(form.upload) == decimal(saved.upload_kib as nat)
        },
{
}

/// Rates are pending as soon as either text is not the active rate of its own direction. They
/// are so whenever another number, or none, can be read from it.
pub proof fn lemma_typed_rates_are_pending(editor: EditorView)
    ensures
        !editor.rates_pending() <==> trimmed(editor.form.download) == decimal(
            editor.rates.download as nat,
        ) && trimmed(editor.form.upload) == decimal(editor.rates.upload as nat),
        parsed_number(trimmed(editor.form.download)) != Some(editor.rates.download as nat)
            ==> editor.rates_pending(),
        parsed_number(trimmed(editor.form.upload)) != Some(editor.rates.upload as nat)
            ==> editor.rates_pending(),
{
    crate::text::lemma_decimal_reads_back(editor.rates.download as nat);
    crate::text::lemma_decimal_reads_back(editor.rates.upload as nat);
}

/// The rate that is shown for a direction is the one typed for it, if that is a number from
/// 1 to 1,000,000, and else the active one. The other direction has no part in it.
pub proof fn lemma_shown_rate_follows_the_text(editor: EditorView)
    ensures
        ({
            let shown = editor.shown_rate(Direction::Download);
            match parsed_number(trimmed(editor.form.download)) {
                Some(n) => if 1 <= n <= 1_000_000 {
                    shown == n
                } else {
                    shown == editor.rates.download
                },
                None => shown == editor.rates.download,
            }
        }),
        ({
            let shown = editor.shown_rate(Direction::Upload);
            match parsed_number(trimmed(editor.form.upload)) {
                Some(n) => if 1 <= n <= 1_000_000 {
                    shown == n
                } else {
                    shown == editor.rates.upload
                },
                None => shown == editor.rates.upload,
            }
        }),
{
}

/// Typed rates become active together or not at all, each in its own direction. The form then
/// shows the active rates, and nothing else changes.
pub proof fn lemma_rates_are_committed_together(editor: EditorView)
    ensures
        ({
            let after = editor.with_rates_committed();
            let (down, up) = (rate_of(editor.form.download), rate_of(editor.form.upload));
            &&& editor.rates_valid() <==> down is Some && up is Some
            &&& down is Some && up is Some ==> after.rates.download == down->0
                && after.rates.upload == up->0
            &&& down is None || up is None ==> after.rates.download == editor.rates.download
                && after.rates.upload == editor.rates.upload
            &&& after.form.download == decimal(after.rates.download as nat)
            &&& after.form.upload == decimal(after.rates.upload as nat)
            &&& after.form.name == editor.form.name
            &&& after.form.host == editor.form.host
            &&& after.form.upstream_port == editor.form.upstream_port
            &&& after.form.local_port == editor.form.local_port
            &&& after.form.limited == editor.form.limited
            &&& after.settings == editor.settings
            &&& after.baseline == editor.baseline
            &&& after.selected == editor.selected
        }),
{
}

/// A preset types the same rate twice and leaves the rest of the form alone.
pub proof fn lemma_preset_types_the_rate(editor: EditorView, rate: u64)
    ensures
        ({
            let after = editor.with_preset(rate);
            &&& parsed_number(after.form.download) == Some(rate as nat)
            &&& parsed_number(after.form.upload) == Some(rate as nat)
            &&& after.form.name == editor.form.name
            &&& after.form.host == editor.form.host
            &&& after.form.upstream_port == editor.form.upstream_port
            &&& after.form.local_port == editor.form.local_port
            &&& after.form.limited == editor.form.limited
            &&& after.rates == editor.rates
            &&& after.settings == editor.settings
            &&& after.baseline == editor.baseline
            &&& after.selected == editor.selected
        }),
{
    crate::text::lemma_decimal_reads_back(rate as nat);
}

/// A commit gives the profile that is typed, without white space around its name and its
/// host, if nothing is wrong with it.
pub proof fn lemma_commit_gives_what_is_typed(editor: EditorView, profile: ProfileView)
    requires
        profile.name == trimmed(editor.form.name),
        profile.host == trimmed(editor.form.host),
        port_of(editor.form.upstream_port) == Some(profile.upstream_port),
        port_of(editor.form.local_port) == Some(profile.local_port),
        rate_of(editor.form.download) == Some(profile.download_kib),
        rate_of(editor.form.upload) == Some(profile.upload_kib),
        profile.limited == editor.form.limited,
    ensures
        profile.problem() is None ==> editor.committed() == Ok::<_, InvalidView>(profile),
        profile.problem() matches Some(text) ==> editor.committed() == Err::<ProfileView, _>(
            InvalidView::Profile(text),
        ),
        profile.problem() is None ==> editor.after_commit().form == FormView::showing(profile),
        editor.after_commit().rates.download == profile.download_kib,
        editor.after_commit().rates.upload == profile.upload_kib,
{
}

/// A commit is refused for the rates before anything else, and then for the ports.
pub proof fn lemma_commit_needs_rates_and_ports(editor: EditorView)
    ensures
        ({
            let rates = rate_of(editor.form.download) is Some && rate_of(editor.form.upload) is Some;
            let ports = port_of(editor.form.upstream_port) is Some && port_of(
                editor.form.local_port,
            ) is Some;
            &&& !rates ==> editor.committed() == Err::<ProfileView, _>(
                InvalidView::Rates(
                    "Rates must be whole numbers from 1 to 1,000,000 KiB/s."@
                        + " The previous rates are still active."@,
                ),
            )
            &&& rates && !ports ==> editor.committed() == Err::<ProfileView, _>(
                InvalidView::Profile("Ports must be whole numbers from 1 to 65535."@),
            )
            &&& editor.committed() is Ok ==> rates && ports
        }),
{
}

/// A commit leaves alone what is saved and selected. One that is refused leaves the typed
/// texts but for the rates.
pub proof fn lemma_commit_touches_only_the_form(editor: EditorView)
    ensures
        ({
            let after = editor.after_commit();
            &&& after.settings == editor.settings
            &&& after.baseline == editor.baseline
            &&& after.selected == editor.selected
            &&& editor.committed() is Err ==> {
                &&& after.form.name == editor.form.name
                &&& after.form.host == editor.form.host
                &&& after.form.upstream_port == editor.form.upstream_port
                &&& after.form.local_port == editor.form.local_port
                &&& after.form.limited == editor.form.limited
                &&& after.form.download == decimal(after.rates.download as nat)
                &&& after.form.upload == decimal(after.rates.upload as nat)
            }
        }),
{
}

/// A profile is saved exactly if it can be committed, no other profile has its name, and
/// there is a place for it.
pub proof fn lemma_what_can_be_saved(editor: EditorView)
    ensures
        editor.committed() matches Err(invalid) ==> editor.saving() == Err::<ProfileView, _>(
            invalid,
        ),
        editor.committed() matches Ok(profile) ==> {
            let profiles = editor.settings.profiles;
            let shared = exists|i: int|
                0 <= i < profiles.len() && (#[trigger] profiles[i]).name == profile.name
                    && editor.existing() != Some(i);
            &&& shared ==> editor.saving() == Err::<ProfileView, _>(
                InvalidView::Profile(
                    "Another profile is already named \""@ + profile.name + "\"."@,
                ),
            )
            &&& !shared && editor.settings.path is None ==> editor.saving() == Err::<
                ProfileView,
                _,
            >(
                InvalidView::Profile(
                    "Could not save: "@ + crate::settings::NO_CONFIG_DIRECTORY@,
                ),
            )
            &&& !shared && editor.settings.path is Some ==> editor.saving() == Ok::<
                _,
                InvalidView,
            >(profile)
        },
{
}

/// A saved profile takes the place of the selected one. Where none is selected it comes after
/// all others.
pub proof fn lemma_saved_profile_has_its_place(editor: EditorView, profile: ProfileView)
    requires
        editor.selection_exists(),
    ensures
        ({
            let before = editor.settings.profiles;
            let after = editor.profiles_with(profile);
            &&& editor.selected is None ==> after == before + seq![profile]
            &&& editor.selected matches Some(name) ==> {
                &&& after.len() == before.len()
                &&& exists|i: int|
                    0 <= i < before.len() && (#[trigger] before[i]).name == name && after[i]
                        == profile && (forall|j: int|
                        0 <= j < before.len() && j != i ==> #[trigger] after[j] == before[j])
            }
        }),
{
    match editor.selected {
        Some(name) => {
            lemma_position_of(editor.settings.profiles, name);
            let i = position_of(editor.settings.profiles, name)->0;
            assert(editor.settings.profiles[i].name == name);
        },
        None => {},
    }
}

/// Once profiles have been written, they are what is saved, and no backup is owed. The form,
/// the rates and the place of the file stay. Saving selects the profile; deleting unselects
/// the one that is gone and no other.
pub proof fn lemma_writing_leaves_the_form(
    editor: EditorView,
    profiles: Seq<ProfileView>,
    profile: ProfileView,
    name: Seq<char>,
)
    ensures
        ({
            let after = editor.after_save(profiles, profile);
            &&& after.form == editor.form
            &&& after.rates == editor.rates
            &&& after.baseline == profile
            &&& after.selected == Some(profile.name)
            &&& after.settings.profiles == profiles
            &&& !after.settings.backup_pending
            &&& after.settings.path == editor.settings.path
        }),
        ({
            let after = editor.after_delete(profiles, name);
            &&& after.form == editor.form
            &&& after.rates == editor.rates
            &&& after.baseline == editor.baseline
            &&& editor.selected == Some(name) ==> after.selected is None
            &&& editor.selected != Some(name) ==> after.selected == editor.selected
            &&& after.settings.profiles == profiles
            &&& !after.settings.backup_pending
            &&& after.settings.path == editor.settings.path
        }),
{
}

/// Typing changes the form and nothing else.
pub proof fn lemma_typing_changes_the_form(editor: EditorView, form: FormView)
    ensures
        editor.typed(form).form == form,
        editor.typed(form).settings == editor.settings,
        editor.typed(form).rates == editor.rates,
        editor.typed(form).baseline == editor.baseline,
        editor.typed(form).selected == editor.selected,
{
}

/// A choice is shown by the name of its profile. A failure to save says what failed.
pub proof fn lemma_choices_and_failures_are_named(name: String, error: Seq<char>)
    ensures
        Choice::Saved(name).shown() == name@,
        Choice::New.shown() == "New profile"@,
        save_failed(error) == InvalidView::Profile("Could not save: "@ + error),
{
}

} // verus!
