//! Decisions around the index that the application shell carries out:
//! coalescing of rebuild triggers, the start-up settings, the icon fallback
//! and where the remote configuration lives.
use vstd::prelude::*;
use crate::index::{any_found, rebuilt, total_found, IndexSnapshot, RebuildError, ScanOutcome};

verus! {

/// What the shell should do about rebuilding the index.
#[derive(Clone, Copy, Debug, PartialEq, Eq, Structural)]
pub enum RebuildAction {
    /// Start a rebuild now.
    Start,
    /// Nothing to start: a rebuild runs, or none is wanted.
    Idle,
}

/// Coalesces rebuild triggers: at most one rebuild runs, and at most one
/// more is queued behind it, however many triggers arrive meanwhile.
#[derive(Clone, Copy, Debug, PartialEq, Eq, Structural)]
pub struct RebuildScheduler {
    pub running: bool,
    pub queued: bool,
}

impl RebuildScheduler {
    pub open spec fn wf(&self) -> bool {
        self.queued ==> self.running
    }

    pub fn new() -> (r: RebuildScheduler)
        ensures
            r.wf(),
            !r.running,
            !r.queued,
    {
        RebuildScheduler { running: false, queued: false }
    }

    /// A rebuild was asked for (configuration changed, manual refresh).
    pub fn trigger(&mut self) -> (r: RebuildAction)
        requires
            old(self).wf(),
        ensures
            final(self).wf(),
            final(self).running,
            !old(self).running ==> r == RebuildAction::Start && !final(self).queued,
            old(self).running ==> r == RebuildAction::Idle && final(self).queued,
    {
        if self.running {
            self.queued = true;
            RebuildAction::Idle
        } else {
            self.running = true;
            RebuildAction::Start
        }
    }

    /// The running rebuild ended, whether it published or failed.
    pub fn finished(&mut self) -> (r: RebuildAction)
        requires
            old(self).wf(),
            old(self).running,
        ensures
            final(self).wf(),
            !final(self).queued,
            old(self).queued ==> r == RebuildAction::Start && final(self).running,
            !old(self).queued ==> r == RebuildAction::Idle && !final(self).running,
    {
        if self.queued {
            self.queued = false;
            RebuildAction::Start
        } else {
            self.running = false;
            RebuildAction::Idle
        }
    }
}

/// Re-indexes the programs: builds the next snapshot of `index` from the
/// scanners' outcomes, as `IndexSnapshot::rebuild` does.
pub fn update_program_path(index: &IndexSnapshot, scans: &Vec<ScanOutcome>) -> (r: Result<IndexSnapshot, RebuildError>)
    requires
        index.wf(),
    ensures
        !any_found(scans@) ==> r == Err::<IndexSnapshot, RebuildError>(RebuildError::AllSourcesFailed),
        any_found(scans@) && !(index.version < u64::MAX && index.next_id + total_found(scans@) <= u64::MAX)
            ==> r == Err::<IndexSnapshot, RebuildError>(RebuildError::CounterExhausted),
        any_found(scans@) && index.version < u64::MAX && index.next_id + total_found(scans@) <= u64::MAX
            ==> (r matches Ok(n) && rebuilt(*index, scans@, n)),
{
    index.rebuild(scans)
}

/// What to do with the main window at start-up.
#[derive(Clone, Copy, Debug, PartialEq, Eq, Structural)]
pub enum WindowAction {
    Show,
    Hide,
}

/// A silent start keeps the main window hidden.
pub fn handle_silent_start(is_silent_start: bool) -> (r: WindowAction)
    ensures
        r == (if is_silent_start { WindowAction::Hide } else { WindowAction::Show }),
{
    if is_silent_start {
        WindowAction::Hide
    } else {
        WindowAction::Show
    }
}

/// What to do with the launch-at-login registration.
#[derive(Clone, Copy, Debug, PartialEq, Eq, Structural)]
pub enum AutoStartAction {
    Enable,
    Disable,
    Keep,
}

/// Brings the launch-at-login registration in line with the setting.
pub fn handle_auto_start(is_auto_start: bool, is_enabled: bool) -> (r: AutoStartAction)
    ensures
        is_auto_start && !is_enabled ==> r == AutoStartAction::Enable,
        !is_auto_start && is_enabled ==> r == AutoStartAction::Disable,
        is_auto_start == is_enabled ==> r == AutoStartAction::Keep,
{
    if is_auto_start && !is_enabled {
        AutoStartAction::Enable
    } else if !is_auto_start && is_enabled {
        AutoStartAction::Disable
    } else {
        AutoStartAction::Keep
    }
}

/// The application settings that start-up depends on.
#[derive(Clone, Copy, Debug, PartialEq, Eq, Structural)]
pub struct AppSettings {
    pub is_auto_start: bool,
    pub is_silent_start: bool,
}

/// The three steps of applying the settings.
#[derive(Clone, Copy, Debug, PartialEq, Eq, Structural)]
pub struct SettingsPlan {
    pub rebuild: RebuildAction,
    pub auto_start: AutoStartAction,
    pub window: WindowAction,
}

/// Applies the settings: asks the scheduler for a re-index of the programs,
/// then settles the launch-at-login registration, then the window's
/// visibility.
pub fn update_app_setting(scheduler: &mut RebuildScheduler, settings: AppSettings, auto_start_enabled: bool) -> (r: SettingsPlan)
    requires
        old(scheduler).wf(),
    ensures
        final(scheduler).wf(),
        final(scheduler).running,
        !old(scheduler).running ==> r.rebuild == RebuildAction::Start && !final(scheduler).queued,
        old(scheduler).running ==> r.rebuild == RebuildAction::Idle && final(scheduler).queued,
        settings.is_auto_start && !auto_start_enabled ==> r.auto_start == AutoStartAction::Enable,
        !settings.is_auto_start && auto_start_enabled ==> r.auto_start == AutoStartAction::Disable,
        settings.is_auto_start == auto_start_enabled ==> r.auto_start == AutoStartAction::Keep,
        r.window == (if settings.is_silent_start { WindowAction::Hide } else { WindowAction::Show }),
{
    let rebuild = scheduler.trigger();
    let auto_start = handle_auto_start(settings.is_auto_start, auto_start_enabled);
    let window = handle_silent_start(settings.is_silent_start);
    SettingsPlan { rebuild, auto_start, window }
}

/// The next step of loading an icon.
#[derive(Clone, Debug)]
pub enum ImageLoad {
    /// These bytes are the icon.
    Ready(Vec<u8>),
    /// The icon could not be read: read this fallback path instead.
    ReadFallback(String),
}

/// Loads icons, falling back to a default icon when one cannot be read.
#[derive(Clone, Debug)]
pub struct ImageLoader {
    pub default_app_icon_path: String,
}

impl ImageLoader {
    pub fn new(default_icon_path: String) -> (r: ImageLoader)
        ensures
            r.default_app_icon_path@ == default_icon_path@,
    {
        ImageLoader { default_app_icon_path: default_icon_path }
    }

    /// Given the bytes read from an icon's own path (empty when it could not
    /// be read), says whether they are the icon or the default must be read.
    pub fn load_image(&self, pic_bytes: Vec<u8>) -> (r: ImageLoad)
        ensures
            pic_bytes@.len() > 0 ==> (r matches ImageLoad::Ready(b) && b@ == pic_bytes@),
            pic_bytes@.len() == 0 ==> (r matches ImageLoad::ReadFallback(p) && p@
                == self.default_app_icon_path@),
    {
        if pic_bytes.len() == 0 {
            ImageLoad::ReadFallback(self.default_app_icon_path.clone())
        } else {
            ImageLoad::Ready(pic_bytes)
        }
    }
}

/// What a tray-menu click asks for.
#[derive(Clone, Debug)]
pub enum MenuEventId {
    ShowSettingWindow,
    ExitProgram,
    UpdateAppSetting,
    Unknown(String),
}

/// Whether two strings hold the same characters.
pub fn same_text(a: &str, b: &str) -> (r: bool)
    ensures
        r == (a@ == b@),
{
    let n = a.unicode_len();
    if n != b.unicode_len() {
        return false;
    }
    let mut i: usize = 0;
    while i < n
        invariant
            n == a@.len(),
            n == b@.len(),
            i <= n,
            a@.take(i as int) == b@.take(i as int),
        decreases n - i,
    {
        if a.get_char(i) != b.get_char(i) {
            return false;
        }
        assert(a@.take(i as int + 1) =~= a@.take(i as int).push(a@[i as int]));
        assert(b@.take(i as int + 1) =~= b@.take(i as int).push(b@[i as int]));
        i += 1;
    }
    assert(a@ =~= a@.take(n as int));
    assert(b@ =~= b@.take(n as int));
    true
}

impl MenuEventId {
    /// The menu item that an event id names.
    pub fn from_id(id: &str) -> (r: MenuEventId)
        ensures
            id@ == "show_setting_window"@ ==> r is ShowSettingWindow,
            id@ == "exit_program"@ ==> r is ExitProgram,
            id@ == "update_app_setting"@ ==> r is UpdateAppSetting,
            id@ != "show_setting_window"@ && id@ != "exit_program"@ && id@ != "update_app_setting"@
                ==> (r matches MenuEventId::Unknown(s) && s@ == id@),
    {
        proof {
            reveal_strlit("show_setting_window");
            reveal_strlit("exit_program");
            reveal_strlit("update_app_setting");
            assert("show_setting_window"@.len() != "exit_program"@.len());
            assert("show_setting_window"@.len() != "update_app_setting"@.len());
            assert("exit_program"@.len() != "update_app_setting"@.len());
        }
        if same_text(id, "show_setting_window") {
            MenuEventId::ShowSettingWindow
        } else if same_text(id, "exit_program") {
            MenuEventId::ExitProgram
        } else if same_text(id, "update_app_setting") {
            MenuEventId::UpdateAppSetting
        } else {
            MenuEventId::Unknown(String::from_str(id))
        }
    }
}

/// File name of the remote configuration inside its directory.
pub const REMOTE_CONFIG_NAME: &'static str = "remote_config.json";

/// A file name that a path join appends as it is: ASCII letters, digits,
/// `_`, `-` and `.`, not empty, and neither `.` nor `..`.
pub open spec fn plain_file_name(s: Seq<char>) -> bool {
    &&& s.len() > 0
    &&& s != seq!['.']
    &&& s != seq!['.', '.']
    &&& forall|i: int|
        0 <= i < s.len() ==> {
            let c = #[trigger] s[i];
            ('a' <= c && c <= 'z') || ('A' <= c && c <= 'Z') || ('0' <= c && c <= '9') || c == '_' || c
                == '-' || c == '.'
        }
}

pub open spec fn is_path_separator(c: char) -> bool {
    c == '/' || c == '\\'
}

/// Whether a path starts with the Windows verbatim prefix `\\?\`, under which
/// joining rebuilds the whole path from its components.
pub open spec fn verbatim_path(p: Seq<char>) -> bool {
    p.len() >= 4 && p[0] == '\\' && p[1] == '\\' && p[2] == '?' && p[3] == '\\'
}

/// Whether `r` is `dir` and `name` joined by at most one path separator.
pub open spec fn joined(dir: Seq<char>, name: Seq<char>, r: Seq<char>) -> bool {
    exists|sep: Seq<char>|
        (sep.len() == 0 || (sep.len() == 1 && is_path_separator(sep[0]))) && r == dir + sep + name
}

/// Whether `r` ends with `name`.
pub open spec fn ends_with(r: Seq<char>, name: Seq<char>) -> bool {
    name.len() <= r.len() && r.subrange(r.len() - name.len(), r.len() as int) == name
}

/// Relies on std::path::Path::join (documented at PathBuf::push): a relative
/// name is appended to the directory, after the platform's separator unless
/// the directory is empty, a bare drive, or already ends in a separator; a
/// directory with a verbatim prefix is instead rebuilt from its components,
/// the name last. Both inputs are UTF-8, so the lossy conversion loses nothing.
#[verifier::external_body]
fn join_path(dir: &str, name: &str) -> (r: String)
    requires
        plain_file_name(name@),
    ensures
        ends_with(r@, name@),
        !verbatim_path(dir@) ==> joined(dir@, name@, r@),
{
    std::path::Path::new(dir).join(name).to_string_lossy().into_owned()
}

/// Where the remote configuration file is saved, given its directory.
pub fn get_remote_config_path(dir_path: &str) -> (r: String)
    ensures
        ends_with(r@, REMOTE_CONFIG_NAME@),
        !verbatim_path(dir_path@) ==> joined(dir_path@, REMOTE_CONFIG_NAME@, r@),
{
    proof {
        reveal_strlit("remote_config.json");
        assert(REMOTE_CONFIG_NAME@.len() > 2);
    }
    join_path(dir_path, REMOTE_CONFIG_NAME)
}

} // verus!
