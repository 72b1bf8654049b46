//! User preferences and where they are kept.
use vstd::prelude::*;

verus! {

/// Items a review session pulls in by default.
pub fn default_daily_review_limit() -> (limit: u32)
    ensures
        limit == 20,
{
    20
}

/// The default UI theme id.
pub fn default_theme() -> (theme: String)
    ensures
        theme@ == "neural"@,
{
    "neural".to_owned()
}

/// The default scheduler id.
pub fn default_scheduler() -> (scheduler: String)
    ensures
        scheduler@ == "sm2"@,
{
    "sm2".to_owned()
}

/// The default FSRS desired retention, 0.9, as IEEE-754 binary32 bits.
pub fn default_fsrs_desired_retention() -> (bits: u32)
    ensures
        bits == 0x3f66_6666,
{
    0x3f66_6666
}

/// User preferences.
#[derive(Clone, Debug, PartialEq)]
pub struct Settings {
    /// Max number of items a review session pulls in at once, by default.
    pub daily_review_limit: u32,
    /// UI theme id, e.g. "neural" (default) or "blackbeard".
    pub theme: String,
    /// Which scheduler reviews are run through: "sm2" (default) or "fsrs".
    /// Existing items keep whatever fields their prior scheduler set;
    /// switching takes effect on each item's next review.
    pub scheduler: String,
    /// FSRS's target probability of recall at the scheduled review
    /// (0.7-0.99), as IEEE-754 binary32 bits. Unused with "sm2".
    pub fsrs_desired_retention: u32,
}

/// The default preferences: 20 items a session, the "neural" theme, SM-2,
/// and a desired retention of 0.9.
pub open spec fn is_default_settings(s: Settings) -> bool {
    &&& s.daily_review_limit == 20
    &&& s.theme@ == "neural"@
    &&& s.scheduler@ == "sm2"@
    &&& s.fsrs_desired_retention == 0x3f66_6666
}

impl Default for Settings {
    fn default() -> (s: Settings)
        ensures
            is_default_settings(s),
    {
        Settings {
            daily_review_limit: default_daily_review_limit(),
            theme: default_theme(),
            scheduler: default_scheduler(),
            fsrs_desired_retention: default_fsrs_desired_retention(),
        }
    }
}

/// Where the preferences are kept: a JSON file.
pub struct SettingsStore {
    path: String,
}

impl SettingsStore {
    /// A store for the file at `path`.
    pub fn new(path: String) -> (store: SettingsStore)
        ensures
            store.path()@ == path@,
    {
        SettingsStore { path }
    }

    /// The file's path.
    pub closed spec fn path(&self) -> String {
        self.path
    }

    /// The file's path.
    pub fn file_path(&self) -> (p: &String)
        ensures
            p@ == self.path()@,
    {
        &self.path
    }

    /// The preferences to use, given what the file held: the stored ones, or
    /// the defaults when there is no file yet (first run).
    pub fn load(&self, stored: Option<Settings>) -> (s: Settings)
        ensures
            match stored {
                Some(t) => s == t,
                None => is_default_settings(s),
            },
    {
        match stored {
            Some(t) => t,
            None => Settings::default(),
        }
    }
}

} // verus!
