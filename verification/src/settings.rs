//! What the user can set.

use crate::double::{ratio_value, Double};
use crate::notifications::values_of;
use vstd::prelude::*;

verus! {

#[derive(Debug)]
pub struct Settings {
    pub refresh_secs: u64,
    pub idle_refresh_secs: u64,
    pub notify_session: bool,
    pub notify_weekly: bool,
    pub thresholds: Vec<Double>,
    /// Whether to warn when the session is used up too fast.
    pub notify_spike: bool,
    /// Whether to warn of the week as well.
    pub notify_spike_weekly: bool,
    /// How much of a quota per minute is too fast.
    pub spike_threshold_per_min: Double,
    /// Whether the usage endpoint is known to report percentages.
    pub percentage_scale: bool,
}

/// The settings of a user who has set nothing.
pub open spec fn are_defaults(s: Settings) -> bool {
    &&& s.refresh_secs == 420
    &&& s.idle_refresh_secs == 1200
    &&& s.notify_session
    &&& s.notify_weekly
    &&& values_of(s.thresholds@) == seq![
        ratio_value(75, 100),
        ratio_value(90, 100),
        ratio_value(95, 100),
    ]
    &&& s.notify_spike
    &&& !s.notify_spike_weekly
    &&& s.spike_threshold_per_min@ == ratio_value(2, 100)
    &&& !s.percentage_scale
}

/// Whether to warn of a spike when the settings do not say.
pub fn default_notify_spike() -> (r: bool)
    ensures
        r,
{
    true
}

/// How much of a quota per minute is too fast when the settings do not say.
pub fn default_spike_threshold() -> (r: Double)
    ensures
        r@ == ratio_value(2, 100),
{
    Double::ratio(2, 100)
}

impl Default for Settings {
    fn default() -> (r: Settings)
        ensures
            are_defaults(r),
    {
        let mut thresholds: Vec<Double> = Vec::new();
        thresholds.push(Double::ratio(75, 100));
        thresholds.push(Double::ratio(90, 100));
        thresholds.push(Double::ratio(95, 100));
        assert(values_of(thresholds@) =~= seq![
            ratio_value(75, 100),
            ratio_value(90, 100),
            ratio_value(95, 100),
        ]);
        Settings {
            refresh_secs: 7 * 60,
            idle_refresh_secs: 20 * 60,
            notify_session: true,
            notify_weekly: true,
            thresholds,
            notify_spike: default_notify_spike(),
            notify_spike_weekly: false,
            spike_threshold_per_min: default_spike_threshold(),
            percentage_scale: false,
        }
    }
}

/// What a `Settings` says.
pub struct Choice {
    pub refresh_secs: u64,
    pub idle_refresh_secs: u64,
    pub notify_session: bool,
    pub notify_weekly: bool,
    pub thresholds: Seq<Double>,
    pub notify_spike: bool,
    pub notify_spike_weekly: bool,
    pub spike_threshold_per_min: Double,
    pub percentage_scale: bool,
}

impl View for Settings {
    type V = Choice;

    open spec fn view(&self) -> Choice {
        Choice {
            refresh_secs: self.refresh_secs,
            idle_refresh_secs: self.idle_refresh_secs,
            notify_session: self.notify_session,
            notify_weekly: self.notify_weekly,
            thresholds: self.thresholds@,
            notify_spike: self.notify_spike,
            notify_spike_weekly: self.notify_spike_weekly,
            spike_threshold_per_min: self.spike_threshold_per_min,
            percentage_scale: self.percentage_scale,
        }
    }
}

impl Clone for Settings {
    fn clone(&self) -> (r: Settings)
        ensures
            r@ == self@,
    {
        let thresholds = self.thresholds.clone();
        assert(thresholds@ =~= self.thresholds@);
        Settings {
            refresh_secs: self.refresh_secs,
            idle_refresh_secs: self.idle_refresh_secs,
            notify_session: self.notify_session,
            notify_weekly: self.notify_weekly,
            thresholds,
            notify_spike: self.notify_spike,
            notify_spike_weekly: self.notify_spike_weekly,
            spike_threshold_per_min: self.spike_threshold_per_min,
            percentage_scale: self.percentage_scale,
        }
    }
}

/// The settings as a file holds them. What came in later may be absent.
#[derive(Debug)]
pub struct StoredSettings {
    pub refresh_secs: u64,
    pub idle_refresh_secs: u64,
    pub notify_session: bool,
    pub notify_weekly: bool,
    pub thresholds: Vec<Double>,
    pub notify_spike: Option<bool>,
    pub notify_spike_weekly: Option<bool>,
    pub spike_threshold_per_min: Option<Double>,
    pub percentage_scale: Option<bool>,
}

/// What a `StoredSettings` says.
pub struct StoredChoice {
    pub refresh_secs: u64,
    pub idle_refresh_secs: u64,
    pub notify_session: bool,
    pub notify_weekly: bool,
    pub thresholds: Seq<Double>,
    pub notify_spike: Option<bool>,
    pub notify_spike_weekly: Option<bool>,
    pub spike_threshold_per_min: Option<Double>,
    pub percentage_scale: Option<bool>,
}

impl View for StoredSettings {
    type V = StoredChoice;

    open spec fn view(&self) -> StoredChoice {
        StoredChoice {
            refresh_secs: self.refresh_secs,
            idle_refresh_secs: self.idle_refresh_secs,
            notify_session: self.notify_session,
            notify_weekly: self.notify_weekly,
            thresholds: self.thresholds@,
            notify_spike: self.notify_spike,
            notify_spike_weekly: self.notify_spike_weekly,
            spike_threshold_per_min: self.spike_threshold_per_min,
            percentage_scale: self.percentage_scale,
        }
    }
}

pub open spec fn or_else<T>(given: Option<T>, otherwise: T) -> T {
    match given {
        Some(x) => x,
        None => otherwise,
    }
}

/// `s` is what a file with `stored` stands for: what it holds, and the defaults
/// for what is absent.
pub open spec fn stands_for(stored: StoredChoice, s: Choice) -> bool {
    &&& s.refresh_secs == stored.refresh_secs
    &&& s.idle_refresh_secs == stored.idle_refresh_secs
    &&& s.notify_session == stored.notify_session
    &&& s.notify_weekly == stored.notify_weekly
    &&& s.thresholds == stored.thresholds
    &&& s.notify_spike == or_else(stored.notify_spike, true)
    &&& s.notify_spike_weekly == or_else(stored.notify_spike_weekly, false)
    &&& match stored.spike_threshold_per_min {
        Some(t) => s.spike_threshold_per_min == t,
        None => s.spike_threshold_per_min@ == ratio_value(2, 100),
    }
    &&& s.percentage_scale == or_else(stored.percentage_scale, false)
}

/// What a file holds once `s` is saved.
pub open spec fn saved(s: Choice) -> StoredChoice {
    StoredChoice {
        refresh_secs: s.refresh_secs,
        idle_refresh_secs: s.idle_refresh_secs,
        notify_session: s.notify_session,
        notify_weekly: s.notify_weekly,
        thresholds: s.thresholds,
        notify_spike: Some(s.notify_spike),
        notify_spike_weekly: Some(s.notify_spike_weekly),
        spike_threshold_per_min: Some(s.spike_threshold_per_min),
        percentage_scale: Some(s.percentage_scale),
    }
}

/// Settings that were saved are read back as they were.
pub proof fn saved_settings_are_read_back(s: Choice, back: Choice)
    requires
        stands_for(saved(s), back),
    ensures
        back == s,
{
}

/// What became of reading the settings.
#[derive(Debug)]
pub enum SettingsFile {
    /// There is no file, or it cannot be read.
    Unavailable,
    /// The file does not hold settings.
    Malformed,
    Parsed(StoredSettings),
}

impl Settings {
    /// The settings that a file stands for.
    pub fn from_stored(stored: StoredSettings) -> (r: Settings)
        ensures
            stands_for(stored@, r@),
    {
        Settings {
            refresh_secs: stored.refresh_secs,
            idle_refresh_secs: stored.idle_refresh_secs,
            notify_session: stored.notify_session,
            notify_weekly: stored.notify_weekly,
            thresholds: stored.thresholds,
            notify_spike: match stored.notify_spike {
                Some(x) => x,
                None => default_notify_spike(),
            },
            notify_spike_weekly: match stored.notify_spike_weekly {
                Some(x) => x,
                None => false,
            },
            spike_threshold_per_min: match stored.spike_threshold_per_min {
                Some(x) => x,
                None => default_spike_threshold(),
            },
            percentage_scale: match stored.percentage_scale {
                Some(x) => x,
                None => false,
            },
        }
    }

    /// What a file holds once the settings are saved.
    pub fn to_stored(&self) -> (r: StoredSettings)
        ensures
            r@ == saved(self@),
    {
        let thresholds = self.thresholds.clone();
        assert(thresholds@ =~= self.thresholds@);
        StoredSettings {
            refresh_secs: self.refresh_secs,
            idle_refresh_secs: self.idle_refresh_secs,
            notify_session: self.notify_session,
            notify_weekly: self.notify_weekly,
            thresholds,
            notify_spike: Some(self.notify_spike),
            notify_spike_weekly: Some(self.notify_spike_weekly),
            spike_threshold_per_min: Some(self.spike_threshold_per_min),
            percentage_scale: Some(self.percentage_scale),
        }
    }

    /// The settings to go by, and whether to put the file aside as a backup
    /// because it does not hold any.
    pub fn load(file: SettingsFile) -> (r: (Settings, bool))
        ensures
            match file {
                SettingsFile::Unavailable => are_defaults(r.0) && !r.1,
                SettingsFile::Malformed => are_defaults(r.0) && r.1,
                SettingsFile::Parsed(stored) => stands_for(stored@, r.0@) && !r.1,
            },
    {
        match file {
            SettingsFile::Unavailable => (Settings::default(), false),
            SettingsFile::Malformed => (Settings::default(), true),
            SettingsFile::Parsed(stored) => (Settings::from_stored(stored), false),
        }
    }
}

/// What a file leaves out is as it is for a user who has set nothing; what it
/// holds is as it says.
pub proof fn what_is_left_out_is_the_default(stored: StoredChoice, s: Settings, nothing: Settings)
    requires
        stands_for(stored, s@),
        are_defaults(nothing),
    ensures
        stored.notify_spike is None ==> s.notify_spike == nothing.notify_spike,
        stored.notify_spike_weekly is None ==> s.notify_spike_weekly == nothing.notify_spike_weekly,
        stored.spike_threshold_per_min is None ==> s.spike_threshold_per_min@
            == nothing.spike_threshold_per_min@,
        stored.percentage_scale is None ==> s.percentage_scale == nothing.percentage_scale,
        stored.notify_spike matches Some(x) ==> s.notify_spike == x,
        stored.notify_spike_weekly matches Some(x) ==> s.notify_spike_weekly == x,
        stored.spike_threshold_per_min matches Some(x) ==> s.spike_threshold_per_min == x,
        stored.percentage_scale matches Some(x) ==> s.percentage_scale == x,
{
}

} // verus!
