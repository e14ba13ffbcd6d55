//! What the configuration file can say.
use vstd::prelude::*;
use vstd::string::*;
use crate::metrics::{MetricCategory, MetricKind, Polarity};
use crate::number::Double;
use crate::text::copy_of;

verus! {

/// Backlog above which a partition is hot, where the file does not say.
pub const DEFAULT_THRESHOLD: i64 = 100;

/// The configuration file.
#[derive(Debug)]
pub struct Config {
    /// Admin service URL; may come from elsewhere instead.
    pub admin_url: Option<String>,
    /// The subscription that is checked.
    pub subscription: String,
    /// Backlog above which a partition is hot.
    pub backlog_threshold: i64,
    /// The topics to check.
    pub topics: Vec<String>,
    pub colors: ColorThresholds,
    pub settings: Settings,
    pub kube: KubeConfig,
    pub metrics: MetricsConfig,
    pub admin: AdminConfig,
}

/// Why a configuration file cannot be used.
#[derive(Debug)]
pub enum ConfigError {
    Read { path: String, source: String },
    Parse { path: String, source: String },
    NoTopics { path: String },
}

/// What to tell the user of an unusable configuration file.
pub open spec fn config_error_text(e: ConfigError) -> Seq<char> {
    match e {
        ConfigError::Read { path, source } => "failed to read config file "@ + path@ + ": "@
            + source@,
        ConfigError::Parse { path, source } => "failed to parse config file "@ + path@ + ": "@
            + source@,
        ConfigError::NoTopics { path } => "config file "@ + path@
            + ": `topics` must not be empty"@,
    }
}

impl ConfigError {
    /// What to tell the user.
    pub fn message(&self) -> (r: String)
        ensures
            r@ == config_error_text(*self),
    {
        match self {
            ConfigError::Read { path, source } => {
                let mut r = copy_of("failed to read config file ");
                r.append(path.as_str());
                r.append(": ");
                r.append(source.as_str());
                r
            },
            ConfigError::Parse { path, source } => {
                let mut r = copy_of("failed to parse config file ");
                r.append(path.as_str());
                r.append(": ");
                r.append(source.as_str());
                r
            },
            ConfigError::NoTopics { path } => {
                let mut r = copy_of("config file ");
                r.append(path.as_str());
                r.append(": `topics` must not be empty");
                r
            },
        }
    }
}

impl Config {
    /// Accept a configuration that was read from `path`: it must name a topic.
    pub fn accept(self, path: &str) -> (r: Result<Config, ConfigError>)
        ensures
            match r {
                Ok(c) => self.topics@.len() > 0 && c == self,
                Err(ConfigError::NoTopics { path: p }) => self.topics@.len() == 0 && p@ == path@,
                Err(_) => false,
            },
    {
        if self.topics.len() == 0 {
            Err(ConfigError::NoTopics { path: copy_of(path) })
        } else {
            Ok(self)
        }
    }
}

// ── Colours ──────────────────────────────────────────────────────────────────

/// At which values the columns for backlog, size and unacknowledged messages
/// turn yellow (`warn`) and red (`crit`). Sizes are in bytes.
#[derive(Debug, Clone, Copy, PartialEq, Eq, Structural)]
pub struct ColorThresholds {
    pub backlog_warn: Option<i64>,
    pub backlog_crit: Option<i64>,
    pub size_warn: Option<i64>,
    pub size_crit: Option<i64>,
    pub unacked_warn: Option<i64>,
    pub unacked_crit: Option<i64>,
}

/// How a value compares with its thresholds.
#[derive(Debug, Clone, Copy, PartialEq, Eq, Structural)]
pub enum ThresholdLevel {
    /// There is no threshold to compare with.
    Unset,
    /// Below every threshold.
    Good,
    Warn,
    Crit,
}

/// How `value` compares with optional thresholds: the critical one counts first.
pub open spec fn threshold_level(value: int, warn: Option<i64>, crit: Option<i64>) -> ThresholdLevel {
    if crit matches Some(c) && value >= c {
        ThresholdLevel::Crit
    } else if warn matches Some(w) && value >= w {
        ThresholdLevel::Warn
    } else if warn is Some || crit is Some {
        ThresholdLevel::Good
    } else {
        ThresholdLevel::Unset
    }
}

impl Default for ColorThresholds {
    fn default() -> (r: ColorThresholds)
        ensures
            r.backlog_warn is None && r.backlog_crit is None,
            r.size_warn is None && r.size_crit is None,
            r.unacked_warn is None && r.unacked_crit is None,
    {
        ColorThresholds {
            backlog_warn: None,
            backlog_crit: None,
            size_warn: None,
            size_crit: None,
            unacked_warn: None,
            unacked_crit: None,
        }
    }
}

impl ColorThresholds {
    fn level(value: i64, warn: Option<i64>, crit: Option<i64>) -> (r: ThresholdLevel)
        ensures
            r == threshold_level(value as int, warn, crit),
    {
        if let Some(c) = crit {
            if value >= c {
                return ThresholdLevel::Crit;
            }
        }
        if let Some(w) = warn {
            if value >= w {
                return ThresholdLevel::Warn;
            }
        }
        if warn.is_some() || crit.is_some() {
            ThresholdLevel::Good
        } else {
            ThresholdLevel::Unset
        }
    }

    /// How a backlog compares with its thresholds.
    pub fn backlog_level(&self, value: i64) -> (r: ThresholdLevel)
        ensures
            r == threshold_level(value as int, self.backlog_warn, self.backlog_crit),
    {
        Self::level(value, self.backlog_warn, self.backlog_crit)
    }

    /// How a size compares with its thresholds.
    pub fn size_level(&self, value: i64) -> (r: ThresholdLevel)
        ensures
            r == threshold_level(value as int, self.size_warn, self.size_crit),
    {
        Self::level(value, self.size_warn, self.size_crit)
    }

    /// How a number of unacknowledged messages compares with its thresholds.
    pub fn unacked_level(&self, value: i64) -> (r: ThresholdLevel)
        ensures
            r == threshold_level(value as int, self.unacked_warn, self.unacked_crit),
    {
        Self::level(value, self.unacked_warn, self.unacked_crit)
    }
}

// ── The other tables ─────────────────────────────────────────────────────────

/// How results are printed.
#[derive(Debug, Clone, Copy, PartialEq, Eq, Structural)]
pub enum OutputFormat {
    Table,
    Jsonl,
}

/// The `[settings]` table: defaults for command-line flags.
#[derive(Debug)]
pub struct Settings {
    pub format: Option<OutputFormat>,
    pub concurrency: Option<usize>,
    pub timeout_secs: Option<u64>,
    pub drain_window_secs: Option<u64>,
    pub watch: Option<bool>,
    pub tui: Option<bool>,
    pub watch_interval_secs: Option<u64>,
    pub json_dir: Option<String>,
    pub json_dir_max_files: Option<usize>,
    pub problems_only: Option<bool>,
}

/// The `[kube]` table.
#[derive(Debug)]
pub struct KubeConfig {
    pub enabled: bool,
    pub namespace: Option<String>,
    pub selector: Option<String>,
    pub configmap: Option<String>,
    pub log_tail: Option<i64>,
    /// Expected `key = value` pairs, each key once.
    pub assert_pairs: Vec<(String, String)>,
}

impl Default for KubeConfig {
    fn default() -> (r: KubeConfig)
        ensures
            !r.enabled,
            r.namespace is None && r.selector is None && r.configmap is None,
            r.log_tail is None,
            r.assert_pairs@.len() == 0,
    {
        KubeConfig {
            enabled: false,
            namespace: None,
            selector: None,
            configmap: None,
            log_tail: None,
            assert_pairs: Vec::new(),
        }
    }
}

/// The `[metrics]` table.
#[derive(Debug)]
pub struct MetricsConfig {
    pub enabled: bool,
    /// Port on which pods expose metrics.
    pub port: u16,
    /// Scrapes kept for each metric.
    pub window: usize,
    /// Where every scrape is archived.
    pub capture_dir: Option<String>,
    pub watch: Vec<WatchConfig>,
}

/// One `[[metrics.watch]]` entry.
#[derive(Debug)]
pub struct WatchConfig {
    pub name: String,
    pub label: Option<String>,
    pub polarity: Polarity,
    /// The value that alerts when it is crossed.
    pub threshold: Option<Double>,
    pub kind: MetricKind,
    pub category: MetricCategory,
}

/// The `[admin]` table.
#[derive(Debug, Clone, Copy, PartialEq, Eq, Structural)]
pub struct AdminConfig {
    /// Destructive actions are possible at all.
    pub allow_actions: bool,
}

impl Default for AdminConfig {
    fn default() -> (r: AdminConfig)
        ensures
            !r.allow_actions,
    {
        AdminConfig { allow_actions: false }
    }
}

// ── Laws ─────────────────────────────────────────────────────────────────────

/// A column is left uncoloured exactly when it has no threshold at all.
pub proof fn lemma_uncoloured(value: int, warn: Option<i64>, crit: Option<i64>)
    ensures
        threshold_level(value, warn, crit) == ThresholdLevel::Unset <==> warn is None && crit is None,
{
}

/// A greater value never gets a milder colour.
pub proof fn lemma_level_monotone(a: int, b: int, warn: Option<i64>, crit: Option<i64>)
    requires
        a <= b,
    ensures
        threshold_level(a, warn, crit) == ThresholdLevel::Crit ==> threshold_level(b, warn, crit)
            == ThresholdLevel::Crit,
        threshold_level(a, warn, crit) == ThresholdLevel::Warn ==> threshold_level(b, warn, crit)
            != ThresholdLevel::Good,
{
}

/// A value is critical from its critical threshold on, else a warning from its
/// warning threshold on; without thresholds it is neither good nor bad.
pub proof fn lemma_levels(value: int, warn: Option<i64>, crit: Option<i64>)
    ensures
        ({
            let over = |t: Option<i64>| t is Some && t->0 <= value;
            let level = threshold_level(value, warn, crit);
            &&& level == ThresholdLevel::Crit <==> over(crit)
            &&& level == ThresholdLevel::Warn <==> over(warn) && !over(crit)
            &&& level == ThresholdLevel::Unset <==> warn is None && crit is None
            &&& level == ThresholdLevel::Good <==> !over(warn) && !over(crit) && (warn is Some
                || crit is Some)
        }),
{
}

/// What is told of a configuration that cannot be used.
pub proof fn lemma_config_errors(path: String, source: String)
    ensures
        config_error_text(ConfigError::Read { path, source }) == "failed to read config file "@
            + path@ + ": "@ + source@,
        config_error_text(ConfigError::Parse { path, source }) == "failed to parse config file "@
            + path@ + ": "@ + source@,
        config_error_text(ConfigError::NoTopics { path }) == "config file "@ + path@
            + ": `topics` must not be empty"@,
{
}

} // verus!
