//! What a run is told to do: flags, merged with the configuration file.

use crate::assoc::{lemma_pair_put, pair_value, put_all, with_pairs, Pair};
use crate::config::{KubeConfig, MetricsConfig, OutputFormat, Settings};
use crate::kube::client::KubeQuery;
use crate::kube::KubeReport;
use crate::pulsar::{topic_parts, TopicName, TopicNameError, TopicParts};
use crate::text::{char_index, chars_of, copy_of, cat3, index_of, lemma_char_index, slice_of, text_of, trim, trimmed};
use vstd::prelude::*;

verus! {

/// The flags of a run; what is not given is left open.
#[derive(Debug)]
pub struct Options {
    pub format: Option<OutputFormat>,
    pub threshold: Option<i64>,
    pub subscription: Option<String>,
    pub admin_url: Option<String>,
    pub concurrency: Option<usize>,
    pub timeout_secs: Option<u64>,
    pub drain_window_secs: Option<u64>,
    pub watch: bool,
    pub tui: bool,
    pub watch_interval_secs: Option<u64>,
    pub json_dir: Option<String>,
    pub json_dir_max_files: Option<usize>,
    pub problems_only: bool,
    pub kube: bool,
    pub kube_namespace: Option<String>,
    pub kube_selector: Option<String>,
    pub kube_configmap: Option<String>,
    pub kube_assert: Vec<(String, String)>,
    pub kube_log_tail: Option<i64>,
}

/// The first of the two that is given.
pub open spec fn either<T>(a: Option<T>, b: Option<T>) -> Option<T> {
    match a {
        Some(x) => Some(x),
        None => b,
    }
}

/// The value, or a default.
pub open spec fn or_default<T>(a: Option<T>, b: T) -> T {
    match a {
        Some(x) => x,
        None => b,
    }
}

/// The first of the two that is given.
fn first_of<T: Copy>(a: Option<T>, b: Option<T>) -> (r: Option<T>)
    ensures
        r == either(a, b),
{
    match a {
        Some(x) => Some(x),
        None => b,
    }
}

/// The first of the two texts that is given.
fn first_text(a: &Option<String>, b: &Option<String>) -> (r: Option<String>)
    ensures
        r.deep_view() == either(a.deep_view(), b.deep_view()),
{
    match a {
        Some(x) => Some(copy_of(x.as_str())),
        None => match b {
            Some(y) => Some(copy_of(y.as_str())),
            None => None,
        },
    }
}

/// Whether something is switched on.
fn on(b: Option<bool>) -> (r: bool)
    ensures
        r == or_default(b, false),
{
    match b {
        Some(x) => x,
        None => false,
    }
}

/// The flags after the settings of the configuration file are folded in: a flag
/// that is given wins, and a mode is on where either of the two switches it on.
pub open spec fn settled(o: Options, s: Settings, r: Options) -> bool {
    &&& r.format == either(o.format, s.format)
    &&& r.concurrency == either(o.concurrency, s.concurrency)
    &&& r.timeout_secs == either(o.timeout_secs, s.timeout_secs)
    &&& r.drain_window_secs == either(o.drain_window_secs, s.drain_window_secs)
    &&& r.watch_interval_secs == either(o.watch_interval_secs, s.watch_interval_secs)
    &&& r.json_dir_max_files == either(o.json_dir_max_files, s.json_dir_max_files)
    &&& r.json_dir.deep_view() == either(o.json_dir.deep_view(), s.json_dir.deep_view())
    &&& r.watch == (o.watch || or_default(s.watch, false))
    &&& r.tui == (o.tui || or_default(s.tui, false))
    &&& r.problems_only == (o.problems_only || or_default(s.problems_only, false))
    &&& r.threshold == o.threshold
    &&& r.subscription == o.subscription
    &&& r.admin_url == o.admin_url
    &&& r.kube == o.kube
    &&& r.kube_namespace == o.kube_namespace
    &&& r.kube_selector == o.kube_selector
    &&& r.kube_configmap == o.kube_configmap
    &&& r.kube_assert == o.kube_assert
    &&& r.kube_log_tail == o.kube_log_tail
}

/// Fold the settings of the configuration file into the flags.
pub fn apply_settings(options: &mut Options, s: &Settings)
    ensures
        settled(*old(options), *s, *final(options)),
{
    options.format = first_of(options.format, s.format);
    options.concurrency = first_of(options.concurrency, s.concurrency);
    options.timeout_secs = first_of(options.timeout_secs, s.timeout_secs);
    options.drain_window_secs = first_of(options.drain_window_secs, s.drain_window_secs);
    options.watch_interval_secs = first_of(options.watch_interval_secs, s.watch_interval_secs);
    options.json_dir_max_files = first_of(options.json_dir_max_files, s.json_dir_max_files);
    let dir = first_text(&options.json_dir, &s.json_dir);
    options.json_dir = dir;
    options.watch = options.watch || on(s.watch);
    options.tui = options.tui || on(s.tui);
    options.problems_only = options.problems_only || on(s.problems_only);
}

impl Options {
    /// How results are printed: as a table, unless told otherwise.
    pub fn format(&self) -> (r: OutputFormat)
        ensures
            r == or_default(self.format, OutputFormat::Table),
    {
        match self.format {
            Some(f) => f,
            None => OutputFormat::Table,
        }
    }

    /// How many requests run at a time.
    pub fn concurrency(&self) -> (r: usize)
        ensures
            r == or_default(self.concurrency, 8),
    {
        match self.concurrency {
            Some(n) => n,
            None => 8,
        }
    }

    /// How long a request may take.
    pub fn timeout_secs(&self) -> (r: u64)
        ensures
            r == or_default(self.timeout_secs, 30),
    {
        match self.timeout_secs {
            Some(n) => n,
            None => 30,
        }
    }

    /// How far apart the two readings of a backlog are.
    pub fn drain_window_secs(&self) -> (r: u64)
        ensures
            r == or_default(self.drain_window_secs, 30),
    {
        match self.drain_window_secs {
            Some(n) => n,
            None => 30,
        }
    }

    /// How often a watch looks.
    pub fn watch_interval_secs(&self) -> (r: u64)
        ensures
            r == or_default(self.watch_interval_secs, 60),
    {
        match self.watch_interval_secs {
            Some(n) => n,
            None => 60,
        }
    }

    /// How many snapshots are kept.
    pub fn json_dir_max_files(&self) -> (r: usize)
        ensures
            r == or_default(self.json_dir_max_files, 100),
    {
        match self.json_dir_max_files {
            Some(n) => n,
            None => 100,
        }
    }

    /// How long a watch pauses: at least a second.
    pub fn pause_secs(&self) -> (r: u64)
        ensures
            r == (if or_default(self.watch_interval_secs, 60) < 1 {
                1
            } else {
                or_default(self.watch_interval_secs, 60)
            }),
    {
        let n: u64 = self.watch_interval_secs();
        if n < 1 {
            1
        } else {
            n
        }
    }
}

// ── Expected settings ────────────────────────────────────────────────────────

/// What `key=value` says: the key is not empty, and neither has whitespace
/// around it.
pub open spec fn key_value(s: Seq<char>) -> Option<Pair> {
    let i = char_index(s, '=');
    if 0 < i < s.len() {
        Some((trimmed(s.take(i)), trimmed(s.skip(i + 1))))
    } else {
        None
    }
}

/// Parse a `key=value` pair.
pub fn parse_key_value(s: &str) -> (r: Result<(String, String), String>)
    ensures
        match r {
            Ok(p) => key_value(s@) == Some((p.0@, p.1@)),
            Err(e) => key_value(s@) is None && e@ == "expected key=value, got '"@ + s@ + "'"@,
        },
{
    let v = chars_of(s);
    let n: usize = v.len();
    let i: usize = index_of(v.as_slice(), '=');
    if i == 0 || i >= n {
        return Err(cat3("expected key=value, got '", s, "'"));
    }
    let key = slice_of(v.as_slice(), 0, i);
    let value = slice_of(v.as_slice(), i + 1, n);
    assert(key@ =~= v@.take(i as int));
    assert(value@ =~= v@.skip(i + 1));
    Ok(
        (
            text_of(trim(key.as_slice()).as_slice()),
            text_of(trim(value.as_slice()).as_slice()),
        ),
    )
}

// ── Kubernetes ───────────────────────────────────────────────────────────────

/// The settings of the Kubernetes side, after flags and configuration file are
/// merged.
#[derive(Debug)]
pub struct ResolvedKube {
    pub namespace: String,
    pub selector: Option<String>,
    pub configmap: Option<String>,
    pub log_tail: i64,
    pub assert_pairs: Vec<(String, String)>,
}

/// How many log lines are scanned where nothing else is said.
pub const LOG_TAIL: i64 = 200;

/// An optional string slice as a text.
pub open spec fn slice_text(s: Option<&str>) -> Option<Seq<char>> {
    match s {
        Some(t) => Some(t@),
        None => None,
    }
}

/// The settings that flags and configuration file make together: flags win.
pub open spec fn merged(
    r: ResolvedKube,
    kc: KubeConfig,
    namespace: Option<Seq<char>>,
    selector: Option<Seq<char>>,
    configmap: Option<Seq<char>>,
    log_tail: Option<i64>,
    pairs: Seq<Pair>,
) -> bool {
    &&& r.namespace@ == or_default(either(namespace, kc.namespace.deep_view()), "default"@)
    &&& r.selector.deep_view() == either(selector, kc.selector.deep_view())
    &&& r.configmap.deep_view() == either(configmap, kc.configmap.deep_view())
    &&& r.log_tail == or_default(either(log_tail, kc.log_tail), LOG_TAIL)
    &&& r.assert_pairs.deep_view() == with_pairs(kc.assert_pairs.deep_view(), pairs)
}

/// The text from a flag, or else from the configuration file.
fn flag_or(flag: Option<&str>, configured: &Option<String>) -> (r: Option<String>)
    ensures
        r.deep_view() == either(slice_text(flag), configured.deep_view()),
{
    match flag {
        Some(t) => Some(copy_of(t)),
        None => match configured {
            Some(t) => Some(copy_of(t.as_str())),
            None => None,
        },
    }
}

/// A copy of a list of pairs.
fn copy_pairs(list: &Vec<(String, String)>) -> (r: Vec<(String, String)>)
    ensures
        r.deep_view() == list.deep_view(),
{
    let mut r: Vec<(String, String)> = Vec::new();
    for i in 0..list.len()
        invariant
            r@.len() == i,
            forall|j: int|
                0 <= j < i ==> (#[trigger] r@[j]).0@ == list@[j].0@ && r@[j].1@ == list@[j].1@,
    {
        r.push((copy_of(list[i].0.as_str()), copy_of(list[i].1.as_str())));
    }
    assert(r.deep_view() =~= list.deep_view());
    r
}

/// Merge the flags with the configuration file. The Kubernetes side is off unless
/// the flag or the file switches it on.
pub fn merge_kube_settings(
    flag_kube: bool,
    kc: &KubeConfig,
    cli_namespace: Option<&str>,
    cli_selector: Option<&str>,
    cli_configmap: Option<&str>,
    cli_log_tail: Option<i64>,
    cli_assert: &Vec<(String, String)>,
) -> (r: Option<ResolvedKube>)
    ensures
        r is Some == (flag_kube || kc.enabled),
        r matches Some(k) ==> merged(
            k,
            *kc,
            slice_text(cli_namespace),
            slice_text(cli_selector),
            slice_text(cli_configmap),
            cli_log_tail,
            cli_assert.deep_view(),
        ),
{
    if !(flag_kube || kc.enabled) {
        return None;
    }
    let namespace = match flag_or(cli_namespace, &kc.namespace) {
        Some(n) => n,
        None => copy_of("default"),
    };
    let log_tail: i64 = match cli_log_tail {
        Some(n) => n,
        None => match kc.log_tail {
            Some(n) => n,
            None => LOG_TAIL,
        },
    };
    Some(
        ResolvedKube {
            namespace,
            selector: flag_or(cli_selector, &kc.selector),
            configmap: flag_or(cli_configmap, &kc.configmap),
            log_tail,
            assert_pairs: put_all(copy_pairs(&kc.assert_pairs), cli_assert),
        },
    )
}

/// The settings of the Kubernetes side that a run has.
pub fn resolve_kube(o: &Options, kc: &KubeConfig) -> (r: Option<ResolvedKube>)
    ensures
        r is Some == (o.kube || kc.enabled),
        r matches Some(k) ==> merged(
            k,
            *kc,
            o.kube_namespace.deep_view(),
            o.kube_selector.deep_view(),
            o.kube_configmap.deep_view(),
            o.kube_log_tail,
            o.kube_assert.deep_view(),
        ),
{
    let namespace: Option<&str> = match &o.kube_namespace {
        Some(s) => Some(s.as_str()),
        None => None,
    };
    let selector: Option<&str> = match &o.kube_selector {
        Some(s) => Some(s.as_str()),
        None => None,
    };
    let configmap: Option<&str> = match &o.kube_configmap {
        Some(s) => Some(s.as_str()),
        None => None,
    };
    merge_kube_settings(
        o.kube,
        kc,
        namespace,
        selector,
        configmap,
        o.kube_log_tail,
        &o.kube_assert,
    )
}

/// How old an event may be to count, in seconds.
pub const EVENT_WINDOW: i64 = 1800;

/// What to ask the cluster for, or the report that it cannot be asked: it takes
/// a selector.
pub fn kube_query(k: ResolvedKube, metrics: &MetricsConfig) -> (r: Result<KubeQuery, KubeReport>)
    ensures
        match r {
            Ok(q) => {
                &&& k.selector == Some(q.selector)
                &&& q.namespace == k.namespace
                &&& q.configmap == k.configmap
                &&& q.expected_config == k.assert_pairs
                &&& q.log_tail == (if k.log_tail > 0 {
                    Some(k.log_tail)
                } else {
                    None
                })
                &&& q.event_window_secs == EVENT_WINDOW
                &&& q.metrics_port == (if metrics.enabled {
                    Some(metrics.port)
                } else {
                    None
                })
            },
            Err(report) => {
                &&& k.selector is None
                &&& report.bare()
                &&& report.namespace@ == k.namespace@
                &&& report.error.deep_view() == Some(
                    "kube selector is required (set --kube-selector or kube.selector in config)"@,
                )
            },
        },
{
    match k.selector {
        None => Err(
            KubeReport::unreachable(
                k.namespace.as_str(),
                copy_of(
                    "kube selector is required (set --kube-selector or kube.selector in config)",
                ),
            ),
        ),
        Some(selector) => Ok(
            KubeQuery {
                namespace: k.namespace,
                selector,
                configmap: k.configmap,
                expected_config: k.assert_pairs,
                log_tail: if k.log_tail > 0 {
                    Some(k.log_tail)
                } else {
                    None
                },
                event_window_secs: EVENT_WINDOW,
                metrics_port: if metrics.enabled {
                    Some(metrics.port)
                } else {
                    None
                },
            },
        ),
    }
}

// ── Token and topics ─────────────────────────────────────────────────────────

/// The token to authenticate with: the first of the values of the variables that
/// is not blank, as it is.
pub fn choose_token(token: &Option<String>, pulsar_token: &Option<String>) -> (r: Option<String>)
    ensures
        r.deep_view() == (match (token.deep_view(), pulsar_token.deep_view()) {
            (Some(a), _) if trimmed(a).len() > 0 => Some(a),
            (_, Some(b)) if trimmed(b).len() > 0 => Some(b),
            _ => None,
        }),
{
    if let Some(t) = token {
        if trim(chars_of(t.as_str()).as_slice()).len() > 0 {
            return Some(copy_of(t.as_str()));
        }
    }
    if let Some(t) = pulsar_token {
        if trim(chars_of(t.as_str()).as_slice()).len() > 0 {
            return Some(copy_of(t.as_str()));
        }
    }
    None
}

/// The names as topics, up to the first that is none.
pub open spec fn parsed_topics(raw: Seq<Seq<char>>) -> Result<Seq<TopicParts>, Seq<char>>
    decreases raw.len(),
{
    if raw.len() == 0 {
        Ok(Seq::empty())
    } else {
        match parsed_topics(raw.drop_last()) {
            Err(e) => Err(e),
            Ok(list) => match topic_parts(raw.last()) {
                Some(t) => Ok(list.push(t)),
                None => Err(raw.last()),
            },
        }
    }
}

/// Parse the names of the topics; the first that is none is the error.
pub fn parse_topics(raw: &Vec<String>) -> (r: Result<Vec<TopicName>, TopicNameError>)
    ensures
        match r {
            Ok(list) => parsed_topics(raw.deep_view()) == Ok::<Seq<TopicParts>, Seq<char>>(
                list.deep_view(),
            ),
            Err(e) => parsed_topics(raw.deep_view()) == Err::<Seq<TopicParts>, Seq<char>>(e.0@),
        },
{
    let ghost all = raw.deep_view();
    let mut list: Vec<TopicName> = Vec::new();
    assert(list.deep_view() =~= Seq::empty());
    for i in 0..raw.len()
        invariant
            all == raw.deep_view(),
            parsed_topics(all.take(i as int)) == Ok::<Seq<TopicParts>, Seq<char>>(list.deep_view()),
    {
        let ghost before = list.deep_view();
        assert(all.take(i + 1).drop_last() =~= all.take(i as int));
        assert(all.take(i + 1).last() == raw@[i as int]@);
        match TopicName::parse(raw[i].as_str()) {
            Ok(t) => {
                let ghost parts = t.deep_view();
                list.push(t);
                assert(list.deep_view() =~= before.push(parts));
            },
            Err(e) => {
                proof {
                    lemma_first_error(all, i + 1);
                }
                return Err(e);
            },
        }
    }
    assert(all.take(all.len() as int) =~= all);
    Ok(list)
}

/// What follows the first name that is no topic makes no difference.
proof fn lemma_first_error(raw: Seq<Seq<char>>, k: int)
    requires
        0 <= k <= raw.len(),
        parsed_topics(raw.take(k)) is Err,
    ensures
        parsed_topics(raw) == parsed_topics(raw.take(k)),
    decreases raw.len() - k,
{
    if k < raw.len() {
        assert(raw.take(k + 1).drop_last() =~= raw.take(k));
        lemma_first_error(raw, k + 1);
    } else {
        assert(raw.take(k) =~= raw);
    }
}

/// The admin service to ask, where one is given.
pub fn choose_admin_url(o: &Options, configured: &Option<String>) -> (r: Option<String>)
    ensures
        r.deep_view() == either(o.admin_url.deep_view(), configured.deep_view()),
{
    first_text(&o.admin_url, configured)
}

/// How many workers share the topics: at most 32, not more than there are
/// topics, and at least one.
pub fn worker_count(concurrency: usize, items: usize) -> (r: usize)
    ensures
        1 <= r <= 32,
        r == ({
            let wanted = if concurrency < 1 {
                1
            } else if concurrency > 32 {
                32
            } else {
                concurrency
            };
            let most = if items < 1 {
                1
            } else {
                items
            };
            if wanted < most {
                wanted
            } else {
                most
            }
        }),
{
    let wanted: usize = if concurrency < 1 {
        1
    } else if concurrency > 32 {
        32
    } else {
        concurrency
    };
    let most: usize = if items < 1 { 1 } else { items };
    if wanted < most {
        wanted
    } else {
        most
    }
}

// ── Laws ─────────────────────────────────────────────────────────────────────

/// The last of the pairs that is called `key`.
pub open spec fn last_value(pairs: Seq<Pair>, key: Seq<char>) -> Option<Seq<char>>
    decreases pairs.len(),
{
    if pairs.len() == 0 {
        None
    } else if pairs.last().0 == key {
        Some(pairs.last().1)
    } else {
        last_value(pairs.drop_last(), key)
    }
}

/// An expected setting from the flags wins over one from the configuration file,
/// a later flag over an earlier one, and what no flag names stays as the file
/// has it.
pub proof fn lemma_flags_win(configured: Seq<Pair>, flags: Seq<Pair>, key: Seq<char>)
    ensures
        pair_value(with_pairs(configured, flags), key) == either(
            last_value(flags, key),
            pair_value(configured, key),
        ),
    decreases flags.len(),
{
    if flags.len() > 0 {
        lemma_flags_win(configured, flags.drop_last(), key);
        lemma_pair_put(with_pairs(configured, flags.drop_last()), flags.last(), key);
    }
}

/// A flag that is given is never changed by the configuration file, and a mode
/// that a flag switches on stays on.
pub proof fn lemma_given_flags_stay(o: Options, s: Settings, r: Options)
    requires
        settled(o, s, r),
    ensures
        o.format is Some ==> r.format == o.format,
        o.concurrency is Some ==> r.concurrency == o.concurrency,
        o.timeout_secs is Some ==> r.timeout_secs == o.timeout_secs,
        o.drain_window_secs is Some ==> r.drain_window_secs == o.drain_window_secs,
        o.watch_interval_secs is Some ==> r.watch_interval_secs == o.watch_interval_secs,
        o.json_dir_max_files is Some ==> r.json_dir_max_files == o.json_dir_max_files,
        o.json_dir is Some ==> r.json_dir.deep_view() == o.json_dir.deep_view(),
        o.watch ==> r.watch,
        o.tui ==> r.tui,
        o.problems_only ==> r.problems_only,
{
}

/// The configuration file fills in what no flag gives, and switches modes on that
/// no flag does.
pub proof fn lemma_file_fills_in(o: Options, s: Settings, r: Options)
    requires
        settled(o, s, r),
    ensures
        o.format is None ==> r.format == s.format,
        o.concurrency is None ==> r.concurrency == s.concurrency,
        o.timeout_secs is None ==> r.timeout_secs == s.timeout_secs,
        o.drain_window_secs is None ==> r.drain_window_secs == s.drain_window_secs,
        o.watch_interval_secs is None ==> r.watch_interval_secs == s.watch_interval_secs,
        o.json_dir_max_files is None ==> r.json_dir_max_files == s.json_dir_max_files,
        o.json_dir is None ==> r.json_dir.deep_view() == s.json_dir.deep_view(),
        r.watch <==> o.watch || s.watch == Some(true),
        r.tui <==> o.tui || s.tui == Some(true),
        r.problems_only <==> o.problems_only || s.problems_only == Some(true),
        r.threshold == o.threshold && r.subscription == o.subscription && r.admin_url
            == o.admin_url,
        r.kube == o.kube && r.kube_namespace == o.kube_namespace && r.kube_selector
            == o.kube_selector,
        r.kube_configmap == o.kube_configmap && r.kube_assert == o.kube_assert && r.kube_log_tail
            == o.kube_log_tail,
{
}

/// What is given is taken, and what is not falls back.
pub proof fn lemma_fallback<T>(x: T, a: Option<T>, b: Option<T>)
    ensures
        either(Some(x), b) == Some(x),
        either(None, b) == b,
        or_default(Some(x), a->0) == x,
        or_default(None, x) == x,
{
}

/// The Kubernetes side: a flag wins over the file, the namespace is `default` and
/// two hundred log lines are scanned where neither says otherwise.
pub proof fn lemma_kube_merged(
    r: ResolvedKube,
    kc: KubeConfig,
    namespace: Option<Seq<char>>,
    selector: Option<Seq<char>>,
    configmap: Option<Seq<char>>,
    log_tail: Option<i64>,
    pairs: Seq<Pair>,
)
    requires
        merged(r, kc, namespace, selector, configmap, log_tail, pairs),
    ensures
        namespace matches Some(n) ==> r.namespace@ == n,
        namespace is None && kc.namespace is Some ==> r.namespace@ == kc.namespace->0@,
        namespace is None && kc.namespace is None ==> r.namespace@ == "default"@,
        selector is Some ==> r.selector.deep_view() == selector,
        selector is None ==> r.selector.deep_view() == kc.selector.deep_view(),
        configmap is Some ==> r.configmap.deep_view() == configmap,
        configmap is None ==> r.configmap.deep_view() == kc.configmap.deep_view(),
        log_tail matches Some(n) ==> r.log_tail == n,
        log_tail is None && kc.log_tail is Some ==> r.log_tail == kc.log_tail->0,
        log_tail is None && kc.log_tail is None ==> r.log_tail == 200,
        r.assert_pairs.deep_view() == with_pairs(kc.assert_pairs.deep_view(), pairs),
        EVENT_WINDOW == 30 * 60,
{
}

/// A pair is split at its first equals sign, and takes a key in front of it.
pub proof fn lemma_key_value(key: Seq<char>, value: Seq<char>)
    requires
        forall|i: int| 0 <= i < key.len() ==> #[trigger] key[i] != '=',
    ensures
        key.len() > 0 ==> key_value(key + seq!['='] + value) == Some((trimmed(key), trimmed(value))),
        key_value(key) is None,
        key_value(seq!['='] + value) is None,
{
    let s = key + seq!['='] + value;
    lemma_char_index(s, '=');
    let i = char_index(s, '=');
    assert(s[key.len() as int] == '=');
    if i < key.len() {
        assert(s[i] == key[i]);
    }
    assert(s.take(key.len() as int) =~= key);
    assert(s.skip(key.len() as int + 1) =~= value);
    lemma_char_index(key, '=');
    assert((seq!['='] + value)[0] == '=');
}

/// The topics are all taken, in their order, or the first name that is none is
/// the error.
pub proof fn lemma_topics_parsed(raw: Seq<Seq<char>>)
    ensures
        match parsed_topics(raw) {
            Ok(list) => list.len() == raw.len() && forall|i: int|
                0 <= i < raw.len() ==> topic_parts(#[trigger] raw[i]) == Some(list[i]),
            Err(e) => exists|i: int|
                0 <= i < raw.len() && #[trigger] raw[i] == e && topic_parts(raw[i]) is None && (
                forall|j: int| 0 <= j < i ==> topic_parts(#[trigger] raw[j]) is Some),
        },
    decreases raw.len(),
{
    if raw.len() > 0 {
        let rest = raw.drop_last();
        let n = raw.len() - 1;
        lemma_topics_parsed(rest);
        assert forall|i: int| 0 <= i < rest.len() implies #[trigger] rest[i] == raw[i] by {}
        match parsed_topics(rest) {
            Ok(list) => {
                assert forall|j: int| 0 <= j < n implies topic_parts(#[trigger] raw[j]) == Some(
                    list[j],
                ) by {
                    assert(rest[j] == raw[j]);
                }
                if topic_parts(raw[n]) is None {
                    assert(raw[n] == raw.last());
                }
            },
            Err(e) => {
                let i = choose|i: int|
                    0 <= i < rest.len() && #[trigger] rest[i] == e && topic_parts(rest[i]) is None
                        && (forall|j: int| 0 <= j < i ==> topic_parts(#[trigger] rest[j]) is Some);
                assert(raw[i] == e);
                assert forall|j: int| 0 <= j < i implies topic_parts(#[trigger] raw[j]) is Some by {
                    assert(rest[j] == raw[j]);
                }
            },
        }
    }
}

} // verus!
