//! One task at work: its settings, its counters, and the edits made to it.

use super::health::{per_second, rate, wrap64, HealthView, ThroughputSampler, UrlHealthAcc};
use super::{
    all_urls, check_mappings, first_seen, keep_whole, law_every_url_stands_once,
    lemma_whole_again, mapping_fault, pair_views, scrub, scrubbed, slot_views, threads_for, whole_rules, Algorithm, ConfigView,
    ContentDispositionMode, SlotView, TaskConfig, MIN_SPLIT,
};
use crate::hostmap::{rule_views, HostMapping, RuleView};
use crate::plugins::TaskPluginConfig;
use crate::probe::UpstreamProbe;
use crate::schedule::ClaimWall;
use crate::text::{opt_view, same_text, trim, trimmed, views, views2};
use vstd::prelude::*;
use vstd::string::*;

verus! {

/// What an edit asks for; what is left out stays as it is.
pub struct TaskUpdate {
    pub volumes: Option<Vec<Vec<String>>>,
    /// Taken and not used: the number of threads follows from other settings.
    pub max_threads: Option<usize>,
    pub max_per_volume: Option<usize>,
    pub max_split: Option<u64>,
    pub cache: Option<bool>,
    pub headers: Option<Vec<(String, String)>>,
    /// The inner nothing clears the name.
    pub name: Option<Option<String>>,
    pub output_filename: Option<Option<String>>,
    pub auto_filename: Option<bool>,
    pub rate_limit_bps: Option<u64>,
    pub rate_limit_algorithm: Option<Algorithm>,
    pub persist: Option<bool>,
    pub plugins: Option<Vec<TaskPluginConfig>>,
    pub content_disposition: Option<ContentDispositionMode>,
    pub host_mappings: Option<Vec<HostMapping>>,
}

#[verifier::ext_equal]
pub ghost struct UpdateView {
    pub volumes: Option<Seq<Seq<Seq<char>>>>,
    pub max_per_volume: Option<usize>,
    pub max_split: Option<u64>,
    pub cache: Option<bool>,
    pub headers: Option<Seq<(Seq<char>, Seq<char>)>>,
    pub name: Option<Option<Seq<char>>>,
    pub output_filename: Option<Option<Seq<char>>>,
    pub auto_filename: Option<bool>,
    pub rate_limit_bps: Option<u64>,
    pub rate_limit_algorithm: Option<Algorithm>,
    pub persist: Option<bool>,
    pub plugins: Option<Seq<SlotView>>,
    pub content_disposition: Option<ContentDispositionMode>,
    pub host_mappings: Option<Seq<RuleView>>,
}

pub open spec fn opt2_view(s: Option<Option<String>>) -> Option<Option<Seq<char>>> {
    match s {
        Some(t) => Some(opt_view(t)),
        None => None,
    }
}

impl View for TaskUpdate {
    type V = UpdateView;

    open spec fn view(&self) -> UpdateView {
        UpdateView {
            volumes: match self.volumes {
                Some(v) => Some(views2(v@)),
                None => None,
            },
            max_per_volume: self.max_per_volume,
            max_split: self.max_split,
            cache: self.cache,
            headers: match self.headers {
                Some(h) => Some(pair_views(h@)),
                None => None,
            },
            name: opt2_view(self.name),
            output_filename: opt2_view(self.output_filename),
            auto_filename: self.auto_filename,
            rate_limit_bps: self.rate_limit_bps,
            rate_limit_algorithm: self.rate_limit_algorithm,
            persist: self.persist,
            plugins: match self.plugins {
                Some(p) => Some(slot_views(p@)),
                None => None,
            },
            content_disposition: self.content_disposition,
            host_mappings: match self.host_mappings {
                Some(m) => Some(rule_views(m@)),
                None => None,
            },
        }
    }
}

impl Default for TaskUpdate {
    fn default() -> (out: Self)
        ensures
            out@ == UpdateView::nothing(),
    {
        TaskUpdate {
            volumes: None,
            max_threads: None,
            max_per_volume: None,
            max_split: None,
            cache: None,
            headers: None,
            name: None,
            output_filename: None,
            auto_filename: None,
            rate_limit_bps: None,
            rate_limit_algorithm: None,
            persist: None,
            plugins: None,
            content_disposition: None,
            host_mappings: None,
        }
    }
}

impl UpdateView {
    /// An edit that asks for nothing.
    pub open spec fn nothing() -> UpdateView {
        UpdateView {
            volumes: None,
            max_per_volume: None,
            max_split: None,
            cache: None,
            headers: None,
            name: None,
            output_filename: None,
            auto_filename: None,
            rate_limit_bps: None,
            rate_limit_algorithm: None,
            persist: None,
            plugins: None,
            content_disposition: None,
            host_mappings: None,
        }
    }
}

/// A task at work. Times are seconds since 1970, but for `last_sample` and the
/// time of the probe, which are nanoseconds on the caller's clock.
pub struct TaskEntry {
    pub config: TaskConfig,
    pub created_at: u64,
    pub updated_at: u64,
    pub bytes_served: u64,
    /// The clients that are being served.
    pub active_connections: u32,
    pub paused: bool,
    /// One record for each URL.
    pub url_health: Vec<UrlHealthAcc>,
    pub throughput: ThroughputSampler,
    /// Bytes since the last tick.
    pub window_bytes: u64,
    pub last_sample: u64,
    /// The latest probe and when it was made.
    pub probe_cache: Option<(UpstreamProbe, u64)>,
    /// URLs that do not answer to `HEAD`.
    pub head_unsupported: Vec<String>,
    pub claim_wall: ClaimWall,
}

/// What an edit can touch.
#[verifier::ext_equal]
pub ghost struct EntryView {
    pub config: ConfigView,
    pub updated_at: u64,
    pub health: Seq<HealthView>,
    /// The latest probe and when it was made.
    pub probe: Option<(UpstreamProbe, u64)>,
    pub head_unsupported: Seq<Seq<char>>,
    pub wall: ClaimWall,
}

pub open spec fn health_views(l: Seq<UrlHealthAcc>) -> Seq<HealthView> {
    l.map_values(|h: UrlHealthAcc| h@)
}

impl View for TaskEntry {
    type V = EntryView;

    open spec fn view(&self) -> EntryView {
        EntryView {
            config: self.config@,
            updated_at: self.updated_at,
            health: health_views(self.url_health@),
            probe: self.probe_cache,
            head_unsupported: views(self.head_unsupported@),
            wall: self.claim_wall,
        }
    }
}

/// The record of a URL, from record `i` on; a new one where there is none.
pub open spec fn record_from(l: Seq<HealthView>, url: Seq<char>, i: int) -> HealthView
    decreases l.len() - i,
{
    if i < 0 || i >= l.len() {
        HealthView::fresh(url)
    } else if l[i].url == url {
        l[i]
    } else {
        record_from(l, url, i + 1)
    }
}

/// One record for each of the URLs; those that were there before keep theirs.
pub open spec fn carried(l: Seq<HealthView>, urls: Seq<Seq<char>>) -> Seq<HealthView> {
    urls.map_values(|u: Seq<char>| record_from(l, u, 0))
}

/// A text without the white space round it; a blank one is none.
pub open spec fn tidy(s: Option<Seq<char>>) -> Option<Seq<char>> {
    match s {
        Some(t) => if trimmed(t).len() == 0 {
            None
        } else {
            Some(trimmed(t))
        },
        None => None,
    }
}

pub open spec fn pick<T>(new: Option<T>, old: T) -> T {
    match new {
        Some(t) => t,
        None => old,
    }
}

impl ConfigView {
    /// The settings that need no check, as an edit asks for them.
    pub open spec fn plainly(self, upd: UpdateView) -> ConfigView {
        ConfigView {
            cache: pick(upd.cache, self.cache),
            headers: pick(upd.headers, self.headers),
            name: match upd.name {
                Some(n) => tidy(n),
                None => self.name,
            },
            output_filename: match upd.output_filename {
                Some(n) => tidy(n),
                None => self.output_filename,
            },
            auto_filename: pick(upd.auto_filename, self.auto_filename),
            rate_limit_bps: pick(upd.rate_limit_bps, self.rate_limit_bps),
            rate_limit_algorithm: pick(
                upd.rate_limit_algorithm,
                self.rate_limit_algorithm,
            ),
            persist: pick(upd.persist, self.persist),
            plugins: pick(upd.plugins, self.plugins),
            content_disposition: pick(
                upd.content_disposition,
                self.content_disposition,
            ),
            ..self
        }
    }
}

impl UpdateView {
    /// What an edit is refused for, if anything: no volume is left, a number that
    /// cannot be, or a bad rule.
    pub open spec fn fault(self) -> Option<Seq<char>> {
        if self.volumes is Some && scrubbed(self.volumes->0).len() == 0 {
            Some("at least one URL is required across all volumes"@)
        } else if self.max_per_volume == Some(0usize) {
            Some("max_per_volume must be >= 1"@)
        } else if self.max_split is Some && 0 < self.max_split->0 < MIN_SPLIT {
            Some("max_split must be 0 (auto) or >= 64K"@)
        } else if self.host_mappings is Some {
            mapping_fault(whole_rules(self.host_mappings->0))
        } else {
            None
        }
    }
}

impl EntryView {
    /// The volumes are replaced: records of URLs that stay are kept, and what was
    /// learned of the old layout is forgotten.
    pub open spec fn with_volumes(self, volumes: Option<Seq<Seq<Seq<char>>>>) -> EntryView {
        match volumes {
            None => self,
            Some(v) => {
                let config = (ConfigView { volumes: v, ..self.config }).normal();
                EntryView {
                    config,
                    health: carried(self.health, first_seen(all_urls(config.volumes))),
                    probe: None,
                    head_unsupported: Seq::empty(),
                    wall: ClaimWall { slot: None, ..self.wall },
                    ..self
                }
            },
        }
    }

    /// The number of requests for each volume is set, and the threads that follow.
    pub open spec fn with_per_volume(self, asked: Option<usize>) -> EntryView {
        let per = pick(asked, self.config.max_per_volume);
        EntryView {
            config: ConfigView {
                max_per_volume: per,
                max_threads: threads_for(per as int, self.config.volumes.len() as int) as usize,
                ..self.config
            },
            ..self
        }
    }

    /// The size of a request is set.
    pub open spec fn with_split(self, asked: Option<u64>) -> EntryView {
        EntryView {
            config: ConfigView { max_split: pick(asked, self.config.max_split), ..self.config },
            ..self
        }
    }

    /// What can be set without a check is set. Probes are made with the headers,
    /// so new headers make the old probe worthless.
    pub open spec fn with_plain(self, upd: UpdateView) -> EntryView {
        EntryView {
            config: self.config.plainly(upd),
            probe: if upd.headers is None {
                self.probe
            } else {
                None
            },
            ..self
        }
    }

    /// The task's own rules are set. Probes go where the rules lead.
    pub open spec fn with_mappings(self, asked: Option<Seq<RuleView>>) -> EntryView {
        match asked {
            None => self,
            Some(l) => EntryView {
                config: ConfigView { host_mappings: whole_rules(l), ..self.config },
                probe: None,
                ..self
            },
        }
    }

    /// An edit: it is taken in whole and gets a new time, or it is refused and
    /// changes nothing.
    pub open spec fn edited(self, upd: UpdateView, now: u64) -> (EntryView, Option<Seq<char>>) {
        match upd.fault() {
            Some(e) => (self, Some(e)),
            None => {
                let sized = self.with_volumes(upd.volumes).with_per_volume(
                    upd.max_per_volume,
                ).with_split(upd.max_split);
                let all = sized.with_plain(upd).with_mappings(upd.host_mappings);
                (EntryView { updated_at: now, ..all }, None)
            },
        }
    }

    /// The number of threads is the one that follows from the other settings, and
    /// there is one record for each URL.
    pub open spec fn wf(self) -> bool {
        &&& self.config.max_threads == threads_for(
            self.config.max_per_volume as int,
            self.config.volumes.len() as int,
        )
        &&& forall|i: int, j: int|
            0 <= i < j < self.health.len() ==> (#[trigger] self.health[i]).url != (
            #[trigger] self.health[j]).url
    }
}

/// An edit that is refused changes nothing, the task's time among it; one that is
/// taken in moves the time.
pub proof fn law_only_an_edit_that_is_taken_in_counts(e: EntryView, upd: UpdateView, now: u64)
    ensures
        e.edited(upd, now).1 is Some ==> e.edited(upd, now).0 == e,
        e.edited(upd, now).1 is None ==> e.edited(upd, now).0.updated_at == now,
{
}

/// What holds of a task's settings and records holds after every edit, taken in
/// or refused.
pub proof fn law_an_edit_keeps_the_task_whole(e: EntryView, upd: UpdateView, now: u64)
    requires
        e.wf(),
    ensures
        e.edited(upd, now).0.wf(),
{
    let a = e.with_volumes(upd.volumes);
    if upd.volumes is Some {
        let urls = all_urls(a.config.volumes);
        law_every_url_stands_once(urls);
        let l = first_seen(urls);
        assert forall|i: int, j: int| 0 <= i < j < a.health.len() implies (
        #[trigger] a.health[i]).url != (#[trigger] a.health[j]).url by {
            lemma_record_url(e.health, l[i], 0);
            lemma_record_url(e.health, l[j], 0);
            assert(l[i] != l[j]);
        }
    }
    assert(a.wf());
    let b = a.with_per_volume(upd.max_per_volume);
    assert(b.wf());
    let c = b.with_split(upd.max_split);
    assert(c.wf());
    let d = c.with_plain(upd);
    assert(d.wf());
    assert(d.with_mappings(upd.host_mappings).wf());
}

proof fn lemma_record_url(l: Seq<HealthView>, url: Seq<char>, i: int)
    ensures
        record_from(l, url, i).url == url,
    decreases l.len() - i,
{
    if 0 <= i < l.len() && l[i].url != url {
        lemma_record_url(l, url, i + 1);
    }
}

/// What a new task is refused for, an edit to the same settings is refused for,
/// with the same words, and the other way round.
pub proof fn law_making_and_editing_agree(e: EntryView, c: ConfigView, now: u64)
    requires
        c.normal() == c,
        c.volumes.len() > 0,
    ensures
        e.edited(UpdateView::asking_for(c), now).1 == c.fault(),
        c.fault() is None ==> e.edited(UpdateView::asking_for(c), now).0.config == (ConfigView {
            name: tidy(c.name),
            output_filename: tidy(c.output_filename),
            ..c
        }),
{
    let upd = UpdateView::asking_for(c);
    let a = e.with_volumes(upd.volumes);
    assert(a.config.volumes == c.volumes);
    if c.fault() is None {
        assert(e.edited(upd, now).0.config =~= (ConfigView {
            name: tidy(c.name),
            output_filename: tidy(c.output_filename),
            ..c
        }));
    }
}

impl UpdateView {
    /// The edit that sets everything as in `c`.
    pub open spec fn asking_for(c: ConfigView) -> UpdateView {
        UpdateView {
            volumes: Some(c.volumes),
            max_per_volume: Some(c.max_per_volume),
            max_split: Some(c.max_split),
            cache: Some(c.cache),
            headers: Some(c.headers),
            name: Some(c.name),
            output_filename: Some(c.output_filename),
            auto_filename: Some(c.auto_filename),
            rate_limit_bps: Some(c.rate_limit_bps),
            rate_limit_algorithm: Some(c.rate_limit_algorithm),
            persist: Some(c.persist),
            plugins: Some(c.plugins),
            content_disposition: Some(c.content_disposition),
            host_mappings: Some(c.host_mappings),
        }
    }
}

/// An edit that asks for nothing changes nothing but the time.
pub proof fn law_an_empty_edit_changes_nothing(e: EntryView, now: u64)
    requires
        e.wf(),
    ensures
        e.edited(UpdateView::nothing(), now) == (EntryView { updated_at: now, ..e }, None::<Seq<char>>),
{
    let d = e.edited(UpdateView::nothing(), now).0;
    assert(d.config =~= e.config);
}

fn chosen<T>(new: Option<T>, old: T) -> (out: T)
    ensures
        out == pick(new, old),
{
    match new {
        Some(t) => t,
        None => old,
    }
}

fn tidied(s: Option<String>) -> (out: Option<String>)
    ensures
        opt_view(out) == tidy(opt_view(s)),
{
    match s {
        Some(t) => {
            let t: String = trim(t.as_str());
            if t.as_str().is_empty() {
                None
            } else {
                Some(t)
            }
        },
        None => None,
    }
}

fn find_record(l: &Vec<UrlHealthAcc>, url: &str) -> (out: Option<usize>)
    ensures
        match out {
            Some(i) => i < l@.len() && l@[i as int]@ == record_from(health_views(l@), url@, 0)
                && l@[i as int].url@ == url@ && forall|k: int|
                0 <= k < i ==> (#[trigger] l@[k]).url@ != url@,
            None => record_from(health_views(l@), url@, 0) == HealthView::fresh(url@) && forall|
                k: int,
            |
                0 <= k < l@.len() ==> (#[trigger] l@[k]).url@ != url@,
        },
{
    let ghost all = health_views(l@);
    let mut i: usize = 0;
    while i < l.len()
        invariant
            i <= l@.len(),
            all == health_views(l@),
            record_from(all, url@, 0) == record_from(all, url@, i as int),
            forall|k: int| 0 <= k < i ==> (#[trigger] l@[k]).url@ != url@,
        decreases l.len() - i,
    {
        assert(all[i as int] == l@[i as int]@);
        if same_text(l[i].url.as_str(), url) {
            return Some(i);
        }
        i = i + 1;
    }
    None
}

fn carry(l: &Vec<UrlHealthAcc>, urls: Vec<String>) -> (out: Vec<UrlHealthAcc>)
    ensures
        health_views(out@) == carried(health_views(l@), views(urls@)),
{
    let mut out: Vec<UrlHealthAcc> = Vec::new();
    let mut i: usize = 0;
    while i < urls.len()
        invariant
            i <= urls@.len(),
            out@.len() == i,
            forall|k: int|
                0 <= k < i ==> (#[trigger] out@[k])@ == record_from(
                    health_views(l@),
                    urls@[k]@,
                    0,
                ),
        decreases urls.len() - i,
    {
        let h: UrlHealthAcc = match find_record(l, urls[i].as_str()) {
            Some(k) => l[k].clone(),
            None => UrlHealthAcc::new(urls[i].clone()),
        };
        out.push(h);
        i = i + 1;
    }
    assert(health_views(out@) =~= carried(health_views(l@), views(urls@)));
    out
}

fn tidied_or(new: Option<Option<String>>, old: Option<String>) -> (out: Option<String>)
    ensures
        opt_view(out) == match opt2_view(new) {
            Some(n) => tidy(n),
            None => opt_view(old),
        },
{
    match new {
        Some(n) => tidied(n),
        None => old,
    }
}

fn plain_edits(config: TaskConfig, upd: TaskUpdate) -> (out: TaskConfig)
    ensures
        out@ == config@.plainly(upd@),
{
    TaskConfig {
        cache: chosen(upd.cache, config.cache),
        headers: chosen(upd.headers, config.headers),
        name: tidied_or(upd.name, config.name),
        output_filename: tidied_or(upd.output_filename, config.output_filename),
        auto_filename: chosen(upd.auto_filename, config.auto_filename),
        rate_limit_bps: chosen(upd.rate_limit_bps, config.rate_limit_bps),
        rate_limit_algorithm: chosen(upd.rate_limit_algorithm, config.rate_limit_algorithm),
        persist: chosen(upd.persist, config.persist),
        plugins: chosen(upd.plugins, config.plugins),
        content_disposition: chosen(upd.content_disposition, config.content_disposition),
        ..config
    }
}

fn check_update(upd: &TaskUpdate) -> (out: Result<(), String>)
    ensures
        match out {
            Ok(_) => upd@.fault() is None,
            Err(e) => upd@.fault() == Some(e@),
        },
{
    if let Some(v) = &upd.volumes {
        let kept: Vec<Vec<String>> = scrub(v);
        assert(views2(kept@).len() == kept@.len());
        if kept.len() == 0 {
            return Err("at least one URL is required across all volumes".to_owned());
        }
    }
    if let Some(p) = upd.max_per_volume {
        if p == 0 {
            return Err("max_per_volume must be >= 1".to_owned());
        }
    }
    if let Some(s) = upd.max_split {
        if s != 0 && s < MIN_SPLIT {
            return Err("max_split must be 0 (auto) or >= 64K".to_owned());
        }
    }
    if let Some(l) = &upd.host_mappings {
        return check_mappings(&keep_whole(l));
    }
    Ok(())
}

impl TaskEntry {
    /// The counters that an edit does not touch are the same.
    pub open spec fn same_counters(self, other: TaskEntry) -> bool {
        &&& self.created_at == other.created_at
        &&& self.bytes_served == other.bytes_served
        &&& self.active_connections == other.active_connections
        &&& self.paused == other.paused
        &&& self.throughput == other.throughput
        &&& self.window_bytes == other.window_bytes
        &&& self.last_sample == other.last_sample
    }

    /// A new task, made at `now` seconds since 1970 and `clock` nanoseconds on the
    /// caller's clock.
    pub fn new(config: TaskConfig, now: u64, clock: u64) -> (out: Self)
        ensures
            out@ == (EntryView {
                config: config@.normal(),
                updated_at: now,
                health: carried(
                    Seq::empty(),
                    first_seen(all_urls(config@.normal().volumes)),
                ),
                probe: None,
                head_unsupported: Seq::empty(),
                wall: ClaimWall { slot: None, now: 0 },
            }),
            out@.wf(),
            out.created_at == now,
            out.bytes_served == 0,
            out.active_connections == 0,
            !out.paused,
            out.throughput.wf(),
            out.throughput.capacity == 60,
            out.throughput.samples@.len() == 0,
            out.window_bytes == 0,
            out.last_sample == clock,
    {
        let mut config: TaskConfig = config;
        config.normalize();
        let none: Vec<UrlHealthAcc> = Vec::new();
        assert(health_views(none@) =~= Seq::empty());
        let urls: Vec<String> = config.urls();
        let out: TaskEntry = TaskEntry {
            url_health: carry(&none, urls),
            config,
            created_at: now,
            updated_at: now,
            bytes_served: 0,
            active_connections: 0,
            paused: false,
            throughput: ThroughputSampler::new(60),
            window_bytes: 0,
            last_sample: clock,
            probe_cache: None,
            head_unsupported: Vec::new(),
            claim_wall: ClaimWall::new(),
        };
        proof {
            assert(out@.head_unsupported =~= Seq::empty());
            let l = first_seen(all_urls(out@.config.volumes));
            law_every_url_stands_once(all_urls(out@.config.volumes));
            assert forall|i: int, j: int| 0 <= i < j < out@.health.len() implies (
            #[trigger] out@.health[i]).url != (#[trigger] out@.health[j]).url by {
                lemma_record_url(Seq::empty(), l[i], 0);
                lemma_record_url(Seq::empty(), l[j], 0);
                assert(l[i] != l[j]);
            }
        }
        out
    }

    /// A copy of the settings.
    pub fn config_snapshot(&self) -> (out: TaskConfig)
        ensures
            out@ == self@.config,
    {
        self.config.clone()
    }

    /// Where the record of a URL stands.
    pub fn url_health_for(&self, url: &str) -> (out: Option<usize>)
        ensures
            match out {
                Some(i) => i < self.url_health@.len() && self.url_health@[i as int].url@ == url@
                    && forall|k: int| 0 <= k < i ==> (#[trigger] self.url_health@[k]).url@ != url@,
                None => forall|k: int|
                    0 <= k < self.url_health@.len() ==> (#[trigger] self.url_health@[k]).url@
                        != url@,
            },
    {
        find_record(&self.url_health, url)
    }

    fn edit_volumes(&mut self, volumes: Option<Vec<Vec<String>>>)
        ensures
            final(self)@ == old(self)@.with_volumes(
                match volumes {
                    Some(v) => Some(views2(v@)),
                    None => None,
                },
            ),
            final(self).same_counters(*old(self)),
    {
        if let Some(v) = volumes {
            self.config.volumes = v;
            self.config.normalize();
            let urls: Vec<String> = self.config.urls();
            let health: Vec<UrlHealthAcc> = carry(&self.url_health, urls);
            self.url_health = health;
            self.probe_cache = None;
            self.head_unsupported = Vec::new();
            self.claim_wall.clear();
            assert(views(self.head_unsupported@) =~= Seq::empty());
        }
    }

    fn edit_sizes(&mut self, per_volume: Option<usize>, split: Option<u64>)
        ensures
            final(self)@ == old(self)@.with_per_volume(per_volume).with_split(split),
            final(self).same_counters(*old(self)),
    {
        if let Some(p) = per_volume {
            self.config.max_per_volume = p;
        }
        assert(self@.config.volumes.len() == self.config.volumes@.len());
        self.config.max_threads = TaskConfig::derive_threads(
            self.config.max_per_volume,
            self.config.volumes.len(),
        );
        if let Some(s) = split {
            self.config.max_split = s;
        }
    }

    fn edit_mappings(&mut self, rules: Option<Vec<HostMapping>>)
        requires
            rules is Some ==> whole_rules(rule_views(rules->0@)) == rule_views(rules->0@),
        ensures
            final(self)@ == old(self)@.with_mappings(
                match rules {
                    Some(l) => Some(rule_views(l@)),
                    None => None,
                },
            ),
            final(self).same_counters(*old(self)),
    {
        if let Some(l) = rules {
            self.config.host_mappings = l;
            self.probe_cache = None;
        }
    }

    /// Takes in what needs no check; the volumes, the sizes and the rules in `upd`
    /// are passed over.
    fn edit_plain(&mut self, upd: TaskUpdate)
        ensures
            final(self)@ == old(self)@.with_plain(upd@),
            final(self).same_counters(*old(self)),
    {
        if upd.headers.is_some() {
            self.probe_cache = None;
        }
        self.config = plain_edits(self.config.clone(), upd);
    }

    /// Takes an edit in. One that is refused changes nothing.
    pub fn apply_update(&mut self, upd: TaskUpdate, now: u64) -> (out: Result<(), String>)
        ensures
            final(self)@ == old(self)@.edited(upd@, now).0,
            match out {
                Ok(_) => old(self)@.edited(upd@, now).1 is None,
                Err(e) => old(self)@.edited(upd@, now).1 == Some(e@),
            },
            out is Err ==> *final(self) == *old(self),
            final(self).same_counters(*old(self)),
    {
        if let Err(e) = check_update(&upd) {
            return Err(e);
        }
        let mut upd: TaskUpdate = upd;
        let ghost asked = upd@;
        let volumes: Option<Vec<Vec<String>>> = upd.volumes.take();
        let maps: Option<Vec<HostMapping>> = match upd.host_mappings.take() {
            Some(l) => {
                proof {
                    lemma_whole_again(rule_views(l@));
                }
                Some(keep_whole(&l))
            },
            None => None,
        };
        self.edit_volumes(volumes);
        self.edit_sizes(upd.max_per_volume, upd.max_split);
        let ghost c = self@;
        proof {
            assert(c.with_plain(upd@) == c.with_plain(asked));
        }
        self.edit_plain(upd);
        self.edit_mappings(maps);
        self.updated_at = now;
        Ok(())
    }

    /// Closes the windows: the bytes since the last tick become the latest rates.
    pub fn tick_throughput(&mut self, now: u64)
        requires
            old(self).throughput.wf(),
        ensures
            ({
                let elapsed = if now >= old(self).last_sample {
                    now - old(self).last_sample
                } else {
                    0
                };
                &&& final(self).throughput.wf()
                &&& final(self).throughput.capacity == old(self).throughput.capacity
                &&& final(self).throughput.samples@ == (if old(self).throughput.samples@.len()
                    >= old(self).throughput.capacity {
                    old(self).throughput.samples@.drop_first()
                } else {
                    old(self).throughput.samples@
                }).push(per_second(old(self).window_bytes as int, elapsed) as u64)
                &&& final(self).window_bytes == 0
                &&& final(self).last_sample == now
                &&& final(self).bytes_served == old(self).bytes_served
                &&& final(self).active_connections == old(self).active_connections
                &&& final(self).created_at == old(self).created_at
                &&& final(self).paused == old(self).paused
                &&& final(self)@ == (EntryView {
                    health: old(self)@.health.map_values(
                        |h: HealthView|
                            HealthView {
                                window_bytes: 0,
                                current_speed_bps: per_second(
                                    h.window_bytes as int,
                                    elapsed,
                                ) as u64,
                                ..h
                            },
                    ),
                    ..old(self)@
                })
            }),
    {
        let elapsed: u64 = if now >= self.last_sample {
            now - self.last_sample
        } else {
            0
        };
        let ghost was = self@;
        self.last_sample = now;
        self.throughput.push(rate(self.window_bytes, elapsed));
        self.window_bytes = 0;
        let mut out: Vec<UrlHealthAcc> = Vec::new();
        let mut i: usize = 0;
        while i < self.url_health.len()
            invariant
                i <= self.url_health@.len(),
                out@.len() == i,
                forall|k: int|
                    0 <= k < i ==> (#[trigger] out@[k])@ == (HealthView {
                        window_bytes: 0,
                        current_speed_bps: per_second(
                            self.url_health@[k].window_bytes as int,
                            elapsed as int,
                        ) as u64,
                        ..self.url_health@[k]@
                    }),
            decreases self.url_health.len() - i,
        {
            let mut h: UrlHealthAcc = self.url_health[i].clone();
            h.tick(elapsed);
            out.push(h);
            i = i + 1;
        }
        self.url_health = out;
        proof {
            assert(self@.health =~= was.health.map_values(
                |h: HealthView|
                    HealthView {
                        window_bytes: 0,
                        current_speed_bps: per_second(
                            h.window_bytes as int,
                            elapsed as int,
                        ) as u64,
                        ..h
                    },
            ));
        }
    }

    /// Counts bytes that went to a client.
    pub fn count_bytes(&mut self, n: u64)
        ensures
            *final(self) == (TaskEntry {
                bytes_served: wrap64(old(self).bytes_served + n),
                window_bytes: wrap64(old(self).window_bytes + n),
                ..*old(self)
            }),
    {
        self.bytes_served = self.bytes_served.wrapping_add(n);
        self.window_bytes = self.window_bytes.wrapping_add(n);
    }

    /// A client comes.
    pub fn connect(&mut self)
        ensures
            *final(self) == (TaskEntry {
                active_connections: ((old(self).active_connections + 1) % 0x1_0000_0000) as u32,
                ..*old(self)
            }),
    {
        self.active_connections = self.active_connections.wrapping_add(1);
    }

    /// A client goes. The count does not go below nothing.
    pub fn disconnect(&mut self)
        ensures
            *final(self) == (TaskEntry {
                active_connections: if old(self).active_connections == 0 {
                    0
                } else {
                    (old(self).active_connections - 1) as u32
                },
                ..*old(self)
            }),
    {
        self.active_connections = self.active_connections.saturating_sub(1);
    }
}

} // verus!
