//! All tasks, and the settings for all of them.

use super::health::{per_second, rate, shown_as, wrap64, ThroughputSampler, UrlHealth};
use super::task::{pick, TaskEntry};
use super::{
    begun, begun_rules, check_mappings, clone_pairs, mapping_fault, pair_views, Algorithm,
    TaskConfig,
};
use crate::cache::CacheStats;
use crate::dns::{described, mode_of, parse_mode, DnsMode, DnsView};
use crate::download::{CacheJobInfo, PersistedDownload};
use crate::engine::VolumeMeta;
use crate::hostmap::{
    clone_rules, install, install_dns, rule_views, table_of, HostMapping, HostState, RuleView,
    StateView,
};
use crate::order::{bytes_le, lemma_bytes_le, not_after};
use crate::text::{clone_opt, join2, join3, opt_view, same_text, trim, trimmed, views};
use vstd::prelude::*;
use vstd::string::*;
use vstd::utf8::*;

verus! {

/// The settings for all tasks.
#[derive(Debug)]
pub struct GlobalSettings {
    /// Bytes per second, or 0 for no limit.
    pub global_rate_limit_bps: u64,
    pub global_rate_limit_algorithm: Algorithm,
    /// What each plugin keeps, by the plugin's id, as JSON text.
    pub plugin_globals: Vec<(String, String)>,
    /// Where downloads go, once a directory was picked.
    pub download_dir: Option<String>,
    pub host_mappings: Vec<HostMapping>,
    /// How mapped targets are resolved; nothing for the system's resolver.
    pub dns: Option<String>,
}

#[verifier::ext_equal]
pub ghost struct SettingsView {
    pub rate_bps: u64,
    pub algorithm: Algorithm,
    pub plugin_globals: Seq<(Seq<char>, Seq<char>)>,
    pub download_dir: Option<Seq<char>>,
    pub host_mappings: Seq<RuleView>,
    pub dns: Option<Seq<char>>,
}

impl View for GlobalSettings {
    type V = SettingsView;

    open spec fn view(&self) -> SettingsView {
        SettingsView {
            rate_bps: self.global_rate_limit_bps,
            algorithm: self.global_rate_limit_algorithm,
            plugin_globals: pair_views(self.plugin_globals@),
            download_dir: opt_view(self.download_dir),
            host_mappings: rule_views(self.host_mappings@),
            dns: opt_view(self.dns),
        }
    }
}

impl Clone for GlobalSettings {
    fn clone(&self) -> (out: Self)
        ensures
            out@ == self@,
    {
        GlobalSettings {
            global_rate_limit_bps: self.global_rate_limit_bps,
            global_rate_limit_algorithm: self.global_rate_limit_algorithm,
            plugin_globals: clone_pairs(&self.plugin_globals),
            download_dir: clone_opt(&self.download_dir),
            host_mappings: clone_rules(&self.host_mappings),
            dns: clone_opt(&self.dns),
        }
    }
}

impl SettingsView {
    pub open spec fn initial() -> SettingsView {
        SettingsView {
            rate_bps: 0,
            algorithm: Algorithm::TokenBucket,
            plugin_globals: Seq::empty(),
            download_dir: None,
            host_mappings: Seq::empty(),
            dns: None,
        }
    }
}

impl Default for GlobalSettings {
    fn default() -> (out: Self)
        ensures
            out@ == SettingsView::initial(),
    {
        let out: GlobalSettings = GlobalSettings {
            global_rate_limit_bps: 0,
            global_rate_limit_algorithm: Algorithm::TokenBucket,
            plugin_globals: Vec::new(),
            download_dir: None,
            host_mappings: Vec::new(),
            dns: None,
        };
        assert(out@ =~= SettingsView::initial());
        out
    }
}

/// What an edit of the settings asks for; what is left out stays as it is.
pub struct GlobalSettingsUpdate {
    pub global_rate_limit_bps: Option<u64>,
    pub global_rate_limit_algorithm: Option<Algorithm>,
    pub plugin_globals: Option<Vec<(String, String)>>,
    pub download_dir: Option<String>,
    pub host_mappings: Option<Vec<HostMapping>>,
    pub dns: Option<String>,
}

#[verifier::ext_equal]
pub ghost struct SettingsUpdateView {
    pub rate_bps: Option<u64>,
    pub algorithm: Option<Algorithm>,
    pub plugin_globals: Option<Seq<(Seq<char>, Seq<char>)>>,
    pub download_dir: Option<Seq<char>>,
    pub host_mappings: Option<Seq<RuleView>>,
    pub dns: Option<Seq<char>>,
}

impl View for GlobalSettingsUpdate {
    type V = SettingsUpdateView;

    open spec fn view(&self) -> SettingsUpdateView {
        SettingsUpdateView {
            rate_bps: self.global_rate_limit_bps,
            algorithm: self.global_rate_limit_algorithm,
            plugin_globals: match self.plugin_globals {
                Some(l) => Some(pair_views(l@)),
                None => None,
            },
            download_dir: opt_view(self.download_dir),
            host_mappings: match self.host_mappings {
                Some(l) => Some(rule_views(l@)),
                None => None,
            },
            dns: opt_view(self.dns),
        }
    }
}

/// The first plugin, from the `i`th on, that refuses its settings.
pub open spec fn plugin_fault(
    l: Seq<(Seq<char>, Seq<char>)>,
    checks: Seq<Option<Seq<char>>>,
    i: int,
) -> Option<Seq<char>>
    decreases l.len() - i,
{
    if i < 0 || i >= l.len() || i >= checks.len() {
        None
    } else {
        match checks[i] {
            Some(e) => Some("plugin '"@ + l[i].0 + ("' global config: "@ + e)),
            None => plugin_fault(l, checks, i + 1),
        }
    }
}

/// The settings and what follows from them for hosts.
#[verifier::ext_equal]
pub ghost struct SettingsState {
    pub settings: SettingsView,
    pub hosts: StateView,
}

impl SettingsState {
    /// The rates and the directory as an edit asks for them.
    pub open spec fn plainly(self, upd: SettingsUpdateView) -> SettingsState {
        SettingsState {
            settings: SettingsView {
                rate_bps: pick(upd.rate_bps, self.settings.rate_bps),
                algorithm: pick(upd.algorithm, self.settings.algorithm),
                download_dir: match upd.download_dir {
                    Some(d) => if trimmed(d).len() == 0 {
                        None
                    } else {
                        Some(trimmed(d))
                    },
                    None => self.settings.download_dir,
                },
                ..self.settings
            },
            ..self
        }
    }

    /// The plugins' settings as an edit asks for them.
    pub open spec fn with_plugins(self, upd: SettingsUpdateView) -> SettingsState {
        SettingsState {
            settings: SettingsView {
                plugin_globals: pick(upd.plugin_globals, self.settings.plugin_globals),
                ..self.settings
            },
            ..self
        }
    }

    /// The rules as an edit asks for them, in force.
    pub open spec fn with_rules(self, upd: SettingsUpdateView) -> SettingsState {
        match upd.host_mappings {
            Some(l) => SettingsState {
                settings: SettingsView { host_mappings: begun_rules(l), ..self.settings },
                hosts: StateView {
                    rules: begun_rules(l),
                    generation: crate::hostmap::next_generation(self.hosts.generation),
                    ..self.hosts
                },
            },
            None => self,
        }
    }

    /// The resolver as an edit asks for it, in force.
    pub open spec fn with_resolver(self, mode: DnsView) -> SettingsState {
        SettingsState {
            settings: SettingsView { dns: described(mode), ..self.settings },
            hosts: StateView {
                dns: match mode {
                    DnsView::System => None,
                    DnsView::Dot(a) => Some(a),
                },
                generation: crate::hostmap::next_generation(self.hosts.generation),
                ..self.hosts
            },
        }
    }

    /// An edit: it is taken in whole, or something in it is refused and nothing
    /// changes.
    pub open spec fn edited(
        self,
        upd: SettingsUpdateView,
        checks: Seq<Option<Seq<char>>>,
        ready: Option<Seq<char>>,
    ) -> (SettingsState, Option<Seq<char>>) {
        let mode = match upd.dns {
            Some(raw) => mode_of(Some(raw)),
            None => Ok(DnsView::System),
        };
        if upd.host_mappings is Some && mapping_fault(begun_rules(upd.host_mappings->0)) is Some {
            (self, mapping_fault(begun_rules(upd.host_mappings->0)))
        } else if mode is Err {
            (self, Some(mode->Err_0))
        } else if upd.plugin_globals is Some && plugin_fault(upd.plugin_globals->0, checks, 0) is Some {
            (self, plugin_fault(upd.plugin_globals->0, checks, 0))
        } else if upd.dns is Some && mode->Ok_0 is Dot && ready is Some {
            (self, ready)
        } else {
            let most = self.plainly(upd).with_plugins(upd).with_rules(upd);
            if upd.dns is None {
                (most, None)
            } else {
                (most.with_resolver(mode->Ok_0), None)
            }
        }
    }
}

/// An edit that is refused leaves everything as it was, and one with a bad rule or
/// a bad resolver is refused.
pub proof fn law_a_refused_edit_changes_no_setting(
    s: SettingsState,
    upd: SettingsUpdateView,
    checks: Seq<Option<Seq<char>>>,
    ready: Option<Seq<char>>,
)
    ensures
        s.edited(upd, checks, ready).1 is Some ==> s.edited(upd, checks, ready).0 == s,
        (upd.host_mappings is Some && mapping_fault(begun_rules(upd.host_mappings->0)) is Some) || (
        upd.dns is Some && mode_of(upd.dns) is Err) ==> s.edited(upd, checks, ready).1 is Some,
{
}

/// A task under its id.
pub struct TaskSlot {
    pub id: String,
    pub entry: TaskEntry,
}

/// What is shown of a task.
pub struct TaskInfo {
    pub task_id: String,
    pub proxy_url: String,
    pub config: TaskConfig,
    pub created_at: u64,
    pub updated_at: u64,
    pub bytes_served: u64,
    pub active_connections: u32,
    pub paused: bool,
    pub cache: Option<CacheStats>,
    pub url_health: Vec<UrlHealth>,
    pub current_speed_bps: u64,
    pub speed_samples: Vec<u64>,
    pub cache_job: Option<CacheJobInfo>,
}

/// What is shown of the whole.
pub struct GlobalState {
    pub settings: GlobalSettings,
    pub cache_fill_speed_bps: u64,
    pub current_speed_bps: u64,
    pub speed_samples: Vec<u64>,
    pub cache_total_bytes: u64,
    pub task_count: usize,
    pub active_connections: u64,
    pub bytes_served_total: u64,
}

/// The size of the last of the first `n` volumes that a URL belongs to.
pub open spec fn size_of(l: Seq<VolumeMeta>, url: Seq<char>, n: int) -> Option<u64>
    decreases n,
{
    if n <= 0 {
        None
    } else if views(l[n - 1].urls@).contains(url) {
        Some(l[n - 1].size)
    } else {
        size_of(l, url, n - 1)
    }
}

fn volume_size(l: &Vec<VolumeMeta>, url: &str) -> (out: Option<u64>)
    ensures
        out == size_of(l@, url@, l@.len() as int),
{
    let mut n: usize = l.len();
    while n > 0
        invariant
            n <= l@.len(),
            size_of(l@, url@, l@.len() as int) == size_of(l@, url@, n as int),
        decreases n,
    {
        if super::in_list(&l[n - 1].urls, url) {
            return Some(l[n - 1].size);
        }
        n = n - 1;
    }
    None
}

/// The size of a URL's volume, where the task's probe tells it.
pub open spec fn probed_size(entry: TaskEntry, url: Seq<char>) -> Option<u64> {
    match entry.probe_cache {
        Some(p) => match p.0.volumes {
            Some(l) => size_of(l@, url, l@.len() as int),
            None => None,
        },
        None => None,
    }
}

/// What is shown of a task, apart from its cache and its coordinator.
pub open spec fn informs(out: TaskInfo, bind_addr: Seq<char>, id: Seq<char>, entry: TaskEntry) -> bool {
    &&& out.task_id@ == id
    &&& out.proxy_url@ == "http://"@ + bind_addr + ("/stream/"@ + id)
    &&& out.config@ == entry@.config
    &&& out.created_at == entry.created_at
    &&& out.updated_at == entry.updated_at
    &&& out.bytes_served == entry.bytes_served
    &&& out.active_connections == entry.active_connections
    &&& out.paused == entry.paused
    &&& out.url_health@.len() == entry@.health.len()
    &&& forall|i: int|
        0 <= i < out.url_health@.len() ==> shown_as(
            #[trigger] out.url_health@[i],
            entry@.health[i],
            probed_size(entry, entry@.health[i].url),
        )
    &&& out.current_speed_bps == if entry.throughput.samples@.len() == 0 {
        0
    } else {
        entry.throughput.samples@.last()
    }
    &&& out.speed_samples@ == entry.throughput.samples@
}

/// What is shown of a task.
pub fn task_info(
    bind_addr: &str,
    id: &str,
    entry: &TaskEntry,
    cache: Option<CacheStats>,
    cache_job: Option<CacheJobInfo>,
) -> (out: TaskInfo)
    ensures
        informs(out, bind_addr@, id@, *entry),
        out.cache == cache,
        out.cache_job == cache_job,
{
    let mut url_health: Vec<UrlHealth> = Vec::new();
    let mut i: usize = 0;
    while i < entry.url_health.len()
        invariant
            i <= entry.url_health@.len(),
            url_health@.len() == i,
            forall|k: int|
                0 <= k < i ==> shown_as(
                    #[trigger] url_health@[k],
                    entry.url_health@[k]@,
                    probed_size(*entry, entry.url_health@[k].url@),
                ),
        decreases entry.url_health.len() - i,
    {
        let mut snap: UrlHealth = entry.url_health[i].snapshot();
        snap.volume_size = match &entry.probe_cache {
            Some(p) => match &p.0.volumes {
                Some(l) => volume_size(l, entry.url_health[i].url.as_str()),
                None => None,
            },
            None => None,
        };
        url_health.push(snap);
        i = i + 1;
    }
    TaskInfo {
        task_id: id.to_owned(),
        proxy_url: join2(
            join2("http://", bind_addr).as_str(),
            join2("/stream/", id).as_str(),
        ),
        config: entry.config_snapshot(),
        created_at: entry.created_at,
        updated_at: entry.updated_at,
        bytes_served: entry.bytes_served,
        active_connections: entry.active_connections,
        paused: entry.paused,
        cache,
        url_health,
        current_speed_bps: entry.throughput.current(),
        speed_samples: entry.throughput.snapshot(),
        cache_job,
    }
}

/// Task `a` is listed before task `b`: it was edited later or, in the same second,
/// its id comes first.
pub open spec fn listed_before(a: TaskSlot, b: TaskSlot) -> bool {
    a.entry.updated_at > b.entry.updated_at || (a.entry.updated_at == b.entry.updated_at
        && bytes_le(encode_utf8(a.id@), encode_utf8(b.id@)))
}

/// `order` lists every task once, the one edited last first.
pub open spec fn is_listing(order: Seq<usize>, l: Seq<TaskSlot>, n: int) -> bool {
    &&& order.len() == n
    &&& order.no_duplicates()
    &&& forall|i: int| 0 <= i < order.len() ==> (#[trigger] order[i]) < n
    &&& forall|i: int, j: int|
        0 <= i < j < order.len() ==> listed_before(
            l[(#[trigger] order[i]) as int],
            l[(#[trigger] order[j]) as int],
        )
}

fn comes_first(a: &TaskSlot, b: &TaskSlot) -> (out: bool)
    ensures
        out == listed_before(*a, *b),
{
    a.entry.updated_at > b.entry.updated_at || (a.entry.updated_at == b.entry.updated_at
        && not_after(a.id.as_str(), b.id.as_str()))
}

proof fn lemma_listed(a: TaskSlot, b: TaskSlot, c: TaskSlot)
    ensures
        listed_before(a, b) || listed_before(b, a),
        listed_before(a, b) && listed_before(b, c) ==> listed_before(a, c),
{
    lemma_bytes_le(encode_utf8(a.id@), encode_utf8(b.id@), encode_utf8(c.id@));
}

/// The order in which tasks are listed: the one edited last comes first, and ids
/// decide between tasks of the same second.
pub fn order_tasks(l: &Vec<TaskSlot>) -> (out: Vec<usize>)
    ensures
        is_listing(out@, l@, l@.len() as int),
{
    let mut out: Vec<usize> = Vec::new();
    let mut i: usize = 0;
    while i < l.len()
        invariant
            i <= l@.len(),
            is_listing(out@, l@, i as int),
        decreases l.len() - i,
    {
        let mut k: usize = 0;
        while k < out.len() && comes_first(&l[out[k]], &l[i])
            invariant
                k <= out@.len(),
                i < l@.len(),
                is_listing(out@, l@, i as int),
                forall|j: int|
                    0 <= j < k ==> listed_before(l@[(#[trigger] out@[j]) as int], l@[i as int]),
            decreases out.len() - k,
        {
            k = k + 1;
        }
        let ghost before = out@;
        out.insert(k, i);
        proof {
            let after = out@;
            assert(after == before.insert(k as int, i));
            assert forall|a: int, b: int| 0 <= a < b < after.len() implies listed_before(
                l@[(#[trigger] after[a]) as int],
                l@[(#[trigger] after[b]) as int],
            ) by {
                let x = if a < k {
                    a
                } else {
                    a - 1
                };
                let y = if b < k {
                    b
                } else {
                    b - 1
                };
                if a == k {
                    assert(after[b] == before[y]);
                    lemma_listed(l@[before[k as int] as int], l@[i as int], l@[i as int]);
                    if y > k {
                        assert(listed_before(
                            l@[before[k as int] as int],
                            l@[before[y] as int],
                        ));
                        lemma_listed(
                            l@[i as int],
                            l@[before[k as int] as int],
                            l@[before[y] as int],
                        );
                    }
                } else if b == k {
                    assert(after[a] == before[a]);
                } else {
                    assert(after[a] == before[x] && after[b] == before[y]);
                }
            }
            assert forall|a: int| 0 <= a < after.len() implies (#[trigger] after[a]) < i + 1 by {
                if a < k {
                    assert(after[a] == before[a]);
                } else if a > k {
                    assert(after[a] == before[a - 1]);
                }
            }
            assert forall|a: int, b: int| 0 <= a < after.len() && 0 <= b < after.len() && a
                != b implies after[a] != after[b] by {
                let x = if a < k {
                    a
                } else {
                    a - 1
                };
                let y = if b < k {
                    b
                } else {
                    b - 1
                };
                if a == k {
                    assert(before[y] < i);
                } else if b == k {
                    assert(before[x] < i);
                } else {
                    assert(before[x] != before[y]);
                }
            }
        }
        i = i + 1;
    }
    out
}

/// The clients of all tasks.
pub open spec fn connections(l: Seq<TaskSlot>) -> int
    decreases l.len(),
{
    if l.len() == 0 {
        0
    } else {
        connections(l.drop_last()) + l.last().entry.active_connections
    }
}

/// The bytes that all tasks have served.
pub open spec fn served(l: Seq<TaskSlot>) -> int
    decreases l.len(),
{
    if l.len() == 0 {
        0
    } else {
        served(l.drop_last()) + l.last().entry.bytes_served
    }
}

proof fn lemma_sums_grow(l: Seq<TaskSlot>, n: int)
    requires
        0 <= n <= l.len(),
    ensures
        0 <= connections(l.take(n)) <= connections(l),
        0 <= served(l.take(n)) <= served(l),
    decreases l.len() - n,
{
    if n < l.len() {
        lemma_sums_grow(l, n + 1);
        assert(l.take(n + 1).drop_last() =~= l.take(n));
        lemma_sums_positive(l.take(n));
    } else {
        assert(l.take(n) =~= l);
        lemma_sums_positive(l);
    }
}

proof fn lemma_sums_positive(l: Seq<TaskSlot>)
    ensures
        0 <= connections(l),
        0 <= served(l),
    decreases l.len(),
{
    if l.len() > 0 {
        lemma_sums_positive(l.drop_last());
    }
}

/// The place of a task, from `i` on.
pub open spec fn task_from(l: Seq<TaskSlot>, id: Seq<char>, i: int) -> Option<int>
    decreases l.len() - i,
{
    if i < 0 || i >= l.len() {
        None
    } else if l[i].id@ == id {
        Some(i)
    } else {
        task_from(l, id, i + 1)
    }
}

/// All tasks and the settings.
pub struct AppState {
    pub tasks: Vec<TaskSlot>,
    pub bind_addr: String,
    pub settings: GlobalSettings,
    pub hosts: HostState,
    pub throughput: ThroughputSampler,
    pub window_bytes: u64,
}

impl AppState {
    /// No two tasks have the same id.
    pub open spec fn wf(self) -> bool {
        &&& self.hosts.wf()
        &&& self.throughput.wf()
        &&& forall|i: int, j: int|
            0 <= i < j < self.tasks@.len() ==> (#[trigger] self.tasks@[i]).id@ != (
            #[trigger] self.tasks@[j]).id@
    }

    /// The settings and what follows from them.
    pub open spec fn state(self) -> SettingsState {
        SettingsState { settings: self.settings@, hosts: self.hosts@ }
    }

    pub fn new(bind_addr: String, settings: GlobalSettings) -> (out: Self)
        ensures
            out.wf(),
            out.tasks@.len() == 0,
            out.bind_addr == bind_addr,
            out.settings == settings,
            out.hosts@ == (StateView { rules: Seq::empty(), dns: None, generation: 0 }),
            out.throughput.samples@.len() == 0,
            out.throughput.capacity == 60,
            out.window_bytes == 0,
    {
        AppState {
            tasks: Vec::new(),
            bind_addr,
            settings,
            hosts: HostState::new(),
            throughput: ThroughputSampler::new(60),
            window_bytes: 0,
        }
    }

    /// Where a task stands.
    pub fn get(&self, id: &str) -> (out: Option<usize>)
        ensures
            match out {
                Some(i) => task_from(self.tasks@, id@, 0) == Some(i as int) && i < self.tasks@.len()
                    && self.tasks@[i as int].id@ == id@,
                None => task_from(self.tasks@, id@, 0) is None && forall|k: int|
                    0 <= k < self.tasks@.len() ==> (#[trigger] self.tasks@[k]).id@ != id@,
            },
    {
        let mut i: usize = 0;
        while i < self.tasks.len()
            invariant
                i <= self.tasks@.len(),
                task_from(self.tasks@, id@, 0) == task_from(self.tasks@, id@, i as int),
                forall|k: int| 0 <= k < i ==> (#[trigger] self.tasks@[k]).id@ != id@,
            decreases self.tasks.len() - i,
        {
            if same_text(self.tasks[i].id.as_str(), id) {
                return Some(i);
            }
            i = i + 1;
        }
        None
    }

    /// Takes a task in; it takes the place of one of the same id.
    pub fn insert(&mut self, id: String, entry: TaskEntry)
        requires
            old(self).wf(),
        ensures
            final(self).wf(),
            final(self).settings == old(self).settings,
            final(self).hosts == old(self).hosts,
            final(self).bind_addr == old(self).bind_addr,
            final(self).throughput == old(self).throughput,
            final(self).window_bytes == old(self).window_bytes,
            match task_from(old(self).tasks@, id@, 0) {
                Some(i) => final(self).tasks@ == old(self).tasks@.update(i, TaskSlot { id, entry }),
                None => final(self).tasks@ == old(self).tasks@.push(TaskSlot { id, entry }),
            },
    {
        match self.get(id.as_str()) {
            Some(i) => {
                self.tasks.set(i, TaskSlot { id, entry });
            },
            None => {
                self.tasks.push(TaskSlot { id, entry });
            },
        }
    }

    /// Takes a task out.
    pub fn remove(&mut self, id: &str) -> (out: Option<TaskEntry>)
        requires
            old(self).wf(),
        ensures
            final(self).wf(),
            final(self).settings == old(self).settings,
            final(self).hosts == old(self).hosts,
            final(self).bind_addr == old(self).bind_addr,
            final(self).throughput == old(self).throughput,
            final(self).window_bytes == old(self).window_bytes,
            match task_from(old(self).tasks@, id@, 0) {
                Some(i) => out == Some(old(self).tasks@[i].entry) && final(self).tasks@ == old(self).tasks@.remove(i),
                None => out is None && final(self).tasks@ == old(self).tasks@,
            },
    {
        let ghost was = self.tasks@;
        match self.get(id) {
            Some(i) => {
                let slot: TaskSlot = self.tasks.remove(i);
                proof {
                    let now = self.tasks@;
                    assert forall|a: int, b: int| 0 <= a < b < now.len() implies (
                    #[trigger] now[a]).id@ != (#[trigger] now[b]).id@ by {
                        let x = if a < i {
                            a
                        } else {
                            a + 1
                        };
                        let y = if b < i {
                            b
                        } else {
                            b + 1
                        };
                        assert(was[x].id@ != was[y].id@);
                    }
                }
                Some(slot.entry)
            },
            None => None,
        }
    }

    /// The order in which tasks are listed.
    pub fn list(&self) -> (out: Vec<usize>)
        ensures
            is_listing(out@, self.tasks@, self.tasks@.len() as int),
    {
        order_tasks(&self.tasks)
    }

    /// What is shown of the whole.
    pub fn global_state(&self, cache_fill_speed_bps: u64, cache_total_bytes: u64) -> (out: GlobalState)
        requires
            connections(self.tasks@) <= u64::MAX,
            served(self.tasks@) <= u64::MAX,
        ensures
            out.settings@ == self.settings@,
            out.cache_fill_speed_bps == cache_fill_speed_bps,
            out.current_speed_bps == if self.throughput.samples@.len() == 0 {
                0
            } else {
                self.throughput.samples@.last()
            },
            out.speed_samples@ == self.throughput.samples@,
            out.cache_total_bytes == cache_total_bytes,
            out.task_count == self.tasks@.len(),
            out.active_connections == connections(self.tasks@),
            out.bytes_served_total == served(self.tasks@),
    {
        let mut active_connections: u64 = 0;
        let mut bytes_served_total: u64 = 0;
        let mut i: usize = 0;
        while i < self.tasks.len()
            invariant
                i <= self.tasks@.len(),
                active_connections == connections(self.tasks@.take(i as int)),
                bytes_served_total == served(self.tasks@.take(i as int)),
                connections(self.tasks@) <= u64::MAX,
                served(self.tasks@) <= u64::MAX,
            decreases self.tasks.len() - i,
        {
            proof {
                assert(self.tasks@.take(i + 1).drop_last() =~= self.tasks@.take(i as int));
                lemma_sums_grow(self.tasks@, i + 1);
            }
            active_connections = active_connections + self.tasks[i].entry.active_connections as u64;
            bytes_served_total = bytes_served_total + self.tasks[i].entry.bytes_served;
            i = i + 1;
        }
        assert(self.tasks@.take(self.tasks@.len() as int) =~= self.tasks@);
        GlobalState {
            settings: self.settings.clone(),
            cache_fill_speed_bps,
            current_speed_bps: self.throughput.current(),
            speed_samples: self.throughput.snapshot(),
            cache_total_bytes,
            task_count: self.tasks.len(),
            active_connections,
            bytes_served_total,
        }
    }

    /// Counts bytes that went to any client.
    pub fn count_bytes_global(&mut self, n: u64)
        ensures
            *final(self) == (AppState {
                window_bytes: wrap64(old(self).window_bytes + n),
                ..*old(self)
            }),
    {
        self.window_bytes = self.window_bytes.wrapping_add(n);
    }

    /// Closes the window over all tasks: its bytes become the latest rate.
    pub fn tick_global_throughput(&mut self, elapsed_ns: u64)
        requires
            old(self).wf(),
        ensures
            final(self).wf(),
            final(self).tasks == old(self).tasks,
            final(self).settings == old(self).settings,
            final(self).hosts == old(self).hosts,
            final(self).bind_addr == old(self).bind_addr,
            final(self).window_bytes == 0,
            final(self).throughput.capacity == old(self).throughput.capacity,
            final(self).throughput.samples@ == (if old(self).throughput.samples@.len() >= old(self).throughput.capacity {
                old(self).throughput.samples@.drop_first()
            } else {
                old(self).throughput.samples@
            }).push(per_second(old(self).window_bytes as int, elapsed_ns as int) as u64),
    {
        let bps: u64 = rate(self.window_bytes, elapsed_ns);
        self.window_bytes = 0;
        self.throughput.push(bps);
    }

    /// Takes an edit of the settings in. `checks` holds, for each plugin whose
    /// settings are to change, what the plugin has against them; `ready` says
    /// whether a connection to the name server could be prepared.
    pub fn update_settings(
        &mut self,
        upd: GlobalSettingsUpdate,
        checks: &Vec<Option<String>>,
        ready: Result<(), String>,
    ) -> (out: Result<GlobalSettings, String>)
        requires
            old(self).wf(),
        ensures
            final(self).wf(),
            final(self).tasks == old(self).tasks,
            final(self).bind_addr == old(self).bind_addr,
            final(self).throughput == old(self).throughput,
            final(self).window_bytes == old(self).window_bytes,
            out is Err ==> *final(self) == *old(self),
            ({
                let (after, fault) = old(self).state().edited(
                    upd@,
                    crate::names::opt_views(checks@),
                    match ready {
                        Ok(_) => None,
                        Err(e) => Some(e@),
                    },
                );
                &&& final(self).state() == after
                &&& match out {
                    Ok(s) => fault is None && s@ == after.settings,
                    Err(e) => fault == Some(e@),
                }
            }),
    {
        let mut upd: GlobalSettingsUpdate = upd;
        let ghost asked = upd@;
        let ghost was = self.state();
        let maps: Option<Vec<HostMapping>> = match upd.host_mappings.take() {
            Some(m) => {
                let m: Vec<HostMapping> = begun(&m);
                if let Err(e) = check_mappings(&m) {
                    return Err(e);
                }
                Some(m)
            },
            None => None,
        };
        let mode: Option<DnsMode> = match &upd.dns {
            Some(raw) => match parse_mode(Some(raw.as_str())) {
                Ok(m) => Some(m),
                Err(e) => {
                    return Err(e);
                },
            },
            None => None,
        };
        if let Some(pg) = &upd.plugin_globals {
            if let Some(e) = first_plugin_fault(pg, checks) {
                return Err(e);
            }
        }
        if let Some(DnsMode::Dot(_)) = &mode {
            if let Err(e) = ready {
                return Err(e);
            }
        }
        self.set_plain(&upd);
        assert(was.plainly(upd@) =~= was.plainly(asked));
        self.set_plugins(upd.plugin_globals);
        assert(self.state() == was.plainly(asked).with_plugins(asked));
        self.set_rules(maps);
        assert(self.state() == was.plainly(asked).with_plugins(asked).with_rules(asked));
        self.set_resolver(mode);
        Ok(self.settings.clone())
    }

    /// All but the settings and the hosts is the same.
    pub open spec fn same_tasks(self, other: AppState) -> bool {
        &&& self.tasks == other.tasks
        &&& self.bind_addr == other.bind_addr
        &&& self.throughput == other.throughput
        &&& self.window_bytes == other.window_bytes
    }

    fn set_plain(&mut self, upd: &GlobalSettingsUpdate)
        requires
            old(self).wf(),
        ensures
            final(self).wf(),
            final(self).same_tasks(*old(self)),
            final(self).state() == old(self).state().plainly(upd@),
    {
        self.settings = plain_settings(self.settings.clone(), upd);
        assert(old(self).state() == (SettingsState {
            settings: old(self).settings@,
            hosts: self.hosts@,
        }));
    }

    fn set_plugins(&mut self, asked: Option<Vec<(String, String)>>)
        requires
            old(self).wf(),
        ensures
            final(self).wf(),
            final(self).same_tasks(*old(self)),
            match asked {
                None => final(self).state() == old(self).state(),
                Some(l) => final(self).state() == (SettingsState {
                    settings: SettingsView {
                        plugin_globals: pair_views(l@),
                        ..old(self).settings@
                    },
                    ..old(self).state()
                }),
            },
    {
        if let Some(pg) = asked {
            self.settings.plugin_globals = pg;
        }
    }

    fn set_rules(&mut self, maps: Option<Vec<HostMapping>>)
        requires
            old(self).wf(),
            maps is Some ==> mapping_fault(rule_views(maps->0@)) is None,
        ensures
            final(self).wf(),
            final(self).same_tasks(*old(self)),
            match maps {
                Some(l) => final(self).state() == (SettingsState {
                    settings: SettingsView {
                        host_mappings: rule_views(l@),
                        ..old(self).settings@
                    },
                    hosts: StateView {
                        rules: rule_views(l@),
                        generation: crate::hostmap::next_generation(old(self).hosts@.generation),
                        ..old(self).hosts@
                    },
                }),
                None => final(self).state() == old(self).state(),
            },
    {
        if let Some(m) = maps {
            let placed: Result<(), String> = install(&mut self.hosts, &m);
            assert(placed is Ok);
            self.settings.host_mappings = m;
        }
    }

    fn set_resolver(&mut self, mode: Option<DnsMode>)
        requires
            old(self).wf(),
        ensures
            final(self).wf(),
            final(self).same_tasks(*old(self)),
            match mode {
                None => final(self).state() == old(self).state(),
                Some(m) => final(self).state() == old(self).state().with_resolver(m@),
            },
    {
        if let Some(m) = mode {
            let set: Result<(), String> = install_dns(&mut self.hosts, &m, Ok(()));
            assert(set is Ok);
            self.settings.dns = crate::dns::describe(&m);
        }
    }

    /// Puts saved settings in force. Rules or a resolver that are no good are
    /// passed over, so that one bad entry does not stop everything else.
    pub fn restore_settings(&mut self, settings: GlobalSettings, ready: Result<(), String>)
        requires
            old(self).wf(),
        ensures
            final(self).wf(),
            final(self).tasks == old(self).tasks,
            final(self).bind_addr == old(self).bind_addr,
            final(self).throughput == old(self).throughput,
            final(self).window_bytes == old(self).window_bytes,
            final(self).settings@ == settings@,
            final(self).hosts@ == restored_hosts(old(self).hosts@, settings@, ready is Ok),
    {
        let ghost h = self.hosts@;
        let _placed: Result<(), String> = install(&mut self.hosts, &settings.host_mappings);
        let raw: Option<&str> = match &settings.dns {
            Some(d) => Some(d.as_str()),
            None => None,
        };
        match parse_mode(raw) {
            Ok(m) => {
                let _set: Result<(), String> = install_dns(&mut self.hosts, &m, ready);
            },
            Err(_) => {},
        }
        assert(self.hosts@ =~= restored_hosts(h, settings@, ready is Ok));
        self.settings = settings;
    }
}

/// The value of the first pair of a name, from pair `i` on.
pub open spec fn pair_value(l: Seq<(Seq<char>, Seq<char>)>, name: Seq<char>, i: int) -> Option<Seq<char>>
    decreases l.len() - i,
{
    if i < 0 || i >= l.len() {
        None
    } else if l[i].0 == name {
        Some(l[i].1)
    } else {
        pair_value(l, name, i + 1)
    }
}

impl AppState {
    /// What a plugin keeps, if anything was set.
    pub fn plugin_global(&self, id: &str) -> (out: Option<String>)
        ensures
            opt_view(out) == pair_value(self.settings@.plugin_globals, id@, 0),
    {
        let ghost l = self.settings@.plugin_globals;
        let mut i: usize = 0;
        while i < self.settings.plugin_globals.len()
            invariant
                i <= self.settings.plugin_globals@.len(),
                l == pair_views(self.settings.plugin_globals@),
                pair_value(l, id@, 0) == pair_value(l, id@, i as int),
            decreases self.settings.plugin_globals.len() - i,
        {
            assert(l[i as int].0 == self.settings.plugin_globals@[i as int].0@);
            assert(l[i as int].1 == self.settings.plugin_globals@[i as int].1@);
            if same_text(self.settings.plugin_globals[i].0.as_str(), id) {
                return Some(self.settings.plugin_globals[i].1.clone());
            }
            i = i + 1;
        }
        None
    }

    /// Sets what a plugin keeps.
    pub fn set_plugin_global(&mut self, id: String, value: String)
        requires
            old(self).wf(),
        ensures
            final(self).wf(),
            final(self).same_tasks(*old(self)),
            final(self).hosts == old(self).hosts,
            final(self).settings@ == (SettingsView {
                plugin_globals: crate::headers::with_pair(
                    old(self).settings@.plugin_globals,
                    id@,
                    value@,
                ),
                ..old(self).settings@
            }),
    {
        crate::headers::put_pair(&mut self.settings.plugin_globals, id, value);
    }

    /// The saved coordinators that go on with their work: those that were at work
    /// on a task that is still there.
    pub fn resumable(&self, saved: &Vec<PersistedDownload>) -> (out: Vec<usize>)
        ensures
            out@ == to_resume(self.tasks@, saved@, saved@.len() as int),
    {
        let mut out: Vec<usize> = Vec::new();
        let mut i: usize = 0;
        while i < saved.len()
            invariant
                i <= saved@.len(),
                out@ == to_resume(self.tasks@, saved@, i as int),
            decreases saved.len() - i,
        {
            if saved[i].was_running && self.get(saved[i].task_id.as_str()).is_some() {
                out.push(i);
            }
            i = i + 1;
        }
        out
    }
}

/// What was set for a plugin is what is read for it.
pub proof fn law_what_is_set_is_read(l: Seq<(Seq<char>, Seq<char>)>, id: Seq<char>, value: Seq<char>)
    ensures
        pair_value(crate::headers::with_pair(l, id, value), id, 0) == Some(value),
        forall|other: Seq<char>|
            other != id ==> #[trigger] pair_value(
                crate::headers::with_pair(l, id, value),
                other,
                0,
            ) == pair_value(l, other, 0),
    decreases l.len(),
{
    let w = crate::headers::with_pair(l, id, value);
    if l.len() == 0 {
        assert forall|other: Seq<char>| other != id implies #[trigger] pair_value(w, other, 0)
            == pair_value(l, other, 0) by {
            assert(pair_value(w, other, 1) is None);
        }
    } else {
        let rest = l.drop_first();
        let tail = w.drop_first();
        if l[0].0 == id {
            assert(tail =~= rest);
        } else {
            assert(tail =~= crate::headers::with_pair(rest, id, value));
            law_what_is_set_is_read(rest, id, value);
        }
        assert forall|name: Seq<char>| #[trigger] pair_value(w, name, 0) == if w[0].0 == name {
            Some(w[0].1)
        } else {
            pair_value(tail, name, 0)
        } by {
            lemma_pair_shift(w, name, 1);
        }
        assert forall|name: Seq<char>| #[trigger] pair_value(l, name, 0) == if l[0].0 == name {
            Some(l[0].1)
        } else {
            pair_value(rest, name, 0)
        } by {
            lemma_pair_shift(l, name, 1);
        }
    }
}

proof fn lemma_pair_shift(l: Seq<(Seq<char>, Seq<char>)>, name: Seq<char>, i: int)
    requires
        1 <= i,
        l.len() > 0,
    ensures
        pair_value(l, name, i) == pair_value(l.drop_first(), name, i - 1),
    decreases l.len() - i,
{
    if i < l.len() {
        lemma_pair_shift(l, name, i + 1);
    }
}

/// The saved coordinators among the first `n` that go on.
pub open spec fn to_resume(tasks: Seq<TaskSlot>, saved: Seq<PersistedDownload>, n: int) -> Seq<usize>
    decreases n,
{
    if n <= 0 {
        Seq::empty()
    } else if saved[n - 1].was_running && task_from(tasks, saved[n - 1].task_id@, 0) is Some {
        to_resume(tasks, saved, n - 1).push((n - 1) as usize)
    } else {
        to_resume(tasks, saved, n - 1)
    }
}

/// What saved settings make of the hosts' state.
pub open spec fn restored_hosts(h: StateView, s: SettingsView, ready: bool) -> StateView {
    let rules = s.host_mappings;
    let a = match table_of(rules, rules.len() as int) {
        Ok(_) => StateView {
            rules,
            generation: crate::hostmap::next_generation(h.generation),
            ..h
        },
        Err(_) => h,
    };
    match mode_of(s.dns) {
        Ok(DnsView::System) => StateView {
            dns: None,
            generation: crate::hostmap::next_generation(a.generation),
            ..a
        },
        Ok(DnsView::Dot(d)) => if ready {
            StateView {
                dns: Some(d),
                generation: crate::hostmap::next_generation(a.generation),
                ..a
            }
        } else {
            a
        },
        Err(_) => a,
    }
}

fn plain_settings(s: GlobalSettings, upd: &GlobalSettingsUpdate) -> (out: GlobalSettings)
    ensures
        forall|h: StateView| #[trigger]
            (SettingsState { settings: s@, hosts: h }).plainly(upd@) == (SettingsState {
                settings: out@,
                hosts: h,
            }),
{
    let out: GlobalSettings = GlobalSettings {
        global_rate_limit_bps: match upd.global_rate_limit_bps {
            Some(r) => r,
            None => s.global_rate_limit_bps,
        },
        global_rate_limit_algorithm: match upd.global_rate_limit_algorithm {
            Some(a) => a,
            None => s.global_rate_limit_algorithm,
        },
        download_dir: match &upd.download_dir {
            Some(d) => {
                let t: String = trim(d.as_str());
                if t.as_str().is_empty() {
                    None
                } else {
                    Some(t)
                }
            },
            None => s.download_dir,
        },
        ..s
    };
    assert forall|h: StateView| #[trigger]
        (SettingsState { settings: s@, hosts: h }).plainly(upd@) == (SettingsState {
            settings: out@,
            hosts: h,
        }) by {
        assert((SettingsState { settings: s@, hosts: h }).plainly(upd@).settings =~= out@);
    }
    out
}

fn first_plugin_fault(l: &Vec<(String, String)>, checks: &Vec<Option<String>>) -> (out: Option<String>)
    ensures
        opt_view(out) == plugin_fault(pair_views(l@), crate::names::opt_views(checks@), 0),
{
    let ghost p = pair_views(l@);
    let ghost c = crate::names::opt_views(checks@);
    let mut i: usize = 0;
    while i < l.len() && i < checks.len()
        invariant
            i <= l@.len(),
            i <= checks@.len(),
            p == pair_views(l@),
            c == crate::names::opt_views(checks@),
            plugin_fault(p, c, 0) == plugin_fault(p, c, i as int),
        decreases l.len() - i,
    {
        assert(c[i as int] == opt_view(checks@[i as int]));
        assert(p[i as int].0 == l@[i as int].0@);
        if let Some(e) = &checks[i] {
            return Some(
                join3(
                    "plugin '",
                    l[i].0.as_str(),
                    join2("' global config: ", e.as_str()).as_str(),
                ),
            );
        }
        i = i + 1;
    }
    None
}

} // verus!
