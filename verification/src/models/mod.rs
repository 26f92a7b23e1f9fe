//! Tasks, their settings, and what is known of their origins.

use crate::hostmap::{rule_views, validate, HostMapping, RuleView};
use crate::num::{imax, imin};
use crate::plugins::chacha20::SizeValue;
use crate::plugins::TaskPluginConfig;
use crate::sizes::size_asked;
use crate::text::{
    chars_of, clone_opt, join2, opt_view, same_text, trim_chars, trimmed, views, views2,
};
use vstd::prelude::*;
use vstd::string::*;

pub mod health;
pub mod persist;
pub mod state;
pub mod task;

pub use crate::sizes::parse_size;
pub use health::{HealthView, ThroughputSampler, UrlHealth, UrlHealthAcc};
pub use persist::{persist_hash, restore_task, short_id, short_id_from, PersistedTask, Saver};
pub use state::{
    order_tasks, task_info, AppState, GlobalSettings, GlobalSettingsUpdate, GlobalState, TaskInfo,
    TaskSlot,
};
pub use task::{EntryView, TaskEntry, TaskUpdate, UpdateView};

verus! {

/// The most threads that a task is given.
pub const MAX_THREADS: usize = 128;

/// The smallest request size that can be asked for; 0 stands for automatic.
pub const MIN_SPLIT: u64 = 65536;

/// What a task uses where nothing is said.
pub fn default_threads() -> (out: usize)
    ensures
        out == 8,
{
    8
}

pub fn default_per_volume() -> (out: usize)
    ensures
        out == 4,
{
    4
}

pub fn default_split() -> (out: u64)
    ensures
        out == 0,
{
    0
}

/// How a rate limit is kept.
#[derive(Debug, Clone, Copy, PartialEq, Eq, Structural)]
pub enum Algorithm {
    TokenBucket,
}

/// How the served response presents itself.
#[derive(Debug, Clone, Copy, PartialEq, Eq, Structural)]
pub enum ContentDispositionMode {
    /// Inline, with the origin's content type.
    Auto,
    /// Inline, and a content type that says nothing is replaced by one guessed
    /// from the file name.
    Inline,
    /// Always a download.
    Attachment,
}

/// What a task is made of.
#[derive(Debug)]
pub struct TaskConfig {
    /// The volumes in playing order, each with the URLs of its copies.
    pub volumes: Vec<Vec<String>>,
    /// Follows from `max_per_volume` and the number of volumes.
    pub max_threads: usize,
    /// How many requests may run against one volume.
    pub max_per_volume: usize,
    /// The largest request, or 0 for automatic.
    pub max_split: u64,
    pub cache: bool,
    pub headers: Vec<(String, String)>,
    pub name: Option<String>,
    /// The file name to serve; where `auto_filename` is set, only a fallback.
    pub output_filename: Option<String>,
    pub auto_filename: bool,
    /// Bytes per second, or 0 for no limit.
    pub rate_limit_bps: u64,
    pub rate_limit_algorithm: Algorithm,
    /// Whether the task survives a restart.
    pub persist: bool,
    /// The plugins in the order in which the sender applied them.
    pub plugins: Vec<TaskPluginConfig>,
    pub content_disposition: ContentDispositionMode,
    /// The task's own host rules.
    pub host_mappings: Vec<HostMapping>,
}

#[verifier::ext_equal]
pub ghost struct SlotView {
    pub id: Seq<char>,
    pub enabled: bool,
    pub config: Seq<char>,
}

pub open spec fn slot_view(p: TaskPluginConfig) -> SlotView {
    SlotView { id: p.id@, enabled: p.enabled, config: p.config@ }
}

pub open spec fn slot_views(l: Seq<TaskPluginConfig>) -> Seq<SlotView> {
    l.map_values(|p: TaskPluginConfig| slot_view(p))
}

pub open spec fn pair_views(l: Seq<(String, String)>) -> Seq<(Seq<char>, Seq<char>)> {
    l.map_values(|p: (String, String)| (p.0@, p.1@))
}

#[verifier::ext_equal]
pub ghost struct ConfigView {
    pub volumes: Seq<Seq<Seq<char>>>,
    pub max_threads: usize,
    pub max_per_volume: usize,
    pub max_split: u64,
    pub cache: bool,
    pub headers: Seq<(Seq<char>, Seq<char>)>,
    pub name: Option<Seq<char>>,
    pub output_filename: Option<Seq<char>>,
    pub auto_filename: bool,
    pub rate_limit_bps: u64,
    pub rate_limit_algorithm: Algorithm,
    pub persist: bool,
    pub plugins: Seq<SlotView>,
    pub content_disposition: ContentDispositionMode,
    pub host_mappings: Seq<RuleView>,
}

impl View for TaskConfig {
    type V = ConfigView;

    open spec fn view(&self) -> ConfigView {
        ConfigView {
            volumes: views2(self.volumes@),
            max_threads: self.max_threads,
            max_per_volume: self.max_per_volume,
            max_split: self.max_split,
            cache: self.cache,
            headers: pair_views(self.headers@),
            name: opt_view(self.name),
            output_filename: opt_view(self.output_filename),
            auto_filename: self.auto_filename,
            rate_limit_bps: self.rate_limit_bps,
            rate_limit_algorithm: self.rate_limit_algorithm,
            persist: self.persist,
            plugins: slot_views(self.plugins@),
            content_disposition: self.content_disposition,
            host_mappings: rule_views(self.host_mappings@),
        }
    }
}

/// Nothing but white space.
pub open spec fn blank(s: Seq<char>) -> bool {
    trimmed(s).len() == 0
}

pub(crate) fn is_blank(s: &str) -> (out: bool)
    ensures
        out == blank(s@),
{
    trim_chars(&chars_of(s)).len() == 0
}

/// The texts that are not blank.
pub open spec fn written(l: Seq<Seq<char>>) -> Seq<Seq<char>>
    decreases l.len(),
{
    if l.len() == 0 {
        Seq::empty()
    } else if blank(l.last()) {
        written(l.drop_last())
    } else {
        written(l.drop_last()).push(l.last())
    }
}

/// The volumes without blank URLs, and without those that have no other.
pub open spec fn scrubbed(l: Seq<Seq<Seq<char>>>) -> Seq<Seq<Seq<char>>>
    decreases l.len(),
{
    if l.len() == 0 {
        Seq::empty()
    } else if written(l.last()).len() == 0 {
        scrubbed(l.drop_last())
    } else {
        scrubbed(l.drop_last()).push(written(l.last()))
    }
}

/// Each text once, where it first stands.
pub open spec fn first_seen(l: Seq<Seq<char>>) -> Seq<Seq<char>>
    decreases l.len(),
{
    if l.len() == 0 {
        Seq::empty()
    } else if l.drop_last().contains(l.last()) {
        first_seen(l.drop_last())
    } else {
        first_seen(l.drop_last()).push(l.last())
    }
}

/// The URLs of all volumes in one list.
pub open spec fn all_urls(l: Seq<Seq<Seq<char>>>) -> Seq<Seq<char>>
    decreases l.len(),
{
    if l.len() == 0 {
        Seq::empty()
    } else {
        all_urls(l.drop_last()) + l.last()
    }
}

/// Threads for a number of volumes: so many for each, at least one and at most
/// the limit.
pub open spec fn threads_for(max_per_volume: int, volumes: int) -> int {
    imin(imax(max_per_volume, 1) * imax(volumes, 1), MAX_THREADS as int)
}

/// The rules that are filled in at both ends.
pub open spec fn whole_rules(l: Seq<RuleView>) -> Seq<RuleView>
    decreases l.len(),
{
    if l.len() == 0 {
        Seq::empty()
    } else if blank(l.last().from) || blank(l.last().to) {
        whole_rules(l.drop_last())
    } else {
        whole_rules(l.drop_last()).push(l.last())
    }
}

/// The rules with something in them.
pub open spec fn begun_rules(l: Seq<RuleView>) -> Seq<RuleView>
    decreases l.len(),
{
    if l.len() == 0 {
        Seq::empty()
    } else if blank(l.last().from) && blank(l.last().to) {
        begun_rules(l.drop_last())
    } else {
        begun_rules(l.drop_last()).push(l.last())
    }
}

impl ConfigView {
    /// Brought into shape: no blank URLs, no empty volumes, no rules that are half
    /// filled in, and the number of threads that follows.
    pub open spec fn normal(self) -> ConfigView {
        let volumes = scrubbed(self.volumes);
        ConfigView {
            volumes,
            max_threads: threads_for(self.max_per_volume as int, volumes.len() as int) as usize,
            host_mappings: whole_rules(self.host_mappings),
            ..self
        }
    }

    /// What is wrong with the settings, if anything.
    pub open spec fn fault(self) -> Option<Seq<char>> {
        if self.max_per_volume == 0 {
            Some("max_per_volume must be >= 1"@)
        } else if self.max_split != 0 && self.max_split < MIN_SPLIT {
            Some("max_split must be 0 (auto) or >= 64K"@)
        } else {
            mapping_fault(self.host_mappings)
        }
    }
}

/// What is wrong with a list of rules, if anything.
pub open spec fn mapping_fault(l: Seq<RuleView>) -> Option<Seq<char>> {
    match crate::hostmap::table_of(l, l.len() as int) {
        Ok(_) => None,
        Err(e) => Some("host mapping: "@ + e),
    }
}

fn written_of(l: &Vec<String>) -> (out: Vec<String>)
    ensures
        views(out@) == written(views(l@)),
{
    let mut out: Vec<String> = Vec::new();
    let ghost all = views(l@);
    let mut i: usize = 0;
    assert(views(out@) =~= written(all.take(0)));
    while i < l.len()
        invariant
            i <= l@.len(),
            all == views(l@),
            views(out@) == written(all.take(i as int)),
        decreases l.len() - i,
    {
        assert(all.take(i + 1).drop_last() =~= all.take(i as int));
        assert(all.take(i + 1).last() == l@[i as int]@);
        if !is_blank(l[i].as_str()) {
            let ghost before = out@;
            let s: String = l[i].clone();
            out.push(s);
            assert(views(out@) =~= views(before).push(s@));
        }
        i = i + 1;
    }
    assert(all.take(all.len() as int) =~= all);
    out
}

fn in_list(l: &Vec<String>, s: &str) -> (out: bool)
    ensures
        out == views(l@).contains(s@),
{
    let mut i: usize = 0;
    while i < l.len()
        invariant
            i <= l@.len(),
            forall|k: int| 0 <= k < i ==> (#[trigger] l@[k])@ != s@,
        decreases l.len() - i,
    {
        if same_text(l[i].as_str(), s) {
            assert(views(l@)[i as int] == s@);
            return true;
        }
        i = i + 1;
    }
    proof {
        if views(l@).contains(s@) {
            let k = choose|k: int| 0 <= k < views(l@).len() && views(l@)[k] == s@;
            assert(l@[k]@ == s@);
        }
    }
    false
}

/// A list holds what stands in it once just as what stands in it first.
proof fn lemma_first_seen_holds(l: Seq<Seq<char>>, s: Seq<char>)
    ensures
        first_seen(l).contains(s) == l.contains(s),
    decreases l.len(),
{
    if l.len() > 0 {
        let m = l.drop_last();
        let seen = first_seen(m);
        lemma_first_seen_holds(m, s);
        assert(l.contains(s) <==> m.contains(s) || s == l.last()) by {
            if s == l.last() {
                assert(l[l.len() - 1] == s);
            }
            if m.contains(s) {
                let k = choose|k: int| 0 <= k < m.len() && m[k] == s;
                assert(l[k] == s);
            }
            if l.contains(s) && s != l.last() {
                let k = choose|k: int| 0 <= k < l.len() && l[k] == s;
                assert(m[k] == s);
            }
        }
        if !m.contains(l.last()) {
            let p = seen.push(l.last());
            assert(p.contains(s) <==> seen.contains(s) || s == l.last()) by {
                if s == l.last() {
                    assert(p[seen.len() as int] == s);
                }
                if seen.contains(s) {
                    let k = choose|k: int| 0 <= k < seen.len() && seen[k] == s;
                    assert(p[k] == s);
                }
            }
        }
    }
}

/// No text stands twice among those that are first seen.
pub proof fn law_every_url_stands_once(l: Seq<Seq<char>>)
    ensures
        first_seen(l).no_duplicates(),
        forall|s: Seq<char>| #[trigger] first_seen(l).contains(s) == l.contains(s),
    decreases l.len(),
{
    assert forall|s: Seq<char>| #[trigger] first_seen(l).contains(s) == l.contains(s) by {
        lemma_first_seen_holds(l, s);
    }
    if l.len() > 0 {
        let m = l.drop_last();
        law_every_url_stands_once(m);
        if !m.contains(l.last()) {
            let seen = first_seen(m);
            lemma_first_seen_holds(m, l.last());
            assert forall|i: int, j: int|
                0 <= i < j < seen.push(l.last()).len() implies seen.push(l.last())[i] != seen.push(
                l.last(),
            )[j] by {
                if j == seen.len() {
                    assert(seen.contains(seen[i]));
                }
            }
        }
    }
}

pub(crate) fn scrub(volumes: &Vec<Vec<String>>) -> (out: Vec<Vec<String>>)
    ensures
        views2(out@) == scrubbed(views2(volumes@)),
{
    let mut out: Vec<Vec<String>> = Vec::new();
    let ghost all = views2(volumes@);
    let mut i: usize = 0;
    assert(views2(out@) =~= scrubbed(all.take(0)));
    while i < volumes.len()
        invariant
            i <= volumes@.len(),
            all == views2(volumes@),
            views2(out@) == scrubbed(all.take(i as int)),
        decreases volumes.len() - i,
    {
        assert(all.take(i + 1).drop_last() =~= all.take(i as int));
        assert(all.take(i + 1).last() == views(volumes@[i as int]@));
        let v: Vec<String> = written_of(&volumes[i]);
        assert(views(v@).len() == v@.len());
        if v.len() > 0 {
            let ghost before = out@;
            out.push(v);
            assert(views2(out@) =~= views2(before).push(views(v@)));
        }
        i = i + 1;
    }
    assert(all.take(all.len() as int) =~= all);
    out
}

pub(crate) fn keep_whole(l: &Vec<HostMapping>) -> (out: Vec<HostMapping>)
    ensures
        rule_views(out@) == whole_rules(rule_views(l@)),
{
    let mut out: Vec<HostMapping> = Vec::new();
    let ghost all = rule_views(l@);
    let mut i: usize = 0;
    assert(rule_views(out@) =~= whole_rules(all.take(0)));
    while i < l.len()
        invariant
            i <= l@.len(),
            all == rule_views(l@),
            rule_views(out@) == whole_rules(all.take(i as int)),
        decreases l.len() - i,
    {
        assert(all.take(i + 1).drop_last() =~= all.take(i as int));
        assert(all.take(i + 1).last() == l@[i as int]@);
        if !is_blank(l[i].from.as_str()) && !is_blank(l[i].to.as_str()) {
            let ghost before = out@;
            let r: HostMapping = l[i].clone();
            out.push(r);
            assert(rule_views(out@) =~= rule_views(before).push(r@));
        }
        i = i + 1;
    }
    assert(all.take(all.len() as int) =~= all);
    out
}

pub(crate) fn begun(l: &Vec<HostMapping>) -> (out: Vec<HostMapping>)
    ensures
        rule_views(out@) == begun_rules(rule_views(l@)),
{
    let mut out: Vec<HostMapping> = Vec::new();
    let ghost all = rule_views(l@);
    let mut i: usize = 0;
    assert(rule_views(out@) =~= begun_rules(all.take(0)));
    while i < l.len()
        invariant
            i <= l@.len(),
            all == rule_views(l@),
            rule_views(out@) == begun_rules(all.take(i as int)),
        decreases l.len() - i,
    {
        assert(all.take(i + 1).drop_last() =~= all.take(i as int));
        assert(all.take(i + 1).last() == l@[i as int]@);
        if !(is_blank(l[i].from.as_str()) && is_blank(l[i].to.as_str())) {
            let ghost before = out@;
            let r: HostMapping = l[i].clone();
            out.push(r);
            assert(rule_views(out@) =~= rule_views(before).push(r@));
        }
        i = i + 1;
    }
    assert(all.take(all.len() as int) =~= all);
    out
}

pub(crate) fn check_mappings(l: &Vec<HostMapping>) -> (out: Result<(), String>)
    ensures
        match out {
            Ok(_) => mapping_fault(rule_views(l@)) is None,
            Err(e) => mapping_fault(rule_views(l@)) == Some(e@),
        },
{
    match validate(l) {
        Ok(_) => Ok(()),
        Err(e) => Err(join2("host mapping: ", e.as_str())),
    }
}

fn clone_pairs(l: &Vec<(String, String)>) -> (out: Vec<(String, String)>)
    ensures
        pair_views(out@) == pair_views(l@),
{
    let mut out: Vec<(String, String)> = Vec::new();
    let mut i: usize = 0;
    while i < l.len()
        invariant
            i <= l@.len(),
            out@.len() == i,
            forall|k: int|
                0 <= k < i ==> (#[trigger] out@[k]).0@ == l@[k].0@ && out@[k].1@ == l@[k].1@,
        decreases l.len() - i,
    {
        out.push((l[i].0.clone(), l[i].1.clone()));
        i = i + 1;
    }
    assert(pair_views(out@) =~= pair_views(l@));
    out
}

fn clone_slots(l: &Vec<TaskPluginConfig>) -> (out: Vec<TaskPluginConfig>)
    ensures
        slot_views(out@) == slot_views(l@),
{
    let mut out: Vec<TaskPluginConfig> = Vec::new();
    let mut i: usize = 0;
    while i < l.len()
        invariant
            i <= l@.len(),
            out@.len() == i,
            forall|k: int| 0 <= k < i ==> slot_view(#[trigger] out@[k]) == slot_view(l@[k]),
        decreases l.len() - i,
    {
        out.push(
            TaskPluginConfig {
                id: l[i].id.clone(),
                enabled: l[i].enabled,
                config: l[i].config.clone(),
            },
        );
        i = i + 1;
    }
    assert(slot_views(out@) =~= slot_views(l@));
    out
}

fn clone_volumes(l: &Vec<Vec<String>>) -> (out: Vec<Vec<String>>)
    ensures
        views2(out@) == views2(l@),
{
    let mut out: Vec<Vec<String>> = Vec::new();
    let mut i: usize = 0;
    while i < l.len()
        invariant
            i <= l@.len(),
            out@.len() == i,
            forall|k: int| 0 <= k < i ==> views((#[trigger] out@[k])@) == views(l@[k]@),
        decreases l.len() - i,
    {
        out.push(crate::text::clone_strings(&l[i]));
        i = i + 1;
    }
    assert(views2(out@) =~= views2(l@));
    out
}

impl Clone for TaskConfig {
    fn clone(&self) -> (out: Self)
        ensures
            out@ == self@,
    {
        TaskConfig {
            volumes: clone_volumes(&self.volumes),
            max_threads: self.max_threads,
            max_per_volume: self.max_per_volume,
            max_split: self.max_split,
            cache: self.cache,
            headers: clone_pairs(&self.headers),
            name: clone_opt(&self.name),
            output_filename: clone_opt(&self.output_filename),
            auto_filename: self.auto_filename,
            rate_limit_bps: self.rate_limit_bps,
            rate_limit_algorithm: self.rate_limit_algorithm,
            persist: self.persist,
            plugins: clone_slots(&self.plugins),
            content_disposition: self.content_disposition,
            host_mappings: crate::hostmap::clone_rules(&self.host_mappings),
        }
    }
}

impl TaskConfig {
    /// The volumes without blank URLs and without those that have no other.
    pub fn effective_volumes(&self) -> (out: Vec<Vec<String>>)
        ensures
            views2(out@) == scrubbed(self@.volumes),
    {
        scrub(&self.volumes)
    }

    /// Every URL of the volumes once, in the order in which they first stand.
    pub fn flat_unique_urls(volumes: &Vec<Vec<String>>) -> (out: Vec<String>)
        ensures
            views(out@) == first_seen(all_urls(views2(volumes@))),
    {
        let mut out: Vec<String> = Vec::new();
        let ghost vols = views2(volumes@);
        let mut i: usize = 0;
        assert(views(out@) =~= first_seen(all_urls(vols.take(0))));
        while i < volumes.len()
            invariant
                i <= volumes@.len(),
                vols == views2(volumes@),
                views(out@) == first_seen(all_urls(vols.take(i as int))),
            decreases volumes.len() - i,
        {
            assert(vols.take(i + 1).drop_last() =~= vols.take(i as int));
            let ghost had = all_urls(vols.take(i as int));
            let ghost vol = views(volumes@[i as int]@);
            assert(vols.take(i + 1).last() == vol);
            assert(had + vol.take(0) =~= had);
            let mut j: usize = 0;
            while j < volumes[i as usize].len()
                invariant
                    i < volumes@.len(),
                    j <= volumes@[i as int]@.len(),
                    vol == views(volumes@[i as int]@),
                    views(out@) == first_seen(had + vol.take(j as int)),
                decreases volumes@[i as int]@.len() - j,
            {
                let ghost l = had + vol.take(j + 1);
                let s: String = volumes[i][j].clone();
                proof {
                    assert(l.drop_last() =~= had + vol.take(j as int));
                    assert(l.last() == s@);
                    lemma_first_seen_holds(l.drop_last(), s@);
                }
                if !in_list(&out, s.as_str()) {
                    let ghost before = out@;
                    out.push(s);
                    assert(views(out@) =~= views(before).push(s@));
                }
                j = j + 1;
            }
            assert(vol.take(vol.len() as int) =~= vol);
            i = i + 1;
        }
        assert(vols.take(vols.len() as int) =~= vols);
        out
    }

    /// Every URL of the task once.
    pub fn urls(&self) -> (out: Vec<String>)
        ensures
            views(out@) == first_seen(all_urls(self@.volumes)),
    {
        Self::flat_unique_urls(&self.volumes)
    }

    /// Brings the settings into shape.
    pub fn normalize(&mut self)
        ensures
            final(self)@ == old(self)@.normal(),
    {
        let volumes: Vec<Vec<String>> = self.effective_volumes();
        assert(views2(volumes@).len() == volumes@.len());
        self.max_threads = Self::derive_threads(self.max_per_volume, volumes.len());
        self.volumes = volumes;
        let rules: Vec<HostMapping> = keep_whole(&self.host_mappings);
        self.host_mappings = rules;
    }

    /// Checks the task's own rules.
    pub fn validate_host_mappings(&self) -> (out: Result<(), String>)
        ensures
            match out {
                Ok(_) => mapping_fault(self@.host_mappings) is None,
                Err(e) => mapping_fault(self@.host_mappings) == Some(e@),
            },
    {
        check_mappings(&self.host_mappings)
    }

    /// Checks the settings of a new task.
    pub fn validate(&self) -> (out: Result<(), String>)
        ensures
            match out {
                Ok(_) => self@.fault() is None,
                Err(e) => self@.fault() == Some(e@),
            },
    {
        if self.max_per_volume == 0 {
            return Err("max_per_volume must be >= 1".to_owned());
        }
        if self.max_split != 0 && self.max_split < MIN_SPLIT {
            return Err("max_split must be 0 (auto) or >= 64K".to_owned());
        }
        self.validate_host_mappings()
    }

    /// The number of threads: so many for each volume, within the limit.
    pub fn derive_threads(max_per_volume: usize, volumes: usize) -> (out: usize)
        ensures
            out == threads_for(max_per_volume as int, volumes as int),
            1 <= out <= MAX_THREADS,
    {
        let per: usize = if max_per_volume < 1 {
            1
        } else {
            max_per_volume
        };
        let n: usize = if volumes < 1 {
            1
        } else {
            volumes
        };
        proof {
            assert(per * n >= per && per * n >= n) by (nonlinear_arith)
                requires
                    per >= 1,
                    n >= 1,
            ;
        }
        if per >= MAX_THREADS || n >= MAX_THREADS {
            return MAX_THREADS;
        }
        proof {
            assert(per * n <= 128 * 128) by (nonlinear_arith)
                requires
                    per < 128,
                    n < 128,
                    per >= 1,
                    n >= 1,
            ;
        }
        let all: usize = per * n;
        if all > MAX_THREADS {
            MAX_THREADS
        } else {
            all
        }
    }
}

/// What a size in a request means.
pub open spec fn size_meant(v: SizeValue) -> Result<int, Seq<char>> {
    match v {
        SizeValue::Number(Some(n)) => Ok(n as int),
        SizeValue::Number(None) => Err("invalid number"@),
        SizeValue::Text(s) => size_asked(s@),
        _ => Err("expected number or string for size"@),
    }
}

/// Reads a size that has to be there.
pub fn deserialize_size(v: &SizeValue) -> (out: Result<u64, String>)
    ensures
        match (out, size_meant(*v)) {
            (Ok(n), Ok(m)) => n == m,
            (Err(e), Err(f)) => e@ == f,
            _ => false,
        },
{
    match v {
        SizeValue::Number(n) => match n {
            Some(n) => Ok(*n),
            None => Err("invalid number".to_owned()),
        },
        SizeValue::Text(s) => parse_size(s.as_str()),
        _ => Err("expected number or string for size".to_owned()),
    }
}

/// Reads a size that may be left out.
pub fn deserialize_opt_size(v: &SizeValue) -> (out: Result<Option<u64>, String>)
    ensures
        match (out, size_meant(*v)) {
            (Ok(None), _) => *v is Null,
            (Ok(Some(n)), Ok(m)) => !(*v is Null) && n == m,
            (Err(e), Err(f)) => !(*v is Null) && e@ == f,
            _ => false,
        },
{
    match v {
        SizeValue::Null => Ok(None),
        _ => match deserialize_size(v) {
            Ok(n) => Ok(Some(n)),
            Err(e) => Err(e),
        },
    }
}

/// Bringing settings into shape a second time changes nothing.
pub proof fn law_shaping_twice_is_shaping_once(c: ConfigView)
    ensures
        c.normal().normal() == c.normal(),
{
    lemma_scrubbed_again(c.volumes);
    lemma_whole_again(c.host_mappings);
}

proof fn lemma_written_again(l: Seq<Seq<char>>)
    ensures
        written(written(l)) == written(l),
    decreases l.len(),
{
    if l.len() > 0 {
        lemma_written_again(l.drop_last());
        if !blank(l.last()) {
            let w = written(l.drop_last());
            assert(w.push(l.last()).drop_last() =~= w);
        }
    }
}

proof fn lemma_scrubbed_again(l: Seq<Seq<Seq<char>>>)
    ensures
        scrubbed(scrubbed(l)) == scrubbed(l),
    decreases l.len(),
{
    if l.len() > 0 {
        lemma_scrubbed_again(l.drop_last());
        lemma_written_again(l.last());
        if written(l.last()).len() > 0 {
            let w = scrubbed(l.drop_last());
            assert(w.push(written(l.last())).drop_last() =~= w);
        }
    }
}

pub(crate) proof fn lemma_whole_again(l: Seq<RuleView>)
    ensures
        whole_rules(whole_rules(l)) == whole_rules(l),
    decreases l.len(),
{
    if l.len() > 0 {
        lemma_whole_again(l.drop_last());
        let w = whole_rules(l.drop_last());
        if !blank(l.last().from) && !blank(l.last().to) {
            assert(w.push(l.last()).drop_last() =~= w);
        }
    }
}

/// What is brought into shape holds no blank URL and no empty volume.
pub proof fn law_shaped_volumes_are_not_empty(l: Seq<Seq<Seq<char>>>, i: int)
    requires
        0 <= i < scrubbed(l).len(),
    ensures
        scrubbed(l)[i].len() > 0,
        forall|j: int| 0 <= j < scrubbed(l)[i].len() ==> !blank(#[trigger] scrubbed(l)[i][j]),
    decreases l.len(),
{
    if l.len() > 0 {
        let w = scrubbed(l.drop_last());
        if i < w.len() {
            law_shaped_volumes_are_not_empty(l.drop_last(), i);
        } else {
            lemma_written_not_blank(l.last());
        }
    }
}

proof fn lemma_written_not_blank(l: Seq<Seq<char>>)
    ensures
        forall|j: int| 0 <= j < written(l).len() ==> !blank(#[trigger] written(l)[j]),
    decreases l.len(),
{
    if l.len() > 0 {
        let w = written(l.drop_last());
        lemma_written_not_blank(l.drop_last());
        assert forall|j: int| 0 <= j < written(l).len() implies !blank(#[trigger] written(l)[j]) by {
            if j < w.len() {
                assert(written(l)[j] == w[j]);
            }
        }
    }
}

} // verus!
