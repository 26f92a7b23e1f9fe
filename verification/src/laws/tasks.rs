//! What is known of a task, and what is told of it.

use crate::cache::{bucket_count, is_summary};
use crate::dns::{described, mode_of};
use crate::download::{held_claim, is_kept_as, slots_that, JobView, PersistedDownload};
use crate::engine::{weight_in, weight_of};
use crate::error::ProxyError;
use crate::hostmap::RuleView;
use crate::models::{
    all_urls, begun_rules, blank, first_seen, mapping_fault, scrubbed, size_meant, whole_rules,
    ConfigView,
};
use crate::models::health::{shown_as, HealthView, UrlHealth};
use crate::models::persist::{is_restored, PersistedTask};
use crate::models::state::{
    informs, probed_size, SettingsState, SettingsUpdateView, TaskInfo, TaskSlot,
};
use crate::models::task::TaskEntry;
use crate::plugins::chacha20::SizeValue;
use crate::requests::says_no;
use crate::schedule::{first_live, held_by, Claim};
use vstd::prelude::*;

verus! {

/// Bringing settings into shape drops blank URLs, volumes without one and half-filled
/// rules, counts the threads anew and touches nothing else.
pub proof fn law_shaping_touches_nothing_else(c: ConfigView)
    ensures
        ({
            let n = c.normal();
            &&& n.volumes == scrubbed(c.volumes)
            &&& n.host_mappings == whole_rules(c.host_mappings)
            &&& 1 <= n.max_threads <= 128
            &&& n == (ConfigView {
                volumes: n.volumes,
                max_threads: n.max_threads,
                host_mappings: n.host_mappings,
                ..c
            })
        }),
{
    super::models::law_threads_follow_the_volumes(
        c.max_per_volume as int,
        scrubbed(c.volumes).len() as int,
    );
}

/// A task is refused for asking for no request at a time, for requests of less than 64
/// KiB, or for rules that cannot be read, and for nothing else.
pub proof fn law_a_task_is_refused_for_what_cannot_be(c: ConfigView)
    ensures
        c.fault() is None <==> c.max_per_volume >= 1 && (c.max_split == 0 || c.max_split >= 65536)
            && mapping_fault(c.host_mappings) is None,
{
}

/// A list without repetitions keeps the first of each, in the order in which they come.
pub proof fn law_the_first_of_equals_stays(l: Seq<Seq<char>>, s: Seq<char>)
    ensures
        first_seen(Seq::<Seq<char>>::empty()) == Seq::<Seq<char>>::empty(),
        l.contains(s) ==> first_seen(l.push(s)) == first_seen(l),
        !l.contains(s) ==> first_seen(l.push(s)) == first_seen(l).push(s),
{
    assert(l.push(s).drop_last() =~= l);
}

/// The URLs of volumes are those of each, one volume after another.
pub proof fn law_urls_come_volume_by_volume(l: Seq<Seq<Seq<char>>>, v: Seq<Seq<char>>)
    ensures
        all_urls(Seq::<Seq<Seq<char>>>::empty()) == Seq::<Seq<char>>::empty(),
        all_urls(l.push(v)) == all_urls(l) + v,
{
    assert(l.push(v).drop_last() =~= l);
}

/// Of the rules for all tasks only rows that are empty on both sides are dropped.
pub proof fn law_only_empty_rows_are_dropped(l: Seq<RuleView>, r: RuleView)
    ensures
        blank(r.from) && blank(r.to) ==> begun_rules(l.push(r)) == begun_rules(l),
        !blank(r.from) || !blank(r.to) ==> begun_rules(l.push(r)) == begun_rules(l).push(r),
        begun_rules(Seq::<RuleView>::empty()) == Seq::<RuleView>::empty(),
{
    assert(l.push(r).drop_last() =~= l);
}

/// A size in a task's settings is a number of bytes or a text with a unit, and nothing
/// else.
pub proof fn law_a_size_is_a_number_or_a_text(v: SizeValue, n: u64)
    ensures
        v == SizeValue::Number(Some(n)) ==> size_meant(v) == Ok::<int, Seq<char>>(n as int),
        v == SizeValue::Number(None) ==> size_meant(v) is Err,
        (v matches SizeValue::Text(s)) ==> size_meant(v) == crate::sizes::size_asked(v->Text_0@),
        !(v is Number) && !(v is Text) ==> size_meant(v) is Err,
{
}

/// A name server that is set is the one that is asked and the one that is saved, and
/// clients are made anew for it. New rules make them anew too.
pub proof fn law_a_new_name_server_is_asked(
    s: SettingsState,
    upd: SettingsUpdateView,
    checks: Seq<Option<Seq<char>>>,
    ready: Option<Seq<char>>,
)
    requires
        s.edited(upd, checks, ready).1 is None,
    ensures
        ({
            let a = s.edited(upd, checks, ready).0;
            &&& upd.dns is Some ==> {
                &&& mode_of(upd.dns) is Ok
                &&& a.settings.dns == described(mode_of(upd.dns)->Ok_0)
                &&& mode_of(upd.dns)->Ok_0 is System ==> a.hosts.dns is None && a.settings.dns
                    is None
                &&& mode_of(upd.dns)->Ok_0 is Dot ==> a.hosts.dns == Some(
                    mode_of(upd.dns)->Ok_0->Dot_0,
                ) && ready is None
            }
            &&& (upd.dns is Some) != (upd.host_mappings is Some) ==> a.hosts.generation
                != s.hosts.generation
            &&& upd.algorithm is None ==> a.settings.algorithm == s.settings.algorithm
            &&& upd.host_mappings is Some ==> mapping_fault(a.settings.host_mappings) is None
        }),
{
}

/// A task that comes back has served nothing yet and knows nothing yet but its URLs.
pub proof fn law_a_task_comes_back_fresh(t: TaskSlot, p: PersistedTask, clock: u64, i: int)
    requires
        is_restored(t, p, clock),
    ensures
        t.entry.bytes_served == 0,
        t.entry.active_connections == 0,
        t.entry@.probe is None,
        t.entry@.head_unsupported.len() == 0,
        t.entry@.wall.slot is None,
        t.entry@.config == p.config@.normal(),
        t.entry.created_at >= 1,
        t.entry.updated_at >= t.entry.created_at,
        t.entry@.health.len() == first_seen(all_urls(t.entry@.config.volumes)).len(),
        0 <= i < t.entry@.health.len() ==> t.entry@.health[i] == HealthView::fresh(
            first_seen(all_urls(t.entry@.config.volumes))[i],
        ),
{
}

/// What is told of a task is what is known of it, each under its own name.
pub proof fn law_a_task_is_told_as_it_is(
    out: TaskInfo,
    bind_addr: Seq<char>,
    id: Seq<char>,
    entry: TaskEntry,
    i: int,
)
    requires
        informs(out, bind_addr, id, entry),
    ensures
        out.task_id@ == id,
        out.proxy_url@ == "http://"@ + bind_addr + ("/stream/"@ + id),
        out.config@ == entry@.config,
        out.created_at == entry.created_at,
        out.updated_at == entry.updated_at,
        out.bytes_served == entry.bytes_served,
        out.active_connections == entry.active_connections,
        out.paused == entry.paused,
        out.speed_samples@ == entry.throughput.samples@,
        entry.throughput.samples@.len() > 0 ==> out.current_speed_bps
            == entry.throughput.samples@.last(),
        entry.throughput.samples@.len() == 0 ==> out.current_speed_bps == 0,
        out.url_health@.len() == entry@.health.len(),
        0 <= i < out.url_health@.len() ==> out.url_health@[i].url@ == entry@.health[i].url
            && out.url_health@[i].volume_size == probed_size(entry, entry@.health[i].url),
{
    if 0 <= i < out.url_health@.len() {
        assert(shown_as(
            out.url_health@[i],
            entry@.health[i],
            probed_size(entry, entry@.health[i].url),
        ));
    }
}

/// What is told of a URL is its record; a time or a latency of 0 means that there has
/// been none.
pub proof fn law_a_url_is_told_as_it_is(u: UrlHealth, h: HealthView, size: Option<u64>)
    requires
        shown_as(u, h, size),
    ensures
        u.url@ == h.url,
        u.last_status == h.last_status,
        u.bytes_contributed == h.bytes_contributed,
        u.successful_requests == h.successful_requests,
        u.failed_requests == h.failed_requests,
        u.current_speed_bps == h.current_speed_bps,
        u.in_flight_requests == h.in_flight_requests,
        u.volume_size == size,
        h.last_latency_ms > 0 ==> u.last_latency_ms == Some(h.last_latency_ms),
        h.last_latency_ms == 0 ==> u.last_latency_ms is None,
        h.last_used_at > 0 ==> u.last_used_at == Some(h.last_used_at),
        h.last_used_at == 0 ==> u.last_used_at is None,
{
}

/// A download is kept under its task, with its threads, and as running if it fetches
/// its file.
pub proof fn law_a_download_is_kept_as_it_runs(p: PersistedDownload, j: JobView)
    requires
        is_kept_as(p, j),
    ensures
        p.task_id@ == j.task_id,
        p.threads == j.threads,
        p.was_running <==> j.cache_requested,
{
}

/// When a claim ends, its worker holds it no longer. A good end and a refusal for load
/// cost nothing; any failure that is charged costs one of the budget, and with the
/// last one the download has failed and every worker is called off.
pub proof fn law_a_claim_ends_with_its_worker(
    j: JobView,
    worker: usize,
    claim: Claim,
    error: Option<ProxyError>,
    after: JobView,
    abort: Option<Vec<usize>>,
)
    requires
        j.ended(worker, claim, error, after, abort),
        j.failures < usize::MAX,
    ensures
        error is None || error->0.overloads() ==> abort is None && after.failures == j.failures
            && after.state == j.state && after.slots == j.slots,
        error is Some && error->0 is ContentChanged ==> after.failures == j.failures + 1,
        abort is Some <==> after.failures != j.failures && after.failures >= j.failure_budget,
        abort is Some ==> after.state is Failed && !after.cache_requested && (abort->0)@
            == slots_that(j.slots, false, j.slots.len() as int),
        abort is None ==> after.state == j.state && after.slots == j.slots
            && after.cache_requested == j.cache_requested,
        after.readers == j.readers,
        after.failures == j.failures || after.failures == j.failures + 1,
{
}

/// What ended is judged by the claim as it stood, not as it was handed out.
pub proof fn law_a_claim_is_judged_as_it_stands(
    s: crate::schedule::SchedulerView,
    worker: usize,
    handed: Claim,
)
    ensures
        (forall|k: int| 0 <= k < s.live.len() ==> (#[trigger] s.live[k]).worker != worker)
            ==> held_claim(s, worker, handed) == handed,
        (exists|k: int| 0 <= k < s.live.len() && (#[trigger] s.live[k]).worker == worker) ==> exists|
            k: int,
        |
            0 <= k < s.live.len() && (#[trigger] s.live[k]).worker == worker && held_claim(
                s,
                worker,
                handed,
            ) == s.live[k].claim,
{
    crate::schedule::lemma_first_live(s.live, held_by(worker), 0);
    let f = first_live(s.live, held_by(worker), 0);
    if exists|k: int| 0 <= k < s.live.len() && (#[trigger] s.live[k]).worker == worker {
        let k = choose|k: int| 0 <= k < s.live.len() && (#[trigger] s.live[k]).worker == worker;
        super::lessons::lemma_finds(s.live, held_by(worker), 0, k);
        assert(s.live[f->0].worker == worker);
    } else if f is Some {
        assert(s.live[f->0].worker == worker);
    }
}

/// A mirror is weighed by its own record, and one without a record weighs 100.
pub proof fn law_a_mirror_is_weighed_by_its_record(
    health: Seq<UrlHealth>,
    url: Seq<char>,
    k: int,
)
    ensures
        (forall|i: int| 0 <= i < health.len() ==> (#[trigger] health[i]).url@ != url) ==> weight_in(
            health,
            url,
        ) == 100,
        0 <= k < health.len() && health[k].url@ == url && (forall|i: int|
            0 <= i < k ==> (#[trigger] health[i]).url@ != url) ==> weight_in(health, url)
            == weight_of(
            health[k].current_speed_bps as int,
            health[k].failed_requests as int,
            health[k].successful_requests as int,
        ) as u64,
{
    lemma_health(health, url, 0, k);
}

proof fn lemma_health(health: Seq<UrlHealth>, url: Seq<char>, i: int, k: int)
    requires
        0 <= i,
    ensures
        (forall|j: int| i <= j < health.len() ==> (#[trigger] health[j]).url@ != url)
            ==> crate::engine::health_from(health, url, i) is None,
        i <= k < health.len() && health[k].url@ == url && (forall|j: int|
            i <= j < k ==> (#[trigger] health[j]).url@ != url) ==> crate::engine::health_from(
            health,
            url,
            i,
        ) == Some(k),
    decreases health.len() - i,
{
    if i < health.len() {
        lemma_health(health, url, i + 1, k);
    }
}

/// A summary has a figure for each block, or 128 figures where there are more blocks.
pub proof fn law_a_summary_is_no_longer_than_it_may_be(summary: Seq<u8>, bm: Seq<u8>, blocks: int)
    requires
        is_summary(summary, bm, blocks),
        0 <= blocks,
    ensures
        blocks <= 128 ==> summary.len() == blocks,
        blocks >= 128 ==> summary.len() == 128,
        0 < blocks ==> bucket_count(blocks, 1) == 1,
{
}

/// Only these words say no.
pub proof fn law_only_four_words_say_no(v: Seq<char>)
    ensures
        says_no("0"@),
        says_no("false"@),
        says_no("no"@),
        says_no("off"@),
        says_no(v) ==> v.len() == 1 || v.len() == 2 || v.len() == 3 || v.len() == 5,
        says_no(v) ==> v[0] == '0' || v[0] == 'f' || v[0] == 'n' || v[0] == 'o',
{
    reveal_strlit("0");
    reveal_strlit("false");
    reveal_strlit("no");
    reveal_strlit("off");
}

} // verus!
