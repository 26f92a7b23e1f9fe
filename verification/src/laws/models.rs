//! What becomes of tasks and settings.

use crate::hostmap::RuleView;
use crate::models::{all_urls, blank, first_seen, scrubbed, threads_for, whole_rules, written};
use crate::models::health::per_second;
use crate::models::state::{
    connections, is_listing, listed_before, served, task_from, to_resume, SettingsState,
    SettingsUpdateView, TaskSlot,
};
use crate::models::task::{record_from, EntryView, UpdateView};
use crate::text::{trimmed, white};
use vstd::prelude::*;

verus! {

/// A text is blank where it holds nothing but white space.
pub proof fn law_blank_is_white_space_alone(s: Seq<char>)
    ensures
        blank(s) <==> forall|i: int| 0 <= i < s.len() ==> white(#[trigger] s[i]),
{
    super::texts::law_trimming_takes_white_space_off(s);
    let (a, b) = choose|a: int, b: int|
        {
            &&& 0 <= a <= b <= s.len()
            &&& trimmed(s) == #[trigger] s.subrange(a, b)
            &&& forall|i: int| 0 <= i < a ==> white(#[trigger] s[i])
            &&& forall|i: int| b <= i < s.len() ==> white(#[trigger] s[i])
        };
    if !blank(s) {
        assert(trimmed(s)[0] == s[a]);
        assert(!white(s[a]));
    }
}

/// An edit that is taken in leaves every setting alone that it does not name, whatever
/// else it names, and sets every one that it names to what it asks for. The number of
/// threads follows from the others.
pub proof fn law_an_edit_changes_what_it_names(e: EntryView, upd: UpdateView, now: u64)
    requires
        e.edited(upd, now).1 is None,
    ensures
        ({
            let was = e.config;
            let c = e.edited(upd, now).0.config;
            &&& upd.volumes is None ==> c.volumes == was.volumes
            &&& upd.max_per_volume is None ==> c.max_per_volume == was.max_per_volume
            &&& upd.max_per_volume is Some ==> c.max_per_volume == upd.max_per_volume->0
            &&& upd.max_split is None ==> c.max_split == was.max_split
            &&& upd.max_split is Some ==> c.max_split == upd.max_split->0
            &&& upd.cache is None ==> c.cache == was.cache
            &&& upd.cache is Some ==> c.cache == upd.cache->0
            &&& upd.headers is None ==> c.headers == was.headers
            &&& upd.headers is Some ==> c.headers == upd.headers->0
            &&& upd.auto_filename is None ==> c.auto_filename == was.auto_filename
            &&& upd.auto_filename is Some ==> c.auto_filename == upd.auto_filename->0
            &&& upd.rate_limit_bps is None ==> c.rate_limit_bps == was.rate_limit_bps
            &&& upd.rate_limit_bps is Some ==> c.rate_limit_bps == upd.rate_limit_bps->0
            &&& upd.persist is None ==> c.persist == was.persist
            &&& upd.persist is Some ==> c.persist == upd.persist->0
            &&& upd.plugins is None ==> c.plugins == was.plugins
            &&& upd.plugins is Some ==> c.plugins == upd.plugins->0
            &&& upd.content_disposition is None ==> c.content_disposition
                == was.content_disposition
            &&& upd.content_disposition is Some ==> c.content_disposition
                == upd.content_disposition->0
        }),
{
}

/// The same of the names: an absent one is left alone, one that is there is set without
/// the white space round it, and one that is cleared or blank is no name.
pub proof fn law_an_edit_changes_the_names_it_names(e: EntryView, upd: UpdateView, now: u64)
    requires
        e.edited(upd, now).1 is None,
    ensures
        ({
            let was = e.config;
            let c = e.edited(upd, now).0.config;
            &&& upd.name is None ==> c.name == was.name
            &&& upd.name == Some(None::<Seq<char>>) ==> c.name is None
            &&& upd.name is Some && upd.name->0 is Some ==> if blank(upd.name->0->0) {
                c.name is None
            } else {
                c.name == Some(trimmed(upd.name->0->0))
            }
            &&& upd.output_filename is None ==> c.output_filename == was.output_filename
            &&& upd.output_filename == Some(None::<Seq<char>>) ==> c.output_filename is None
            &&& upd.output_filename is Some && upd.output_filename->0 is Some ==> if blank(
                upd.output_filename->0->0,
            ) {
                c.output_filename is None
            } else {
                c.output_filename == Some(trimmed(upd.output_filename->0->0))
            }
        }),
{
}

/// New volumes and new rules are taken in as they are asked for where nothing in them
/// is blank; rules that are not named are left alone unless new volumes bring the
/// settings into shape, which drops rows that are half filled in and nothing else.
pub proof fn law_an_edit_takes_volumes_and_rules_in(e: EntryView, upd: UpdateView, now: u64)
    requires
        e.edited(upd, now).1 is None,
    ensures
        ({
            let was = e.config;
            let c = e.edited(upd, now).0.config;
            &&& upd.volumes is Some && (forall|i: int|
                0 <= i < upd.volumes->0.len() ==> (#[trigger] upd.volumes->0[i]).len() > 0)
                && (forall|i: int, k: int|
                0 <= i < upd.volumes->0.len() && 0 <= k < upd.volumes->0[i].len() ==> !blank(
                    #[trigger] upd.volumes->0[i][k],
                )) ==> c.volumes == upd.volumes->0
            &&& upd.host_mappings is Some && (forall|i: int|
                0 <= i < upd.host_mappings->0.len() ==> !blank(
                    (#[trigger] upd.host_mappings->0[i]).from,
                ) && !blank(upd.host_mappings->0[i].to)) ==> c.host_mappings
                == upd.host_mappings->0
            &&& upd.host_mappings is None && upd.volumes is None ==> c.host_mappings
                == was.host_mappings
            &&& upd.host_mappings is None && (forall|i: int|
                0 <= i < was.host_mappings.len() ==> !blank(
                    (#[trigger] was.host_mappings[i]).from,
                ) && !blank(was.host_mappings[i].to)) ==> c.host_mappings == was.host_mappings
        }),
{
    if let Some(v) = upd.volumes {
        if (forall|i: int| 0 <= i < v.len() ==> (#[trigger] v[i]).len() > 0) && (forall|
            i: int,
            k: int,
        |
            0 <= i < v.len() && 0 <= k < v[i].len() ==> !blank(#[trigger] v[i][k])) {
            lemma_scrubbed_clean(v);
        }
    }
    lemma_whole_clean(e.config.host_mappings);
    if let Some(l) = upd.host_mappings {
        lemma_whole_clean(l);
    }
}

proof fn lemma_whole_clean(l: Seq<RuleView>)
    ensures
        whole_rules(l) == l.filter(|r: RuleView| !blank(r.from) && !blank(r.to)),
        (forall|i: int| 0 <= i < l.len() ==> !blank((#[trigger] l[i]).from) && !blank(l[i].to))
            ==> whole_rules(l) == l,
    decreases l.len(),
{
    reveal(Seq::filter);
    if l.len() > 0 {
        let f = l.drop_last();
        lemma_whole_clean(f);
        if forall|i: int| 0 <= i < l.len() ==> !blank((#[trigger] l[i]).from) && !blank(l[i].to) {
            assert forall|i: int| 0 <= i < f.len() implies !blank((#[trigger] f[i]).from)
                && !blank(f[i].to) by {
                assert(f[i] == l[i]);
            }
            assert(!blank(l[l.len() - 1].from) && !blank(l[l.len() - 1].to));
            assert(f.push(l.last()) =~= l);
        }
    } else {
        assert(whole_rules(l) =~= l);
        assert(whole_rules(l) =~= l.filter(|r: RuleView| !blank(r.from) && !blank(r.to)));
    }
}

/// Of the rules those are kept that are filled in at both ends, in their order.
pub proof fn law_half_filled_rows_are_dropped(l: Seq<RuleView>)
    ensures
        whole_rules(l) == l.filter(|r: RuleView| !blank(r.from) && !blank(r.to)),
{
    lemma_whole_clean(l);
}

/// Of the URLs those are kept that are not blank, in their order.
pub proof fn law_blank_urls_are_dropped(l: Seq<Seq<char>>)
    ensures
        written(l) == l.filter(|s: Seq<char>| !blank(s)),
        (forall|i: int| 0 <= i < l.len() ==> !blank(#[trigger] l[i])) ==> written(l) == l,
    decreases l.len(),
{
    reveal(Seq::filter);
    if l.len() > 0 {
        let f = l.drop_last();
        law_blank_urls_are_dropped(f);
        if forall|i: int| 0 <= i < l.len() ==> !blank(#[trigger] l[i]) {
            assert forall|i: int| 0 <= i < f.len() implies !blank(#[trigger] f[i]) by {
                assert(f[i] == l[i]);
            }
            assert(!blank(l[l.len() - 1]));
            assert(f.push(l.last()) =~= l);
        }
    } else {
        assert(written(l) =~= l);
        assert(written(l) =~= l.filter(|s: Seq<char>| !blank(s)));
    }
}

proof fn lemma_scrubbed_clean(v: Seq<Seq<Seq<char>>>)
    requires
        forall|i: int| 0 <= i < v.len() ==> (#[trigger] v[i]).len() > 0,
        forall|i: int, k: int|
            0 <= i < v.len() && 0 <= k < v[i].len() ==> !blank(#[trigger] v[i][k]),
    ensures
        scrubbed(v) == v,
    decreases v.len(),
{
    if v.len() > 0 {
        let f = v.drop_last();
        assert forall|i: int| 0 <= i < f.len() implies (#[trigger] f[i]).len() > 0 by {
            assert(f[i] == v[i]);
        }
        assert forall|i: int, k: int| 0 <= i < f.len() && 0 <= k < f[i].len() implies !blank(
            #[trigger] f[i][k],
        ) by {
            assert(!blank(v[i][k]));
        }
        lemma_scrubbed_clean(f);
        let l = v.last();
        assert forall|k: int| 0 <= k < l.len() implies !blank(#[trigger] l[k]) by {
            assert(!blank(v[v.len() - 1][k]));
        }
        law_blank_urls_are_dropped(l);
        assert(v[v.len() - 1].len() > 0);
        assert(f.push(l) =~= v);
    } else {
        assert(scrubbed(v) =~= v);
    }
}

/// Bringing volumes into shape loses no URL that is written, adds none, and keeps their
/// order.
pub proof fn law_shaping_keeps_every_written_url(v: Seq<Seq<Seq<char>>>)
    ensures
        all_urls(scrubbed(v)) == all_urls(v).filter(|s: Seq<char>| !blank(s)),
    decreases v.len(),
{
    reveal(Seq::filter);
    let keep = |s: Seq<char>| !blank(s);
    if v.len() > 0 {
        let f = v.drop_last();
        law_shaping_keeps_every_written_url(f);
        law_blank_urls_are_dropped(v.last());
        Seq::filter_distributes_over_add(all_urls(f), v.last(), keep);
        let w = written(v.last());
        if w.len() == 0 {
            assert(all_urls(scrubbed(f)) + w =~= all_urls(scrubbed(f)));
        } else {
            assert(scrubbed(f).push(w).drop_last() =~= scrubbed(f));
        }
    } else {
        assert(all_urls(scrubbed(v)) =~= all_urls(v).filter(keep));
    }
}

/// An edit is refused where it leaves no URL, asks for no request at a time, or for
/// requests of less than 64 KiB; a size of 0 means that none is set. An edit that asks
/// for none of that, and for no rules, is taken in.
pub proof fn law_an_edit_is_refused_for_what_cannot_be(upd: UpdateView)
    ensures
        upd.max_per_volume == Some(0usize) ==> upd.fault() is Some,
        upd.max_split is Some && 1 <= upd.max_split->0 <= 65535 ==> upd.fault() is Some,
        upd.volumes is Some && (forall|i: int, k: int|
            0 <= i < upd.volumes->0.len() && 0 <= k < upd.volumes->0[i].len() ==> blank(
                #[trigger] upd.volumes->0[i][k],
            )) ==> upd.fault() is Some,
        upd.host_mappings is None && upd.max_per_volume != Some(0usize) && (upd.max_split is None
            || upd.max_split->0 == 0 || upd.max_split->0 >= 65536) && (upd.volumes is None
            || exists|i: int, k: int|
            0 <= i < upd.volumes->0.len() && 0 <= k < upd.volumes->0[i].len() && !blank(
                #[trigger] upd.volumes->0[i][k],
            )) ==> upd.fault() is None,
{
    if let Some(v) = upd.volumes {
        lemma_scrubbed_empty(v);
    }
}

proof fn lemma_scrubbed_empty(v: Seq<Seq<Seq<char>>>)
    ensures
        scrubbed(v).len() == 0 <==> forall|i: int, k: int|
            0 <= i < v.len() && 0 <= k < v[i].len() ==> blank(#[trigger] v[i][k]),
    decreases v.len(),
{
    if v.len() > 0 {
        let f = v.drop_last();
        lemma_scrubbed_empty(f);
        lemma_written_empty(v.last());
        if scrubbed(v).len() == 0 {
            assert forall|i: int, k: int| 0 <= i < v.len() && 0 <= k < v[i].len() implies blank(
                #[trigger] v[i][k],
            ) by {
                if i < f.len() {
                    assert(blank(f[i][k]));
                } else {
                    assert(blank(v.last()[k]));
                }
            }
        }
        if forall|i: int, k: int|
            0 <= i < v.len() && 0 <= k < v[i].len() ==> blank(#[trigger] v[i][k]) {
            assert forall|i: int, k: int| 0 <= i < f.len() && 0 <= k < f[i].len() implies blank(
                #[trigger] f[i][k],
            ) by {
                assert(blank(v[i][k]));
            }
            assert forall|k: int| 0 <= k < v.last().len() implies blank(#[trigger] v.last()[k]) by {
                assert(blank(v[v.len() - 1][k]));
            }
        }
    }
}

proof fn lemma_written_empty(l: Seq<Seq<char>>)
    ensures
        written(l).len() == 0 <==> forall|k: int| 0 <= k < l.len() ==> blank(#[trigger] l[k]),
    decreases l.len(),
{
    if l.len() > 0 {
        lemma_written_empty(l.drop_last());
        if written(l).len() == 0 {
            assert forall|k: int| 0 <= k < l.len() implies blank(#[trigger] l[k]) by {
                if k < l.len() - 1 {
                    assert(blank(l.drop_last()[k]));
                }
            }
        }
        if forall|k: int| 0 <= k < l.len() ==> blank(#[trigger] l[k]) {
            assert forall|k: int| 0 <= k < l.drop_last().len() implies blank(
                #[trigger] l.drop_last()[k],
            ) by {
                assert(blank(l[k]));
            }
            assert(blank(l[l.len() - 1]));
        }
    }
}

/// A task has as many threads as its volumes may be asked by at a time, at least one
/// and at most 128.
pub proof fn law_threads_follow_the_volumes(per: int, volumes: int)
    ensures
        1 <= threads_for(per, volumes) <= 128,
        1 <= per && 1 <= volumes && per * volumes <= 128 ==> threads_for(per, volumes) == per
            * volumes,
        1 <= per && 1 <= volumes && per * volumes >= 128 ==> threads_for(per, volumes) == 128,
        threads_for(per, 0) == threads_for(per, 1),
        threads_for(0, volumes) == threads_for(1, volumes),
{
    let a = if per < 1 {
        1
    } else {
        per
    };
    let b = if volumes < 1 {
        1
    } else {
        volumes
    };
    assert(a * b >= 1) by (nonlinear_arith)
        requires
            a >= 1,
            b >= 1,
    ;
}

/// What an edit makes stale is forgotten, and nothing else: new volumes forget the
/// probe, the URLs that refuse HEAD and the learned sizes; new headers and new rules
/// forget the probe.
pub proof fn law_an_edit_forgets_what_it_makes_stale(e: EntryView, upd: UpdateView, now: u64)
    requires
        e.edited(upd, now).1 is None,
    ensures
        ({
            let a = e.edited(upd, now).0;
            &&& upd.volumes is Some || upd.headers is Some || upd.host_mappings is Some
                ==> a.probe is None
            &&& upd.volumes is None && upd.headers is None && upd.host_mappings is None ==> a.probe
                == e.probe
            &&& upd.volumes is Some ==> a.head_unsupported.len() == 0 && a.wall.slot is None
            &&& upd.volumes is None ==> a.head_unsupported == e.head_unsupported && a.wall == e.wall
                && a.health == e.health
        }),
{
}

/// After new volumes there is one record for each URL, in the order of the URLs: a URL
/// that stays keeps its record, and a new one has none yet.
pub proof fn law_records_follow_their_urls(e: EntryView, upd: UpdateView, now: u64, i: int)
    requires
        e.edited(upd, now).1 is None,
        upd.volumes is Some,
        0 <= i < e.edited(upd, now).0.health.len(),
    ensures
        ({
            let a = e.edited(upd, now).0;
            let h = a.health[i];
            &&& h.url == first_seen(all_urls(a.config.volumes))[i]
            &&& a.health.len() == first_seen(all_urls(a.config.volumes)).len()
            &&& (exists|k: int| 0 <= k < e.health.len() && (#[trigger] e.health[k]).url == h.url)
                ==> e.health.contains(h)
            &&& !(exists|k: int|
                0 <= k < e.health.len() && (#[trigger] e.health[k]).url == h.url) ==> {
                &&& h.bytes_contributed == 0
                &&& h.successful_requests == 0
                &&& h.failed_requests == 0
                &&& h.in_flight_requests == 0
                &&& h.current_speed_bps == 0
                &&& h.last_error is None
            }
        }),
{
    let a = e.edited(upd, now).0;
    let urls = first_seen(all_urls(a.config.volumes));
    assert(a.health[i] == record_from(e.health, urls[i], 0));
    lemma_record(e.health, urls[i], 0);
}

proof fn lemma_record(
    l: Seq<crate::models::health::HealthView>,
    url: Seq<char>,
    i: int,
)
    requires
        0 <= i,
    ensures
        record_from(l, url, i).url == url,
        (exists|k: int| i <= k < l.len() && (#[trigger] l[k]).url == url) ==> l.contains(
            record_from(l, url, i),
        ),
        !(exists|k: int| i <= k < l.len() && (#[trigger] l[k]).url == url) ==> record_from(
            l,
            url,
            i,
        ) == crate::models::health::HealthView::fresh(url),
    decreases l.len() - i,
{
    if i < l.len() {
        if l[i].url == url {
            assert(l.contains(l[i]));
        } else {
            lemma_record(l, url, i + 1);
        }
    }
}

/// An edit of the settings that is taken in leaves every setting alone that it does not
/// name and sets every one that it names; what is set of hosts is in force at once.
pub proof fn law_settings_change_as_they_are_named(
    s: SettingsState,
    upd: SettingsUpdateView,
    checks: Seq<Option<Seq<char>>>,
    ready: Option<Seq<char>>,
)
    requires
        s.edited(upd, checks, ready).1 is None,
    ensures
        ({
            let was = s.settings;
            let a = s.edited(upd, checks, ready).0;
            let c = a.settings;
            &&& upd.rate_bps is None ==> c.rate_bps == was.rate_bps
            &&& upd.rate_bps is Some ==> c.rate_bps == upd.rate_bps->0
            &&& upd.download_dir is None ==> c.download_dir == was.download_dir
            &&& upd.download_dir is Some ==> if blank(upd.download_dir->0) {
                c.download_dir is None
            } else {
                c.download_dir == Some(trimmed(upd.download_dir->0))
            }
            &&& upd.plugin_globals is None ==> c.plugin_globals == was.plugin_globals
            &&& upd.plugin_globals is Some ==> c.plugin_globals == upd.plugin_globals->0
            &&& upd.host_mappings is None ==> c.host_mappings == was.host_mappings
                && a.hosts.rules == s.hosts.rules
            &&& upd.host_mappings is Some ==> a.hosts.rules == c.host_mappings
            &&& upd.host_mappings is Some && (forall|i: int|
                0 <= i < upd.host_mappings->0.len() ==> !blank(
                    (#[trigger] upd.host_mappings->0[i]).from,
                )) ==> c.host_mappings == upd.host_mappings->0
            &&& upd.dns is None ==> c.dns == was.dns && a.hosts.dns == s.hosts.dns
            &&& upd.dns is None && upd.host_mappings is None ==> a.hosts == s.hosts
        }),
{
    if let Some(l) = upd.host_mappings {
        if forall|i: int| 0 <= i < l.len() ==> !blank((#[trigger] l[i]).from) {
            lemma_begun_clean(l);
        }
    }
}

proof fn lemma_begun_clean(l: Seq<RuleView>)
    requires
        forall|i: int| 0 <= i < l.len() ==> !blank((#[trigger] l[i]).from),
    ensures
        crate::models::begun_rules(l) == l,
    decreases l.len(),
{
    if l.len() > 0 {
        let f = l.drop_last();
        assert forall|i: int| 0 <= i < f.len() implies !blank((#[trigger] f[i]).from) by {
            assert(f[i] == l[i]);
        }
        lemma_begun_clean(f);
        assert(!blank(l[l.len() - 1].from));
        assert(f.push(l.last()) =~= l);
    } else {
        assert(crate::models::begun_rules(l) =~= l);
    }
}

/// Tasks are listed by the time of their last edit, the latest first, and by their ids
/// where that is the same; every task is listed once.
pub proof fn law_the_last_edited_task_comes_first(order: Seq<usize>, l: Seq<TaskSlot>, i: int, j: int)
    requires
        is_listing(order, l, l.len() as int),
        0 <= i < j < order.len(),
    ensures
        order.len() == l.len(),
        order[i] != order[j],
        order[i] < l.len() && order[j] < l.len(),
        l[order[i] as int].entry.updated_at >= l[order[j] as int].entry.updated_at,
        l[order[i] as int].entry.updated_at == l[order[j] as int].entry.updated_at
            ==> crate::order::bytes_le(
            vstd::utf8::encode_utf8(l[order[i] as int].id@),
            vstd::utf8::encode_utf8(l[order[j] as int].id@),
        ),
{
    assert(listed_before(l[order[i] as int], l[order[j] as int]));
}

/// A task is found under its id, and one that is not there is not found.
pub proof fn law_a_task_is_found_under_its_id(l: Seq<TaskSlot>, id: Seq<char>)
    ensures
        match task_from(l, id, 0) {
            Some(k) => 0 <= k < l.len() && l[k].id@ == id,
            None => forall|k: int| 0 <= k < l.len() ==> (#[trigger] l[k]).id@ != id,
        },
{
    lemma_found(l, id, 0);
}

proof fn lemma_found(l: Seq<TaskSlot>, id: Seq<char>, i: int)
    requires
        0 <= i,
    ensures
        match task_from(l, id, i) {
            Some(k) => i <= k < l.len() && l[k].id@ == id,
            None => forall|k: int| i <= k < l.len() ==> (#[trigger] l[k]).id@ != id,
        },
    decreases l.len() - i,
{
    if i < l.len() && l[i].id@ != id {
        lemma_found(l, id, i + 1);
    }
}

/// What all tasks serve is what each serves, added up: a task more adds its own, and
/// without tasks there is nothing.
pub proof fn law_tasks_add_up(a: Seq<TaskSlot>, b: Seq<TaskSlot>)
    ensures
        connections(a + b) == connections(a) + connections(b),
        served(a + b) == served(a) + served(b),
        forall|t: TaskSlot|
            connections(#[trigger] seq![t]) == t.entry.active_connections && served(seq![t])
                == t.entry.bytes_served,
    decreases b.len(),
{
    assert forall|t: TaskSlot| connections(#[trigger] seq![t]) == t.entry.active_connections
        && served(seq![t]) == t.entry.bytes_served by {
        let l = seq![t];
        assert(l.drop_last() =~= Seq::empty());
        assert(connections(l.drop_last()) == 0);
        assert(served(l.drop_last()) == 0);
    }
    if b.len() == 0 {
        assert(a + b =~= a);
    } else {
        law_tasks_add_up(a, b.drop_last());
        assert((a + b).drop_last() =~= a + b.drop_last());
        assert((a + b).last() == b.last());
    }
}

/// A coordinator is taken up again after a restart where it was running and its task is
/// still there.
pub proof fn law_what_was_running_goes_on(
    tasks: Seq<TaskSlot>,
    saved: Seq<crate::download::PersistedDownload>,
    n: int,
    i: int,
)
    requires
        0 <= i < n <= saved.len(),
        n <= usize::MAX,
    ensures
        to_resume(tasks, saved, n).contains(i as usize) <==> saved[i].was_running && exists|k: int|
            0 <= k < tasks.len() && (#[trigger] tasks[k]).id@ == saved[i].task_id@,
    decreases n,
{
    lemma_resume_bound(tasks, saved, n - 1);
    law_a_task_is_found_under_its_id(tasks, saved[n - 1].task_id@);
    let front = to_resume(tasks, saved, n - 1);
    let all = to_resume(tasks, saved, n);
    if i < n - 1 {
        law_what_was_running_goes_on(tasks, saved, n - 1, i);
        if front.contains(i as usize) {
            let k = choose|k: int| 0 <= k < front.len() && front[k] == i as usize;
            assert(all[k] == front[k]);
        }
        if all.contains(i as usize) {
            let k = choose|k: int| 0 <= k < all.len() && all[k] == i as usize;
            if k == front.len() {
                assert(all[k] == (n - 1) as usize);
            } else {
                assert(all[k] == front[k]);
            }
        }
    } else {
        if all.len() > front.len() {
            assert(all[front.len() as int] == i as usize);
        }
        if all.contains(i as usize) && all.len() == front.len() {
            let k = choose|k: int| 0 <= k < all.len() && all[k] == i as usize;
            assert(front[k] < n - 1);
        }
    }
}

proof fn lemma_resume_bound(
    tasks: Seq<TaskSlot>,
    saved: Seq<crate::download::PersistedDownload>,
    n: int,
)
    requires
        0 <= n <= usize::MAX,
    ensures
        forall|k: int|
            0 <= k < to_resume(tasks, saved, n).len() ==> (#[trigger] to_resume(tasks, saved, n)[k])
                < n,
    decreases n,
{
    if n > 0 {
        lemma_resume_bound(tasks, saved, n - 1);
        let front = to_resume(tasks, saved, n - 1);
        let all = to_resume(tasks, saved, n);
        assert forall|k: int| 0 <= k < all.len() implies (#[trigger] all[k]) < n by {
            if k < front.len() {
                assert(all[k] == front[k]);
            }
        }
    }
}

/// A rate is what would come in a second: so many bytes in a second are so many a
/// second, and over a longer time the bytes are the rate times the time, but for what
/// is rounded off.
pub proof fn law_a_rate_is_bytes_over_time(bytes: int, ns: int)
    requires
        0 <= bytes,
    ensures
        0 <= bytes <= u64::MAX ==> per_second(bytes, 1_000_000_000) == bytes,
        1_000_000 <= ns && bytes * 1_000_000_000 / ns <= u64::MAX ==> per_second(bytes, ns) * ns
            <= bytes * 1_000_000_000 < (per_second(bytes, ns) + 1) * ns,
        ns < 1_000_000 ==> per_second(bytes, ns) == per_second(bytes, 1_000_000),
{
    vstd::arithmetic::div_mod::lemma_div_multiples_vanish(bytes, 1_000_000_000);
    if 1_000_000 <= ns {
        let x = bytes * 1_000_000_000;
        vstd::arithmetic::div_mod::lemma_fundamental_div_mod(x, ns);
        let q = x / ns;
        assert(q * ns <= x < (q + 1) * ns) by (nonlinear_arith)
            requires
                x == ns * q + x % ns,
                0 <= x % ns < ns,
        ;
    }
}

} // verus!
