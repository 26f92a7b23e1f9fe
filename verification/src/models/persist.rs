//! What outlives a restart, and the ids of tasks.

use super::state::{AppState, SettingsView, TaskSlot};
use super::task::{carried, EntryView, TaskEntry};
use super::{
    all_urls, first_seen, pair_views, Algorithm, ConfigView, ContentDispositionMode, SlotView,
    TaskConfig,
};
use crate::cache::encoded;
use crate::download::PersistedDownload;
use crate::hostmap::{rule_views, HostMapping, RuleView};
use crate::num::imax;
use crate::order::{in_order, sorted_texts, utf8_views};
use crate::plugins::TaskPluginConfig;
use crate::schedule::ClaimWall;
use crate::text::{opt_view, push_char, views, views2};
use std::collections::hash_map::DefaultHasher;
use std::hash::Hasher;
use vstd::prelude::*;
use vstd::std_specs::hash::DefaultHasherAdditionalSpecFns;
use vstd::string::*;
use vstd::utf8::*;

verus! {

/// A task as it is saved.
pub struct PersistedTask {
    pub id: String,
    pub config: TaskConfig,
    pub created_at: u64,
    /// 0 in files from before edits were tracked.
    pub updated_at: u64,
    pub paused: bool,
}

/// A saved task stands for a task at work.
pub open spec fn is_saved_as(p: PersistedTask, t: TaskSlot) -> bool {
    &&& p.id@ == t.id@
    &&& p.config@ == t.entry@.config
    &&& p.created_at == t.entry.created_at
    &&& p.updated_at == t.entry.updated_at
    &&& p.paused == t.entry.paused
}

/// The tasks that are saved.
pub open spec fn lasting(l: Seq<TaskSlot>) -> Seq<TaskSlot>
    decreases l.len(),
{
    if l.len() == 0 {
        Seq::empty()
    } else if l.last().entry@.config.persist {
        lasting(l.drop_last()).push(l.last())
    } else {
        lasting(l.drop_last())
    }
}

/// Brings a saved task back to work. Its times are those that were saved; a task
/// without a time of its last edit was last edited when it was made.
pub fn restore_task(p: PersistedTask, now: u64, clock: u64) -> (out: TaskSlot)
    ensures
        is_restored(out, p, clock),
        out.entry@.wf(),
{
    let mut entry: TaskEntry = TaskEntry::new(p.config, now, clock);
    let created_at: u64 = p.created_at.max(1);
    entry.paused = p.paused;
    entry.created_at = created_at;
    entry.updated_at = p.updated_at.max(created_at);
    TaskSlot { id: p.id, entry }
}

impl AppState {
    /// The tasks as they are saved.
    pub fn persisted_tasks(&self) -> (out: Vec<PersistedTask>)
        ensures
            out@.len() == lasting(self.tasks@).len(),
            forall|i: int|
                0 <= i < out@.len() ==> is_saved_as(#[trigger] out@[i], lasting(self.tasks@)[i]),
    {
        let mut out: Vec<PersistedTask> = Vec::new();
        let mut i: usize = 0;
        while i < self.tasks.len()
            invariant
                i <= self.tasks@.len(),
                out@.len() == lasting(self.tasks@.take(i as int)).len(),
                forall|k: int|
                    0 <= k < out@.len() ==> is_saved_as(
                        #[trigger] out@[k],
                        lasting(self.tasks@.take(i as int))[k],
                    ),
            decreases self.tasks.len() - i,
        {
            assert(self.tasks@.take(i + 1).drop_last() =~= self.tasks@.take(i as int));
            if self.tasks[i].entry.config.persist {
                let config: TaskConfig = self.tasks[i].entry.config_snapshot();
                out.push(
                    PersistedTask {
                        id: self.tasks[i].id.clone(),
                        config,
                        created_at: self.tasks[i].entry.created_at,
                        updated_at: self.tasks[i].entry.updated_at,
                        paused: self.tasks[i].entry.paused,
                    },
                );
            }
            i = i + 1;
        }
        assert(self.tasks@.take(self.tasks@.len() as int) =~= self.tasks@);
        out
    }

    /// Brings the saved tasks back to work; their number is returned. A task takes
    /// the place of one of the same id, and the others stay as they are; new ones come
    /// behind them, in the order in which they were saved.
    pub fn restore_tasks(&mut self, tasks: Vec<PersistedTask>, now: u64, clock: u64) -> (out: usize)
        requires
            old(self).wf(),
        ensures
            final(self).wf(),
            final(self).same_tasks(AppState { tasks: final(self).tasks, ..*old(self) }),
            final(self).settings == old(self).settings,
            final(self).hosts == old(self).hosts,
            out == tasks@.len(),
            ids_of(final(self).tasks@) == ids_with(
                ids_of(old(self).tasks@),
                tasks@,
                tasks@.len() as int,
            ),
            forall|i: int|
                0 <= i < final(self).tasks@.len() ==> is_brought_back(
                    old(self).tasks@,
                    tasks@,
                    tasks@.len() as int,
                    clock,
                    i,
                    #[trigger] final(self).tasks@[i],
                ),
    {
        let mut tasks: Vec<PersistedTask> = tasks;
        let count: usize = tasks.len();
        let ghost all = tasks@;
        let ghost had = self.tasks@;
        let ghost mut at: int = 0;
        assert(all.skip(0) =~= all);
        while tasks.len() > 0
            invariant
                self.wf(),
                0 <= at <= all.len(),
                count == all.len(),
                tasks@ == all.skip(at),
                had == old(self).tasks@,
                self.same_tasks(AppState { tasks: self.tasks, ..*old(self) }),
                self.settings == old(self).settings,
                self.hosts == old(self).hosts,
                ids_of(self.tasks@) == ids_with(ids_of(had), all, at),
                forall|i: int|
                    0 <= i < self.tasks@.len() ==> is_brought_back(
                        had,
                        all,
                        at,
                        clock,
                        i,
                        #[trigger] self.tasks@[i],
                    ),
            decreases tasks@.len(),
        {
            let p: PersistedTask = tasks.remove(0);
            proof {
                assert(p == all[at]);
                assert(tasks@ =~= all.skip(at + 1));
            }
            let slot: TaskSlot = restore_task(p, now, clock);
            let ghost before = self.tasks@;
            let ghost id = slot.id@;
            proof {
                lemma_task_from(before, id, 0);
            }
            self.insert(slot.id, slot.entry);
            proof {
                let after = self.tasks@;
                let ids = ids_of(before);
                match super::state::task_from(before, id, 0) {
                    Some(k) => {
                        assert(ids[k] == id);
                        assert(ids.contains(id));
                        assert(ids_of(after) =~= ids);
                    },
                    None => {
                        assert(!ids.contains(id)) by {
                            if ids.contains(id) {
                                let k = choose|k: int| 0 <= k < ids.len() && ids[k] == id;
                                assert(before[k].id@ == id);
                            }
                        }
                        assert(ids_of(after) =~= ids.push(id));
                    },
                }
                assert forall|i: int| 0 <= i < after.len() implies is_brought_back(
                    had,
                    all,
                    at + 1,
                    clock,
                    i,
                    #[trigger] after[i],
                ) by {
                    if after[i].id@ == id {
                        match super::state::task_from(before, id, 0) {
                            Some(k) => {
                                if i < k {
                                    assert(after[i].id@ != after[k].id@);
                                } else if k < i {
                                    assert(after[k].id@ != after[i].id@);
                                }
                            },
                            None => {
                                if i < before.len() {
                                    assert(before[i] == after[i]);
                                }
                            },
                        }
                    } else {
                        assert(after[i] == before[i]);
                        assert(is_brought_back(had, all, at, clock, i, before[i]));
                    }
                }
                at = at + 1;
            }
        }
        count
    }
}

/// The ids of the tasks.
pub open spec fn ids_of(l: Seq<TaskSlot>) -> Seq<Seq<char>> {
    l.map_values(|t: TaskSlot| t.id@)
}

/// The ids with those of the first `n` saved tasks, each once, behind them.
pub open spec fn ids_with(ids: Seq<Seq<char>>, l: Seq<PersistedTask>, n: int) -> Seq<Seq<char>>
    decreases n,
{
    if n <= 0 {
        ids
    } else {
        let front = ids_with(ids, l, n - 1);
        if front.contains(l[n - 1].id@) {
            front
        } else {
            front.push(l[n - 1].id@)
        }
    }
}

/// The last of the first `n` saved tasks that has this id.
pub open spec fn last_saved(l: Seq<PersistedTask>, id: Seq<char>, n: int) -> Option<int>
    decreases n,
{
    if n <= 0 {
        None
    } else if l[n - 1].id@ == id {
        Some(n - 1)
    } else {
        last_saved(l, id, n - 1)
    }
}

/// Task `i` came from the last saved one of its id, or is what it was before.
pub open spec fn is_brought_back(
    before: Seq<TaskSlot>,
    l: Seq<PersistedTask>,
    n: int,
    clock: u64,
    i: int,
    t: TaskSlot,
) -> bool {
    match last_saved(l, t.id@, n) {
        Some(k) => is_restored(t, l[k], clock),
        None => i < before.len() && t == before[i],
    }
}

/// A task at work came from a saved one: its settings and times are those that were
/// saved, and nothing has been served or learned yet.
pub open spec fn is_restored(t: TaskSlot, p: PersistedTask, clock: u64) -> bool {
    &&& t.id@ == p.id@
    &&& t.entry@ == (EntryView {
        config: p.config@.normal(),
        updated_at: imax(p.updated_at as int, imax(p.created_at as int, 1)) as u64,
        health: carried(Seq::empty(), first_seen(all_urls(p.config@.normal().volumes))),
        probe: None,
        head_unsupported: Seq::empty(),
        wall: ClaimWall { slot: None, now: 0 },
    })
    &&& t.entry.created_at == imax(p.created_at as int, 1)
    &&& t.entry.paused == p.paused
    &&& t.entry.bytes_served == 0
    &&& t.entry.active_connections == 0
    &&& t.entry.throughput.wf()
    &&& t.entry.throughput.samples@.len() == 0
    &&& t.entry.window_bytes == 0
    &&& t.entry.last_sample == clock
}

proof fn lemma_task_from(l: Seq<TaskSlot>, id: Seq<char>, i: int)
    requires
        0 <= i,
    ensures
        super::state::task_from(l, id, i) matches Some(k) ==> i <= k < l.len() && l[k].id@ == id,
        super::state::task_from(l, id, i) is None ==> forall|k: int|
            i <= k < l.len() ==> (#[trigger] l[k]).id@ != id,
    decreases l.len() - i,
{
    if i < l.len() && l[i].id@ != id {
        lemma_task_from(l, id, i + 1);
    }
}

/// A task that is saved and brought back is the same task: same id, settings,
/// times and state.
pub proof fn law_a_saved_task_comes_back(
    t: TaskSlot,
    p: PersistedTask,
    back: TaskSlot,
    clock: u64,
)
    requires
        is_saved_as(p, t),
        is_restored(back, p, clock),
        t.entry@.config.normal() == t.entry@.config,
        1 <= t.entry.created_at <= t.entry.updated_at,
    ensures
        back.id@ == t.id@,
        back.entry@.config == t.entry@.config,
        back.entry.created_at == t.entry.created_at,
        back.entry.updated_at == t.entry.updated_at,
        back.entry.paused == t.entry.paused,
{
}

/// Eight bytes, the low one first.
pub open spec fn le8(n: u64) -> Seq<u8> {
    seq![
        (n % 256) as u8,
        (n / 0x100 % 256) as u8,
        (n / 0x1_0000 % 256) as u8,
        (n / 0x100_0000 % 256) as u8,
        (n / 0x1_0000_0000 % 256) as u8,
        (n / 0x100_0000_0000 % 256) as u8,
        (n / 0x1_0000_0000_0000 % 256) as u8,
        (n / 0x100_0000_0000_0000 % 256) as u8,
    ]
}

pub open spec fn flag_write(b: bool) -> Seq<Seq<u8>> {
    seq![
        seq![
            if b {
                1u8
            } else {
                0u8
            },
        ],
    ]
}

pub open spec fn text_writes(s: Seq<char>) -> Seq<Seq<u8>> {
    seq![encode_utf8(s), seq![255u8]]
}

pub open spec fn opt_writes(s: Option<Seq<char>>) -> Seq<Seq<u8>> {
    match s {
        Some(t) => flag_write(true) + text_writes(t),
        None => flag_write(false),
    }
}

/// Some text after another.
pub open spec fn texts_writes(l: Seq<Seq<char>>) -> Seq<Seq<u8>>
    decreases l.len(),
{
    if l.len() == 0 {
        Seq::empty()
    } else {
        texts_writes(l.drop_last()) + text_writes(l.last())
    }
}

/// The volumes, each behind a bar.
pub open spec fn volumes_writes(l: Seq<Seq<Seq<char>>>) -> Seq<Seq<u8>>
    decreases l.len(),
{
    if l.len() == 0 {
        Seq::empty()
    } else {
        volumes_writes(l.drop_last()) + (seq![seq![124u8]] + texts_writes(l.last()))
    }
}

pub open spec fn pairs_writes(l: Seq<(Seq<char>, Seq<char>)>) -> Seq<Seq<u8>>
    decreases l.len(),
{
    if l.len() == 0 {
        Seq::empty()
    } else {
        pairs_writes(l.drop_last()) + (text_writes(l.last().0) + text_writes(l.last().1))
    }
}

pub open spec fn rules_writes(l: Seq<RuleView>) -> Seq<Seq<u8>>
    decreases l.len(),
{
    if l.len() == 0 {
        Seq::empty()
    } else {
        rules_writes(l.drop_last()) + (text_writes(l.last().from) + text_writes(l.last().to)
            + flag_write(l.last().enabled))
    }
}

pub open spec fn slots_writes(l: Seq<SlotView>) -> Seq<Seq<u8>>
    decreases l.len(),
{
    if l.len() == 0 {
        Seq::empty()
    } else {
        slots_writes(l.drop_last()) + (text_writes(l.last().id) + flag_write(l.last().enabled)
            + text_writes(l.last().config))
    }
}

pub open spec fn algorithm_code(a: Algorithm) -> u8 {
    match a {
        Algorithm::TokenBucket => 0,
    }
}

pub open spec fn disposition_code(m: ContentDispositionMode) -> u8 {
    match m {
        ContentDispositionMode::Auto => 0,
        ContentDispositionMode::Inline => 1,
        ContentDispositionMode::Attachment => 2,
    }
}

/// Which task it is, and where its bytes come from.
pub open spec fn origin_writes(id: Seq<char>, updated_at: u64, c: ConfigView) -> Seq<Seq<u8>> {
    text_writes(id) + seq![le8(updated_at)] + volumes_writes(c.volumes)
}

/// How the task fetches and keeps.
pub open spec fn limit_writes(c: ConfigView) -> Seq<Seq<u8>> {
    seq![
        le8(c.max_threads as u64),
        le8(c.max_per_volume as u64),
        le8(c.max_split),
    ] + flag_write(c.cache) + seq![
        le8(c.rate_limit_bps),
        seq![algorithm_code(c.rate_limit_algorithm)],
    ]
}

/// How the task calls its file.
pub open spec fn name_writes(c: ConfigView) -> Seq<Seq<u8>> {
    opt_writes(c.name) + opt_writes(c.output_filename) + flag_write(c.auto_filename)
}

/// The lists that the task carries.
pub open spec fn list_writes(c: ConfigView) -> Seq<Seq<u8>> {
    pairs_writes(c.headers) + rules_writes(c.host_mappings) + slots_writes(c.plugins)
}

/// What a task that is saved adds to the fingerprint.
pub open spec fn task_writes(id: Seq<char>, updated_at: u64, c: ConfigView, paused: bool) -> Seq<
    Seq<u8>,
> {
    origin_writes(id, updated_at, c) + limit_writes(c) + name_writes(c) + list_writes(c) + seq![
        seq![disposition_code(c.content_disposition)],
    ] + flag_write(paused)
}

/// What the first `n` tasks add to the fingerprint.
pub open spec fn tasks_writes(l: Seq<TaskSlot>, n: int) -> Seq<Seq<u8>>
    decreases n,
{
    if n <= 0 {
        Seq::empty()
    } else {
        let t = l[n - 1];
        if t.entry@.config.persist {
            tasks_writes(l, n - 1) + task_writes(
                t.id@,
                t.entry.updated_at,
                t.entry@.config,
                t.entry.paused,
            )
        } else {
            tasks_writes(l, n - 1)
        }
    }
}

/// The first value under a key, from pair `i` on.
pub open spec fn value_from(l: Seq<(Seq<char>, Seq<char>)>, key: Seq<u8>, i: int) -> Option<Seq<char>>
    decreases l.len() - i,
{
    if i < 0 || i >= l.len() {
        None
    } else if encode_utf8(l[i].0) == key {
        Some(l[i].1)
    } else {
        value_from(l, key, i + 1)
    }
}

/// The first `n` keys and their values.
pub open spec fn globals_writes(keys: Seq<Seq<u8>>, l: Seq<(Seq<char>, Seq<char>)>, n: int) -> Seq<
    Seq<u8>,
>
    decreases n,
{
    if n <= 0 {
        Seq::empty()
    } else {
        globals_writes(keys, l, n - 1) + seq![keys[n - 1], seq![255u8]] + match value_from(
            l,
            keys[n - 1],
            0,
        ) {
            Some(v) => text_writes(v),
            None => Seq::empty(),
        }
    }
}

/// What the settings add to the fingerprint. The plugins' settings come in the
/// order of their ids.
pub open spec fn settings_writes(s: SettingsView) -> Seq<Seq<u8>> {
    let keys = in_order(encoded(s.plugin_globals.map_values(|p: (Seq<char>, Seq<char>)| p.0)));
    seq![le8(s.rate_bps), seq![algorithm_code(s.algorithm)]] + globals_writes(
        keys,
        s.plugin_globals,
        keys.len() as int,
    ) + opt_writes(s.download_dir) + rules_writes(s.host_mappings) + opt_writes(s.dns)
}

fn hash_flag(h: &mut DefaultHasher, b: bool)
    ensures
        final(h)@ == old(h)@ + flag_write(b),
{
    let bytes: [u8; 1] = [if b {
        1
    } else {
        0
    }];
    let ghost was = h@;
    h.write(&bytes);
    assert(bytes@ =~= flag_write(b)[0]);
    assert(h@ =~= was + flag_write(b));
}

fn hash_byte(h: &mut DefaultHasher, b: u8)
    ensures
        final(h)@ == old(h)@ + seq![seq![b]],
{
    let bytes: [u8; 1] = [b];
    let ghost was = h@;
    h.write(&bytes);
    assert(bytes@ =~= seq![b]);
    assert(h@ =~= was + seq![seq![b]]);
}

fn hash_number(h: &mut DefaultHasher, n: u64)
    ensures
        final(h)@ == old(h)@ + seq![le8(n)],
{
    let bytes: [u8; 8] = [
        (n % 256) as u8,
        (n / 0x100 % 256) as u8,
        (n / 0x1_0000 % 256) as u8,
        (n / 0x100_0000 % 256) as u8,
        (n / 0x1_0000_0000 % 256) as u8,
        (n / 0x100_0000_0000 % 256) as u8,
        (n / 0x1_0000_0000_0000 % 256) as u8,
        (n / 0x100_0000_0000_0000 % 256) as u8,
    ];
    let ghost was = h@;
    h.write(&bytes);
    assert(bytes@ =~= le8(n));
    assert(h@ =~= was + seq![le8(n)]);
}

fn hash_text(h: &mut DefaultHasher, s: &str)
    ensures
        final(h)@ == old(h)@ + text_writes(s@),
{
    let end: [u8; 1] = [255];
    let ghost was = h@;
    h.write(s.as_bytes());
    h.write(&end);
    assert(end@ =~= seq![255u8]);
    assert(h@ =~= was + text_writes(s@));
}

fn hash_opt(h: &mut DefaultHasher, s: &Option<String>)
    ensures
        final(h)@ == old(h)@ + opt_writes(opt_view(*s)),
{
    let ghost was = h@;
    match s {
        Some(t) => {
            hash_flag(h, true);
            hash_text(h, t.as_str());
            assert(h@ =~= was + opt_writes(opt_view(*s)));
        },
        None => {
            hash_flag(h, false);
        },
    }
}

fn hash_texts(h: &mut DefaultHasher, l: &Vec<String>)
    ensures
        final(h)@ == old(h)@ + texts_writes(views(l@)),
{
    let ghost was = h@;
    let ghost all = views(l@);
    let mut i: usize = 0;
    assert(h@ =~= was + texts_writes(all.take(0)));
    while i < l.len()
        invariant
            i <= l@.len(),
            all == views(l@),
            h@ == was + texts_writes(all.take(i as int)),
        decreases l.len() - i,
    {
        hash_text(h, l[i].as_str());
        proof {
            assert(all.take(i + 1).drop_last() =~= all.take(i as int));
            assert(all.take(i + 1).last() == l@[i as int]@);
            assert(h@ =~= was + texts_writes(all.take(i + 1)));
        }
        i = i + 1;
    }
    assert(all.take(all.len() as int) =~= all);
}

fn hash_volumes(h: &mut DefaultHasher, l: &Vec<Vec<String>>)
    ensures
        final(h)@ == old(h)@ + volumes_writes(views2(l@)),
{
    let ghost was = h@;
    let ghost all = views2(l@);
    let mut i: usize = 0;
    assert(h@ =~= was + volumes_writes(all.take(0)));
    while i < l.len()
        invariant
            i <= l@.len(),
            all == views2(l@),
            h@ == was + volumes_writes(all.take(i as int)),
        decreases l.len() - i,
    {
        hash_byte(h, 124);
        hash_texts(h, &l[i]);
        proof {
            assert(all.take(i + 1).drop_last() =~= all.take(i as int));
            assert(all.take(i + 1).last() == views(l@[i as int]@));
            assert(h@ =~= was + volumes_writes(all.take(i + 1)));
        }
        i = i + 1;
    }
    assert(all.take(all.len() as int) =~= all);
}

fn hash_pairs(h: &mut DefaultHasher, l: &Vec<(String, String)>)
    ensures
        final(h)@ == old(h)@ + pairs_writes(pair_views(l@)),
{
    let ghost was = h@;
    let ghost all = pair_views(l@);
    let mut i: usize = 0;
    assert(h@ =~= was + pairs_writes(all.take(0)));
    while i < l.len()
        invariant
            i <= l@.len(),
            all == pair_views(l@),
            h@ == was + pairs_writes(all.take(i as int)),
        decreases l.len() - i,
    {
        hash_text(h, l[i].0.as_str());
        hash_text(h, l[i].1.as_str());
        proof {
            assert(all.take(i + 1).drop_last() =~= all.take(i as int));
            assert(all.take(i + 1).last() == (l@[i as int].0@, l@[i as int].1@));
            assert(h@ =~= was + pairs_writes(all.take(i + 1)));
        }
        i = i + 1;
    }
    assert(all.take(all.len() as int) =~= all);
}

fn hash_rules(h: &mut DefaultHasher, l: &Vec<HostMapping>)
    ensures
        final(h)@ == old(h)@ + rules_writes(rule_views(l@)),
{
    let ghost was = h@;
    let ghost all = rule_views(l@);
    let mut i: usize = 0;
    assert(h@ =~= was + rules_writes(all.take(0)));
    while i < l.len()
        invariant
            i <= l@.len(),
            all == rule_views(l@),
            h@ == was + rules_writes(all.take(i as int)),
        decreases l.len() - i,
    {
        hash_text(h, l[i].from.as_str());
        hash_text(h, l[i].to.as_str());
        hash_flag(h, l[i].enabled);
        proof {
            assert(all.take(i + 1).drop_last() =~= all.take(i as int));
            assert(all.take(i + 1).last() == l@[i as int]@);
            assert(h@ =~= was + rules_writes(all.take(i + 1)));
        }
        i = i + 1;
    }
    assert(all.take(all.len() as int) =~= all);
}

fn hash_slots(h: &mut DefaultHasher, l: &Vec<TaskPluginConfig>)
    ensures
        final(h)@ == old(h)@ + slots_writes(super::slot_views(l@)),
{
    let ghost was = h@;
    let ghost all = super::slot_views(l@);
    let mut i: usize = 0;
    assert(h@ =~= was + slots_writes(all.take(0)));
    while i < l.len()
        invariant
            i <= l@.len(),
            all == super::slot_views(l@),
            h@ == was + slots_writes(all.take(i as int)),
        decreases l.len() - i,
    {
        hash_text(h, l[i].id.as_str());
        hash_flag(h, l[i].enabled);
        hash_text(h, l[i].config.as_str());
        proof {
            assert(all.take(i + 1).drop_last() =~= all.take(i as int));
            assert(all.take(i + 1).last() == super::slot_view(l@[i as int]));
            assert(h@ =~= was + slots_writes(all.take(i + 1)));
        }
        i = i + 1;
    }
    assert(all.take(all.len() as int) =~= all);
}

fn code_of_algorithm(a: Algorithm) -> (out: u8)
    ensures
        out == algorithm_code(a),
{
    match a {
        Algorithm::TokenBucket => 0,
    }
}

fn code_of_disposition(m: ContentDispositionMode) -> (out: u8)
    ensures
        out == disposition_code(m),
{
    match m {
        ContentDispositionMode::Auto => 0,
        ContentDispositionMode::Inline => 1,
        ContentDispositionMode::Attachment => 2,
    }
}

fn hash_origin(h: &mut DefaultHasher, t: &TaskSlot)
    ensures
        final(h)@ == old(h)@ + origin_writes(t.id@, t.entry.updated_at, t.entry@.config),
{
    let ghost was = h@;
    hash_text(h, t.id.as_str());
    hash_number(h, t.entry.updated_at);
    hash_volumes(h, &t.entry.config.volumes);
    assert(h@ =~= was + origin_writes(t.id@, t.entry.updated_at, t.entry@.config));
}

fn hash_limits(h: &mut DefaultHasher, c: &TaskConfig)
    ensures
        final(h)@ == old(h)@ + limit_writes(c@),
{
    let ghost was = h@;
    hash_number(h, c.max_threads as u64);
    hash_number(h, c.max_per_volume as u64);
    hash_number(h, c.max_split);
    hash_flag(h, c.cache);
    hash_number(h, c.rate_limit_bps);
    hash_byte(h, code_of_algorithm(c.rate_limit_algorithm));
    proof {
        lemma_limits_in_turn(
            was,
            le8(c.max_threads as u64),
            le8(c.max_per_volume as u64),
            le8(c.max_split),
            flag_write(c.cache),
            le8(c.rate_limit_bps),
            seq![algorithm_code(c.rate_limit_algorithm)],
        );
    }
}

/// Six writes, one after another, are the list of the six.
proof fn lemma_limits_in_turn(
    was: Seq<Seq<u8>>,
    a: Seq<u8>,
    b: Seq<u8>,
    c: Seq<u8>,
    f: Seq<Seq<u8>>,
    d: Seq<u8>,
    e: Seq<u8>,
)
    ensures
        was + seq![a] + seq![b] + seq![c] + f + seq![d] + seq![e] == was + (seq![a, b, c] + f
            + seq![d, e]),
{
    assert(was + seq![a] + seq![b] + seq![c] + f + seq![d] + seq![e] =~= was + (seq![a, b, c] + f
        + seq![d, e]));
}

fn hash_names(h: &mut DefaultHasher, c: &TaskConfig)
    ensures
        final(h)@ == old(h)@ + name_writes(c@),
{
    let ghost was = h@;
    hash_opt(h, &c.name);
    hash_opt(h, &c.output_filename);
    hash_flag(h, c.auto_filename);
    assert(h@ =~= was + name_writes(c@));
}

fn hash_lists(h: &mut DefaultHasher, c: &TaskConfig)
    ensures
        final(h)@ == old(h)@ + list_writes(c@),
{
    let ghost was = h@;
    hash_pairs(h, &c.headers);
    hash_rules(h, &c.host_mappings);
    hash_slots(h, &c.plugins);
    assert(h@ =~= was + list_writes(c@));
}

fn hash_task(h: &mut DefaultHasher, t: &TaskSlot)
    ensures
        final(h)@ == old(h)@ + task_writes(
            t.id@,
            t.entry.updated_at,
            t.entry@.config,
            t.entry.paused,
        ),
{
    let ghost was = h@;
    let c: &TaskConfig = &t.entry.config;
    hash_origin(h, t);
    hash_limits(h, c);
    hash_names(h, c);
    hash_lists(h, c);
    hash_byte(h, code_of_disposition(c.content_disposition));
    hash_flag(h, t.entry.paused);
    assert(h@ =~= was + task_writes(t.id@, t.entry.updated_at, t.entry@.config, t.entry.paused));
}

fn same_bytes(a: &str, b: &str) -> (out: bool)
    ensures
        out == (encode_utf8(a@) == encode_utf8(b@)),
{
    let x: &[u8] = a.as_bytes();
    let y: &[u8] = b.as_bytes();
    if x.len() != y.len() {
        return false;
    }
    let mut i: usize = 0;
    while i < x.len()
        invariant
            i <= x@.len(),
            x@.len() == y@.len(),
            x@ == encode_utf8(a@),
            y@ == encode_utf8(b@),
            forall|k: int| 0 <= k < i ==> #[trigger] x@[k] == y@[k],
        decreases x.len() - i,
    {
        if x[i] != y[i] {
            return false;
        }
        i = i + 1;
    }
    assert(x@ =~= y@);
    true
}

fn hash_globals(h: &mut DefaultHasher, l: &Vec<(String, String)>)
    ensures
        ({
            let p = pair_views(l@);
            let keys = in_order(encoded(p.map_values(|p: (Seq<char>, Seq<char>)| p.0)));
            final(h)@ == old(h)@ + globals_writes(keys, p, keys.len() as int)
        }),
{
    let ghost was = h@;
    let ghost p = pair_views(l@);
    let mut names: Vec<String> = Vec::new();
    let mut i: usize = 0;
    while i < l.len()
        invariant
            i <= l@.len(),
            names@.len() == i,
            forall|k: int| 0 <= k < i ==> (#[trigger] names@[k])@ == l@[k].0@,
        decreases l.len() - i,
    {
        names.push(l[i].0.clone());
        i = i + 1;
    }
    let keys: Vec<String> = sorted_texts(&names);
    let ghost sorted = in_order(encoded(p.map_values(|p: (Seq<char>, Seq<char>)| p.0)));
    proof {
        assert(utf8_views(names@) =~= encoded(p.map_values(|p: (Seq<char>, Seq<char>)| p.0)));
        assert(utf8_views(keys@) == sorted);
        assert(sorted.len() == keys@.len());
    }
    let mut k: usize = 0;
    assert(h@ =~= was + globals_writes(sorted, p, 0));
    while k < keys.len()
        invariant
            k <= keys@.len(),
            p == pair_views(l@),
            utf8_views(keys@) == sorted,
            sorted.len() == keys@.len(),
            h@ == was + globals_writes(sorted, p, k as int),
        decreases keys.len() - k,
    {
        let ghost key = sorted[k as int];
        assert(key == encode_utf8(keys@[k as int]@));
        let ghost before = h@;
        hash_text(h, keys[k].as_str());
        let mut j: usize = 0;
        let mut found: bool = false;
        while j < l.len() && !found
            invariant
                j <= l@.len(),
                k < keys@.len(),
                p == pair_views(l@),
                key == encode_utf8(keys@[k as int]@),
                !found ==> h@ == before + text_writes(keys@[k as int]@) && value_from(p, key, 0)
                    == value_from(p, key, j as int),
                found ==> value_from(p, key, 0) is Some && h@ == before + text_writes(
                    keys@[k as int]@,
                ) + text_writes(value_from(p, key, 0)->0),
            decreases l.len() - j,
        {
            assert(p[j as int] == (l@[j as int].0@, l@[j as int].1@));
            if same_bytes(l[j].0.as_str(), keys[k].as_str()) {
                hash_text(h, l[j].1.as_str());
                found = true;
            }
            j = j + 1;
        }
        proof {
            if !found {
                assert(value_from(p, key, 0) is None);
            }
            assert(h@ =~= was + globals_writes(sorted, p, k + 1));
        }
        k = k + 1;
    }
}

/// What the first `n` coordinators add to the fingerprint.
pub open spec fn downloads_writes(l: Seq<PersistedDownload>, n: int) -> Seq<Seq<u8>>
    decreases n,
{
    if n <= 0 {
        Seq::empty()
    } else {
        let d = l[n - 1];
        downloads_writes(l, n - 1) + (text_writes(d.task_id@) + text_writes(d.out_dir@)
            + text_writes(d.filename@) + seq![le8(d.threads as u64)] + flag_write(d.was_running))
    }
}

fn hash_downloads(h: &mut DefaultHasher, l: &Vec<PersistedDownload>)
    ensures
        final(h)@ == old(h)@ + downloads_writes(l@, l@.len() as int),
{
    let ghost was = h@;
    let mut i: usize = 0;
    assert(h@ =~= was + downloads_writes(l@, 0));
    while i < l.len()
        invariant
            i <= l@.len(),
            h@ == was + downloads_writes(l@, i as int),
        decreases l.len() - i,
    {
        let ghost had = h@;
        hash_text(h, l[i].task_id.as_str());
        hash_text(h, l[i].out_dir.as_str());
        hash_text(h, l[i].filename.as_str());
        hash_number(h, l[i].threads as u64);
        hash_flag(h, l[i].was_running);
        proof {
            let d = l@[i as int];
            assert(h@ =~= had + (text_writes(d.task_id@) + text_writes(d.out_dir@) + text_writes(
                d.filename@,
            ) + seq![le8(d.threads as u64)] + flag_write(d.was_running)));
            assert(h@ =~= was + downloads_writes(l@, i + 1));
        }
        i = i + 1;
    }
}

/// The fingerprint of all that is saved.
pub open spec fn fingerprint(state: AppState, downloads: Seq<PersistedDownload>) -> u64 {
    DefaultHasher::spec_finish(
        settings_writes(state.settings@) + tasks_writes(state.tasks@, state.tasks@.len() as int)
            + downloads_writes(downloads, downloads.len() as int),
    )
}

/// A fingerprint of all that is saved: as long as it stays the same there is nothing
/// new to write.
pub fn persist_hash(state: &AppState, downloads: &Vec<PersistedDownload>) -> (out: u64)
    ensures
        out == fingerprint(*state, downloads@),
{
    let mut h: DefaultHasher = DefaultHasher::new();
    hash_number(&mut h, state.settings.global_rate_limit_bps);
    hash_byte(&mut h, code_of_algorithm(state.settings.global_rate_limit_algorithm));
    hash_globals(&mut h, &state.settings.plugin_globals);
    hash_opt(&mut h, &state.settings.download_dir);
    hash_rules(&mut h, &state.settings.host_mappings);
    hash_opt(&mut h, &state.settings.dns);
    let ghost was = settings_writes(state.settings@);
    assert(h@ =~= was);
    let mut i: usize = 0;
    assert(h@ =~= was + tasks_writes(state.tasks@, 0));
    while i < state.tasks.len()
        invariant
            i <= state.tasks@.len(),
            h@ == was + tasks_writes(state.tasks@, i as int),
        decreases state.tasks.len() - i,
    {
        if state.tasks[i].entry.config.persist {
            hash_task(&mut h, &state.tasks[i]);
        }
        assert(h@ =~= was + tasks_writes(state.tasks@, i + 1));
        i = i + 1;
    }
    hash_downloads(&mut h, downloads);
    h.finish()
}

/// How often it is looked whether there is anything to save, in milliseconds.
pub const SAVE_INTERVAL: u64 = 5000;

/// Decides when to save.
pub struct Saver {
    /// When it was last looked, in milliseconds on the caller's clock.
    pub last_look: u64,
    /// The fingerprint of what was saved.
    pub saved_hash: u64,
}

impl Saver {
    pub fn new(now: u64) -> (out: Self)
        ensures
            out == (Saver { last_look: now, saved_hash: 0 }),
    {
        Saver { last_look: now, saved_hash: 0 }
    }

    /// Whether to save now: it is time to look, and something has changed.
    pub fn due(&mut self, state: &AppState, downloads: &Vec<PersistedDownload>, now: u64) -> (out:
        bool)
        ensures
            ({
                let hash = fingerprint(*state, downloads@);
                if now - old(self).last_look < SAVE_INTERVAL {
                    !out && *final(self) == *old(self)
                } else {
                    out == (hash != old(self).saved_hash) && *final(self) == (Saver {
                        last_look: now,
                        saved_hash: hash,
                    })
                }
            }),
            now - old(self).last_look < 5000 ==> !out,
            now - old(self).last_look >= 5000 ==> final(self).last_look == now,
            out ==> final(self).saved_hash != old(self).saved_hash,
    {
        if now < self.last_look || now - self.last_look < SAVE_INTERVAL {
            return false;
        }
        self.last_look = now;
        let hash: u64 = persist_hash(state, downloads);
        if hash == self.saved_hash {
            false
        } else {
            self.saved_hash = hash;
            true
        }
    }
}

/// What a task that is not saved looks like makes no difference to the
/// fingerprint.
pub proof fn law_only_saved_tasks_leave_a_trace(l: Seq<TaskSlot>, n: int, t: TaskSlot)
    requires
        0 <= n < l.len(),
        !l[n].entry@.config.persist,
        !t.entry@.config.persist,
    ensures
        tasks_writes(l.update(n, t), l.len() as int) == tasks_writes(l, l.len() as int),
{
    lemma_untraced(l, n, t, l.len() as int);
}

proof fn lemma_untraced(l: Seq<TaskSlot>, n: int, t: TaskSlot, m: int)
    requires
        0 <= n < l.len(),
        0 <= m <= l.len(),
        !l[n].entry@.config.persist,
        !t.entry@.config.persist,
    ensures
        tasks_writes(l.update(n, t), m) == tasks_writes(l, m),
    decreases m,
{
    if m > 0 {
        lemma_untraced(l, n, t, m - 1);
    }
}

/// The 36 letters and digits that ids are made of.
pub open spec fn id_char(i: int) -> char {
    if i < 26 {
        ((97 + i) as u8) as char
    } else {
        ((22 + i) as u8) as char
    }
}

/// The id that random bytes make: a letter or digit for each of the first six.
pub open spec fn id_of(bytes: Seq<u8>) -> Seq<char> {
    Seq::new(6, |i: int| id_char(bytes[i] as int % 36))
}

/// Makes an id of random bytes.
pub fn short_id_from(bytes: &[u8; 16]) -> (out: String)
    ensures
        out@ == id_of(bytes@),
{
    let mut out: String = String::new();
    let mut i: usize = 0;
    while i < 6
        invariant
            i <= 6,
            out@ == id_of(bytes@).take(i as int),
        decreases 6 - i,
    {
        let v: u8 = bytes[i] % 36;
        let c: char = if v < 26 {
            (97 + v) as char
        } else {
            (22 + v) as char
        };
        push_char(&mut out, c);
        assert(out@ =~= id_of(bytes@).take(i + 1));
        i = i + 1;
    }
    assert(out@ =~= id_of(bytes@));
    out
}

/// The bytes of a fresh random UUID. Calls `uuid::Uuid::new_v4` and `as_bytes`;
/// any bytes may come.
#[verifier::external_body]
fn random_uuid() -> (out: [u8; 16]) {
    *uuid::Uuid::new_v4().as_bytes()
}

/// A new id: six letters and digits.
pub fn short_id() -> (out: String)
    ensures
        exists|bytes: Seq<u8>| out@ == #[trigger] id_of(bytes),
        out@.len() == 6,
{
    let bytes: [u8; 16] = random_uuid();
    short_id_from(&bytes)
}

} // verus!
