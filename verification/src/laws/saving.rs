//! What is saved, and what comes back.

use crate::cache::encoded;
use crate::dns::{mode_of, DnsView};
use crate::download::PersistedDownload;
use crate::engine::VolumeMeta;
use crate::hostmap::{table_of, RuleView, StateView};
use crate::models::{ConfigView, SlotView};
use crate::models::persist::{
    disposition_code, downloads_writes, flag_write, globals_writes, id_char, id_of, ids_with,
    last_saved, lasting, le8, limit_writes, list_writes, name_writes, opt_writes, origin_writes,
    pairs_writes, rules_writes, settings_writes, slots_writes, task_writes, tasks_writes,
    text_writes, texts_writes, value_from, volumes_writes, PersistedTask,
};
use crate::models::state::{plugin_fault, restored_hosts, size_of, SettingsView, TaskSlot};
use crate::order::{by_bytes, in_order, lemma_by_bytes_is_total};
use crate::text::views;
use vstd::prelude::*;
use vstd::utf8::{encode_utf8, encode_utf8_decode_utf8};

verus! {

proof fn lemma_text(a: Seq<char>, b: Seq<char>)
    requires
        encode_utf8(a) == encode_utf8(b),
    ensures
        a == b,
{
    encode_utf8_decode_utf8(a);
    encode_utf8_decode_utf8(b);
}

/// Of two joined lists with the same ends, the middles are the same.
proof fn lemma_middle(
    a: Seq<Seq<u8>>,
    x: Seq<Seq<u8>>,
    y: Seq<Seq<u8>>,
    b: Seq<Seq<u8>>,
)
    requires
        a + x + b == a + y + b,
    ensures
        x == y,
{
    let s = a + x + b;
    let t = a + y + b;
    assert(s.len() == t.len());
    assert(x =~= s.subrange(a.len() as int, s.len() - b.len()));
    assert(y =~= t.subrange(a.len() as int, t.len() - b.len()));
}

proof fn lemma_le8(a: u64, b: u64)
    requires
        le8(a) == le8(b),
    ensures
        a == b,
{
    lemma_le8_value(a);
    lemma_le8_value(b);
    let x = le8(a);
    let y = le8(b);
    assert(x[0] == y[0] && x[1] == y[1] && x[2] == y[2] && x[3] == y[3] && x[4] == y[4] && x[5]
        == y[5] && x[6] == y[6] && x[7] == y[7]);
}

proof fn lemma_le8_value(n: u64)
    ensures
        ({
            let x = le8(n);
            n == x[0] + 0x100 * x[1] + 0x1_0000 * x[2] + 0x100_0000 * x[3] + 0x1_0000_0000 * x[4]
                + 0x100_0000_0000 * x[5] + 0x1_0000_0000_0000 * x[6] + 0x100_0000_0000_0000 * x[7]
        }),
{
    let a = n as int;
    let q1 = a / 256;
    let q2 = q1 / 256;
    let q3 = q2 / 256;
    let q4 = q3 / 256;
    let q5 = q4 / 256;
    let q6 = q5 / 256;
    let q7 = q6 / 256;
    assert(a / 0x1_0000 == q2);
    assert(a / 0x100_0000 == q3);
    assert(a / 0x1_0000_0000 == q4);
    assert(a / 0x100_0000_0000 == q5);
    assert(a / 0x1_0000_0000_0000 == q6);
    assert(a / 0x100_0000_0000_0000 == q7);
    assert(q7 < 256);
}

proof fn lemma_opt(a: Option<Seq<char>>, b: Option<Seq<char>>)
    requires
        opt_writes(a) == opt_writes(b),
    ensures
        a == b,
{
    let x = opt_writes(a);
    let y = opt_writes(b);
    match (a, b) {
        (Some(s), Some(t)) => {
            assert(x[1] == encode_utf8(s));
            assert(y[1] == encode_utf8(t));
            lemma_text(s, t);
        },
        (Some(s), None) => {
            assert(x.len() == 3 && y.len() == 1);
        },
        (None, Some(t)) => {
            assert(x.len() == 1 && y.len() == 3);
        },
        (None, None) => {},
    }
}

/// What follows a list, taken together.
proof fn lemma_together(
    o: Seq<Seq<u8>>,
    l: Seq<Seq<u8>>,
    n: Seq<Seq<u8>>,
    s: Seq<Seq<u8>>,
    d: Seq<Seq<u8>>,
    f: Seq<Seq<u8>>,
)
    ensures
        o + l + n + s + d + f == o + (l + n + s + d + f),
        o + l + n + s + d + f == o + l + (n + s + d + f),
        o + l + n + s + d + f == (o + l) + n + (s + d + f),
        o + l + n + s + d + f == (o + l + n) + s + (d + f),
{
    assert(o + l + n + s + d + f =~= o + (l + n + s + d + f));
    assert(o + l + n + s + d + f =~= o + l + (n + s + d + f));
    assert(o + l + n + s + d + f =~= (o + l) + n + (s + d + f));
    assert(o + l + n + s + d + f =~= (o + l + n) + s + (d + f));
}

proof fn lemma_flag(a: bool, b: bool)
    requires
        flag_write(a) == flag_write(b),
    ensures
        a == b,
{
    let x = flag_write(a)[0];
    let y = flag_write(b)[0];
    assert(x.len() == 1 && x[0] == if a {
        1u8
    } else {
        0u8
    });
    assert(y.len() == 1 && y[0] == if b {
        1u8
    } else {
        0u8
    });
}

proof fn lemma_pairs(a: Seq<(Seq<char>, Seq<char>)>, b: Seq<(Seq<char>, Seq<char>)>)
    requires
        pairs_writes(a) == pairs_writes(b),
    ensures
        a == b,
    decreases a.len(),
{
    lemma_pairs_len(a);
    lemma_pairs_len(b);
    if a.len() > 0 {
        let x = pairs_writes(a);
        let y = pairs_writes(b);
        let n = x.len() - 4;
        lemma_pairs_len(a.drop_last());
        lemma_pairs_len(b.drop_last());
        assert(x.take(n) =~= pairs_writes(a.drop_last()));
        assert(y.take(n) =~= pairs_writes(b.drop_last()));
        lemma_pairs(a.drop_last(), b.drop_last());
        assert(x[n] == encode_utf8(a.last().0) && y[n] == encode_utf8(b.last().0));
        assert(x[n + 2] == encode_utf8(a.last().1) && y[n + 2] == encode_utf8(b.last().1));
        lemma_text(a.last().0, b.last().0);
        lemma_text(a.last().1, b.last().1);
        assert(a =~= a.drop_last().push(a.last()));
        assert(b =~= b.drop_last().push(b.last()));
    } else {
        assert(a =~= b);
    }
}

proof fn lemma_pairs_len(a: Seq<(Seq<char>, Seq<char>)>)
    ensures
        pairs_writes(a).len() == 4 * a.len(),
    decreases a.len(),
{
    if a.len() > 0 {
        lemma_pairs_len(a.drop_last());
    }
}

proof fn lemma_rules(a: Seq<RuleView>, b: Seq<RuleView>)
    requires
        rules_writes(a) == rules_writes(b),
    ensures
        a == b,
    decreases a.len(),
{
    lemma_rules_len(a);
    lemma_rules_len(b);
    if a.len() > 0 {
        let x = rules_writes(a);
        let y = rules_writes(b);
        let n = x.len() - 5;
        lemma_rules_len(a.drop_last());
        lemma_rules_len(b.drop_last());
        assert(x.take(n) =~= rules_writes(a.drop_last()));
        assert(y.take(n) =~= rules_writes(b.drop_last()));
        lemma_rules(a.drop_last(), b.drop_last());
        assert(x[n] == encode_utf8(a.last().from) && y[n] == encode_utf8(b.last().from));
        assert(x[n + 2] == encode_utf8(a.last().to) && y[n + 2] == encode_utf8(b.last().to));
        assert(x[n + 4][0] == y[n + 4][0]);
        lemma_text(a.last().from, b.last().from);
        lemma_text(a.last().to, b.last().to);
        assert(a =~= a.drop_last().push(a.last()));
        assert(b =~= b.drop_last().push(b.last()));
    } else {
        assert(a =~= b);
    }
}

proof fn lemma_rules_len(a: Seq<RuleView>)
    ensures
        rules_writes(a).len() == 5 * a.len(),
    decreases a.len(),
{
    if a.len() > 0 {
        lemma_rules_len(a.drop_last());
    }
}

proof fn lemma_slots(a: Seq<SlotView>, b: Seq<SlotView>)
    requires
        slots_writes(a) == slots_writes(b),
    ensures
        a == b,
    decreases a.len(),
{
    lemma_slots_len(a);
    lemma_slots_len(b);
    if a.len() > 0 {
        let x = slots_writes(a);
        let y = slots_writes(b);
        let n = x.len() - 5;
        lemma_slots_len(a.drop_last());
        lemma_slots_len(b.drop_last());
        assert(x.take(n) =~= slots_writes(a.drop_last()));
        assert(y.take(n) =~= slots_writes(b.drop_last()));
        lemma_slots(a.drop_last(), b.drop_last());
        assert(x[n] == encode_utf8(a.last().id) && y[n] == encode_utf8(b.last().id));
        assert(x[n + 2][0] == y[n + 2][0]);
        assert(x[n + 3] == encode_utf8(a.last().config) && y[n + 3] == encode_utf8(b.last().config));
        lemma_text(a.last().id, b.last().id);
        lemma_text(a.last().config, b.last().config);
        assert(a =~= a.drop_last().push(a.last()));
        assert(b =~= b.drop_last().push(b.last()));
    } else {
        assert(a =~= b);
    }
}

proof fn lemma_slots_len(a: Seq<SlotView>)
    ensures
        slots_writes(a).len() == 5 * a.len(),
    decreases a.len(),
{
    if a.len() > 0 {
        lemma_slots_len(a.drop_last());
    }
}

proof fn lemma_volumes(a: Seq<Seq<Seq<char>>>, b: Seq<Seq<Seq<char>>>)
    requires
        volumes_writes(a) == volumes_writes(b),
    ensures
        a == b,
    decreases volumes_writes(a).len(),
{
    let x = volumes_writes(a);
    if a.len() == 0 {
        if b.len() > 0 {
            assert(volumes_writes(b).len() > 0);
        }
        assert(a =~= b);
    } else if b.len() == 0 {
        assert(x.len() > 0);
    } else {
        let p = a.last();
        let q = b.last();
        let n = x.len() as int;
        lemma_volume_end(a);
        lemma_volume_end(b);
        if p.len() == 0 {
            assert(x.take(n - 1) =~= volumes_writes(a.drop_last()));
            assert(x.take(n - 1) =~= volumes_writes(b.drop_last()));
            lemma_volumes(a.drop_last(), b.drop_last());
            assert(p =~= q);
        } else {
            let aa = a.drop_last().push(p.drop_last());
            let bb = b.drop_last().push(q.drop_last());
            lemma_shorter(a);
            lemma_shorter(b);
            assert(x.take(n - 2) =~= volumes_writes(aa));
            assert(x.take(n - 2) =~= volumes_writes(bb));
            lemma_volumes(aa, bb);
            lemma_text(p.last(), q.last());
            assert(aa.last() == p.drop_last());
            assert(bb.last() == q.drop_last());
            assert(p =~= p.drop_last().push(p.last()));
            assert(q =~= q.drop_last().push(q.last()));
            assert(a.drop_last() =~= aa.drop_last());
            assert(b.drop_last() =~= bb.drop_last());
        }
        assert(a =~= a.drop_last().push(p));
        assert(b =~= b.drop_last().push(q));
    }
}

/// A volume without URLs ends in its mark, any other in the mark behind a URL.
proof fn lemma_volume_end(a: Seq<Seq<Seq<char>>>)
    requires
        a.len() > 0,
    ensures
        ({
            let x = volumes_writes(a);
            let n = x.len() as int;
            &&& n >= 1
            &&& a.last().len() == 0 ==> x[n - 1] == seq![124u8] && x.take(n - 1) == volumes_writes(
                a.drop_last(),
            )
            &&& a.last().len() > 0 ==> n >= 3 && x[n - 1] == seq![255u8] && x[n - 2]
                == encode_utf8(a.last().last())
            &&& seq![124u8] != seq![255u8]
        }),
{
    let x = volumes_writes(a);
    let n = x.len() as int;
    let m = a.last();
    let front = volumes_writes(a.drop_last());
    assert(x =~= front + (seq![seq![124u8]] + texts_writes(m)));
    if m.len() == 0 {
        assert(texts_writes(m).len() == 0);
        assert(x.take(n - 1) =~= front);
    } else {
        let t = texts_writes(m);
        assert(t =~= texts_writes(m.drop_last()) + text_writes(m.last()));
        assert(t[t.len() - 1] == seq![255u8]);
        assert(t[t.len() - 2] == encode_utf8(m.last()));
    }
    assert(seq![124u8][0] == 124 && seq![255u8][0] == 255);
}

proof fn lemma_shorter(a: Seq<Seq<Seq<char>>>)
    requires
        a.len() > 0,
        a.last().len() > 0,
    ensures
        ({
            let x = volumes_writes(a);
            x.take(x.len() - 2) == volumes_writes(a.drop_last().push(a.last().drop_last()))
        }),
{
    let x = volumes_writes(a);
    let m = a.last();
    let aa = a.drop_last().push(m.drop_last());
    assert(aa.drop_last() =~= a.drop_last());
    assert(aa.last() == m.drop_last());
    let front = volumes_writes(a.drop_last());
    assert(x =~= front + (seq![seq![124u8]] + (texts_writes(m.drop_last()) + text_writes(
        m.last(),
    ))));
    assert(volumes_writes(aa) =~= front + (seq![seq![124u8]] + texts_writes(m.drop_last())));
    assert(x.take(x.len() - 2) =~= volumes_writes(aa));
}

/// Two tasks whose traces are the same have the same id, were edited at the same time,
/// are both paused or both not, and answer with the same disposition.
pub proof fn law_a_trace_holds_id_time_and_pause(
    id: (Seq<char>, Seq<char>),
    at: (u64, u64),
    c: ConfigView,
    d: ConfigView,
    paused: (bool, bool),
)
    requires
        task_writes(id.0, at.0, c, paused.0) == task_writes(id.1, at.1, d, paused.1),
    ensures
        id.0 == id.1,
        at.0 == at.1,
        paused.0 == paused.1,
        c.content_disposition == d.content_disposition,
{
    lemma_trace_ends(id.0, at.0, c, paused.0);
    lemma_trace_ends(id.1, at.1, d, paused.1);
    lemma_text(id.0, id.1);
    lemma_le8(at.0, at.1);
    assert(flag_write(paused.0) =~= flag_write(paused.1));
    lemma_flag(paused.0, paused.1);
    assert(seq![disposition_code(c.content_disposition)][0] == seq![
        disposition_code(d.content_disposition),
    ][0]);
}

/// What a trace begins and ends with.
proof fn lemma_trace_ends(id: Seq<char>, at: u64, c: ConfigView, paused: bool)
    ensures
        ({
            let x = task_writes(id, at, c, paused);
            let n = x.len() as int;
            &&& n >= 5
            &&& x[0] == encode_utf8(id)
            &&& x[2] == le8(at)
            &&& x[n - 1] == flag_write(paused)[0]
            &&& x[n - 2] == seq![disposition_code(c.content_disposition)]
        }),
{
    let o = origin_writes(id, at, c);
    let front = text_writes(id) + seq![le8(at)];
    assert(front[0] == encode_utf8(id) && front[2] == le8(at) && front.len() == 3);
    assert(o == front + volumes_writes(c.volumes));
    lemma_ends(
        o,
        limit_writes(c) + name_writes(c) + list_writes(c),
        seq![seq![disposition_code(c.content_disposition)]],
        flag_write(paused),
    );
    lemma_three(
        o,
        limit_writes(c),
        name_writes(c),
        list_writes(c),
    );
}

proof fn lemma_ends(o: Seq<Seq<u8>>, m: Seq<Seq<u8>>, d: Seq<Seq<u8>>, f: Seq<Seq<u8>>)
    requires
        o.len() >= 3,
        d.len() == 1,
        f.len() == 1,
    ensures
        ({
            let x = o + m + d + f;
            let n = x.len() as int;
            &&& n >= 5
            &&& x[0] == o[0]
            &&& x[2] == o[2]
            &&& x[n - 1] == f[0]
            &&& x[n - 2] == d[0]
        }),
{
}

proof fn lemma_three(o: Seq<Seq<u8>>, l: Seq<Seq<u8>>, n: Seq<Seq<u8>>, s: Seq<Seq<u8>>)
    ensures
        o + l + n + s == o + (l + n + s),
{
    assert(o + l + n + s =~= o + (l + n + s));
}

/// A change to where a task fetches from leaves a trace.
pub proof fn law_a_change_of_urls_leaves_a_trace(
    id: Seq<char>,
    at: u64,
    c: ConfigView,
    d: ConfigView,
    paused: bool,
)
    requires
        d == (ConfigView { volumes: d.volumes, ..c }),
        task_writes(id, at, c, paused) == task_writes(id, at, d, paused),
    ensures
        c.volumes == d.volumes,
{
    let front = text_writes(id) + seq![le8(at)];
    let code = seq![seq![disposition_code(c.content_disposition)]];
    let back = limit_writes(c) + name_writes(c) + list_writes(c) + code + flag_write(paused);
    lemma_together(
        origin_writes(id, at, c),
        limit_writes(c),
        name_writes(c),
        list_writes(c),
        code,
        flag_write(paused),
    );
    lemma_together(
        origin_writes(id, at, d),
        limit_writes(d),
        name_writes(d),
        list_writes(d),
        code,
        flag_write(paused),
    );
    assert(task_writes(id, at, c, paused) == front + volumes_writes(c.volumes) + back);
    assert(task_writes(id, at, d, paused) == front + volumes_writes(d.volumes) + back);
    lemma_middle(front, volumes_writes(c.volumes), volumes_writes(d.volumes), back);
    lemma_volumes(c.volumes, d.volumes);
}

/// A change to any of a task's limits, or to whether it keeps what it fetches, leaves
/// a trace.
pub proof fn law_a_change_of_limits_leaves_a_trace(
    id: Seq<char>,
    at: u64,
    c: ConfigView,
    d: ConfigView,
    paused: bool,
)
    requires
        d == (ConfigView {
            max_threads: d.max_threads,
            max_per_volume: d.max_per_volume,
            max_split: d.max_split,
            cache: d.cache,
            rate_limit_bps: d.rate_limit_bps,
            ..c
        }),
        task_writes(id, at, c, paused) == task_writes(id, at, d, paused),
    ensures
        c.max_threads == d.max_threads,
        c.max_per_volume == d.max_per_volume,
        c.max_split == d.max_split,
        c.cache == d.cache,
        c.rate_limit_bps == d.rate_limit_bps,
{
    let front = origin_writes(id, at, c);
    let code = seq![seq![disposition_code(c.content_disposition)]];
    let back = name_writes(c) + list_writes(c) + code + flag_write(paused);
    lemma_together(
        front,
        limit_writes(c),
        name_writes(c),
        list_writes(c),
        code,
        flag_write(paused),
    );
    lemma_together(
        front,
        limit_writes(d),
        name_writes(d),
        list_writes(d),
        code,
        flag_write(paused),
    );
    assert(task_writes(id, at, c, paused) == front + limit_writes(c) + back);
    assert(task_writes(id, at, d, paused) == front + limit_writes(d) + back);
    lemma_middle(front, limit_writes(c), limit_writes(d), back);
    let x = limit_writes(c);
    let y = limit_writes(d);
    assert(x[0] == le8(c.max_threads as u64) && y[0] == le8(d.max_threads as u64));
    assert(x[1] == le8(c.max_per_volume as u64) && y[1] == le8(d.max_per_volume as u64));
    assert(x[2] == le8(c.max_split) && y[2] == le8(d.max_split));
    assert(x[3] == flag_write(c.cache)[0] && y[3] == flag_write(d.cache)[0]);
    assert(flag_write(c.cache) =~= flag_write(d.cache));
    assert(x[4] == le8(c.rate_limit_bps) && y[4] == le8(d.rate_limit_bps));
    lemma_le8(c.max_threads as u64, d.max_threads as u64);
    lemma_le8(c.max_per_volume as u64, d.max_per_volume as u64);
    lemma_le8(c.max_split, d.max_split);
    lemma_flag(c.cache, d.cache);
    lemma_le8(c.rate_limit_bps, d.rate_limit_bps);
}

/// A change to what a task or its file is called leaves a trace, whichever of the
/// three it is.
pub proof fn law_a_change_of_names_leaves_a_trace(
    id: Seq<char>,
    at: u64,
    c: ConfigView,
    d: ConfigView,
    paused: bool,
)
    requires
        d == (ConfigView { name: d.name, ..c }) || d == (ConfigView {
            output_filename: d.output_filename,
            ..c
        }) || d == (ConfigView { auto_filename: d.auto_filename, ..c }),
        task_writes(id, at, c, paused) == task_writes(id, at, d, paused),
    ensures
        c == d,
{
    let front = origin_writes(id, at, c) + limit_writes(c);
    let code = seq![seq![disposition_code(c.content_disposition)]];
    let back = list_writes(c) + code + flag_write(paused);
    lemma_together(
        origin_writes(id, at, c),
        limit_writes(c),
        name_writes(c),
        list_writes(c),
        code,
        flag_write(paused),
    );
    lemma_together(
        origin_writes(id, at, d),
        limit_writes(d),
        name_writes(d),
        list_writes(d),
        code,
        flag_write(paused),
    );
    assert(task_writes(id, at, c, paused) == front + name_writes(c) + back);
    assert(task_writes(id, at, d, paused) == front + name_writes(d) + back);
    lemma_middle(front, name_writes(c), name_writes(d), back);
    let none = Seq::<Seq<u8>>::empty();
    if d == (ConfigView { name: d.name, ..c }) {
        let rest = opt_writes(c.output_filename) + flag_write(c.auto_filename);
        assert(name_writes(c) =~= none + opt_writes(c.name) + rest);
        assert(name_writes(d) =~= none + opt_writes(d.name) + rest);
        lemma_middle(none, opt_writes(c.name), opt_writes(d.name), rest);
        lemma_opt(c.name, d.name);
    } else if d == (ConfigView { output_filename: d.output_filename, ..c }) {
        lemma_middle(
            opt_writes(c.name),
            opt_writes(c.output_filename),
            opt_writes(d.output_filename),
            flag_write(c.auto_filename),
        );
        lemma_opt(c.output_filename, d.output_filename);
    } else {
        let before = opt_writes(c.name) + opt_writes(c.output_filename);
        assert(name_writes(c) =~= before + flag_write(c.auto_filename) + none);
        assert(name_writes(d) =~= before + flag_write(d.auto_filename) + none);
        lemma_middle(before, flag_write(c.auto_filename), flag_write(d.auto_filename), none);
        lemma_flag(c.auto_filename, d.auto_filename);
    }
}

/// A change to a task's headers, its rules for hosts or its plugins leaves a trace.
pub proof fn law_a_change_of_lists_leaves_a_trace(
    id: Seq<char>,
    at: u64,
    c: ConfigView,
    d: ConfigView,
    paused: bool,
)
    requires
        d == (ConfigView { headers: d.headers, ..c }) || d == (ConfigView {
            host_mappings: d.host_mappings,
            ..c
        }) || d == (ConfigView { plugins: d.plugins, ..c }),
        task_writes(id, at, c, paused) == task_writes(id, at, d, paused),
    ensures
        c == d,
{
    let front = origin_writes(id, at, c) + limit_writes(c) + name_writes(c);
    let code = seq![seq![disposition_code(c.content_disposition)]];
    let back = code + flag_write(paused);
    lemma_together(
        origin_writes(id, at, c),
        limit_writes(c),
        name_writes(c),
        list_writes(c),
        code,
        flag_write(paused),
    );
    lemma_together(
        origin_writes(id, at, d),
        limit_writes(d),
        name_writes(d),
        list_writes(d),
        code,
        flag_write(paused),
    );
    assert(task_writes(id, at, c, paused) == front + list_writes(c) + back);
    assert(task_writes(id, at, d, paused) == front + list_writes(d) + back);
    lemma_middle(front, list_writes(c), list_writes(d), back);
    let none = Seq::<Seq<u8>>::empty();
    if d == (ConfigView { headers: d.headers, ..c }) {
        let rest = rules_writes(c.host_mappings) + slots_writes(c.plugins);
        assert(list_writes(c) =~= none + pairs_writes(c.headers) + rest);
        assert(list_writes(d) =~= none + pairs_writes(d.headers) + rest);
        lemma_middle(none, pairs_writes(c.headers), pairs_writes(d.headers), rest);
        lemma_pairs(c.headers, d.headers);
    } else if d == (ConfigView { host_mappings: d.host_mappings, ..c }) {
        lemma_middle(
            pairs_writes(c.headers),
            rules_writes(c.host_mappings),
            rules_writes(d.host_mappings),
            slots_writes(c.plugins),
        );
        lemma_rules(c.host_mappings, d.host_mappings);
    } else {
        let before = pairs_writes(c.headers) + rules_writes(c.host_mappings);
        assert(list_writes(c) =~= before + slots_writes(c.plugins) + none);
        assert(list_writes(d) =~= before + slots_writes(d.plugins) + none);
        lemma_middle(before, slots_writes(c.plugins), slots_writes(d.plugins), none);
        lemma_slots(c.plugins, d.plugins);
    }
}

/// A change to one of the tasks that are saved shows in the trace of all.
pub proof fn law_the_trace_of_a_task_is_in_the_trace_of_all(
    l: Seq<TaskSlot>,
    k: int,
    t: TaskSlot,
    n: int,
)
    requires
        0 <= k < n <= l.len(),
        l[k].entry@.config.persist,
        t.entry@.config.persist,
        tasks_writes(l.update(k, t), n) == tasks_writes(l, n),
    ensures
        task_writes(t.id@, t.entry.updated_at, t.entry@.config, t.entry.paused) == task_writes(
            l[k].id@,
            l[k].entry.updated_at,
            l[k].entry@.config,
            l[k].entry.paused,
        ),
    decreases n,
{
    let m = l.update(k, t);
    let x = tasks_writes(l, n);
    let y = tasks_writes(m, n);
    let none = Seq::<Seq<u8>>::empty();
    if k == n - 1 {
        lemma_earlier_tasks(l, m, n - 1);
        let front = tasks_writes(l, n - 1);
        let a = task_writes(
            l[k].id@,
            l[k].entry.updated_at,
            l[k].entry@.config,
            l[k].entry.paused,
        );
        let b = task_writes(t.id@, t.entry.updated_at, t.entry@.config, t.entry.paused);
        assert(x =~= front + a + none);
        assert(y =~= front + b + none);
        lemma_middle(front, a, b, none);
    } else {
        let r = l[n - 1];
        assert(m[n - 1] == r);
        if r.entry@.config.persist {
            let w = task_writes(r.id@, r.entry.updated_at, r.entry@.config, r.entry.paused);
            assert(x =~= none + tasks_writes(l, n - 1) + w);
            assert(y =~= none + tasks_writes(m, n - 1) + w);
            lemma_middle(none, tasks_writes(l, n - 1), tasks_writes(m, n - 1), w);
        }
        law_the_trace_of_a_task_is_in_the_trace_of_all(l, k, t, n - 1);
    }
}

proof fn lemma_earlier_tasks(l: Seq<TaskSlot>, m: Seq<TaskSlot>, n: int)
    requires
        0 <= n <= l.len(),
        l.len() == m.len(),
        forall|i: int| 0 <= i < n ==> #[trigger] l[i] == m[i],
    ensures
        tasks_writes(l, n) == tasks_writes(m, n),
    decreases n,
{
    if n > 0 {
        assert(l[n - 1] == m[n - 1]);
        lemma_earlier_tasks(l, m, n - 1);
    }
}

/// A change to any one setting leaves a trace.
pub proof fn law_a_change_of_a_setting_leaves_a_trace(s: SettingsView, t: SettingsView)
    requires
        t == (SettingsView { rate_bps: t.rate_bps, ..s }) || t == (SettingsView {
            download_dir: t.download_dir,
            ..s
        }) || t == (SettingsView { host_mappings: t.host_mappings, ..s }) || t == (SettingsView {
            dns: t.dns,
            ..s
        }),
        settings_writes(s) == settings_writes(t),
    ensures
        s == t,
{
    let x = settings_writes(s);
    let y = settings_writes(t);
    let none = Seq::<Seq<u8>>::empty();
    let keys = crate::order::in_order(
        crate::cache::encoded(s.plugin_globals.map_values(|p: (Seq<char>, Seq<char>)| p.0)),
    );
    let globals = crate::models::persist::globals_writes(
        keys,
        s.plugin_globals,
        keys.len() as int,
    );
    let head = seq![le8(s.rate_bps), seq![crate::models::persist::algorithm_code(s.algorithm)]]
        + globals;
    assert(x[0] == le8(s.rate_bps) && y[0] == le8(t.rate_bps));
    lemma_le8(s.rate_bps, t.rate_bps);
    assert(x =~= head + opt_writes(s.download_dir) + rules_writes(s.host_mappings) + opt_writes(
        s.dns,
    ));
    if t == (SettingsView { download_dir: t.download_dir, ..s }) {
        let rest = rules_writes(s.host_mappings) + opt_writes(s.dns);
        assert(x =~= head + opt_writes(s.download_dir) + rest);
        assert(y =~= head + opt_writes(t.download_dir) + rest);
        lemma_middle(head, opt_writes(s.download_dir), opt_writes(t.download_dir), rest);
        lemma_opt(s.download_dir, t.download_dir);
    } else if t == (SettingsView { host_mappings: t.host_mappings, ..s }) {
        let before = head + opt_writes(s.download_dir);
        assert(x =~= before + rules_writes(s.host_mappings) + opt_writes(s.dns));
        assert(y =~= before + rules_writes(t.host_mappings) + opt_writes(s.dns));
        lemma_middle(
            before,
            rules_writes(s.host_mappings),
            rules_writes(t.host_mappings),
            opt_writes(s.dns),
        );
        lemma_rules(s.host_mappings, t.host_mappings);
    } else if t == (SettingsView { dns: t.dns, ..s }) {
        let before = head + opt_writes(s.download_dir) + rules_writes(s.host_mappings);
        assert(x =~= before + opt_writes(s.dns) + none);
        assert(y =~= before + opt_writes(t.dns) + none);
        lemma_middle(before, opt_writes(s.dns), opt_writes(t.dns), none);
        lemma_opt(s.dns, t.dns);
    }
}

/// As many downloads with one trace are of the same tasks, with as many threads, and
/// run or do not run alike.
pub proof fn law_a_change_of_a_download_leaves_a_trace(
    a: Seq<PersistedDownload>,
    b: Seq<PersistedDownload>,
    n: int,
    i: int,
)
    requires
        0 <= i < n,
        n <= a.len(),
        n <= b.len(),
        downloads_writes(a, n) == downloads_writes(b, n),
    ensures
        a[i].task_id@ == b[i].task_id@,
        a[i].out_dir@ == b[i].out_dir@,
        a[i].filename@ == b[i].filename@,
        a[i].threads == b[i].threads,
        a[i].was_running == b[i].was_running,
    decreases n,
{
    let x = downloads_writes(a, n);
    let y = downloads_writes(b, n);
    lemma_downloads_len(a, n - 1);
    lemma_downloads_len(b, n - 1);
    let m = 8 * (n - 1);
    assert(x.take(m) =~= downloads_writes(a, n - 1));
    assert(y.take(m) =~= downloads_writes(b, n - 1));
    if i < n - 1 {
        law_a_change_of_a_download_leaves_a_trace(a, b, n - 1, i);
    } else {
        let p = a[i];
        let q = b[i];
        assert(x[m] == encode_utf8(p.task_id@) && y[m] == encode_utf8(q.task_id@));
        assert(x[m + 2] == encode_utf8(p.out_dir@) && y[m + 2] == encode_utf8(q.out_dir@));
        assert(x[m + 4] == encode_utf8(p.filename@) && y[m + 4] == encode_utf8(q.filename@));
        assert(x[m + 6] == le8(p.threads as u64) && y[m + 6] == le8(q.threads as u64));
        assert(x[m + 7] == flag_write(p.was_running)[0] && y[m + 7] == flag_write(
            q.was_running,
        )[0]);
        assert(flag_write(p.was_running) =~= flag_write(q.was_running));
        lemma_text(p.task_id@, q.task_id@);
        lemma_text(p.out_dir@, q.out_dir@);
        lemma_text(p.filename@, q.filename@);
        lemma_le8(p.threads as u64, q.threads as u64);
        lemma_flag(p.was_running, q.was_running);
    }
}

proof fn lemma_downloads_len(a: Seq<PersistedDownload>, n: int)
    requires
        0 <= n <= a.len(),
    ensures
        downloads_writes(a, n).len() == 8 * n,
    decreases n,
{
    if n > 0 {
        lemma_downloads_len(a, n - 1);
    }
}

/// The tasks that last are those that are to be saved, in their order.
pub proof fn law_tasks_that_are_to_be_saved_last(l: Seq<TaskSlot>, t: TaskSlot)
    ensures
        lasting(Seq::<TaskSlot>::empty()) == Seq::<TaskSlot>::empty(),
        t.entry@.config.persist ==> lasting(l.push(t)) == lasting(l).push(t),
        !t.entry@.config.persist ==> lasting(l.push(t)) == lasting(l),
{
    assert(l.push(t).drop_last() =~= l);
}

/// Of what was saved under one id the last counts, and each id comes back once.
pub proof fn law_the_last_saved_counts(
    ids: Seq<Seq<char>>,
    l: Seq<PersistedTask>,
    n: int,
    id: Seq<char>,
)
    requires
        0 <= n <= l.len(),
    ensures
        last_saved(l, id, n) is Some ==> 0 <= last_saved(l, id, n)->0 < n && l[last_saved(
            l,
            id,
            n,
        )->0].id@ == id && forall|j: int|
            last_saved(l, id, n)->0 < j < n ==> (#[trigger] l[j]).id@ != id,
        last_saved(l, id, n) is None ==> forall|j: int| 0 <= j < n ==> (#[trigger] l[j]).id@ != id,
        ids_with(ids, l, n).contains(id) <==> ids.contains(id) || last_saved(l, id, n) is Some,
        ids.no_duplicates() ==> ids_with(ids, l, n).no_duplicates(),
    decreases n,
{
    if n > 0 {
        law_the_last_saved_counts(ids, l, n - 1, id);
        law_the_last_saved_counts(ids, l, n - 1, l[n - 1].id@);
        let front = ids_with(ids, l, n - 1);
        let new = l[n - 1].id@;
        if !front.contains(new) {
            let all = front.push(new);
            if front.contains(id) {
                let i = choose|i: int| 0 <= i < front.len() && front[i] == id;
                assert(all[i] == id);
            }
            if all.contains(id) {
                let i = choose|i: int| 0 <= i < all.len() && all[i] == id;
                if i < front.len() {
                    assert(front[i] == id);
                }
            }
            assert(all[front.len() as int] == new);
            if ids.no_duplicates() {
                assert forall|i: int, j: int| 0 <= i < all.len() && 0 <= j < all.len() && i
                    != j implies all[i] != all[j] by {
                    if i < front.len() {
                        assert(front.contains(front[i]));
                    }
                    if j < front.len() {
                        assert(front.contains(front[j]));
                    }
                }
            }
        }
    }
}

/// Rules for hosts that were saved hold again where they can be read, and the name
/// server that was saved is asked again where it is ready. What cannot be restored
/// leaves things as they were.
pub proof fn law_saved_hosts_hold_again(h: StateView, s: SettingsView, ready: bool)
    ensures
        ({
            let after = restored_hosts(h, s, ready);
            let readable = table_of(s.host_mappings, s.host_mappings.len() as int) is Ok;
            &&& readable ==> after.rules == s.host_mappings
            &&& !readable ==> after.rules == h.rules
            &&& mode_of(s.dns) == Ok::<DnsView, Seq<char>>(DnsView::System) ==> after.dns is None
            &&& mode_of(s.dns) is Err ==> after.dns == h.dns
            &&& (mode_of(s.dns) matches Ok(DnsView::Dot(d)) && ready) ==> after.dns == Some(
                (mode_of(s.dns)->Ok_0)->Dot_0,
            )
            &&& (mode_of(s.dns) matches Ok(DnsView::Dot(d)) && !ready) ==> after.dns == h.dns
        }),
{
}

/// The size that is shown for a URL is that of the last volume that it belongs to.
pub proof fn law_a_url_has_the_size_of_its_volume(
    l: Seq<VolumeMeta>,
    url: Seq<char>,
    k: int,
    n: int,
)
    requires
        0 <= k < n <= l.len(),
        views(l[k].urls@).contains(url),
        forall|j: int| k < j < n ==> !views((#[trigger] l[j]).urls@).contains(url),
    ensures
        size_of(l, url, n) == Some(l[k].size),
    decreases n,
{
    if k < n - 1 {
        assert(!views(l[n - 1].urls@).contains(url));
        law_a_url_has_the_size_of_its_volume(l, url, k, n - 1);
    }
}

/// The first plugin whose settings are refused is reported, and none where all are
/// accepted.
pub proof fn law_the_first_refused_plugin_is_reported(
    l: Seq<(Seq<char>, Seq<char>)>,
    checks: Seq<Option<Seq<char>>>,
    i: int,
    k: int,
)
    requires
        l.len() == checks.len(),
        0 <= i <= k <= l.len(),
        forall|j: int| i <= j < k ==> (#[trigger] checks[j]) is None,
    ensures
        k < l.len() && checks[k] is Some ==> plugin_fault(l, checks, i) == Some(
            "plugin '"@ + l[k].0 + ("' global config: "@ + checks[k]->0),
        ),
        k == l.len() ==> plugin_fault(l, checks, i) is None,
    decreases k - i,
{
    if i < k {
        assert(checks[i] is None);
        law_the_first_refused_plugin_is_reported(l, checks, i + 1, k);
    }
}

/// An id is six small letters and digits, and every one of the thirty-six can stand in
/// each place.
pub proof fn law_an_id_is_six_letters_and_digits(bytes: Seq<u8>, i: int, a: int, b: int)
    requires
        bytes.len() >= 6,
        0 <= i < 6,
        0 <= a < 36,
        0 <= b < 36,
    ensures
        id_of(bytes).len() == 6,
        'a' <= id_of(bytes)[i] <= 'z' || '0' <= id_of(bytes)[i] <= '9',
        id_char(a) == id_char(b) ==> a == b,
        bytes[i] == a ==> id_of(bytes)[i] == id_char(a),
{
}

/// As many settings of plugins, under the same names, that leave one trace are the
/// same.
pub proof fn law_a_change_of_a_plugins_settings_leaves_a_trace(
    s: SettingsView,
    t: SettingsView,
    i: int,
)
    requires
        t == (SettingsView { plugin_globals: t.plugin_globals, ..s }),
        s.plugin_globals.len() == t.plugin_globals.len(),
        forall|k: int|
            0 <= k < s.plugin_globals.len() ==> (#[trigger] s.plugin_globals[k]).0
                == t.plugin_globals[k].0,
        forall|j: int, k: int|
            0 <= j < k < s.plugin_globals.len() ==> (#[trigger] s.plugin_globals[j]).0 != (
            #[trigger] s.plugin_globals[k]).0,
        0 <= i < s.plugin_globals.len(),
        settings_writes(s) == settings_writes(t),
    ensures
        s.plugin_globals[i].1 == t.plugin_globals[i].1,
{
    let a = s.plugin_globals;
    let b = t.plugin_globals;
    let na = a.map_values(|p: (Seq<char>, Seq<char>)| p.0);
    let nb = b.map_values(|p: (Seq<char>, Seq<char>)| p.0);
    assert(na =~= nb);
    let keys = in_order(encoded(na));
    let n = keys.len() as int;
    let head = seq![le8(s.rate_bps), seq![crate::models::persist::algorithm_code(s.algorithm)]];
    let o = opt_writes(s.download_dir);
    let r = rules_writes(s.host_mappings);
    let d = opt_writes(s.dns);
    lemma_three(head + globals_writes(keys, a, n), o, r, d);
    lemma_three(head + globals_writes(keys, b, n), o, r, d);
    assert(settings_writes(s) == head + globals_writes(keys, a, n) + o + r + d);
    assert(settings_writes(t) == head + globals_writes(keys, b, n) + o + r + d);
    lemma_middle(head, globals_writes(keys, a, n), globals_writes(keys, b, n), o + r + d);
    lemma_same_globals(a, b, na, keys, i);
}

proof fn lemma_same_globals(
    a: Seq<(Seq<char>, Seq<char>)>,
    b: Seq<(Seq<char>, Seq<char>)>,
    na: Seq<Seq<char>>,
    keys: Seq<Seq<u8>>,
    i: int,
)
    requires
        a.len() == b.len(),
        na.len() == a.len(),
        forall|k: int| 0 <= k < a.len() ==> (#[trigger] a[k]).0 == b[k].0,
        forall|k: int| 0 <= k < a.len() ==> (#[trigger] a[k]).0 == na[k],
        forall|j: int, k: int| 0 <= j < k < a.len() ==> (#[trigger] a[j]).0 != (#[trigger] a[k]).0,
        keys == in_order(encoded(na)),
        globals_writes(keys, a, keys.len() as int) == globals_writes(keys, b, keys.len() as int),
        0 <= i < a.len(),
    ensures
        a[i].1 == b[i].1,
{
    let n = keys.len() as int;
    lemma_by_bytes_is_total();
    encoded(na).lemma_sort_by_ensures(by_bytes());
    encoded(na).to_multiset_ensures();
    keys.to_multiset_ensures();
    assert forall|k: int| 0 <= k < n implies value_from(a, #[trigger] keys[k], 0) is Some
        && value_from(b, keys[k], 0) is Some by {
        assert(keys.contains(keys[k]));
        assert(encoded(na).contains(keys[k]));
        let j = choose|j: int| 0 <= j < encoded(na).len() && encoded(na)[j] == keys[k];
        assert(encode_utf8(a[j].0) == keys[k]);
        assert(encode_utf8(b[j].0) == keys[k]);
        lemma_value_there(a, keys[k], 0, j);
        lemma_value_there(b, keys[k], 0, j);
    }
    let key = encode_utf8(a[i].0);
    assert(encoded(na)[i] == key);
    assert(encoded(na).contains(key));
    assert(encoded(na).to_multiset().count(key) > 0);
    assert(keys.to_multiset() == encoded(na).to_multiset());
    assert(keys.to_multiset().count(key) > 0);
    assert(keys.contains(key));
    let k = choose|k: int| 0 <= k < keys.len() && keys[k] == key;
    lemma_globals(keys, a, b, n, k);
    lemma_value_is(a, i, 0);
    assert(encode_utf8(b[i].0) == key);
    assert forall|j: int, k: int| 0 <= j < k < b.len() implies (#[trigger] b[j]).0 != (
    #[trigger] b[k]).0 by {
        assert(a[j].0 != a[k].0);
    }
    lemma_value_is(b, i, 0);
}

proof fn lemma_value_there(l: Seq<(Seq<char>, Seq<char>)>, key: Seq<u8>, i: int, k: int)
    requires
        0 <= i <= k < l.len(),
        encode_utf8(l[k].0) == key,
    ensures
        value_from(l, key, i) is Some,
    decreases k - i,
{
    if encode_utf8(l[i].0) != key {
        lemma_value_there(l, key, i + 1, k);
    }
}

proof fn lemma_value_is(l: Seq<(Seq<char>, Seq<char>)>, k: int, i: int)
    requires
        0 <= i <= k < l.len(),
        forall|j: int, k: int| 0 <= j < k < l.len() ==> (#[trigger] l[j]).0 != (#[trigger] l[k]).0,
    ensures
        value_from(l, encode_utf8(l[k].0), i) == Some(l[k].1),
    decreases k - i,
{
    if i < k {
        if encode_utf8(l[i].0) == encode_utf8(l[k].0) {
            lemma_text(l[i].0, l[k].0);
        }
        lemma_value_is(l, k, i + 1);
    }
}

proof fn lemma_globals(
    keys: Seq<Seq<u8>>,
    a: Seq<(Seq<char>, Seq<char>)>,
    b: Seq<(Seq<char>, Seq<char>)>,
    n: int,
    k: int,
)
    requires
        0 <= k < n <= keys.len(),
        globals_writes(keys, a, n) == globals_writes(keys, b, n),
        forall|k: int|
            0 <= k < n ==> value_from(a, #[trigger] keys[k], 0) is Some && value_from(
                b,
                keys[k],
                0,
            ) is Some,
    ensures
        value_from(a, keys[k], 0) == value_from(b, keys[k], 0),
    decreases n,
{
    let x = globals_writes(keys, a, n);
    let y = globals_writes(keys, b, n);
    lemma_globals_len(keys, a, n - 1);
    lemma_globals_len(keys, b, n - 1);
    let m = 4 * (n - 1);
    assert(value_from(a, keys[n - 1], 0) is Some);
    assert(value_from(b, keys[n - 1], 0) is Some);
    assert(x.take(m) =~= globals_writes(keys, a, n - 1));
    assert(y.take(m) =~= globals_writes(keys, b, n - 1));
    if k < n - 1 {
        lemma_globals(keys, a, b, n - 1, k);
    } else {
        let p = value_from(a, keys[k], 0)->0;
        let q = value_from(b, keys[k], 0)->0;
        assert(x[m + 2] == encode_utf8(p));
        assert(y[m + 2] == encode_utf8(q));
        lemma_text(p, q);
    }
}

proof fn lemma_globals_len(keys: Seq<Seq<u8>>, l: Seq<(Seq<char>, Seq<char>)>, n: int)
    requires
        0 <= n <= keys.len(),
        forall|k: int| 0 <= k < n ==> value_from(l, #[trigger] keys[k], 0) is Some,
    ensures
        globals_writes(keys, l, n).len() == 4 * n,
    decreases n,
{
    if n > 0 {
        assert(value_from(l, keys[n - 1], 0) is Some);
        lemma_globals_len(keys, l, n - 1);
    }
}

} // verus!
