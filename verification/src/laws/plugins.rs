//! What plugins are given and what they write.

use crate::codec::{hex_of, law_hex_reads_back};
use crate::num::imax;
use crate::plugins::{assembled, live_slots, plugin_from, SharedTransform, TaskPluginConfig};
use crate::plugins::chacha20::{
    buffer_for, chunk_len, ends_in_marker, fixed_sizes, hex_field, padded, random_floor, replaced,
    secret_of, separates, single_dots, size_value, slice_lens, stripped, unseparated, volume_name,
    written, ForwardParams, GlobalCfg, SizeValue,
};
use crate::text::{decimal, digits_value, lemma_trimmed_solid, part_from, stands_at, trimmed, white};
use vstd::prelude::*;

verus! {

/// Nothing but white space counts as nothing.
pub proof fn law_blank_is_not_written(s: Seq<char>)
    ensures
        written(None) is None,
        trimmed(s).len() == 0 ==> written(Some(s)) is None,
        trimmed(s).len() > 0 ==> written(Some(s)) == Some(trimmed(s)),
{
}

proof fn lemma_hex_solid(k: Seq<u8>)
    ensures
        trimmed(hex_of(k)) == hex_of(k),
        hex_of(k).len() == 2 * k.len(),
{
    let t = hex_of(k);
    assert forall|i: int| 0 <= i < t.len() implies !white(#[trigger] t[i]) by {
        let b = k[i / 2];
    }
    lemma_trimmed_solid(t);
}

/// Bytes that are written in hexadecimal are read back where there are as many as
/// there should be, and refused where there are not.
pub proof fn law_a_hexadecimal_field_reads_back(k: Seq<u8>, name: Seq<char>, len: int)
    requires
        k.len() > 0,
        0 <= len,
    ensures
        k.len() == len ==> hex_field(Some(hex_of(k)), name, len) == Ok::<
            Option<Seq<u8>>,
            Seq<char>,
        >(Some(k)),
        k.len() != len ==> hex_field(Some(hex_of(k)), name, len) is Err,
        hex_field(None, name, len) == Ok::<Option<Seq<u8>>, Seq<char>>(None),
{
    law_hex_reads_back(k);
    lemma_hex_solid(k);
}

/// A key and a nonce that are given apart are read back; one without the other is
/// refused, and with neither there is no secret.
pub proof fn law_a_key_and_a_nonce_read_back(k: Seq<u8>, n: Seq<u8>)
    requires
        k.len() == 32,
        n.len() == 12,
    ensures
        secret_of(None, Some(hex_of(k)), Some(hex_of(n))) == Ok::<
            Option<(Seq<u8>, Seq<u8>)>,
            Seq<char>,
        >(Some((k, n))),
        secret_of(None, Some(hex_of(k)), None) is Err,
        secret_of(None, None, Some(hex_of(n))) is Err,
        secret_of(None, None, None) == Ok::<Option<(Seq<u8>, Seq<u8>)>, Seq<char>>(None),
{
    law_a_hexadecimal_field_reads_back(k, "key"@, 32);
    law_a_hexadecimal_field_reads_back(n, "nonce"@, 12);
}

/// Volumes of a fixed size are all as large as they may be but the last, which holds
/// what is left, and together they are the whole.
pub proof fn law_fixed_volumes_are_full(total: int, max: int, i: int)
    requires
        0 < total <= u64::MAX,
        0 < max <= u64::MAX,
        0 <= i < fixed_sizes(total, max).len(),
    ensures
        ({
            let l = fixed_sizes(total, max);
            &&& i < l.len() - 1 ==> l[i] == max
            &&& 1 <= l[i] <= max
            &&& (l.len() - 1) * max + l[l.len() - 1] == total
        }),
    decreases total,
{
    let l = fixed_sizes(total, max);
    if total <= max {
        assert(0 * max == 0);
    } else {
        let rest = fixed_sizes(total - max, max);
        assert(l =~= seq![max as u64] + rest);
        assert(rest.len() > 0);
        law_fixed_volumes_are_full(total - max, max, if i > 0 {
            i - 1
        } else {
            0
        });
        if i > 0 {
            assert(l[i] == rest[i - 1]);
        }
        assert(l[l.len() - 1] == rest[rest.len() - 1]);
        assert((l.len() - 1) * max == (rest.len() - 1) * max + max) by (nonlinear_arith)
            requires
                l.len() == rest.len() + 1,
        ;
    }
}

/// Volumes of random size are half as large as they may be at least, and 1 MiB where
/// they may be that large.
pub proof fn law_random_volumes_are_not_small(max: u64)
    ensures
        2 * random_floor(max) + 1 >= max,
        max >= 1_048_576 ==> random_floor(max) >= 1_048_576,
        max < 1_048_576 ==> random_floor(max) == max,
        random_floor(max) <= max,
        max >= 2_097_152 ==> random_floor(max) == max as int / 2,
{
}

/// A volume's number is written with as many digits as there are in the number of
/// volumes, with zeros in front.
pub proof fn law_numbers_are_padded(n: nat, width: int)
    ensures
        padded(n, width).len() >= width,
        padded(n, width).len() >= decimal(n).len(),
        padded(n, width).len() == width || padded(n, width) == decimal(n),
        padded(n, width).skip(padded(n, width).len() - decimal(n).len()) == decimal(n),
        forall|i: int|
            0 <= i < padded(n, width).len() - decimal(n).len() ==> #[trigger] padded(n, width)[i]
                == '0',
{
    let zeros = Seq::new(imax(width - decimal(n).len(), 0) as nat, |i: int| '0');
    assert(padded(n, width).skip(padded(n, width).len() - decimal(n).len()) =~= decimal(n));
    if zeros.len() == 0 {
        assert(padded(n, width) =~= decimal(n));
    }
}

proof fn lemma_part_at(a: Seq<char>, b: Seq<char>, i: int)
    requires
        forall|j: int| 0 <= j < a.len() ==> a[j] != '{',
        0 <= i <= a.len(),
    ensures
        part_from(a + (seq!['{', 'N', '}'] + b), seq!['{', 'N', '}'], i) == Some(a.len() as int),
    decreases a.len() - i,
{
    let m = seq!['{', 'N', '}'];
    let s = a + (m + b);
    if i == a.len() {
        assert(s.subrange(i, i + 3) =~= m);
        assert(stands_at(s, i, m));
    } else {
        assert(s.subrange(i, i + 3)[0] == s[i]) by {
            assert(i + 3 <= s.len());
        }
        assert(s[i] == a[i]);
        assert(m[0] == '{');
        assert(!stands_at(s, i, m));
        lemma_part_at(a, b, i + 1);
    }
}

proof fn lemma_no_part(s: Seq<char>, i: int)
    requires
        forall|j: int| 0 <= j < s.len() ==> s[j] != '{',
        0 <= i,
    ensures
        part_from(s, seq!['{', 'N', '}'], i) is None,
    decreases s.len() + 1 - i,
{
    let m = seq!['{', 'N', '}'];
    if i <= s.len() {
        if stands_at(s, i, m) {
            assert(s.subrange(i, i + 3)[0] == s[i]);
            assert(m[0] == '{');
        }
        lemma_no_part(s, i + 1);
    }
}

/// The marker in a template gives way to the volume's number, which begins with one,
/// and the rest of the template stays.
pub proof fn law_a_volume_is_named_by_its_number(
    p: ForwardParams,
    stem: Option<Seq<char>>,
    a: Seq<char>,
    b: Seq<char>,
    idx: int,
    count: int,
)
    requires
        0 <= idx < count,
        count > 1,
        forall|j: int| 0 <= j < a.len() ==> a[j] != '{',
        forall|j: int| 0 <= j < b.len() ==> b[j] != '{',
        p.volume_suffix is Some,
        p.volume_suffix->0@ == a + (seq!['{', 'N', '}'] + b),
        trimmed(p.volume_suffix->0@) == p.volume_suffix->0@,
        p.filename_prefix is None,
        stem is Some,
    ensures
        volume_name(p, stem, idx, count) == stem->0 + (a + padded(
            (idx + 1) as nat,
            decimal(count as nat).len() as int,
        ) + b),
{
    let m = seq!['{', 'N', '}'];
    let t = a + (m + b);
    let with = padded((idx + 1) as nat, decimal(count as nat).len() as int);
    lemma_part_at(a, b, 0);
    lemma_no_part(b, 0);
    assert(t.take(a.len() as int) =~= a);
    assert(t.skip(a.len() as int + 3) =~= b);
    assert(replaced(b, m, with) == b);
    assert(replaced(t, m, with) == a + with + b);
}

/// Two volumes of one file never share a name.
pub proof fn law_volumes_have_names_of_their_own(
    p: ForwardParams,
    stem: Option<Seq<char>>,
    a: Seq<char>,
    b: Seq<char>,
    i: int,
    j: int,
    count: int,
)
    requires
        0 <= i < count,
        0 <= j < count,
        count > 1,
        forall|k: int| 0 <= k < a.len() ==> a[k] != '{',
        forall|k: int| 0 <= k < b.len() ==> b[k] != '{',
        p.volume_suffix is Some,
        p.volume_suffix->0@ == a + (seq!['{', 'N', '}'] + b),
        trimmed(p.volume_suffix->0@) == p.volume_suffix->0@,
        p.filename_prefix is None,
        stem is Some,
        volume_name(p, stem, i, count) == volume_name(p, stem, j, count),
    ensures
        i == j,
{
    law_a_volume_is_named_by_its_number(p, stem, a, b, i, count);
    law_a_volume_is_named_by_its_number(p, stem, a, b, j, count);
    let w = decimal(count as nat).len() as int;
    let x = padded((i + 1) as nat, w);
    let y = padded((j + 1) as nat, w);
    let f = stem->0;
    let s = f + (a + x + b);
    let t = f + (a + y + b);
    assert(s == t);
    assert(s.len() == f.len() + a.len() + x.len() + b.len());
    assert(x.len() == y.len());
    assert(x =~= s.subrange(f.len() as int + a.len() as int, s.len() - b.len()));
    assert(y =~= t.subrange(f.len() as int + a.len() as int, t.len() - b.len()));
    lemma_padded_value((i + 1) as nat, w);
    lemma_padded_value((j + 1) as nat, w);
}

proof fn lemma_padded_value(n: nat, width: int)
    ensures
        digits_value(padded(n, width)) == n,
{
    let z = imax(width - decimal(n).len(), 0) as nat;
    crate::text::law_decimal_reads_back(n);
    lemma_zeros_value(z, decimal(n));
    assert(padded(n, width) =~= Seq::new(z, |i: int| '0') + decimal(n));
}

proof fn lemma_zeros_value(z: nat, d: Seq<char>)
    ensures
        digits_value(Seq::new(z, |i: int| '0') + d) == digits_value(d),
    decreases z + d.len(),
{
    let zeros = Seq::new(z, |i: int| '0');
    let s = zeros + d;
    if d.len() > 0 {
        assert(s.drop_last() =~= zeros + d.drop_last());
        assert(s.last() == d.last());
        lemma_zeros_value(z, d.drop_last());
    } else if z > 0 {
        let fewer = Seq::new((z - 1) as nat, |i: int| '0');
        assert(s.drop_last() =~= fewer + d);
        assert(s.last() == '0');
        lemma_zeros_value((z - 1) as nat, d);
    } else {
        assert(s =~= d);
    }
}

/// The buffer is as large as was asked for, between 4 KiB and 64 MiB, and 4 MiB where
/// nothing, or nothing readable, was asked for.
pub proof fn law_a_buffer_stays_in_bounds(g: GlobalCfg, n: u64)
    ensures
        4_096 <= buffer_for(g) <= 67_108_864,
        g.buffer_size is None ==> buffer_for(g) == 4_194_304,
        g.buffer_size == Some(SizeValue::Number(Some(n))) && 4_096 <= n <= 67_108_864
            ==> buffer_for(g) == n,
        g.buffer_size == Some(SizeValue::Number(Some(n))) && 0 < n < 4_096 ==> buffer_for(g)
            == 4_096,
        g.buffer_size == Some(SizeValue::Number(Some(n))) && n > 67_108_864 ==> buffer_for(g)
            == 67_108_864,
        g.buffer_size == Some(SizeValue::Number(Some(0))) ==> buffer_for(g) == 4_194_304,
        g.buffer_size is Some && size_value(g.buffer_size->0, "buffer_size"@) is Err ==> buffer_for(
            g,
        ) == 4_194_304,
{
}

/// A buffer is cut at block boundaries into at most as many chunks as there are
/// workers, but for what does not fill a block.
pub proof fn law_chunks_are_whole_blocks(len: int, workers: int)
    requires
        0 <= len,
        1 <= workers,
    ensures
        chunk_len(len, workers) % 64 == 0,
        chunk_len(len, workers) >= 64,
        chunk_len(len, workers) * workers + 64 > len,
{
    let b = len / 64;
    let q = crate::num::ceil_div(b, workers);
    let d = b / workers;
    let r = b % workers;
    assert(d * workers + r == b && 0 <= r < workers && d >= 0) by (nonlinear_arith)
        requires
            d == b / workers,
            r == b % workers,
            b >= 0,
            workers >= 1,
    ;
    assert((d + 1) * workers == d * workers + workers) by (nonlinear_arith);
    assert(q * workers >= b);
    let m = imax(q, 1);
    assert(m * workers >= b) by (nonlinear_arith)
        requires
            m >= q,
            q * workers >= b,
            workers >= 1,
    ;
    assert((m * 64) * workers == 64 * (m * workers)) by (nonlinear_arith);
}

/// A plugin is found under its id.
pub proof fn law_a_plugin_is_found_by_its_id<P>(by_id: Seq<(String, P)>, id: Seq<char>, k: int)
    requires
        0 <= k < by_id.len(),
        by_id[k].0@ == id,
        forall|i: int| 0 <= i < k ==> (#[trigger] by_id[i]).0@ != id,
    ensures
        plugin_from(by_id, id, 0) == Some(k),
{
    lemma_plugin(by_id, id, 0, k);
}

proof fn lemma_plugin<P>(by_id: Seq<(String, P)>, id: Seq<char>, i: int, k: int)
    requires
        0 <= i <= k < by_id.len(),
        by_id[k].0@ == id,
        forall|i: int| 0 <= i < k ==> (#[trigger] by_id[i]).0@ != id,
    ensures
        plugin_from(by_id, id, i) == Some(k),
    decreases k - i,
{
    if i < k {
        lemma_plugin(by_id, id, i + 1, k);
    }
}

/// Of a task's plugins those count that are switched on and known, in their order.
pub proof fn law_plugins_that_are_on_count<P>(
    by_id: Seq<(String, P)>,
    configs: Seq<TaskPluginConfig>,
    n: int,
)
    requires
        0 < n <= configs.len() <= usize::MAX,
    ensures
        live_slots(by_id, configs, 0) == Seq::<(usize, usize)>::empty(),
        !configs[n - 1].enabled || plugin_from(by_id, configs[n - 1].id@, 0) is None
            ==> live_slots(by_id, configs, n) == live_slots(by_id, configs, n - 1),
        configs[n - 1].enabled && plugin_from(by_id, configs[n - 1].id@, 0) is Some
            ==> live_slots(by_id, configs, n) == live_slots(by_id, configs, n - 1).push(
            ((n - 1) as usize, plugin_from(by_id, configs[n - 1].id@, 0)->0 as usize),
        ),
{
}

/// A pipeline is made of all that was built, in order, and only if nothing failed.
pub proof fn law_a_pipeline_holds_all_that_was_built(
    slots: Seq<(usize, usize)>,
    configs: Seq<TaskPluginConfig>,
    built: Seq<Result<SharedTransform, String>>,
    n: int,
    i: int,
)
    requires
        0 <= i < n <= built.len(),
    ensures
        assembled(slots, configs, built, n) is Ok ==> {
            let l = assembled(slots, configs, built, n)->Ok_0;
            l.len() == n && built[i] is Ok && l[i] == built[i]->Ok_0
        },
        built[i] is Err ==> assembled(slots, configs, built, n) is Err,
        (forall|k: int| 0 <= k < n ==> (#[trigger] built[k]) is Ok) ==> assembled(
            slots,
            configs,
            built,
            n,
        ) is Ok,
    decreases n,
{
    lemma_assembled_len(slots, configs, built, n - 1);
    if i < n - 1 {
        law_a_pipeline_holds_all_that_was_built(slots, configs, built, n - 1, i);
    } else if n > 1 {
        law_a_pipeline_holds_all_that_was_built(slots, configs, built, n - 1, 0);
    }
    assert(built[n - 1] is Ok || built[n - 1] is Err);
}

proof fn lemma_assembled_len(
    slots: Seq<(usize, usize)>,
    configs: Seq<TaskPluginConfig>,
    built: Seq<Result<SharedTransform, String>>,
    n: int,
)
    requires
        0 <= n,
    ensures
        assembled(slots, configs, built, n) is Ok ==> assembled(
            slots,
            configs,
            built,
            n,
        )->Ok_0.len() == n,
    decreases n,
{
    if n > 0 {
        lemma_assembled_len(slots, configs, built, n - 1);
    }
}

/// A size in a form is a number of bytes or a text with a unit; nothing, or a blank
/// text, is no size at all.
pub proof fn law_a_size_in_a_form_is_read(v: SizeValue, field: Seq<char>, n: u64)
    ensures
        v == SizeValue::Null ==> size_value(v, field) == Ok::<int, Seq<char>>(0),
        v == SizeValue::Number(Some(n)) ==> size_value(v, field) == Ok::<int, Seq<char>>(n as int),
        v == SizeValue::Number(None) ==> size_value(v, field) is Err,
        v is Other ==> size_value(v, field) is Err,
        v is Text && trimmed(v->Text_0@).len() == 0 ==> size_value(v, field) == Ok::<
            int,
            Seq<char>,
        >(0),
        v is Text && trimmed(v->Text_0@).len() > 0 ==> (size_value(v, field) is Ok
            <==> crate::sizes::size_asked(trimmed(v->Text_0@)) is Ok),
        v is Text && size_value(v, field) is Ok && trimmed(v->Text_0@).len() > 0 ==> size_value(
            v,
            field,
        )->Ok_0 == crate::sizes::size_asked(trimmed(v->Text_0@))->Ok_0,
{
}

proof fn lemma_dots_kept(s: Seq<char>, dot: bool)
    requires
        forall|i: int| 0 <= i < s.len() - 1 ==> !(#[trigger] s[i] == '.' && s[i + 1] == '.'),
        dot && s.len() > 0 ==> s[0] != '.',
    ensures
        single_dots(s, dot) == s,
    decreases s.len(),
{
    if s.len() > 0 {
        let t = s.drop_first();
        assert forall|i: int| 0 <= i < t.len() - 1 implies !(#[trigger] t[i] == '.' && t[i + 1]
            == '.') by {
            assert(!(s[i + 1] == '.' && s[i + 2] == '.'));
        }
        if t.len() > 0 {
            assert(!(s[0] == '.' && s[1] == '.'));
        }
        lemma_dots_kept(t, s[0] == '.');
        assert(seq![s[0]] + t =~= s);
    } else {
        assert(single_dots(s, dot) =~= s);
    }
}

proof fn lemma_marker_inside(a: Seq<char>, b: Seq<char>)
    requires
        b.len() > 0,
        !separates(b.last()),
        b.last() != '}',
    ensures
        !ends_in_marker(a + b),
{
    let s = a + b;
    assert(s.last() == b.last());
}

/// A file that is written as one has no number: the marker is left out, and where the
/// name ends with it, so is what separated it from the rest.
pub proof fn law_a_single_volume_has_no_number(a: Seq<char>, sep: char, b: Seq<char>)
    requires
        forall|j: int| 0 <= j < a.len() ==> a[j] != '{',
        forall|j: int| 0 <= j < b.len() ==> b[j] != '{',
        a.len() > 0,
        !separates(a.last()),
        separates(sep),
        forall|i: int| 0 <= i < a.len() - 1 ==> !(#[trigger] a[i] == '.' && a[i + 1] == '.'),
        forall|i: int| 0 <= i < b.len() - 1 ==> !(#[trigger] b[i] == '.' && b[i + 1] == '.'),
    ensures
        stripped(a + (seq!['{', 'N', '}'] + seq![])) == a,
        b.len() > 0 && !separates(b.last()) && b.last() != '}' ==> stripped(
            a + (seq!['{', 'N', '}'] + b),
        ) == a + b,
{
    let m = seq!['{', 'N', '}'];
    let none = Seq::<char>::empty();
    let t = a + (m + none);
    lemma_part_at(a, none, 0);
    lemma_no_part(none, 0);
    assert(t.take(a.len() as int) =~= a);
    assert(t.skip(a.len() as int + 3) =~= none);
    assert(replaced(none, m, none) == none);
    assert(replaced(t, m, none) =~= a);
    lemma_dots_kept(a, false);
    assert(unseparated(a) == a);
    if b.len() > 0 && !separates(b.last()) && b.last() != '}' {
        let u = a + (m + b);
        lemma_part_at(a, b, 0);
        lemma_no_part(b, 0);
        assert(u.take(a.len() as int) =~= a);
        assert(u.skip(a.len() as int + 3) =~= b);
        assert(replaced(b, m, none) == b);
        assert(replaced(u, m, none) =~= a + b);
        let s = a + b;
        assert forall|i: int| 0 <= i < s.len() - 1 implies !(#[trigger] s[i] == '.' && s[i + 1]
            == '.') by {
            if i < a.len() - 1 {
                assert(!(a[i] == '.' && a[i + 1] == '.'));
            } else if i == a.len() - 1 {
                assert(s[i] == a.last());
            } else {
                assert(!(b[i - a.len()] == '.' && b[i - a.len() + 1] == '.'));
            }
        }
        lemma_dots_kept(s, false);
        assert(u =~= (a + m) + b);
        lemma_marker_inside(a + m, b);
    }
}

/// A buffer is cut into chunks of one length; only the last may be shorter, or longer
/// by what would not be worth a chunk of its own.
pub proof fn law_chunks_have_one_length(len: int, chunk: int, tail: int, i: int)
    requires
        0 < len,
        chunk >= 1,
        0 <= tail,
        0 <= i < slice_lens(len, chunk, tail).len(),
    ensures
        ({
            let l = slice_lens(len, chunk, tail);
            &&& i < l.len() - 1 ==> l[i] == chunk
            &&& 1 <= l[i] <= chunk + tail
            &&& len > chunk + tail ==> l.len() > 1
        }),
    decreases len,
{
    let l = slice_lens(len, chunk, tail);
    if len > chunk + tail {
        let rest = slice_lens(len - chunk, chunk, tail);
        assert(l =~= seq![chunk] + rest);
        assert(rest.len() > 0);
        law_chunks_have_one_length(len - chunk, chunk, tail, if i > 0 {
            i - 1
        } else {
            0
        });
        if i > 0 {
            assert(l[i] == rest[i - 1]);
        }
    }
}

} // verus!
