//! What the body of a request asks for.

use crate::requests::{
    accepted_fields, alias, first_urls, layout_asked, lists_in, names_urls, other_fields, spells,
    spells_volume, texts_in, unknown_names, value_of, volumes_of, Field, Json,
};
use crate::text::trimmed;
use vstd::prelude::*;

verus! {

/// A list of volumes, each a list of URLs, is taken as it is spelled.
pub proof fn law_volumes_are_taken_as_they_are_spelled(
    v: Json,
    l: Seq<Seq<Seq<char>>>,
    field: Seq<char>,
)
    requires
        l.len() > 0,
        spells(v, l),
        forall|i: int, j: int|
            0 <= i < l.len() && 0 <= j < l[i].len() ==> trimmed(#[trigger] l[i][j]) == l[i][j],
    ensures
        volumes_of(v, field) == Ok::<Seq<Seq<Seq<char>>>, Seq<char>>(l),
{
    let m = v->List_0@;
    let n = m.len() as int;
    assert forall|i: int| 0 <= i < n implies (#[trigger] m[i]) is List by {
        assert(spells_volume(m[i], l[i]));
    }
    lemma_lists(m, l, n);
    assert(l.take(n) =~= l);
}

proof fn lemma_lists(m: Seq<Json>, l: Seq<Seq<Seq<char>>>, n: int)
    requires
        0 <= n <= m.len(),
        m.len() == l.len(),
        forall|i: int| 0 <= i < m.len() ==> spells_volume(#[trigger] m[i], l[i]),
        forall|i: int, j: int|
            0 <= i < l.len() && 0 <= j < l[i].len() ==> trimmed(#[trigger] l[i][j]) == l[i][j],
    ensures
        lists_in(m, n) == Some(l.take(n)),
    decreases n,
{
    if n > 0 {
        lemma_lists(m, l, n - 1);
        assert(spells_volume(m[n - 1], l[n - 1]));
        let x = m[n - 1]->List_0@;
        assert forall|j: int| 0 <= j < l[n - 1].len() implies trimmed(#[trigger] l[n - 1][j])
            == l[n - 1][j] by {}
        lemma_texts(x, l[n - 1], x.len() as int);
        assert(l[n - 1].take(x.len() as int) =~= l[n - 1]);
        assert(l.take(n - 1).push(l[n - 1]) =~= l.take(n));
    } else {
        assert(l.take(0) =~= seq![]);
    }
}

proof fn lemma_texts(m: Seq<Json>, l: Seq<Seq<char>>, n: int)
    requires
        0 <= n <= m.len(),
        m.len() == l.len(),
        forall|j: int| 0 <= j < m.len() ==> ((#[trigger] m[j]) matches Json::Text(s) && s@ == l[j]),
        forall|j: int| 0 <= j < l.len() ==> trimmed(#[trigger] l[j]) == l[j],
    ensures
        texts_in(m, n) == Some(l.take(n)),
    decreases n,
{
    if n > 0 {
        lemma_texts(m, l, n - 1);
        assert(m[n - 1] is Text);
        assert(trimmed(l[n - 1]) == l[n - 1]);
        assert(l.take(n - 1).push(l[n - 1]) =~= l.take(n));
    } else {
        assert(l.take(0) =~= seq![]);
    }
}

/// A list of URLs is one volume with these mirrors, a single URL one volume with one
/// mirror, and nothing no volume.
pub proof fn law_urls_are_mirrors_of_one_file(v: Json, l: Seq<Seq<char>>, field: Seq<char>)
    requires
        l.len() > 0,
        forall|j: int| 0 <= j < l.len() ==> trimmed(#[trigger] l[j]) == l[j],
    ensures
        spells_volume(v, l) ==> volumes_of(v, field) == Ok::<Seq<Seq<Seq<char>>>, Seq<char>>(seq![l]),
        (v matches Json::Text(s) && s@ == l[0]) ==> volumes_of(v, field) == Ok::<
            Seq<Seq<Seq<char>>>,
            Seq<char>,
        >(seq![seq![l[0]]]),
        v is Null ==> volumes_of(v, field) == Ok::<Seq<Seq<Seq<char>>>, Seq<char>>(Seq::empty()),
{
    if spells_volume(v, l) {
        let m = v->List_0@;
        let n = m.len() as int;
        assert(m[0] is Text);
        assert(!(forall|i: int| 0 <= i < n ==> (#[trigger] m[i]) is List));
        assert(!(exists|i: int| 0 <= i < n && (#[trigger] m[i]) is List));
        lemma_texts(m, l, n);
        assert(l.take(n) =~= l);
    }
}

/// A list that holds both URLs and lists is refused, and so is anything that is
/// neither a text nor a list.
pub proof fn law_mixed_lists_are_refused(v: Json, field: Seq<char>, i: int, j: int)
    ensures
        (v matches Json::List(l) && 0 <= i < l@.len() && 0 <= j < l@.len() && l@[i] is List && !(
        l@[j] is List)) ==> volumes_of(v, field) is Err,
        !(v is Null) && !(v is Text) && !(v is List) ==> volumes_of(v, field) is Err,
{
    if let Json::List(l) = v {
        if 0 <= i < l@.len() && 0 <= j < l@.len() && l@[i] is List && !(l@[j] is List) {
            assert(!(forall|i: int| 0 <= i < l@.len() ==> (#[trigger] l@[i]) is List));
        }
    }
}

/// A field has the value that it was given first.
pub proof fn law_a_field_has_the_value_given(body: Seq<Field>, name: Seq<char>, k: int)
    requires
        0 <= k < body.len(),
        body[k].name@ == name,
        forall|i: int| 0 <= i < k ==> (#[trigger] body[i]).name@ != name,
    ensures
        value_of(body, name, 0) == Some(body[k].value),
{
    lemma_value(body, name, 0, k);
}

proof fn lemma_value(body: Seq<Field>, name: Seq<char>, i: int, k: int)
    requires
        0 <= i <= k < body.len(),
        body[k].name@ == name,
        forall|i: int| 0 <= i < k ==> (#[trigger] body[i]).name@ != name,
    ensures
        value_of(body, name, i) == Some(body[k].value),
    decreases k - i,
{
    if i < k {
        lemma_value(body, name, i + 1, k);
    }
}

/// Whatever it is called, `urls`, `url`, `uris` or `uri`, a field with URLs says what
/// is fetched where nothing else does; of two, the first in that order counts.
pub proof fn law_urls_may_go_by_any_of_their_names(body: Seq<Field>, k: int)
    requires
        0 <= k < 4,
        value_of(body, "volumes"@, 0) is None,
        forall|i: int| 0 <= i < k ==> value_of(body, #[trigger] alias(i), 0) is None,
        value_of(body, alias(k), 0) is Some,
        volumes_of(value_of(body, alias(k), 0)->0, alias(k)) is Ok,
        (volumes_of(value_of(body, alias(k), 0)->0, alias(k))->Ok_0).len() > 0,
        layout_asked(body, 4) is Ok,
    ensures
        layout_asked(body, 4)->Ok_0 == Some(
            volumes_of(value_of(body, alias(k), 0)->0, alias(k))->Ok_0,
        ),
        alias(0) == "urls"@,
        alias(1) == "url"@,
        alias(2) == "uris"@,
        alias(3) == "uri"@,
{
    lemma_layout(body, k, 4);
}

proof fn lemma_layout(body: Seq<Field>, k: int, n: int)
    requires
        0 <= k < 4,
        0 <= n <= 4,
        value_of(body, "volumes"@, 0) is None,
        forall|i: int| 0 <= i < k ==> value_of(body, #[trigger] alias(i), 0) is None,
        value_of(body, alias(k), 0) is Some,
        volumes_of(value_of(body, alias(k), 0)->0, alias(k)) is Ok,
        (volumes_of(value_of(body, alias(k), 0)->0, alias(k))->Ok_0).len() > 0,
        layout_asked(body, n) is Ok,
    ensures
        n <= k ==> layout_asked(body, n)->Ok_0 is None,
        n > k ==> layout_asked(body, n)->Ok_0 == Some(
            volumes_of(value_of(body, alias(k), 0)->0, alias(k))->Ok_0,
        ),
    decreases n,
{
    if n > 0 {
        lemma_layout(body, k, n - 1);
        if n <= k {
            assert(value_of(body, alias(n - 1), 0) is None);
        }
    }
}

/// A field with URLs that cannot be read makes the whole body unreadable.
pub proof fn law_unreadable_urls_are_refused(body: Seq<Field>, k: int)
    requires
        0 <= k < 4,
        value_of(body, alias(k), 0) is Some,
        volumes_of(value_of(body, alias(k), 0)->0, alias(k)) is Err,
    ensures
        layout_asked(body, 4) is Err,
{
    lemma_unreadable(body, k, 4);
}

proof fn lemma_unreadable(body: Seq<Field>, k: int, n: int)
    requires
        0 <= k < n <= 4,
        value_of(body, alias(k), 0) is Some,
        volumes_of(value_of(body, alias(k), 0)->0, alias(k)) is Err,
    ensures
        layout_asked(body, n) is Err,
    decreases n,
{
    if n > k + 1 {
        lemma_unreadable(body, k, n - 1);
    }
}

/// Every field that names no URLs is handed on, in its place, and no other.
pub proof fn law_other_fields_are_handed_on(body: Seq<Field>, f: Field)
    ensures
        other_fields(Seq::<Field>::empty()) == Seq::<Field>::empty(),
        f.name@ == "volumes"@ || f.name@ == "url"@ || f.name@ == "urls"@ || f.name@ == "uri"@
            || f.name@ == "uris"@ ==> other_fields(body.push(f)) == other_fields(body),
        !(f.name@ == "volumes"@ || f.name@ == "url"@ || f.name@ == "urls"@ || f.name@ == "uri"@
            || f.name@ == "uris"@) ==> other_fields(body.push(f)) == other_fields(body).push(f),
{
    assert(body.push(f).drop_last() =~= body);
}

/// The fields that are reported as unknown are exactly those that are not accepted, in
/// their order.
pub proof fn law_unknown_fields_are_reported(
    body: Seq<Field>,
    f: Field,
    accepted: Seq<Seq<char>>,
)
    ensures
        unknown_names(Seq::<Field>::empty(), accepted) == Seq::<Seq<char>>::empty(),
        accepted.contains(f.name@) ==> unknown_names(body.push(f), accepted) == unknown_names(
            body,
            accepted,
        ),
        !accepted.contains(f.name@) ==> unknown_names(body.push(f), accepted) == unknown_names(
            body,
            accepted,
        ).push(f.name@),
{
    assert(body.push(f).drop_last() =~= body);
}

/// Whether to start fetching can be said when a task is made, and not when it is
/// edited. All that can be said in an edit can be said of a new task.
pub proof fn law_starting_is_said_of_a_new_task(name: Seq<char>)
    ensures
        accepted_fields(false).contains("start_cache"@),
        !accepted_fields(true).contains("start_cache"@),
        accepted_fields(true).contains(name) ==> accepted_fields(false).contains(name),
        accepted_fields(false).contains(name) && name != "start_cache"@ ==> accepted_fields(
            true,
        ).contains(name),
        accepted_fields(true).contains("volumes"@),
        accepted_fields(true).contains("url"@),
        accepted_fields(true).contains("headers"@),
        accepted_fields(true).contains("output_filename"@),
        accepted_fields(true).contains("host_mappings"@),
{
    let old_fields = accepted_fields(true);
    let new_fields = accepted_fields(false);
    assert(new_fields[19] == "start_cache"@);
    assert(forall|i: int| 0 <= i < 19 ==> new_fields[i] == #[trigger] old_fields[i]);
    if old_fields.contains(name) {
        let i = choose|i: int| 0 <= i < old_fields.len() && old_fields[i] == name;
        assert(new_fields[i] == name);
    }
    if new_fields.contains(name) && name != "start_cache"@ {
        let i = choose|i: int| 0 <= i < new_fields.len() && new_fields[i] == name;
        assert(old_fields[i] == name);
    }
    assert(old_fields[0] == "volumes"@);
    assert(old_fields[15] == "url"@);
    assert(old_fields[5] == "headers"@);
    assert(old_fields[7] == "output_filename"@);
    assert(old_fields[14] == "host_mappings"@);
    reveal_strlit("start_cache");
    reveal_strlit("volumes");
    reveal_strlit("max_threads");
    reveal_strlit("max_per_volume");
    reveal_strlit("max_split");
    reveal_strlit("cache");
    reveal_strlit("headers");
    reveal_strlit("name");
    reveal_strlit("output_filename");
    reveal_strlit("auto_filename");
    reveal_strlit("rate_limit_bps");
    reveal_strlit("rate_limit_algorithm");
    reveal_strlit("persist");
    reveal_strlit("plugins");
    reveal_strlit("content_disposition");
    reveal_strlit("host_mappings");
    reveal_strlit("url");
    reveal_strlit("urls");
    reveal_strlit("uri");
    reveal_strlit("uris");
    assert(!old_fields.contains("start_cache"@)) by {
        assert("max_threads"@[0] == 'm');
        assert("start_cache"@[0] == 's');
        assert(forall|i: int|
            0 <= i < old_fields.len() ==> (#[trigger] old_fields[i]).len() != 11 || old_fields[i][0]
                != 's');
    }
}

/// The first mirror of every volume that has one is tried, in the order of the
/// volumes.
pub proof fn law_the_first_mirror_of_each_volume_is_tried(l: Seq<Seq<Seq<char>>>, n: int)
    requires
        0 < n <= l.len(),
    ensures
        first_urls(l, 0) == Seq::<Seq<char>>::empty(),
        l[n - 1].len() == 0 ==> first_urls(l, n) == first_urls(l, n - 1),
        l[n - 1].len() > 0 ==> first_urls(l, n) == first_urls(l, n - 1).push(l[n - 1][0]),
        l[n - 1].len() > 0 ==> names_urls(l),
        (forall|i: int| 0 <= i < l.len() ==> (#[trigger] l[i]).len() == 0) ==> !names_urls(l),
{
}

} // verus!
