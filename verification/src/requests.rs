//! What requests to the control interface ask for.

use crate::error::ProxyError;
use crate::hostmap::{
    effective_for, global_table, merged, merged_rules, read_url, rule_views, table_of, url_parts,
    HostMapping, HostTable, RuleView, TableView, UrlParts, UrlView,
};
use crate::models::persist::id_of;
use crate::models::state::task_from;
use crate::models::{
    keep_whole, short_id, whole_rules, Algorithm, AppState, ConfigView, ContentDispositionMode,
    TaskConfig,
};
use crate::names::{suggest_volume_filename, suggested_filename};
use crate::text::{
    append_chars, chars_of, clone_opt, join2, lower_chars, lowered, opt_view, same_text, string_of,
    trim, trim_chars, trimmed, views, views2,
};
use std::sync::Arc;
use vstd::prelude::*;
use vstd::string::*;

verus! {

/// A JSON value. A number is held as it is written.
#[derive(Debug, PartialEq)]
pub enum Json {
    Null,
    Bool(bool),
    Number(String),
    Text(String),
    List(Vec<Json>),
    Object(Vec<Field>),
}

/// A field of a JSON object.
#[derive(Debug, PartialEq)]
pub struct Field {
    pub name: String,
    pub value: Json,
}

/// The texts among `l`, or nothing where one of the first `n` is something else.
pub open spec fn texts_in(l: Seq<Json>, n: int) -> Option<Seq<Seq<char>>>
    decreases n,
{
    if n <= 0 {
        Some(Seq::empty())
    } else {
        match (texts_in(l, n - 1), l[n - 1]) {
            (Some(rest), Json::Text(s)) => Some(rest.push(trimmed(s@))),
            _ => None,
        }
    }
}

/// The volumes that a list of lists gives, or nothing where one of the first `n`
/// holds something other than texts.
pub open spec fn lists_in(l: Seq<Json>, n: int) -> Option<Seq<Seq<Seq<char>>>>
    decreases n,
{
    if n <= 0 {
        Some(Seq::empty())
    } else {
        match (lists_in(l, n - 1), l[n - 1]) {
            (Some(rest), Json::List(m)) => match texts_in(m@, m@.len() as int) {
                Some(v) => Some(rest.push(v)),
                None => None,
            },
            _ => None,
        }
    }
}

/// What a URL field means: one URL is a volume of its own, a list of URLs is one
/// volume with copies, a list of lists is the volumes.
pub open spec fn volumes_of(v: Json, field: Seq<char>) -> Result<Seq<Seq<Seq<char>>>, Seq<char>> {
    let no_urls = seq!['\''] + field + "' must contain URL strings"@;
    match v {
        Json::Null => Ok(Seq::empty()),
        Json::Text(s) => Ok(seq![seq![trimmed(s@)]]),
        Json::List(l) => {
            let n = l@.len() as int;
            if n == 0 {
                Ok(Seq::empty())
            } else if forall|i: int| 0 <= i < n ==> (#[trigger] l@[i]) is List {
                match lists_in(l@, n) {
                    Some(v) => Ok(v),
                    None => Err(no_urls),
                }
            } else if exists|i: int| 0 <= i < n && (#[trigger] l@[i]) is List {
                Err(seq!['\''] + field + mixed_words())
            } else {
                match texts_in(l@, n) {
                    Some(v) => Ok(seq![v]),
                    None => Err(no_urls),
                }
            }
        },
        _ => Err(
            seq!['\''] + field + "' must be a URL string, a list of URLs, or a list of volumes"@,
        ),
    }
}

pub open spec fn mixed_words() -> Seq<char> {
    "' mixes URL strings and volume arrays — use either [\"url\", …] for mirrors of one file or [[\"url\"], …] for volumes"@
}

fn about(field: &str, words: &str) -> (out: String)
    ensures
        out@ == seq!['\''] + field@ + words@,
{
    let mut t: Vec<char> = vec!['\''];
    append_chars(&mut t, &chars_of(field));
    append_chars(&mut t, &chars_of(words));
    assert(t@ =~= seq!['\''] + field@ + words@);
    string_of(&t)
}

fn read_texts(l: &Vec<Json>) -> (out: Option<Vec<String>>)
    ensures
        match out {
            Some(v) => texts_in(l@, l@.len() as int) == Some(views(v@)),
            None => texts_in(l@, l@.len() as int) is None,
        },
{
    let mut out: Vec<String> = Vec::new();
    let mut i: usize = 0;
    assert(views(out@) =~= Seq::empty());
    while i < l.len()
        invariant
            i <= l@.len(),
            texts_in(l@, i as int) == Some(views(out@)),
        decreases l.len() - i,
    {
        match &l[i] {
            Json::Text(s) => {
                let ghost before = out@;
                let t: String = trim(s.as_str());
                out.push(t);
                assert(views(out@) =~= views(before).push(t@));
            },
            _ => {
                proof {
                    lemma_texts_stop(l@, i + 1, l@.len() as int);
                }
                return None;
            },
        }
        i = i + 1;
    }
    Some(out)
}

proof fn lemma_texts_stop(l: Seq<Json>, i: int, n: int)
    requires
        0 <= i <= n,
        texts_in(l, i) is None,
    ensures
        texts_in(l, n) is None,
    decreases n - i,
{
    if i < n {
        lemma_texts_stop(l, i, n - 1);
    }
}

proof fn lemma_lists_stop(l: Seq<Json>, i: int, n: int)
    requires
        0 <= i <= n,
        lists_in(l, i) is None,
    ensures
        lists_in(l, n) is None,
    decreases n - i,
{
    if i < n {
        lemma_lists_stop(l, i, n - 1);
    }
}

fn read_lists(l: &Vec<Json>) -> (out: Option<Vec<Vec<String>>>)
    ensures
        match out {
            Some(v) => lists_in(l@, l@.len() as int) == Some(views2(v@)),
            None => lists_in(l@, l@.len() as int) is None,
        },
{
    let mut out: Vec<Vec<String>> = Vec::new();
    let mut i: usize = 0;
    assert(views2(out@) =~= Seq::empty());
    while i < l.len()
        invariant
            i <= l@.len(),
            lists_in(l@, i as int) == Some(views2(out@)),
        decreases l.len() - i,
    {
        let inner: Option<Vec<String>> = match &l[i] {
            Json::List(m) => read_texts(m),
            _ => None,
        };
        match inner {
            Some(v) => {
                let ghost before = out@;
                out.push(v);
                assert(views2(out@) =~= views2(before).push(views(v@)));
            },
            None => {
                proof {
                    lemma_lists_stop(l@, i + 1, l@.len() as int);
                }
                return None;
            },
        }
        i = i + 1;
    }
    Some(out)
}

fn lists_among(l: &Vec<Json>) -> (out: (bool, bool))
    ensures
        out.0 == (forall|i: int| 0 <= i < l@.len() ==> (#[trigger] l@[i]) is List),
        out.1 == (exists|i: int| 0 <= i < l@.len() && (#[trigger] l@[i]) is List),
{
    let mut all: bool = true;
    let mut any: bool = false;
    let mut i: usize = 0;
    while i < l.len()
        invariant
            i <= l@.len(),
            all ==> forall|k: int| 0 <= k < i ==> (#[trigger] l@[k]) is List,
            !all ==> exists|k: int| 0 <= k < i && !((#[trigger] l@[k]) is List),
            any ==> exists|k: int| 0 <= k < i && (#[trigger] l@[k]) is List,
            !any ==> forall|k: int| 0 <= k < i ==> !((#[trigger] l@[k]) is List),
        decreases l.len() - i,
    {
        let is_list: bool = matches!(l[i], Json::List(_));
        assert(is_list == (l@[i as int] is List));
        if is_list {
            any = true;
        } else {
            all = false;
        }
        i = i + 1;
    }
    (all, any)
}

/// Reads a URL field.
pub fn volumes_from_value(value: &Json, field: &str) -> (out: Result<Vec<Vec<String>>, String>)
    ensures
        match out {
            Ok(v) => volumes_of(*value, field@) == Ok::<Seq<Seq<Seq<char>>>, Seq<char>>(views2(v@)),
            Err(e) => volumes_of(*value, field@) == Err::<Seq<Seq<Seq<char>>>, Seq<char>>(e@),
        },
{
    match value {
        Json::Null => {
            let out: Vec<Vec<String>> = Vec::new();
            assert(views2(out@) =~= Seq::empty());
            Ok(out)
        },
        Json::Text(s) => {
            let one: Vec<String> = vec![trim(s.as_str())];
            assert(views(one@) =~= seq![trimmed(s@)]);
            let out: Vec<Vec<String>> = vec![one];
            assert(views2(out@) =~= seq![seq![trimmed(s@)]]);
            Ok(out)
        },
        Json::List(l) => {
            if l.len() == 0 {
                let out: Vec<Vec<String>> = Vec::new();
                assert(views2(out@) =~= Seq::empty());
                return Ok(out);
            }
            let (all, any) = lists_among(l);
            if all {
                match read_lists(l) {
                    Some(v) => Ok(v),
                    None => Err(about(field, "' must contain URL strings")),
                }
            } else if any {
                Err(
                    about(
                        field,
                        "' mixes URL strings and volume arrays — use either [\"url\", …] for mirrors of one file or [[\"url\"], …] for volumes",
                    ),
                )
            } else {
                match read_texts(l) {
                    Some(v) => {
                        let out: Vec<Vec<String>> = vec![v];
                        assert(views2(out@) =~= seq![views(v@)]);
                        Ok(out)
                    },
                    None => Err(about(field, "' must contain URL strings")),
                }
            }
        },
        _ => Err(
            about(field, "' must be a URL string, a list of URLs, or a list of volumes"),
        ),
    }
}

/// The value of the first field of a name, from field `i` on.
pub open spec fn value_of(body: Seq<Field>, name: Seq<char>, i: int) -> Option<Json>
    decreases body.len() - i,
{
    if i < 0 || i >= body.len() {
        None
    } else if body[i].name@ == name {
        Some(body[i].value)
    } else {
        value_of(body, name, i + 1)
    }
}

fn find_field(body: &Vec<Field>, name: &str) -> (out: Option<usize>)
    ensures
        match out {
            Some(i) => i < body@.len() && value_of(body@, name@, 0) == Some(body@[i as int].value),
            None => value_of(body@, name@, 0) is None,
        },
{
    let mut i: usize = 0;
    while i < body.len()
        invariant
            i <= body@.len(),
            value_of(body@, name@, 0) == value_of(body@, name@, i as int),
        decreases body.len() - i,
    {
        if same_text(body[i].name.as_str(), name) {
            return Some(i);
        }
        i = i + 1;
    }
    None
}

/// The names under which URLs may be given, in the order in which they count.
pub open spec fn alias(i: int) -> Seq<char> {
    if i == 0 {
        "urls"@
    } else if i == 1 {
        "url"@
    } else if i == 2 {
        "uris"@
    } else {
        "uri"@
    }
}

/// What the URL fields of a body ask for: `volumes`, or where that is missing or
/// empty the first alias, of the first `n`, that is not. Nothing where no URL
/// field is there.
pub open spec fn layout_asked(body: Seq<Field>, n: int) -> Result<
    Option<Seq<Seq<Seq<char>>>>,
    Seq<char>,
>
    decreases n,
{
    if n <= 0 {
        match value_of(body, "volumes"@, 0) {
            Some(v) => match volumes_of(v, "volumes"@) {
                Ok(l) => Ok(Some(l)),
                Err(e) => Err(e),
            },
            None => Ok(None),
        }
    } else {
        match (layout_asked(body, n - 1), value_of(body, alias(n - 1), 0)) {
            (Err(e), _) => Err(e),
            (Ok(l), None) => Ok(l),
            (Ok(l), Some(v)) => match volumes_of(v, alias(n - 1)) {
                Err(e) => Err(e),
                Ok(p) => if (l is None || (l->0).len() == 0) && p.len() > 0 {
                    Ok(Some(p))
                } else {
                    Ok(l)
                },
            },
        }
    }
}

/// A field that names URLs.
pub open spec fn url_field(name: Seq<char>) -> bool {
    name == "volumes"@ || name == alias(0) || name == alias(1) || name == alias(2) || name == alias(
        3,
    )
}

/// The fields that name no URLs, but for `volumes` where it is not replaced.
pub open spec fn other_fields(body: Seq<Field>) -> Seq<Field>
    decreases body.len(),
{
    if body.len() == 0 {
        Seq::empty()
    } else if url_field(body.last().name@) {
        other_fields(body.drop_last())
    } else {
        other_fields(body.drop_last()).push(body.last())
    }
}

/// A JSON value that spells a layout.
pub open spec fn spells_volume(v: Json, l: Seq<Seq<char>>) -> bool {
    match v {
        Json::List(m) => m@.len() == l.len() && forall|j: int|
            0 <= j < m@.len() ==> ((#[trigger] m@[j]) matches Json::Text(s) && s@ == l[j]),
        _ => false,
    }
}

pub open spec fn spells(v: Json, l: Seq<Seq<Seq<char>>>) -> bool {
    match v {
        Json::List(m) => m@.len() == l.len() && forall|i: int|
            0 <= i < m@.len() ==> spells_volume(#[trigger] m@[i], l[i]),
        _ => false,
    }
}

fn volume_json(l: &Vec<String>) -> (out: Json)
    ensures
        spells_volume(out, views(l@)),
{
    let mut m: Vec<Json> = Vec::new();
    let mut j: usize = 0;
    while j < l.len()
        invariant
            j <= l@.len(),
            m@.len() == j,
            forall|k: int|
                0 <= k < j ==> ((#[trigger] m@[k]) matches Json::Text(s) && s@ == l@[k]@),
        decreases l.len() - j,
    {
        m.push(Json::Text(l[j].clone()));
        j = j + 1;
    }
    Json::List(m)
}

fn layout_json(l: &Vec<Vec<String>>) -> (out: Json)
    ensures
        spells(out, views2(l@)),
{
    let mut m: Vec<Json> = Vec::new();
    let mut i: usize = 0;
    while i < l.len()
        invariant
            i <= l@.len(),
            m@.len() == i,
            forall|k: int| 0 <= k < i ==> spells_volume(#[trigger] m@[k], views(l@[k]@)),
        decreases l.len() - i,
    {
        m.push(volume_json(&l[i]));
        i = i + 1;
    }
    Json::List(m)
}

fn is_url_field(name: &str) -> (out: bool)
    ensures
        out == url_field(name@),
{
    same_text(name, "volumes") || same_text(name, "urls") || same_text(name, "url") || same_text(
        name,
        "uris",
    ) || same_text(name, "uri")
}

fn take_alias(body: &Vec<Field>, key: &str, had: Option<Vec<Vec<String>>>) -> (out: Result<
    Option<Vec<Vec<String>>>,
    String,
>)
    ensures
        ({
            let l = match had {
                Some(v) => Some(views2(v@)),
                None => None,
            };
            let want: Result<Option<Seq<Seq<Seq<char>>>>, Seq<char>> = match value_of(
                body@,
                key@,
                0,
            ) {
                None => Ok(l),
                Some(v) => match volumes_of(v, key@) {
                    Err(e) => Err(e),
                    Ok(p) => if (l is None || (l->0).len() == 0) && p.len() > 0 {
                        Ok(Some(p))
                    } else {
                        Ok(l)
                    },
                },
            };
            match out {
                Ok(Some(v)) => want == Ok::<Option<Seq<Seq<Seq<char>>>>, Seq<char>>(
                    Some(views2(v@)),
                ),
                Ok(None) => want == Ok::<Option<Seq<Seq<Seq<char>>>>, Seq<char>>(None),
                Err(e) => want == Err::<Option<Seq<Seq<Seq<char>>>>, Seq<char>>(e@),
            }
        }),
{
    match find_field(body, key) {
        None => Ok(had),
        Some(i) => match volumes_from_value(&body[i].value, key) {
            Err(e) => Err(e),
            Ok(p) => {
                assert(views2(p@).len() == p@.len());
                let empty: bool = match &had {
                    Some(v) => {
                        assert(views2(v@).len() == v@.len());
                        v.len() == 0
                    },
                    None => true,
                };
                if empty && p.len() > 0 {
                    Ok(Some(p))
                } else {
                    Ok(had)
                }
            },
        },
    }
}

/// Brings every way of naming URLs into the one form of `volumes`, and says
/// whether the body named any. A body that names none is left without `volumes`,
/// so that an edit which does not speak of URLs leaves them alone.
pub fn coerce_url_aliases(body: &mut Vec<Field>) -> (out: Result<bool, String>)
    ensures
        match (out, layout_asked(old(body)@, 4)) {
            (Err(e), Err(f)) => e@ == f && final(body)@ == old(body)@,
            (Ok(false), Ok(None)) => final(body)@ == other_fields(old(body)@),
            (Ok(true), Ok(Some(l))) => final(body)@.len() > 0 && final(body)@.drop_last()
                == other_fields(old(body)@) && final(body)@.last().name@ == "volumes"@ && spells(
                final(body)@.last().value,
                l,
            ),
            _ => false,
        },
{
    let ghost was = body@;
    proof {
        reveal_with_fuel(layout_asked, 6);
    }
    let start: Option<Vec<Vec<String>>> = match find_field(body, "volumes") {
        Some(i) => match volumes_from_value(&body[i].value, "volumes") {
            Ok(v) => Some(v),
            Err(e) => {
                return Err(e);
            },
        },
        None => None,
    };
    let a: Option<Vec<Vec<String>>> = match take_alias(body, "urls", start) {
        Ok(v) => v,
        Err(e) => {
            return Err(e);
        },
    };
    let b: Option<Vec<Vec<String>>> = match take_alias(body, "url", a) {
        Ok(v) => v,
        Err(e) => {
            return Err(e);
        },
    };
    let c: Option<Vec<Vec<String>>> = match take_alias(body, "uris", b) {
        Ok(v) => v,
        Err(e) => {
            return Err(e);
        },
    };
    let d: Option<Vec<Vec<String>>> = match take_alias(body, "uri", c) {
        Ok(v) => v,
        Err(e) => {
            return Err(e);
        },
    };
    drop_url_fields(body);
    match d {
        Some(v) => {
            let value: Json = layout_json(&v);
            let ghost others = body@;
            body.push(Field { name: "volumes".to_owned(), value });
            assert(body@.drop_last() =~= others);
            Ok(true)
        },
        None => Ok(false),
    }
}

fn drop_url_fields(body: &mut Vec<Field>)
    ensures
        final(body)@ == other_fields(old(body)@),
{
    let ghost was = body@;
    let ghost mut at: int = 0;
    let mut i: usize = 0;
    proof {
        assert(body@.take(0) =~= other_fields(was.take(0)));
        assert(was.skip(0) =~= was);
    }
    while i < body.len()
        invariant
            i <= body@.len(),
            0 <= at <= was.len(),
            body@.len() - i == was.len() - at,
            body@.skip(i as int) == was.skip(at),
            body@.take(i as int) == other_fields(was.take(at)),
        decreases was.len() - at,
    {
        let ghost now = body@;
        proof {
            assert(now.skip(i as int)[0] == was.skip(at)[0]);
            assert(now[i as int] == was[at]);
            assert(was.take(at + 1).drop_last() =~= was.take(at));
            assert(was.take(at + 1).last() == was[at]);
            assert(was.skip(at).drop_first() =~= was.skip(at + 1));
            assert(now.skip(i as int).drop_first() =~= now.skip(i + 1));
        }
        if is_url_field(body[i].name.as_str()) {
            body.remove(i);
            assert(body@.skip(i as int) =~= now.skip(i + 1));
            assert(body@.take(i as int) =~= now.take(i as int));
        } else {
            assert(now.take(i + 1) =~= now.take(i as int).push(now[i as int]));
            i = i + 1;
        }
        proof {
            at = at + 1;
        }
    }
    proof {
        assert(was.take(at) =~= was);
        assert(body@.take(i as int) =~= body@);
    }
}

/// A body that names URLs in any one form comes out with the same layout under
/// `volumes`: an explicit layout wins, and an alias counts where that is missing
/// or empty.
pub proof fn law_an_explicit_layout_wins(body: Seq<Field>)
    requires
        value_of(body, "volumes"@, 0) is Some,
        volumes_of(value_of(body, "volumes"@, 0)->0, "volumes"@) is Ok,
        (volumes_of(value_of(body, "volumes"@, 0)->0, "volumes"@)->Ok_0).len() > 0,
        layout_asked(body, 4) is Ok,
    ensures
        layout_asked(body, 4)->Ok_0 == Some(
            volumes_of(value_of(body, "volumes"@, 0)->0, "volumes"@)->Ok_0,
        ),
{
    reveal_with_fuel(layout_asked, 6);
}

/// A body without a URL field asks for no layout.
pub proof fn law_a_body_without_urls_leaves_them_alone(body: Seq<Field>)
    requires
        forall|i: int| 0 <= i < body.len() ==> !url_field((#[trigger] body[i]).name@),
    ensures
        layout_asked(body, 4) == Ok::<Option<Seq<Seq<Seq<char>>>>, Seq<char>>(None),
        other_fields(body) == body,
{
    reveal_with_fuel(layout_asked, 6);
    lemma_no_value(body, "volumes"@, 0);
    lemma_no_value(body, alias(0), 0);
    lemma_no_value(body, alias(1), 0);
    lemma_no_value(body, alias(2), 0);
    lemma_no_value(body, alias(3), 0);
    lemma_all_other(body);
}

proof fn lemma_no_value(body: Seq<Field>, name: Seq<char>, i: int)
    requires
        0 <= i,
        url_field(name),
        forall|k: int| 0 <= k < body.len() ==> !url_field((#[trigger] body[k]).name@),
    ensures
        value_of(body, name, i) is None,
    decreases body.len() - i,
{
    if i < body.len() {
        assert(!url_field(body[i].name@));
        lemma_no_value(body, name, i + 1);
    }
}

proof fn lemma_all_other(body: Seq<Field>)
    requires
        forall|k: int| 0 <= k < body.len() ==> !url_field((#[trigger] body[k]).name@),
    ensures
        other_fields(body) == body,
    decreases body.len(),
{
    if body.len() > 0 {
        let m = body.drop_last();
        assert forall|k: int| 0 <= k < m.len() implies !url_field((#[trigger] m[k]).name@) by {
            assert(m[k] == body[k]);
        }
        lemma_all_other(m);
        assert(m.push(body.last()) =~= body);
        assert(!url_field(body[body.len() - 1].name@));
    } else {
        assert(body =~= Seq::empty());
    }
}

/// The fields of a task, in the order in which they are shown.
pub open spec fn task_fields() -> Seq<Seq<char>> {
    seq![
        "volumes"@,
        "max_threads"@,
        "max_per_volume"@,
        "max_split"@,
        "cache"@,
        "headers"@,
        "name"@,
        "output_filename"@,
        "auto_filename"@,
        "rate_limit_bps"@,
        "rate_limit_algorithm"@,
        "persist"@,
        "plugins"@,
        "content_disposition"@,
        "host_mappings"@,
        "url"@,
        "urls"@,
        "uri"@,
        "uris"@,
    ]
}

/// The fields that a new task may have, or (with `update`) an edit.
pub open spec fn accepted_fields(update: bool) -> Seq<Seq<char>> {
    if update {
        task_fields()
    } else {
        task_fields().push("start_cache"@)
    }
}

fn accepted_list(update: bool) -> (out: Vec<&'static str>)
    ensures
        out@.map_values(|s: &'static str| s@) == accepted_fields(update),
{
    let mut out: Vec<&'static str> = vec![
        "volumes",
        "max_threads",
        "max_per_volume",
        "max_split",
        "cache",
        "headers",
        "name",
        "output_filename",
        "auto_filename",
        "rate_limit_bps",
        "rate_limit_algorithm",
        "persist",
        "plugins",
        "content_disposition",
        "host_mappings",
        "url",
        "urls",
        "uri",
        "uris",
    ];
    if !update {
        out.push("start_cache");
    }
    assert(out@.map_values(|s: &'static str| s@) =~= accepted_fields(update));
    out
}

/// Texts with a comma and a blank between them.
pub open spec fn listed(l: Seq<Seq<char>>) -> Seq<char>
    decreases l.len(),
{
    if l.len() == 0 {
        Seq::empty()
    } else if l.len() == 1 {
        l[0]
    } else {
        listed(l.drop_last()) + (seq![',', ' '] + l.last())
    }
}

/// The names of the fields that are not accepted.
pub open spec fn unknown_names(body: Seq<Field>, accepted: Seq<Seq<char>>) -> Seq<Seq<char>>
    decreases body.len(),
{
    if body.len() == 0 {
        Seq::empty()
    } else if accepted.contains(body.last().name@) {
        unknown_names(body.drop_last(), accepted)
    } else {
        unknown_names(body.drop_last(), accepted).push(body.last().name@)
    }
}

fn name_accepted(l: &Vec<&'static str>, name: &str) -> (out: bool)
    ensures
        out == l@.map_values(|s: &'static str| s@).contains(name@),
{
    let ghost all = l@.map_values(|s: &'static str| s@);
    let mut i: usize = 0;
    while i < l.len()
        invariant
            i <= l@.len(),
            all == l@.map_values(|s: &'static str| s@),
            forall|k: int| 0 <= k < i ==> #[trigger] all[k] != name@,
        decreases l.len() - i,
    {
        if same_text(l[i], name) {
            assert(all[i as int] == name@);
            return true;
        }
        i = i + 1;
    }
    false
}

fn add_listed(out: &mut Vec<char>, first: bool, name: &str)
    ensures
        final(out)@ == old(out)@ + if first {
            name@
        } else {
            seq![',', ' '] + name@
        },
{
    let ghost was = out@;
    if !first {
        out.push(',');
        out.push(' ');
    }
    append_chars(out, &chars_of(name));
    assert(out@ =~= was + if first {
        name@
    } else {
        seq![',', ' '] + name@
    });
}

/// Refuses a body with a field that is not known: a misspelt field that is passed
/// over in silence leaves its author to wonder.
pub fn reject_unknown(body: &Vec<Field>, update: bool) -> (out: Result<(), String>)
    ensures
        ({
            let unknown = unknown_names(body@, accepted_fields(update));
            match out {
                Ok(_) => unknown.len() == 0,
                Err(e) => unknown.len() > 0 && e@ == "unknown field(s): "@ + listed(unknown)
                    + (" — accepted fields are: "@ + listed(accepted_fields(update))),
            }
        }),
{
    let accepted: Vec<&'static str> = accepted_list(update);
    let ghost names = accepted_fields(update);
    let mut text: Vec<char> = Vec::new();
    let mut none: bool = true;
    let mut i: usize = 0;
    assert(text@ =~= listed(unknown_names(body@.take(0), names)));
    while i < body.len()
        invariant
            i <= body@.len(),
            accepted@.map_values(|s: &'static str| s@) == names,
            none == (unknown_names(body@.take(i as int), names).len() == 0),
            text@ == listed(unknown_names(body@.take(i as int), names)),
        decreases body.len() - i,
    {
        let ghost before = unknown_names(body@.take(i as int), names);
        assert(body@.take(i + 1).drop_last() =~= body@.take(i as int));
        if !name_accepted(&accepted, body[i].name.as_str()) {
            let ghost had = text@;
            add_listed(&mut text, none, body[i].name.as_str());
            proof {
                let name = body@[i as int].name@;
                let after = before.push(name);
                assert(after.drop_last() =~= before);
                if before.len() == 0 {
                    assert(had =~= Seq::empty());
                    assert(text@ =~= name);
                    assert(after[0] == name);
                }
                assert(text@ == listed(after));
            }
            none = false;
        }
        i = i + 1;
    }
    assert(body@.take(body@.len() as int) =~= body@);
    if none {
        return Ok(());
    }
    let mut known: Vec<char> = Vec::new();
    let mut k: usize = 0;
    assert(known@ =~= listed(names.take(0)));
    while k < accepted.len()
        invariant
            k <= accepted@.len(),
            accepted@.map_values(|s: &'static str| s@) == names,
            known@ == listed(names.take(k as int)),
        decreases accepted.len() - k,
    {
        let ghost had = known@;
        add_listed(&mut known, k == 0, accepted[k]);
        proof {
            let t = names.take(k + 1);
            assert(t.drop_last() =~= names.take(k as int));
            assert(t.last() == accepted@[k as int]@);
            if k == 0 {
                assert(had =~= Seq::empty());
                assert(known@ =~= t[0]);
            }
        }
        k = k + 1;
    }
    assert(names.take(names.len() as int) =~= names);
    Err(
        join2(
            join2("unknown field(s): ", string_of(&text).as_str()).as_str(),
            join2(" — accepted fields are: ", string_of(&known).as_str()).as_str(),
        ),
    )
}

/// Refuses a new task with a field that is not known.
pub fn reject_unknown_fields(body: &Vec<Field>) -> (out: Result<(), String>)
    ensures
        (out is Ok) == (unknown_names(body@, accepted_fields(false)).len() == 0),
        out is Err ==> (out->Err_0)@ == "unknown field(s): "@ + listed(
            unknown_names(body@, accepted_fields(false)),
        ) + (" — accepted fields are: "@ + listed(accepted_fields(false))),
{
    reject_unknown(body, false)
}

/// Refuses an edit with a field that is not known; `start_cache` means nothing in
/// an edit and is refused too.
pub fn reject_unknown_fields_for_update(body: &Vec<Field>) -> (out: Result<(), String>)
    ensures
        (out is Ok) == (unknown_names(body@, accepted_fields(true)).len() == 0),
        out is Err ==> (out->Err_0)@ == "unknown field(s): "@ + listed(
            unknown_names(body@, accepted_fields(true)),
        ) + (" — accepted fields are: "@ + listed(accepted_fields(true))),
{
    reject_unknown(body, true)
}

/// The words that say no.
pub open spec fn says_no(v: Seq<char>) -> bool {
    v == "0"@ || v == "false"@ || v == "no"@ || v == "off"@
}

/// Whether a query asks for caching at once: `start_cache` with any value that
/// does not say no.
pub fn start_cache(value: Option<&str>) -> (out: bool)
    ensures
        out == match value {
            Some(v) => !says_no(lowered(trimmed(v@))),
            None => false,
        },
{
    match value {
        Some(v) => {
            let w: String = string_of(&lower_chars(&trim_chars(&chars_of(v))));
            !(same_text(w.as_str(), "0") || same_text(w.as_str(), "false") || same_text(
                w.as_str(),
                "no",
            ) || same_text(w.as_str(), "off"))
        },
        None => false,
    }
}

/// Whether a body asks for caching at once.
pub fn body_starts_cache(body: &Vec<Field>) -> (out: bool)
    ensures
        out == (value_of(body@, "start_cache"@, 0) == Some(Json::Bool(true))),
{
    match find_field(body, "start_cache") {
        Some(i) => matches!(body[i].value, Json::Bool(true)),
        None => false,
    }
}

/// What a new task is refused for.
pub open spec fn task_fault(c: ConfigView) -> Option<Seq<char>> {
    if c.normal().volumes.len() == 0 {
        Some("at least one URL is required — pass \"url\", \"urls\" or \"volumes\""@)
    } else {
        c.normal().fault()
    }
}

/// Brings the settings of a new task into shape and checks them.
pub fn accept_task(cfg: TaskConfig) -> (out: Result<TaskConfig, ProxyError>)
    ensures
        match out {
            Ok(c) => task_fault(cfg@) is None && c@ == cfg@.normal(),
            Err(ProxyError::Internal(e)) => task_fault(cfg@) == Some(e@),
            Err(_) => false,
        },
{
    let mut cfg: TaskConfig = cfg;
    cfg.normalize();
    assert(cfg@.volumes.len() == cfg.volumes@.len());
    if cfg.volumes.len() == 0 {
        return Err(
            ProxyError::Internal(
                "at least one URL is required — pass \"url\", \"urls\" or \"volumes\"".to_owned(),
            ),
        );
    }
    match cfg.validate() {
        Ok(_) => Ok(cfg),
        Err(e) => Err(ProxyError::Internal(e)),
    }
}

/// Some volume has a URL.
pub open spec fn names_urls(l: Seq<Seq<Seq<char>>>) -> bool {
    exists|i: int| 0 <= i < l.len() && (#[trigger] l[i]).len() > 0
}

/// The settings that URLs are probed with before there is a task for them.
pub fn probe_config(
    volumes: Vec<Vec<String>>,
    headers: Vec<(String, String)>,
    host_mappings: Vec<HostMapping>,
) -> (out: Result<TaskConfig, ProxyError>)
    ensures
        ({
            let c = ConfigView {
                volumes: views2(volumes@),
                max_threads: 1,
                max_per_volume: 1,
                max_split: 5_242_880,
                cache: false,
                headers: crate::models::pair_views(headers@),
                name: None,
                output_filename: None,
                auto_filename: true,
                rate_limit_bps: 0,
                rate_limit_algorithm: Algorithm::TokenBucket,
                persist: false,
                plugins: Seq::empty(),
                content_disposition: ContentDispositionMode::Auto,
                host_mappings: rule_views(host_mappings@),
            };
            let fault = crate::models::mapping_fault(c.normal().host_mappings);
            match out {
                Ok(p) => names_urls(c.volumes) && fault is None && p@ == c.normal(),
                Err(ProxyError::Internal(e)) => if names_urls(c.volumes) {
                    fault == Some(e@)
                } else {
                    e@ == "at least one URL is required — pass \"url\", \"urls\" or \"volumes\""@
                },
                Err(_) => false,
            }
        }),
{
    let mut any: bool = false;
    let mut i: usize = 0;
    while i < volumes.len()
        invariant
            i <= volumes@.len(),
            any ==> names_urls(views2(volumes@)),
            !any ==> forall|k: int| 0 <= k < i ==> (#[trigger] volumes@[k])@.len() == 0,
        decreases volumes.len() - i,
    {
        if volumes[i].len() > 0 {
            assert(views2(volumes@)[i as int].len() > 0);
            any = true;
        }
        i = i + 1;
    }
    if !any {
        proof {
            if names_urls(views2(volumes@)) {
                let k = choose|k: int|
                    0 <= k < views2(volumes@).len() && (#[trigger] views2(volumes@)[k]).len() > 0;
                assert(volumes@[k]@.len() == 0);
            }
        }
        return Err(
            ProxyError::Internal(
                "at least one URL is required — pass \"url\", \"urls\" or \"volumes\"".to_owned(),
            ),
        );
    }
    let mut cfg: TaskConfig = TaskConfig {
        volumes,
        max_threads: 1,
        max_per_volume: 1,
        max_split: 5 * 1024 * 1024,
        cache: false,
        headers,
        name: None,
        output_filename: None,
        auto_filename: true,
        rate_limit_bps: 0,
        rate_limit_algorithm: Algorithm::TokenBucket,
        persist: false,
        plugins: Vec::new(),
        content_disposition: ContentDispositionMode::Auto,
        host_mappings,
    };
    assert(cfg@.plugins =~= Seq::empty());
    cfg.normalize();
    match cfg.validate_host_mappings() {
        Ok(_) => Ok(cfg),
        Err(e) => Err(ProxyError::Internal(e)),
    }
}

/// The first URL of each of the first `n` volumes.
pub open spec fn first_urls(l: Seq<Seq<Seq<char>>>, n: int) -> Seq<Seq<char>>
    decreases n,
{
    if n <= 0 {
        Seq::empty()
    } else if l[n - 1].len() == 0 {
        first_urls(l, n - 1)
    } else {
        first_urls(l, n - 1).push(l[n - 1][0])
    }
}

/// The file name to propose: for several volumes what their names have in common,
/// else what the origin says.
pub fn suggest_name(layout: &Vec<Vec<String>>, detected: &Option<String>) -> (out: Option<String>)
    ensures
        ({
            let l = views2(layout@);
            let common = suggested_filename(first_urls(l, l.len() as int));
            opt_view(out) == if l.len() > 1 && common is Some {
                common
            } else {
                opt_view(*detected)
            }
        }),
{
    let ghost l = views2(layout@);
    assert(l.len() == layout@.len());
    if layout.len() > 1 {
        let mut firsts: Vec<String> = Vec::new();
        let mut i: usize = 0;
        assert(views(firsts@) =~= first_urls(l, 0));
        while i < layout.len()
            invariant
                i <= layout@.len(),
                l == views2(layout@),
                views(firsts@) == first_urls(l, i as int),
            decreases layout.len() - i,
        {
            assert(l[i as int] == views(layout@[i as int]@));
            assert(views(layout@[i as int]@).len() == layout@[i as int]@.len());
            if layout[i].len() > 0 {
                let ghost before = firsts@;
                let u: String = layout[i][0].clone();
                firsts.push(u);
                assert(views(firsts@) =~= views(before).push(u@));
            }
            i = i + 1;
        }
        let common: Option<String> = suggest_volume_filename(&firsts);
        if common.is_some() {
            return common;
        }
    }
    clone_opt(detected)
}

/// Whether unsaved rules are those of a task or all there are.
#[derive(Debug, Clone, Copy, PartialEq, Eq, Structural)]
pub enum ResolveScope {
    Task,
    Global,
}

/// The rules that unsaved ones amount to: those of a task are added to the saved
/// ones for all tasks, those for all tasks take their place.
pub open spec fn drafted(saved: Seq<RuleView>, draft: Seq<RuleView>, scope: ResolveScope) -> Seq<RuleView> {
    let l = whole_rules(draft);
    match scope {
        ResolveScope::Task => merged(saved, l, l.len() as int),
        ResolveScope::Global => l,
    }
}

/// The table that unsaved rules make. What is wrong with one of them is the
/// answer that was asked for.
pub fn draft_table(state: &AppState, draft: &Vec<HostMapping>, scope: ResolveScope) -> (out: Result<
    Arc<HostTable>,
    String,
>)
    ensures
        ({
            let l = drafted(state.hosts@.rules, rule_views(draft@), scope);
            match out {
                Ok(t) => table_of(l, l.len() as int) == Ok::<TableView, Seq<char>>((*t)@),
                Err(e) => table_of(l, l.len() as int) == Err::<TableView, Seq<char>>(e@),
            }
        }),
{
    let whole: Vec<HostMapping> = keep_whole(draft);
    assert(rule_views(whole@).len() == whole@.len());
    let rules: Vec<HostMapping> = match scope {
        ResolveScope::Task => merged_rules(&state.hosts, &whole),
        ResolveScope::Global => whole,
    };
    assert(rule_views(rules@).len() == rules@.len());
    match HostTable::build(&rules) {
        Ok(t) => Ok(Arc::new(t)),
        Err(e) => Err(e),
    }
}

/// The table that is in force for a task, or for all.
pub fn saved_table(state: &AppState, task_id: Option<&str>) -> (out: Result<Arc<HostTable>, ProxyError>)
    requires
        state.wf(),
    ensures
        match task_id {
            None => out == Ok::<Arc<HostTable>, ProxyError>(state.hosts.table),
            Some(id) => match task_from(state.tasks@, id@, 0) {
                None => out is Err && (out->Err_0) is Internal && (out->Err_0).shown()
                    == "internal: "@ + ("no such task: "@ + id@),
                Some(i) => {
                    let own = state.tasks@[i].entry@.config.host_mappings;
                    let l = merged(state.hosts@.rules, own, own.len() as int);
                    match table_of(l, l.len() as int) {
                        Ok(t) => out is Ok && (*(out->Ok_0))@ == t,
                        Err(e) => out is Err && (out->Err_0) is Internal && (out->Err_0).shown()
                            == "internal: "@ + e,
                    }
                },
            },
        },
{
    match task_id {
        None => Ok(global_table(&state.hosts)),
        Some(id) => match state.get(id) {
            None => Err(ProxyError::Internal(join2("no such task: ", id))),
            Some(i) => {
                let rules: &Vec<HostMapping> = &state.tasks[i].entry.config.host_mappings;
                assert(rule_views(rules@).len() == rules@.len());
                match effective_for(&state.hosts, rules) {
                    Ok(e) => Ok(e.table),
                    Err(e) => Err(ProxyError::Internal(e)),
                }
            },
        },
    }
}

/// The host that a question is about, where the text reads as a URL of `parts`:
/// the URL's host, else the text itself.
pub open spec fn asked_host(raw: Seq<char>, parts: Option<UrlView>) -> Option<Seq<char>> {
    let s = trimmed(raw);
    if s.len() == 0 {
        None
    } else {
        match parts {
            Some(p) => match p.host {
                Some(h) => Some(h),
                None => Some(s),
            },
            None => Some(s),
        }
    }
}

/// Settles the host that a question is about.
pub fn host_asked(raw: &str, parts: Option<UrlParts>) -> (out: Result<String, ProxyError>)
    ensures
        ({
            let p = match parts {
                Some(p) => Some(p@),
                None => None,
            };
            match out {
                Ok(h) => asked_host(raw@, p) == Some(h@),
                Err(ProxyError::Internal(e)) => asked_host(raw@, p) is None && e@
                    == "host must not be empty"@,
                Err(_) => false,
            }
        }),
{
    let s: String = trim(raw);
    if s.as_str().is_empty() {
        return Err(ProxyError::Internal("host must not be empty".to_owned()));
    }
    match parts {
        Some(p) => match p.host {
            Some(h) => Ok(h),
            None => Ok(s),
        },
        None => Ok(s),
    }
}

/// The host that a question is about: a whole URL may be given.
pub fn probe_host(raw: &str) -> (out: Result<String, ProxyError>)
    ensures
        match out {
            Ok(h) => asked_host(raw@, url_parts(trimmed(raw@))) == Some(h@),
            Err(ProxyError::Internal(e)) => trimmed(raw@).len() == 0 && e@
                == "host must not be empty"@,
            Err(_) => false,
        },
{
    let s: String = trim(raw);
    host_asked(raw, read_url(s.as_str()))
}

/// How often an id that is taken is drawn again.
pub const ID_TRIES: u32 = 5;

/// An id is taken for a new task: it is free, or too many were not.
pub fn takes_id(state: &AppState, id: &str, tries: u32) -> (out: bool)
    ensures
        out == (task_from(state.tasks@, id@, 0) is None || tries > ID_TRIES),
{
    state.get(id).is_none() || tries > ID_TRIES
}

/// Draws an id for a new task. One that is taken is drawn again, but not for ever.
pub fn new_task_id(state: &AppState) -> (out: String)
    ensures
        exists|bytes: Seq<u8>| out@ == #[trigger] id_of(bytes),
        out@.len() == 6,
{
    let mut tries: u32 = 0;
    let mut id: String = short_id();
    while !takes_id(state, id.as_str(), tries)
        invariant
            tries <= ID_TRIES + 1,
            exists|bytes: Seq<u8>| id@ == #[trigger] id_of(bytes),
            id@.len() == 6,
        decreases ID_TRIES + 1 - tries,
    {
        tries = tries + 1;
        id = short_id();
    }
    id
}

/// A task's unsaved rule is what a test of it shows, whatever is saved.
pub proof fn law_a_draft_counts_before_what_is_saved(
    saved: Seq<RuleView>,
    draft: Seq<RuleView>,
    scope: ResolveScope,
    i: int,
)
    requires
        0 <= i < whole_rules(draft).len(),
        forall|j: int|
            i < j < whole_rules(draft).len() ==> crate::hostmap::normalized(
                (#[trigger] whole_rules(draft)[j]).from,
            ) != crate::hostmap::normalized(whole_rules(draft)[i].from),
    ensures
        drafted(saved, draft, scope).contains(whole_rules(draft)[i]),
{
    let l = whole_rules(draft);
    assert(l[i] == l[i]);
    crate::hostmap::law_a_tasks_rules_win(saved, l, l[i]);
    assert(l.contains(l[i]));
}

/// Rules for all tasks that are tested before they are saved stand alone: what is
/// saved does not come back through them.
pub proof fn law_a_draft_for_all_stands_alone(
    a: Seq<RuleView>,
    b: Seq<RuleView>,
    draft: Seq<RuleView>,
)
    ensures
        drafted(a, draft, ResolveScope::Global) == drafted(b, draft, ResolveScope::Global),
{
}

} // verus!
