//! What a file is called.

use crate::names::{
    common_prefix, extended_value, latin1, law_common_prefix_is_the_longest, lenient_text,
    merged_filename, percent_decoded, plain, present, sanitized, separator, strip_back, strip_word,
    suggested_filename, tail_trimmed, upper, url_filename, url_filenames, volume_words,
};
use crate::text::{begins_with, decimal, finishes_with, part_from, stands_at};
use vstd::prelude::*;
use vstd::utf8::{encode_utf8, encode_utf8_decode_utf8, encode_utf8_valid_utf8, valid_utf8};

verus! {

/// The byte `%XY` stands for, with `x` and `y` for the two digits' values and letters
/// in either case.
pub open spec fn hexit_of(x: int, small: bool) -> u8 {
    if x < 10 {
        (48 + x) as u8
    } else if small {
        (87 + x) as u8
    } else {
        (55 + x) as u8
    }
}

/// A percent sign and two hexadecimal digits stand for the byte that they spell, and
/// any other byte stands for itself.
pub proof fn law_a_percent_sign_spells_a_byte(b: u8, small: bool, rest: Seq<u8>)
    ensures
        percent_decoded(
            seq![37u8, hexit_of(b as int / 16, small), hexit_of(b as int % 16, small)] + rest,
        ) == seq![b] + percent_decoded(rest),
        b != 37 ==> percent_decoded(seq![b] + rest) == seq![b] + percent_decoded(rest),
        percent_decoded(Seq::<u8>::empty()) == Seq::<u8>::empty(),
{
    let s = seq![37u8, hexit_of(b as int / 16, small), hexit_of(b as int % 16, small)] + rest;
    assert(s.skip(3) =~= rest);
    let t = seq![b] + rest;
    assert(t.skip(1) =~= rest);
}

/// A character that has no place in a file name is left out as if it had not been
/// there, and nothing else is but white space at the ends.
pub proof fn law_what_cannot_be_in_a_name_is_left_out(a: Seq<char>, c: char, b: Seq<char>)
    ensures
        c == '/' || c == '\\' || c as u32 <= 31 || 127 <= c as u32 <= 159 ==> sanitized(
            a + (seq![c] + b),
        ) == sanitized(a + b),
        (forall|i: int| 0 <= i < a.len() ==> plain(#[trigger] a[i])) ==> sanitized(a)
            == crate::text::trimmed(a),
        plain(c) <==> c != '/' && c != '\\' && !(c as u32 <= 31) && !(127 <= c as u32 <= 159),
{
    let p = |x: char| plain(x);
    if !plain(c) {
        Seq::filter_distributes_over_add(a, seq![c] + b, p);
        Seq::filter_distributes_over_add(seq![c], b, p);
        Seq::filter_distributes_over_add(a, b, p);
        assert(seq![c].filter(p) =~= seq![]) by {
            reveal_with_fuel(Seq::filter, 2);
            let one = seq![c];
            assert(one.drop_last() =~= Seq::<char>::empty());
            assert(!p(one.last()));
            assert(one.filter(p) == one.drop_last().filter(p));
        }
        assert(seq![c].filter(p) + b.filter(p) =~= b.filter(p));
    }
    if forall|i: int| 0 <= i < a.len() ==> plain(#[trigger] a[i]) {
        crate::disposition::lemma_filter_all(a);
    }
}

/// What is left of the beginning that the names of volumes share is a beginning of it
/// that ends in no separator.
pub proof fn law_a_shared_beginning_ends_cleanly(s: Seq<char>)
    ensures
        begins_with(s, tail_trimmed(s)),
        tail_trimmed(s).len() > 0 ==> !separator(tail_trimmed(s).last()),
{
    lemma_strip_back(s, true);
    let a = strip_back(s, true);
    lemma_strip_word(a, 0);
    let b = strip_word(a, volume_words(), 0);
    lemma_strip_back(b, false);
    let c = strip_back(b, false);
    assert(c =~= s.take(c.len() as int));
}

proof fn lemma_strip_back(s: Seq<char>, digits: bool)
    ensures
        strip_back(s, digits).len() <= s.len(),
        strip_back(s, digits) == s.take(strip_back(s, digits).len() as int),
        strip_back(s, digits).len() > 0 ==> !separator(strip_back(s, digits).last()) && (digits
            ==> !('0' <= strip_back(s, digits).last() <= '9')),
    decreases s.len(),
{
    if s.len() > 0 && (separator(s.last()) || (digits && '0' <= s.last() <= '9')) {
        lemma_strip_back(s.drop_last(), digits);
        let r = strip_back(s, digits);
        assert(s.take(r.len() as int) =~= s.drop_last().take(r.len() as int));
    } else {
        assert(s.take(s.len() as int) =~= s);
    }
}

proof fn lemma_strip_word(s: Seq<char>, i: int)
    requires
        0 <= i,
    ensures
        strip_word(s, volume_words(), i).len() <= s.len(),
        strip_word(s, volume_words(), i) == s.take(
            strip_word(s, volume_words(), i).len() as int,
        ),
    decreases volume_words().len() - i,
{
    if i < volume_words().len() {
        if !finishes_with(s, volume_words()[i]) {
            lemma_strip_word(s, i + 1);
        }
    } else {
        assert(s.take(s.len() as int) =~= s);
    }
}

/// Without a word for a volume at its end, a text loses nothing to the words.
proof fn lemma_no_word(s: Seq<char>, i: int)
    requires
        0 <= i,
        forall|k: int| i <= k < 8 ==> !finishes_with(s, #[trigger] volume_words()[k]),
    ensures
        strip_word(s, volume_words(), i) == s,
    decreases 8 - i,
{
    if i < 8 {
        assert(!finishes_with(s, volume_words()[i]));
        lemma_no_word(s, i + 1);
    }
}

/// Digits and separators behind `base` are stripped off.
proof fn lemma_strip_tail(base: Seq<char>, tail: Seq<char>, digits: bool)
    requires
        base.len() > 0,
        !separator(base.last()),
        digits ==> !('0' <= base.last() <= '9'),
        forall|i: int|
            0 <= i < tail.len() ==> separator(#[trigger] tail[i]) || (digits && '0' <= tail[i]
                <= '9'),
    ensures
        strip_back(base + tail, digits) == base,
    decreases tail.len(),
{
    if tail.len() > 0 {
        assert((base + tail).drop_last() =~= base + tail.drop_last());
        assert((base + tail).last() == tail.last());
        assert(tail[tail.len() - 1] == tail.last());
        lemma_strip_tail(base, tail.drop_last(), digits);
    } else {
        assert(base + tail =~= base);
    }
}

/// The number of a volume, what separates it, and the word `part` in front of it do
/// not belong to the name that volumes share.
pub proof fn law_the_number_of_a_volume_is_left_out(base: Seq<char>, sep: char, n: nat)
    requires
        base.len() > 0,
        separator(sep),
        !separator(base.last()),
        !('0' <= base.last() <= '9'),
        forall|k: int| 0 <= k < 8 ==> !finishes_with(base, #[trigger] volume_words()[k]),
    ensures
        tail_trimmed(base) == base,
        tail_trimmed(base + seq![sep]) == base,
        tail_trimmed(base + (seq![sep] + decimal(n))) == base,
        tail_trimmed(base + (seq![sep] + (seq!['p', 'a', 'r', 't'] + decimal(n)))) == base,
        tail_trimmed(base + (seq![sep] + seq!['p', 'a', 'r', 't'])) == base,
{
    crate::text::law_decimal_reads_back(n);
    let d = decimal(n);
    assert(forall|i: int| 0 <= i < d.len() ==> crate::text::digit(#[trigger] d[i]));
    let part = seq!['p', 'a', 'r', 't'];
    lemma_strip_tail(base, seq![], true);
    lemma_strip_tail(base, seq![], false);
    assert(base + Seq::<char>::empty() =~= base);
    lemma_strip_tail(base, seq![sep], true);
    lemma_strip_tail(base, seq![sep], false);
    lemma_strip_tail(base, seq![sep] + d, true);
    lemma_no_word(base, 0);
    let with = base + (seq![sep] + part);
    assert(with.last() == 't');
    lemma_strip_tail(with, d, true);
    lemma_strip_tail(with, seq![], true);
    assert(with + Seq::<char>::empty() =~= with);
    assert(with + d =~= base + (seq![sep] + (part + d)));
    assert(volume_words()[0] == part);
    assert(with.skip(with.len() - 4) =~= part);
    assert(finishes_with(with, volume_words()[0]));
    assert(with.take(with.len() - 4) =~= base + seq![sep]);
}

/// The names that URLs carry are kept in the order of the URLs.
pub proof fn law_names_follow_their_urls(urls: Seq<Seq<char>>, url: Seq<char>)
    ensures
        url_filenames(Seq::<Seq<char>>::empty()) == Seq::<Seq<char>>::empty(),
        url_filename(url) is None ==> url_filenames(urls.push(url)) == url_filenames(urls),
        url_filename(url) is Some ==> url_filenames(urls.push(url)) == url_filenames(urls).push(
            url_filename(url)->0,
        ),
        present(urls.map_values(|u: Seq<char>| url_filename(u))) == url_filenames(urls),
{
    assert(urls.push(url).drop_last() =~= urls);
    lemma_present(urls);
}

proof fn lemma_present(urls: Seq<Seq<char>>)
    ensures
        present(urls.map_values(|u: Seq<char>| url_filename(u))) == url_filenames(urls),
    decreases urls.len(),
{
    let l = urls.map_values(|u: Seq<char>| url_filename(u));
    if urls.len() > 0 {
        lemma_present(urls.drop_last());
        assert(l.drop_last() =~= urls.drop_last().map_values(|u: Seq<char>| url_filename(u)));
    }
}

/// URLs suggest a name where one of them carries one: with a single name that one, and
/// otherwise either the first or a beginning that all of them share.
pub proof fn law_urls_suggest_what_they_share(urls: Seq<Seq<char>>, k: int)
    requires
        0 <= k < url_filenames(urls).len(),
    ensures
        ({
            let names = url_filenames(urls);
            let out = suggested_filename(urls);
            &&& out is Some
            &&& names.len() == 1 ==> out == Some(names[0])
            &&& out == Some(names[0]) || (out->0.len() > 0 && begins_with(names[k], out->0)
                && !separator(out->0.last()))
            &&& names.len() >= 2 && tail_trimmed(common_prefix(names)).len() > 0 ==> begins_with(
                names[k],
                out->0,
            )
        }),
{
    let names = url_filenames(urls);
    let shared = common_prefix(names);
    let clean = tail_trimmed(shared);
    law_common_prefix_is_the_longest(names, seq![]);
    law_a_shared_beginning_ends_cleanly(shared);
    assert(begins_with(names[k], shared));
    assert(names[k].take(clean.len() as int) =~= shared.take(clean.len() as int));
}

/// Without a name in any URL none is suggested; and names that were detected count
/// before those of the URLs where two or more of them share a beginning.
pub proof fn law_detected_names_come_first(
    detected: Seq<Option<Seq<char>>>,
    urls: Seq<Seq<char>>,
    k: int,
)
    ensures
        url_filenames(urls).len() == 0 ==> suggested_filename(urls) is None,
        present(detected).len() < 2 ==> merged_filename(detected, urls) == suggested_filename(urls),
        present(detected).len() >= 2 && tail_trimmed(common_prefix(present(detected))).len() > 0
            && 0 <= k < present(detected).len() ==> merged_filename(detected, urls) is Some
            && begins_with(present(detected)[k], merged_filename(detected, urls)->0),
{
    let names = present(detected);
    if names.len() >= 2 && 0 <= k < names.len() {
        let shared = common_prefix(names);
        let clean = tail_trimmed(shared);
        law_common_prefix_is_the_longest(names, seq![]);
        law_a_shared_beginning_ends_cleanly(shared);
        assert(begins_with(names[k], shared));
        assert(names[k].take(clean.len() as int) =~= shared.take(clean.len() as int));
    }
}

/// Bytes that are UTF-8 are read as such, and any others one character a byte.
pub proof fn law_bytes_are_read_leniently(s: Seq<char>, bytes: Seq<u8>, i: int)
    ensures
        lenient_text(encode_utf8(s)) == s,
        !valid_utf8(bytes) ==> lenient_text(bytes).len() == bytes.len(),
        !valid_utf8(bytes) && 0 <= i < bytes.len() ==> lenient_text(bytes)[i] as u32 == bytes[i],
{
    encode_utf8_valid_utf8(s);
    encode_utf8_decode_utf8(s);
}

proof fn lemma_quotes_at(cs: Seq<char>, v: Seq<char>, i: int)
    requires
        forall|k: int| 0 <= k < cs.len() ==> cs[k] != '\'',
        0 <= i <= cs.len(),
    ensures
        part_from(cs + (seq!['\'', '\''] + v), seq!['\'', '\''], i) == Some(cs.len() as int),
    decreases cs.len() - i,
{
    let m = seq!['\'', '\''];
    let s = cs + (m + v);
    if i == cs.len() {
        assert(s.subrange(i, i + 2) =~= m);
    } else {
        assert(s.subrange(i, i + 2)[0] == s[i]);
        assert(s[i] == cs[i]);
        assert(m[0] == '\'');
        assert(!stands_at(s, i, m));
        lemma_quotes_at(cs, v, i + 1);
    }
}

/// A name behind a character set is read in that set where it is Latin-1, in either
/// case, and as UTF-8 otherwise.
pub proof fn law_an_extended_name_is_read_in_its_set(cs: Seq<char>, v: Seq<char>)
    requires
        forall|k: int| 0 <= k < cs.len() ==> cs[k] != '\'',
    ensures
        cs.map_values(|c: char| upper(c)) == seq!['I', 'S', 'O', '-', '8', '8', '5', '9', '-', '1']
            ==> extended_value(cs + (seq!['\'', '\''] + v)) == latin1(
            percent_decoded(encode_utf8(v)),
        ),
        cs.map_values(|c: char| upper(c)) != seq!['I', 'S', 'O', '-', '8', '8', '5', '9', '-', '1']
            ==> extended_value(cs + (seq!['\'', '\''] + v)) == lenient_text(
            percent_decoded(encode_utf8(v)),
        ),
{
    let s = cs + (seq!['\'', '\''] + v);
    lemma_quotes_at(cs, v, 0);
    assert(s.take(cs.len() as int) =~= cs);
    assert(s.skip(cs.len() as int + 2) =~= v);
    super::texts::lemma_nowhere(cs, '\'');
}

proof fn lemma_word_differs(s: Seq<char>, w: Seq<char>, i: int)
    requires
        0 <= i < w.len() <= s.len(),
        s[s.len() - w.len() + i] != w[i],
    ensures
        !finishes_with(s, w),
{
    if finishes_with(s, w) {
        assert(s.skip(s.len() - w.len())[i] == s[s.len() - w.len() + i]);
    }
}

/// The words `vol`, `Vol` and `Part` in front of a volume's number do not belong to
/// the name either.
pub proof fn law_words_for_volumes_are_left_out(base: Seq<char>, sep: char, n: nat)
    requires
        base.len() > 0,
        separator(sep),
        !separator(base.last()),
        !('0' <= base.last() <= '9'),
        forall|k: int| 0 <= k < 8 ==> !finishes_with(base, #[trigger] volume_words()[k]),
    ensures
        tail_trimmed(base + (seq![sep] + (seq!['v', 'o', 'l'] + decimal(n)))) == base,
        tail_trimmed(base + (seq![sep] + (seq!['V', 'o', 'l'] + decimal(n)))) == base,
        tail_trimmed(base + (seq![sep] + (seq!['P', 'a', 'r', 't'] + decimal(n)))) == base,
{
    lemma_word_off(base, sep, n, 3);
    lemma_word_off(base, sep, n, 4);
    lemma_word_off(base, sep, n, 1);
}

proof fn lemma_word_off(base: Seq<char>, sep: char, n: nat, k: int)
    requires
        k == 1 || k == 3 || k == 4,
        base.len() > 0,
        separator(sep),
        !separator(base.last()),
        !('0' <= base.last() <= '9'),
    ensures
        tail_trimmed(base + (seq![sep] + (volume_words()[k] + decimal(n)))) == base,
{
    crate::text::law_decimal_reads_back(n);
    let d = decimal(n);
    let w = volume_words()[k];
    assert(forall|i: int| 0 <= i < d.len() ==> crate::text::digit(#[trigger] d[i]));
    let with = base + (seq![sep] + w);
    assert(with.last() == w.last());
    lemma_strip_tail(with, d, true);
    assert(with + d =~= base + (seq![sep] + (w + d)));
    assert(with.skip(with.len() - w.len()) =~= w);
    assert(with.take(with.len() - w.len()) =~= base + seq![sep]);
    let m = with.len() as int;
    assert(with[m - 1] == w[w.len() - 1]);
    if k == 1 {
        assert(with[m - 4] == 'P');
        lemma_word_differs(with, volume_words()[0], 0);
        assert(strip_word(with, volume_words(), 1) == with.take(m - 4));
    } else {
        assert(with[m - 3] == w[0]);
        assert(with[m - 1] == 'l');
        lemma_word_differs(with, volume_words()[0], 3);
        lemma_word_differs(with, volume_words()[1], 3);
        lemma_word_differs(with, volume_words()[2], 3);
        if k == 4 {
            lemma_word_differs(with, volume_words()[3], 0);
        }
        reveal_with_fuel(strip_word, 6);
        assert(strip_word(with, volume_words(), 0) == with.take(m - 3));
    }
    lemma_strip_tail(base, seq![sep], false);
}

} // verus!
