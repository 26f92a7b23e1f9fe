//! A file name that is sent in a Content-Disposition is read out of it again.

use crate::models::ContentDispositionMode;
use crate::names::{
    before_first, disposition_filename, disposition_names, extended_value, lenient_text, low_bytes,
    plain, plain_value, sanitized, unquote_back, unquote_front, unquoted,
};
use crate::serve::{
    attr_byte, disposition_value, law_an_encoded_name_decodes, needs_extended, percent_encoded,
    plain_form, quotable,
};
use crate::text::{
    begins_with, index_from, lemma_index_from, lemma_trimmed_solid, part_from, split_on, trim_back,
    trim_front, trimmed, white,
};
use vstd::prelude::*;
use vstd::string::*;
use vstd::utf8::*;

verus! {

/// What stands behind the last `c` is the last part.
proof fn lemma_last_part(x: Seq<char>, c: char, b: Seq<char>)
    requires
        forall|i: int| 0 <= i < b.len() ==> b[i] != c,
    ensures
        split_on(x + seq![c] + b, c).len() > 0,
        split_on(x + seq![c] + b, c).last() == b,
    decreases x.len(),
{
    let s = x + seq![c] + b;
    lemma_index_from(s, c, 0);
    assert(s[x.len() as int] == c);
    let i = index_from(s, c, 0)->0;
    assert(i <= x.len());
    let rest = s.skip(i + 1);
    if i == x.len() {
        assert(rest =~= b);
        lemma_no_part(b, c);
    } else {
        let y = x.skip(i + 1);
        assert(rest =~= y + seq![c] + b);
        lemma_last_part(y, c, b);
    }
    let parts = split_on(rest, c);
    assert(split_on(s, c) == seq![s.take(i)] + parts);
    assert((seq![s.take(i)] + parts).last() == parts.last());
}

/// A text without `c` is one part.
proof fn lemma_no_part(s: Seq<char>, c: char)
    requires
        forall|i: int| 0 <= i < s.len() ==> s[i] != c,
    ensures
        split_on(s, c) == seq![s],
{
    lemma_index_from(s, c, 0);
}

/// One space in front is all that is trimmed off.
proof fn lemma_trim_one(s: Seq<char>)
    requires
        s.len() >= 2,
        s[0] == ' ',
        !white(s[1]),
        !white(s.last()),
    ensures
        trimmed(s) == s.drop_first(),
{
    let t = s.drop_first();
    assert(t[0] == s[1]);
    assert(trim_front(s) == trim_front(t));
    assert(trim_front(t) == t);
    assert(t.last() == s.last());
}

proof fn lemma_trim_none(s: Seq<char>)
    requires
        s.len() > 0,
        !white(s[0]),
        !white(s.last()),
    ensures
        trimmed(s) == s,
{
}

/// What percent coding writes has no white space, no quotes and no semicolons.
proof fn lemma_encoded_is_safe(bytes: Seq<u8>)
    ensures
        forall|i: int|
            0 <= i < percent_encoded(bytes).len() ==> {
                let c = #[trigger] percent_encoded(bytes)[i];
                c != ';' && c != '"' && c != '\'' && !white(c)
            },
    decreases bytes.len(),
{
    if bytes.len() > 0 {
        let front = percent_encoded(bytes.drop_last());
        lemma_encoded_is_safe(bytes.drop_last());
        let t = percent_encoded(bytes);
        let b = bytes.last();
        assert forall|i: int| 0 <= i < t.len() implies ({
            let c = #[trigger] t[i];
            c != ';' && c != '"' && c != '\'' && !white(c)
        }) by {
            if i < front.len() {
                assert(t[i] == front[i]);
            } else if attr_byte(b) {
                assert(t[i] == b as char);
            }
        }
    }
}

/// The extended value is the name.
proof fn lemma_extended_reads_back(name: Seq<char>)
    ensures
        extended_value("UTF-8''"@ + percent_encoded(encode_utf8(name))) == name,
{
    reveal_strlit("UTF-8''");
    let code = percent_encoded(encode_utf8(name));
    let s = "UTF-8''"@ + code;
    let quotes = seq!['\'', '\''];
    assert(s[0] == 'U' && s[1] == 'T' && s[2] == 'F' && s[3] == '-' && s[4] == '8');
    assert(s[5] == '\'' && s[6] == '\'');
    assert(s.subrange(5, 5int + 2) =~= quotes);
    assert(s.subrange(0, 0int + 2)[0] == 'U');
    assert(s.subrange(1, 1int + 2)[0] == 'T');
    assert(s.subrange(2, 2int + 2)[0] == 'F');
    assert(s.subrange(3, 3int + 2)[0] == '-');
    assert(s.subrange(4, 4int + 2)[0] == '8');
    reveal_with_fuel(part_from, 7);
    assert(part_from(s, quotes, 0) == Some(5int));
    let tag = s.take(5);
    lemma_index_from(tag, '\'', 0);
    assert(before_first(tag, '\'') == tag);
    let charset = tag.map_values(|c: char| crate::names::upper(c));
    assert(charset.len() == 5);
    assert(seq!['I', 'S', 'O', '-', '8', '8', '5', '9', '-', '1'].len() == 10);
    assert(s.skip(7) =~= code);
    law_an_encoded_name_decodes(name);
    encode_utf8_valid_utf8(name);
    encode_utf8_decode_utf8(name);
    assert(lenient_text(encode_utf8(name)) == name);
}

/// The last parameter carries the name in the extended form.
proof fn lemma_extended_wins(x: Seq<char>, name: Seq<char>)
    requires
        name.len() > 0,
    ensures
        ({
            let value = x + "\"; filename*=UTF-8''"@ + percent_encoded(encode_utf8(name));
            let parts = split_on(value, ';');
            disposition_names(parts, parts.len() as int).0 == Some(name)
        }),
{
    reveal_strlit("\"; filename*=UTF-8''");
    reveal_strlit("UTF-8''");
    reveal_strlit("filename*=");
    let code = percent_encoded(encode_utf8(name));
    let value = x + "\"; filename*=UTF-8''"@ + code;
    let b = seq![' '] + "filename*="@ + ("UTF-8''"@ + code);
    lemma_encoded_is_safe(encode_utf8(name));
    let front = x + seq!['"'];
    assert(value =~= front + seq![';'] + b);
    assert forall|i: int| 0 <= i < b.len() implies b[i] != ';' by {
        if i >= 18 {
            assert(b[i] == code[i - 18]);
        }
    }
    lemma_last_part(front, ';', b);
    let parts = split_on(value, ';');
    assert(parts[parts.len() - 1] == b);
    let n = b.len() as int;
    assert(!white(b[n - 1])) by {
        if code.len() > 0 {
            assert(b[n - 1] == code[code.len() - 1]);
        } else {
            assert(b[n - 1] == '\'');
        }
    }
    lemma_trim_one(b);
    let part = trimmed(b);
    assert(part =~= "filename*="@ + ("UTF-8''"@ + code));
    assert(part.take(10) =~= "filename*="@);
    assert(begins_with(part, "filename*="@));
    let inner = "UTF-8''"@ + code;
    assert(part.skip(10) =~= inner);
    assert(inner[0] == 'U');
    let m = inner.len() as int;
    assert(inner[m - 1] == b[n - 1]);
    assert(inner[m - 1] != '"') by {
        if code.len() > 0 {
            assert(inner[m - 1] == code[code.len() - 1]);
        }
    }
    lemma_trim_none(inner);
    assert(unquote_front(inner) == inner);
    assert(unquoted(inner) == inner);
    lemma_extended_reads_back(name);
}

/// A name of ordinary characters is read out of the plain form.
proof fn lemma_plain_reads_back(token: Seq<char>, name: Seq<char>)
    requires
        token.len() > 0,
        token[0] != 'f',
        forall|i: int| 0 <= i < token.len() ==> token[i] != ';' && !white(token[i]),
        name.len() > 0,
        forall|i: int| 0 <= i < name.len() ==> quotable(name[i]) && name[i] != ';',
    ensures
        ({
            let parts = split_on(token + "; filename=\""@ + name + "\""@, ';');
            disposition_names(parts, parts.len() as int) == (None::<Seq<char>>, Some(name))
        }),
{
    reveal_strlit("; filename=\"");
    reveal_strlit("\"");
    reveal_strlit("filename*=");
    reveal_strlit("filename=");
    let value = token + "; filename=\""@ + name + "\""@;
    let b = seq![' '] + "filename="@ + (seq!['"'] + name + seq!['"']);
    assert(value =~= token + seq![';'] + b);
    assert forall|i: int| 0 <= i < b.len() implies b[i] != ';' by {
        if 11 <= i < 11 + name.len() {
            assert(b[i] == name[i - 11]);
        }
    }
    lemma_index_from(value, ';', 0);
    assert(value[token.len() as int] == ';');
    let k = index_from(value, ';', 0)->0;
    assert(k <= token.len());
    if k < token.len() {
        assert(value[k] == token[k]);
    }
    assert(value.take(k) =~= token);
    assert(value.skip(k + 1) =~= b);
    lemma_no_part(b, ';');
    let parts = split_on(value, ';');
    assert(parts == seq![token] + seq![b]);
    assert(parts[0] == token && parts[1] == b && parts.len() == 2);
    lemma_trimmed_solid(token);
    assert(!begins_with(token, "filename*="@)) by {
        if begins_with(token, "filename*="@) {
            assert(token.take(10)[0] == 'f');
        }
    }
    assert(!begins_with(token, "filename="@)) by {
        if begins_with(token, "filename="@) {
            assert(token.take(9)[0] == 'f');
        }
    }
    reveal_with_fuel(disposition_names, 3);
    assert(disposition_names(parts, 1) == (None::<Seq<char>>, None::<Seq<char>>));
    lemma_trim_one(b);
    let part = trimmed(b);
    let quoted = seq!['"'] + name + seq!['"'];
    assert(part =~= "filename="@ + quoted);
    assert(part.take(9) =~= "filename="@);
    assert(!begins_with(part, "filename*="@)) by {
        if begins_with(part, "filename*="@) {
            assert(part.take(10)[8] == part[8]);
            assert(part[8] == '=');
        }
    }
    assert(part.skip(9) =~= quoted);
    lemma_trim_none(quoted);
    lemma_unquoted(name);
    lemma_plain_value(name);
}

proof fn lemma_unquoted(name: Seq<char>)
    requires
        name.len() > 0,
        name[0] != '"',
        name.last() != '"',
    ensures
        unquoted(seq!['"'] + name + seq!['"']) == name,
{
    let quoted = seq!['"'] + name + seq!['"'];
    let t = quoted.drop_first();
    assert(t =~= name + seq!['"']);
    assert(t[0] == name[0]);
    assert(unquote_front(quoted) == unquote_front(t));
    assert(unquote_front(t) == t);
    assert(t.drop_last() =~= name);
    assert(unquote_back(t) == unquote_back(name));
    assert(unquote_back(name) == name);
}

proof fn lemma_quotable_is_ascii(c: char)
    requires
        quotable(c),
    ensures
        '\0' <= c <= '\u{7f}',
{
}

proof fn lemma_plain_value(name: Seq<char>)
    requires
        forall|i: int| 0 <= i < name.len() ==> quotable(name[i]),
    ensures
        plain_value(name) == name,
{
    assert forall|i: int| 0 <= i < name.len() implies '\0' <= #[trigger] name[i] <= '\u{7f}' by {
        assert(quotable(name[i]));
        lemma_quotable_is_ascii(name[i]);
    }
    is_ascii_chars_encode_utf8(name);
    assert forall|i: int| 0 <= i < name.len() implies low_bytes(name)[i] == encode_utf8(name)[i] by {
        assert(quotable(name[i]));
    }
    assert(low_bytes(name) =~= encode_utf8(name));
    encode_utf8_valid_utf8(name);
    encode_utf8_decode_utf8(name);
}

proof fn lemma_trimmed_again(s: Seq<char>)
    ensures
        trimmed(trimmed(s)) == trimmed(s),
{
    let a = trim_front(s);
    lemma_front_is_dark(s);
    lemma_back_is_dark(a);
}

proof fn lemma_front_is_dark(s: Seq<char>)
    ensures
        trim_front(s).len() > 0 ==> !white(trim_front(s)[0]),
    decreases s.len(),
{
    if s.len() > 0 && white(s[0]) {
        lemma_front_is_dark(s.drop_first());
    }
}

proof fn lemma_back_is_dark(s: Seq<char>)
    ensures
        trim_back(s).len() > 0 ==> !white(trim_back(s).last()) && trim_back(s)[0] == s[0],
    decreases s.len(),
{
    if s.len() > 0 && white(s.last()) {
        lemma_back_is_dark(s.drop_last());
    }
}

/// A name whose characters may all stand in a file name is clean already.
proof fn lemma_clean(name: Seq<char>)
    requires
        trimmed(name) == name,
        forall|i: int| 0 <= i < name.len() ==> plain(#[trigger] name[i]),
    ensures
        sanitized(name) == name,
{
    lemma_filter_all(name);
}

pub(crate) proof fn lemma_filter_all(s: Seq<char>)
    requires
        forall|i: int| 0 <= i < s.len() ==> plain(#[trigger] s[i]),
    ensures
        s.filter(|c: char| plain(c)) == s,
    decreases s.len(),
{
    reveal(Seq::filter);
    if s.len() > 0 {
        let front = s.drop_last();
        assert forall|i: int| 0 <= i < front.len() implies plain(#[trigger] front[i]) by {
            assert(front[i] == s[i]);
        }
        lemma_filter_all(front);
        assert(plain(s[s.len() - 1]));
        assert(front.push(s.last()) =~= s);
    } else {
        assert(s.filter(|c: char| plain(c)) =~= s);
    }
}

/// Reading the Content-Disposition that was written for a file name gives the name
/// back, without what may not stand in a file name. A name that goes out in the
/// plain form alone must hold neither a semicolon, which ends a parameter, nor a
/// delete character, which is replaced.
pub proof fn law_a_disposition_reads_back(filename: Seq<char>, mode: ContentDispositionMode)
    requires
        trimmed(filename).len() > 0,
        needs_extended(trimmed(filename)) || forall|i: int|
            0 <= i < trimmed(filename).len() ==> (#[trigger] trimmed(filename)[i]) != ';'
                && trimmed(filename)[i] as u32 != 127,
    ensures
        disposition_value(filename, mode) is Some,
        disposition_filename(disposition_value(filename, mode)->0) == if sanitized(
            trimmed(filename),
        ).len() > 0 {
            Some(sanitized(trimmed(filename)))
        } else {
            None
        },
        (forall|i: int|
            0 <= i < trimmed(filename).len() ==> plain(#[trigger] trimmed(filename)[i]))
            ==> disposition_filename(disposition_value(filename, mode)->0) == Some(
            trimmed(filename),
        ),
{
    let name = trimmed(filename);
    let token = if mode == ContentDispositionMode::Attachment {
        "attachment"@
    } else {
        "inline"@
    };
    let front = token + "; filename=\""@ + plain_form(name);
    if needs_extended(name) {
        lemma_extended_wins(front, name);
    } else {
        assert forall|i: int| 0 <= i < name.len() implies quotable(name[i]) && name[i] != ';' by {
            assert(!(name[i] as u32 > 127 || (name[i] as u32) < 32 || name[i] == '"' || name[i]
                == '\\'));
        }
        assert(plain_form(name) =~= name);
        reveal_strlit("attachment");
        reveal_strlit("inline");
        lemma_plain_reads_back(token, name);
    }
    if forall|i: int| 0 <= i < name.len() ==> plain(#[trigger] name[i]) {
        lemma_trimmed_again(filename);
        lemma_clean(name);
    }
}

} // verus!
