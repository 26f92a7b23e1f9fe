//! Ordering texts by their bytes.

use vstd::prelude::*;
use vstd::relations::*;
use vstd::seq_lib::*;
use vstd::string::*;
use vstd::utf8::*;

verus! {

/// `a` does not come after `b` in the order of their bytes.
pub open spec fn bytes_le(a: Seq<u8>, b: Seq<u8>) -> bool
    decreases a.len(),
{
    if a.len() == 0 {
        true
    } else if b.len() == 0 {
        false
    } else if a[0] != b[0] {
        a[0] < b[0]
    } else {
        bytes_le(a.drop_first(), b.drop_first())
    }
}

/// The order by bytes, as a relation.
pub open spec fn by_bytes() -> spec_fn(Seq<u8>, Seq<u8>) -> bool {
    |a: Seq<u8>, b: Seq<u8>| bytes_le(a, b)
}

pub proof fn lemma_bytes_le(a: Seq<u8>, b: Seq<u8>, c: Seq<u8>)
    ensures
        bytes_le(a, a),
        bytes_le(a, b) && bytes_le(b, a) ==> a == b,
        bytes_le(a, b) && bytes_le(b, c) ==> bytes_le(a, c),
        bytes_le(a, b) || bytes_le(b, a),
    decreases a.len() + b.len() + c.len(),
{
    if a.len() > 0 {
        lemma_bytes_le(
            a.drop_first(),
            if b.len() > 0 {
                b.drop_first()
            } else {
                b
            },
            if c.len() > 0 {
                c.drop_first()
            } else {
                c
            },
        );
        if b.len() > 0 && a[0] == b[0] && a.drop_first() == b.drop_first() {
            assert(a =~= seq![a[0]] + a.drop_first());
            assert(b =~= seq![b[0]] + b.drop_first());
        }
    } else if b.len() == 0 {
        assert(a =~= b);
    }
}

/// The order by bytes is a total order.
pub proof fn lemma_by_bytes_is_total()
    ensures
        total_ordering(by_bytes()),
{
    let r = by_bytes();
    assert forall|a: Seq<u8>| #[trigger] r(a, a) by {
        lemma_bytes_le(a, a, a);
    }
    assert forall|a: Seq<u8>, b: Seq<u8>| #[trigger] r(a, b) && #[trigger] r(b, a) implies a
        == b by {
        lemma_bytes_le(a, b, a);
    }
    assert forall|a: Seq<u8>, b: Seq<u8>, c: Seq<u8>| #[trigger] r(a, b) && #[trigger] r(
        b,
        c,
    ) implies r(a, c) by {
        lemma_bytes_le(a, b, c);
    }
    assert forall|a: Seq<u8>, b: Seq<u8>| #[trigger] r(a, b) || #[trigger] r(b, a) by {
        lemma_bytes_le(a, b, a);
    }
}

/// The UTF-8 bytes of each text.
pub open spec fn utf8_views(l: Seq<String>) -> Seq<Seq<u8>> {
    l.map_values(|s: String| encode_utf8(s@))
}

/// The texts' bytes, in order.
pub open spec fn in_order(l: Seq<Seq<u8>>) -> Seq<Seq<u8>> {
    l.sort_by(by_bytes())
}

/// The order does not depend on how the texts were listed.
pub proof fn lemma_in_order_ignores_listing(a: Seq<Seq<u8>>, b: Seq<Seq<u8>>)
    requires
        a.to_multiset() == b.to_multiset(),
    ensures
        in_order(a) == in_order(b),
{
    lemma_by_bytes_is_total();
    a.lemma_sort_by_ensures(by_bytes());
    b.lemma_sort_by_ensures(by_bytes());
    lemma_sorted_unique(in_order(a), in_order(b), by_bytes());
}

/// `a` does not come after `b`.
pub fn not_after(a: &str, b: &str) -> (out: bool)
    ensures
        out == bytes_le(encode_utf8(a@), encode_utf8(b@)),
{
    let x: &[u8] = a.as_bytes();
    let y: &[u8] = b.as_bytes();
    let mut i: usize = 0;
    proof {
        assert(x@.skip(0) =~= x@);
        assert(y@.skip(0) =~= y@);
    }
    while i < x.len()
        invariant
            i <= x@.len(),
            i <= y@.len(),
            bytes_le(x@, y@) == bytes_le(x@.skip(i as int), y@.skip(i as int)),
            x@ == encode_utf8(a@),
            y@ == encode_utf8(b@),
        decreases x.len() - i,
    {
        if i >= y.len() {
            return false;
        }
        if x[i] != y[i] {
            return x[i] < y[i];
        }
        proof {
            assert(x@.skip(i as int).drop_first() =~= x@.skip(i + 1));
            assert(y@.skip(i as int).drop_first() =~= y@.skip(i + 1));
        }
        i = i + 1;
    }
    true
}

/// The texts in the order of their bytes.
pub fn sorted_texts(l: &Vec<String>) -> (out: Vec<String>)
    ensures
        utf8_views(out@) == in_order(utf8_views(l@)),
        out@.len() == l@.len(),
{
    let ghost le = by_bytes();
    proof {
        lemma_by_bytes_is_total();
    }
    let mut out: Vec<String> = Vec::new();
    let mut i: usize = 0;
    assert(utf8_views(out@) =~= utf8_views(l@).take(0));
    while i < l.len()
        invariant
            i <= l@.len(),
            le == by_bytes(),
            total_ordering(le),
            out@.len() == i,
            sorted_by(utf8_views(out@), le),
            utf8_views(out@).to_multiset() == utf8_views(l@).take(i as int).to_multiset(),
        decreases l.len() - i,
    {
        let x: String = l[i].clone();
        let ghost key = encode_utf8(x@);
        let mut at: usize = 0;
        while at < out.len() && not_after(out[at].as_str(), x.as_str())
            invariant
                at <= out@.len(),
                le == by_bytes(),
                key == encode_utf8(x@),
                forall|k: int| 0 <= k < at ==> le(#[trigger] utf8_views(out@)[k], key),
            decreases out.len() - at,
        {
            at = at + 1;
        }
        let ghost before = utf8_views(out@);
        proof {
            assert forall|k: int| at <= k < before.len() implies le(
                key,
                #[trigger] before[k],
            ) by {
                assert(!le(before[at as int], key));
                lemma_bytes_le(before[at as int], key, key);
                if k > at {
                    assert(le(before[at as int], before[k]));
                    lemma_bytes_le(key, before[at as int], before[k]);
                }
            }
        }
        out.insert(at, x);
        proof {
            let after = utf8_views(out@);
            assert(after =~= before.insert(at as int, key));
            assert forall|p: int, q: int| 0 <= p < q < after.len() implies #[trigger] le(
                after[p],
                after[q],
            ) by {
                let op = if p < at {
                    p
                } else {
                    p - 1
                };
                let oq = if q < at {
                    q
                } else {
                    q - 1
                };
                if p != at {
                    assert(after[p] == before[op]);
                }
                if q != at {
                    assert(after[q] == before[oq]);
                }
                if p != at && q != at {
                    assert(le(before[op], before[oq]));
                }
            }
            assert(after.remove(at as int) =~= before);
            before.to_multiset_ensures();
            after.to_multiset_ensures();
            let m = utf8_views(l@).take(i as int);
            m.to_multiset_ensures();
            assert(utf8_views(l@)[i as int] == key);
            assert(m.push(key) =~= utf8_views(l@).take(i + 1));
            assert(after.to_multiset() =~= before.to_multiset().insert(key)) by {
                assert(after.remove(at as int).to_multiset() =~= after.to_multiset().remove(
                    after[at as int],
                ));
                assert(after[at as int] == key);
                assert(after.contains(key));
            }
        }
        i = i + 1;
    }
    proof {
        let all = utf8_views(l@);
        assert(all.take(all.len() as int) =~= all);
        all.lemma_sort_by_ensures(le);
        lemma_sorted_unique(utf8_views(out@), in_order(all), le);
    }
    out
}

} // verus!
