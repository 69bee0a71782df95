//! The asset list of a document: the identifiers of the outside resources that
//! a scene refers to, each once, in ascending order.
//!
//! Identifiers are compared as the bytes of their UTF-8 encoding, so upper and
//! lower case differ and the order does not depend on any locale.

use vstd::prelude::*;
use vstd::utf8::{encode_utf8, encode_utf8_decode_utf8};

verus! {

/// Lexicographic order on bytes: the first byte that differs decides, and a
/// proper prefix comes first.
pub open spec fn bytes_less(a: Seq<u8>, b: Seq<u8>) -> bool
    decreases a.len(),
{
    if b.len() == 0 {
        false
    } else if a.len() == 0 {
        true
    } else if a[0] != b[0] {
        a[0] < b[0]
    } else {
        bytes_less(a.skip(1), b.skip(1))
    }
}

/// The order of identifiers.
pub open spec fn text_less(a: Seq<char>, b: Seq<char>) -> bool {
    bytes_less(encode_utf8(a), encode_utf8(b))
}

/// Each text comes before all that follow it: ascending, and none twice.
pub open spec fn strictly_ascending(texts: Seq<Seq<char>>) -> bool {
    forall|i: int, j: int| 0 <= i < j < texts.len() ==> text_less(texts[i], texts[j])
}

/// Both sequences hold the same texts, whatever their order and number.
pub open spec fn same_members(a: Seq<Seq<char>>, b: Seq<Seq<char>>) -> bool {
    forall|t: Seq<char>| a.contains(t) <==> b.contains(t)
}

/// What the strings say.
pub open spec fn texts(strings: Seq<String>) -> Seq<Seq<char>> {
    Seq::new(strings.len(), |i: int| strings[i]@)
}

/// How one identifier stands to another.
#[derive(Clone, Copy, Debug, PartialEq, Eq, Structural)]
pub enum Place {
    Before,
    Same,
    After,
}

pub proof fn lemma_bytes_less_irreflexive(a: Seq<u8>)
    ensures
        !bytes_less(a, a),
    decreases a.len(),
{
    if a.len() > 0 {
        lemma_bytes_less_irreflexive(a.skip(1));
    }
}

pub proof fn lemma_bytes_less_transitive(a: Seq<u8>, b: Seq<u8>, c: Seq<u8>)
    requires
        bytes_less(a, b),
        bytes_less(b, c),
    ensures
        bytes_less(a, c),
    decreases a.len(),
{
    if a.len() > 0 && a[0] == b[0] && b[0] == c[0] {
        lemma_bytes_less_transitive(a.skip(1), b.skip(1), c.skip(1));
    }
}

pub proof fn lemma_bytes_less_total(a: Seq<u8>, b: Seq<u8>)
    ensures
        bytes_less(a, b) || bytes_less(b, a) || a == b,
    decreases a.len(),
{
    if a.len() == 0 || b.len() == 0 {
        if a.len() == 0 && b.len() == 0 {
            assert(a =~= b);
        }
    } else if a[0] == b[0] {
        lemma_bytes_less_total(a.skip(1), b.skip(1));
        if a.skip(1) == b.skip(1) {
            assert(a =~= seq![a[0]] + a.skip(1));
            assert(b =~= seq![b[0]] + b.skip(1));
        }
    }
}

/// No identifier comes before itself.
pub proof fn lemma_text_less_irreflexive(a: Seq<char>)
    ensures
        !text_less(a, a),
{
    lemma_bytes_less_irreflexive(encode_utf8(a));
}

/// What comes before something that comes before a third comes before the third.
pub proof fn lemma_text_less_transitive(a: Seq<char>, b: Seq<char>, c: Seq<char>)
    requires
        text_less(a, b),
        text_less(b, c),
    ensures
        text_less(a, c),
{
    lemma_bytes_less_transitive(encode_utf8(a), encode_utf8(b), encode_utf8(c));
}

/// Of two different identifiers one comes before the other.
pub proof fn lemma_text_less_total(a: Seq<char>, b: Seq<char>)
    ensures
        text_less(a, b) || text_less(b, a) || a == b,
{
    lemma_bytes_less_total(encode_utf8(a), encode_utf8(b));
    if encode_utf8(a) == encode_utf8(b) {
        encode_utf8_decode_utf8(a);
        encode_utf8_decode_utf8(b);
    }
}

/// An ascending sequence is fixed by what it holds: two strictly ascending
/// sequences with the same members are the same sequence. So the asset list
/// does not depend on the order in which the identifiers were found.
pub proof fn lemma_ascending_unique(a: Seq<Seq<char>>, b: Seq<Seq<char>>)
    requires
        strictly_ascending(a),
        strictly_ascending(b),
        same_members(a, b),
    ensures
        a == b,
    decreases a.len(),
{
    if a.len() == 0 {
        if b.len() > 0 {
            assert(b.contains(b[0]));
            assert(a.contains(b[0]));
        }
        assert(a =~= b);
    } else {
        let top = a.last();
        assert(a[a.len() - 1] == top);
        assert(a.contains(top));
        assert(b.contains(top));
        let k = choose|k: int| 0 <= k < b.len() && b[k] == top;
        if k < b.len() - 1 {
            let more = b[b.len() - 1];
            assert(b.contains(more));
            assert(a.contains(more));
            let i = choose|i: int| 0 <= i < a.len() && a[i] == more;
            lemma_text_less_irreflexive(top);
            if i < a.len() - 1 {
                lemma_text_less_transitive(top, more, top);
            }
        }
        let short_a = a.drop_last();
        let short_b = b.drop_last();
        assert forall|t: Seq<char>| short_a.contains(t) <==> short_b.contains(t) by {
            lemma_text_less_irreflexive(top);
            if short_a.contains(t) {
                let i = choose|i: int| 0 <= i < short_a.len() && short_a[i] == t;
                assert(a[i] == t);
                assert(a.contains(t));
                let j = choose|j: int| 0 <= j < b.len() && b[j] == t;
                assert(short_b[j] == t);
            }
            if short_b.contains(t) {
                let j = choose|j: int| 0 <= j < short_b.len() && short_b[j] == t;
                assert(b[j] == t);
                assert(b.contains(t));
                let i = choose|i: int| 0 <= i < a.len() && a[i] == t;
                assert(short_a[i] == t);
            }
        }
        assert(strictly_ascending(short_a)) by {
            assert forall|i: int, j: int| 0 <= i < j < short_a.len() implies text_less(
                short_a[i],
                short_a[j],
            ) by {
                assert(short_a[i] == a[i] && short_a[j] == a[j]);
            }
        }
        assert(strictly_ascending(short_b)) by {
            assert forall|i: int, j: int| 0 <= i < j < short_b.len() implies text_less(
                short_b[i],
                short_b[j],
            ) by {
                assert(short_b[i] == b[i] && short_b[j] == b[j]);
            }
        }
        lemma_ascending_unique(short_a, short_b);
        assert(a =~= short_a.push(top));
        assert(b =~= short_b.push(top));
    }
}

/// Where `a` stands to `b` in the order of identifiers.
pub fn place_of(a: &str, b: &str) -> (r: Place)
    ensures
        match r {
            Place::Before => text_less(a@, b@),
            Place::Same => a@ == b@,
            Place::After => text_less(b@, a@),
        },
{
    let x = a.as_bytes();
    let y = b.as_bytes();
    let mut i: usize = 0;
    proof {
        assert(x@.skip(0) =~= x@);
        assert(y@.skip(0) =~= y@);
    }
    while i < x.len() && i < y.len() && x[i] == y[i]
        invariant
            i <= x@.len(),
            i <= y@.len(),
            x@ == encode_utf8(a@),
            y@ == encode_utf8(b@),
            bytes_less(x@, y@) == bytes_less(x@.skip(i as int), y@.skip(i as int)),
            bytes_less(y@, x@) == bytes_less(y@.skip(i as int), x@.skip(i as int)),
            x@.take(i as int) == y@.take(i as int),
        decreases x@.len() - i,
    {
        proof {
            assert(x@.skip(i as int).skip(1) =~= x@.skip(i + 1));
            assert(y@.skip(i as int).skip(1) =~= y@.skip(i + 1));
            assert(x@.take(i + 1) =~= x@.take(i as int).push(x@[i as int]));
            assert(y@.take(i + 1) =~= y@.take(i as int).push(y@[i as int]));
        }
        i = i + 1;
    }
    if i == x.len() && i == y.len() {
        proof {
            assert(x@.take(i as int) =~= x@);
            assert(y@.take(i as int) =~= y@);
            encode_utf8_decode_utf8(a@);
            encode_utf8_decode_utf8(b@);
        }
        Place::Same
    } else if i == x.len() {
        Place::Before
    } else if i == y.len() {
        Place::After
    } else if x[i] < y[i] {
        Place::Before
    } else {
        Place::After
    }
}

/// Gathers the identifiers found in a scene into its asset list: each
/// identifier once, in ascending order, whatever the order and number in which
/// they were found.
pub fn collect_assets(discovered: &Vec<String>) -> (assets: Vec<String>)
    ensures
        strictly_ascending(texts(assets@)),
        same_members(texts(assets@), texts(discovered@)),
{
    let mut assets: Vec<String> = Vec::new();
    let mut k: usize = 0;
    while k < discovered.len()
        invariant
            k <= discovered@.len(),
            strictly_ascending(texts(assets@)),
            same_members(texts(assets@), texts(discovered@.take(k as int))),
        decreases discovered@.len() - k,
    {
        let item = &discovered[k];
        let mut i: usize = 0;
        let mut place = Place::After;
        while i < assets.len() && place == Place::After
            invariant
                i <= assets@.len(),
                forall|j: int|
                    0 <= j < i - 1 ==> text_less(#[trigger] texts(assets@)[j], item@),
                place == Place::After ==> forall|j: int|
                    0 <= j < i ==> text_less(#[trigger] texts(assets@)[j], item@),
                place == Place::Same ==> i >= 1 && texts(assets@)[i - 1] == item@,
                place == Place::Before ==> i >= 1 && text_less(item@, texts(assets@)[i - 1]),
            decreases assets@.len() - i,
        {
            place = place_of(item.as_str(), assets[i].as_str());
            proof {
                assert(texts(assets@)[i as int] == assets@[i as int]@);
            }
            i = i + 1;
        }
        let ghost before = texts(assets@);
        let ghost seen = texts(discovered@.take(k as int));
        let ghost next = texts(discovered@.take(k + 1));
        proof {
            assert(next =~= seen.push(item@));
        }
        match place {
            Place::Same => {
                proof {
                    assert(before.contains(item@));
                    lemma_members_with(before, before, seen, next, item@);
                }
            },
            Place::Before => {
                let at = i - 1;
                assets.insert(at, item.clone());
                proof {
                    let after = texts(assets@);
                    assert(after =~= before.insert(at as int, item@));
                    lemma_insert_ascending(before, at as int, item@);
                    lemma_insert_members(before, at as int, item@);
                    lemma_members_with(before, after, seen, next, item@);
                }
            },
            Place::After => {
                assets.push(item.clone());
                proof {
                    let after = texts(assets@);
                    assert(after =~= before.insert(before.len() as int, item@));
                    lemma_insert_ascending(before, before.len() as int, item@);
                    lemma_insert_members(before, before.len() as int, item@);
                    lemma_members_with(before, after, seen, next, item@);
                }
            },
        }
        k = k + 1;
    }
    proof {
        assert(discovered@.take(k as int) =~= discovered@);
    }
    assets
}

/// Putting a text between all that come before it and all that come after it
/// keeps a sequence ascending.
proof fn lemma_insert_ascending(s: Seq<Seq<char>>, at: int, t: Seq<char>)
    requires
        strictly_ascending(s),
        0 <= at <= s.len(),
        forall|j: int| 0 <= j < at ==> text_less(#[trigger] s[j], t),
        at < s.len() ==> text_less(t, s[at]),
    ensures
        strictly_ascending(s.insert(at, t)),
{
    let r = s.insert(at, t);
    assert forall|i: int, j: int| 0 <= i < j < r.len() implies text_less(r[i], r[j]) by {
        if i == at {
            if j - 1 > at {
                lemma_text_less_transitive(t, s[at], s[j - 1]);
            }
        }
    }
}

/// A sequence with a text put in holds what it held, and that text.
proof fn lemma_insert_members(s: Seq<Seq<char>>, at: int, t: Seq<char>)
    requires
        0 <= at <= s.len(),
    ensures
        forall|u: Seq<char>| s.insert(at, t).contains(u) <==> (s.contains(u) || u == t),
{
    let r = s.insert(at, t);
    assert forall|u: Seq<char>| r.contains(u) <==> (s.contains(u) || u == t) by {
        if r.contains(u) {
            let i = choose|i: int| 0 <= i < r.len() && r[i] == u;
            if i < at {
                assert(s[i] == u);
            } else if i > at {
                assert(s[i - 1] == u);
            }
        }
        if s.contains(u) {
            let i = choose|i: int| 0 <= i < s.len() && s[i] == u;
            if i < at {
                assert(r[i] == u);
            } else {
                assert(r[i + 1] == u);
            }
        }
        if u == t {
            assert(r[at] == u);
        }
    }
}

/// Where `after` holds what `before` holds and `t`, and `next` holds what
/// `seen` holds and `t`, equal members before mean equal members after.
proof fn lemma_members_with(
    before: Seq<Seq<char>>,
    after: Seq<Seq<char>>,
    seen: Seq<Seq<char>>,
    next: Seq<Seq<char>>,
    t: Seq<char>,
)
    requires
        same_members(before, seen),
        next == seen.push(t),
        forall|u: Seq<char>| after.contains(u) <==> (before.contains(u) || u == t),
    ensures
        same_members(after, next),
{
    assert forall|u: Seq<char>| after.contains(u) <==> next.contains(u) by {
        if next.contains(u) {
            let i = choose|i: int| 0 <= i < next.len() && next[i] == u;
            if i < seen.len() {
                assert(seen[i] == u);
                assert(seen.contains(u));
            }
        }
        if seen.contains(u) {
            let i = choose|i: int| 0 <= i < seen.len() && seen[i] == u;
            assert(next[i] == u);
        }
        if u == t {
            assert(next[next.len() - 1] == u);
        }
    }
}

} // verus!
