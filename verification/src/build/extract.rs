//! The trigram extractor: for one document, its trigrams and, for each, the
//! trigrams that follow it.
//!
//! A document `c` of `n` bytes is read as if three sentinel bytes followed it.
//! Its trigrams stand at the positions `0 ..= n - 3`; the successor of the trigram
//! at `i` is the trigram at `i + 3` of the padded document. The trigrams at the
//! positions `n - 2`, `n - 1` and `n`, which hold sentinel bytes, are keys too, so
//! that every successor of a document with two bytes or more is also a key. A
//! document of one byte has the all-sentinel trigram for its one key, and an
//! empty document has none.

use std::collections::BTreeMap;
use vstd::prelude::*;
use vstd::std_specs::btree::group_btree_axioms;

use crate::trigram::{pack3, TrigramID, SENTINEL};

verus! {

/// The document with its three bytes of padding.
pub open spec fn padded(c: Seq<u8>) -> Seq<u8> {
    c + seq![SENTINEL, SENTINEL, SENTINEL]
}

/// The integer form of the trigram at position `i` of the padded document.
pub open spec fn gram_at(c: Seq<u8>, i: int) -> u32 {
    pack3(padded(c)[i], padded(c)[i + 1], padded(c)[i + 2])
}

/// Whether the trigram at position `i` is a key of a document of `n` bytes.
pub open spec fn key_position(n: int, i: int) -> bool {
    if n >= 2 {
        0 <= i <= n
    } else {
        n == 1 && i == 1
    }
}

/// Whether `k` is a key of the document `c`.
pub open spec fn is_key(c: Seq<u8>, k: u32) -> bool {
    exists|i: int| key_position(c.len() as int, i) && #[trigger] gram_at(c, i) == k
}

/// Whether `s` follows `k` somewhere in the document `c`.
pub open spec fn follows(c: Seq<u8>, k: u32, s: u32) -> bool {
    exists|i: int| 0 <= i <= c.len() - 3 && #[trigger] gram_at(c, i) == k && gram_at(c, i + 3) == s
}

/// Whether `k` stands at a position below `i`.
pub open spec fn stands_below(c: Seq<u8>, i: int, k: u32) -> bool {
    exists|j: int| 0 <= j < i && #[trigger] gram_at(c, j) == k
}

/// Whether `s` follows `k` at a position below `i`.
pub open spec fn follows_below(c: Seq<u8>, i: int, k: u32, s: u32) -> bool {
    exists|j: int| 0 <= j < i && #[trigger] gram_at(c, j) == k && gram_at(c, j + 3) == s
}

/// Whether each value is above the one before it.
pub open spec fn strictly_increasing(s: Seq<u32>) -> bool {
    forall|i: int, j: int| 0 <= i < j < s.len() ==> s[i] < s[j]
}

/// A trigram of a document, with the trigrams that follow it there, ascending.
#[derive(Debug, Clone)]
pub struct TrigramSuccessors {
    pub trigram: TrigramID,
    pub successors: Vec<TrigramID>,
}

/// Whether the entries ascend by trigram, and the successors of each ascend.
pub open spec fn entries_wf(es: Seq<TrigramSuccessors>) -> bool {
    &&& forall|i: int, j: int| 0 <= i < j < es.len() ==> es[i].trigram < es[j].trigram
    &&& forall|i: int| 0 <= i < es.len() ==> strictly_increasing(#[trigger] es[i].successors@)
}

/// Whether an entry of `es` has the trigram `k`.
pub open spec fn has_key(es: Seq<TrigramSuccessors>, k: u32) -> bool {
    exists|j: int| 0 <= j < es.len() && (#[trigger] es[j]).trigram == k
}

/// Whether the entry of `es` with the trigram `k` has the successor `s`.
pub open spec fn has_pair(es: Seq<TrigramSuccessors>, k: u32, s: u32) -> bool {
    exists|j: int|
        0 <= j < es.len() && (#[trigger] es[j]).trigram == k && es[j].successors@.contains(s)
}

/// The index of the first value of `v` that is not below `x`.
pub fn lower_bound(v: &Vec<u32>, x: u32) -> (p: usize)
    requires
        strictly_increasing(v@),
    ensures
        p <= v@.len(),
        forall|i: int| 0 <= i < p ==> v@[i] < x,
        forall|i: int| p <= i < v@.len() ==> v@[i] >= x,
{
    let mut lo: usize = 0;
    let mut hi: usize = v.len();
    while lo < hi
        invariant
            lo <= hi <= v@.len(),
            strictly_increasing(v@),
            forall|i: int| 0 <= i < lo ==> v@[i] < x,
            forall|i: int| hi <= i < v@.len() ==> v@[i] >= x,
        decreases hi - lo,
    {
        let mid = lo + (hi - lo) / 2;
        if v[mid] < x {
            assert forall|i: int| 0 <= i < mid + 1 implies v@[i] < x by {
                if i < mid {
                    assert(v@[i] < v@[mid as int]);
                }
            }
            lo = mid + 1;
        } else {
            assert forall|i: int| mid <= i < v@.len() implies v@[i] >= x by {
                if i > mid {
                    assert(v@[mid as int] < v@[i]);
                }
            }
            hi = mid;
        }
    }
    lo
}

/// Puts `x` into the ascending `v`, where `v` does not hold it yet.
pub fn insert_sorted(v: &mut Vec<u32>, x: u32)
    requires
        strictly_increasing(old(v)@),
    ensures
        strictly_increasing(final(v)@),
        forall|y: u32| final(v)@.contains(y) <==> old(v)@.contains(y) || y == x,
        old(v)@.contains(x) ==> final(v)@ == old(v)@,
        !old(v)@.contains(x) ==> final(v)@.len() == old(v)@.len() + 1,
{
    let p = lower_bound(v, x);
    let ghost before = v@;
    if p < v.len() && v[p] == x {
        assert(before.contains(x));
        return ;
    }
    v.insert(p, x);
    proof {
        let after = v@;
        assert(after.len() == before.len() + 1);
        assert(forall|i: int| 0 <= i < p ==> after[i] == before[i]);
        assert(after[p as int] == x);
        assert(forall|i: int| p < i < after.len() ==> after[i] == before[i - 1]);
        assert forall|i: int, j: int| 0 <= i < j < after.len() implies after[i] < after[j] by {
            if j < p {
            } else if j == p {
            } else if i < p {
                assert(before[i] < x && x <= before[j - 1]);
            } else if i == p {
                assert(before[j - 1] >= x && before[j - 1] != x) by {
                    if j - 1 == p {
                    } else {
                        assert(before[p as int] < before[j - 1]);
                    }
                }
            } else {
                assert(before[i - 1] < before[j - 1]);
            }
        }
        assert forall|y: u32| after.contains(y) <==> before.contains(y) || y == x by {
            if after.contains(y) {
                let i = choose|i: int| 0 <= i < after.len() && after[i] == y;
                if i < p {
                    assert(before[i] == y);
                } else if i > p {
                    assert(before[i - 1] == y);
                }
            }
            if before.contains(y) {
                let i = choose|i: int| 0 <= i < before.len() && before[i] == y;
                if i < p {
                    assert(after[i] == y);
                } else {
                    assert(after[i + 1] == y);
                }
            }
            if y == x {
                assert(after[p as int] == y);
            }
        }
        assert(!before.contains(x)) by {
            if before.contains(x) {
                let i = choose|i: int| 0 <= i < before.len() && before[i] == x;
                if i > p {
                    assert(before[p as int] < before[i]);
                }
            }
        }
    }
}

/// Whether the successors of `k` in `m` hold `s`.
pub open spec fn map_has_pair(m: Map<u32, Vec<u32>>, k: u32, s: u32) -> bool {
    m.contains_key(k) && m[k]@.contains(s)
}

/// Whether the successors of each trigram in `m` ascend.
pub open spec fn map_wf(m: Map<u32, Vec<u32>>) -> bool {
    forall|k: u32| #[trigger] m.contains_key(k) ==> strictly_increasing(m[k]@)
}

/// `BTreeMap::pop_first`: takes the entry with the least key out of the map;
/// `None` where the map is empty.
#[verifier::external_body]
pub(crate) fn pop_least<V>(m: &mut BTreeMap<u32, V>) -> (r: Option<(u32, V)>)
    ensures
        match r {
            Some((k, v)) => old(m)@.contains_key(k) && old(m)@[k] == v && final(m)@ == old(
                m,
            )@.remove(k) && forall|j: u32| old(m)@.contains_key(j) ==> k <= j,
            None => old(m)@.dom() =~= Set::<u32>::empty() && final(m)@ == old(m)@,
        },
{
    m.pop_first()
}

/// Records that `s` follows `k`.
fn add_pair(m: &mut BTreeMap<u32, Vec<u32>>, k: u32, s: u32)
    requires
        map_wf(old(m)@),
    ensures
        map_wf(final(m)@),
        final(m)@.dom() =~= old(m)@.dom().insert(k),
        forall|k2: u32, other: u32|
            map_has_pair(final(m)@, k2, other) <==> map_has_pair(old(m)@, k2, other) || (k2 == k
                && other == s),
{
    broadcast use group_btree_axioms;

    let ghost before = m@;
    let mut successors = match m.remove(&k) {
        Some(v) => v,
        None => Vec::new(),
    };
    let ghost olds = successors@;
    insert_sorted(&mut successors, s);
    let ghost news = successors@;
    m.insert(k, successors);
    proof {
        assert forall|k2: u32| #[trigger] m@.contains_key(k2) implies strictly_increasing(
            m@[k2]@,
        ) by {
            if k2 != k {
                assert(before.contains_key(k2));
            }
        }
        assert forall|k2: u32, other: u32|
            map_has_pair(m@, k2, other) <==> map_has_pair(before, k2, other) || (k2 == k && other
                == s) by {
            if k2 != k {
                if m@.contains_key(k2) {
                    assert(before.contains_key(k2));
                    assert(m@[k2] == before[k2]);
                }
            } else {
                assert(m@[k]@ == news);
                assert(news.contains(other) <==> olds.contains(other) || other == s);
                if !before.contains_key(k) {
                    assert(!olds.contains(other));
                }
            }
        }
    }
}

/// Records that `k` is a key, whether or not anything follows it.
fn add_key(m: &mut BTreeMap<u32, Vec<u32>>, k: u32)
    requires
        map_wf(old(m)@),
    ensures
        map_wf(final(m)@),
        final(m)@.dom() =~= old(m)@.dom().insert(k),
        forall|k2: u32, other: u32|
            map_has_pair(final(m)@, k2, other) <==> map_has_pair(old(m)@, k2, other),
{
    broadcast use group_btree_axioms;

    let ghost before = m@;
    if !m.contains_key(&k) {
        m.insert(k, Vec::new());
        proof {
            assert forall|k2: u32| #[trigger] m@.contains_key(k2) implies strictly_increasing(
                m@[k2]@,
            ) by {
                if k2 != k {
                    assert(before.contains_key(k2));
                }
            }
            assert forall|k2: u32, other: u32|
                map_has_pair(m@, k2, other) <==> map_has_pair(before, k2, other) by {
                if k2 != k {
                    if m@.contains_key(k2) {
                        assert(before.contains_key(k2));
                    }
                } else {
                    assert(m@[k]@ =~= Seq::<u32>::empty());
                }
            }
        }
    }
}

/// The entries of `m`, ascending by trigram.
fn sorted_entries(m: BTreeMap<u32, Vec<u32>>) -> (out: Vec<TrigramSuccessors>)
    requires
        map_wf(m@),
    ensures
        entries_wf(out@),
        forall|k: u32| has_key(out@, k) <==> m@.contains_key(k),
        forall|k: u32, s: u32| has_pair(out@, k, s) <==> map_has_pair(m@, k, s),
{
    broadcast use group_btree_axioms;

    let ghost all = m@;
    let mut m = m;
    let mut out: Vec<TrigramSuccessors> = Vec::new();
    let total = m.len();
    let mut n: usize = 0;
    while n < total
        invariant
            n <= total,
            out@.len() == n,
            m@.dom().finite(),
            m@.dom().len() == total - n,
            map_wf(all),
            entries_wf(out@),
            forall|k: u32| #[trigger] m@.contains_key(k) ==> all.contains_key(k) && m@[k] == all[k],
            forall|k: u32|
                #[trigger] all.contains_key(k) <==> has_key(out@, k) || m@.contains_key(k),
            forall|i: int, k: u32|
                #![trigger out@[i], m@.contains_key(k)]
                0 <= i < out@.len() && m@.contains_key(k) ==> out@[i].trigram < k,
            forall|i: int|
                0 <= i < out@.len() ==> all.contains_key((#[trigger] out@[i]).trigram)
                    && out@[i].successors == all[out@[i].trigram],
        decreases total - n,
    {
        let ghost left = m@;
        let ghost before = out@;
        match pop_least(&mut m) {
            Some((k, successors)) => {
                out.push(TrigramSuccessors { trigram: k, successors });
                proof {
                    assert(left.contains_key(k));
                    assert forall|i: int, j: int| 0 <= i < j < out@.len() implies out@[i].trigram
                        < out@[j].trigram by {
                        if j < before.len() {
                            assert(before[i].trigram < before[j].trigram);
                        } else {
                            assert(out@[i] == before[i]);
                        }
                    }
                    assert forall|i: int| 0 <= i < out@.len() implies strictly_increasing(
                        #[trigger] out@[i].successors@,
                    ) by {
                        if i < before.len() {
                            assert(out@[i] == before[i]);
                        }
                    }
                    assert forall|k2: u32|
                        #[trigger] all.contains_key(k2) <==> has_key(out@, k2) || m@.contains_key(
                            k2,
                        ) by {
                        if has_key(out@, k2) {
                            let i = choose|i: int|
                                0 <= i < out@.len() && (#[trigger] out@[i]).trigram == k2;
                            if i < before.len() {
                                assert(before[i].trigram == k2);
                                assert(has_key(before, k2));
                            }
                        }
                        if has_key(before, k2) {
                            let i = choose|i: int|
                                0 <= i < before.len() && (#[trigger] before[i]).trigram == k2;
                            assert(out@[i].trigram == k2);
                        }
                        if k2 == k {
                            assert(out@[before.len() as int].trigram == k2);
                        }
                        if left.contains_key(k2) && k2 != k {
                            assert(m@.contains_key(k2));
                        }
                    }
                    assert forall|i: int, k2: u32|
                        #![trigger out@[i], m@.contains_key(k2)]
                        0 <= i < out@.len() && m@.contains_key(k2) implies out@[i].trigram < k2 by {
                        assert(left.contains_key(k2));
                        if i < before.len() {
                            assert(out@[i] == before[i]);
                        }
                    }
                    assert forall|i: int| 0 <= i < out@.len() implies all.contains_key(
                        (#[trigger] out@[i]).trigram,
                    ) && out@[i].successors == all[out@[i].trigram] by {
                        if i < before.len() {
                            assert(out@[i] == before[i]);
                        }
                    }
                }
            },
            None => {
                proof {
                    assert(left.dom().len() == 0);
                }
            },
        }
        n += 1;
    }
    proof {
        assert forall|k: u32| !m@.contains_key(k) by {
            if m@.contains_key(k) {
                assert(m@.dom().contains(k));
                assert(m@.dom().len() > 0) by {
                    vstd::set_lib::lemma_set_empty_equivalency_len(m@.dom());
                }
            }
        }
        assert forall|k: u32, s: u32| has_pair(out@, k, s) <==> map_has_pair(all, k, s) by {
            if has_pair(out@, k, s) {
                let i = choose|i: int|
                    0 <= i < out@.len() && (#[trigger] out@[i]).trigram == k
                        && out@[i].successors@.contains(s);
                assert(all.contains_key(out@[i].trigram));
            }
            if map_has_pair(all, k, s) {
                assert(has_key(out@, k));
                let i = choose|i: int| 0 <= i < out@.len() && (#[trigger] out@[i]).trigram == k;
                assert(out@[i].successors == all[k]);
            }
        }
    }
    out
}

/// The byte at position `i + ahead` of the padded document.
fn padded_byte(content: &[u8], i: usize, ahead: usize) -> (b: u8)
    requires
        i <= content@.len(),
        ahead < 3,
    ensures
        b == padded(content@)[i + ahead],
{
    if ahead < content.len() - i {
        content[i + ahead]
    } else {
        SENTINEL
    }
}

/// The integer form of the trigram at position `i` of the padded document.
fn padded_gram(content: &[u8], i: usize) -> (g: u32)
    requires
        i <= content@.len(),
    ensures
        g == gram_at(content@, i as int),
        g < 0x100_0000,
{
    let b0 = padded_byte(content, i, 0);
    let b1 = padded_byte(content, i, 1);
    let b2 = padded_byte(content, i, 2);
    (b0 as u32) * 65536 + (b1 as u32) * 256 + (b2 as u32)
}

/// The keys of `content`, ascending, each with its successors, ascending.
pub fn extract_trigrams(content: &[u8]) -> (out: Vec<TrigramSuccessors>)
    ensures
        entries_wf(out@),
        forall|k: u32| has_key(out@, k) <==> is_key(content@, k),
        forall|k: u32, s: u32| has_pair(out@, k, s) <==> follows(content@, k, s),
{
    let n = content.len();
    let mut out: BTreeMap<u32, Vec<u32>> = BTreeMap::new();
    let mut i: usize = 0;
    let grams: usize = if n >= 3 {
        n - 2
    } else {
        0
    };
    while i < grams
        invariant
            i <= grams,
            n == content@.len(),
            grams == (if n >= 3 {
                n - 2
            } else {
                0
            }),
            map_wf(out@),
            forall|k: u32| out@.contains_key(k) <==> stands_below(content@, i as int, k),
            forall|k: u32, s: u32|
                map_has_pair(out@, k, s) <==> follows_below(content@, i as int, k, s),
        decreases grams - i,
    {
        let k = padded_gram(content, i);
        let s = padded_gram(content, i + 3);
        let ghost before = out@;
        add_pair(&mut out, k, s);
        proof {
            let c = content@;
            assert forall|k2: u32| out@.contains_key(k2) <==> stands_below(c, i + 1, k2) by {
                assert(out@.contains_key(k2) <==> before.contains_key(k2) || k2 == k);
                if stands_below(c, i + 1, k2) {
                    let j = choose|j: int| 0 <= j < i + 1 && #[trigger] gram_at(c, j) == k2;
                    if j < i {
                        assert(stands_below(c, i as int, k2));
                    }
                }
                if stands_below(c, i as int, k2) {
                    let j = choose|j: int| 0 <= j < i && #[trigger] gram_at(c, j) == k2;
                    assert(0 <= j < i + 1 && gram_at(c, j) == k2);
                }
                if k2 == k {
                    assert(gram_at(c, i as int) == k2);
                }
            }
            assert forall|k2: u32, other: u32|
                map_has_pair(out@, k2, other) <==> follows_below(c, i + 1, k2, other) by {
                if follows_below(c, i + 1, k2, other) {
                    let j = choose|j: int|
                        0 <= j < i + 1 && #[trigger] gram_at(c, j) == k2 && gram_at(c, j + 3)
                            == other;
                    if j < i {
                        assert(follows_below(c, i as int, k2, other));
                    }
                }
                if follows_below(c, i as int, k2, other) {
                    let j = choose|j: int|
                        0 <= j < i && #[trigger] gram_at(c, j) == k2 && gram_at(c, j + 3) == other;
                    assert(0 <= j < i + 1 && gram_at(c, j) == k2 && gram_at(c, j + 3) == other);
                }
                if k2 == k && other == s {
                    assert(gram_at(c, i as int) == k2 && gram_at(c, i + 3) == other);
                }
            }
        }
        i += 1;
    }
    let ghost mid = out@;
    if n >= 2 {
        let k0 = padded_gram(content, n - 2);
        let k1 = padded_gram(content, n - 1);
        let k2 = padded_gram(content, n);
        add_key(&mut out, k0);
        add_key(&mut out, k1);
        add_key(&mut out, k2);
        proof {
            let c = content@;
            assert(out@.dom() =~= mid.dom().insert(k0).insert(k1).insert(k2));
            assert forall|k: u32| out@.contains_key(k) <==> is_key(c, k) by {
                assert(out@.contains_key(k) <==> mid.contains_key(k) || k == k0 || k == k1 || k
                    == k2);
                if is_key(c, k) {
                    let j = choose|j: int|
                        key_position(c.len() as int, j) && #[trigger] gram_at(c, j) == k;
                    if j < grams {
                        assert(stands_below(c, grams as int, k));
                    }
                }
                if stands_below(c, grams as int, k) {
                    let j = choose|j: int| 0 <= j < grams && #[trigger] gram_at(c, j) == k;
                    assert(key_position(c.len() as int, j) && gram_at(c, j) == k);
                }
                if k == k0 {
                    assert(key_position(c.len() as int, n - 2) && gram_at(c, n - 2) == k);
                }
                if k == k1 {
                    assert(key_position(c.len() as int, n - 1) && gram_at(c, n - 1) == k);
                }
                if k == k2 {
                    assert(key_position(c.len() as int, n as int) && gram_at(c, n as int) == k);
                }
            }
        }
    } else if n == 1 {
        let k2 = padded_gram(content, 1);
        add_key(&mut out, k2);
        proof {
            let c = content@;
            assert forall|k: u32| out@.contains_key(k) <==> is_key(c, k) by {
                assert(out@.contains_key(k) <==> mid.contains_key(k) || k == k2);
                if mid.contains_key(k) {
                    assert(stands_below(c, 0, k));
                }
                if is_key(c, k) {
                    let j = choose|j: int|
                        key_position(c.len() as int, j) && #[trigger] gram_at(c, j) == k;
                    assert(j == 1);
                }
                if k == k2 {
                    assert(key_position(c.len() as int, 1) && gram_at(c, 1) == k);
                }
            }
        }
    }
    proof {
        let c = content@;
        if n == 0 {
            assert forall|k: u32| out@.contains_key(k) <==> is_key(c, k) by {
                if out@.contains_key(k) {
                    assert(stands_below(c, 0, k));
                }
            }
        }
        assert forall|k: u32, s: u32| map_has_pair(out@, k, s) <==> follows(c, k, s) by {
            assert(map_has_pair(out@, k, s) <==> follows_below(c, grams as int, k, s));
            if follows(c, k, s) {
                let j = choose|j: int|
                    0 <= j <= c.len() - 3 && #[trigger] gram_at(c, j) == k && gram_at(c, j + 3)
                        == s;
                assert(0 <= j < grams && gram_at(c, j) == k && gram_at(c, j + 3) == s);
            }
            if follows_below(c, grams as int, k, s) {
                let j = choose|j: int|
                    0 <= j < grams && #[trigger] gram_at(c, j) == k && gram_at(c, j + 3) == s;
                assert(0 <= j <= c.len() - 3 && gram_at(c, j) == k && gram_at(c, j + 3) == s);
            }
        }
    }
    sorted_entries(out)
}

} // verus!
