//! Values filed under a page and a position, in order of page and position.
//!
//! [`LsnMap`] is what the memtable, the layers and the relation sizes are made
//! of: a map from `(page, position)` whose entries lie sorted, so that one
//! page's history is one run of neighbouring entries.

use vstd::prelude::*;

use crate::common::lsn::Lsn;
use crate::common::page::{key_rank, key_rank_injective, PageKey};

verus! {

/// The place of `(page, position)` in the order of the map.
#[verifier::opaque]
pub open spec fn slot(k: (PageKey, Lsn)) -> int {
    key_rank(k.0) * 0x1_0000_0000_0000_0000 + k.1.0
}

/// Different keys have different places.
pub proof fn slot_injective(a: (PageKey, Lsn), b: (PageKey, Lsn))
    ensures
        slot(a) == slot(b) <==> a == b,
        a.0 == b.0 ==> (slot(a) < slot(b) <==> a.1.0 < b.1.0),
        key_rank(a.0) < key_rank(b.0) ==> slot(a) < slot(b),
{
    reveal(slot);
    key_rank_injective(a.0, b.0);
    if slot(a) == slot(b) {
        assert(key_rank(a.0) == key_rank(b.0));
        assert(a.1 == b.1);
    }
}

/// What lies between two positions of a page is that page's.
proof fn lemma_slot_between(key: PageKey, k: (PageKey, Lsn), at: Lsn)
    requires
        slot((key, Lsn(0))) <= slot(k) <= slot((key, at)),
    ensures
        k.0 == key,
        k.1.0 <= at.0,
{
    slot_injective((key, Lsn(0)), k);
    slot_injective(k, (key, Lsn(0)));
    slot_injective((key, at), k);
    slot_injective(k, (key, at));
    key_rank_injective(k.0, key);
}

/// `s` lists the entries of `m`, each once, in order.
pub open spec fn enumerates<V>(s: Seq<((PageKey, Lsn), V)>, m: Map<(PageKey, Lsn), V>) -> bool {
    &&& forall|i: int, j: int| 0 <= i < j < s.len() ==> slot(#[trigger] s[i].0) < slot(#[trigger] s[j].0)
    &&& forall|i: int|
        0 <= i < s.len() ==> m.contains_key((#[trigger] s[i]).0) && m[s[i].0] == s[i].1
    &&& forall|k: (PageKey, Lsn)| #[trigger]
        m.contains_key(k) ==> exists|i: int| 0 <= i < s.len() && (#[trigger] s[i]).0 == k
}

/// The entries of a map in order.
pub open spec fn ordered<V>(m: Map<(PageKey, Lsn), V>) -> Seq<((PageKey, Lsn), V)> {
    choose|s: Seq<((PageKey, Lsn), V)>| enumerates(s, m)
}

/// All places of `s` from `i` on lie behind those before it.
proof fn lemma_first_key<V>(
    s: Seq<((PageKey, Lsn), V)>,
    t: Seq<((PageKey, Lsn), V)>,
    m: Map<(PageKey, Lsn), V>,
    i: int,
)
    requires
        enumerates(s, m),
        enumerates(t, m),
        0 <= i < s.len(),
        i <= t.len(),
        forall|j: int| 0 <= j < i ==> s[j] == t[j],
    ensures
        i < t.len(),
        s[i] == t[i],
{
    let k = s[i].0;
    assert(m.contains_key(k));
    let a = choose|a: int| 0 <= a < t.len() && (#[trigger] t[a]).0 == k;
    if a < i {
        assert(s[a] == t[a]);
        assert(slot(s[a].0) < slot(s[i].0));
    }
    assert(i <= a);
    let k2 = t[i].0;
    assert(m.contains_key(k2));
    let b = choose|b: int| 0 <= b < s.len() && (#[trigger] s[b]).0 == k2;
    if b < i {
        assert(s[b] == t[b]);
        assert(slot(t[b].0) < slot(t[i].0));
    }
    if i < a {
        assert(slot(t[i].0) < slot(t[a].0));
        assert(i < b ==> slot(s[i].0) < slot(s[b].0));
    }
}

/// A map's entries have only one order.
pub proof fn enumeration_unique<V>(
    s: Seq<((PageKey, Lsn), V)>,
    t: Seq<((PageKey, Lsn), V)>,
    m: Map<(PageKey, Lsn), V>,
)
    requires
        enumerates(s, m),
        enumerates(t, m),
    ensures
        s == t,
{
    lemma_common_prefix(s, t, m, if s.len() < t.len() { s.len() } else { t.len() });
    if s.len() < t.len() {
        lemma_first_key(t, s, m, s.len() as int);
    } else if t.len() < s.len() {
        lemma_first_key(s, t, m, t.len() as int);
    }
    assert(s =~= t);
}

proof fn lemma_common_prefix<V>(
    s: Seq<((PageKey, Lsn), V)>,
    t: Seq<((PageKey, Lsn), V)>,
    m: Map<(PageKey, Lsn), V>,
    n: nat,
)
    requires
        enumerates(s, m),
        enumerates(t, m),
        n <= s.len(),
        n <= t.len(),
    ensures
        forall|j: int| 0 <= j < n ==> s[j] == t[j],
    decreases n,
{
    if n > 0 {
        lemma_common_prefix(s, t, m, (n - 1) as nat);
        lemma_first_key(s, t, m, n - 1);
    }
}

/// Replacing the value of a listed key.
proof fn lemma_enumerates_update<V>(
    s: Seq<((PageKey, Lsn), V)>,
    m: Map<(PageKey, Lsn), V>,
    p: int,
    k: (PageKey, Lsn),
    v: V,
)
    requires
        enumerates(s, m),
        0 <= p < s.len(),
        s[p].0 == k,
    ensures
        enumerates(s.update(p, (k, v)), m.insert(k, v)),
{
    let t = s.update(p, (k, v));
    let n = m.insert(k, v);
    assert forall|i: int| 0 <= i < t.len() implies n.contains_key((#[trigger] t[i]).0) && n[t[i].0]
        == t[i].1 by {
        if i != p {
            assert(t[i] == s[i]);
            assert(i < p ==> slot(s[i].0) < slot(s[p].0));
            assert(p < i ==> slot(s[p].0) < slot(s[i].0));
        }
    }
    assert forall|i: int, j: int| 0 <= i < j < t.len() implies slot(#[trigger] t[i].0) < slot(
        #[trigger] t[j].0,
    ) by {
        assert(slot(s[i].0) < slot(s[j].0));
    }
    assert forall|q: (PageKey, Lsn)| #[trigger] n.contains_key(q) implies exists|i: int|
        0 <= i < t.len() && (#[trigger] t[i]).0 == q by {
        if q == k {
            assert(t[p].0 == q);
        } else {
            let i = choose|i: int| 0 <= i < s.len() && (#[trigger] s[i]).0 == q;
            assert(t[i].0 == q);
        }
    }
}

/// Listing a new key at its place.
proof fn lemma_enumerates_insert<V>(
    s: Seq<((PageKey, Lsn), V)>,
    m: Map<(PageKey, Lsn), V>,
    p: int,
    k: (PageKey, Lsn),
    v: V,
)
    requires
        enumerates(s, m),
        0 <= p <= s.len(),
        p < s.len() ==> s[p].0 != k,
        forall|i: int| 0 <= i < p ==> slot((#[trigger] s[i]).0) < slot(k),
        forall|i: int| p <= i < s.len() ==> slot((#[trigger] s[i]).0) >= slot(k),
    ensures
        enumerates(s.insert(p, (k, v)), m.insert(k, v)),
        !m.contains_key(k),
{
    let t = s.insert(p, (k, v));
    let n = m.insert(k, v);
    assert forall|i: int| p <= i < s.len() implies slot((#[trigger] s[i]).0) > slot(k) by {
        slot_injective(s[i].0, k);
        if i > p {
            assert(slot(s[p].0) < slot(s[i].0));
        }
    }
    assert forall|i: int| 0 <= i < t.len() && i != p implies (#[trigger] t[i]) == s[if i < p {
        i
    } else {
        i - 1
    }] by {
    }
    assert forall|i: int, j: int| 0 <= i < j < t.len() implies slot(#[trigger] t[i].0) < slot(
        #[trigger] t[j].0,
    ) by {
        let a = if i < p {
            i
        } else {
            i - 1
        };
        let b = if j < p {
            j
        } else {
            j - 1
        };
        if i != p && j != p {
            assert(slot(s[a].0) < slot(s[b].0));
        } else if i == p {
            assert(slot(s[b].0) > slot(k));
        } else {
            assert(slot(s[a].0) < slot(k));
        }
    }
    if m.contains_key(k) {
        let i = choose|i: int| 0 <= i < s.len() && (#[trigger] s[i]).0 == k;
        assert(slot(s[i].0) == slot(k));
    }
    assert forall|i: int| 0 <= i < t.len() implies n.contains_key((#[trigger] t[i]).0) && n[t[i].0]
        == t[i].1 by {
        if i != p {
            let a = if i < p {
                i
            } else {
                i - 1
            };
            assert(m.contains_key(s[a].0));
        }
    }
    assert forall|q: (PageKey, Lsn)| #[trigger] n.contains_key(q) implies exists|i: int|
        0 <= i < t.len() && (#[trigger] t[i]).0 == q by {
        if q == k {
            assert(t[p].0 == q);
        } else {
            let i = choose|i: int| 0 <= i < s.len() && (#[trigger] s[i]).0 == q;
            assert(t[if i < p {
                i
            } else {
                i + 1
            }].0 == q);
        }
    }
}

/// A listing is as long as the map.
pub proof fn enumeration_len<V>(s: Seq<((PageKey, Lsn), V)>, m: Map<(PageKey, Lsn), V>)
    requires
        enumerates(s, m),
    ensures
        m.dom().finite(),
        m.dom().len() == s.len(),
    decreases s.len(),
{
    if s.len() == 0 {
        assert forall|k: (PageKey, Lsn)| !m.dom().contains(k) by {
            if m.contains_key(k) {
                let i = choose|i: int| 0 <= i < s.len() && (#[trigger] s[i]).0 == k;
            }
        }
        assert(m.dom() =~= Set::empty());
    } else {
        let k = s.last().0;
        let m2 = m.remove(k);
        let s2 = s.drop_last();
        assert forall|i: int| 0 <= i < s2.len() implies m2.contains_key((#[trigger] s2[i]).0)
            && m2[s2[i].0] == s2[i].1 by {
            assert(s2[i] == s[i]);
            assert(slot(s[i].0) < slot(s[s.len() - 1].0));
        }
        assert forall|q: (PageKey, Lsn)| #[trigger] m2.contains_key(q) implies exists|i: int|
            0 <= i < s2.len() && (#[trigger] s2[i]).0 == q by {
            let i = choose|i: int| 0 <= i < s.len() && (#[trigger] s[i]).0 == q;
            assert(s2[i].0 == q);
        }
        assert forall|i: int, j: int| 0 <= i < j < s2.len() implies slot(#[trigger] s2[i].0) < slot(
            #[trigger] s2[j].0,
        ) by {
            assert(s2[i] == s[i] && s2[j] == s[j]);
        }
        enumeration_len(s2, m2);
        assert(m.dom() =~= m2.dom().insert(k));
    }
}

// ---------------------------------------------------------------------------
// Histories
// ---------------------------------------------------------------------------

/// What `m` holds of page `key` up to position `lsn`, by position.
pub open spec fn column<V>(m: Map<(PageKey, Lsn), V>, key: PageKey, lsn: Lsn) -> Map<u64, V> {
    Map::new(
        |l: u64| l <= lsn.0 && m.contains_key((key, Lsn(l))),
        |l: u64| m[(key, Lsn(l))],
    )
}

/// What the columns hold at position `l`, in the order of the columns.
pub open spec fn stacked<V>(cols: Seq<Map<u64, V>>, l: u64) -> Seq<(Lsn, V)>
    decreases cols.len(),
{
    if cols.len() == 0 {
        Seq::empty()
    } else {
        let rest = stacked(cols.drop_last(), l);
        if cols.last().contains_key(l) {
            rest.push((Lsn(l), cols.last()[l]))
        } else {
            rest
        }
    }
}

/// What the columns hold below position `n`, by position; at one position, in
/// the order of the columns.
pub open spec fn interleaved<V>(cols: Seq<Map<u64, V>>, n: nat) -> Seq<(Lsn, V)>
    decreases n,
{
    if n == 0 {
        Seq::empty()
    } else {
        interleaved(cols, (n - 1) as nat) + stacked(cols, (n - 1) as u64)
    }
}

/// One more than the last position.
pub open spec fn all_positions() -> nat {
    0x1_0000_0000_0000_0000
}

/// What the columns hold, by position; at one position, in their order.
pub open spec fn woven<V>(cols: Seq<Map<u64, V>>) -> Seq<(Lsn, V)> {
    interleaved(cols, all_positions())
}


proof fn lemma_stacked_positions<V>(cols: Seq<Map<u64, V>>, l: u64)
    ensures
        forall|i: int| 0 <= i < stacked(cols, l).len() ==> (#[trigger] stacked(cols, l)[i]).0 == Lsn(l),
    decreases cols.len(),
{
    if cols.len() > 0 {
        lemma_stacked_positions(cols.drop_last(), l);
        let rest = stacked(cols.drop_last(), l);
        assert forall|i: int| 0 <= i < stacked(cols, l).len() implies (#[trigger] stacked(
            cols,
            l,
        )[i]).0 == Lsn(l) by {
            if i < rest.len() {
                assert(stacked(cols, l)[i] == rest[i]);
            }
        }
    }
}

/// What lies below position `a` comes first, and the rest behind it.
pub proof fn lemma_interleaved_prefix<V>(cols: Seq<Map<u64, V>>, a: nat, b: nat)
    requires
        a <= b <= all_positions(),
    ensures
        interleaved(cols, a).len() <= interleaved(cols, b).len(),
        interleaved(cols, b).take(interleaved(cols, a).len() as int) == interleaved(cols, a),
        forall|i: int|
            0 <= i < interleaved(cols, a).len() ==> (#[trigger] interleaved(cols, b)[i]).0.0 < a,
        forall|i: int|
            interleaved(cols, a).len() <= i < interleaved(cols, b).len() ==> a <= (
            #[trigger] interleaved(cols, b)[i]).0.0 < b,
    decreases b,
{
    let x = interleaved(cols, a);
    let y = interleaved(cols, b);
    if a == b {
        assert(y.take(x.len() as int) =~= x);
        if a > 0 {
            lemma_interleaved_prefix(cols, (a - 1) as nat, (a - 1) as nat);
            lemma_stacked_positions(cols, (a - 1) as u64);
            let z = interleaved(cols, (a - 1) as nat);
            assert forall|i: int| 0 <= i < x.len() implies (#[trigger] y[i]).0.0 < a by {
                if i < z.len() {
                    assert(y[i] == z[i]);
                } else {
                    assert(y[i] == stacked(cols, (a - 1) as u64)[i - z.len()]);
                }
            }
        }
    } else {
        let z = interleaved(cols, (b - 1) as nat);
        let top = stacked(cols, (b - 1) as u64);
        lemma_interleaved_prefix(cols, a, (b - 1) as nat);
        lemma_stacked_positions(cols, (b - 1) as u64);
        assert(y.take(x.len() as int) =~= z.take(x.len() as int));
        assert forall|i: int| 0 <= i < x.len() implies (#[trigger] y[i]).0.0 < a by {
            assert(y[i] == z[i]);
        }
        assert forall|i: int| x.len() <= i < y.len() implies a <= (#[trigger] y[i]).0.0 < b by {
            if i < z.len() {
                assert(y[i] == z[i]);
            } else {
                assert(y[i] == top[i - z.len()]);
            }
        }
    }
}

/// Columns that agree below `n` interleave alike below `n`.
pub proof fn lemma_interleaved_same<V>(a: Seq<Map<u64, V>>, b: Seq<Map<u64, V>>, n: nat)
    requires
        n <= all_positions(),
        forall|l: u64| l < n ==> #[trigger] stacked(a, l) == stacked(b, l),
    ensures
        interleaved(a, n) == interleaved(b, n),
    decreases n,
{
    if n > 0 {
        lemma_interleaved_same(a, b, (n - 1) as nat);
        assert(stacked(a, (n - 1) as u64) == stacked(b, (n - 1) as u64));
    }
}

/// An entry more in the last column comes behind all entries up to its position.
pub proof fn lemma_interleaved_insert<V>(
    cols: Seq<Map<u64, V>>,
    part: Map<u64, V>,
    l: u64,
    v: V,
    n: nat,
)
    requires
        !part.contains_key(l),
        n <= all_positions(),
    ensures
        ({
            let before = interleaved(cols.push(part), n);
            let after = interleaved(cols.push(part.insert(l, v)), n);
            let p = interleaved(cols.push(part), (l + 1) as nat).len() as int;
            if n <= l {
                after == before
            } else {
                p <= before.len() && after == before.take(p).push((Lsn(l), v)) + before.skip(p)
            }
        }),
    decreases n,
{
    let c1 = cols.push(part);
    let c2 = cols.push(part.insert(l, v));
    let before = interleaved(c1, n);
    let after = interleaved(c2, n);
    let p = interleaved(c1, (l + 1) as nat).len() as int;
    if n > 0 {
        lemma_interleaved_insert(cols, part, l, v, (n - 1) as nat);
        let m = (n - 1) as u64;
        assert(c1.drop_last() =~= cols && c2.drop_last() =~= cols);
        if m != l {
            assert(stacked(c1, m) == stacked(c2, m));
        } else {
            assert(stacked(c2, m) == stacked(c1, m).push((Lsn(l), v)));
        }
        let b0 = interleaved(c1, (n - 1) as nat);
        if n > l + 1 {
            assert(before.take(p) =~= b0.take(p));
            assert(before.skip(p) =~= b0.skip(p) + stacked(c1, m));
            assert(after =~= before.take(p).push((Lsn(l), v)) + before.skip(p));
        } else if n == l + 1 {
            assert(p == before.len());
            assert(before.take(p) =~= before);
            assert(before.skip(p) =~= Seq::empty());
            assert(after =~= before.push((Lsn(l), v)));
            assert(after =~= before.take(p).push((Lsn(l), v)) + before.skip(p));
        }
    }
}

/// One column, woven alone, lists its entries by position.
pub proof fn lemma_one_column<V>(col: Map<u64, V>, n: nat)
    requires
        n <= all_positions(),
    ensures
        ({
            let r = interleaved(seq![col], n);
            &&& forall|i: int, j: int| 0 <= i < j < r.len() ==> (#[trigger] r[i]).0.0 < (#[trigger] r[j]).0.0
            &&& forall|i: int|
                0 <= i < r.len() ==> (#[trigger] r[i]).0.0 < n && col.contains_key(r[i].0.0)
                    && col[r[i].0.0] == r[i].1
            &&& forall|l: u64| l < n && #[trigger] col.contains_key(l) ==> exists|i: int|
                0 <= i < r.len() && (#[trigger] r[i]).0 == Lsn(l)
        }),
    decreases n,
{
    if n > 0 {
        let m = (n - 1) as u64;
        lemma_one_column(col, (n - 1) as nat);
        let r0 = interleaved(seq![col], (n - 1) as nat);
        let r = interleaved(seq![col], n);
        let top = stacked(seq![col], m);
        assert(seq![col].drop_last() =~= Seq::empty());
        assert(stacked(seq![col].drop_last(), m) =~= Seq::empty());
        if col.contains_key(m) {
            assert(top =~= seq![(Lsn(m), col[m])]);
        } else {
            assert(top =~= Seq::empty());
        }
        assert forall|l: u64| l < n && #[trigger] col.contains_key(l) implies exists|i: int|
            0 <= i < r.len() && (#[trigger] r[i]).0 == Lsn(l) by {
            if l < n - 1 {
                let i = choose|i: int| 0 <= i < r0.len() && (#[trigger] r0[i]).0 == Lsn(l);
                assert(r[i] == r0[i]);
            } else {
                assert(r[r0.len() as int].0 == Lsn(l));
            }
        }
    }
}

/// A run of positions at which the column holds nothing adds nothing.
proof fn lemma_gap<V>(col: Map<u64, V>, a: nat, b: nat)
    requires
        a <= b <= all_positions(),
        forall|l: u64| a <= l < b ==> !#[trigger] col.contains_key(l),
    ensures
        interleaved(seq![col], a) == interleaved(seq![col], b),
    decreases b,
{
    if a < b {
        lemma_gap(col, a, (b - 1) as nat);
        let m = (b - 1) as u64;
        assert(seq![col].drop_last() =~= Seq::empty());
        assert(!col.contains_key(m));
        assert(seq![col].last() == col);
        assert(stacked(seq![col].drop_last(), m) =~= Seq::empty());
        assert(stacked(seq![col], m) =~= Seq::empty());
        assert(interleaved(seq![col], b) =~= interleaved(seq![col], (b - 1) as nat));
    }
}

/// No columns weave to nothing.
pub proof fn lemma_woven_none<V>()
    ensures
        woven(Seq::<Map<u64, V>>::empty()) == Seq::<(Lsn, V)>::empty(),
{
    lemma_no_columns::<V>(all_positions());
}

proof fn lemma_no_columns<V>(n: nat)
    ensures
        interleaved(Seq::<Map<u64, V>>::empty(), n) == Seq::<(Lsn, V)>::empty(),
    decreases n,
{
    if n > 0 {
        lemma_no_columns::<V>((n - 1) as nat);
        assert(interleaved(Seq::<Map<u64, V>>::empty(), n) =~= Seq::empty());
    }
}

/// A column of one entry weaves to that entry.
pub proof fn lemma_woven_single<V>(l: Lsn, v: V)
    ensures
        woven(seq![Map::<u64, V>::empty().insert(l.0, v)]) == seq![(l, v)],
{
    let col = Map::<u64, V>::empty().insert(l.0, v);
    lemma_one_column(col, all_positions());
    let r = woven(seq![col]);
    assert(col.contains_key(l.0));
    let i = choose|i: int| 0 <= i < r.len() && (#[trigger] r[i]).0 == l;
    if r.len() > 1 {
        assert(r[0].0.0 == l.0 && r[1].0.0 == l.0);
    }
    assert(r =~= seq![(l, v)]);
}

/// An empty column adds nothing.
pub proof fn lemma_empty_column<V>(cols: Seq<Map<u64, V>>)
    ensures
        woven(cols.push(Map::empty())) == woven(cols),
{
    assert forall|l: u64| l < all_positions() implies #[trigger] stacked(
        cols.push(Map::empty()),
        l,
    ) == stacked(cols, l) by {
        assert(cols.push(Map::<u64, V>::empty()).drop_last() =~= cols);
    }
    lemma_interleaved_same(cols.push(Map::empty()), cols, all_positions());
}

/// The part of a column that stands at its first `j` positions, `r` listing it.
spec fn column_part<V>(col: Map<u64, V>, r: Seq<(Lsn, V)>, j: int) -> Map<u64, V> {
    Map::new(|q: u64| col.contains_key(q) && j > 0 && q <= r[j - 1].0.0, |q: u64| col[q])
}

proof fn lemma_column_part<V>(col: Map<u64, V>, r: Seq<(Lsn, V)>, j: int)
    requires
        r == woven(seq![col]),
        0 <= j <= r.len(),
    ensures
        j == 0 ==> column_part(col, r, j) == Map::<u64, V>::empty(),
        j == r.len() ==> column_part(col, r, j) == col,
        j < r.len() ==> {
            &&& !column_part(col, r, j).contains_key(r[j].0.0)
            &&& column_part(col, r, j + 1) == column_part(col, r, j).insert(r[j].0.0, r[j].1)
        },
{
    lemma_one_column(col, all_positions());
    if j == 0 {
        assert(column_part(col, r, j) =~= Map::empty());
    }
    if j == r.len() {
        assert forall|q: u64| col.contains_key(q) implies j > 0 && q <= r[j - 1].0.0 by {
            let i = choose|i: int| 0 <= i < r.len() && (#[trigger] r[i]).0 == Lsn(q);
            assert(i < j - 1 ==> r[i].0.0 < r[j - 1].0.0);
        }
        assert(column_part(col, r, j) =~= col);
    }
    if j < r.len() {
        assert(j > 0 ==> r[j - 1].0.0 < r[j].0.0);
        assert forall|q: u64| col.contains_key(q) && q <= r[j].0.0 && q != r[j].0.0 implies j > 0
            && q <= r[j - 1].0.0 by {
            let i = choose|i: int| 0 <= i < r.len() && (#[trigger] r[i]).0 == Lsn(q);
            assert(i > j ==> r[j].0.0 < r[i].0.0);
            assert(i < j - 1 ==> r[i].0.0 < r[j - 1].0.0);
        }
        assert(column_part(col, r, j + 1) =~= column_part(col, r, j).insert(r[j].0.0, r[j].1));
    }
}

/// Weave one more column, listed in `more`, into the columns woven in `acc`:
/// what it holds comes behind what the others hold at the same position.
pub(crate) fn weave<'a, T: View>(
    acc: &mut Vec<(Lsn, &'a T)>,
    more: &Vec<(Lsn, &'a T)>,
    Ghost(cols): Ghost<Seq<Map<u64, T::V>>>,
    Ghost(col): Ghost<Map<u64, T::V>>,
)
    requires
        refs_view(old(acc)@) == woven(cols),
        refs_view(more@) == woven(seq![col]),
    ensures
        refs_view(final(acc)@) == woven(cols.push(col)),
{
    let ghost r = refs_view(more@);
    let mut j: usize = 0;
    proof {
        lemma_column_part(col, r, 0);
        lemma_empty_column(cols);
    }
    while j < more.len()
        invariant
            j <= more@.len(),
            r == refs_view(more@),
            r == woven(seq![col]),
            refs_view(acc@) == woven(cols.push(column_part(col, r, j as int))),
        decreases more@.len() - j,
    {
        let (l, v) = more[j];
        let ghost part = column_part(col, r, j as int);
        let ghost c = cols.push(part);
        let ghost w = woven(c);
        let ghost before = acc@;
        let ghost place = interleaved(c, l.0 as nat + 1).len() as int;
        proof {
            assert(r[j as int] == (l, v@));
            lemma_column_part(col, r, j as int);
            lemma_interleaved_insert(cols, part, l.0, v@, all_positions());
            lemma_interleaved_prefix(c, l.0 as nat + 1, all_positions());
        }
        let mut p: usize = acc.len();
        while p > 0 && acc[p - 1].0.0 > l.0
            invariant
                p <= acc@.len(),
                refs_view(acc@) == w,
                forall|i: int| p <= i < w.len() ==> (#[trigger] w[i]).0.0 > l.0,
            decreases p,
        {
            assert(w[p - 1].0 == acc@[p - 1].0);
            p -= 1;
        }
        assert(p == place) by {
            if p < place {
                assert(w[p as int].0.0 > l.0);
                assert(w[p as int].0.0 < l.0 + 1);
            } else if p > place {
                assert(w[p - 1].0 == acc@[p - 1].0);
                assert(w[p - 1].0.0 >= l.0 + 1);
            }
        }
        acc.insert(p, (l, v));
        assert(refs_view(acc@) =~= w.take(place).push((l, v@)) + w.skip(place));
        j += 1;
    }
    proof {
        lemma_column_part(col, r, r.len() as int);
    }
}

// ---------------------------------------------------------------------------
// The map
// ---------------------------------------------------------------------------

/// One value of the map.
pub struct Entry<T> {
    pub key: PageKey,
    pub lsn: Lsn,
    pub value: T,
}

/// A map from `(page, position)` to values, its entries sorted.
pub struct LsnMap<T: View> {
    entries: Vec<Entry<T>>,
    map: Ghost<Map<(PageKey, Lsn), T::V>>,
}

impl<T: View> View for LsnMap<T> {
    type V = Map<(PageKey, Lsn), T::V>;

    closed spec fn view(&self) -> Map<(PageKey, Lsn), T::V> {
        self.map@
    }
}

/// What a list of entries holds.
pub open spec fn entries_view<T: View>(e: Seq<Entry<T>>) -> Seq<((PageKey, Lsn), T::V)> {
    Seq::new(e.len(), |i: int| ((e[i].key, e[i].lsn), e[i].value@))
}

/// What each value of a list of references holds.
pub open spec fn refs_view<T: View>(v: Seq<(Lsn, &T)>) -> Seq<(Lsn, T::V)> {
    Seq::new(v.len(), |i: int| (v[i].0, v[i].1@))
}

/// Whether `(ka, la)` comes before `(kb, lb)`.
fn comes_before(ka: &PageKey, la: Lsn, kb: &PageKey, lb: Lsn) -> (r: bool)
    ensures
        r == (slot((*ka, la)) < slot((*kb, lb))),
{
    proof {
        slot_injective((*ka, la), (*kb, lb));
        slot_injective((*kb, lb), (*ka, la));
        key_rank_injective(*ka, *kb);
    }
    if *ka == *kb {
        la.0 < lb.0
    } else {
        ka.precedes(kb)
    }
}

impl<T: View> LsnMap<T> {
    /// The entries are the map's, in order.
    pub closed spec fn wf(self) -> bool {
        enumerates(entries_view(self.entries@), self.map@)
    }

    /// The entries.
    pub closed spec fn listed(self) -> Seq<Entry<T>> {
        self.entries@
    }

    /// The entries are the map's, in order.
    pub proof fn lemma_listed(self)
        requires
            self.wf(),
        ensures
            enumerates(entries_view(self.listed()), self@),
            entries_view(self.listed()) == ordered(self@),
            self@.dom().finite(),
            self@.dom().len() == self.listed().len(),
    {
        let s = entries_view(self.entries@);
        enumeration_unique(s, ordered(self@), self@);
        enumeration_len(s, self@);
    }

    /// An empty map.
    pub fn new() -> (r: LsnMap<T>)
        ensures
            r.wf(),
            r@ == Map::<(PageKey, Lsn), T::V>::empty(),
    {
        LsnMap { entries: Vec::new(), map: Ghost(Map::empty()) }
    }

    /// Number of entries.
    pub fn len(&self) -> (r: usize)
        requires
            self.wf(),
        ensures
            r == self@.dom().len(),
            self@.dom().finite(),
            r == self.listed().len(),
    {
        proof {
            self.lemma_listed();
        }
        self.entries.len()
    }

    /// Whether there is no entry.
    pub fn is_empty(&self) -> (r: bool)
        requires
            self.wf(),
        ensures
            r == (self@ == Map::<(PageKey, Lsn), T::V>::empty()),
            r == (self@.dom().len() == 0),
    {
        proof {
            self.lemma_listed();
            if self@.dom().len() == 0 {
                assert(self@.dom() =~= Set::empty());
                assert(self@ =~= Map::empty());
            }
        }
        self.entries.len() == 0
    }

    /// Entry number `i` in order.
    pub fn entry(&self, i: usize) -> (r: &Entry<T>)
        requires
            i < self.listed().len(),
        ensures
            *r == self.listed()[i as int],
    {
        &self.entries[i]
    }

    /// How many entries come before `(key, lsn)`.
    fn lower_bound(&self, key: &PageKey, lsn: Lsn) -> (p: usize)
        requires
            self.wf(),
        ensures
            p <= self.entries@.len(),
            forall|i: int|
                0 <= i < p ==> slot((#[trigger] entries_view(self.entries@)[i]).0) < slot((*key, lsn)),
            forall|i: int|
                p <= i < self.entries@.len() ==> slot(
                    (#[trigger] entries_view(self.entries@)[i]).0,
                ) >= slot((*key, lsn)),
    {
        let mut lo: usize = 0;
        let mut hi: usize = self.entries.len();
        let ghost s = entries_view(self.entries@);
        while lo < hi
            invariant
                s == entries_view(self.entries@),
                self.wf(),
                lo <= hi <= self.entries@.len(),
                forall|i: int| 0 <= i < lo ==> slot((#[trigger] s[i]).0) < slot((*key, lsn)),
                forall|i: int|
                    hi <= i < s.len() ==> slot((#[trigger] s[i]).0) >= slot((*key, lsn)),
            decreases hi - lo,
        {
            let mid: usize = lo + (hi - lo) / 2;
            let e = &self.entries[mid];
            assert(s[mid as int].0 == (e.key, e.lsn));
            if comes_before(&e.key, e.lsn, key, lsn) {
                assert forall|i: int| 0 <= i < mid + 1 implies slot((#[trigger] s[i]).0) < slot(
                    (*key, lsn),
                ) by {
                    if i < mid {
                        assert(slot(s[i].0) < slot(s[mid as int].0));
                    }
                }
                lo = mid + 1;
            } else {
                assert forall|i: int| mid <= i < s.len() implies slot((#[trigger] s[i]).0) >= slot(
                    (*key, lsn),
                ) by {
                    if mid < i {
                        assert(slot(s[mid as int].0) < slot(s[i].0));
                    }
                }
                hi = mid;
            }
        }
        lo
    }

    /// File `value` under `(key, lsn)`, over what was there.
    pub fn insert(&mut self, key: PageKey, lsn: Lsn, value: T)
        requires
            old(self).wf(),
        ensures
            final(self).wf(),
            final(self)@ == old(self)@.insert((key, lsn), value@),
    {
        let p: usize = self.lower_bound(&key, lsn);
        let ghost s = entries_view(self.entries@);
        let ghost k = (key, lsn);
        let ghost m = self.map@;
        let ghost v = value@;
        let entry = Entry { key, lsn, value };
        if p < self.entries.len() && self.entries[p].key == key && self.entries[p].lsn == lsn {
            self.entries.set(p, entry);
            self.map = Ghost(m.insert(k, v));
            proof {
                assert(s[p as int].0 == k);
                assert(entries_view(self.entries@) =~= s.update(p as int, (k, v)));
                lemma_enumerates_update(s, m, p as int, k, v);
            }
        } else {
            self.entries.insert(p, entry);
            self.map = Ghost(m.insert(k, v));
            proof {
                assert(entries_view(self.entries@) =~= s.insert(p as int, (k, v)));
                assert(p < s.len() ==> s[p as int].0 != k);
                lemma_enumerates_insert(s, m, p as int, k, v);
            }
        }
    }

    /// The values of `key` up to position `lsn`, by position.
    pub fn range(&self, key: PageKey, lsn: Lsn) -> (out: Vec<(Lsn, &T)>)
        requires
            self.wf(),
        ensures
            refs_view(out@) == woven(seq![column(self@, key, lsn)]),
    {
        let start: usize = self.lower_bound(&key, Lsn(0));
        let ghost col = column(self@, key, lsn);
        let ghost s = entries_view(self.entries@);
        let mut out: Vec<(Lsn, &T)> = Vec::new();
        let mut i: usize = start;
        let ghost mut n: nat = 0;
        assert(refs_view(out@) =~= interleaved(seq![col], 0));
        while i < self.entries.len() && self.entries[i].key == key && self.entries[i].lsn.0 <= lsn.0
            invariant
                self.wf(),
                s == entries_view(self.entries@),
                col == column(self@, key, lsn),
                start <= i <= self.entries@.len(),
                forall|j: int| 0 <= j < start ==> slot((#[trigger] s[j]).0) < slot((key, Lsn(0))),
                forall|j: int| start <= j < s.len() ==> slot((#[trigger] s[j]).0) >= slot((key, Lsn(0))),
                i == start ==> n == 0,
                i > start ==> s[i - 1].0.0 == key && n == s[i - 1].0.1.0 + 1,
                refs_view(out@) == interleaved(seq![col], n),
                n <= all_positions(),
            decreases self.entries@.len() - i,
        {
            let e = &self.entries[i];
            let ghost l = e.lsn.0;
            let ghost before = refs_view(out@);
            proof {
                assert(s[i as int] == ((key, Lsn(l)), e.value@));
                assert(col.contains_key(l) && col[l] == e.value@);
                if i > start {
                    slot_injective(s[i - 1].0, s[i as int].0);
                    assert(slot(s[i - 1].0) < slot(s[i as int].0));
                }
                assert forall|q: u64| n <= q < l implies !#[trigger] col.contains_key(q) by {
                    if col.contains_key(q) {
                        if i > start {
                            slot_injective(s[i - 1].0, (key, Lsn(q)));
                        }
                        self.lemma_no_entry_between(key, Lsn(q), i as int, start as int);
                    }
                }
                lemma_gap(col, n, l as nat);
                assert(seq![col].drop_last() =~= Seq::empty());
                assert(stacked(seq![col].drop_last(), l) =~= Seq::empty());
                assert(stacked(seq![col], l) =~= seq![(Lsn(l), e.value@)]);
            }
            out.push((e.lsn, &e.value));
            proof {
                n = l as nat + 1;
                assert(refs_view(out@) =~= before.push((Lsn(l), e.value@)));
                assert(refs_view(out@) =~= interleaved(seq![col], n));
            }
            i += 1;
        }
        proof {
            assert forall|q: u64| n <= q < all_positions() implies !#[trigger] col.contains_key(q) by {
                if col.contains_key(q) {
                    if i > start {
                        slot_injective(s[i - 1].0, (key, Lsn(q)));
                    }
                    self.lemma_no_entry_between(key, Lsn(q), i as int, start as int);
                }
            }
            lemma_gap(col, n, all_positions());
        }
        out
    }

    /// No entry of `key` lies behind entry `i - 1` and before entry `i`.
    proof fn lemma_no_entry_between(self, key: PageKey, at: Lsn, i: int, start: int)
        requires
            self.wf(),
            0 <= start <= i <= self.entries@.len(),
            self@.contains_key((key, at)),
            forall|j: int|
                0 <= j < start ==> slot((#[trigger] entries_view(self.entries@)[j]).0) < slot(
                    (key, Lsn(0)),
                ),
            i > start ==> slot(entries_view(self.entries@)[i - 1].0) < slot((key, at)),
        ensures
            i < self.entries@.len(),
            slot(entries_view(self.entries@)[i].0) <= slot((key, at)),
            slot(entries_view(self.entries@)[i].0) >= slot((key, Lsn(0))) ==> self.entries@[i].key
                == key && self.entries@[i].lsn.0 <= at.0,
    {
        let s = entries_view(self.entries@);
        let q = choose|q: int| 0 <= q < s.len() && (#[trigger] s[q]).0 == (key, at);
        slot_injective((key, Lsn(0)), (key, at));
        if q < start {
            assert(slot(s[q].0) < slot((key, Lsn(0))));
        }
        if q < i {
            assert(q < i - 1 ==> slot(s[q].0) < slot(s[i - 1].0));
        }
        assert(q >= i);
        assert(q > i ==> slot(s[i].0) < slot(s[q].0));
        if slot(s[i].0) >= slot((key, Lsn(0))) {
            lemma_slot_between(key, s[i].0, at);
        }
    }

    /// The newest value of `key` up to position `lsn`.
    pub fn latest(&self, key: PageKey, lsn: Lsn) -> (r: Option<&T>)
        requires
            self.wf(),
        ensures
            match r {
                Some(v) => newest(self@, key, lsn.0 as nat + 1) == Some(v@),
                None => newest(self@, key, lsn.0 as nat + 1) is None,
            },
    {
        let p: usize = self.lower_bound(&key, lsn);
        let ghost s = entries_view(self.entries@);
        let ghost n = lsn.0 as nat + 1;
        if p < self.entries.len() && self.entries[p].key == key && self.entries[p].lsn == lsn {
            assert(s[p as int].0 == (key, lsn));
            return Some(&self.entries[p].value);
        }
        proof {
            assert forall|q: u64| q < n && self@.contains_key((key, Lsn(q))) implies p > 0
                && slot((key, Lsn(q))) <= slot(s[p - 1].0) by {
                let i = choose|i: int| 0 <= i < s.len() && (#[trigger] s[i]).0 == (key, Lsn(q));
                slot_injective((key, Lsn(q)), (key, lsn));
                slot_injective((key, lsn), (key, Lsn(q)));
                if i >= p {
                    assert(slot(s[i].0) >= slot((key, lsn)));
                    assert(p < i ==> slot(s[p as int].0) < slot(s[i].0));
                }
                assert(i < p);
                assert(i < p - 1 ==> slot(s[i].0) < slot(s[p - 1].0));
            }
        }
        if p > 0 && self.entries[p - 1].key == key {
            let e = &self.entries[p - 1];
            assert(s[p - 1].0 == (key, e.lsn));
            proof {
                assert(slot(s[p - 1].0) < slot((key, lsn)));
                slot_injective(s[p - 1].0, (key, lsn));
                assert forall|q: u64| e.lsn.0 < q < n implies !#[trigger] self@.contains_key(
                    (key, Lsn(q)),
                ) by {
                    slot_injective((key, e.lsn), (key, Lsn(q)));
                }
                lemma_newest_at(self@, key, n, e.lsn.0 as nat + 1);
            }
            return Some(&e.value);
        }
        proof {
            assert forall|q: u64| 0 <= q < n implies !#[trigger] self@.contains_key((key, Lsn(q))) by {
                if self@.contains_key((key, Lsn(q))) {
                    assert(slot((key, Lsn(q))) <= slot(s[p - 1].0));
                    assert(slot(s[p - 1].0) < slot((key, lsn)));
                    slot_injective((key, Lsn(0)), (key, Lsn(q)));
                    slot_injective((key, Lsn(q)), (key, Lsn(0)));
                    lemma_slot_between(key, s[p - 1].0, lsn);
                }
            }
            lemma_newest_at(self@, key, n, 0);
        }
        None
    }
}

/// What is kept of a map when of its entries, in the order of `s`, those are
/// kept that `keep` marks.
pub open spec fn kept<V>(
    m: Map<(PageKey, Lsn), V>,
    s: Seq<((PageKey, Lsn), V)>,
    keep: Seq<bool>,
) -> Map<(PageKey, Lsn), V> {
    Map::new(
        |k: (PageKey, Lsn)| exists|i: int| 0 <= i < s.len() && keep[i] && (#[trigger] s[i]).0 == k,
        |k: (PageKey, Lsn)| m[k],
    )
}

/// The elements of `s` from number `i` on that `keep` marks.
pub open spec fn picked<E>(s: Seq<E>, keep: Seq<bool>, i: int) -> Seq<E>
    decreases s.len() - i,
{
    if i < 0 || i >= s.len() {
        Seq::empty()
    } else if keep[i] {
        seq![s[i]] + picked(s, keep, i + 1)
    } else {
        picked(s, keep, i + 1)
    }
}

/// `x` is an element of `s`, from number `i` on, that `keep` marks.
spec fn marked<E>(s: Seq<E>, keep: Seq<bool>, i: int, x: E) -> bool {
    exists|q: int| i <= q < s.len() && keep[q] && #[trigger] s[q] == x
}

/// Where the picked elements come from, and that none is missed.
proof fn lemma_picked<V>(s: Seq<((PageKey, Lsn), V)>, keep: Seq<bool>, i: int)
    requires
        0 <= i <= s.len(),
        keep.len() == s.len(),
        forall|a: int, b: int| 0 <= a < b < s.len() ==> slot(#[trigger] s[a].0) < slot(#[trigger] s[b].0),
    ensures
        forall|a: int|
            0 <= a < picked(s, keep, i).len() ==> marked(
                s,
                keep,
                i,
                #[trigger] picked(s, keep, i)[a],
            ),
        forall|q: int|
            i <= q < s.len() && keep[q] ==> picked(s, keep, i).contains(#[trigger] s[q]),
        forall|a: int, b: int|
            0 <= a < b < picked(s, keep, i).len() ==> slot(#[trigger] picked(s, keep, i)[a].0)
                < slot(#[trigger] picked(s, keep, i)[b].0),
    decreases s.len() - i,
{
    if i < s.len() {
        lemma_picked(s, keep, i + 1);
        let rest = picked(s, keep, i + 1);
        let now = picked(s, keep, i);
        assert forall|x: ((PageKey, Lsn), V)| marked(s, keep, i + 1, x) implies #[trigger] marked(
            s,
            keep,
            i,
            x,
        ) && slot(s[i].0) < slot(x.0) by {
            let q = choose|q: int| i + 1 <= q < s.len() && keep[q] && #[trigger] s[q] == x;
            assert(slot(s[i].0) < slot(s[q].0));
        }
        if keep[i] {
            assert(now =~= seq![s[i]] + rest);
            assert forall|a: int| 0 <= a < now.len() implies marked(s, keep, i, #[trigger] now[a]) by {
                if a == 0 {
                    assert(s[i] == now[a]);
                } else {
                    assert(now[a] == rest[a - 1]);
                    assert(marked(s, keep, i + 1, rest[a - 1]));
                }
            }
            assert forall|q: int| i <= q < s.len() && keep[q] implies now.contains(#[trigger] s[q]) by {
                if q == i {
                    assert(now[0] == s[q]);
                } else {
                    assert(rest.contains(s[q]));
                    let a = choose|a: int| 0 <= a < rest.len() && rest[a] == s[q];
                    assert(now[a + 1] == s[q]);
                }
            }
            assert forall|a: int, b: int| 0 <= a < b < now.len() implies slot(#[trigger] now[a].0)
                < slot(#[trigger] now[b].0) by {
                if a == 0 {
                    assert(now[b] == rest[b - 1]);
                    assert(marked(s, keep, i + 1, rest[b - 1]));
                    assert(marked(s, keep, i, rest[b - 1]));
                } else {
                    assert(now[a] == rest[a - 1] && now[b] == rest[b - 1]);
                }
            }
        } else {
            assert forall|a: int| 0 <= a < now.len() implies marked(s, keep, i, #[trigger] now[a]) by {
                assert(marked(s, keep, i + 1, rest[a]));
            }
        }
    }
}

proof fn lemma_kept<V>(
    s: Seq<((PageKey, Lsn), V)>,
    m: Map<(PageKey, Lsn), V>,
    keep: Seq<bool>,
)
    requires
        enumerates(s, m),
        keep.len() == s.len(),
    ensures
        enumerates(picked(s, keep, 0), kept(m, s, keep)),
{
    lemma_picked(s, keep, 0);
    let t = picked(s, keep, 0);
    let km = kept(m, s, keep);
    assert forall|a: int| 0 <= a < t.len() implies km.contains_key((#[trigger] t[a]).0)
        && km[t[a].0] == t[a].1 by {
        assert(marked(s, keep, 0, t[a]));
        let q = choose|q: int| 0 <= q < s.len() && keep[q] && #[trigger] s[q] == t[a];
        assert(s[q].0 == t[a].0);
        assert(m.contains_key(s[q].0));
    }
    assert forall|k: (PageKey, Lsn)| #[trigger] km.contains_key(k) implies exists|a: int|
        0 <= a < t.len() && (#[trigger] t[a]).0 == k by {
        let q = choose|q: int| 0 <= q < s.len() && keep[q] && (#[trigger] s[q]).0 == k;
        assert(t.contains(s[q]));
        let a = choose|a: int| 0 <= a < t.len() && t[a] == s[q];
        assert(t[a].0 == k);
    }
}

impl<T: View> LsnMap<T> {
    /// Keep the entries that `keep` marks, in order.
    pub(crate) fn retain(self, keep: &Vec<bool>) -> (r: LsnMap<T>)
        requires
            self.wf(),
            keep@.len() == self.listed().len(),
        ensures
            r.wf(),
            r@ == kept(self@, entries_view(self.listed()), keep@),
    {
        let ghost s = entries_view(self.entries@);
        let ghost m = self.map@;
        let ghost all = self.entries@;
        let mut left = self.entries;
        let mut back: Vec<Entry<T>> = Vec::new();
        while left.len() > 0
            invariant
                keep@.len() == all.len(),
                left@.len() <= all.len(),
                left@ == all.take(left@.len() as int),
                back@ == picked(all, keep@, left@.len() as int).reverse(),
            decreases left@.len(),
        {
            let ghost n = left@.len() - 1;
            let ghost rest = picked(all, keep@, n + 1);
            let e = left.pop().unwrap();
            assert(left@ =~= all.take(n));
            if keep[left.len()] {
                back.push(e);
                assert(back@ =~= (seq![all[n]] + rest).reverse());
            }
        }
        let ghost pk = picked(all, keep@, 0);
        let mut entries: Vec<Entry<T>> = Vec::new();
        assert(entries@ =~= pk.take(0));
        while back.len() > 0
            invariant
                back@.len() + entries@.len() == pk.len(),
                back@ == pk.reverse().take(back@.len() as int),
                entries@ == pk.take(entries@.len() as int),
            decreases back@.len(),
        {
            let ghost n = back@.len() - 1;
            let ghost k = entries@.len() as int;
            let e = back.pop().unwrap();
            assert(e == pk[k]);
            assert(back@ =~= pk.reverse().take(n));
            entries.push(e);
            assert(entries@ =~= pk.take(k + 1));
        }
        proof {
            lemma_kept(s, m, keep@);
            assert(pk.take(pk.len() as int) =~= pk);
            lemma_picked_view(all, keep@, 0);
        }
        LsnMap { entries, map: Ghost(kept(m, s, keep@)) }
    }
}

proof fn lemma_picked_view<T: View>(all: Seq<Entry<T>>, keep: Seq<bool>, i: int)
    requires
        0 <= i <= all.len(),
        keep.len() == all.len(),
    ensures
        entries_view(picked(all, keep, i)) == picked(entries_view(all), keep, i),
    decreases all.len() - i,
{
    if i < all.len() {
        lemma_picked_view(all, keep, i + 1);
        let rest = picked(all, keep, i + 1);
        if keep[i] {
            assert(entries_view(seq![all[i]] + rest) =~= seq![entries_view(all)[i]] + entries_view(
                rest,
            ));
        }
    } else {
        assert(entries_view(picked(all, keep, i)) =~= Seq::empty());
    }
}

/// The value of `key` at the highest position below `n`.
pub open spec fn newest<V>(m: Map<(PageKey, Lsn), V>, key: PageKey, n: nat) -> Option<V>
    decreases n,
{
    if n == 0 {
        None
    } else if m.contains_key((key, Lsn((n - 1) as u64))) {
        Some(m[(key, Lsn((n - 1) as u64))])
    } else {
        newest(m, key, (n - 1) as nat)
    }
}

/// Positions at which nothing is filed do not matter.
proof fn lemma_newest_at<V>(m: Map<(PageKey, Lsn), V>, key: PageKey, n: nat, a: nat)
    requires
        a <= n <= all_positions(),
        forall|q: u64| a <= q < n ==> !#[trigger] m.contains_key((key, Lsn(q))),
    ensures
        newest(m, key, n) == newest(m, key, a),
    decreases n,
{
    if a < n {
        assert(!m.contains_key((key, Lsn((n - 1) as u64))));
        lemma_newest_at(m, key, (n - 1) as nat, a);
    }
}

/// What is found below a position is the value filed at the highest position there, and
/// nothing only where none is filed.
pub proof fn the_newest_is_filed_last<V>(m: Map<(PageKey, Lsn), V>, key: PageKey, n: nat)
    requires
        n <= 0x1_0000_0000_0000_0000,
    ensures
        match newest(m, key, n) {
            Some(v) => exists|q: u64|
                q < n && #[trigger] m.contains_key((key, Lsn(q))) && m[(key, Lsn(q))] == v && (forall|
                    p: u64,
                | q < p < n ==> !#[trigger] m.contains_key((key, Lsn(p)))),
            None => forall|q: u64| q < n ==> !#[trigger] m.contains_key((key, Lsn(q))),
        },
    decreases n,
{
    if n > 0 {
        let q = (n - 1) as u64;
        if m.contains_key((key, Lsn(q))) {
            assert(m[(key, Lsn(q))] == newest(m, key, n)->0);
        } else {
            the_newest_is_filed_last(m, key, (n - 1) as nat);
        }
    }
}

} // verus!
