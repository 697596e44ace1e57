//! Immutable layers: the frozen, offloadable unit of the log-structured store.
//!
//! When the memtable fills, its entries are frozen into a [`Layer`], a
//! read-only, sorted snapshot. A layer is what is written to a single file in
//! object storage.

use vstd::prelude::*;

use crate::bytes::{
    be32, be64, be_bytes, lemma_be_bytes_len, lemma_before_cut, lemma_behind, lemma_number_again,
    lemma_pow256, lemma_stands_number, lemma_stands_split, put_be_u32, put_be_u64, stands_at,
};
use crate::common::lsn::Lsn;
use crate::common::page::PageKey;
use crate::pageserver::lsnmap::{
    column, entries_view, enumerates, enumeration_len, enumeration_unique, ordered, refs_view, slot,
    woven, LsnMap,
};
use crate::pageserver::page::{
    address_bytes, address_round_trip, addresses_are_written_as_they_were_read, lemma_cut_address,
    lemma_cut_version, parse_address, parse_version, read_address, read_u32, read_u64,
    read_version, version_bytes, version_fits, version_round_trip,
    versions_are_written_as_they_were_read, versions_end_where_they_say, write_address,
    write_version, PageError, PageErrorV, PageVersion, VersionV, ADDRESS_LEN,
};

verus! {

/// Identifier of a layer, rising over a page server's lifetime.
pub type LayerId = u64;

/// What a set of page versions holds.
pub type VersionsV = Map<(PageKey, Lsn), VersionV>;

/// A sorted list of page versions.
pub type ListingV = Seq<((PageKey, Lsn), VersionV)>;

/// "SPL1".
pub const LAYER_MAGIC: u32 = 0x5350_4C31;

/// The version of the offload format.
pub const LAYER_VERSION: u8 = 1;

/// An immutable, sorted set of page versions.
pub struct Layer {
    id: LayerId,
    entries: LsnMap<PageVersion>,
}

/// What a [`Layer`] holds.
pub struct LayerV {
    pub id: LayerId,
    pub entries: VersionsV,
}

impl View for Layer {
    type V = LayerV;

    closed spec fn view(&self) -> LayerV {
        LayerV { id: self.id, entries: self.entries@ }
    }
}

/// The entries one behind the other, each an address and a version.
pub open spec fn listing_bytes(s: ListingV) -> Seq<u8>
    decreases s.len(),
{
    if s.len() == 0 {
        Seq::empty()
    } else {
        listing_bytes(s.drop_last()) + address_bytes(s.last().0.0, s.last().0.1) + version_bytes(
            s.last().1,
        )
    }
}

/// The magic number, the format's version, the id and the entry count.
pub open spec fn layer_head(id: LayerId, n: nat) -> Seq<u8> {
    be_bytes(LAYER_MAGIC as nat, 4) + seq![LAYER_VERSION] + be_bytes(id as nat, 8) + be_bytes(
        n % 0x1_0000_0000,
        4,
    )
}

/// The offload format: the head, then the entries in order.
pub open spec fn layer_bytes(l: LayerV) -> Seq<u8> {
    layer_head(l.id, ordered(l.entries).len()) + listing_bytes(ordered(l.entries))
}

/// Where the entries start.
pub const LAYER_HEAD_LEN: usize = 17;

/// The next `n` entries at `at`, filed over those in `seen`.
pub open spec fn parse_entries(buf: Seq<u8>, at: int, n: nat, seen: VersionsV) -> Result<
    VersionsV,
    PageErrorV,
>
    decreases n,
{
    if n == 0 {
        Ok(seen)
    } else {
        match parse_address(buf, at) {
            Err(e) => Err(e),
            Ok(k) => match parse_version(buf, at + ADDRESS_LEN) {
                Err(e) => Err(e),
                Ok((v, end)) => parse_entries(buf, end, (n - 1) as nat, seen.insert(k, v)),
            },
        }
    }
}

/// The layer that a buffer says, or why it says none.
pub open spec fn parse_layer(buf: Seq<u8>) -> Result<LayerV, PageErrorV> {
    if buf.len() < 4 {
        Err(PageErrorV::Truncated("u32"@))
    } else if be32(buf, 0) != LAYER_MAGIC {
        Err(PageErrorV::Truncated("layer magic"@))
    } else if buf.len() < 5 {
        Err(PageErrorV::Truncated("layer version"@))
    } else if buf[4] != LAYER_VERSION {
        Err(PageErrorV::BadVersionTag(buf[4]))
    } else if buf.len() < 13 {
        Err(PageErrorV::Truncated("u64"@))
    } else if buf.len() < 17 {
        Err(PageErrorV::Truncated("u32"@))
    } else {
        match parse_entries(buf, LAYER_HEAD_LEN as int, be32(buf, 13) as nat, Map::empty()) {
            Err(e) => Err(e),
            Ok(entries) => Ok(LayerV { id: be64(buf, 5), entries }),
        }
    }
}

/// No entry is a raw WAL record, which the offload format cannot say.
pub open spec fn offloadable(m: VersionsV) -> bool {
    forall|k: (PageKey, Lsn)| #[trigger] m.contains_key(k) ==> !(m[k] is WalRecord)
}

impl Layer {
    /// The entries are sorted.
    pub closed spec fn wf(self) -> bool {
        self.entries.wf()
    }

    /// A layer holds finitely many versions.
    pub proof fn lemma_finite(self)
        requires
            self.wf(),
        ensures
            self@.entries.dom().finite(),
    {
        self.entries.lemma_listed();
    }

    /// Build a layer from a sorted map of entries.
    pub fn new(id: LayerId, entries: LsnMap<PageVersion>) -> (r: Layer)
        requires
            entries.wf(),
        ensures
            r.wf(),
            r@ == (LayerV { id, entries: entries@ }),
    {
        Layer { id, entries }
    }

    /// This layer's id.
    pub fn id(&self) -> (r: LayerId)
        ensures
            r == self@.id,
    {
        self.id
    }

    /// Number of versions held.
    pub fn len(&self) -> (r: usize)
        requires
            self.wf(),
        ensures
            r == self@.entries.dom().len(),
    {
        self.entries.len()
    }

    /// Whether the layer holds no versions.
    pub fn is_empty(&self) -> (r: bool)
        requires
            self.wf(),
        ensures
            r == (self@.entries == Map::<(PageKey, Lsn), VersionV>::empty()),
    {
        self.entries.is_empty()
    }

    /// All entries.
    pub(crate) fn entries(&self) -> (r: &LsnMap<PageVersion>)
        requires
            self.wf(),
        ensures
            r.wf(),
            r@ == self@.entries,
    {
        &self.entries
    }

    /// The versions of `key` up to position `lsn`, by position.
    pub fn range(&self, key: PageKey, lsn: Lsn) -> (r: Vec<(Lsn, &PageVersion)>)
        requires
            self.wf(),
        ensures
            refs_view(r@) == woven(seq![column(self@.entries, key, lsn)]),
    {
        self.entries.range(key, lsn)
    }

    /// Whether the offload format can say the layer.
    pub fn is_offloadable(&self) -> (r: bool)
        requires
            self.wf(),
        ensures
            r == offloadable(self@.entries),
    {
        let n: usize = self.entries.len();
        let ghost s = entries_view(self.entries.listed());
        proof {
            self.entries.lemma_listed();
        }
        let mut i: usize = 0;
        while i < n
            invariant
                i <= n,
                n == self.entries.listed().len(),
                s == entries_view(self.entries.listed()),
                enumerates(s, self.entries@),
                forall|j: int| 0 <= j < i ==> !((#[trigger] s[j]).1 is WalRecord),
            decreases n - i,
        {
            let e = self.entries.entry(i);
            assert(s[i as int] == ((e.key, e.lsn), e.value@));
            match &e.value {
                PageVersion::WalRecord(_) => {
                    assert(self@.entries.contains_key(s[i as int].0));
                    return false;
                },
                _ => {},
            }
            i += 1;
        }
        assert forall|k: (PageKey, Lsn)| #[trigger] self@.entries.contains_key(k) implies !(
        self@.entries[k] is WalRecord) by {
            let j = choose|j: int| 0 <= j < s.len() && (#[trigger] s[j]).0 == k;
            assert(!(s[j].1 is WalRecord));
        }
        true
    }

    /// Serialize the whole layer to a single byte buffer (the offload format).
    pub fn serialize(&self) -> (r: Vec<u8>)
        requires
            self.wf(),
            offloadable(self@.entries),
        ensures
            r@ == layer_bytes(self@),
    {
        let n: usize = self.entries.len();
        let ghost s = entries_view(self.entries.listed());
        proof {
            self.entries.lemma_listed();
        }
        let mut buf: Vec<u8> = Vec::new();
        put_be_u32(&mut buf, LAYER_MAGIC);
        buf.push(LAYER_VERSION);
        put_be_u64(&mut buf, self.id);
        put_be_u32(&mut buf, (n as u64 % 0x1_0000_0000) as u32);
        let ghost head = layer_head(self.id, s.len());
        assert(buf@ =~= head);
        let mut i: usize = 0;
        assert(s.take(0) =~= Seq::empty());
        assert(buf@ =~= head + listing_bytes(s.take(0)));
        while i < n
            invariant
                i <= n,
                n == self.entries.listed().len(),
                s == entries_view(self.entries.listed()),
                enumerates(s, self.entries@),
                offloadable(self.entries@),
                buf@ == head + listing_bytes(s.take(i as int)),
            decreases n - i,
        {
            let e = self.entries.entry(i);
            assert(s[i as int] == ((e.key, e.lsn), e.value@));
            assert(self.entries@.contains_key(s[i as int].0));
            write_address(&mut buf, &e.key, e.lsn);
            write_version(&mut buf, &e.value);
            assert(s.take(i + 1).drop_last() =~= s.take(i as int));
            assert(s.take(i + 1).last() == s[i as int]);
            assert(buf@ =~= head + listing_bytes(s.take(i + 1)));
            i += 1;
        }
        assert(s.take(n as int) =~= s);
        buf
    }

    /// Read a layer from a buffer that [`Layer::serialize`] wrote.
    pub fn deserialize(buf: &[u8]) -> (r: Result<Layer, PageError>)
        ensures
            match r {
                Ok(l) => parse_layer(buf@) == Ok::<LayerV, PageErrorV>(l@) && l.wf(),
                Err(e) => parse_layer(buf@) == Err::<LayerV, PageErrorV>(e@),
            },
    {
        if read_u32(buf, 0)? != LAYER_MAGIC {
            return Err(PageError::Truncated("layer magic"));
        }
        if buf.len() < 5 {
            return Err(PageError::Truncated("layer version"));
        }
        let ver: u8 = buf[4];
        if ver != LAYER_VERSION {
            return Err(PageError::BadVersionTag(ver));
        }
        let id: u64 = read_u64(buf, 5)?;
        let count: u32 = read_u32(buf, 13)?;
        let mut entries: LsnMap<PageVersion> = LsnMap::new();
        let mut at: usize = LAYER_HEAD_LEN;
        let mut left: u32 = count;
        while left > 0
            invariant
                at <= buf@.len(),
                entries.wf(),
                buf@.len() >= 17,
                be32(buf@, 0) == LAYER_MAGIC,
                buf@[4] == LAYER_VERSION,
                count == be32(buf@, 13),
                parse_entries(buf@, at as int, left as nat, entries@) == parse_entries(
                    buf@,
                    LAYER_HEAD_LEN as int,
                    count as nat,
                    Map::empty(),
                ),
            decreases left,
        {
            let (key, lsn) = read_address(buf, at)?;
            assert(buf.len() == buf@.len());
            let (version, end) = read_version(buf, at + ADDRESS_LEN)?;
            entries.insert(key, lsn, version);
            at = end;
            left -= 1;
        }
        Ok(Layer { id, entries })
    }
}

/// The map that a list of entries fills, in order.
pub open spec fn filled(s: ListingV) -> VersionsV
    decreases s.len(),
{
    if s.len() == 0 {
        Map::empty()
    } else {
        filled(s.drop_last()).insert(s.last().0, s.last().1)
    }
}

proof fn lemma_filled(s: ListingV)
    requires
        forall|i: int, j: int| 0 <= i < j < s.len() ==> slot(#[trigger] s[i].0) < slot(#[trigger] s[j].0),
    ensures
        forall|i: int| 0 <= i < s.len() ==> filled(s).contains_key((#[trigger] s[i]).0) && filled(s)[s[i].0] == s[i].1,
        forall|k: (PageKey, Lsn)| #[trigger]
            filled(s).contains_key(k) ==> exists|i: int| 0 <= i < s.len() && (#[trigger] s[i]).0 == k,
    decreases s.len(),
{
    if s.len() > 0 {
        let t = s.drop_last();
        assert forall|i: int, j: int| 0 <= i < j < t.len() implies slot(#[trigger] t[i].0) < slot(
            #[trigger] t[j].0,
        ) by {
            assert(t[i] == s[i] && t[j] == s[j]);
        }
        lemma_filled(t);
        assert forall|i: int| 0 <= i < s.len() implies filled(s).contains_key((#[trigger] s[i]).0)
            && filled(s)[s[i].0] == s[i].1 by {
            if i < s.len() - 1 {
                assert(t[i] == s[i]);
                assert(slot(s[i].0) < slot(s[s.len() - 1].0));
            }
        }
        assert forall|k: (PageKey, Lsn)| #[trigger] filled(s).contains_key(k) implies exists|i: int|
            0 <= i < s.len() && (#[trigger] s[i]).0 == k by {
            if k == s.last().0 {
                assert(s[s.len() - 1].0 == k);
            } else {
                assert(filled(t).contains_key(k));
                let i = choose|i: int| 0 <= i < t.len() && (#[trigger] t[i]).0 == k;
                assert(s[i].0 == k);
            }
        }
    }
}

/// A listing of a map fills the map.
pub(crate) proof fn lemma_listing_fills(s: ListingV, m: VersionsV)
    requires
        enumerates(s, m),
    ensures
        filled(s) == m,
{
    lemma_filled(s);
    assert(filled(s) =~= m);
}

/// An entry's wire form.
pub open spec fn entry_bytes(k: (PageKey, Lsn), v: VersionV) -> Seq<u8> {
    address_bytes(k.0, k.1) + version_bytes(v)
}

/// An entry that stands somewhere in its wire form is parsed there.
proof fn lemma_parse_entry(
    buf: Seq<u8>,
    at: int,
    k: (PageKey, Lsn),
    v: VersionV,
    n: nat,
    seen: VersionsV,
)
    requires
        version_fits(v),
        stands_at(buf, at, entry_bytes(k, v)),
        n > 0,
    ensures
        parse_entries(buf, at, n, seen) == parse_entries(
            buf,
            at + entry_bytes(k, v).len(),
            (n - 1) as nat,
            seen.insert(k, v),
        ),
{
    let a = address_bytes(k.0, k.1);
    let w = version_bytes(v);
    lemma_stands_split(buf, at, a, w);
    address_round_trip(buf, at, k.0, k.1);
    version_round_trip(buf, at + a.len(), v);
}

/// Entries that stand somewhere in their wire form are parsed there.
proof fn lemma_parse_entries(buf: Seq<u8>, at: int, s: ListingV, n: nat)
    requires
        s.len() <= n,
        forall|i: int| 0 <= i < s.len() ==> version_fits((#[trigger] s[i]).1),
        stands_at(buf, at, listing_bytes(s)),
    ensures
        parse_entries(buf, at, n, Map::empty()) == parse_entries(
            buf,
            at + listing_bytes(s).len(),
            (n - s.len()) as nat,
            filled(s),
        ),
    decreases s.len(),
{
    if s.len() > 0 {
        let before = s.drop_last();
        let e = s.last();
        let w = entry_bytes(e.0, e.1);
        assert(listing_bytes(s) =~= listing_bytes(before) + w);
        lemma_stands_split(buf, at, listing_bytes(before), w);
        assert forall|i: int| 0 <= i < before.len() implies version_fits((#[trigger] before[i]).1) by {
            assert(before[i] == s[i]);
        }
        lemma_parse_entries(buf, at, before, n);
        assert(version_fits(s[s.len() - 1].1));
        lemma_parse_entry(
            buf,
            at + listing_bytes(before).len(),
            e.0,
            e.1,
            (n - before.len()) as nat,
            filled(before),
        );
    }
}

/// A layer read back from its offload format is the layer, where the format
/// says all of it.
pub proof fn layer_round_trip(layer: Layer)
    requires
        layer.wf(),
        layer@.entries.dom().len() < 0x1_0000_0000,
        forall|k: (PageKey, Lsn)| #[trigger]
            layer@.entries.contains_key(k) ==> version_fits(layer@.entries[k]),
    ensures
        parse_layer(layer_bytes(layer@)) == Ok::<LayerV, PageErrorV>(layer@),
        ordered(parse_layer(layer_bytes(layer@))->Ok_0.entries) == ordered(layer@.entries),
        forall|key: PageKey, lsn: Lsn|
            column(parse_layer(layer_bytes(layer@))->Ok_0.entries, key, lsn) == #[trigger] column(
                layer@.entries,
                key,
                lsn,
            ),
{
    let l = layer@;
    layer.entries.lemma_listed();
    let s = ordered(l.entries);
    assert(enumerates(s, l.entries));
    enumeration_len(s, l.entries);
    let buf = layer_bytes(l);
    assert(buf.subrange(0, buf.len() as int) =~= buf);
    lemma_stands_split(buf, 0, layer_head(l.id, s.len()), listing_bytes(s));
    lemma_layer_head(buf, l.id, s.len());
    assert forall|i: int| 0 <= i < s.len() implies version_fits((#[trigger] s[i]).1) by {
        assert(l.entries.contains_key(s[i].0));
    }
    lemma_parse_entries(buf, 17, s, s.len());
    lemma_listing_fills(s, l.entries);
}

proof fn lemma_layer_head(buf: Seq<u8>, id: LayerId, n: nat)
    requires
        n < 0x1_0000_0000,
        stands_at(buf, 0, layer_head(id, n)),
    ensures
        buf.len() >= 17,
        layer_head(id, n).len() == 17,
        be32(buf, 0) == LAYER_MAGIC,
        buf[4] == LAYER_VERSION,
        be64(buf, 5) == id,
        be32(buf, 13) == n,
{
    let m = be_bytes(LAYER_MAGIC as nat, 4);
    let i = be_bytes(id as nat, 8);
    let c = be_bytes(n % 0x1_0000_0000, 4);
    lemma_be_bytes_len(LAYER_MAGIC as nat, 4);
    lemma_be_bytes_len(id as nat, 8);
    lemma_be_bytes_len(n % 0x1_0000_0000, 4);
    lemma_pow256();
    lemma_stands_split(buf, 0, m + seq![LAYER_VERSION] + i, c);
    lemma_stands_split(buf, 0, m + seq![LAYER_VERSION], i);
    lemma_stands_split(buf, 0, m, seq![LAYER_VERSION]);
    lemma_stands_number(buf, 0, LAYER_MAGIC as nat, 4);
    lemma_stands_number(buf, 5, id as nat, 8);
    lemma_stands_number(buf, 13, n % 0x1_0000_0000, 4);
    assert(buf[4] == buf.subrange(4, 5)[0]);
}

/// Where the next `n` entries at `at` end.
spec fn entries_end(buf: Seq<u8>, at: int, n: nat) -> int
    decreases n,
{
    if n == 0 {
        at
    } else {
        entries_end(buf, parse_version(buf, at + ADDRESS_LEN)->Ok_0.1, (n - 1) as nat)
    }
}

/// Entries that are cut short are missed.
proof fn lemma_cut_entries(buf: Seq<u8>, cut: int, at: int, n: nat, seen: VersionsV)
    requires
        0 <= at <= cut <= buf.len(),
        parse_entries(buf, at, n, seen) is Ok,
        cut < entries_end(buf, at, n),
    ensures
        ({
            let short = parse_entries(buf.take(cut), at, n, seen);
            short is Err && short->Err_0 is Truncated
        }),
    decreases n,
{
    let k = parse_address(buf, at)->Ok_0;
    let (v, end) = parse_version(buf, at + ADDRESS_LEN)->Ok_0;
    lemma_cut_address(buf, cut, at);
    lemma_cut_version(buf, cut, at + ADDRESS_LEN);
    if end <= cut {
        lemma_cut_entries(buf, cut, end, (n - 1) as nat, seen.insert(k, v));
    }
}

/// Entries that stand somewhere in their wire form end where that ends.
proof fn lemma_entries_end(buf: Seq<u8>, at: int, s: ListingV, n: nat)
    requires
        s.len() <= n,
        forall|i: int| 0 <= i < s.len() ==> version_fits((#[trigger] s[i]).1),
        stands_at(buf, at, listing_bytes(s)),
    ensures
        entries_end(buf, at, n) == entries_end(
            buf,
            at + listing_bytes(s).len(),
            (n - s.len()) as nat,
        ),
    decreases s.len(),
{
    if s.len() > 0 {
        let before = s.drop_last();
        let e = s.last();
        let a = address_bytes(e.0.0, e.0.1);
        let w = entry_bytes(e.0, e.1);
        let mid = at + listing_bytes(before).len();
        assert(listing_bytes(s) =~= listing_bytes(before) + w);
        lemma_stands_split(buf, at, listing_bytes(before), w);
        assert forall|i: int| 0 <= i < before.len() implies version_fits((#[trigger] before[i]).1) by {
            assert(before[i] == s[i]);
        }
        lemma_entries_end(buf, at, before, n);
        assert(version_fits(s[s.len() - 1].1));
        lemma_stands_split(buf, mid, a, version_bytes(e.1));
        address_round_trip(buf, mid, e.0.0, e.0.1);
        version_round_trip(buf, mid + a.len(), e.1);
    }
}

/// A layer that is cut short is reported as truncated, wherever it is cut.
pub proof fn cut_layers_are_refused(layer: Layer, n: int)
    requires
        layer.wf(),
        layer@.entries.dom().len() < 0x1_0000_0000,
        forall|k: (PageKey, Lsn)| #[trigger]
            layer@.entries.contains_key(k) ==> version_fits(layer@.entries[k]),
        0 <= n < layer_bytes(layer@).len(),
    ensures
        ({
            let short = parse_layer(layer_bytes(layer@).take(n));
            short is Err && short->Err_0 is Truncated
        }),
{
    let l = layer@;
    layer_round_trip(layer);
    layer.entries.lemma_listed();
    let s = ordered(l.entries);
    assert(enumerates(s, l.entries));
    enumeration_len(s, l.entries);
    let buf = layer_bytes(l);
    assert(buf.subrange(0, buf.len() as int) =~= buf);
    lemma_stands_split(buf, 0, layer_head(l.id, s.len()), listing_bytes(s));
    lemma_layer_head(buf, l.id, s.len());
    assert forall|i: int| 0 <= i < s.len() implies version_fits((#[trigger] s[i]).1) by {
        assert(l.entries.contains_key(s[i].0));
    }
    lemma_entries_end(buf, 17, s, s.len());
    if n >= 4 {
        lemma_before_cut(buf, n, 0, 4);
    }
    if n >= 17 {
        lemma_before_cut(buf, n, 13, 4);
        lemma_cut_entries(buf, n, 17, s.len(), Map::empty());
    }
}

/// The next `n` entries at `at`, as they stand, behind those in `seen`.
pub open spec fn entries_as_they_stand(buf: Seq<u8>, at: int, n: nat, seen: ListingV) -> ListingV
    decreases n,
{
    if n == 0 {
        seen
    } else {
        let (v, end) = parse_version(buf, at + ADDRESS_LEN)->Ok_0;
        entries_as_they_stand(buf, end, (n - 1) as nat, seen.push((parse_address(buf, at)->Ok_0, v)))
    }
}

/// Entries that were read, written again in their order, are the bytes that they were
/// read from.
proof fn lemma_entries_again(buf: Seq<u8>, at: int, n: nat, seen: ListingV)
    requires
        0 <= at <= buf.len(),
        parse_entries(buf, at, n, filled(seen)) is Ok,
    ensures
        ({
            let s = entries_as_they_stand(buf, at, n, seen);
            let end = entries_end(buf, at, n);
            &&& at <= end <= buf.len()
            &&& s.len() == seen.len() + n
            &&& parse_entries(buf, at, n, filled(seen)) == Ok::<VersionsV, PageErrorV>(filled(s))
            &&& listing_bytes(s) == listing_bytes(seen) + buf.subrange(at, end)
        }),
    decreases n,
{
    let s = entries_as_they_stand(buf, at, n, seen);
    let end = entries_end(buf, at, n);
    if n > 0 {
        let k = parse_address(buf, at)->Ok_0;
        let (v, mid) = parse_version(buf, at + ADDRESS_LEN)->Ok_0;
        let next = seen.push((k, v));
        assert(next.drop_last() =~= seen);
        addresses_are_written_as_they_were_read(buf, at);
        versions_are_written_as_they_were_read(buf, at + ADDRESS_LEN);
        lemma_entries_again(buf, mid, (n - 1) as nat, next);
        assert(listing_bytes(next) =~= listing_bytes(seen) + buf.subrange(at, mid));
        assert(listing_bytes(s) =~= listing_bytes(seen) + buf.subrange(at, end));
    } else {
        assert(listing_bytes(seen) + buf.subrange(at, at) =~= listing_bytes(seen));
    }
}

/// A buffer that says a layer, its entries in the order of their pages and positions,
/// starts with the layer's offload format.
pub proof fn layers_are_written_as_they_were_read(buf: Seq<u8>)
    requires
        parse_layer(buf) is Ok,
        ({
            let s = entries_as_they_stand(buf, 17, be32(buf, 13) as nat, Seq::empty());
            forall|i: int, j: int|
                0 <= i < j < s.len() ==> slot(#[trigger] s[i].0) < slot(#[trigger] s[j].0)
        }),
    ensures
        ({
            let w = layer_bytes(parse_layer(buf)->Ok_0);
            w.len() <= buf.len() && w == buf.take(w.len() as int)
        }),
{
    let l = parse_layer(buf)->Ok_0;
    let n = be32(buf, 13) as nat;
    let s = entries_as_they_stand(buf, 17, n, Seq::empty());
    let end = entries_end(buf, 17, n);
    lemma_entries_again(buf, 17, n, Seq::empty());
    lemma_filled(s);
    assert(enumerates(s, l.entries));
    enumeration_unique(s, ordered(l.entries), l.entries);
    lemma_pow256();
    lemma_number_again(buf, 0, 4);
    lemma_number_again(buf, 5, 8);
    lemma_number_again(buf, 13, 4);
    assert(layer_head(l.id, n) =~= buf.take(17));
    assert(layer_bytes(l) =~= buf.take(end));
}

proof fn lemma_longer_entries(buf: Seq<u8>, more: Seq<u8>, at: int, n: nat, seen: VersionsV)
    requires
        0 <= at,
        parse_entries(buf, at, n, seen) is Ok,
    ensures
        parse_entries(buf + more, at, n, seen) == parse_entries(buf, at, n, seen),
    decreases n,
{
    if n > 0 {
        versions_end_where_they_say(buf, more, at);
        versions_end_where_they_say(buf, more, at + ADDRESS_LEN);
        let k = parse_address(buf, at)->Ok_0;
        let (v, end) = parse_version(buf, at + ADDRESS_LEN)->Ok_0;
        lemma_cut_version(buf, buf.len() as int, at + ADDRESS_LEN);
        lemma_longer_entries(buf, more, end, (n - 1) as nat, seen.insert(k, v));
    }
}

/// What follows a layer does not change it.
pub proof fn layers_end_where_they_say(buf: Seq<u8>, more: Seq<u8>)
    ensures
        parse_layer(buf) is Ok ==> parse_layer(buf + more) == parse_layer(buf),
{
    if parse_layer(buf) is Ok {
        lemma_behind(buf, more, 0, 4);
        lemma_behind(buf, more, 5, 8);
        lemma_behind(buf, more, 13, 4);
        lemma_longer_entries(buf, more, 17, be32(buf, 13) as nat, Map::empty());
    }
}

/// Of two entries for one page and position in a layer's file the later counts.
pub proof fn the_later_entry_counts(
    buf: Seq<u8>,
    at: int,
    seen: VersionsV,
    k: (PageKey, Lsn),
    v: VersionV,
    end: int,
)
    requires
        parse_address(buf, at) == Ok::<(PageKey, Lsn), PageErrorV>(k),
        parse_version(buf, at + 25) == Ok::<(VersionV, int), PageErrorV>((v, end)),
    ensures
        parse_entries(buf, at, 1, seen) matches Ok(m) && m.contains_key(k) && m[k] == v && (forall|
            j: (PageKey, Lsn),
        | j != k ==> (#[trigger] m.contains_key(j) <==> seen.contains_key(j)) && (m.contains_key(j)
            ==> m[j] == seen[j])),
{
    let m = seen.insert(k, v);
    assert(parse_entries(buf, end, 0, m) == Ok::<VersionsV, PageErrorV>(m));
}

} // verus!
