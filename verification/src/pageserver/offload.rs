//! Offload: which frozen layers go to object storage, and under which keys.
//!
//! Frozen layers are immutable, so once written they can live anywhere. A pass
//! takes the [`offload_jobs`] of a repository, stores each under its key, and
//! marks those that were stored as uploaded.

use vstd::prelude::*;

use crate::common::lsn::Lsn;
use crate::common::page::PageKey;
use crate::pageserver::layer::{
    layer_bytes, layer_round_trip, offloadable, parse_layer, Layer, LayerId, LayerV,
};
use crate::pageserver::objstore::{
    file_name, in_progress, is_valid_key, key_of_path, lemma_file_name_ends,
};
use crate::pageserver::page::{version_fits, PageErrorV};
use crate::pageserver::repository::{pending, Repository};
use crate::pageserver::walredo::WalRedoManager;
use crate::text::{
    copy_str, digit_char, hex_fixed, less, less_is_total, push_hex_fixed, starts_with,
};

verus! {

/// Prefix of the keys under which layers are stored.
pub const LAYER_PREFIX: &'static str = "layers/";

/// The key of a layer.
pub open spec fn layer_key_text(id: LayerId) -> Seq<char> {
    "layers/"@ + hex_fixed(id as nat, 16) + ".layer"@
}

/// Build the object key for a layer id.
pub fn layer_key(id: LayerId) -> (r: String)
    ensures
        r@ == layer_key_text(id),
{
    let mut k = copy_str("layers/");
    push_hex_fixed(&mut k, id, 16);
    k.push_str(".layer");
    k
}

/// One layer to store.
pub struct OffloadJob {
    /// The layer.
    pub id: LayerId,
    /// Where it goes.
    pub key: String,
    /// What goes there; nothing where the layer holds raw WAL records, which the
    /// offload format cannot say.
    pub bytes: Option<Vec<u8>>,
}

/// The job is the layer's.
pub open spec fn is_job_of(j: OffloadJob, l: LayerV) -> bool {
    &&& j.id == l.id
    &&& j.key@ == layer_key_text(l.id)
    &&& match j.bytes {
        Some(b) => offloadable(l.entries) && b@ == layer_bytes(l),
        None => !offloadable(l.entries),
    }
}

/// One job for each layer not yet stored, in order.
pub fn offload_jobs<R: WalRedoManager>(repo: &Repository<R>) -> (jobs: Vec<OffloadJob>)
    requires
        repo.wf(),
    ensures
        jobs@.len() == pending(repo@).len(),
        forall|i: int| 0 <= i < jobs@.len() ==> is_job_of(#[trigger] jobs@[i], pending(repo@)[i]),
{
    let layers = repo.pending_offload();
    let ghost lv = pending(repo@);
    let mut jobs: Vec<OffloadJob> = Vec::new();
    let mut i: usize = 0;
    while i < layers.len()
        invariant
            i <= layers@.len(),
            lv == crate::pageserver::repository::layers_view(layers@),
            forall|k: int| 0 <= k < layers@.len() ==> (#[trigger] layers@[k]).wf(),
            jobs@.len() == i,
            forall|k: int| 0 <= k < i ==> is_job_of(#[trigger] jobs@[k], lv[k]),
        decreases layers@.len() - i,
    {
        let layer = &layers[i];
        assert(lv[i as int] == layers@[i as int]@);
        assert(layers@[i as int].wf());
        let id: u64 = layer.id();
        let bytes = if layer.is_offloadable() {
            Some(layer.serialize())
        } else {
            None
        };
        jobs.push(OffloadJob { id, key: layer_key(id), bytes });
        i += 1;
    }
    jobs
}

proof fn lemma_hex_fixed(a: nat, b: nat, width: nat)
    requires
        hex_fixed(a, width) == hex_fixed(b, width),
        a < pow16(width),
        b < pow16(width),
    ensures
        a == b,
    decreases width,
{
    if width > 0 {
        let x = hex_fixed(a / 16, (width - 1) as nat);
        let y = hex_fixed(b / 16, (width - 1) as nat);
        assert(x.push(digit_char(a % 16, false)).drop_last() =~= x);
        assert(y.push(digit_char(b % 16, false)).drop_last() =~= y);
        assert(hex_fixed(a, width).last() == digit_char(a % 16, false));
        assert(hex_fixed(b, width).last() == digit_char(b % 16, false));
        assert(a % 16 == b % 16);
        lemma_hex_fixed(a / 16, b / 16, (width - 1) as nat);
    }
}

/// 16 to the power `n`.
spec fn pow16(n: nat) -> nat
    decreases n,
{
    if n == 0 {
        1
    } else {
        16 * pow16((n - 1) as nat)
    }
}

proof fn lemma_hex_fixed_len(a: nat, width: nat)
    ensures
        hex_fixed(a, width).len() == width,
    decreases width,
{
    if width > 0 {
        lemma_hex_fixed_len(a / 16, (width - 1) as nat);
    }
}

/// Different layers have different keys.
pub proof fn layer_keys_differ(a: LayerId, b: LayerId)
    requires
        layer_key_text(a) == layer_key_text(b),
    ensures
        a == b,
{
    let p = "layers/"@;
    let x = hex_fixed(a as nat, 16);
    let y = hex_fixed(b as nat, 16);
    lemma_hex_fixed_len(a as nat, 16);
    lemma_hex_fixed_len(b as nat, 16);
    let n = p.len() as int;
    assert(layer_key_text(a).subrange(n, n + 16) =~= x);
    assert(layer_key_text(b).subrange(n, n + 16) =~= y);
    reveal_with_fuel(pow16, 17);
    lemma_hex_fixed(a as nat, b as nat, 16);
}

/// Two texts that go on from heads of one length are in order as the heads are, or,
/// where the heads are the same, as what follows is.
proof fn lemma_less_heads(a: Seq<char>, b: Seq<char>, c: Seq<char>, d: Seq<char>)
    requires
        a.len() == b.len(),
    ensures
        less(a + c, b + d) == if a == b {
            less(c, d)
        } else {
            less(a, b)
        },
    decreases a.len(),
{
    if a.len() == 0 {
        assert(a =~= b);
        assert(a + c =~= c);
        assert(b + d =~= d);
    } else if a[0] == b[0] {
        lemma_less_heads(a.skip(1), b.skip(1), c, d);
        assert((a + c).skip(1) =~= a.skip(1) + c);
        assert((b + d).skip(1) =~= b.skip(1) + d);
        if a.skip(1) == b.skip(1) {
            assert forall|i: int| 0 <= i < a.len() implies a[i] == b[i] by {
                if i > 0 {
                    assert(a.skip(1)[i - 1] == b.skip(1)[i - 1]);
                }
            }
            assert(a =~= b);
        }
    }
}

proof fn lemma_hex_fixed_ascends(a: nat, b: nat, width: nat)
    requires
        a < b < pow16(width),
    ensures
        less(hex_fixed(a, width), hex_fixed(b, width)),
    decreases width,
{
    let x = hex_fixed(a / 16, (width - 1) as nat);
    let y = hex_fixed(b / 16, (width - 1) as nat);
    let c = seq![digit_char(a % 16, false)];
    let d = seq![digit_char(b % 16, false)];
    lemma_hex_fixed_len(a / 16, (width - 1) as nat);
    lemma_hex_fixed_len(b / 16, (width - 1) as nat);
    assert(hex_fixed(a, width) =~= x + c);
    assert(hex_fixed(b, width) =~= y + d);
    lemma_less_heads(x, y, c, d);
    if a / 16 == b / 16 {
        assert(less(c, d));
    } else {
        lemma_hex_fixed_ascends(a / 16, b / 16, (width - 1) as nat);
        if x == y {
            lemma_hex_fixed(a / 16, b / 16, (width - 1) as nat);
        }
    }
}

/// The keys of layers are in the order of the layers' ids, and so of age.
pub proof fn layer_keys_ascend(a: LayerId, b: LayerId)
    ensures
        a < b <==> less(layer_key_text(a), layer_key_text(b)),
{
    if a < b {
        lemma_keys_ascend(a, b);
    } else {
        if b < a {
            lemma_keys_ascend(b, a);
        }
        less_is_total(layer_key_text(a), layer_key_text(b));
    }
}

proof fn lemma_keys_ascend(a: LayerId, b: LayerId)
    requires
        a < b,
    ensures
        less(layer_key_text(a), layer_key_text(b)),
{
    let p = "layers/"@;
    let t = ".layer"@;
    let x = hex_fixed(a as nat, 16);
    let y = hex_fixed(b as nat, 16);
    lemma_hex_fixed_len(a as nat, 16);
    lemma_hex_fixed_len(b as nat, 16);
    reveal_with_fuel(pow16, 17);
    lemma_hex_fixed_ascends(a as nat, b as nat, 16);
    lemma_less_heads(p, p, x + t, y + t);
    lemma_less_heads(x, y, t, t);
    if x == y {
        lemma_hex_fixed(a as nat, b as nat, 16);
    }
    assert(layer_key_text(a) =~= p + (x + t));
    assert(layer_key_text(b) =~= p + (y + t));
}

/// What is stored of a layer, read back, is the layer.
pub proof fn stored_layers_are_read_back(j: OffloadJob, layer: Layer)
    requires
        is_job_of(j, layer@),
        layer.wf(),
        layer@.entries.dom().len() < 0x1_0000_0000,
        forall|k: (PageKey, Lsn)| #[trigger]
            layer@.entries.contains_key(k) ==> version_fits(layer@.entries[k]),
    ensures
        j.id == layer@.id,
        j.bytes matches Some(b) && parse_layer(b@) == Ok::<LayerV, PageErrorV>(layer@),
{
    layer_round_trip(layer);
}

/// A layer with a raw WAL record in it is not stored.
pub proof fn raw_records_are_not_stored(j: OffloadJob, l: LayerV, k: (PageKey, Lsn))
    requires
        is_job_of(j, l),
        l.entries.contains_key(k),
        l.entries[k] is WalRecord,
    ensures
        j.bytes is None,
{
}

/// The key of a layer stays below the store's root, is not that of a file being written,
/// and is the same however the path to the file is separated: so the layer is listed under
/// the key under which it was stored.
pub proof fn layers_are_listed_under_their_keys(id: LayerId)
    ensures
        is_valid_key(layer_key_text(id)),
        !in_progress(layer_key_text(id)),
        key_of_path(layer_key_text(id)) == layer_key_text(id),
        starts_with(layer_key_text(id), LAYER_PREFIX@),
{
    let k = layer_key_text(id);
    let h = hex_fixed(id as nat, 16);
    reveal_strlit("layers/");
    reveal_strlit(".layer");
    reveal_strlit(".tmp");
    lemma_hex_chars(id as nat, 16);
    let n = h.len() as int;
    assert(k.len() == 7 + n + 6);
    assert forall|i: int| 0 <= i < k.len() && k[i] == '.' implies i == 7 + n by {
        if i < 7 {
            assert(k[i] == "layers/"@[i]);
        } else if i < 7 + n {
            assert(k[i] == h[i - 7]);
        } else {
            assert(k[i] == ".layer"@[i - 7 - n]);
        }
    }
    assert forall|i: int| 0 <= i < k.len() implies k[i] != '\\' by {
        if i < 7 {
            assert(k[i] == "layers/"@[i]);
        } else if i < 7 + n {
            assert(k[i] == h[i - 7]);
        } else {
            assert(k[i] == ".layer"@[i - 7 - n]);
        }
    }
    assert(k[0] == "layers/"@[0]);
    assert(key_of_path(k) =~= k);
    assert(k.take(7) =~= "layers/"@);
    let name = file_name(k);
    lemma_file_name_ends(k);
    assert(k.last() == ".layer"@[5]);
    if in_progress(k) {
        let t = name.skip(name.len() - 4);
        assert(t[3] == 'p');
        assert(t[3] == name[name.len() - 1]);
    }
}

proof fn lemma_hex_chars(n: nat, width: nat)
    ensures
        forall|i: int|
            0 <= i < hex_fixed(n, width).len() ==> (#[trigger] hex_fixed(n, width)[i]) != '.'
                && hex_fixed(n, width)[i] != '\\',
    decreases width,
{
    if width > 0 {
        let front = hex_fixed(n / 16, (width - 1) as nat);
        let all = hex_fixed(n, width);
        lemma_hex_chars(n / 16, (width - 1) as nat);
        assert forall|i: int| 0 <= i < all.len() implies (#[trigger] all[i]) != '.' && all[i]
            != '\\' by {
            if i < front.len() {
                assert(all[i] == front[i]);
            } else {
                assert(all[i] == digit_char(n % 16, false));
            }
        }
    }
}

} // verus!
