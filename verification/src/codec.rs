//! Snapshot format for a usage dataset.
//!
//! A snapshot is a byte string: the histogram precision, the aggregate
//! series, one bucket-count table per entity identifier, and the presence
//! index, with every integer written as eight little-endian bytes and
//! every string as its length followed by its UTF-8 bytes.  The format
//! round-trips exactly: a snapshot determines the dataset, bucket
//! contents included, so every percentile query answers identically after
//! reloading.

use vstd::prelude::*;
use vstd::arithmetic::div_mod::{
    lemma_fundamental_div_mod, lemma_div_multiples_vanish_fancy, lemma_mod_multiples_vanish,
    lemma_small_mod, lemma_multiply_divide_lt,
};
use vstd::slice::{slice_subrange, slice_to_vec};
use vstd::string::StrSliceExecFns;
use vstd::utf8::{encode_utf8, valid_utf8, encode_utf8_decode_utf8};
use crate::histogram::{Histogram, HistogramView};
use crate::dataset::{
    ContainerId, ContainerIdView, ControllerType, MemoryInfo, MemoryInfoView, MetricValue,
    presence_entry_view, wf_mem,
};

verus! {

/// 256 to the power `n`.
pub open spec fn pow256(n: int) -> int
    decreases n,
{
    if n <= 0 {
        1
    } else {
        256 * pow256(n - 1)
    }
}

/// The `n` little-endian base-256 digits of `v`.
pub open spec fn le_bytes(v: int, n: int) -> Seq<u8>
    decreases n,
{
    if n <= 0 {
        Seq::empty()
    } else {
        seq![(v % 256) as u8] + le_bytes(v / 256, n - 1)
    }
}

/// The value of a little-endian base-256 digit string.
pub open spec fn le_val(s: Seq<u8>) -> int
    decreases s.len(),
{
    if s.len() == 0 {
        0
    } else {
        s[0] + 256 * le_val(s.drop_first())
    }
}

/// An integer as eight little-endian bytes.
pub open spec fn enc_u64(v: u64) -> Seq<u8> {
    le_bytes(v as int, 8)
}

/// A string as its UTF-8 length and bytes.
pub open spec fn enc_str(s: Seq<char>) -> Seq<u8> {
    enc_u64(encode_utf8(s).len() as u64) + encode_utf8(s)
}

/// One byte for each controller kind.
pub open spec fn tag_of(t: ControllerType) -> u8 {
    match t {
        ControllerType::Deployment => 0,
        ControllerType::DaemonSet => 1,
        ControllerType::StatefulSet => 2,
        ControllerType::Other => 3,
    }
}

/// An identifier: controller kind, then its three name parts.
pub open spec fn enc_id(id: ContainerIdView) -> Seq<u8> {
    seq![tag_of(id.controller_type)] + enc_str(id.namespace) + enc_str(id.controller_id)
        + enc_str(id.container)
}

/// The bucket counts from position `i` on.
pub open spec fn enc_counts_from(c: Seq<u64>, i: int) -> Seq<u8>
    decreases c.len() - i,
{
    if i < 0 || i >= c.len() {
        Seq::empty()
    } else {
        enc_u64(c[i]) + enc_counts_from(c, i + 1)
    }
}

/// A histogram: its bucket count and the counts themselves.
pub open spec fn enc_hist(h: HistogramView) -> Seq<u8> {
    enc_u64(h.counts.len() as u64) + enc_counts_from(h.counts, 0)
}

/// The aggregate samples from position `i` on.
pub open spec fn enc_metrics_from(s: Seq<MetricValue>, i: int) -> Seq<u8>
    decreases s.len() - i,
{
    if i < 0 || i >= s.len() {
        Seq::empty()
    } else {
        enc_u64(s[i].timestamp) + enc_u64(s[i].value) + enc_metrics_from(s, i + 1)
    }
}

/// The entity entries from position `i` on.
pub open spec fn enc_containers_from(cs: Seq<(ContainerIdView, HistogramView)>, i: int) -> Seq<u8>
    decreases cs.len() - i,
{
    if i < 0 || i >= cs.len() {
        Seq::empty()
    } else {
        enc_id(cs[i].0) + enc_hist(cs[i].1) + enc_containers_from(cs, i + 1)
    }
}

/// The identifiers of one presence entry from position `i` on.
pub open spec fn enc_ids_from(ids: Seq<ContainerIdView>, i: int) -> Seq<u8>
    decreases ids.len() - i,
{
    if i < 0 || i >= ids.len() {
        Seq::empty()
    } else {
        enc_id(ids[i]) + enc_ids_from(ids, i + 1)
    }
}

/// The presence entries from position `i` on: each a timestamp, a count
/// and the listed identifiers.
pub open spec fn enc_presence_from(ps: Seq<(u64, Seq<ContainerIdView>)>, i: int) -> Seq<u8>
    decreases ps.len() - i,
{
    if i < 0 || i >= ps.len() {
        Seq::empty()
    } else {
        enc_u64(ps[i].0) + enc_u64(ps[i].1.len() as u64) + enc_ids_from(ps[i].1, 0)
            + enc_presence_from(ps, i + 1)
    }
}

/// The whole snapshot.
pub open spec fn spec_encode_dataset(d: MemoryInfoView) -> Seq<u8> {
    seq![d.sig_digits as u8] + (enc_u64(d.global.len() as u64) + (enc_metrics_from(d.global, 0)
        + (enc_u64(d.containers.len() as u64) + (enc_containers_from(d.containers, 0) + (enc_u64(
        d.presence.len() as u64,
    ) + enc_presence_from(d.presence, 0))))))
}

/// Why a snapshot was refused.
#[derive(Clone, Copy, Debug, PartialEq, Eq, Structural)]
pub enum SnapshotError {
    /// The bytes are not a snapshot this format produces.
    Malformed,
}

// ---------------------------------------------------------------------
// Little-endian groundwork
// ---------------------------------------------------------------------

proof fn lemma_pow256_units()
    ensures
        pow256(7) == 0x100_0000_0000_0000,
        pow256(8) == 0x1_0000_0000_0000_0000,
{
    assert(pow256(0) == 1);
    assert(pow256(1) == 256);
    assert(pow256(2) == 0x1_0000);
    assert(pow256(3) == 0x100_0000);
    assert(pow256(4) == 0x1_0000_0000);
    assert(pow256(5) == 0x100_0000_0000);
    assert(pow256(6) == 0x1_0000_0000_0000);
    assert(pow256(7) == 0x100_0000_0000_0000);
    assert(pow256(8) == 0x1_0000_0000_0000_0000);
}

proof fn lemma_le_bytes_len(v: int, n: int)
    requires
        n >= 0,
    ensures
        le_bytes(v, n).len() == n,
    decreases n,
{
    if n > 0 {
        lemma_le_bytes_len(v / 256, n - 1);
    }
}

proof fn lemma_le_val_bound(s: Seq<u8>)
    ensures
        0 <= le_val(s) < pow256(s.len() as int),
    decreases s.len(),
{
    if s.len() > 0 {
        lemma_le_val_bound(s.drop_first());
    }
}

/// Writing a value and reading it back is the identity.
proof fn lemma_le_round(v: int, n: int)
    requires
        n >= 0,
        0 <= v < pow256(n),
    ensures
        le_val(le_bytes(v, n)) == v,
    decreases n,
{
    if n == 0 {
    } else {
        lemma_multiply_divide_lt(v, 256, pow256(n - 1));
        lemma_le_round(v / 256, n - 1);
        let tail = le_bytes(v / 256, n - 1);
        assert((seq![(v % 256) as u8] + tail).drop_first() =~= tail);
        lemma_fundamental_div_mod(v, 256);
    }
}

/// Reading bytes and writing the value back is the identity.
proof fn lemma_le_bytes_of_val(s: Seq<u8>)
    ensures
        le_bytes(le_val(s), s.len() as int) == s,
    decreases s.len(),
{
    if s.len() > 0 {
        let t = le_val(s.drop_first());
        lemma_le_val_bound(s.drop_first());
        assert((256 * t + s[0]) % 256 == (s[0] as int) % 256) by {
            lemma_mod_multiples_vanish(t, s[0] as int, 256);
        }
        lemma_small_mod(s[0] as nat, 256);
        assert((256 * t + s[0]) / 256 == t) by {
            lemma_div_multiples_vanish_fancy(t, s[0] as int, 256);
        }
        lemma_le_bytes_of_val(s.drop_first());
        assert(le_bytes(le_val(s), s.len() as int) =~= s);
    } else {
        assert(le_bytes(le_val(s), 0) =~= s);
    }
}

// ---------------------------------------------------------------------
// Writers
// ---------------------------------------------------------------------

#[verifier::loop_isolation(false)]
fn write_u64(out: &mut Vec<u8>, v: u64)
    ensures
        final(out)@ == old(out)@ + enc_u64(v),
{
    let mut w = v;
    let mut i: usize = 0;
    while i < 8
        invariant
            i <= 8,
            out@ + le_bytes(w as int, 8 - i) == old(out)@ + le_bytes(v as int, 8),
        decreases 8 - i,
    {
        let ghost pre = out@;
        let ghost wpre = w as int;
        out.push((w % 256) as u8);
        w = w / 256;
        i = i + 1;
        proof {
            assert(le_bytes(wpre, (8 - (i - 1)) as int)
                == seq![(wpre % 256) as u8] + le_bytes(wpre / 256, (8 - i) as int));
            assert(out@ + le_bytes(w as int, (8 - i) as int) =~= pre + le_bytes(
                wpre,
                (8 - (i - 1)) as int,
            ));
        }
    }
    proof {
        assert(le_bytes(w as int, 0) =~= Seq::<u8>::empty());
        assert(out@ =~= out@ + le_bytes(w as int, 0));
    }
}

#[verifier::loop_isolation(false)]
fn write_str(out: &mut Vec<u8>, s: &String)
    ensures
        final(out)@ == old(out)@ + enc_str(s@),
{
    let mut bytes = s.as_str().as_bytes_vec();
    write_u64(out, bytes.len() as u64);
    out.append(&mut bytes);
    proof {
        assert(out@ =~= old(out)@ + enc_str(s@));
    }
}

#[verifier::loop_isolation(false)]
fn write_id(out: &mut Vec<u8>, id: &ContainerId)
    ensures
        final(out)@ == old(out)@ + enc_id(id@),
{
    let tag: u8 = match id.controller_type {
        ControllerType::Deployment => 0,
        ControllerType::DaemonSet => 1,
        ControllerType::StatefulSet => 2,
        ControllerType::Other => 3,
    };
    out.push(tag);
    write_str(out, &id.namespace);
    write_str(out, &id.controller_id);
    write_str(out, &id.container);
    proof {
        assert(out@ =~= old(out)@ + enc_id(id@));
    }
}

#[verifier::loop_isolation(false)]
fn write_hist(out: &mut Vec<u8>, h: &Histogram)
    requires
        h.well_formed(),
    ensures
        final(out)@ == old(out)@ + enc_hist(h@),
{
    let counts = h.bucket_counts();
    let n = counts.len();
    write_u64(out, n as u64);
    let mut i: usize = 0;
    while i < n
        invariant
            n == counts@.len(),
            counts@ == h@.counts,
            i <= n,
            out@ + enc_counts_from(h@.counts, i as int) == old(out)@ + enc_hist(h@),
        decreases n - i,
    {
        let ghost pre = out@;
        write_u64(out, counts[i]);
        i = i + 1;
        proof {
            assert(enc_counts_from(h@.counts, (i - 1) as int)
                == enc_u64(h@.counts[i - 1]) + enc_counts_from(h@.counts, i as int));
            assert(out@ + enc_counts_from(h@.counts, i as int) =~= pre + enc_counts_from(
                h@.counts,
                (i - 1) as int,
            ));
        }
    }
    proof {
        assert(enc_counts_from(h@.counts, n as int) =~= Seq::<u8>::empty());
        assert(out@ =~= out@ + enc_counts_from(h@.counts, n as int));
    }
}

/// Serializes a dataset into its snapshot bytes.
#[verifier::loop_isolation(false)]
#[verifier::rlimit(100)]
pub fn encode_dataset(data: &MemoryInfo) -> (r: Vec<u8>)
    requires
        data.well_formed(),
    ensures
        r@ == spec_encode_dataset(data@),
{
    let ghost d = data@;
    let mut out: Vec<u8> = Vec::new();
    out.push(data.precision_digits());
    let ghost part0 = seq![d.sig_digits as u8];
    proof {
        assert(out@ =~= part0);
    }

    let g = data.global_series();
    let gn = g.len();
    write_u64(&mut out, gn as u64);
    let ghost part1 = part0 + enc_u64(d.global.len() as u64);
    let mut i: usize = 0;
    while i < gn
        invariant
            gn == d.global.len(),
            g@ == d.global,
            i <= gn,
            out@ + enc_metrics_from(d.global, i as int) == part1 + enc_metrics_from(d.global, 0),
        decreases gn - i,
    {
        let ghost pre = out@;
        write_u64(&mut out, g[i].timestamp);
        write_u64(&mut out, g[i].value);
        i = i + 1;
        proof {
            assert(enc_metrics_from(d.global, (i - 1) as int) == enc_u64(
                d.global[i - 1].timestamp,
            ) + enc_u64(d.global[i - 1].value) + enc_metrics_from(d.global, i as int));
            assert(out@ + enc_metrics_from(d.global, i as int) =~= pre + enc_metrics_from(
                d.global,
                (i - 1) as int,
            ));
        }
    }
    let ghost part2 = part1 + enc_metrics_from(d.global, 0);
    proof {
        assert(enc_metrics_from(d.global, gn as int) =~= Seq::<u8>::empty());
        assert(out@ =~= part2);
    }

    let cn = data.container_count();
    write_u64(&mut out, cn as u64);
    let ghost part3 = part2 + enc_u64(d.containers.len() as u64);
    let mut i: usize = 0;
    while i < cn
        invariant
            cn == d.containers.len(),
            i <= cn,
            out@ + enc_containers_from(d.containers, i as int) == part3 + enc_containers_from(
                d.containers,
                0,
            ),
        decreases cn - i,
    {
        let ghost pre = out@;
        let pair = data.container_at(i);
        write_id(&mut out, &pair.0);
        write_hist(&mut out, &pair.1);
        i = i + 1;
        proof {
            assert(enc_containers_from(d.containers, (i - 1) as int) == enc_id(
                d.containers[i - 1].0,
            ) + enc_hist(d.containers[i - 1].1) + enc_containers_from(d.containers, i as int));
            assert(out@ + enc_containers_from(d.containers, i as int) =~= pre
                + enc_containers_from(d.containers, (i - 1) as int));
        }
    }
    let ghost part4 = part3 + enc_containers_from(d.containers, 0);
    proof {
        assert(enc_containers_from(d.containers, cn as int) =~= Seq::<u8>::empty());
        assert(out@ =~= part4);
    }

    let pn = data.presence_count();
    write_u64(&mut out, pn as u64);
    let ghost part5 = part4 + enc_u64(d.presence.len() as u64);
    let mut i: usize = 0;
    while i < pn
        invariant
            pn == d.presence.len(),
            i <= pn,
            out@ + enc_presence_from(d.presence, i as int) == part5 + enc_presence_from(
                d.presence,
                0,
            ),
        decreases pn - i,
    {
        let ghost pre = out@;
        let entry = data.presence_at(i);
        write_u64(&mut out, entry.0);
        let ids = &entry.1;
        let m = ids.len();
        write_u64(&mut out, m as u64);
        let ghost idsv = d.presence[i as int].1;
        let mut l: usize = 0;
        while l < m
            invariant
                m == ids@.len(),
                m == idsv.len(),
                forall|x: int| 0 <= x < m ==> (#[trigger] ids@[x])@ == idsv[x],
                l <= m,
                out@ + enc_ids_from(idsv, l as int) == pre + enc_u64(d.presence[i as int].0)
                    + enc_u64(idsv.len() as u64) + enc_ids_from(idsv, 0),
            decreases m - l,
        {
            let ghost pre2 = out@;
            write_id(&mut out, &ids[l]);
            l = l + 1;
            proof {
                assert(enc_ids_from(idsv, (l - 1) as int) == enc_id(idsv[l - 1]) + enc_ids_from(
                    idsv,
                    l as int,
                ));
                assert(out@ + enc_ids_from(idsv, l as int) =~= pre2 + enc_ids_from(
                    idsv,
                    (l - 1) as int,
                ));
            }
        }
        i = i + 1;
        proof {
            assert(enc_ids_from(idsv, m as int) =~= Seq::<u8>::empty());
            assert(enc_presence_from(d.presence, (i - 1) as int) == enc_u64(
                d.presence[i - 1].0,
            ) + enc_u64(d.presence[i - 1].1.len() as u64) + enc_ids_from(d.presence[i - 1].1, 0)
                + enc_presence_from(d.presence, i as int));
            assert(out@ + enc_presence_from(d.presence, i as int) =~= pre + enc_presence_from(
                d.presence,
                (i - 1) as int,
            ));
        }
    }
    proof {
        assert(enc_presence_from(d.presence, pn as int) =~= Seq::<u8>::empty());
        assert(out@ =~= part5 + enc_presence_from(d.presence, 0));
        assert(out@ =~= spec_encode_dataset(d));
    }
    out
}

// ---------------------------------------------------------------------
// Readers
// ---------------------------------------------------------------------

proof fn lemma_pow256_pos(n: int)
    ensures
        pow256(n) >= 1,
    decreases n,
{
    if n > 0 {
        lemma_pow256_pos(n - 1);
    }
}

proof fn lemma_pow256_le(a: int, b: int)
    requires
        0 <= a <= b,
    ensures
        pow256(a) <= pow256(b),
    decreases b,
{
    lemma_pow256_pos(a);
    if a < b {
        lemma_pow256_le(a, b - 1);
        lemma_pow256_pos(b - 1);
    }
}

/// Appending a count extends its encoding at the end.
proof fn lemma_enc_counts_push(c: Seq<u64>, x: u64, i: int)
    requires
        0 <= i <= c.len(),
    ensures
        enc_counts_from(c.push(x), i) == enc_counts_from(c, i) + enc_u64(x),
    decreases c.len() - i,
{
    if i == c.len() {
        assert(enc_counts_from(c.push(x), i + 1) =~= Seq::<u8>::empty());
        assert(enc_counts_from(c.push(x), i) =~= enc_counts_from(c, i) + enc_u64(x));
    } else {
        lemma_enc_counts_push(c, x, i + 1);
        assert(c.push(x)[i] == c[i]);
        assert(enc_counts_from(c.push(x), i) =~= enc_counts_from(c, i) + enc_u64(x));
    }
}

/// Appending a sample extends its encoding at the end.
proof fn lemma_enc_metrics_push(s: Seq<MetricValue>, x: MetricValue, i: int)
    requires
        0 <= i <= s.len(),
    ensures
        enc_metrics_from(s.push(x), i) == enc_metrics_from(s, i) + enc_u64(x.timestamp) + enc_u64(
            x.value,
        ),
    decreases s.len() - i,
{
    if i == s.len() {
        assert(enc_metrics_from(s.push(x), i + 1) =~= Seq::<u8>::empty());
        assert(enc_metrics_from(s.push(x), i) =~= enc_metrics_from(s, i) + enc_u64(x.timestamp)
            + enc_u64(x.value));
    } else {
        lemma_enc_metrics_push(s, x, i + 1);
        assert(s.push(x)[i] == s[i]);
        assert(enc_metrics_from(s.push(x), i) =~= enc_metrics_from(s, i) + enc_u64(x.timestamp)
            + enc_u64(x.value));
    }
}

/// Appending an identifier extends its encoding at the end.
proof fn lemma_enc_ids_push(ids: Seq<ContainerIdView>, x: ContainerIdView, i: int)
    requires
        0 <= i <= ids.len(),
    ensures
        enc_ids_from(ids.push(x), i) == enc_ids_from(ids, i) + enc_id(x),
    decreases ids.len() - i,
{
    if i == ids.len() {
        assert(enc_ids_from(ids.push(x), i + 1) =~= Seq::<u8>::empty());
        assert(enc_ids_from(ids.push(x), i) =~= enc_ids_from(ids, i) + enc_id(x));
    } else {
        lemma_enc_ids_push(ids, x, i + 1);
        assert(ids.push(x)[i] == ids[i]);
        assert(enc_ids_from(ids.push(x), i) =~= enc_ids_from(ids, i) + enc_id(x));
    }
}

/// Appending an entity entry extends its encoding at the end.
proof fn lemma_enc_containers_push(
    cs: Seq<(ContainerIdView, HistogramView)>,
    x: (ContainerIdView, HistogramView),
    i: int,
)
    requires
        0 <= i <= cs.len(),
    ensures
        enc_containers_from(cs.push(x), i) == enc_containers_from(cs, i) + enc_id(x.0) + enc_hist(
            x.1,
        ),
    decreases cs.len() - i,
{
    if i == cs.len() {
        assert(enc_containers_from(cs.push(x), i + 1) =~= Seq::<u8>::empty());
        assert(enc_containers_from(cs.push(x), i) =~= enc_containers_from(cs, i) + enc_id(x.0)
            + enc_hist(x.1));
    } else {
        lemma_enc_containers_push(cs, x, i + 1);
        assert(cs.push(x)[i] == cs[i]);
        assert(enc_containers_from(cs.push(x), i) =~= enc_containers_from(cs, i) + enc_id(x.0)
            + enc_hist(x.1));
    }
}

/// Appending a presence entry extends its encoding at the end.
proof fn lemma_enc_presence_push(
    ps: Seq<(u64, Seq<ContainerIdView>)>,
    x: (u64, Seq<ContainerIdView>),
    i: int,
)
    requires
        0 <= i <= ps.len(),
    ensures
        enc_presence_from(ps.push(x), i) == enc_presence_from(ps, i) + enc_u64(x.0) + enc_u64(
            x.1.len() as u64,
        ) + enc_ids_from(x.1, 0),
    decreases ps.len() - i,
{
    if i == ps.len() {
        assert(enc_presence_from(ps.push(x), i + 1) =~= Seq::<u8>::empty());
        assert(enc_presence_from(ps.push(x), i) =~= enc_presence_from(ps, i) + enc_u64(x.0)
            + enc_u64(x.1.len() as u64) + enc_ids_from(x.1, 0));
    } else {
        lemma_enc_presence_push(ps, x, i + 1);
        assert(ps.push(x)[i] == ps[i]);
        assert(enc_presence_from(ps.push(x), i) =~= enc_presence_from(ps, i) + enc_u64(x.0)
            + enc_u64(x.1.len() as u64) + enc_ids_from(x.1, 0));
    }
}

/// Relies on String::from_utf8: it returns the string whose UTF-8
/// encoding is exactly the given bytes, and accepts every valid UTF-8
/// byte string.
#[verifier::external_body]
fn string_from_utf8(bytes: Vec<u8>) -> (r: Option<String>)
    ensures
        r matches Some(s) ==> encode_utf8(s@) == bytes@,
        valid_utf8(bytes@) ==> r is Some,
{
    String::from_utf8(bytes).ok()
}

/// A suffix splits into what was consumed and the rest.
proof fn lemma_split_at(buf: Seq<u8>, pos: int, mid: int)
    requires
        0 <= pos <= mid <= buf.len(),
    ensures
        buf.subrange(pos, buf.len() as int) == buf.subrange(pos, mid) + buf.subrange(
            mid,
            buf.len() as int,
        ),
{
    assert(buf.subrange(pos, buf.len() as int) =~= buf.subrange(pos, mid) + buf.subrange(
        mid,
        buf.len() as int,
    ));
}

/// An identifier with a machine-representable encoding has
/// machine-representable name parts.
proof fn lemma_enc_id_bounded(idv: ContainerIdView)
    requires
        enc_id(idv).len() < pow256(8),
    ensures
        bounded_id(idv),
{
    lemma_le_bytes_len((encode_utf8(idv.namespace).len() as u64) as int, 8);
    lemma_le_bytes_len((encode_utf8(idv.controller_id).len() as u64) as int, 8);
    lemma_le_bytes_len((encode_utf8(idv.container).len() as u64) as int, 8);
}

/// A structurally valid histogram's bucket table is machine-representable.
proof fn lemma_wf_counts_bound(h: HistogramView)
    requires
        crate::histogram::wf_hist(h),
    ensures
        h.counts.len() < pow256(8),
{
    crate::histogram::lemma_pow10_bounds(h.sig_digits);
    lemma_pow256_units();
}

#[verifier::loop_isolation(false)]
fn read_u64(buf: &Vec<u8>, pos: usize) -> (r: Option<(u64, usize)>)
    ensures
        r matches Some(t) ==> t.1 == pos + 8 && t.1 <= buf@.len() && buf@.subrange(
            pos as int,
            t.1 as int,
        ) == enc_u64(t.0),
        pos + 8 <= buf@.len() ==> r is Some,
{
    if buf.len() < 8 || pos > buf.len() - 8 {
        return None;
    }
    proof {
        lemma_pow256_units();
    }
    let mut v: u64 = 0;
    let mut i: usize = 8;
    while i > 0
        invariant
            pos + 8 <= buf@.len(),
            i <= 8,
            v as int == le_val(buf@.subrange(pos + i, pos + 8)),
        decreases i,
    {
        proof {
            lemma_le_val_bound(buf@.subrange(pos + i, pos + 8));
            lemma_pow256_le((8 - i) as int, 7);
        }
        i = i - 1;
        let b = buf[pos + i];
        proof {
            assert(buf@.subrange(pos + i, pos + 8) =~= seq![buf@[pos + i]] + buf@.subrange(
                pos + i + 1,
                pos + 8,
            ));
            assert(buf@.subrange(pos + i, pos + 8).drop_first() =~= buf@.subrange(
                pos + i + 1,
                pos + 8,
            ));
        }
        v = v * 256 + (b as u64);
    }
    proof {
        lemma_le_bytes_of_val(buf@.subrange(pos as int, pos + 8));
    }
    Some((v, pos + 8))
}

#[verifier::loop_isolation(false)]
#[verifier::rlimit(100)]
fn read_str(buf: &Vec<u8>, pos: usize) -> (r: Option<(String, usize)>)
    requires
        pos <= buf@.len(),
    ensures
        r matches Some(t) ==> pos <= t.1 <= buf@.len() && buf@.subrange(pos as int, t.1 as int)
            == enc_str(t.0@),
        (exists|s0: Seq<char>, rest: Seq<u8>| encode_utf8(s0).len() < pow256(8) && buf@.subrange(
            pos as int,
            buf@.len() as int,
        ) == enc_str(s0) + rest) ==> r is Some,
{
    let ghost blen = buf@.len() as int;
    let ghost has = exists|s0: Seq<char>, rest: Seq<u8>| encode_utf8(s0).len() < pow256(8)
        && buf@.subrange(pos as int, blen) == enc_str(s0) + rest;
    let ghost (s0, rest0) = choose|s0: Seq<char>, rest: Seq<u8>| encode_utf8(s0).len() < pow256(8)
        && buf@.subrange(pos as int, blen) == enc_str(s0) + rest;
    proof {
        lemma_pow256_units();
        if has {
            lemma_le_bytes_len((encode_utf8(s0).len() as u64) as int, 8);
            assert(buf@.subrange(pos as int, blen).len() == blen - pos);
            assert(pos + 8 <= blen);
        }
    }
    let (m, p1) = match read_u64(buf, pos) {
        Some(t) => t,
        None => {
            proof {
                if has {
                    assert(false);
                }
            }
            return None;
        },
    };
    proof {
        if has {
            assert(enc_str(s0) + rest0 =~= enc_u64(encode_utf8(s0).len() as u64) + (encode_utf8(
                s0,
            ) + rest0));
            lemma_split_at(buf@, pos as int, p1 as int);
            lemma_enc_u64_prefix(
                m,
                encode_utf8(s0).len() as u64,
                buf@.subrange(p1 as int, blen),
                encode_utf8(s0) + rest0,
            );
            assert(m == encode_utf8(s0).len());
        }
    }
    if m > (buf.len() - p1) as u64 {
        proof {
            if has {
                assert(buf@.subrange(p1 as int, blen).len() == blen - p1);
                assert(false);
            }
        }
        return None;
    }
    let mlen = m as usize;
    let bytes = slice_to_vec(slice_subrange(buf.as_slice(), p1, p1 + mlen));
    proof {
        if has {
            lemma_split_at(buf@, p1 as int, p1 + mlen);
            lemma_concat_split(
                buf@.subrange(p1 as int, (p1 + mlen) as int),
                buf@.subrange((p1 + mlen) as int, blen),
                encode_utf8(s0),
                rest0,
            );
            vstd::utf8::encode_utf8_valid_utf8(s0);
            assert(valid_utf8(bytes@));
        }
    }
    match string_from_utf8(bytes) {
        Some(s) => {
            proof {
                assert(encode_utf8(s@) == buf@.subrange(p1 as int, (p1 + mlen) as int));
                assert(encode_utf8(s@).len() == m);
                assert(buf@.subrange(pos as int, (p1 + mlen) as int) =~= buf@.subrange(
                    pos as int,
                    p1 as int,
                ) + buf@.subrange(p1 as int, (p1 + mlen) as int));
            }
            Some((s, p1 + mlen))
        },
        None => {
            proof {
                if has {
                    assert(false);
                }
            }
            None
        },
    }
}

#[verifier::loop_isolation(false)]
#[verifier::rlimit(100)]
fn read_id(buf: &Vec<u8>, pos: usize) -> (r: Option<(ContainerId, usize)>)
    requires
        pos <= buf@.len(),
    ensures
        r matches Some(t) ==> pos <= t.1 <= buf@.len() && buf@.subrange(pos as int, t.1 as int)
            == enc_id(t.0@),
        (exists|idv: ContainerIdView, rest: Seq<u8>| bounded_id(idv) && buf@.subrange(
            pos as int,
            buf@.len() as int,
        ) == enc_id(idv) + rest) ==> r is Some,
{
    let ghost blen = buf@.len() as int;
    let ghost has = exists|idv: ContainerIdView, rest: Seq<u8>| bounded_id(idv) && buf@.subrange(
        pos as int,
        blen,
    ) == enc_id(idv) + rest;
    let ghost (idv0, rest0) = choose|idv: ContainerIdView, rest: Seq<u8>| bounded_id(idv)
        && buf@.subrange(pos as int, blen) == enc_id(idv) + rest;
    let ghost rest_ns = enc_str(idv0.controller_id) + (enc_str(idv0.container) + rest0);
    proof {
        lemma_pow256_units();
        if has {
            assert(enc_id(idv0) + rest0 =~= seq![tag_of(idv0.controller_type)] + (enc_str(
                idv0.namespace,
            ) + rest_ns));
            assert(buf@.subrange(pos as int, blen).len() == blen - pos);
            assert((seq![tag_of(idv0.controller_type)] + (enc_str(idv0.namespace) + rest_ns))[0]
                == tag_of(idv0.controller_type));
            assert(buf@.subrange(pos as int, blen)[0] == buf@[pos as int]);
            assert(buf@[pos as int] == tag_of(idv0.controller_type));
        }
    }
    if pos >= buf.len() {
        proof {
            if has {
                assert(false);
            }
        }
        return None;
    }
    let tag = buf[pos];
    let controller_type = match tag {
        0u8 => ControllerType::Deployment,
        1u8 => ControllerType::DaemonSet,
        2u8 => ControllerType::StatefulSet,
        3u8 => ControllerType::Other,
        _ => {
            proof {
                if has {
                    assert(false);
                }
            }
            return None;
        },
    };
    proof {
        if has {
            assert(buf@.subrange(pos as int, pos + 1) =~= seq![tag_of(idv0.controller_type)]);
            lemma_split_at(buf@, pos as int, pos + 1);
            lemma_concat_split(
                buf@.subrange(pos as int, pos + 1),
                buf@.subrange(pos + 1, blen),
                seq![tag_of(idv0.controller_type)],
                enc_str(idv0.namespace) + rest_ns,
            );
        }
    }
    let (namespace, p1) = match read_str(buf, pos + 1) {
        Some(t) => t,
        None => {
            proof {
                if has {
                    assert(exists|sx: Seq<char>, rest: Seq<u8>| encode_utf8(sx).len() < pow256(8)
                        && buf@.subrange(pos + 1, blen) == enc_str(sx) + rest) by {
                        assert(buf@.subrange(pos + 1, blen) == enc_str(idv0.namespace)
                            + rest_ns);
                    }
                    assert(false);
                }
            }
            return None;
        },
    };
    proof {
        if has {
            lemma_split_at(buf@, pos + 1, p1 as int);
            assert(encode_utf8(namespace@).len() < pow256(8)) by {
                lemma_le_bytes_len((encode_utf8(namespace@).len() as u64) as int, 8);
            }
            lemma_enc_str_prefix(
                namespace@,
                idv0.namespace,
                buf@.subrange(p1 as int, blen),
                rest_ns,
            );
        }
    }
    let (controller_id, p2) = match read_str(buf, p1) {
        Some(t) => t,
        None => {
            proof {
                if has {
                    assert(exists|sx: Seq<char>, rest: Seq<u8>| encode_utf8(sx).len() < pow256(8)
                        && buf@.subrange(p1 as int, blen) == enc_str(sx) + rest) by {
                        assert(buf@.subrange(p1 as int, blen) == enc_str(idv0.controller_id)
                            + (enc_str(idv0.container) + rest0));
                    }
                    assert(false);
                }
            }
            return None;
        },
    };
    proof {
        if has {
            lemma_split_at(buf@, p1 as int, p2 as int);
            assert(encode_utf8(controller_id@).len() < pow256(8)) by {
                lemma_le_bytes_len((encode_utf8(controller_id@).len() as u64) as int, 8);
            }
            lemma_enc_str_prefix(
                controller_id@,
                idv0.controller_id,
                buf@.subrange(p2 as int, blen),
                enc_str(idv0.container) + rest0,
            );
        }
    }
    let (container, p3) = match read_str(buf, p2) {
        Some(t) => t,
        None => {
            proof {
                if has {
                    assert(exists|sx: Seq<char>, rest: Seq<u8>| encode_utf8(sx).len() < pow256(8)
                        && buf@.subrange(p2 as int, blen) == enc_str(sx) + rest) by {
                        assert(buf@.subrange(p2 as int, blen) == enc_str(idv0.container)
                            + rest0);
                    }
                    assert(false);
                }
            }
            return None;
        },
    };
    let id = ContainerId { namespace, controller_type, controller_id, container };
    proof {
        assert(buf@.subrange(pos as int, pos + 1) =~= seq![tag_of(id@.controller_type)]);
        assert(buf@.subrange(pos as int, p3 as int) =~= buf@.subrange(pos as int, pos + 1)
            + buf@.subrange(pos + 1, p1 as int) + buf@.subrange(p1 as int, p2 as int)
            + buf@.subrange(p2 as int, p3 as int));
    }
    Some((id, p3))
}

#[verifier::loop_isolation(false)]
#[verifier::rlimit(100)]
fn read_hist(buf: &Vec<u8>, pos: usize, sig_digits: u8) -> (r: Option<(Histogram, usize)>)
    requires
        pos <= buf@.len(),
    ensures
        r matches Some(t) ==> {
            &&& pos <= t.1 <= buf@.len()
            &&& buf@.subrange(pos as int, t.1 as int) == enc_hist(t.0@)
            &&& t.0.well_formed()
            &&& t.0@.sig_digits == sig_digits as nat
        },
        (exists|h: HistogramView, rest: Seq<u8>| crate::histogram::wf_hist(h) && h.sig_digits
            == sig_digits as nat && buf@.subrange(pos as int, buf@.len() as int) == enc_hist(h)
            + rest) ==> r is Some,
{
    let ghost blen = buf@.len() as int;
    let ghost has = exists|h: HistogramView, rest: Seq<u8>| crate::histogram::wf_hist(h)
        && h.sig_digits == sig_digits as nat && buf@.subrange(pos as int, blen) == enc_hist(h)
        + rest;
    let ghost (hw, restw) = choose|h: HistogramView, rest: Seq<u8>| crate::histogram::wf_hist(h)
        && h.sig_digits == sig_digits as nat && buf@.subrange(pos as int, blen) == enc_hist(h)
        + rest;
    proof {
        lemma_pow256_units();
        if has {
            lemma_wf_counts_bound(hw);
            lemma_le_bytes_len((hw.counts.len() as u64) as int, 8);
            assert(enc_hist(hw) + restw =~= enc_u64(hw.counts.len() as u64) + (enc_counts_from(
                hw.counts,
                0,
            ) + restw));
            assert(buf@.subrange(pos as int, blen).len() == blen - pos);
        }
    }
    let (n64, p1) = match read_u64(buf, pos) {
        Some(t) => t,
        None => {
            proof {
                if has {
                    assert(false);
                }
            }
            return None;
        },
    };
    proof {
        if has {
            lemma_split_at(buf@, pos as int, p1 as int);
            lemma_enc_u64_prefix(
                n64,
                hw.counts.len() as u64,
                buf@.subrange(p1 as int, blen),
                enc_counts_from(hw.counts, 0) + restw,
            );
            assert(n64 == hw.counts.len());
        }
    }
    let mut counts: Vec<u64> = Vec::new();
    let mut p = p1;
    let mut cnt: u64 = 0;
    while cnt < n64
        invariant
            pos <= p1 <= p <= buf@.len(),
            cnt <= n64,
            counts@.len() == cnt,
            buf@.subrange(p1 as int, p as int) == enc_counts_from(counts@, 0),
            has ==> counts@ == hw.counts.subrange(0, cnt as int) && buf@.subrange(p as int, blen)
                == enc_counts_from(hw.counts, cnt as int) + restw,
        decreases n64 - cnt,
    {
        proof {
            if has {
                assert(enc_counts_from(hw.counts, cnt as int) == enc_u64(hw.counts[cnt as int])
                    + enc_counts_from(hw.counts, cnt as int + 1));
                assert(enc_counts_from(hw.counts, cnt as int) + restw =~= enc_u64(
                    hw.counts[cnt as int],
                ) + (enc_counts_from(hw.counts, cnt as int + 1) + restw));
                lemma_le_bytes_len(hw.counts[cnt as int] as int, 8);
                assert(buf@.subrange(p as int, blen).len() == blen - p);
            }
        }
        let (c, p2) = match read_u64(buf, p) {
            Some(t) => t,
            None => {
                proof {
                    if has {
                        assert(false);
                    }
                }
                return None;
            },
        };
        proof {
            lemma_enc_counts_push(counts@, c, 0);
            assert(buf@.subrange(p1 as int, p2 as int) =~= buf@.subrange(p1 as int, p as int)
                + buf@.subrange(p as int, p2 as int));
            if has {
                lemma_split_at(buf@, p as int, p2 as int);
                lemma_enc_u64_prefix(
                    c,
                    hw.counts[cnt as int],
                    buf@.subrange(p2 as int, blen),
                    enc_counts_from(hw.counts, cnt as int + 1) + restw,
                );
                assert(counts@.push(c) =~= hw.counts.subrange(0, cnt as int + 1));
            }
        }
        counts.push(c);
        p = p2;
        cnt = cnt + 1;
    }
    proof {
        if has {
            assert(counts@ =~= hw.counts);
            assert(crate::histogram::total_of(hw) <= u64::MAX);
        }
    }
    let h = match Histogram::from_parts(sig_digits, counts) {
        Ok(h) => h,
        Err(_) => {
            proof {
                if has {
                    assert(false);
                }
            }
            return None;
        },
    };
    proof {
        assert(h@.counts.len() == n64);
        assert(buf@.subrange(pos as int, p as int) =~= buf@.subrange(pos as int, p1 as int)
            + buf@.subrange(p1 as int, p as int));
    }
    Some((h, p))
}

#[verifier::loop_isolation(false)]
#[verifier::rlimit(100)]
fn read_metrics(buf: &Vec<u8>, pos: usize, count: u64) -> (r: Option<(Vec<MetricValue>, usize)>)
    requires
        pos <= buf@.len(),
    ensures
        r matches Some(t) ==> {
            &&& pos <= t.1 <= buf@.len()
            &&& buf@.subrange(pos as int, t.1 as int) == enc_metrics_from(t.0@, 0)
            &&& t.0@.len() == count
        },
        (exists|g: Seq<MetricValue>, rest: Seq<u8>| g.len() == count && buf@.subrange(
            pos as int,
            buf@.len() as int,
        ) == enc_metrics_from(g, 0) + rest) ==> r is Some,
{
    let ghost blen = buf@.len() as int;
    let ghost has = exists|g: Seq<MetricValue>, rest: Seq<u8>| g.len() == count && buf@.subrange(
        pos as int,
        blen,
    ) == enc_metrics_from(g, 0) + rest;
    let ghost (gw, restw) = choose|g: Seq<MetricValue>, rest: Seq<u8>| g.len() == count
        && buf@.subrange(pos as int, blen) == enc_metrics_from(g, 0) + rest;
    let mut out: Vec<MetricValue> = Vec::new();
    let mut p = pos;
    let mut cnt: u64 = 0;
    while cnt < count
        invariant
            pos <= p <= buf@.len(),
            cnt <= count,
            out@.len() == cnt,
            buf@.subrange(pos as int, p as int) == enc_metrics_from(out@, 0),
            has ==> out@ == gw.subrange(0, cnt as int) && buf@.subrange(p as int, blen)
                == enc_metrics_from(gw, cnt as int) + restw,
        decreases count - cnt,
    {
        proof {
            if has {
                assert(enc_metrics_from(gw, cnt as int) == enc_u64(gw[cnt as int].timestamp)
                    + enc_u64(gw[cnt as int].value) + enc_metrics_from(gw, cnt as int + 1));
                lemma_le_bytes_len(gw[cnt as int].timestamp as int, 8);
                lemma_le_bytes_len(gw[cnt as int].value as int, 8);
                assert(buf@.subrange(p as int, blen).len() == blen - p);
                assert(enc_metrics_from(gw, cnt as int) + restw =~= enc_u64(
                    gw[cnt as int].timestamp,
                ) + (enc_u64(gw[cnt as int].value) + (enc_metrics_from(gw, cnt as int + 1)
                    + restw)));
            }
        }
        let (ts, q1) = match read_u64(buf, p) {
            Some(t) => t,
            None => {
                proof {
                    if has {
                        assert(false);
                    }
                }
                return None;
            },
        };
        proof {
            if has {
                lemma_split_at(buf@, p as int, q1 as int);
                lemma_enc_u64_prefix(
                    ts,
                    gw[cnt as int].timestamp,
                    buf@.subrange(q1 as int, blen),
                    enc_u64(gw[cnt as int].value) + (enc_metrics_from(gw, cnt as int + 1)
                        + restw),
                );
            }
        }
        let (value, q2) = match read_u64(buf, q1) {
            Some(t) => t,
            None => {
                proof {
                    if has {
                        assert(false);
                    }
                }
                return None;
            },
        };
        let mv = MetricValue { timestamp: ts, value };
        proof {
            lemma_enc_metrics_push(out@, mv, 0);
            assert(buf@.subrange(pos as int, q2 as int) =~= buf@.subrange(pos as int, p as int)
                + buf@.subrange(p as int, q1 as int) + buf@.subrange(q1 as int, q2 as int));
            if has {
                lemma_split_at(buf@, q1 as int, q2 as int);
                lemma_enc_u64_prefix(
                    value,
                    gw[cnt as int].value,
                    buf@.subrange(q2 as int, blen),
                    enc_metrics_from(gw, cnt as int + 1) + restw,
                );
                assert(mv =~= gw[cnt as int]);
                assert(out@.push(mv) =~= gw.subrange(0, cnt as int + 1));
            }
        }
        out.push(mv);
        p = q2;
        cnt = cnt + 1;
    }
    proof {
        if has {
            assert(out@ =~= gw);
        }
    }
    Some((out, p))
}

#[verifier::loop_isolation(false)]
#[verifier::rlimit(100)]
fn read_containers(buf: &Vec<u8>, pos: usize, count: u64, sig_digits: u8) -> (r: Option<(
    Vec<(ContainerId, Histogram)>,
    usize,
)>)
    requires
        pos <= buf@.len(),
    ensures
        r matches Some(t) ==> {
            &&& pos <= t.1 <= buf@.len()
            &&& buf@.subrange(pos as int, t.1 as int) == enc_containers_from(
                Seq::new(t.0@.len(), |k: int| (t.0@[k].0@, t.0@[k].1@)),
                0,
            )
            &&& t.0@.len() == count
            &&& forall|k: int| 0 <= k < t.0@.len() ==> (#[trigger] t.0@[k].1).well_formed()
                && t.0@[k].1@.sig_digits == sig_digits as nat && bounded_id(t.0@[k].0@)
        },
        (exists|cs: Seq<(ContainerIdView, HistogramView)>, rest: Seq<u8>| cs.len() == count && (
        forall|k: int| 0 <= k < cs.len() ==> bounded_id((#[trigger] cs[k]).0)
            && crate::histogram::wf_hist(cs[k].1) && cs[k].1.sig_digits == sig_digits as nat)
            && buf@.subrange(pos as int, buf@.len() as int) == enc_containers_from(cs, 0) + rest)
            ==> r is Some,
{
    let ghost blen = buf@.len() as int;
    let ghost has = exists|cs: Seq<(ContainerIdView, HistogramView)>, rest: Seq<u8>| cs.len()
        == count && (forall|k: int| 0 <= k < cs.len() ==> bounded_id((#[trigger] cs[k]).0)
        && crate::histogram::wf_hist(cs[k].1) && cs[k].1.sig_digits == sig_digits as nat)
        && buf@.subrange(pos as int, blen) == enc_containers_from(cs, 0) + rest;
    let ghost (csw, restw) = choose|cs: Seq<(ContainerIdView, HistogramView)>, rest: Seq<u8>|
        cs.len() == count && (forall|k: int| 0 <= k < cs.len() ==> bounded_id(
        (#[trigger] cs[k]).0) && crate::histogram::wf_hist(cs[k].1) && cs[k].1.sig_digits
        == sig_digits as nat) && buf@.subrange(pos as int, blen) == enc_containers_from(cs, 0)
        + rest;
    proof {
        lemma_pow256_units();
    }
    let mut out: Vec<(ContainerId, Histogram)> = Vec::new();
    let mut p = pos;
    let mut cnt: u64 = 0;
    while cnt < count
        invariant
            pos <= p <= buf@.len(),
            cnt <= count,
            out@.len() == cnt,
            buf@.subrange(pos as int, p as int) == enc_containers_from(
                Seq::new(out@.len(), |k: int| (out@[k].0@, out@[k].1@)),
                0,
            ),
            forall|k: int| 0 <= k < out@.len() ==> (#[trigger] out@[k].1).well_formed()
                && out@[k].1@.sig_digits == sig_digits as nat && bounded_id(out@[k].0@),
            has ==> Seq::new(out@.len(), |k: int| (out@[k].0@, out@[k].1@)) == csw.subrange(
                0,
                cnt as int,
            ) && buf@.subrange(p as int, blen) == enc_containers_from(csw, cnt as int) + restw,
        decreases count - cnt,
    {
        let ghost elem_rest = enc_hist(csw[cnt as int].1) + (enc_containers_from(
            csw,
            cnt as int + 1,
        ) + restw);
        proof {
            if has {
                assert(enc_containers_from(csw, cnt as int) == enc_id(csw[cnt as int].0)
                    + enc_hist(csw[cnt as int].1) + enc_containers_from(csw, cnt as int + 1));
                assert(enc_containers_from(csw, cnt as int) + restw =~= enc_id(
                    csw[cnt as int].0,
                ) + elem_rest);
            }
        }
        let (id, q1) = match read_id(buf, p) {
            Some(t) => t,
            None => {
                proof {
                    if has {
                        assert(false);
                    }
                }
                return None;
            },
        };
        proof {
            if has {
                lemma_split_at(buf@, p as int, q1 as int);
                assert(enc_id(id@).len() < pow256(8)) by {
                    assert(enc_id(id@).len() == q1 - p <= blen);
                }
                lemma_enc_id_bounded(id@);
                lemma_enc_id_prefix(id@, csw[cnt as int].0, buf@.subrange(q1 as int, blen),
                    elem_rest);
            }
        }
        let (h, q2) = match read_hist(buf, q1, sig_digits) {
            Some(t) => t,
            None => {
                proof {
                    if has {
                        assert(exists|hv: HistogramView, rest: Seq<u8>|
                            crate::histogram::wf_hist(hv) && hv.sig_digits == sig_digits as nat
                            && buf@.subrange(q1 as int, blen) == enc_hist(hv) + rest) by {
                            assert(buf@.subrange(q1 as int, blen) == enc_hist(csw[cnt as int].1)
                                + (enc_containers_from(csw, cnt as int + 1) + restw));
                        }
                        assert(false);
                    }
                }
                return None;
            },
        };
        proof {
            let cs = Seq::new(out@.len(), |k: int| (out@[k].0@, out@[k].1@));
            lemma_enc_containers_push(cs, (id@, h@), 0);
            assert(buf@.subrange(pos as int, q2 as int) =~= buf@.subrange(pos as int, p as int)
                + buf@.subrange(p as int, q1 as int) + buf@.subrange(q1 as int, q2 as int));
            assert(Seq::new(
                out@.push((id, h)).len(),
                |k: int| (out@.push((id, h))[k].0@, out@.push((id, h))[k].1@),
            ) =~= cs.push((id@, h@)));
            assert(enc_id(id@).len() < pow256(8)) by {
                assert(enc_id(id@).len() == q1 - p);
            }
            lemma_enc_id_bounded(id@);
            if has {
                lemma_split_at(buf@, q1 as int, q2 as int);
                h.lemma_well_formed_view();
                lemma_wf_counts_bound(h@);
                lemma_wf_counts_bound(csw[cnt as int].1);
                lemma_enc_hist_prefix(
                    h@,
                    csw[cnt as int].1,
                    buf@.subrange(q2 as int, blen),
                    enc_containers_from(csw, cnt as int + 1) + restw,
                );
                assert(h@ =~= csw[cnt as int].1);
                assert(cs.push((id@, h@)) =~= csw.subrange(0, cnt as int + 1));
            }
        }
        out.push((id, h));
        p = q2;
        cnt = cnt + 1;
    }
    proof {
        if has {
            assert(Seq::new(out@.len(), |k: int| (out@[k].0@, out@[k].1@)) =~= csw);
        }
    }
    Some((out, p))
}

#[verifier::loop_isolation(false)]
#[verifier::rlimit(100)]
fn read_ids(buf: &Vec<u8>, pos: usize, count: u64) -> (r: Option<(Vec<ContainerId>, usize)>)
    requires
        pos <= buf@.len(),
    ensures
        r matches Some(t) ==> {
            &&& pos <= t.1 <= buf@.len()
            &&& buf@.subrange(pos as int, t.1 as int) == enc_ids_from(
                Seq::new(t.0@.len(), |l: int| t.0@[l]@),
                0,
            )
            &&& t.0@.len() == count
            &&& forall|l: int| 0 <= l < t.0@.len() ==> bounded_id((#[trigger] t.0@[l])@)
        },
        (exists|ids: Seq<ContainerIdView>, rest: Seq<u8>| ids.len() == count && (forall|l: int|
            0 <= l < ids.len() ==> bounded_id(#[trigger] ids[l])) && buf@.subrange(
            pos as int,
            buf@.len() as int,
        ) == enc_ids_from(ids, 0) + rest) ==> r is Some,
{
    let ghost blen = buf@.len() as int;
    let ghost has = exists|ids: Seq<ContainerIdView>, rest: Seq<u8>| ids.len() == count && (
    forall|l: int| 0 <= l < ids.len() ==> bounded_id(#[trigger] ids[l])) && buf@.subrange(
        pos as int,
        blen,
    ) == enc_ids_from(ids, 0) + rest;
    let ghost (idsw, restw) = choose|ids: Seq<ContainerIdView>, rest: Seq<u8>| ids.len() == count
        && (forall|l: int| 0 <= l < ids.len() ==> bounded_id(#[trigger] ids[l]))
        && buf@.subrange(pos as int, blen) == enc_ids_from(ids, 0) + rest;
    proof {
        lemma_pow256_units();
    }
    let mut out: Vec<ContainerId> = Vec::new();
    let mut p = pos;
    let mut cnt: u64 = 0;
    while cnt < count
        invariant
            pos <= p <= buf@.len(),
            cnt <= count,
            out@.len() == cnt,
            buf@.subrange(pos as int, p as int) == enc_ids_from(
                Seq::new(out@.len(), |l: int| out@[l]@),
                0,
            ),
            forall|l: int| 0 <= l < out@.len() ==> bounded_id((#[trigger] out@[l])@),
            has ==> Seq::new(out@.len(), |l: int| out@[l]@) == idsw.subrange(0, cnt as int)
                && buf@.subrange(p as int, blen) == enc_ids_from(idsw, cnt as int) + restw,
        decreases count - cnt,
    {
        proof {
            if has {
                assert(enc_ids_from(idsw, cnt as int) == enc_id(idsw[cnt as int]) + enc_ids_from(
                    idsw,
                    cnt as int + 1,
                ));
                assert(enc_ids_from(idsw, cnt as int) + restw =~= enc_id(idsw[cnt as int]) + (
                enc_ids_from(idsw, cnt as int + 1) + restw));
            }
        }
        let (id, q1) = match read_id(buf, p) {
            Some(t) => t,
            None => {
                proof {
                    if has {
                        assert(exists|idv: ContainerIdView, rest: Seq<u8>| bounded_id(idv)
                            && buf@.subrange(p as int, blen) == enc_id(idv) + rest) by {
                            assert(buf@.subrange(p as int, blen) == enc_id(idsw[cnt as int]) + (
                            enc_ids_from(idsw, cnt as int + 1) + restw));
                        }
                        assert(false);
                    }
                }
                return None;
            },
        };
        proof {
            let iv = Seq::new(out@.len(), |l: int| out@[l]@);
            lemma_enc_ids_push(iv, id@, 0);
            assert(buf@.subrange(pos as int, q1 as int) =~= buf@.subrange(pos as int, p as int)
                + buf@.subrange(p as int, q1 as int));
            assert(Seq::new(out@.push(id).len(), |l: int| out@.push(id)[l]@) =~= iv.push(id@));
            assert(enc_id(id@).len() < pow256(8)) by {
                assert(enc_id(id@).len() == q1 - p);
            }
            lemma_enc_id_bounded(id@);
            if has {
                lemma_split_at(buf@, p as int, q1 as int);
                lemma_enc_id_prefix(
                    id@,
                    idsw[cnt as int],
                    buf@.subrange(q1 as int, blen),
                    enc_ids_from(idsw, cnt as int + 1) + restw,
                );
                assert(iv.push(id@) =~= idsw.subrange(0, cnt as int + 1));
            }
        }
        out.push(id);
        p = q1;
        cnt = cnt + 1;
    }
    proof {
        if has {
            assert(Seq::new(out@.len(), |l: int| out@[l]@) =~= idsw);
        }
    }
    Some((out, p))
}

#[verifier::loop_isolation(false)]
#[verifier::rlimit(100)]
fn read_presence(buf: &Vec<u8>, pos: usize, count: u64) -> (r: Option<(
    Vec<(u64, Vec<ContainerId>)>,
    usize,
)>)
    requires
        pos <= buf@.len(),
    ensures
        r matches Some(t) ==> {
            &&& pos <= t.1 <= buf@.len()
            &&& buf@.subrange(pos as int, t.1 as int) == enc_presence_from(
                Seq::new(t.0@.len(), |k: int| presence_entry_view(t.0@[k])),
                0,
            )
            &&& t.0@.len() == count
            &&& forall|k: int| 0 <= k < t.0@.len() ==> presence_entry_view(
                #[trigger] t.0@[k]).1.len() < pow256(8) && (forall|l: int| 0 <= l
                < presence_entry_view(t.0@[k]).1.len() ==> bounded_id(
                #[trigger] presence_entry_view(t.0@[k]).1[l]))
        },
        (exists|ps: Seq<(u64, Seq<ContainerIdView>)>, rest: Seq<u8>| ps.len() == count && (
        forall|k: int| 0 <= k < ps.len() ==> (#[trigger] ps[k]).1.len() < pow256(8) && (forall|
            l: int,
        | 0 <= l < ps[k].1.len() ==> bounded_id(#[trigger] ps[k].1[l])) ) && buf@.subrange(
            pos as int,
            buf@.len() as int,
        ) == enc_presence_from(ps, 0) + rest) ==> r is Some,
{
    let ghost blen = buf@.len() as int;
    let ghost has = exists|ps: Seq<(u64, Seq<ContainerIdView>)>, rest: Seq<u8>| ps.len() == count
        && (forall|k: int| 0 <= k < ps.len() ==> (#[trigger] ps[k]).1.len() < pow256(8) && (
    forall|l: int| 0 <= l < ps[k].1.len() ==> bounded_id(#[trigger] ps[k].1[l])))
        && buf@.subrange(pos as int, blen) == enc_presence_from(ps, 0) + rest;
    let ghost (psw, restw) = choose|ps: Seq<(u64, Seq<ContainerIdView>)>, rest: Seq<u8>| ps.len()
        == count && (forall|k: int| 0 <= k < ps.len() ==> (#[trigger] ps[k]).1.len() < pow256(8)
        && (forall|l: int| 0 <= l < ps[k].1.len() ==> bounded_id(#[trigger] ps[k].1[l])))
        && buf@.subrange(pos as int, blen) == enc_presence_from(ps, 0) + rest;
    proof {
        lemma_pow256_units();
    }
    let mut out: Vec<(u64, Vec<ContainerId>)> = Vec::new();
    let mut p = pos;
    let mut cnt: u64 = 0;
    proof {
        assert(buf@.subrange(pos as int, pos as int) =~= enc_presence_from(
            Seq::new(0, |k: int| presence_entry_view(out@[k])),
            0,
        ));
    }
    while cnt < count
        invariant
            pos <= p <= buf@.len(),
            cnt <= count,
            out@.len() == cnt,
            buf@.subrange(pos as int, p as int) == enc_presence_from(
                Seq::new(out@.len(), |k: int| presence_entry_view(out@[k])),
                0,
            ),
            forall|k: int| 0 <= k < out@.len() ==> presence_entry_view(
                #[trigger] out@[k]).1.len() < pow256(8) && (forall|l: int| 0 <= l
                < presence_entry_view(out@[k]).1.len() ==> bounded_id(
                #[trigger] presence_entry_view(out@[k]).1[l])),
            has ==> Seq::new(out@.len(), |k: int| presence_entry_view(out@[k])) == psw.subrange(
                0,
                cnt as int,
            ) && buf@.subrange(p as int, blen) == enc_presence_from(psw, cnt as int) + restw,
        decreases count - cnt,
    {
        let ghost after_ts = enc_u64(psw[cnt as int].1.len() as u64) + (enc_ids_from(
            psw[cnt as int].1,
            0,
        ) + (enc_presence_from(psw, cnt as int + 1) + restw));
        proof {
            if has {
                assert(enc_presence_from(psw, cnt as int) == enc_u64(psw[cnt as int].0)
                    + enc_u64(psw[cnt as int].1.len() as u64) + enc_ids_from(psw[cnt as int].1, 0)
                    + enc_presence_from(psw, cnt as int + 1));
                lemma_le_bytes_len(psw[cnt as int].0 as int, 8);
                assert(buf@.subrange(p as int, blen).len() == blen - p);
                assert(enc_presence_from(psw, cnt as int) + restw =~= enc_u64(psw[cnt as int].0)
                    + after_ts);
            }
        }
        let (ts, w1) = match read_u64(buf, p) {
            Some(t) => t,
            None => {
                proof {
                    if has {
                        assert(false);
                    }
                }
                return None;
            },
        };
        proof {
            if has {
                lemma_split_at(buf@, p as int, w1 as int);
                lemma_enc_u64_prefix(ts, psw[cnt as int].0, buf@.subrange(w1 as int, blen),
                    after_ts);
                lemma_le_bytes_len((psw[cnt as int].1.len() as u64) as int, 8);
                assert(buf@.subrange(w1 as int, blen).len() == blen - w1);
            }
        }
        let (m, w2) = match read_u64(buf, w1) {
            Some(t) => t,
            None => {
                proof {
                    if has {
                        assert(false);
                    }
                }
                return None;
            },
        };
        proof {
            if has {
                lemma_split_at(buf@, w1 as int, w2 as int);
                lemma_enc_u64_prefix(
                    m,
                    psw[cnt as int].1.len() as u64,
                    buf@.subrange(w2 as int, blen),
                    enc_ids_from(psw[cnt as int].1, 0) + (enc_presence_from(psw, cnt as int + 1)
                        + restw),
                );
                assert(m == psw[cnt as int].1.len());
            }
        }
        let (ids, x1) = match read_ids(buf, w2, m) {
            Some(t) => t,
            None => {
                proof {
                    if has {
                        assert(exists|iw: Seq<ContainerIdView>, rest: Seq<u8>| iw.len() == m && (
                        forall|l: int| 0 <= l < iw.len() ==> bounded_id(#[trigger] iw[l]))
                            && buf@.subrange(w2 as int, blen) == enc_ids_from(iw, 0) + rest) by {
                            assert(buf@.subrange(w2 as int, blen) == enc_ids_from(
                                psw[cnt as int].1,
                                0,
                            ) + (enc_presence_from(psw, cnt as int + 1) + restw));
                        }
                        assert(false);
                    }
                }
                return None;
            },
        };
        proof {
            let ps = Seq::new(out@.len(), |k: int| presence_entry_view(out@[k]));
            let iv = Seq::new(ids@.len(), |l: int| ids@[l]@);
            lemma_enc_presence_push(ps, (ts, iv), 0);
            assert(buf@.subrange(pos as int, x1 as int) =~= buf@.subrange(pos as int, p as int)
                + buf@.subrange(p as int, w1 as int) + buf@.subrange(w1 as int, w2 as int)
                + buf@.subrange(w2 as int, x1 as int));
            assert(Seq::new(
                out@.push((ts, ids)).len(),
                |k: int| presence_entry_view(out@.push((ts, ids))[k]),
            ) =~= ps.push((ts, iv)));
            assert(presence_entry_view((ts, ids)).1 =~= iv);
            assert forall|k: int| 0 <= k < out@.push((ts, ids)).len() implies
                presence_entry_view(#[trigger] out@.push((ts, ids))[k]).1.len() < pow256(8) && (
            forall|l: int| 0 <= l < presence_entry_view(out@.push((ts, ids))[k]).1.len()
                ==> bounded_id(#[trigger] presence_entry_view(out@.push((ts, ids))[k]).1[l])) by {
                if k < out@.len() {
                    assert(out@.push((ts, ids))[k] == out@[k]);
                } else {
                    assert(out@.push((ts, ids))[k] == (ts, ids));
                    assert(presence_entry_view((ts, ids)).1.len() == ids@.len());
                }
            }
            if has {
                lemma_split_at(buf@, w2 as int, x1 as int);
                lemma_enc_ids_prefix(
                    iv,
                    psw[cnt as int].1,
                    0,
                    buf@.subrange(x1 as int, blen),
                    enc_presence_from(psw, cnt as int + 1) + restw,
                );
                assert(iv =~= psw[cnt as int].1);
                assert((ts, iv) =~~= psw[cnt as int]);
                assert(ps.push((ts, iv)) =~= psw.subrange(0, cnt as int + 1));
            }
        }
        out.push((ts, ids));
        p = x1;
        cnt = cnt + 1;
    }
    proof {
        if has {
            assert(Seq::new(out@.len(), |k: int| presence_entry_view(out@[k])) =~= psw);
        }
    }
    Some((out, p))
}

/// Bytes that carry the seven snapshot parts in order are the snapshot.
proof fn lemma_assemble_snapshot(
    bytes: Seq<u8>,
    d: MemoryInfoView,
    p1: int,
    pm: int,
    p2: int,
    q: int,
    p3: int,
    w: int,
)
    requires
        1 <= p1 <= pm <= p2 <= q <= p3 <= w == bytes.len(),
        bytes.subrange(0, 1) == seq![d.sig_digits as u8],
        bytes.subrange(1, p1) == enc_u64(d.global.len() as u64),
        bytes.subrange(p1, pm) == enc_metrics_from(d.global, 0),
        bytes.subrange(pm, p2) == enc_u64(d.containers.len() as u64),
        bytes.subrange(p2, q) == enc_containers_from(d.containers, 0),
        bytes.subrange(q, p3) == enc_u64(d.presence.len() as u64),
        bytes.subrange(p3, w) == enc_presence_from(d.presence, 0),
    ensures
        spec_encode_dataset(d) == bytes,
{
    assert(bytes =~= bytes.subrange(0, 1) + (bytes.subrange(1, p1) + (bytes.subrange(p1, pm) + (
    bytes.subrange(pm, p2) + (bytes.subrange(p2, q) + (bytes.subrange(q, p3) + bytes.subrange(
        p3,
        w,
    )))))));
}

/// Rebuilds a dataset from snapshot bytes.  A successful decode yields a
/// well-formed dataset whose snapshot is exactly the given bytes, so all
/// its percentile queries answer as they did when the snapshot was
/// written; and decoding cannot fail on the snapshot of any structurally
/// valid dataset.
#[verifier::loop_isolation(false)]
#[verifier::rlimit(100)]
pub fn decode_dataset(bytes: &Vec<u8>) -> (result: Result<MemoryInfo, SnapshotError>)
    ensures
        result matches Ok(d) ==> d.well_formed() && spec_encode_dataset(d@) == bytes@,
        (exists|d0: MemoryInfoView| wf_mem(d0) && bounded_mem(d0) && bytes@
            == spec_encode_dataset(d0)) ==> result is Ok,
{
    let ghost blen = bytes@.len() as int;
    let ghost has = exists|d0: MemoryInfoView| wf_mem(d0) && bounded_mem(d0) && bytes@
        == spec_encode_dataset(d0);
    let ghost dw = choose|d0: MemoryInfoView| wf_mem(d0) && bounded_mem(d0) && bytes@
        == spec_encode_dataset(d0);
    let ghost t2 = enc_metrics_from(dw.global, 0);
    let ghost t4 = enc_containers_from(dw.containers, 0);
    let ghost t6 = enc_presence_from(dw.presence, 0);
    let ghost r1 = enc_u64(dw.global.len() as u64) + (t2 + (enc_u64(dw.containers.len() as u64)
        + (t4 + (enc_u64(dw.presence.len() as u64) + t6))));
    proof {
        lemma_pow256_units();
        if has {
            assert(bytes@ == seq![dw.sig_digits as u8] + r1);
            assert(bytes@.len() == 1 + r1.len());
            lemma_le_bytes_len(dw.global.len() as u64 as int, 8);
        }
    }
    if bytes.len() < 1 {
        proof {
            if has {
                assert(false);
            }
        }
        return Err(SnapshotError::Malformed);
    }
    let sig_digits = bytes[0];
    proof {
        if has {
            assert(bytes@[0] == dw.sig_digits as u8);
            assert(sig_digits as nat == dw.sig_digits);
            assert(bytes@.subrange(1, blen) =~= r1);
        }
    }
    let (gn, p1) = match read_u64(bytes, 1) {
        Some(t) => t,
        None => {
            proof {
                if has {
                    assert(false);
                }
            }
            return Err(SnapshotError::Malformed);
        },
    };
    proof {
        if has {
            lemma_split_at(bytes@, 1, p1 as int);
            lemma_enc_u64_prefix(
                gn,
                dw.global.len() as u64,
                bytes@.subrange(p1 as int, blen),
                t2 + (enc_u64(dw.containers.len() as u64) + (t4 + (enc_u64(
                    dw.presence.len() as u64,
                ) + t6))),
            );
            assert(gn == dw.global.len());
        }
    }
    let (global, p2) = match read_metrics(bytes, p1, gn) {
        Some(t) => t,
        None => {
            proof {
                if has {
                    assert(exists|g: Seq<MetricValue>, rest: Seq<u8>| g.len() == gn
                        && bytes@.subrange(p1 as int, blen) == enc_metrics_from(g, 0) + rest) by {
                        assert(bytes@.subrange(p1 as int, blen) == enc_metrics_from(dw.global, 0)
                            + (enc_u64(dw.containers.len() as u64) + (t4 + (enc_u64(
                            dw.presence.len() as u64,
                        ) + t6))));
                    }
                    assert(false);
                }
            }
            return Err(SnapshotError::Malformed);
        },
    };
    proof {
        if has {
            lemma_split_at(bytes@, p1 as int, p2 as int);
            lemma_enc_metrics_prefix(
                global@,
                dw.global,
                0,
                bytes@.subrange(p2 as int, blen),
                enc_u64(dw.containers.len() as u64) + (t4 + (enc_u64(dw.presence.len() as u64)
                    + t6)),
            );
            assert(global@ =~= dw.global);
            lemma_le_bytes_len(dw.containers.len() as u64 as int, 8);
            assert(bytes@.subrange(p2 as int, blen).len() == blen - p2);
        }
    }
    let (cn, p3) = match read_u64(bytes, p2) {
        Some(t) => t,
        None => {
            proof {
                if has {
                    assert(false);
                }
            }
            return Err(SnapshotError::Malformed);
        },
    };
    proof {
        if has {
            lemma_split_at(bytes@, p2 as int, p3 as int);
            lemma_enc_u64_prefix(
                cn,
                dw.containers.len() as u64,
                bytes@.subrange(p3 as int, blen),
                t4 + (enc_u64(dw.presence.len() as u64) + t6),
            );
            assert(cn == dw.containers.len());
            assert forall|k: int| 0 <= k < dw.containers.len() implies bounded_id(
                (#[trigger] dw.containers[k]).0) && crate::histogram::wf_hist(dw.containers[k].1)
                && dw.containers[k].1.sig_digits == sig_digits as nat by {
                assert(dw.containers[k].1.sig_digits == dw.sig_digits);
            }
        }
    }
    let (containers, p4) = match read_containers(bytes, p3, cn, sig_digits) {
        Some(t) => t,
        None => {
            proof {
                if has {
                    assert(exists|cs: Seq<(ContainerIdView, HistogramView)>, rest: Seq<u8>|
                        cs.len() == cn && (forall|k: int| 0 <= k < cs.len() ==> bounded_id(
                        (#[trigger] cs[k]).0) && crate::histogram::wf_hist(cs[k].1)
                        && cs[k].1.sig_digits == sig_digits as nat) && bytes@.subrange(
                        p3 as int,
                        blen,
                    ) == enc_containers_from(cs, 0) + rest) by {
                        assert(bytes@.subrange(p3 as int, blen) == enc_containers_from(
                            dw.containers,
                            0,
                        ) + (enc_u64(dw.presence.len() as u64) + t6));
                    }
                    assert(false);
                }
            }
            return Err(SnapshotError::Malformed);
        },
    };
    let ghost cv = Seq::new(containers@.len(), |k: int| (containers@[k].0@, containers@[k].1@));
    proof {
        if has {
            lemma_split_at(bytes@, p3 as int, p4 as int);
            assert forall|k: int| 0 <= k < cv.len() implies bounded_id((#[trigger] cv[k]).0)
                && cv[k].1.counts.len() < pow256(8) && cv[k].1.sig_digits
                == dw.sig_digits by {
                containers@[k].1.lemma_well_formed_view();
                lemma_wf_counts_bound(cv[k].1);
            }
            assert forall|k: int| 0 <= k < dw.containers.len() implies bounded_id(
                (#[trigger] dw.containers[k]).0) && dw.containers[k].1.counts.len() < pow256(8)
                && dw.containers[k].1.sig_digits == dw.sig_digits by {
                lemma_wf_counts_bound(dw.containers[k].1);
            }
            lemma_enc_containers_prefix(
                cv,
                dw.containers,
                dw.sig_digits,
                0,
                bytes@.subrange(p4 as int, blen),
                enc_u64(dw.presence.len() as u64) + t6,
            );
            assert(cv =~= dw.containers);
            lemma_le_bytes_len(dw.presence.len() as u64 as int, 8);
            assert(bytes@.subrange(p4 as int, blen).len() == blen - p4);
        }
    }
    proof {
        if has {
            assert(sig_digits as nat == dw.sig_digits);
        }
        assert(bytes@.subrange(0, 1) =~= seq![sig_digits]);
    }
    decode_tail(
        bytes,
        sig_digits,
        global,
        containers,
        p1,
        p2,
        p3,
        p4,
        Ghost(has),
        Ghost(dw),
    )
}

/// Reads the presence index, validates the parts, and assembles the
/// dataset; the back half of snapshot decoding.
#[verifier::loop_isolation(false)]
#[verifier::rlimit(100)]
fn decode_tail(
    bytes: &Vec<u8>,
    sig_digits: u8,
    global: Vec<MetricValue>,
    containers: Vec<(ContainerId, Histogram)>,
    p1: usize,
    p2: usize,
    p3: usize,
    p4: usize,
    Ghost(has): Ghost<bool>,
    Ghost(dw): Ghost<MemoryInfoView>,
) -> (result: Result<MemoryInfo, SnapshotError>)
    requires
        1 <= p1 <= p2 <= p3 <= p4 <= bytes@.len(),
        bytes@.subrange(0, 1) == seq![sig_digits],
        bytes@.subrange(1, p1 as int) == enc_u64(global@.len() as u64),
        bytes@.subrange(p1 as int, p2 as int) == enc_metrics_from(global@, 0),
        bytes@.subrange(p2 as int, p3 as int) == enc_u64(containers@.len() as u64),
        bytes@.subrange(p3 as int, p4 as int) == enc_containers_from(
            Seq::new(containers@.len(), |k: int| (containers@[k].0@, containers@[k].1@)),
            0,
        ),
        forall|k: int| 0 <= k < containers@.len() ==> (#[trigger] containers@[k].1).well_formed()
            && containers@[k].1@.sig_digits == sig_digits as nat && bounded_id(
            containers@[k].0@,
        ),
        has ==> {
            &&& wf_mem(dw)
            &&& bounded_mem(dw)
            &&& bytes@ == spec_encode_dataset(dw)
            &&& sig_digits as nat == dw.sig_digits
            &&& global@ == dw.global
            &&& Seq::new(containers@.len(), |k: int| (containers@[k].0@, containers@[k].1@))
                == dw.containers
            &&& bytes@.subrange(p4 as int, bytes@.len() as int) == enc_u64(
                dw.presence.len() as u64,
            ) + enc_presence_from(dw.presence, 0)
        },
    ensures
        result matches Ok(d) ==> d.well_formed() && spec_encode_dataset(d@) == bytes@,
        has ==> result is Ok,
{
    let ghost blen = bytes@.len() as int;
    let ghost cv = Seq::new(containers@.len(), |k: int| (containers@[k].0@, containers@[k].1@));
    let ghost t6 = enc_presence_from(dw.presence, 0);
    proof {
        lemma_pow256_units();
        if has {
            lemma_le_bytes_len(dw.presence.len() as u64 as int, 8);
            assert(bytes@.subrange(p4 as int, blen).len() == blen - p4);
        }
    }
    let (pn, p5) = match read_u64(bytes, p4) {
        Some(t) => t,
        None => {
            proof {
                if has {
                    assert(false);
                }
            }
            return Err(SnapshotError::Malformed);
        },
    };
    proof {
        if has {
            lemma_split_at(bytes@, p4 as int, p5 as int);
            lemma_enc_u64_prefix(
                pn,
                dw.presence.len() as u64,
                bytes@.subrange(p5 as int, blen),
                t6,
            );
            assert(pn == dw.presence.len());
        }
    }
    let (presence, p6) = match read_presence(bytes, p5, pn) {
        Some(t) => t,
        None => {
            proof {
                if has {
                    assert(exists|ps: Seq<(u64, Seq<ContainerIdView>)>, rest: Seq<u8>| ps.len()
                        == pn && (forall|k: int| 0 <= k < ps.len() ==> (#[trigger] ps[k]).1.len()
                        < pow256(8) && (forall|l: int| 0 <= l < ps[k].1.len() ==> bounded_id(
                        #[trigger] ps[k].1[l]))) && bytes@.subrange(p5 as int, blen)
                        == enc_presence_from(ps, 0) + rest) by {
                        assert(bytes@.subrange(p5 as int, blen) =~= enc_presence_from(
                            dw.presence,
                            0,
                        ) + Seq::<u8>::empty());
                    }
                    assert(false);
                }
            }
            return Err(SnapshotError::Malformed);
        },
    };
    let ghost pv = Seq::new(presence@.len(), |k: int| presence_entry_view(presence@[k]));
    proof {
        if has {
            lemma_split_at(bytes@, p5 as int, p6 as int);
            assert forall|k: int| 0 <= k < pv.len() implies (#[trigger] pv[k]).1.len() < pow256(
                8,
            ) && (forall|l: int| 0 <= l < pv[k].1.len() ==> bounded_id(
                #[trigger] pv[k].1[l])) by {
                assert(pv[k] == presence_entry_view(presence@[k]));
            }
            assert(enc_presence_from(pv, 0) + bytes@.subrange(p6 as int, blen)
                == enc_presence_from(dw.presence, 0) + Seq::<u8>::empty()) by {
                assert(t6 + Seq::<u8>::empty() =~= t6);
            }
            lemma_enc_presence_prefix(
                pv,
                dw.presence,
                0,
                bytes@.subrange(p6 as int, blen),
                Seq::empty(),
            );
            assert(pv =~= dw.presence);
            assert(bytes@.subrange(p6 as int, blen).len() == 0);
            assert(p6 == bytes@.len());
        }
    }
    if p6 != bytes.len() {
        proof {
            if has {
                assert(false);
            }
        }
        return Err(SnapshotError::Malformed);
    }
    proof {
        if has {
            assert forall|k: int, l: int| 0 <= k < l < containers@.len() implies (
            #[trigger] containers@[k].0)@ != (#[trigger] containers@[l].0)@ by {
                assert(containers@[k].0@ == cv[k].0);
                assert(containers@[l].0@ == cv[l].0);
                assert(dw.containers[k].0 != dw.containers[l].0);
            }
            assert forall|k: int, l: int| 0 <= k < l < presence@.len() implies (
            #[trigger] presence@[k]).0 != (#[trigger] presence@[l]).0 by {
                assert(presence@[k].0 == pv[k].0);
                assert(presence@[l].0 == pv[l].0);
                assert(dw.presence[k].0 != dw.presence[l].0);
            }
            assert forall|k: int| 0 <= k < presence@.len() implies
                crate::dataset::unique_ids(presence_entry_view(#[trigger] presence@[k]).1) by {
                assert(presence_entry_view(presence@[k]).1 == pv[k].1);
                assert(crate::dataset::unique_ids(dw.presence[k].1));
            }
        }
    }
    let d = match MemoryInfo::from_parts(sig_digits, global, containers, presence) {
        Ok(d) => d,
        Err(_) => {
            proof {
                if has {
                    assert(false);
                }
            }
            return Err(SnapshotError::Malformed);
        },
    };
    proof {
        assert(bytes@.subrange(0, 1) =~= seq![d@.sig_digits as u8]);
        lemma_assemble_snapshot(
            bytes@,
            d@,
            p1 as int,
            p2 as int,
            p3 as int,
            p4 as int,
            p5 as int,
            p6 as int,
        );
    }
    Ok(d)
}

// ---------------------------------------------------------------------
// A snapshot determines the dataset
// ---------------------------------------------------------------------

/// Identifier whose name parts have machine-representable encodings.
pub open spec fn bounded_id(id: ContainerIdView) -> bool {
    &&& encode_utf8(id.namespace).len() < pow256(8)
    &&& encode_utf8(id.controller_id).len() < pow256(8)
    &&& encode_utf8(id.container).len() < pow256(8)
}

/// Dataset whose parts all have machine-representable sizes, as every
/// dataset held in memory has.
pub open spec fn bounded_mem(d: MemoryInfoView) -> bool {
    &&& d.global.len() < pow256(8)
    &&& d.containers.len() < pow256(8)
    &&& d.presence.len() < pow256(8)
    &&& forall|k: int| 0 <= k < d.containers.len() ==> bounded_id((#[trigger] d.containers[k]).0)
        && d.containers[k].1.counts.len() < pow256(8)
    &&& forall|k: int| 0 <= k < d.presence.len() ==> (#[trigger] d.presence[k]).1.len() < pow256(
        8,
    ) && (forall|l: int| 0 <= l < d.presence[k].1.len() ==> bounded_id(
        #[trigger] d.presence[k].1[l],
    ))
}

/// Equal concatenations with equally long heads have equal parts.
proof fn lemma_concat_split(a1: Seq<u8>, b1: Seq<u8>, a2: Seq<u8>, b2: Seq<u8>)
    requires
        a1.len() == a2.len(),
        a1 + b1 == a2 + b2,
    ensures
        a1 == a2,
        b1 == b2,
{
    assert forall|i: int| 0 <= i < a1.len() implies a1[i] == a2[i] by {
        assert(a1[i] == (a1 + b1)[i]);
        assert(a2[i] == (a2 + b2)[i]);
    }
    assert(a1 =~= a2);
    assert((a1 + b1).len() == a1.len() + b1.len());
    assert((a2 + b2).len() == a2.len() + b2.len());
    assert(b1.len() == b2.len());
    assert forall|i: int| 0 <= i < b1.len() implies b1[i] == b2[i] by {
        assert(b1[i] == (a1 + b1)[a1.len() + i]);
        assert(b2[i] == (a2 + b2)[a2.len() + i]);
    }
    assert(b1 =~= b2);
}

proof fn lemma_enc_u64_prefix(a: u64, b: u64, r1: Seq<u8>, r2: Seq<u8>)
    requires
        enc_u64(a) + r1 == enc_u64(b) + r2,
    ensures
        a == b,
        r1 == r2,
{
    lemma_le_bytes_len(a as int, 8);
    lemma_le_bytes_len(b as int, 8);
    lemma_concat_split(enc_u64(a), r1, enc_u64(b), r2);
    lemma_pow256_units();
    lemma_le_round(a as int, 8);
    lemma_le_round(b as int, 8);
}

proof fn lemma_enc_str_prefix(s1: Seq<char>, s2: Seq<char>, r1: Seq<u8>, r2: Seq<u8>)
    requires
        encode_utf8(s1).len() < pow256(8),
        encode_utf8(s2).len() < pow256(8),
        enc_str(s1) + r1 == enc_str(s2) + r2,
    ensures
        s1 == s2,
        r1 == r2,
{
    lemma_pow256_units();
    let u1 = encode_utf8(s1);
    let u2 = encode_utf8(s2);
    assert(enc_str(s1) + r1 =~= enc_u64(u1.len() as u64) + (u1 + r1));
    assert(enc_str(s2) + r2 =~= enc_u64(u2.len() as u64) + (u2 + r2));
    lemma_enc_u64_prefix(u1.len() as u64, u2.len() as u64, u1 + r1, u2 + r2);
    assert(u1.len() == u2.len());
    lemma_concat_split(u1, r1, u2, r2);
    encode_utf8_decode_utf8(s1);
    encode_utf8_decode_utf8(s2);
}

proof fn lemma_enc_id_prefix(i1: ContainerIdView, i2: ContainerIdView, r1: Seq<u8>, r2: Seq<u8>)
    requires
        bounded_id(i1),
        bounded_id(i2),
        enc_id(i1) + r1 == enc_id(i2) + r2,
    ensures
        i1 == i2,
        r1 == r2,
{
    let t1 = seq![tag_of(i1.controller_type)];
    let t2 = seq![tag_of(i2.controller_type)];
    let rest1 = enc_str(i1.namespace) + (enc_str(i1.controller_id) + (enc_str(i1.container)
        + r1));
    let rest2 = enc_str(i2.namespace) + (enc_str(i2.controller_id) + (enc_str(i2.container)
        + r2));
    assert(enc_id(i1) + r1 =~= t1 + rest1);
    assert(enc_id(i2) + r2 =~= t2 + rest2);
    lemma_concat_split(t1, rest1, t2, rest2);
    assert(t1[0] == t2[0]);
    assert(tag_of(i1.controller_type) == tag_of(i2.controller_type));
    assert(i1.controller_type == i2.controller_type);
    lemma_enc_str_prefix(
        i1.namespace,
        i2.namespace,
        enc_str(i1.controller_id) + (enc_str(i1.container) + r1),
        enc_str(i2.controller_id) + (enc_str(i2.container) + r2),
    );
    lemma_enc_str_prefix(
        i1.controller_id,
        i2.controller_id,
        enc_str(i1.container) + r1,
        enc_str(i2.container) + r2,
    );
    lemma_enc_str_prefix(i1.container, i2.container, r1, r2);
    assert(i1 =~= i2);
}

proof fn lemma_enc_counts_prefix(c1: Seq<u64>, c2: Seq<u64>, i: int, r1: Seq<u8>, r2: Seq<u8>)
    requires
        c1.len() == c2.len(),
        0 <= i <= c1.len(),
        enc_counts_from(c1, i) + r1 == enc_counts_from(c2, i) + r2,
    ensures
        forall|k: int| i <= k < c1.len() ==> c1[k] == c2[k],
        r1 == r2,
    decreases c1.len() - i,
{
    if i == c1.len() {
        assert(enc_counts_from(c1, i) =~= Seq::<u8>::empty());
        assert(enc_counts_from(c2, i) =~= Seq::<u8>::empty());
        assert(r1 =~= r2);
    } else {
        assert(enc_counts_from(c1, i) + r1 =~= enc_u64(c1[i]) + (enc_counts_from(c1, i + 1)
            + r1));
        assert(enc_counts_from(c2, i) + r2 =~= enc_u64(c2[i]) + (enc_counts_from(c2, i + 1)
            + r2));
        lemma_enc_u64_prefix(
            c1[i],
            c2[i],
            enc_counts_from(c1, i + 1) + r1,
            enc_counts_from(c2, i + 1) + r2,
        );
        lemma_enc_counts_prefix(c1, c2, i + 1, r1, r2);
    }
}

proof fn lemma_enc_hist_prefix(h1: HistogramView, h2: HistogramView, r1: Seq<u8>, r2: Seq<u8>)
    requires
        h1.counts.len() < pow256(8),
        h2.counts.len() < pow256(8),
        enc_hist(h1) + r1 == enc_hist(h2) + r2,
    ensures
        h1.counts == h2.counts,
        r1 == r2,
{
    lemma_pow256_units();
    assert(enc_hist(h1) + r1 =~= enc_u64(h1.counts.len() as u64) + (enc_counts_from(h1.counts, 0)
        + r1));
    assert(enc_hist(h2) + r2 =~= enc_u64(h2.counts.len() as u64) + (enc_counts_from(h2.counts, 0)
        + r2));
    lemma_enc_u64_prefix(
        h1.counts.len() as u64,
        h2.counts.len() as u64,
        enc_counts_from(h1.counts, 0) + r1,
        enc_counts_from(h2.counts, 0) + r2,
    );
    assert(h1.counts.len() == h2.counts.len());
    lemma_enc_counts_prefix(h1.counts, h2.counts, 0, r1, r2);
    assert(h1.counts =~= h2.counts);
}

proof fn lemma_enc_metrics_prefix(
    g1: Seq<MetricValue>,
    g2: Seq<MetricValue>,
    i: int,
    r1: Seq<u8>,
    r2: Seq<u8>,
)
    requires
        g1.len() == g2.len(),
        0 <= i <= g1.len(),
        enc_metrics_from(g1, i) + r1 == enc_metrics_from(g2, i) + r2,
    ensures
        forall|k: int| i <= k < g1.len() ==> g1[k] == g2[k],
        r1 == r2,
    decreases g1.len() - i,
{
    if i == g1.len() {
        assert(enc_metrics_from(g1, i) =~= Seq::<u8>::empty());
        assert(enc_metrics_from(g2, i) =~= Seq::<u8>::empty());
        assert(r1 =~= r2);
    } else {
        assert(enc_metrics_from(g1, i) + r1 =~= enc_u64(g1[i].timestamp) + (enc_u64(g1[i].value)
            + (enc_metrics_from(g1, i + 1) + r1)));
        assert(enc_metrics_from(g2, i) + r2 =~= enc_u64(g2[i].timestamp) + (enc_u64(g2[i].value)
            + (enc_metrics_from(g2, i + 1) + r2)));
        lemma_enc_u64_prefix(
            g1[i].timestamp,
            g2[i].timestamp,
            enc_u64(g1[i].value) + (enc_metrics_from(g1, i + 1) + r1),
            enc_u64(g2[i].value) + (enc_metrics_from(g2, i + 1) + r2),
        );
        lemma_enc_u64_prefix(
            g1[i].value,
            g2[i].value,
            enc_metrics_from(g1, i + 1) + r1,
            enc_metrics_from(g2, i + 1) + r2,
        );
        assert(g1[i] =~= g2[i]);
        lemma_enc_metrics_prefix(g1, g2, i + 1, r1, r2);
    }
}

proof fn lemma_enc_ids_prefix(
    ids1: Seq<ContainerIdView>,
    ids2: Seq<ContainerIdView>,
    i: int,
    r1: Seq<u8>,
    r2: Seq<u8>,
)
    requires
        ids1.len() == ids2.len(),
        0 <= i <= ids1.len(),
        forall|k: int| 0 <= k < ids1.len() ==> bounded_id(#[trigger] ids1[k]),
        forall|k: int| 0 <= k < ids2.len() ==> bounded_id(#[trigger] ids2[k]),
        enc_ids_from(ids1, i) + r1 == enc_ids_from(ids2, i) + r2,
    ensures
        forall|k: int| i <= k < ids1.len() ==> ids1[k] == ids2[k],
        r1 == r2,
    decreases ids1.len() - i,
{
    if i == ids1.len() {
        assert(enc_ids_from(ids1, i) =~= Seq::<u8>::empty());
        assert(enc_ids_from(ids2, i) =~= Seq::<u8>::empty());
        assert(r1 =~= r2);
    } else {
        assert(enc_ids_from(ids1, i) + r1 =~= enc_id(ids1[i]) + (enc_ids_from(ids1, i + 1) + r1));
        assert(enc_ids_from(ids2, i) + r2 =~= enc_id(ids2[i]) + (enc_ids_from(ids2, i + 1) + r2));
        lemma_enc_id_prefix(
            ids1[i],
            ids2[i],
            enc_ids_from(ids1, i + 1) + r1,
            enc_ids_from(ids2, i + 1) + r2,
        );
        lemma_enc_ids_prefix(ids1, ids2, i + 1, r1, r2);
    }
}

#[verifier::rlimit(100)]
proof fn lemma_enc_containers_prefix(
    cs1: Seq<(ContainerIdView, HistogramView)>,
    cs2: Seq<(ContainerIdView, HistogramView)>,
    dig: nat,
    i: int,
    r1: Seq<u8>,
    r2: Seq<u8>,
)
    requires
        cs1.len() == cs2.len(),
        0 <= i <= cs1.len(),
        forall|k: int| 0 <= k < cs1.len() ==> bounded_id((#[trigger] cs1[k]).0) && cs1[k].1.counts.len()
            < pow256(8) && cs1[k].1.sig_digits == dig,
        forall|k: int| 0 <= k < cs2.len() ==> bounded_id((#[trigger] cs2[k]).0) && cs2[k].1.counts.len()
            < pow256(8) && cs2[k].1.sig_digits == dig,
        enc_containers_from(cs1, i) + r1 == enc_containers_from(cs2, i) + r2,
    ensures
        forall|k: int| i <= k < cs1.len() ==> cs1[k] == cs2[k],
        r1 == r2,
    decreases cs1.len() - i,
{
    if i == cs1.len() {
        assert(enc_containers_from(cs1, i) =~= Seq::<u8>::empty());
        assert(enc_containers_from(cs2, i) =~= Seq::<u8>::empty());
        assert(r1 =~= r2);
    } else {
        assert(enc_containers_from(cs1, i) + r1 =~= enc_id(cs1[i].0) + (enc_hist(cs1[i].1)
            + (enc_containers_from(cs1, i + 1) + r1)));
        assert(enc_containers_from(cs2, i) + r2 =~= enc_id(cs2[i].0) + (enc_hist(cs2[i].1)
            + (enc_containers_from(cs2, i + 1) + r2)));
        lemma_enc_id_prefix(
            cs1[i].0,
            cs2[i].0,
            enc_hist(cs1[i].1) + (enc_containers_from(cs1, i + 1) + r1),
            enc_hist(cs2[i].1) + (enc_containers_from(cs2, i + 1) + r2),
        );
        lemma_enc_hist_prefix(
            cs1[i].1,
            cs2[i].1,
            enc_containers_from(cs1, i + 1) + r1,
            enc_containers_from(cs2, i + 1) + r2,
        );
        assert(cs1[i].1 =~= cs2[i].1);
        assert(cs1[i] =~~= cs2[i]);
        lemma_enc_containers_prefix(cs1, cs2, dig, i + 1, r1, r2);
    }
}

#[verifier::rlimit(100)]
proof fn lemma_enc_presence_prefix(
    ps1: Seq<(u64, Seq<ContainerIdView>)>,
    ps2: Seq<(u64, Seq<ContainerIdView>)>,
    i: int,
    r1: Seq<u8>,
    r2: Seq<u8>,
)
    requires
        ps1.len() == ps2.len(),
        0 <= i <= ps1.len(),
        forall|k: int| 0 <= k < ps1.len() ==> (#[trigger] ps1[k]).1.len() < pow256(8) && (forall|
            l: int,
        | 0 <= l < ps1[k].1.len() ==> bounded_id(#[trigger] ps1[k].1[l])),
        forall|k: int| 0 <= k < ps2.len() ==> (#[trigger] ps2[k]).1.len() < pow256(8) && (forall|
            l: int,
        | 0 <= l < ps2[k].1.len() ==> bounded_id(#[trigger] ps2[k].1[l])),
        enc_presence_from(ps1, i) + r1 == enc_presence_from(ps2, i) + r2,
    ensures
        forall|k: int| i <= k < ps1.len() ==> ps1[k] == ps2[k],
        r1 == r2,
    decreases ps1.len() - i,
{
    lemma_pow256_units();
    if i == ps1.len() {
        assert(enc_presence_from(ps1, i) =~= Seq::<u8>::empty());
        assert(enc_presence_from(ps2, i) =~= Seq::<u8>::empty());
        assert(r1 =~= r2);
    } else {
        assert(enc_presence_from(ps1, i) + r1 =~= enc_u64(ps1[i].0) + (enc_u64(
            ps1[i].1.len() as u64,
        ) + (enc_ids_from(ps1[i].1, 0) + (enc_presence_from(ps1, i + 1) + r1))));
        assert(enc_presence_from(ps2, i) + r2 =~= enc_u64(ps2[i].0) + (enc_u64(
            ps2[i].1.len() as u64,
        ) + (enc_ids_from(ps2[i].1, 0) + (enc_presence_from(ps2, i + 1) + r2))));
        lemma_enc_u64_prefix(
            ps1[i].0,
            ps2[i].0,
            enc_u64(ps1[i].1.len() as u64) + (enc_ids_from(ps1[i].1, 0) + (enc_presence_from(
                ps1,
                i + 1,
            ) + r1)),
            enc_u64(ps2[i].1.len() as u64) + (enc_ids_from(ps2[i].1, 0) + (enc_presence_from(
                ps2,
                i + 1,
            ) + r2)),
        );
        lemma_enc_u64_prefix(
            ps1[i].1.len() as u64,
            ps2[i].1.len() as u64,
            enc_ids_from(ps1[i].1, 0) + (enc_presence_from(ps1, i + 1) + r1),
            enc_ids_from(ps2[i].1, 0) + (enc_presence_from(ps2, i + 1) + r2),
        );
        assert(ps1[i].1.len() == ps2[i].1.len());
        lemma_enc_ids_prefix(
            ps1[i].1,
            ps2[i].1,
            0,
            enc_presence_from(ps1, i + 1) + r1,
            enc_presence_from(ps2, i + 1) + r2,
        );
        assert(ps1[i].1 =~= ps2[i].1);
        assert(ps1[i] =~~= ps2[i]);
        lemma_enc_presence_prefix(ps1, ps2, i + 1, r1, r2);
    }
}

/// ROUND-TRIP LAW: a snapshot determines the dataset.  Two structurally
/// valid datasets with the same snapshot bytes are the same dataset, so
/// deserializing a serialized dataset yields identical
/// `value_at_percentile` answers for every entity and every percentile.
#[verifier::rlimit(100)]
proof fn lemma_snapshot_split0(d1: MemoryInfoView, d2: MemoryInfoView)
    requires
        d1.sig_digits <= 5,
        d2.sig_digits <= 5,
        spec_encode_dataset(d1) == spec_encode_dataset(d2),
    ensures
        d1.sig_digits == d2.sig_digits,
        enc_u64(d1.global.len() as u64) + (enc_metrics_from(d1.global, 0) + (enc_u64(
            d1.containers.len() as u64,
        ) + (enc_containers_from(d1.containers, 0) + (enc_u64(d1.presence.len() as u64)
            + enc_presence_from(d1.presence, 0))))) == enc_u64(d2.global.len() as u64)
            + (enc_metrics_from(d2.global, 0) + (enc_u64(d2.containers.len() as u64)
            + (enc_containers_from(d2.containers, 0) + (enc_u64(d2.presence.len() as u64)
            + enc_presence_from(d2.presence, 0))))),
{
    let b1 = seq![d1.sig_digits as u8];
    let b2 = seq![d2.sig_digits as u8];
    let rest1 = enc_u64(d1.global.len() as u64) + (enc_metrics_from(d1.global, 0) + (enc_u64(
        d1.containers.len() as u64,
    ) + (enc_containers_from(d1.containers, 0) + (enc_u64(d1.presence.len() as u64)
        + enc_presence_from(d1.presence, 0)))));
    let rest2 = enc_u64(d2.global.len() as u64) + (enc_metrics_from(d2.global, 0) + (enc_u64(
        d2.containers.len() as u64,
    ) + (enc_containers_from(d2.containers, 0) + (enc_u64(d2.presence.len() as u64)
        + enc_presence_from(d2.presence, 0)))));
    lemma_concat_split(b1, rest1, b2, rest2);
    assert(b1[0] == b2[0]);
    assert(d1.sig_digits as u8 == d2.sig_digits as u8);
}

#[verifier::rlimit(100)]
proof fn lemma_snapshot_head(d1: MemoryInfoView, d2: MemoryInfoView)
    requires
        d1.sig_digits <= 5,
        d2.sig_digits <= 5,
        bounded_mem(d1),
        bounded_mem(d2),
        spec_encode_dataset(d1) == spec_encode_dataset(d2),
    ensures
        d1.sig_digits == d2.sig_digits,
        d1.global == d2.global,
        enc_u64(d1.containers.len() as u64) + (enc_containers_from(d1.containers, 0) + (enc_u64(
            d1.presence.len() as u64,
        ) + enc_presence_from(d1.presence, 0))) == enc_u64(d2.containers.len() as u64)
            + (enc_containers_from(d2.containers, 0) + (enc_u64(d2.presence.len() as u64)
            + enc_presence_from(d2.presence, 0))),
{
    lemma_pow256_units();
    lemma_snapshot_split0(d1, d2);
    let tail1 = enc_u64(d1.containers.len() as u64) + (enc_containers_from(d1.containers, 0)
        + (enc_u64(d1.presence.len() as u64) + enc_presence_from(d1.presence, 0)));
    let tail2 = enc_u64(d2.containers.len() as u64) + (enc_containers_from(d2.containers, 0)
        + (enc_u64(d2.presence.len() as u64) + enc_presence_from(d2.presence, 0)));
    lemma_enc_u64_prefix(
        d1.global.len() as u64,
        d2.global.len() as u64,
        enc_metrics_from(d1.global, 0) + tail1,
        enc_metrics_from(d2.global, 0) + tail2,
    );
    assert(d1.global.len() == d2.global.len());
    lemma_enc_metrics_prefix(d1.global, d2.global, 0, tail1, tail2);
    assert(d1.global =~= d2.global);
}

#[verifier::rlimit(100)]
proof fn lemma_snapshot_tail(d1: MemoryInfoView, d2: MemoryInfoView)
    requires
        wf_mem(d1),
        wf_mem(d2),
        bounded_mem(d1),
        bounded_mem(d2),
        d1.sig_digits == d2.sig_digits,
        enc_u64(d1.containers.len() as u64) + (enc_containers_from(d1.containers, 0) + (enc_u64(
            d1.presence.len() as u64,
        ) + enc_presence_from(d1.presence, 0))) == enc_u64(d2.containers.len() as u64)
            + (enc_containers_from(d2.containers, 0) + (enc_u64(d2.presence.len() as u64)
            + enc_presence_from(d2.presence, 0))),
    ensures
        d1.containers == d2.containers,
        d1.presence == d2.presence,
{
    lemma_pow256_units();
    lemma_enc_u64_prefix(
        d1.containers.len() as u64,
        d2.containers.len() as u64,
        enc_containers_from(d1.containers, 0) + (enc_u64(d1.presence.len() as u64)
            + enc_presence_from(d1.presence, 0)),
        enc_containers_from(d2.containers, 0) + (enc_u64(d2.presence.len() as u64)
            + enc_presence_from(d2.presence, 0)),
    );
    assert(d1.containers.len() == d2.containers.len());
    lemma_enc_containers_prefix(
        d1.containers,
        d2.containers,
        d1.sig_digits,
        0,
        enc_u64(d1.presence.len() as u64) + enc_presence_from(d1.presence, 0),
        enc_u64(d2.presence.len() as u64) + enc_presence_from(d2.presence, 0),
    );
    assert(d1.containers =~= d2.containers);
    lemma_enc_u64_prefix(
        d1.presence.len() as u64,
        d2.presence.len() as u64,
        enc_presence_from(d1.presence, 0),
        enc_presence_from(d2.presence, 0),
    );
    assert(d1.presence.len() == d2.presence.len());
    lemma_enc_presence_prefix(d1.presence, d2.presence, 0, Seq::empty(), Seq::empty());
    assert(d1.presence =~= d2.presence);
}

/// ROUND-TRIP LAW: a snapshot determines the dataset.  Two structurally
/// valid datasets with the same snapshot bytes are the same dataset, so
/// deserializing a serialized dataset yields identical
/// `value_at_percentile` answers for every entity and every percentile.
pub proof fn lemma_snapshot_determines_dataset(d1: MemoryInfoView, d2: MemoryInfoView)
    requires
        wf_mem(d1),
        wf_mem(d2),
        bounded_mem(d1),
        bounded_mem(d2),
        spec_encode_dataset(d1) == spec_encode_dataset(d2),
    ensures
        d1 == d2,
        forall|k: int, p: int| 0 <= k < d1.containers.len()
            ==> #[trigger] crate::histogram::spec_value_at_percentile(d1.containers[k].1, p)
            == crate::histogram::spec_value_at_percentile(d2.containers[k].1, p),
{
    lemma_snapshot_head(d1, d2);
    lemma_snapshot_tail(d1, d2);
    assert(d1 =~= d2);
}

} // verus!
