//! The byte codec for snapshots: the opaque blob a host stores between
//! ticks.  Encoding is a pure function of the snapshot's meaning, and the
//! encoding is injective up to that meaning, so handing the blob back
//! reproduces the captured kernel exactly.

use vstd::prelude::*;

use crate::kernel::ProcessInfo;
use crate::process::SerializedProcess;
use crate::snapshot::{info_model, payload_model, Snapshot};

verus! {

/// A 32-bit value as four bytes, least significant first.
pub open spec fn u32_bytes(x: u32) -> Seq<u8> {
    seq![
        (x % 256) as u8,
        ((x / 256) % 256) as u8,
        ((x / 65536) % 256) as u8,
        ((x / 16777216) % 256) as u8,
    ]
}

/// A 64-bit value as eight bytes, least significant first.
pub open spec fn u64_bytes(x: u64) -> Seq<u8> {
    u32_bytes((x % 4294967296) as u32) + u32_bytes((x / 4294967296) as u32)
}

/// An optional pid: a presence byte, then the pid if present.
pub open spec fn opt_bytes(p: Option<u32>) -> Seq<u8> {
    match p {
        Some(q) => seq![1u8] + u32_bytes(q),
        None => seq![0u8],
    }
}

/// A list of 32-bit values, in order.
pub open spec fn u32_seq_bytes(values: Seq<u32>) -> Seq<u8>
    decreases values.len(),
{
    if values.len() == 0 {
        Seq::empty()
    } else {
        u32_bytes(values[0]) + u32_seq_bytes(values.drop_first())
    }
}

/// One registry entry: pid, parent, type tag, then the counted child list.
pub open spec fn info_bytes(info: ProcessInfo) -> Seq<u8> {
    u32_bytes(info.pid) + (opt_bytes(info.parent_pid) + (u32_bytes(info.process_type_id) + (
    u64_bytes(info.children_processes@.len() as u64) + u32_seq_bytes(info.children_processes@))))
}

/// The metadata entries, each keyed by its pid.
pub open spec fn info_list_bytes(pairs: Seq<(u32, ProcessInfo)>) -> Seq<u8>
    decreases pairs.len(),
{
    if pairs.len() == 0 {
        Seq::empty()
    } else {
        u32_bytes(pairs[0].0) + (info_bytes(pairs[0].1) + info_list_bytes(pairs.drop_first()))
    }
}

/// One opaque payload: pid, type tag, then the counted byte image.
pub open spec fn payload_bytes(pid: u32, sp: SerializedProcess) -> Seq<u8> {
    u32_bytes(pid) + (u32_bytes(sp.tag()) + (u64_bytes(sp.image().len() as u64) + sp.image()))
}

/// The opaque payloads, each keyed by its pid.
pub open spec fn payload_list_bytes(pairs: Seq<(u32, SerializedProcess)>) -> Seq<u8>
    decreases pairs.len(),
{
    if pairs.len() == 0 {
        Seq::empty()
    } else {
        payload_bytes(pairs[0].0, pairs[0].1) + payload_list_bytes(pairs.drop_first())
    }
}

/// The wake index, a tick and a pid per entry.
pub open spec fn wake_list_bytes(wake: Seq<(u32, u32)>) -> Seq<u8>
    decreases wake.len(),
{
    if wake.len() == 0 {
        Seq::empty()
    } else {
        u32_bytes(wake[0].0) + (u32_bytes(wake[0].1) + wake_list_bytes(wake.drop_first()))
    }
}

/// A task-code queue, a kind byte and a pid per task.
pub open spec fn code_list_bytes(codes: Seq<(u8, u32)>) -> Seq<u8>
    decreases codes.len(),
{
    if codes.len() == 0 {
        Seq::empty()
    } else {
        seq![codes[0].0] + (u32_bytes(codes[0].1) + code_list_bytes(codes.drop_first()))
    }
}

/// The blob encoding of a snapshot: the two counters, then each table and
/// queue as a counted list.
pub open spec fn spec_encode(s: Snapshot) -> Seq<u8> {
    u32_bytes(s.next_pid()) + (u32_bytes(s.tick()) + (u64_bytes(s.info_pairs().len() as u64) + (
    info_list_bytes(s.info_pairs()) + (u64_bytes(s.payload_pairs().len() as u64) + (
    payload_list_bytes(s.payload_pairs()) + (u64_bytes(s.wake().len() as u64) + (wake_list_bytes(
        s.wake(),
    ) + (u64_bytes(s.queue().len() as u64) + (code_list_bytes(s.queue()) + (u64_bytes(
        s.deferred().len() as u64,
    ) + code_list_bytes(s.deferred())))))))))))
}

/// Two snapshots that agree on everything a restore reads: the counters,
/// the wake index, both queues, and both tables entry by entry, compared
/// by what the entries mean.
pub open spec fn snap_equiv(s1: Snapshot, s2: Snapshot) -> bool {
    &&& s1.next_pid() == s2.next_pid()
    &&& s1.tick() == s2.tick()
    &&& s1.wake() == s2.wake()
    &&& s1.queue() == s2.queue()
    &&& s1.deferred() == s2.deferred()
    &&& s1.info_pairs().len() == s2.info_pairs().len()
    &&& forall|j: int|
        0 <= j < s1.info_pairs().len() ==> (#[trigger] s1.info_pairs()[j]).0 == (
        #[trigger] s2.info_pairs()[j]).0 && info_model(s1.info_pairs()[j].1) == info_model(
            s2.info_pairs()[j].1,
        )
    &&& s1.payload_pairs().len() == s2.payload_pairs().len()
    &&& forall|j: int|
        0 <= j < s1.payload_pairs().len() ==> (#[trigger] s1.payload_pairs()[j]).0 == (
        #[trigger] s2.payload_pairs()[j]).0 && payload_model(s1.payload_pairs()[j].1)
            == payload_model(s2.payload_pairs()[j].1)
}

/// The four little-endian digits of a 32-bit value reassemble to it.
proof fn lemma_u32_parts(x: u32)
    ensures
        x % 256 < 256,
        (x / 256) % 256 < 256,
        (x / 65536) % 256 < 256,
        (x / 16777216) % 256 < 256,
        x == (x % 256) + 256 * ((x / 256) % 256) + 65536 * ((x / 65536) % 256) + 16777216 * ((x
            / 16777216) % 256),
{
    assert(x == 256 * (x / 256) + x % 256);
    assert(x / 256 == 256 * ((x / 256) / 256) + (x / 256) % 256);
    assert((x / 256) / 256 == x / 65536);
    assert(x / 65536 == 256 * ((x / 65536) / 256) + (x / 65536) % 256);
    assert((x / 65536) / 256 == x / 16777216);
    assert(x / 16777216 < 256);
    assert(x / 16777216 == (x / 16777216) % 256);
}

/// Splitting a concatenation at a known length is unambiguous.
proof fn lemma_concat_split(a1: Seq<u8>, b1: Seq<u8>, a2: Seq<u8>, b2: Seq<u8>)
    requires
        a1.len() == a2.len(),
        a1 + b1 == a2 + b2,
    ensures
        a1 == a2,
        b1 == b2,
{
    assert forall|i: int| 0 <= i < a1.len() implies a1[i] == a2[i] by {
        assert((a1 + b1)[i] == a1[i]);
        assert((a2 + b2)[i] == a2[i]);
    }
    assert(a1 =~= a2);
    assert((a1 + b1).len() == a1.len() + b1.len());
    assert((a2 + b2).len() == a2.len() + b2.len());
    assert(b1.len() == b2.len());
    assert forall|i: int| 0 <= i < b1.len() implies b1[i] == b2[i] by {
        assert((a1 + b1)[a1.len() + i] == b1[i]);
        assert((a2 + b2)[a2.len() + i] == b2[i]);
    }
    assert(b1 =~= b2);
}

/// Sequence concatenation reassociates.
proof fn lemma_assoc(a: Seq<u8>, b: Seq<u8>, c: Seq<u8>)
    ensures
        (a + b) + c == a + (b + c),
{
    assert((a + b) + c =~= a + (b + c));
}

/// A 32-bit prefix determines its value and the remainder.
proof fn lemma_u32_take(x1: u32, r1: Seq<u8>, x2: u32, r2: Seq<u8>)
    requires
        u32_bytes(x1) + r1 == u32_bytes(x2) + r2,
    ensures
        x1 == x2,
        r1 == r2,
{
    lemma_concat_split(u32_bytes(x1), r1, u32_bytes(x2), r2);
    lemma_u32_parts(x1);
    lemma_u32_parts(x2);
    assert(u32_bytes(x1)[0] == u32_bytes(x2)[0]);
    assert(u32_bytes(x1)[1] == u32_bytes(x2)[1]);
    assert(u32_bytes(x1)[2] == u32_bytes(x2)[2]);
    assert(u32_bytes(x1)[3] == u32_bytes(x2)[3]);
    assert(x1 % 256 == x2 % 256);
    assert((x1 / 256) % 256 == (x2 / 256) % 256);
    assert((x1 / 65536) % 256 == (x2 / 65536) % 256);
    assert((x1 / 16777216) % 256 == (x2 / 16777216) % 256);
}

/// A 64-bit prefix determines its value and the remainder.
proof fn lemma_u64_take(x1: u64, r1: Seq<u8>, x2: u64, r2: Seq<u8>)
    requires
        u64_bytes(x1) + r1 == u64_bytes(x2) + r2,
    ensures
        x1 == x2,
        r1 == r2,
{
    let lo1 = (x1 % 4294967296) as u32;
    let hi1 = (x1 / 4294967296) as u32;
    let lo2 = (x2 % 4294967296) as u32;
    let hi2 = (x2 / 4294967296) as u32;
    assert(u32_bytes(lo1) + (u32_bytes(hi1) + r1) =~= u64_bytes(x1) + r1);
    assert(u32_bytes(lo2) + (u32_bytes(hi2) + r2) =~= u64_bytes(x2) + r2);
    lemma_u32_take(lo1, u32_bytes(hi1) + r1, lo2, u32_bytes(hi2) + r2);
    lemma_u32_take(hi1, r1, hi2, r2);
    assert(x1 == 4294967296 * (x1 / 4294967296) + x1 % 4294967296);
    assert(x2 == 4294967296 * (x2 / 4294967296) + x2 % 4294967296);
}


/// A one-byte prefix determines itself and the remainder.
proof fn lemma_byte_take(x1: u8, r1: Seq<u8>, x2: u8, r2: Seq<u8>)
    requires
        seq![x1] + r1 == seq![x2] + r2,
    ensures
        x1 == x2,
        r1 == r2,
{
    lemma_concat_split(seq![x1], r1, seq![x2], r2);
    assert(seq![x1][0] == seq![x2][0]);
}

/// An optional-pid prefix determines the option and the remainder.
proof fn lemma_opt_take(p1: Option<u32>, r1: Seq<u8>, p2: Option<u32>, r2: Seq<u8>)
    requires
        opt_bytes(p1) + r1 == opt_bytes(p2) + r2,
    ensures
        p1 == p2,
        r1 == r2,
{
    match (p1, p2) {
        (Some(q1), Some(q2)) => {
            assert(seq![1u8] + (u32_bytes(q1) + r1) =~= opt_bytes(p1) + r1);
            assert(seq![1u8] + (u32_bytes(q2) + r2) =~= opt_bytes(p2) + r2);
            lemma_byte_take(1u8, u32_bytes(q1) + r1, 1u8, u32_bytes(q2) + r2);
            lemma_u32_take(q1, r1, q2, r2);
        },
        (None, None) => {
            lemma_byte_take(0u8, r1, 0u8, r2);
        },
        (Some(q1), None) => {
            assert(seq![1u8] + (u32_bytes(q1) + r1) =~= opt_bytes(p1) + r1);
            lemma_byte_take(1u8, u32_bytes(q1) + r1, 0u8, r2);
            assert(false);
        },
        (None, Some(q2)) => {
            assert(seq![1u8] + (u32_bytes(q2) + r2) =~= opt_bytes(p2) + r2);
            lemma_byte_take(0u8, r1, 1u8, u32_bytes(q2) + r2);
            assert(false);
        },
    }
}

/// An equal-length pair of 32-bit lists with equal encodings is equal.
proof fn lemma_u32_seq_take(s1: Seq<u32>, r1: Seq<u8>, s2: Seq<u32>, r2: Seq<u8>)
    requires
        s1.len() == s2.len(),
        u32_seq_bytes(s1) + r1 == u32_seq_bytes(s2) + r2,
    ensures
        s1 == s2,
        r1 == r2,
    decreases s1.len(),
{
    if s1.len() == 0 {
        assert(u32_seq_bytes(s1) + r1 =~= r1);
        assert(u32_seq_bytes(s2) + r2 =~= r2);
    } else {
        assert(u32_bytes(s1[0]) + (u32_seq_bytes(s1.drop_first()) + r1) =~= u32_seq_bytes(s1)
            + r1);
        assert(u32_bytes(s2[0]) + (u32_seq_bytes(s2.drop_first()) + r2) =~= u32_seq_bytes(s2)
            + r2);
        lemma_u32_take(s1[0], u32_seq_bytes(s1.drop_first()) + r1, s2[0], u32_seq_bytes(
            s2.drop_first(),
        ) + r2);
        lemma_u32_seq_take(s1.drop_first(), r1, s2.drop_first(), r2);
        assert forall|i: int| 0 <= i < s1.len() implies s1[i] == s2[i] by {
            if i > 0 {
                assert(s1.drop_first()[i - 1] == s1[i]);
                assert(s2.drop_first()[i - 1] == s2[i]);
            }
        }
        assert(s1 =~= s2);
    }
}

/// A registry-entry prefix determines the entry's meaning and the
/// remainder.
#[verifier::rlimit(60)]
proof fn lemma_info_take(i1: ProcessInfo, r1: Seq<u8>, i2: ProcessInfo, r2: Seq<u8>)
    requires
        info_bytes(i1) + r1 == info_bytes(i2) + r2,
    ensures
        info_model(i1) == info_model(i2),
        r1 == r2,
{
    let c1 = i1.children_processes@;
    let c2 = i2.children_processes@;
    let t1 = opt_bytes(i1.parent_pid) + (u32_bytes(i1.process_type_id) + (u64_bytes(
        c1.len() as u64,
    ) + u32_seq_bytes(c1)));
    let t2 = opt_bytes(i2.parent_pid) + (u32_bytes(i2.process_type_id) + (u64_bytes(
        c2.len() as u64,
    ) + u32_seq_bytes(c2)));
    assert(u32_bytes(i1.pid) + (t1 + r1) =~= info_bytes(i1) + r1);
    assert(u32_bytes(i2.pid) + (t2 + r2) =~= info_bytes(i2) + r2);
    lemma_u32_take(i1.pid, t1 + r1, i2.pid, t2 + r2);
    let u1 = u32_bytes(i1.process_type_id) + (u64_bytes(c1.len() as u64) + u32_seq_bytes(c1));
    let u2 = u32_bytes(i2.process_type_id) + (u64_bytes(c2.len() as u64) + u32_seq_bytes(c2));
    assert(opt_bytes(i1.parent_pid) + (u1 + r1) =~= t1 + r1);
    assert(opt_bytes(i2.parent_pid) + (u2 + r2) =~= t2 + r2);
    lemma_opt_take(i1.parent_pid, u1 + r1, i2.parent_pid, u2 + r2);
    let v1 = u64_bytes(c1.len() as u64) + u32_seq_bytes(c1);
    let v2 = u64_bytes(c2.len() as u64) + u32_seq_bytes(c2);
    assert(u32_bytes(i1.process_type_id) + (v1 + r1) =~= u1 + r1);
    assert(u32_bytes(i2.process_type_id) + (v2 + r2) =~= u2 + r2);
    lemma_u32_take(i1.process_type_id, v1 + r1, i2.process_type_id, v2 + r2);
    assert(u64_bytes(c1.len() as u64) + (u32_seq_bytes(c1) + r1) =~= v1 + r1);
    assert(u64_bytes(c2.len() as u64) + (u32_seq_bytes(c2) + r2) =~= v2 + r2);
    lemma_u64_take(c1.len() as u64, u32_seq_bytes(c1) + r1, c2.len() as u64, u32_seq_bytes(c2)
        + r2);
    vstd::std_specs::vec::axiom_spec_len(&i1.children_processes);
    vstd::std_specs::vec::axiom_spec_len(&i2.children_processes);
    lemma_u32_seq_take(c1, r1, c2, r2);
}

/// A metadata-list prefix of known entry count determines the entries'
/// meanings and the remainder.
proof fn lemma_info_list_take(
    p1: Seq<(u32, ProcessInfo)>,
    r1: Seq<u8>,
    p2: Seq<(u32, ProcessInfo)>,
    r2: Seq<u8>,
)
    requires
        p1.len() == p2.len(),
        info_list_bytes(p1) + r1 == info_list_bytes(p2) + r2,
    ensures
        forall|j: int|
            0 <= j < p1.len() ==> (#[trigger] p1[j]).0 == (#[trigger] p2[j]).0 && info_model(
                p1[j].1,
            ) == info_model(p2[j].1),
        r1 == r2,
    decreases p1.len(),
{
    if p1.len() == 0 {
        assert(info_list_bytes(p1) + r1 =~= r1);
        assert(info_list_bytes(p2) + r2 =~= r2);
    } else {
        let b1 = info_bytes(p1[0].1);
        let b2 = info_bytes(p2[0].1);
        let c1 = info_list_bytes(p1.drop_first());
        let c2 = info_list_bytes(p2.drop_first());
        assert(info_list_bytes(p1) == u32_bytes(p1[0].0) + (b1 + c1));
        assert(info_list_bytes(p2) == u32_bytes(p2[0].0) + (b2 + c2));
        lemma_assoc(u32_bytes(p1[0].0), b1 + c1, r1);
        lemma_assoc(u32_bytes(p2[0].0), b2 + c2, r2);
        lemma_assoc(b1, c1, r1);
        lemma_assoc(b2, c2, r2);
        lemma_u32_take(p1[0].0, b1 + (c1 + r1), p2[0].0, b2 + (c2 + r2));
        lemma_info_take(p1[0].1, c1 + r1, p2[0].1, c2 + r2);
        lemma_info_list_take(p1.drop_first(), r1, p2.drop_first(), r2);
        assert forall|j: int|
            0 <= j < p1.len() implies (#[trigger] p1[j]).0 == (#[trigger] p2[j]).0 && info_model(
            p1[j].1,
        ) == info_model(p2[j].1) by {
            if j > 0 {
                assert(p1.drop_first()[j - 1] == p1[j]);
                assert(p2.drop_first()[j - 1] == p2[j]);
            }
        }
    }
}

/// A payload-list prefix of known entry count determines the entries'
/// meanings and the remainder.
#[verifier::rlimit(60)]
proof fn lemma_payload_list_take(
    p1: Seq<(u32, SerializedProcess)>,
    r1: Seq<u8>,
    p2: Seq<(u32, SerializedProcess)>,
    r2: Seq<u8>,
)
    requires
        p1.len() == p2.len(),
        payload_list_bytes(p1) + r1 == payload_list_bytes(p2) + r2,
    ensures
        forall|j: int|
            0 <= j < p1.len() ==> (#[trigger] p1[j]).0 == (#[trigger] p2[j]).0 && payload_model(
                p1[j].1,
            ) == payload_model(p2[j].1),
        r1 == r2,
    decreases p1.len(),
{
    if p1.len() == 0 {
        assert(payload_list_bytes(p1) + r1 =~= r1);
        assert(payload_list_bytes(p2) + r2 =~= r2);
    } else {
        let sp1 = p1[0].1;
        let sp2 = p2[0].1;
        let t1 = u32_bytes(sp1.tag()) + (u64_bytes(sp1.image().len() as u64) + sp1.image());
        let t2 = u32_bytes(sp2.tag()) + (u64_bytes(sp2.image().len() as u64) + sp2.image());
        let m1 = payload_list_bytes(p1.drop_first());
        let m2 = payload_list_bytes(p2.drop_first());
        assert(u32_bytes(p1[0].0) + ((t1 + m1) + r1) =~= payload_list_bytes(p1) + r1);
        assert(u32_bytes(p2[0].0) + ((t2 + m2) + r2) =~= payload_list_bytes(p2) + r2);
        lemma_u32_take(p1[0].0, (t1 + m1) + r1, p2[0].0, (t2 + m2) + r2);
        assert(u32_bytes(sp1.tag()) + ((u64_bytes(sp1.image().len() as u64) + sp1.image()) + (m1
            + r1)) =~= (t1 + m1) + r1);
        assert(u32_bytes(sp2.tag()) + ((u64_bytes(sp2.image().len() as u64) + sp2.image()) + (m2
            + r2)) =~= (t2 + m2) + r2);
        lemma_u32_take(
            sp1.tag(),
            (u64_bytes(sp1.image().len() as u64) + sp1.image()) + (m1 + r1),
            sp2.tag(),
            (u64_bytes(sp2.image().len() as u64) + sp2.image()) + (m2 + r2),
        );
        assert(u64_bytes(sp1.image().len() as u64) + (sp1.image() + (m1 + r1)) =~= (u64_bytes(
            sp1.image().len() as u64,
        ) + sp1.image()) + (m1 + r1));
        assert(u64_bytes(sp2.image().len() as u64) + (sp2.image() + (m2 + r2)) =~= (u64_bytes(
            sp2.image().len() as u64,
        ) + sp2.image()) + (m2 + r2));
        lemma_u64_take(
            sp1.image().len() as u64,
            sp1.image() + (m1 + r1),
            sp2.image().len() as u64,
            sp2.image() + (m2 + r2),
        );
        crate::process::lemma_serialized_image_bound(sp1);
        crate::process::lemma_serialized_image_bound(sp2);
        lemma_concat_split(sp1.image(), m1 + r1, sp2.image(), m2 + r2);
        lemma_payload_list_take(p1.drop_first(), r1, p2.drop_first(), r2);
        assert forall|j: int|
            0 <= j < p1.len() implies (#[trigger] p1[j]).0 == (#[trigger] p2[j]).0
            && payload_model(p1[j].1) == payload_model(p2[j].1) by {
            if j > 0 {
                assert(p1.drop_first()[j - 1] == p1[j]);
                assert(p2.drop_first()[j - 1] == p2[j]);
            }
        }
    }
}

/// A wake-list prefix of known entry count determines the entries and the
/// remainder.
proof fn lemma_wake_list_take(
    w1: Seq<(u32, u32)>,
    r1: Seq<u8>,
    w2: Seq<(u32, u32)>,
    r2: Seq<u8>,
)
    requires
        w1.len() == w2.len(),
        wake_list_bytes(w1) + r1 == wake_list_bytes(w2) + r2,
    ensures
        w1 == w2,
        r1 == r2,
    decreases w1.len(),
{
    if w1.len() == 0 {
        assert(wake_list_bytes(w1) + r1 =~= r1);
        assert(wake_list_bytes(w2) + r2 =~= r2);
    } else {
        assert(u32_bytes(w1[0].0) + (u32_bytes(w1[0].1) + (wake_list_bytes(w1.drop_first())
            + r1)) =~= wake_list_bytes(w1) + r1);
        assert(u32_bytes(w2[0].0) + (u32_bytes(w2[0].1) + (wake_list_bytes(w2.drop_first())
            + r2)) =~= wake_list_bytes(w2) + r2);
        lemma_u32_take(
            w1[0].0,
            u32_bytes(w1[0].1) + (wake_list_bytes(w1.drop_first()) + r1),
            w2[0].0,
            u32_bytes(w2[0].1) + (wake_list_bytes(w2.drop_first()) + r2),
        );
        lemma_u32_take(
            w1[0].1,
            wake_list_bytes(w1.drop_first()) + r1,
            w2[0].1,
            wake_list_bytes(w2.drop_first()) + r2,
        );
        lemma_wake_list_take(w1.drop_first(), r1, w2.drop_first(), r2);
        assert forall|i: int| 0 <= i < w1.len() implies w1[i] == w2[i] by {
            if i > 0 {
                assert(w1.drop_first()[i - 1] == w1[i]);
                assert(w2.drop_first()[i - 1] == w2[i]);
            }
        }
        assert(w1 =~= w2);
    }
}

/// A task-code-list prefix of known entry count determines the codes and
/// the remainder.
proof fn lemma_code_list_take(
    c1: Seq<(u8, u32)>,
    r1: Seq<u8>,
    c2: Seq<(u8, u32)>,
    r2: Seq<u8>,
)
    requires
        c1.len() == c2.len(),
        code_list_bytes(c1) + r1 == code_list_bytes(c2) + r2,
    ensures
        c1 == c2,
        r1 == r2,
    decreases c1.len(),
{
    if c1.len() == 0 {
        assert(code_list_bytes(c1) + r1 =~= r1);
        assert(code_list_bytes(c2) + r2 =~= r2);
    } else {
        assert(seq![c1[0].0] + (u32_bytes(c1[0].1) + (code_list_bytes(c1.drop_first()) + r1))
            =~= code_list_bytes(c1) + r1);
        assert(seq![c2[0].0] + (u32_bytes(c2[0].1) + (code_list_bytes(c2.drop_first()) + r2))
            =~= code_list_bytes(c2) + r2);
        lemma_byte_take(
            c1[0].0,
            u32_bytes(c1[0].1) + (code_list_bytes(c1.drop_first()) + r1),
            c2[0].0,
            u32_bytes(c2[0].1) + (code_list_bytes(c2.drop_first()) + r2),
        );
        lemma_u32_take(
            c1[0].1,
            code_list_bytes(c1.drop_first()) + r1,
            c2[0].1,
            code_list_bytes(c2.drop_first()) + r2,
        );
        lemma_code_list_take(c1.drop_first(), r1, c2.drop_first(), r2);
        assert forall|i: int| 0 <= i < c1.len() implies c1[i] == c2[i] by {
            if i > 0 {
                assert(c1.drop_first()[i - 1] == c1[i]);
                assert(c2.drop_first()[i - 1] == c2[i]);
            }
        }
        assert(c1 =~= c2);
    }
}

/// The blob encoding is injective up to snapshot meaning: two snapshots
/// with the same blob agree on everything a restore reads.
pub proof fn lemma_encode_injective(s1: Snapshot, s2: Snapshot)
    requires
        spec_encode(s1) == spec_encode(s2),
    ensures
        snap_equiv(s1, s2),
{
    crate::snapshot::snapshot_view_facts(s1);
    crate::snapshot::snapshot_view_facts(s2);
    vstd::std_specs::vec::axiom_spec_len(&s1.info_list);
    vstd::std_specs::vec::axiom_spec_len(&s2.info_list);
    vstd::std_specs::vec::axiom_spec_len(&s1.payload_list);
    vstd::std_specs::vec::axiom_spec_len(&s2.payload_list);
    vstd::std_specs::vec::axiom_spec_len(&s1.wake_list);
    vstd::std_specs::vec::axiom_spec_len(&s2.wake_list);
    vstd::std_specs::vec::axiom_spec_len(&s1.queue_codes);
    vstd::std_specs::vec::axiom_spec_len(&s2.queue_codes);
    vstd::std_specs::vec::axiom_spec_len(&s1.deferred_codes);
    vstd::std_specs::vec::axiom_spec_len(&s2.deferred_codes);
    let e = Seq::<u8>::empty();
    assert(spec_encode(s1) + e =~= spec_encode(s1));
    assert(spec_encode(s2) + e =~= spec_encode(s2));
    let t1 = tail_after_next(s1);
    let t2 = tail_after_next(s2);
    assert(u32_bytes(s1.next_pid()) + t1 =~= spec_encode(s1) + e);
    assert(u32_bytes(s2.next_pid()) + t2 =~= spec_encode(s2) + e);
    lemma_u32_take(s1.next_pid(), t1, s2.next_pid(), t2);
    let v1 = tail_after_tick(s1);
    let v2 = tail_after_tick(s2);
    assert(u32_bytes(s1.tick()) + v1 =~= t1);
    assert(u32_bytes(s2.tick()) + v2 =~= t2);
    lemma_u32_take(s1.tick(), v1, s2.tick(), v2);
    let w1 = info_list_bytes(s1.info_pairs()) + tail_after_infos(s1);
    let w2 = info_list_bytes(s2.info_pairs()) + tail_after_infos(s2);
    assert(u64_bytes(s1.info_pairs().len() as u64) + w1 =~= v1);
    assert(u64_bytes(s2.info_pairs().len() as u64) + w2 =~= v2);
    lemma_u64_take(
        s1.info_pairs().len() as u64,
        w1,
        s2.info_pairs().len() as u64,
        w2,
    );
    assert(s1.info_pairs().len() == s2.info_pairs().len());
    lemma_info_list_take(
        s1.info_pairs(),
        tail_after_infos(s1),
        s2.info_pairs(),
        tail_after_infos(s2),
    );
    let x1 = payload_list_bytes(s1.payload_pairs()) + tail_after_payloads(s1);
    let x2 = payload_list_bytes(s2.payload_pairs()) + tail_after_payloads(s2);
    assert(u64_bytes(s1.payload_pairs().len() as u64) + x1 =~= tail_after_infos(s1));
    assert(u64_bytes(s2.payload_pairs().len() as u64) + x2 =~= tail_after_infos(s2));
    lemma_u64_take(
        s1.payload_pairs().len() as u64,
        x1,
        s2.payload_pairs().len() as u64,
        x2,
    );
    assert(s1.payload_pairs().len() == s2.payload_pairs().len());
    lemma_payload_list_take(
        s1.payload_pairs(),
        tail_after_payloads(s1),
        s2.payload_pairs(),
        tail_after_payloads(s2),
    );
    let y1 = wake_list_bytes(s1.wake()) + tail_after_wake(s1);
    let y2 = wake_list_bytes(s2.wake()) + tail_after_wake(s2);
    assert(u64_bytes(s1.wake().len() as u64) + y1 =~= tail_after_payloads(s1));
    assert(u64_bytes(s2.wake().len() as u64) + y2 =~= tail_after_payloads(s2));
    lemma_u64_take(s1.wake().len() as u64, y1, s2.wake().len() as u64, y2);
    lemma_wake_list_take(s1.wake(), tail_after_wake(s1), s2.wake(), tail_after_wake(s2));
    let z1 = code_list_bytes(s1.queue()) + tail_after_queue(s1);
    let z2 = code_list_bytes(s2.queue()) + tail_after_queue(s2);
    assert(u64_bytes(s1.queue().len() as u64) + z1 =~= tail_after_wake(s1));
    assert(u64_bytes(s2.queue().len() as u64) + z2 =~= tail_after_wake(s2));
    lemma_u64_take(s1.queue().len() as u64, z1, s2.queue().len() as u64, z2);
    lemma_code_list_take(s1.queue(), tail_after_queue(s1), s2.queue(), tail_after_queue(s2));
    assert(u64_bytes(s1.deferred().len() as u64) + code_list_bytes(s1.deferred())
        =~= tail_after_queue(s1));
    assert(u64_bytes(s2.deferred().len() as u64) + code_list_bytes(s2.deferred())
        =~= tail_after_queue(s2));
    assert(u64_bytes(s1.deferred().len() as u64) + (code_list_bytes(s1.deferred()) + e)
        =~= tail_after_queue(s1));
    assert(u64_bytes(s2.deferred().len() as u64) + (code_list_bytes(s2.deferred()) + e)
        =~= tail_after_queue(s2));
    lemma_u64_take(
        s1.deferred().len() as u64,
        code_list_bytes(s1.deferred()) + e,
        s2.deferred().len() as u64,
        code_list_bytes(s2.deferred()) + e,
    );
    lemma_code_list_take(s1.deferred(), e, s2.deferred(), e);
}

/// The blob after the next-pid counter.
spec fn tail_after_next(s: Snapshot) -> Seq<u8> {
    u32_bytes(s.tick()) + tail_after_tick(s)
}

/// The blob after the tick counter.
spec fn tail_after_tick(s: Snapshot) -> Seq<u8> {
    u64_bytes(s.info_pairs().len() as u64) + (info_list_bytes(s.info_pairs())
        + tail_after_infos(s))
}

/// The blob after the metadata entries.
spec fn tail_after_infos(s: Snapshot) -> Seq<u8> {
    u64_bytes(s.payload_pairs().len() as u64) + (payload_list_bytes(s.payload_pairs())
        + tail_after_payloads(s))
}

/// The blob after the payload entries.
spec fn tail_after_payloads(s: Snapshot) -> Seq<u8> {
    u64_bytes(s.wake().len() as u64) + (wake_list_bytes(s.wake()) + tail_after_wake(s))
}

/// The blob after the wake index.
spec fn tail_after_wake(s: Snapshot) -> Seq<u8> {
    u64_bytes(s.queue().len() as u64) + (code_list_bytes(s.queue()) + tail_after_queue(s))
}

/// The blob after the current-tick queue.
spec fn tail_after_queue(s: Snapshot) -> Seq<u8> {
    u64_bytes(s.deferred().len() as u64) + code_list_bytes(s.deferred())
}


/// Appending one value extends the encoded list at its end.
proof fn lemma_u32_seq_bytes_push(values: Seq<u32>, v: u32)
    ensures
        u32_seq_bytes(values.push(v)) == u32_seq_bytes(values) + u32_bytes(v),
    decreases values.len(),
{
    if values.len() == 0 {
        assert(values.push(v).drop_first() =~= values);
        assert(u32_seq_bytes(values.push(v)) =~= u32_seq_bytes(values) + u32_bytes(v));
    } else {
        assert(values.push(v).drop_first() =~= values.drop_first().push(v));
        lemma_u32_seq_bytes_push(values.drop_first(), v);
        assert(u32_seq_bytes(values.push(v)) =~= u32_seq_bytes(values) + u32_bytes(v));
    }
}

/// Appending one entry extends the encoded metadata list at its end.
proof fn lemma_info_list_bytes_push(pairs: Seq<(u32, ProcessInfo)>, e: (u32, ProcessInfo))
    ensures
        info_list_bytes(pairs.push(e)) == info_list_bytes(pairs) + (u32_bytes(e.0) + info_bytes(
            e.1,
        )),
    decreases pairs.len(),
{
    if pairs.len() == 0 {
        assert(pairs.push(e).drop_first() =~= pairs);
        assert(info_list_bytes(pairs.push(e)) =~= info_list_bytes(pairs) + (u32_bytes(e.0)
            + info_bytes(e.1)));
    } else {
        assert(pairs.push(e).drop_first() =~= pairs.drop_first().push(e));
        lemma_info_list_bytes_push(pairs.drop_first(), e);
        assert(info_list_bytes(pairs.push(e)) =~= info_list_bytes(pairs) + (u32_bytes(e.0)
            + info_bytes(e.1)));
    }
}

/// Appending one entry extends the encoded payload list at its end.
proof fn lemma_payload_list_bytes_push(
    pairs: Seq<(u32, SerializedProcess)>,
    e: (u32, SerializedProcess),
)
    ensures
        payload_list_bytes(pairs.push(e)) == payload_list_bytes(pairs) + payload_bytes(e.0, e.1),
    decreases pairs.len(),
{
    if pairs.len() == 0 {
        assert(pairs.push(e).drop_first() =~= pairs);
        assert(payload_list_bytes(pairs.push(e)) =~= payload_list_bytes(pairs) + payload_bytes(
            e.0,
            e.1,
        ));
    } else {
        assert(pairs.push(e).drop_first() =~= pairs.drop_first().push(e));
        lemma_payload_list_bytes_push(pairs.drop_first(), e);
        assert(payload_list_bytes(pairs.push(e)) =~= payload_list_bytes(pairs) + payload_bytes(
            e.0,
            e.1,
        ));
    }
}

/// Appending one entry extends the encoded wake index at its end.
proof fn lemma_wake_list_bytes_push(wake: Seq<(u32, u32)>, e: (u32, u32))
    ensures
        wake_list_bytes(wake.push(e)) == wake_list_bytes(wake) + (u32_bytes(e.0) + u32_bytes(
            e.1,
        )),
    decreases wake.len(),
{
    if wake.len() == 0 {
        assert(wake.push(e).drop_first() =~= wake);
        assert(wake_list_bytes(wake.push(e)) =~= wake_list_bytes(wake) + (u32_bytes(e.0)
            + u32_bytes(e.1)));
    } else {
        assert(wake.push(e).drop_first() =~= wake.drop_first().push(e));
        lemma_wake_list_bytes_push(wake.drop_first(), e);
        assert(wake_list_bytes(wake.push(e)) =~= wake_list_bytes(wake) + (u32_bytes(e.0)
            + u32_bytes(e.1)));
    }
}

/// Appending one code extends the encoded task queue at its end.
proof fn lemma_code_list_bytes_push(codes: Seq<(u8, u32)>, e: (u8, u32))
    ensures
        code_list_bytes(codes.push(e)) == code_list_bytes(codes) + (seq![e.0] + u32_bytes(e.1)),
    decreases codes.len(),
{
    if codes.len() == 0 {
        assert(codes.push(e).drop_first() =~= codes);
        assert(code_list_bytes(codes.push(e)) =~= code_list_bytes(codes) + (seq![e.0]
            + u32_bytes(e.1)));
    } else {
        assert(codes.push(e).drop_first() =~= codes.drop_first().push(e));
        lemma_code_list_bytes_push(codes.drop_first(), e);
        assert(code_list_bytes(codes.push(e)) =~= code_list_bytes(codes) + (seq![e.0]
            + u32_bytes(e.1)));
    }
}

/// Append a 32-bit value, least significant byte first.
fn push_u32(out: &mut Vec<u8>, x: u32)
    ensures
        final(out)@ == old(out)@ + u32_bytes(x),
{
    out.push((x % 256) as u8);
    out.push(((x / 256) % 256) as u8);
    out.push(((x / 65536) % 256) as u8);
    out.push(((x / 16777216) % 256) as u8);
    proof {
        assert(out@ =~= old(out)@ + u32_bytes(x));
    }
}

/// Append a 64-bit value, least significant byte first.
fn push_u64(out: &mut Vec<u8>, x: u64)
    ensures
        final(out)@ == old(out)@ + u64_bytes(x),
{
    push_u32(out, (x % 4294967296) as u32);
    push_u32(out, (x / 4294967296) as u32);
    proof {
        assert(out@ =~= old(out)@ + u64_bytes(x));
    }
}

/// Append an optional pid: a presence byte, then the pid if present.
fn push_opt(out: &mut Vec<u8>, p: Option<u32>)
    ensures
        final(out)@ == old(out)@ + opt_bytes(p),
{
    match p {
        Some(q) => {
            out.push(1u8);
            push_u32(out, q);
            proof {
                assert(out@ =~= old(out)@ + opt_bytes(p));
            }
        },
        None => {
            out.push(0u8);
            proof {
                assert(out@ =~= old(out)@ + opt_bytes(p));
            }
        },
    }
}

/// Append a raw byte run.
fn push_raw(out: &mut Vec<u8>, bytes: &Vec<u8>)
    ensures
        final(out)@ == old(out)@ + bytes@,
{
    let mut i: usize = 0;
    while i < bytes.len()
        invariant
            0 <= i <= bytes@.len(),
            out@ == old(out)@ + bytes@.subrange(0, i as int),
        decreases bytes@.len() - i,
    {
        out.push(bytes[i]);
        proof {
            assert(out@ =~= old(out)@ + bytes@.subrange(0, i as int + 1));
        }
        i = i + 1;
    }
    proof {
        assert(bytes@.subrange(0, bytes@.len() as int) =~= bytes@);
    }
}

/// Append one registry entry.
fn push_info(out: &mut Vec<u8>, info: &ProcessInfo)
    ensures
        final(out)@ == old(out)@ + info_bytes(*info),
{
    push_u32(out, info.pid);
    push_opt(out, info.parent_pid);
    push_u32(out, info.process_type_id);
    push_u64(out, info.children_processes.len() as u64);
    let ghost children = info.children_processes@;
    let ghost base = out@;
    let mut i: usize = 0;
    while i < info.children_processes.len()
        invariant
            0 <= i <= children.len(),
            info.children_processes@ == children,
            out@ == base + u32_seq_bytes(children.subrange(0, i as int)),
        decreases children.len() - i,
    {
        push_u32(out, info.children_processes[i]);
        proof {
            assert(children.subrange(0, i as int + 1) =~= children.subrange(0, i as int).push(
                children[i as int],
            ));
            lemma_u32_seq_bytes_push(children.subrange(0, i as int), children[i as int]);
            assert(out@ =~= base + u32_seq_bytes(children.subrange(0, i as int + 1)));
        }
        i = i + 1;
    }
    proof {
        assert(children.subrange(0, children.len() as int) =~= children);
        assert(out@ =~= old(out)@ + info_bytes(*info));
    }
}

/// Append the counted metadata list.
fn push_info_list(out: &mut Vec<u8>, pairs: &Vec<(u32, ProcessInfo)>)
    ensures
        final(out)@ == old(out)@ + (u64_bytes(pairs@.len() as u64) + info_list_bytes(pairs@)),
{
    push_u64(out, pairs.len() as u64);
    let ghost info_pairs = pairs@;
    let ghost base = out@;
    let mut i: usize = 0;
    while i < pairs.len()
        invariant
            0 <= i <= info_pairs.len(),
            pairs@ == info_pairs,
            out@ == base + info_list_bytes(info_pairs.subrange(0, i as int)),
        decreases info_pairs.len() - i,
    {
        let pair = &pairs[i];
        push_u32(out, pair.0);
        push_info(out, &pair.1);
        proof {
            assert(info_pairs.subrange(0, i as int + 1) =~= info_pairs.subrange(0, i as int).push(
                info_pairs[i as int],
            ));
            lemma_info_list_bytes_push(info_pairs.subrange(0, i as int), info_pairs[i as int]);
            assert(out@ =~= base + info_list_bytes(info_pairs.subrange(0, i as int + 1)));
        }
        i = i + 1;
    }
    proof {
        assert(info_pairs.subrange(0, info_pairs.len() as int) =~= info_pairs);
        assert(out@ =~= old(out)@ + (u64_bytes(pairs@.len() as u64) + info_list_bytes(pairs@)));
    }
}

/// Append the counted payload list.
fn push_payload_list(out: &mut Vec<u8>, pairs: &Vec<(u32, SerializedProcess)>)
    ensures
        final(out)@ == old(out)@ + (u64_bytes(pairs@.len() as u64) + payload_list_bytes(pairs@)),
{
    push_u64(out, pairs.len() as u64);
    let ghost payload_pairs = pairs@;
    let ghost base = out@;
    let mut j: usize = 0;
    while j < pairs.len()
        invariant
            0 <= j <= payload_pairs.len(),
            pairs@ == payload_pairs,
            out@ == base + payload_list_bytes(payload_pairs.subrange(0, j as int)),
        decreases payload_pairs.len() - j,
    {
        let pair = &pairs[j];
        push_u32(out, pair.0);
        push_u32(out, pair.1.type_id());
        push_u64(out, pair.1.bytes().len() as u64);
        push_raw(out, pair.1.bytes());
        proof {
            assert(payload_pairs.subrange(0, j as int + 1) =~= payload_pairs.subrange(
                0,
                j as int,
            ).push(payload_pairs[j as int]));
            lemma_payload_list_bytes_push(
                payload_pairs.subrange(0, j as int),
                payload_pairs[j as int],
            );
            assert(out@ =~= base + payload_list_bytes(payload_pairs.subrange(0, j as int + 1)));
        }
        j = j + 1;
    }
    proof {
        assert(payload_pairs.subrange(0, payload_pairs.len() as int) =~= payload_pairs);
        assert(out@ =~= old(out)@ + (u64_bytes(pairs@.len() as u64) + payload_list_bytes(
            pairs@,
        )));
    }
}

/// Append the counted wake index.
fn push_wake_list(out: &mut Vec<u8>, wake: &Vec<(u32, u32)>)
    ensures
        final(out)@ == old(out)@ + (u64_bytes(wake@.len() as u64) + wake_list_bytes(wake@)),
{
    push_u64(out, wake.len() as u64);
    let ghost wake_pairs = wake@;
    let ghost base = out@;
    let mut w: usize = 0;
    while w < wake.len()
        invariant
            0 <= w <= wake_pairs.len(),
            wake@ == wake_pairs,
            out@ == base + wake_list_bytes(wake_pairs.subrange(0, w as int)),
        decreases wake_pairs.len() - w,
    {
        let entry = wake[w];
        push_u32(out, entry.0);
        push_u32(out, entry.1);
        proof {
            assert(wake_pairs.subrange(0, w as int + 1) =~= wake_pairs.subrange(0, w as int).push(
                wake_pairs[w as int],
            ));
            lemma_wake_list_bytes_push(wake_pairs.subrange(0, w as int), wake_pairs[w as int]);
            assert(out@ =~= base + wake_list_bytes(wake_pairs.subrange(0, w as int + 1)));
        }
        w = w + 1;
    }
    proof {
        assert(wake_pairs.subrange(0, wake_pairs.len() as int) =~= wake_pairs);
        assert(out@ =~= old(out)@ + (u64_bytes(wake@.len() as u64) + wake_list_bytes(wake@)));
    }
}

impl Snapshot {
    /// The snapshot as one opaque byte blob, fit for the host to store
    /// between ticks.
    pub fn to_bytes(&self) -> (out: Vec<u8>)
        ensures
            out@ == spec_encode(*self),
    {
        proof {
            crate::snapshot::snapshot_view_facts(*self);
        }
        let mut out: Vec<u8> = Vec::new();
        push_u32(&mut out, self.next_pid_number);
        push_u32(&mut out, self.current_tick);
        push_info_list(&mut out, &self.info_list);
        push_payload_list(&mut out, &self.payload_list);
        push_wake_list(&mut out, &self.wake_list);
        push_codes(&mut out, &self.queue_codes);
        push_codes(&mut out, &self.deferred_codes);
        proof {
            let a = u32_bytes(self.next_pid());
            let b = u32_bytes(self.tick());
            let c = u64_bytes(self.info_pairs().len() as u64) + info_list_bytes(
                self.info_pairs(),
            );
            let d = u64_bytes(self.payload_pairs().len() as u64) + payload_list_bytes(
                self.payload_pairs(),
            );
            let e = u64_bytes(self.wake().len() as u64) + wake_list_bytes(self.wake());
            let f = u64_bytes(self.queue().len() as u64) + code_list_bytes(self.queue());
            let g = u64_bytes(self.deferred().len() as u64) + code_list_bytes(self.deferred());
            assert(Seq::<u8>::empty() + a =~= a);
            assert(out@ == (((((a + b) + c) + d) + e) + f) + g);
            lemma_assoc((((a + b) + c) + d) + e, f, g);
            lemma_assoc(((a + b) + c) + d, e, f + g);
            lemma_assoc((a + b) + c, d, e + (f + g));
            lemma_assoc(a + b, c, d + (e + (f + g)));
            lemma_assoc(a, b, c + (d + (e + (f + g))));
            let tail_g = g;
            let tail_f = f + tail_g;
            lemma_assoc(
                u64_bytes(self.queue().len() as u64),
                code_list_bytes(self.queue()),
                tail_g,
            );
            let tail_e = e + tail_f;
            lemma_assoc(
                u64_bytes(self.wake().len() as u64),
                wake_list_bytes(self.wake()),
                tail_f,
            );
            let tail_d = d + tail_e;
            lemma_assoc(
                u64_bytes(self.payload_pairs().len() as u64),
                payload_list_bytes(self.payload_pairs()),
                tail_e,
            );
            let tail_c = c + tail_d;
            lemma_assoc(
                u64_bytes(self.info_pairs().len() as u64),
                info_list_bytes(self.info_pairs()),
                tail_d,
            );
            assert(out@ == a + (b + tail_c));
            assert(spec_encode(*self) == a + (b + tail_c));
        }
        out
    }
}

/// Append a counted task-code list.
fn push_codes(out: &mut Vec<u8>, codes: &Vec<(u8, u32)>)
    ensures
        final(out)@ == old(out)@ + (u64_bytes(codes@.len() as u64) + code_list_bytes(codes@)),
{
    push_u64(out, codes.len() as u64);
    let ghost code_pairs = codes@;
    let ghost base = out@;
    let mut i: usize = 0;
    while i < codes.len()
        invariant
            0 <= i <= code_pairs.len(),
            codes@ == code_pairs,
            out@ == base + code_list_bytes(code_pairs.subrange(0, i as int)),
        decreases code_pairs.len() - i,
    {
        let entry = codes[i];
        out.push(entry.0);
        push_u32(out, entry.1);
        proof {
            assert(code_pairs.subrange(0, i as int + 1) =~= code_pairs.subrange(0, i as int).push(
                code_pairs[i as int],
            ));
            lemma_code_list_bytes_push(code_pairs.subrange(0, i as int), code_pairs[i as int]);
            assert(out@ =~= base + code_list_bytes(code_pairs.subrange(0, i as int + 1)));
        }
        i = i + 1;
    }
    proof {
        assert(code_pairs.subrange(0, code_pairs.len() as int) =~= code_pairs);
        assert(out@ =~= old(out)@ + (u64_bytes(codes@.len() as u64) + code_list_bytes(codes@)));
    }
}


/// Consuming a known prefix of the remaining blob leaves exactly the
/// advertised remainder.
proof fn lemma_suffix_advance(s: Seq<u8>, pos: int, head: Seq<u8>, rest: Seq<u8>)
    requires
        0 <= pos <= s.len(),
        s.subrange(pos, s.len() as int) == head + rest,
    ensures
        pos + head.len() <= s.len(),
        s.subrange(pos + head.len(), s.len() as int) == rest,
{
    let sub = s.subrange(pos, s.len() as int);
    assert((head + rest).len() == head.len() + rest.len());
    assert(sub.len() == head.len() + rest.len());
    assert forall|k: int|
        0 <= k < rest.len() implies s.subrange(pos + head.len(), s.len() as int)[k]
        == rest[k] by {
        assert(sub[head.len() + k] == (head + rest)[head.len() + k]);
        assert(s.subrange(pos + head.len(), s.len() as int)[k] == s[pos + head.len() + k]);
        assert(sub[head.len() + k] == s[pos + head.len() + k]);
    }
    assert(s.subrange(pos + head.len(), s.len() as int) =~= rest);
}

/// Take a 32-bit value off the front of the remaining blob.
fn take_u32(bytes: &Vec<u8>, pos: usize, Ghost(x): Ghost<u32>, Ghost(rest): Ghost<Seq<u8>>) -> (r:
    (u32, usize))
    requires
        pos <= bytes@.len(),
        bytes@.subrange(pos as int, bytes@.len() as int) == u32_bytes(x) + rest,
    ensures
        r.0 == x,
        r.1 == pos + 4,
        r.1 <= bytes@.len(),
        bytes@.subrange(r.1 as int, bytes@.len() as int) == rest,
{
    proof {
        vstd::std_specs::vec::axiom_spec_len(bytes);
        assert((u32_bytes(x) + rest).len() == u32_bytes(x).len() + rest.len());
        assert(u32_bytes(x).len() == 4);
        assert(bytes@.subrange(pos as int, bytes@.len() as int).len() == bytes@.len() - pos);
        assert(bytes@.len() - pos == 4 + rest.len());
        lemma_u32_parts(x);
        assert(bytes@[pos as int] == (u32_bytes(x) + rest)[0]);
        assert(bytes@[pos as int + 1] == (u32_bytes(x) + rest)[1]);
        assert(bytes@[pos as int + 2] == (u32_bytes(x) + rest)[2]);
        assert(bytes@[pos as int + 3] == (u32_bytes(x) + rest)[3]);
    }
    let b0 = bytes[pos] as u32;
    let b1 = bytes[pos + 1] as u32;
    let b2 = bytes[pos + 2] as u32;
    let b3 = bytes[pos + 3] as u32;
    let value = b0 + b1 * 256 + b2 * 65536 + b3 * 16777216;
    proof {
        assert(value == x);
        lemma_suffix_advance(bytes@, pos as int, u32_bytes(x), rest);
    }
    (value, pos + 4)
}

/// Take a 64-bit value off the front of the remaining blob.
fn take_u64(bytes: &Vec<u8>, pos: usize, Ghost(x): Ghost<u64>, Ghost(rest): Ghost<Seq<u8>>) -> (r:
    (u64, usize))
    requires
        pos <= bytes@.len(),
        bytes@.subrange(pos as int, bytes@.len() as int) == u64_bytes(x) + rest,
    ensures
        r.0 == x,
        r.1 == pos + 8,
        r.1 <= bytes@.len(),
        bytes@.subrange(r.1 as int, bytes@.len() as int) == rest,
{
    let ghost lo = (x % 4294967296) as u32;
    let ghost hi = (x / 4294967296) as u32;
    proof {
        lemma_assoc(u32_bytes(lo), u32_bytes(hi), rest);
    }
    let (lo_v, pos1) = take_u32(bytes, pos, Ghost(lo), Ghost(u32_bytes(hi) + rest));
    let (hi_v, pos2) = take_u32(bytes, pos1, Ghost(hi), Ghost(rest));
    let value = lo_v as u64 + (hi_v as u64) * 4294967296;
    proof {
        assert(x == 4294967296 * (x / 4294967296) + x % 4294967296);
        assert(value == x);
    }
    (value, pos2)
}

/// Take an optional pid off the front of the remaining blob.
fn take_opt(bytes: &Vec<u8>, pos: usize, Ghost(p): Ghost<Option<u32>>, Ghost(rest): Ghost<Seq<u8>>)
    -> (r: (Option<u32>, usize))
    requires
        pos <= bytes@.len(),
        bytes@.subrange(pos as int, bytes@.len() as int) == opt_bytes(p) + rest,
    ensures
        r.0 == p,
        r.1 <= bytes@.len(),
        bytes@.subrange(r.1 as int, bytes@.len() as int) == rest,
{
    proof {
        vstd::std_specs::vec::axiom_spec_len(bytes);
        match p {
            Some(q) => {
                assert(opt_bytes(p) == seq![1u8] + u32_bytes(q));
                assert(opt_bytes(p).len() == 5);
            },
            None => {
                assert(opt_bytes(p) == seq![0u8]);
                assert(opt_bytes(p).len() == 1);
            },
        }
        assert((opt_bytes(p) + rest).len() == opt_bytes(p).len() + rest.len());
        assert(bytes@.subrange(pos as int, bytes@.len() as int).len() == bytes@.len() - pos);
        assert(bytes@[pos as int] == (opt_bytes(p) + rest)[0]);
    }
    let tag = bytes[pos];
    if tag == 0 {
        proof {
            assert(p is None);
            lemma_suffix_advance(bytes@, pos as int, seq![0u8], rest);
        }
        (None, pos + 1)
    } else {
        let ghost q = p->0;
        proof {
            assert(p is Some);
            lemma_assoc(seq![1u8], u32_bytes(q), rest);
            assert(seq![1u8] + (u32_bytes(q) + rest) == opt_bytes(p) + rest);
            lemma_suffix_advance(bytes@, pos as int, seq![1u8], u32_bytes(q) + rest);
        }
        let (value, pos1) = take_u32(bytes, pos + 1, Ghost(q), Ghost(rest));
        (Some(value), pos1)
    }
}

/// Take a counted list of 32-bit values off the front of the remaining
/// blob.
#[verifier::loop_isolation(false)]
fn take_u32_vec(
    bytes: &Vec<u8>,
    pos: usize,
    Ghost(values): Ghost<Seq<u32>>,
    Ghost(rest): Ghost<Seq<u8>>,
) -> (r: (Vec<u32>, usize))
    requires
        pos <= bytes@.len(),
        values.len() <= usize::MAX,
        bytes@.subrange(pos as int, bytes@.len() as int) == u64_bytes(values.len() as u64) + (
        u32_seq_bytes(values) + rest),
    ensures
        r.0@ == values,
        r.1 <= bytes@.len(),
        bytes@.subrange(r.1 as int, bytes@.len() as int) == rest,
{
    let (count, pos0) = take_u64(
        bytes,
        pos,
        Ghost(values.len() as u64),
        Ghost(u32_seq_bytes(values) + rest),
    );
    let n = count as usize;
    proof {
        assert(n == values.len());
    }
    let mut out: Vec<u32> = Vec::new();
    let mut i: usize = 0;
    let mut cur: usize = pos0;
    proof {
        assert(values.skip(0) =~= values);
    }
    while i < n
        invariant
            0 <= i <= values.len(),
            n == values.len(),
            out@ == values.subrange(0, i as int),
            cur <= bytes@.len(),
            bytes@.subrange(cur as int, bytes@.len() as int) == u32_seq_bytes(
                values.skip(i as int),
            ) + rest,
        decreases values.len() - i,
    {
        let ghost tail = values.skip(i as int);
        proof {
            assert(tail[0] == values[i as int]);
            assert(tail.drop_first() =~= values.skip(i as int + 1));
            assert(u32_seq_bytes(tail) == u32_bytes(values[i as int]) + u32_seq_bytes(
                values.skip(i as int + 1),
            ));
            lemma_assoc(
                u32_bytes(values[i as int]),
                u32_seq_bytes(values.skip(i as int + 1)),
                rest,
            );
        }
        let (v, next_pos) = take_u32(
            bytes,
            cur,
            Ghost(values[i as int]),
            Ghost(u32_seq_bytes(values.skip(i as int + 1)) + rest),
        );
        out.push(v);
        proof {
            assert(out@ =~= values.subrange(0, i as int + 1));
        }
        cur = next_pos;
        i = i + 1;
    }
    proof {
        assert(values.skip(values.len() as int) =~= Seq::<u32>::empty());
        assert(u32_seq_bytes(values.skip(values.len() as int)) + rest =~= rest);
        assert(out@ =~= values);
    }
    (out, cur)
}

/// Take a raw byte run of known length off the front of the remaining
/// blob.
#[verifier::loop_isolation(false)]
fn take_raw(
    bytes: &Vec<u8>,
    pos: usize,
    n: usize,
    Ghost(img): Ghost<Seq<u8>>,
    Ghost(rest): Ghost<Seq<u8>>,
) -> (r: (Vec<u8>, usize))
    requires
        pos <= bytes@.len(),
        n == img.len(),
        bytes@.subrange(pos as int, bytes@.len() as int) == img + rest,
    ensures
        r.0@ == img,
        r.1 == pos + n,
        r.1 <= bytes@.len(),
        bytes@.subrange(r.1 as int, bytes@.len() as int) == rest,
{
    proof {
        vstd::std_specs::vec::axiom_spec_len(bytes);
        assert((img + rest).len() == img.len() + rest.len());
        assert(bytes@.subrange(pos as int, bytes@.len() as int).len() == bytes@.len() - pos);
        assert(bytes@.len() - pos == img.len() + rest.len());
    }
    let mut out: Vec<u8> = Vec::new();
    let mut i: usize = 0;
    while i < n
        invariant
            0 <= i <= n,
            n == img.len(),
            pos + n <= bytes@.len(),
            out@ == img.subrange(0, i as int),
            bytes@.subrange(pos as int, bytes@.len() as int) == img + rest,
        decreases n - i,
    {
        proof {
            assert(bytes@.subrange(pos as int, bytes@.len() as int)[i as int] == bytes@[
                pos as int + i as int
            ]);
            assert(bytes@[pos as int + i as int] == (img + rest)[i as int]);
        }
        out.push(bytes[pos + i]);
        proof {
            assert(out@ =~= img.subrange(0, i as int + 1));
        }
        i = i + 1;
    }
    proof {
        assert(out@ =~= img);
        lemma_suffix_advance(bytes@, pos as int, img, rest);
    }
    (out, pos + n)
}

/// Take one registry entry off the front of the remaining blob.
fn take_info(
    bytes: &Vec<u8>,
    pos: usize,
    Ghost(info): Ghost<ProcessInfo>,
    Ghost(rest): Ghost<Seq<u8>>,
) -> (r: (ProcessInfo, usize))
    requires
        pos <= bytes@.len(),
        bytes@.subrange(pos as int, bytes@.len() as int) == info_bytes(info) + rest,
    ensures
        info_model(r.0) == info_model(info),
        r.1 <= bytes@.len(),
        bytes@.subrange(r.1 as int, bytes@.len() as int) == rest,
{
    let ghost children = info.children_processes@;
    let ghost t1 = opt_bytes(info.parent_pid) + (u32_bytes(info.process_type_id) + (u64_bytes(
        children.len() as u64,
    ) + u32_seq_bytes(children)));
    let ghost t2 = u32_bytes(info.process_type_id) + (u64_bytes(children.len() as u64)
        + u32_seq_bytes(children));
    let ghost t3 = u64_bytes(children.len() as u64) + u32_seq_bytes(children);
    proof {
        lemma_assoc(u32_bytes(info.pid), t1, rest);
    }
    let (pid, pos1) = take_u32(bytes, pos, Ghost(info.pid), Ghost(t1 + rest));
    proof {
        lemma_assoc(opt_bytes(info.parent_pid), t2, rest);
    }
    let (parent_pid, pos2) = take_opt(bytes, pos1, Ghost(info.parent_pid), Ghost(t2 + rest));
    proof {
        lemma_assoc(u32_bytes(info.process_type_id), t3, rest);
    }
    let (process_type_id, pos3) = take_u32(
        bytes,
        pos2,
        Ghost(info.process_type_id),
        Ghost(t3 + rest),
    );
    proof {
        vstd::std_specs::vec::axiom_spec_len(&info.children_processes);
        lemma_assoc(u64_bytes(children.len() as u64), u32_seq_bytes(children), rest);
    }
    let (children_processes, pos4) = take_u32_vec(bytes, pos3, Ghost(children), Ghost(rest));
    (ProcessInfo { pid, parent_pid, children_processes, process_type_id }, pos4)
}

/// Take the counted metadata list off the front of the remaining blob.
#[verifier::loop_isolation(false)]
fn take_info_list(
    bytes: &Vec<u8>,
    pos: usize,
    Ghost(pairs): Ghost<Seq<(u32, ProcessInfo)>>,
    Ghost(rest): Ghost<Seq<u8>>,
) -> (r: (Vec<(u32, ProcessInfo)>, usize))
    requires
        pos <= bytes@.len(),
        pairs.len() <= usize::MAX,
        bytes@.subrange(pos as int, bytes@.len() as int) == u64_bytes(pairs.len() as u64) + (
        info_list_bytes(pairs) + rest),
    ensures
        r.0@.len() == pairs.len(),
        forall|j: int|
            0 <= j < pairs.len() ==> (#[trigger] r.0@[j]).0 == (#[trigger] pairs[j]).0
                && info_model(r.0@[j].1) == info_model(pairs[j].1),
        r.1 <= bytes@.len(),
        bytes@.subrange(r.1 as int, bytes@.len() as int) == rest,
{
    let (count, pos0) = take_u64(
        bytes,
        pos,
        Ghost(pairs.len() as u64),
        Ghost(info_list_bytes(pairs) + rest),
    );
    let n = count as usize;
    proof {
        assert(n == pairs.len());
    }
    let mut out: Vec<(u32, ProcessInfo)> = Vec::new();
    let mut i: usize = 0;
    let mut cur: usize = pos0;
    proof {
        assert(pairs.skip(0) =~= pairs);
    }
    while i < n
        invariant
            0 <= i <= pairs.len(),
            n == pairs.len(),
            out@.len() == i,
            forall|j: int|
                0 <= j < i ==> (#[trigger] out@[j]).0 == (#[trigger] pairs[j]).0 && info_model(
                    out@[j].1,
                ) == info_model(pairs[j].1),
            cur <= bytes@.len(),
            bytes@.subrange(cur as int, bytes@.len() as int) == info_list_bytes(
                pairs.skip(i as int),
            ) + rest,
        decreases pairs.len() - i,
    {
        let ghost tail = pairs.skip(i as int);
        let ghost entry = pairs[i as int];
        proof {
            assert(tail[0] == entry);
            assert(tail.drop_first() =~= pairs.skip(i as int + 1));
            assert(info_list_bytes(tail) == u32_bytes(entry.0) + (info_bytes(entry.1)
                + info_list_bytes(pairs.skip(i as int + 1))));
            lemma_assoc(
                u32_bytes(entry.0),
                info_bytes(entry.1) + info_list_bytes(pairs.skip(i as int + 1)),
                rest,
            );
            lemma_assoc(info_bytes(entry.1), info_list_bytes(pairs.skip(i as int + 1)), rest);
        }
        let (key, pos1) = take_u32(
            bytes,
            cur,
            Ghost(entry.0),
            Ghost(info_bytes(entry.1) + (info_list_bytes(pairs.skip(i as int + 1)) + rest)),
        );
        let (info, pos2) = take_info(
            bytes,
            pos1,
            Ghost(entry.1),
            Ghost(info_list_bytes(pairs.skip(i as int + 1)) + rest),
        );
        out.push((key, info));
        cur = pos2;
        i = i + 1;
    }
    proof {
        assert(pairs.skip(pairs.len() as int) =~= Seq::<(u32, ProcessInfo)>::empty());
        assert(info_list_bytes(pairs.skip(pairs.len() as int)) + rest =~= rest);
    }
    (out, cur)
}

/// Take the counted payload list off the front of the remaining blob.
#[verifier::loop_isolation(false)]
fn take_payload_list(
    bytes: &Vec<u8>,
    pos: usize,
    Ghost(pairs): Ghost<Seq<(u32, SerializedProcess)>>,
    Ghost(rest): Ghost<Seq<u8>>,
) -> (r: (Vec<(u32, SerializedProcess)>, usize))
    requires
        pos <= bytes@.len(),
        pairs.len() <= usize::MAX,
        bytes@.subrange(pos as int, bytes@.len() as int) == u64_bytes(pairs.len() as u64) + (
        payload_list_bytes(pairs) + rest),
    ensures
        r.0@.len() == pairs.len(),
        forall|j: int|
            0 <= j < pairs.len() ==> (#[trigger] r.0@[j]).0 == (#[trigger] pairs[j]).0
                && payload_model(r.0@[j].1) == payload_model(pairs[j].1),
        r.1 <= bytes@.len(),
        bytes@.subrange(r.1 as int, bytes@.len() as int) == rest,
{
    let (count, pos0) = take_u64(
        bytes,
        pos,
        Ghost(pairs.len() as u64),
        Ghost(payload_list_bytes(pairs) + rest),
    );
    let n = count as usize;
    proof {
        assert(n == pairs.len());
    }
    let mut out: Vec<(u32, SerializedProcess)> = Vec::new();
    let mut i: usize = 0;
    let mut cur: usize = pos0;
    proof {
        assert(pairs.skip(0) =~= pairs);
    }
    while i < n
        invariant
            0 <= i <= pairs.len(),
            n == pairs.len(),
            out@.len() == i,
            forall|j: int|
                0 <= j < i ==> (#[trigger] out@[j]).0 == (#[trigger] pairs[j]).0
                    && payload_model(out@[j].1) == payload_model(pairs[j].1),
            cur <= bytes@.len(),
            bytes@.subrange(cur as int, bytes@.len() as int) == payload_list_bytes(
                pairs.skip(i as int),
            ) + rest,
        decreases pairs.len() - i,
    {
        let ghost tail = pairs.skip(i as int);
        let ghost entry = pairs[i as int];
        let ghost sp = entry.1;
        let ghost after = payload_list_bytes(pairs.skip(i as int + 1)) + rest;
        proof {
            assert(tail[0] == entry);
            assert(tail.drop_first() =~= pairs.skip(i as int + 1));
            assert(payload_list_bytes(tail) == payload_bytes(entry.0, sp) + payload_list_bytes(
                pairs.skip(i as int + 1),
            ));
            lemma_assoc(payload_bytes(entry.0, sp), payload_list_bytes(pairs.skip(i as int + 1)),
                rest);
            lemma_assoc(
                u32_bytes(entry.0),
                u32_bytes(sp.tag()) + (u64_bytes(sp.image().len() as u64) + sp.image()),
                after,
            );
            lemma_assoc(
                u32_bytes(sp.tag()),
                u64_bytes(sp.image().len() as u64) + sp.image(),
                after,
            );
            lemma_assoc(u64_bytes(sp.image().len() as u64), sp.image(), after);
            crate::process::lemma_serialized_image_bound(sp);
        }
        let (key, pos1) = take_u32(
            bytes,
            cur,
            Ghost(entry.0),
            Ghost((u32_bytes(sp.tag()) + (u64_bytes(sp.image().len() as u64) + sp.image()))
                + after),
        );
        proof {
            lemma_assoc(
                u32_bytes(sp.tag()),
                u64_bytes(sp.image().len() as u64) + sp.image(),
                after,
            );
        }
        let (tag, pos2) = take_u32(
            bytes,
            pos1,
            Ghost(sp.tag()),
            Ghost((u64_bytes(sp.image().len() as u64) + sp.image()) + after),
        );
        let (img_len, pos3) = take_u64(
            bytes,
            pos2,
            Ghost(sp.image().len() as u64),
            Ghost(sp.image() + after),
        );
        let n_img = img_len as usize;
        proof {
            assert(n_img == sp.image().len());
        }
        let (img, pos4) = take_raw(bytes, pos3, n_img, Ghost(sp.image()), Ghost(after));
        out.push((key, crate::process::SerializedProcess::new(tag, img)));
        cur = pos4;
        i = i + 1;
    }
    proof {
        assert(pairs.skip(pairs.len() as int) =~= Seq::<(u32, SerializedProcess)>::empty());
        assert(payload_list_bytes(pairs.skip(pairs.len() as int)) + rest =~= rest);
    }
    (out, cur)
}

/// Take the counted wake index off the front of the remaining blob.
#[verifier::loop_isolation(false)]
fn take_wake_list(
    bytes: &Vec<u8>,
    pos: usize,
    Ghost(wake): Ghost<Seq<(u32, u32)>>,
    Ghost(rest): Ghost<Seq<u8>>,
) -> (r: (Vec<(u32, u32)>, usize))
    requires
        pos <= bytes@.len(),
        wake.len() <= usize::MAX,
        bytes@.subrange(pos as int, bytes@.len() as int) == u64_bytes(wake.len() as u64) + (
        wake_list_bytes(wake) + rest),
    ensures
        r.0@ == wake,
        r.1 <= bytes@.len(),
        bytes@.subrange(r.1 as int, bytes@.len() as int) == rest,
{
    let (count, pos0) = take_u64(
        bytes,
        pos,
        Ghost(wake.len() as u64),
        Ghost(wake_list_bytes(wake) + rest),
    );
    let n = count as usize;
    proof {
        assert(n == wake.len());
    }
    let mut out: Vec<(u32, u32)> = Vec::new();
    let mut i: usize = 0;
    let mut cur: usize = pos0;
    proof {
        assert(wake.skip(0) =~= wake);
    }
    while i < n
        invariant
            0 <= i <= wake.len(),
            n == wake.len(),
            out@ == wake.subrange(0, i as int),
            cur <= bytes@.len(),
            bytes@.subrange(cur as int, bytes@.len() as int) == wake_list_bytes(
                wake.skip(i as int),
            ) + rest,
        decreases wake.len() - i,
    {
        let ghost tail = wake.skip(i as int);
        let ghost entry = wake[i as int];
        proof {
            assert(tail[0] == entry);
            assert(tail.drop_first() =~= wake.skip(i as int + 1));
            assert(wake_list_bytes(tail) == u32_bytes(entry.0) + (u32_bytes(entry.1)
                + wake_list_bytes(wake.skip(i as int + 1))));
            lemma_assoc(
                u32_bytes(entry.0),
                u32_bytes(entry.1) + wake_list_bytes(wake.skip(i as int + 1)),
                rest,
            );
            lemma_assoc(u32_bytes(entry.1), wake_list_bytes(wake.skip(i as int + 1)), rest);
        }
        let (t, pos1) = take_u32(
            bytes,
            cur,
            Ghost(entry.0),
            Ghost(u32_bytes(entry.1) + (wake_list_bytes(wake.skip(i as int + 1)) + rest)),
        );
        let (p, pos2) = take_u32(
            bytes,
            pos1,
            Ghost(entry.1),
            Ghost(wake_list_bytes(wake.skip(i as int + 1)) + rest),
        );
        out.push((t, p));
        proof {
            assert(out@ =~= wake.subrange(0, i as int + 1));
        }
        cur = pos2;
        i = i + 1;
    }
    proof {
        assert(wake.skip(wake.len() as int) =~= Seq::<(u32, u32)>::empty());
        assert(wake_list_bytes(wake.skip(wake.len() as int)) + rest =~= rest);
        assert(out@ =~= wake);
    }
    (out, cur)
}

/// Take a counted task-code list off the front of the remaining blob.
#[verifier::loop_isolation(false)]
#[verifier::rlimit(60)]
fn take_code_list(
    bytes: &Vec<u8>,
    pos: usize,
    Ghost(codes): Ghost<Seq<(u8, u32)>>,
    Ghost(rest): Ghost<Seq<u8>>,
) -> (r: (Vec<(u8, u32)>, usize))
    requires
        pos <= bytes@.len(),
        codes.len() <= usize::MAX,
        bytes@.subrange(pos as int, bytes@.len() as int) == u64_bytes(codes.len() as u64) + (
        code_list_bytes(codes) + rest),
    ensures
        r.0@ == codes,
        r.1 <= bytes@.len(),
        bytes@.subrange(r.1 as int, bytes@.len() as int) == rest,
{
    proof {
        vstd::std_specs::vec::axiom_spec_len(bytes);
    }
    let (count, pos0) = take_u64(
        bytes,
        pos,
        Ghost(codes.len() as u64),
        Ghost(code_list_bytes(codes) + rest),
    );
    let n = count as usize;
    proof {
        assert(n == codes.len());
    }
    let mut out: Vec<(u8, u32)> = Vec::new();
    let mut i: usize = 0;
    let mut cur: usize = pos0;
    proof {
        assert(codes.skip(0) =~= codes);
    }
    while i < n
        invariant
            0 <= i <= codes.len(),
            n == codes.len(),
            out@ == codes.subrange(0, i as int),
            cur <= bytes@.len(),
            bytes@.subrange(cur as int, bytes@.len() as int) == code_list_bytes(
                codes.skip(i as int),
            ) + rest,
        decreases codes.len() - i,
    {
        let ghost tail = codes.skip(i as int);
        let ghost entry = codes[i as int];
        proof {
            assert(tail[0] == entry);
            assert(tail.drop_first() =~= codes.skip(i as int + 1));
            assert(code_list_bytes(tail) == seq![entry.0] + (u32_bytes(entry.1)
                + code_list_bytes(codes.skip(i as int + 1))));
            lemma_assoc(
                seq![entry.0],
                u32_bytes(entry.1) + code_list_bytes(codes.skip(i as int + 1)),
                rest,
            );
            lemma_assoc(u32_bytes(entry.1), code_list_bytes(codes.skip(i as int + 1)), rest);
            assert((seq![entry.0] + ((u32_bytes(entry.1) + code_list_bytes(
                codes.skip(i as int + 1),
            )) + rest)).len() >= 1);
            assert(bytes@.subrange(cur as int, bytes@.len() as int).len() == bytes@.len() - cur);
            assert(bytes@.subrange(cur as int, bytes@.len() as int)[0] == bytes@[cur as int]);
            assert(bytes@[cur as int] == (seq![entry.0] + ((u32_bytes(entry.1)
                + code_list_bytes(codes.skip(i as int + 1))) + rest))[0]);
        }
        let kind = bytes[cur];
        proof {
            assert(kind == entry.0);
            lemma_suffix_advance(
                bytes@,
                cur as int,
                seq![entry.0],
                (u32_bytes(entry.1) + code_list_bytes(codes.skip(i as int + 1))) + rest,
            );
            lemma_assoc(u32_bytes(entry.1), code_list_bytes(codes.skip(i as int + 1)), rest);
        }
        let (p, pos2) = take_u32(
            bytes,
            cur + 1,
            Ghost(entry.1),
            Ghost(code_list_bytes(codes.skip(i as int + 1)) + rest),
        );
        out.push((kind, p));
        proof {
            assert(out@ =~= codes.subrange(0, i as int + 1));
        }
        cur = pos2;
        i = i + 1;
    }
    proof {
        assert(codes.skip(codes.len() as int) =~= Seq::<(u8, u32)>::empty());
        assert(code_list_bytes(codes.skip(codes.len() as int)) + rest =~= rest);
        assert(out@ =~= codes);
    }
    (out, cur)
}


/// Snapshot equivalence is transitive.
pub proof fn lemma_snap_equiv_trans(a: Snapshot, b: Snapshot, c: Snapshot)
    requires
        snap_equiv(a, b),
        snap_equiv(b, c),
    ensures
        snap_equiv(a, c),
{
    assert forall|j: int|
        0 <= j < a.info_pairs().len() implies (#[trigger] a.info_pairs()[j]).0 == (
    #[trigger] c.info_pairs()[j]).0 && info_model(a.info_pairs()[j].1) == info_model(
        c.info_pairs()[j].1,
    ) by {
        assert(a.info_pairs()[j].0 == b.info_pairs()[j].0);
        assert(b.info_pairs()[j].0 == c.info_pairs()[j].0);
        assert(info_model(a.info_pairs()[j].1) == info_model(b.info_pairs()[j].1));
        assert(info_model(b.info_pairs()[j].1) == info_model(c.info_pairs()[j].1));
    }
    assert forall|j: int|
        0 <= j < a.payload_pairs().len() implies (#[trigger] a.payload_pairs()[j]).0 == (
    #[trigger] c.payload_pairs()[j]).0 && payload_model(a.payload_pairs()[j].1) == payload_model(
        c.payload_pairs()[j].1,
    ) by {
        assert(a.payload_pairs()[j].0 == b.payload_pairs()[j].0);
        assert(b.payload_pairs()[j].0 == c.payload_pairs()[j].0);
        assert(payload_model(a.payload_pairs()[j].1) == payload_model(b.payload_pairs()[j].1));
        assert(payload_model(b.payload_pairs()[j].1) == payload_model(c.payload_pairs()[j].1));
    }
}

/// Snapshot equivalence carries integrity: a snapshot equivalent to a
/// well-formed one is well formed.
pub proof fn lemma_snap_equiv_wf(s1: Snapshot, s2: Snapshot)
    requires
        snap_equiv(s1, s2),
        s2.wf(),
    ensures
        s1.wf(),
{
    crate::snapshot::lemma_info_pairs_model_transfer(s1.info_pairs(), s2.info_pairs());
    crate::snapshot::lemma_info_wf_model_transfer(
        crate::snapshot::map_of_pairs(s1.info_pairs()),
        crate::snapshot::map_of_pairs(s2.info_pairs()),
        s1.next_pid(),
    );
    assert forall|i: int, j: int|
        0 <= i < j < s1.info_pairs().len() implies (#[trigger] s1.info_pairs()[i]).0 < (
    #[trigger] s1.info_pairs()[j]).0 by {
        assert(s1.info_pairs()[i].0 == s2.info_pairs()[i].0);
        assert(s1.info_pairs()[j].0 == s2.info_pairs()[j].0);
        assert(s2.info_pairs()[i].0 < s2.info_pairs()[j].0);
    }
    assert forall|i: int, j: int|
        0 <= i < j < s1.payload_pairs().len() implies (#[trigger] s1.payload_pairs()[i]).0 < (
    #[trigger] s1.payload_pairs()[j]).0 by {
        assert(s1.payload_pairs()[i].0 == s2.payload_pairs()[i].0);
        assert(s1.payload_pairs()[j].0 == s2.payload_pairs()[j].0);
        assert(s2.payload_pairs()[i].0 < s2.payload_pairs()[j].0);
    }
    assert forall|j: int|
        0 <= j < s1.payload_pairs().len() implies crate::snapshot::map_of_pairs(
        s1.info_pairs(),
    ).contains_key((#[trigger] s1.payload_pairs()[j]).0) by {
        assert(s1.payload_pairs()[j].0 == s2.payload_pairs()[j].0);
        let key = s2.payload_pairs()[j].0;
        assert(crate::snapshot::map_of_pairs(s2.info_pairs()).contains_key(key));
        assert(crate::snapshot::infos_model(
            crate::snapshot::map_of_pairs(s2.info_pairs()),
        ).contains_key(key));
        assert(crate::snapshot::infos_model(
            crate::snapshot::map_of_pairs(s1.info_pairs()),
        ).contains_key(key));
    }
}

/// Snapshot equivalence carries capture: a snapshot equivalent to one that
/// captures a kernel captures it too.
pub proof fn lemma_snap_equiv_models<P: crate::process::Process>(
    s1: Snapshot,
    s2: Snapshot,
    k: crate::kernel::Kernel<P>,
)
    requires
        snap_equiv(s1, s2),
        crate::snapshot::models(s2, k),
    ensures
        crate::snapshot::models(s1, k),
{
    crate::snapshot::lemma_info_pairs_model_transfer(s1.info_pairs(), s2.info_pairs());
    crate::snapshot::lemma_payload_pairs_model_transfer::<P>(
        s1.payload_pairs(),
        s2.payload_pairs(),
    );
}

impl Snapshot {
    /// Rebuild a snapshot from a blob previously produced by
    /// [`Snapshot::to_bytes`].  The host's only obligation is to hand the
    /// blob back unchanged: whatever snapshot produced these bytes, the
    /// result captures the same kernel.
    pub fn from_bytes(bytes: &Vec<u8>) -> (r: Snapshot)
        requires
            exists|s: Snapshot| s.wf() && bytes@ == spec_encode(s),
        ensures
            r.wf(),
            forall|s: Snapshot| s.wf() && bytes@ == spec_encode(s) ==> snap_equiv(r, s),
    {
        let ghost s0 = choose|s: Snapshot| s.wf() && bytes@ == spec_encode(s);
        proof {
            crate::snapshot::snapshot_view_facts(s0);
            vstd::std_specs::vec::axiom_spec_len(bytes);
            vstd::std_specs::vec::axiom_spec_len(&s0.info_list);
            vstd::std_specs::vec::axiom_spec_len(&s0.payload_list);
            vstd::std_specs::vec::axiom_spec_len(&s0.wake_list);
            vstd::std_specs::vec::axiom_spec_len(&s0.queue_codes);
            vstd::std_specs::vec::axiom_spec_len(&s0.deferred_codes);
            assert(bytes@.subrange(0, bytes@.len() as int) =~= bytes@);
            assert(spec_encode(s0) == u32_bytes(s0.next_pid()) + tail_after_next(s0));
        }
        let (next_pid_number, p1) = take_u32(
            bytes,
            0,
            Ghost(s0.next_pid()),
            Ghost(tail_after_next(s0)),
        );
        let (current_tick, p2) = take_u32(bytes, p1, Ghost(s0.tick()), Ghost(tail_after_tick(s0)));
        let (info_list, p3) = take_info_list(
            bytes,
            p2,
            Ghost(s0.info_pairs()),
            Ghost(tail_after_infos(s0)),
        );
        let (payload_list, p4) = take_payload_list(
            bytes,
            p3,
            Ghost(s0.payload_pairs()),
            Ghost(tail_after_payloads(s0)),
        );
        let (wake_list, p5) = take_wake_list(
            bytes,
            p4,
            Ghost(s0.wake()),
            Ghost(tail_after_wake(s0)),
        );
        let (queue_codes, p6) = take_code_list(
            bytes,
            p5,
            Ghost(s0.queue()),
            Ghost(tail_after_queue(s0)),
        );
        proof {
            assert(code_list_bytes(s0.deferred()) + Seq::<u8>::empty() =~= code_list_bytes(
                s0.deferred(),
            ));
        }
        let (deferred_codes, _p7) = take_code_list(
            bytes,
            p6,
            Ghost(s0.deferred()),
            Ghost(Seq::<u8>::empty()),
        );
        let result = Snapshot {
            next_pid_number,
            current_tick,
            info_list,
            payload_list,
            wake_list,
            queue_codes,
            deferred_codes,
        };
        proof {
            crate::snapshot::snapshot_view_facts(result);
            assert(snap_equiv(result, s0));
            lemma_snap_equiv_wf(result, s0);
            assert forall|s: Snapshot| s.wf() && bytes@ == spec_encode(s) implies snap_equiv(
                result,
                s,
            ) by {
                lemma_encode_injective(s0, s);
                lemma_snap_equiv_trans(result, s0, s);
            }
        }
        result
    }
}

} // verus!
