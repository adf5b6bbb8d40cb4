//! The status-message wire format.
//!
//! A message is framed as length-prefixed fields: every integer is eight
//! bytes little endian, every string is its byte length followed by its
//! UTF-8 bytes, every map its entry count followed by its entries in
//! order. Decoding accepts exactly the byte strings that encoding
//! produces and consumes the whole input.

use vstd::prelude::*;

use crate::config::Branch;
use crate::config::BranchV;
use crate::config::Remote;
use crate::config::RemoteV;
use crate::config::branch_v;
use crate::config::remote_v;
use crate::message::BranchMessages;
use crate::message::Message;
use crate::message::MessageV;
use crate::message::RemoteMessages;
use crate::message::bm_view;
use crate::message::msg_view;
use crate::message::rm_view;
use vstd::utf8::encode_utf8;
use vstd::utf8::decode_utf8;
use vstd::utf8::valid_utf8;

verus! {

/// The low `k` bytes of `n`, least significant first.
pub open spec fn le_bytes(n: nat, k: nat) -> Seq<u8>
    decreases k,
{
    if k == 0 {
        Seq::empty()
    } else {
        seq![(n % 256) as u8] + le_bytes(n / 256, (k - 1) as nat)
    }
}

/// The number a little-endian byte sequence writes.
pub open spec fn le_val(b: Seq<u8>) -> nat
    decreases b.len(),
{
    if b.len() == 0 {
        0
    } else {
        b[0] as nat + 256 * le_val(b.drop_first())
    }
}

/// 256 to the `k`.
pub open spec fn pow256(k: nat) -> nat
    decreases k,
{
    if k == 0 {
        1
    } else {
        256 * pow256((k - 1) as nat)
    }
}

/// A `k`-byte little-endian frame holds `k` bytes.
pub proof fn lemma_le_bytes_len(n: nat, k: nat)
    ensures
        le_bytes(n, k).len() == k,
    decreases k,
{
    if k > 0 {
        lemma_le_bytes_len(n / 256, (k - 1) as nat);
    }
}

/// Reading back a little-endian frame returns the written number.
pub proof fn lemma_le_roundtrip(n: nat, k: nat)
    requires
        n < pow256(k),
    ensures
        le_val(le_bytes(n, k)) == n,
    decreases k,
{
    if k > 0 {
        assert(n / 256 < pow256((k - 1) as nat)) by (nonlinear_arith)
            requires
                n < pow256(k),
                pow256(k) == 256 * pow256((k - 1) as nat),
        ;
        lemma_le_roundtrip(n / 256, (k - 1) as nat);
        assert(le_bytes(n, k).drop_first() =~= le_bytes(n / 256, (k - 1) as nat));
    }
}

/// An encoded string: its UTF-8 byte length, then its UTF-8 bytes.
pub open spec fn enc_str(s: Seq<char>) -> Seq<u8> {
    le_bytes(encode_utf8(s).len(), 8) + encode_utf8(s)
}

/// Whether a string fits an eight-byte length frame.
pub open spec fn small_str(s: Seq<char>) -> bool {
    encode_utf8(s).len() < pow256(8)
}

/// The encoded remote names of a branch, from index `i` on.
pub open spec fn enc_names_from(v: Seq<Seq<char>>, i: int) -> Seq<u8>
    decreases v.len() - i,
{
    if i < 0 || i >= v.len() {
        Seq::empty()
    } else {
        enc_str(v[i]) + enc_names_from(v, i + 1)
    }
}

/// An encoded branch: name, interval, remote-name count, remote names.
pub open spec fn enc_branch(b: BranchV) -> Seq<u8> {
    enc_str(b.name) + enc_str(b.interval) + le_bytes(b.remotes.len() as nat, 8) + enc_names_from(
        b.remotes,
        0,
    )
}

/// An encoded remote: name, then url.
pub open spec fn enc_remote(r: RemoteV) -> Seq<u8> {
    enc_str(r.name) + enc_str(r.url)
}

/// The encoded (remote, status text) entries from index `i` on.
pub open spec fn enc_rms_from(rms: Seq<(RemoteV, Seq<char>)>, i: int) -> Seq<u8>
    decreases rms.len() - i,
{
    if i < 0 || i >= rms.len() {
        Seq::empty()
    } else {
        enc_remote(rms[i].0) + enc_str(rms[i].1) + enc_rms_from(rms, i + 1)
    }
}

/// The encoded (branch, remote messages) groups from index `i` on.
pub open spec fn enc_groups_from(gs: Seq<(BranchV, Seq<(RemoteV, Seq<char>)>)>, i: int) -> Seq<u8>
    decreases gs.len() - i,
{
    if i < 0 || i >= gs.len() {
        Seq::empty()
    } else {
        enc_branch(gs[i].0) + le_bytes(gs[i].1.len() as nat, 8) + enc_rms_from(gs[i].1, 0)
            + enc_groups_from(gs, i + 1)
    }
}

/// An encoded message: identifier, repository name, group count, groups.
pub open spec fn enc_message(m: MessageV) -> Seq<u8> {
    enc_str(m.uuid) + enc_str(m.repo) + le_bytes(m.messages.len() as nat, 8) + enc_groups_from(
        m.messages,
        0,
    )
}

/// Append the low eight bytes of `n`, least significant first.
fn push_le(out: &mut Vec<u8>, n: u64, k: usize)
    ensures
        final(out)@ == old(out)@ + le_bytes(n as nat, k as nat),
    decreases k,
{
    if k == 0 {
        proof {
            assert(out@ =~= out@ + le_bytes(n as nat, 0));
        }
    } else {
        out.push((n % 256) as u8);
        let ghost mid = out@;
        push_le(out, n / 256, k - 1);
        proof {
            assert(out@ =~= old(out)@ + (seq![(n as nat % 256) as u8] + le_bytes(
                n as nat / 256,
                (k - 1) as nat,
            )));
        }
    }
}

/// Append the encoding of one string.
fn push_str_enc(out: &mut Vec<u8>, s: &str)
    ensures
        final(out)@ == old(out)@ + enc_str(s@),
{
    let bytes = s.as_bytes_vec();
    push_le(out, bytes.len() as u64, 8);
    let ghost mid = out@;
    let mut i: usize = 0;
    while i < bytes.len()
        invariant
            i <= bytes@.len(),
            bytes@ == encode_utf8(s@),
            out@ == mid + bytes@.take(i as int),
            mid == old(out)@ + le_bytes(encode_utf8(s@).len(), 8),
        decreases bytes@.len() - i,
    {
        out.push(bytes[i]);
        proof {
            assert(out@ =~= mid + bytes@.take(i + 1));
        }
        i = i + 1;
    }
    proof {
        assert(bytes@.take(bytes@.len() as int) =~= bytes@);
        assert(out@ =~= old(out)@ + enc_str(s@));
    }
}

/// Encode a message into its wire bytes.
#[verifier::loop_isolation(false)]
#[verifier::rlimit(100)]
pub fn encode_message(m: &Message) -> (r: Vec<u8>)
    ensures
        r@ == enc_message(msg_view(*m)),
{
    let ghost mv = msg_view(*m);
    let mut out: Vec<u8> = Vec::new();
    push_str_enc(&mut out, m.uuid.as_str());
    push_str_enc(&mut out, m.repo.as_str());
    push_le(&mut out, m.messages.entries.len() as u64, 8);
    proof {
        assert(out@ =~= Seq::<u8>::empty() + enc_str(mv.uuid) + enc_str(mv.repo) + le_bytes(
            mv.messages.len() as nat,
            8,
        ));
        assert(Seq::<u8>::empty() + enc_str(mv.uuid) =~= enc_str(mv.uuid));
    }
    let mut gi: usize = 0;
    while gi < m.messages.entries.len()
        invariant
            gi <= mv.messages.len(),
            mv.messages.len() == m.messages.entries@.len(),
            enc_message(mv) == out@ + enc_groups_from(mv.messages, gi as int),
        decreases mv.messages.len() - gi,
    {
        proof {
            assert(mv.messages[gi as int] == (branch_v(m.messages.entries@[gi as int].0), rm_view(
                m.messages.entries@[gi as int].1,
            )));
        }
        let group = &m.messages.entries[gi];
        let ghost o0 = out@;
        let ghost bv = branch_v(group.0);
        let ghost rms = rm_view(group.1);
        push_str_enc(&mut out, group.0.name.as_str());
        push_str_enc(&mut out, group.0.interval.as_str());
        push_le(&mut out, group.0.remotes.len() as u64, 8);
        let ghost names = bv.remotes;
        let ghost o1 = out@;
        proof {
            assert(names.len() == group.0.remotes@.len());
            assert(o1 =~= o0 + enc_str(bv.name) + enc_str(bv.interval) + le_bytes(
                names.len() as nat,
                8,
            ));
        }
        let mut ni: usize = 0;
        while ni < group.0.remotes.len()
            invariant
                ni <= names.len(),
                names.len() == group.0.remotes@.len(),
                names == branch_v(group.0).remotes,
                o1 + enc_names_from(names, 0) == out@ + enc_names_from(names, ni as int),
            decreases names.len() - ni,
        {
            proof {
                assert(names[ni as int] == group.0.remotes@[ni as int]@);
            }
            let ghost o2 = out@;
            push_str_enc(&mut out, group.0.remotes[ni].as_str());
            proof {
                assert(enc_names_from(names, ni as int) == enc_str(names[ni as int])
                    + enc_names_from(names, ni + 1));
                assert(out@ + enc_names_from(names, ni + 1) =~= o2 + enc_names_from(
                    names,
                    ni as int,
                ));
            }
            ni = ni + 1;
        }
        proof {
            assert(enc_names_from(names, names.len() as int) =~= Seq::<u8>::empty());
            assert(out@ =~= out@ + enc_names_from(names, names.len() as int));
            assert(out@ == o1 + enc_names_from(names, 0));
            assert(out@ =~= o0 + enc_branch(bv));
        }
        push_le(&mut out, group.1.entries.len() as u64, 8);
        let ghost o3 = out@;
        proof {
            assert(rms.len() == group.1.entries@.len());
            assert(o3 =~= o0 + enc_branch(bv) + le_bytes(rms.len() as nat, 8));
        }
        let mut ri: usize = 0;
        while ri < group.1.entries.len()
            invariant
                ri <= rms.len(),
                rms.len() == group.1.entries@.len(),
                rms == rm_view(group.1),
                o3 + enc_rms_from(rms, 0) == out@ + enc_rms_from(rms, ri as int),
            decreases rms.len() - ri,
        {
            proof {
                assert(rms[ri as int] == (remote_v(group.1.entries@[ri as int].0),
                group.1.entries@[ri as int].1@));
            }
            let entry = &group.1.entries[ri];
            let ghost o4 = out@;
            push_str_enc(&mut out, entry.0.name.as_str());
            push_str_enc(&mut out, entry.0.url.as_str());
            push_str_enc(&mut out, entry.1.as_str());
            proof {
                assert(enc_rms_from(rms, ri as int) == enc_remote(rms[ri as int].0) + enc_str(
                    rms[ri as int].1,
                ) + enc_rms_from(rms, ri + 1));
                assert(out@ + enc_rms_from(rms, ri + 1) =~= o4 + enc_rms_from(rms, ri as int));
            }
            ri = ri + 1;
        }
        proof {
            assert(enc_rms_from(rms, rms.len() as int) =~= Seq::<u8>::empty());
            assert(out@ =~= out@ + enc_rms_from(rms, rms.len() as int));
            assert(out@ == o3 + enc_rms_from(rms, 0));
            assert(enc_groups_from(mv.messages, gi as int) == enc_branch(bv) + le_bytes(
                rms.len() as nat,
                8,
            ) + enc_rms_from(rms, 0) + enc_groups_from(mv.messages, gi + 1));
            assert(out@ + enc_groups_from(mv.messages, gi + 1) =~= o0 + enc_groups_from(
                mv.messages,
                gi as int,
            ));
        }
        gi = gi + 1;
    }
    proof {
        assert(enc_groups_from(mv.messages, mv.messages.len() as int) =~= Seq::<u8>::empty());
        assert(out@ =~= out@ + enc_groups_from(mv.messages, mv.messages.len() as int));
    }
    out
}

} // verus!

verus! {

/// Read an eight-byte little-endian integer at `i`.
pub open spec fn dec_u64(b: Seq<u8>, i: int) -> Option<(nat, int)> {
    if 0 <= i && i + 8 <= b.len() {
        Some((le_val(b.subrange(i, i + 8)), i + 8))
    } else {
        None
    }
}

/// Read a length-prefixed UTF-8 string at `i`.
pub open spec fn dec_str(b: Seq<u8>, i: int) -> Option<(Seq<char>, int)> {
    match dec_u64(b, i) {
        Some((l, j)) => if j + l <= b.len() && valid_utf8(b.subrange(j, j + l)) {
            Some((decode_utf8(b.subrange(j, j + l)), j + l))
        } else {
            None
        },
        None => None,
    }
}

/// Read `k` strings at `i`.
pub open spec fn dec_names(b: Seq<u8>, i: int, k: nat) -> Option<(Seq<Seq<char>>, int)>
    decreases k,
{
    if k == 0 {
        Some((Seq::empty(), i))
    } else {
        match dec_str(b, i) {
            Some((s, j)) => match dec_names(b, j, (k - 1) as nat) {
                Some((v, j2)) => Some((seq![s] + v, j2)),
                None => None,
            },
            None => None,
        }
    }
}

/// Read a branch at `i`.
pub open spec fn dec_branch(b: Seq<u8>, i: int) -> Option<(BranchV, int)> {
    match dec_str(b, i) {
        Some((nm, j1)) => match dec_str(b, j1) {
            Some((iv, j2)) => match dec_u64(b, j2) {
                Some((k, j3)) => match dec_names(b, j3, k) {
                    Some((vs, j4)) => Some(
                        (BranchV { name: nm, interval: iv, remotes: vs }, j4),
                    ),
                    None => None,
                },
                None => None,
            },
            None => None,
        },
        None => None,
    }
}

/// Read a remote at `i`.
pub open spec fn dec_remote(b: Seq<u8>, i: int) -> Option<(RemoteV, int)> {
    match dec_str(b, i) {
        Some((nm, j1)) => match dec_str(b, j1) {
            Some((u, j2)) => Some((RemoteV { name: nm, url: u }, j2)),
            None => None,
        },
        None => None,
    }
}

/// Read `k` (remote, status text) entries at `i`.
pub open spec fn dec_rms(b: Seq<u8>, i: int, k: nat) -> Option<(Seq<(RemoteV, Seq<char>)>, int)>
    decreases k,
{
    if k == 0 {
        Some((Seq::empty(), i))
    } else {
        match dec_remote(b, i) {
            Some((r, j1)) => match dec_str(b, j1) {
                Some((t, j2)) => match dec_rms(b, j2, (k - 1) as nat) {
                    Some((v, j3)) => Some((seq![(r, t)] + v, j3)),
                    None => None,
                },
                None => None,
            },
            None => None,
        }
    }
}

/// Read `k` (branch, remote messages) groups at `i`.
pub open spec fn dec_groups(b: Seq<u8>, i: int, k: nat) -> Option<
    (Seq<(BranchV, Seq<(RemoteV, Seq<char>)>)>, int),
>
    decreases k,
{
    if k == 0 {
        Some((Seq::empty(), i))
    } else {
        match dec_branch(b, i) {
            Some((bv, j1)) => match dec_u64(b, j1) {
                Some((rk, j2)) => match dec_rms(b, j2, rk) {
                    Some((rms, j3)) => match dec_groups(b, j3, (k - 1) as nat) {
                        Some((gs, j4)) => Some((seq![(bv, rms)] + gs, j4)),
                        None => None,
                    },
                    None => None,
                },
                None => None,
            },
            None => None,
        }
    }
}

/// Read a whole message, consuming every byte.
pub open spec fn dec_message(b: Seq<u8>) -> Option<MessageV> {
    match dec_str(b, 0) {
        Some((uuid, j1)) => match dec_str(b, j1) {
            Some((repo, j2)) => match dec_u64(b, j2) {
                Some((k, j3)) => match dec_groups(b, j3, k) {
                    Some((gs, j4)) => if j4 == b.len() {
                        Some(MessageV { uuid, repo, messages: gs })
                    } else {
                        None
                    },
                    None => None,
                },
                None => None,
            },
            None => None,
        },
        None => None,
    }
}

/// Whether a branch fits the wire format's length frames.
pub open spec fn wire_branch_ok(b: BranchV) -> bool {
    &&& small_str(b.name)
    &&& small_str(b.interval)
    &&& b.remotes.len() < pow256(8)
    &&& forall|i: int| 0 <= i < b.remotes.len() ==> small_str(#[trigger] b.remotes[i])
}

/// Whether a remote-message list fits the wire format's length frames.
pub open spec fn wire_rms_ok(rms: Seq<(RemoteV, Seq<char>)>) -> bool {
    &&& rms.len() < pow256(8)
    &&& forall|i: int|
        0 <= i < rms.len() ==> small_str((#[trigger] rms[i]).0.name) && small_str(rms[i].0.url)
            && small_str(rms[i].1)
}

/// Whether a message fits the wire format's length frames.
pub open spec fn wire_msg_ok(m: MessageV) -> bool {
    &&& small_str(m.uuid)
    &&& small_str(m.repo)
    &&& m.messages.len() < pow256(8)
    &&& forall|i: int|
        0 <= i < m.messages.len() ==> wire_branch_ok((#[trigger] m.messages[i]).0) && wire_rms_ok(
            m.messages[i].1,
        )
}

/// Reading an integer frame back returns the written number.
proof fn lemma_dec_u64_at(pre: Seq<u8>, n: nat, rest: Seq<u8>)
    requires
        n < pow256(8),
    ensures
        dec_u64(pre + le_bytes(n, 8) + rest, pre.len() as int) == Some((n, pre.len() as int + 8)),
{
    lemma_le_bytes_len(n, 8);
    let b = pre + le_bytes(n, 8) + rest;
    assert(b.subrange(pre.len() as int, pre.len() as int + 8) =~= le_bytes(n, 8));
    lemma_le_roundtrip(n, 8);
}

/// Reading a string frame back returns the written string.
proof fn lemma_dec_str_at(pre: Seq<u8>, s: Seq<char>, rest: Seq<u8>)
    requires
        small_str(s),
    ensures
        dec_str(pre + enc_str(s) + rest, pre.len() as int) == Some(
            (s, pre.len() as int + enc_str(s).len() as int),
        ),
{
    lemma_le_bytes_len(encode_utf8(s).len(), 8);
    let b = pre + enc_str(s) + rest;
    assert(b =~= pre + le_bytes(encode_utf8(s).len(), 8) + (encode_utf8(s) + rest));
    lemma_dec_u64_at(pre, encode_utf8(s).len(), encode_utf8(s) + rest);
    let j = pre.len() + 8;
    let l = encode_utf8(s).len() as int;
    assert(b.subrange(j as int, j + l) =~= encode_utf8(s));
    vstd::utf8::encode_utf8_valid_utf8(s);
    vstd::utf8::encode_utf8_decode_utf8(s);
}

/// Reading the name list back returns the written names, from `i` on.
proof fn lemma_dec_names_at(pre: Seq<u8>, names: Seq<Seq<char>>, rest: Seq<u8>, i: int)
    requires
        0 <= i <= names.len(),
        forall|j: int| 0 <= j < names.len() ==> small_str(#[trigger] names[j]),
    ensures
        dec_names(pre + enc_names_from(names, i) + rest, pre.len() as int, (names.len() - i) as nat)
            == Some((names.skip(i), pre.len() as int + enc_names_from(names, i).len() as int)),
    decreases names.len() - i,
{
    if i == names.len() {
        assert(enc_names_from(names, i) =~= Seq::<u8>::empty());
        assert(pre + enc_names_from(names, i) + rest =~= pre + rest);
        assert(names.skip(i) =~= Seq::<Seq<char>>::empty());
    } else {
        let b = pre + enc_names_from(names, i) + rest;
        assert(enc_names_from(names, i) == enc_str(names[i]) + enc_names_from(names, i + 1));
        assert(b =~= pre + enc_str(names[i]) + (enc_names_from(names, i + 1) + rest));
        lemma_dec_str_at(pre, names[i], enc_names_from(names, i + 1) + rest);
        let pre2 = pre + enc_str(names[i]);
        assert(b =~= pre2 + enc_names_from(names, i + 1) + rest);
        lemma_dec_names_at(pre2, names, rest, i + 1);
        assert(seq![names[i]] + names.skip(i + 1) =~= names.skip(i));
    }
}

/// Reading a branch frame back returns the written branch.
proof fn lemma_dec_branch_at(pre: Seq<u8>, bv: BranchV, rest: Seq<u8>)
    requires
        wire_branch_ok(bv),
    ensures
        dec_branch(pre + enc_branch(bv) + rest, pre.len() as int) == Some(
            (bv, pre.len() as int + enc_branch(bv).len() as int),
        ),
{
    let b = pre + enc_branch(bv) + rest;
    assert(b =~= pre + enc_str(bv.name) + (enc_str(bv.interval) + (le_bytes(
        bv.remotes.len() as nat,
        8,
    ) + (enc_names_from(bv.remotes, 0) + rest))));
    lemma_dec_str_at(pre, bv.name, enc_str(bv.interval) + (le_bytes(bv.remotes.len() as nat, 8) + (
    enc_names_from(bv.remotes, 0) + rest)));
    let pre2 = pre + enc_str(bv.name);
    assert(b =~= pre2 + enc_str(bv.interval) + (le_bytes(bv.remotes.len() as nat, 8) + (
    enc_names_from(bv.remotes, 0) + rest)));
    lemma_dec_str_at(pre2, bv.interval, le_bytes(bv.remotes.len() as nat, 8) + (enc_names_from(
        bv.remotes,
        0,
    ) + rest));
    let pre3 = pre2 + enc_str(bv.interval);
    assert(b =~= pre3 + le_bytes(bv.remotes.len() as nat, 8) + (enc_names_from(bv.remotes, 0)
        + rest));
    lemma_dec_u64_at(pre3, bv.remotes.len() as nat, enc_names_from(bv.remotes, 0) + rest);
    let pre4 = pre3 + le_bytes(bv.remotes.len() as nat, 8);
    lemma_le_bytes_len(bv.remotes.len() as nat, 8);
    assert(b =~= pre4 + enc_names_from(bv.remotes, 0) + rest);
    lemma_dec_names_at(pre4, bv.remotes, rest, 0);
    assert(bv.remotes.skip(0) =~= bv.remotes);
    assert(BranchV { name: bv.name, interval: bv.interval, remotes: bv.remotes } == bv);
}

/// Reading a remote frame back returns the written remote.
proof fn lemma_dec_remote_at(pre: Seq<u8>, r: RemoteV, rest: Seq<u8>)
    requires
        small_str(r.name),
        small_str(r.url),
    ensures
        dec_remote(pre + enc_remote(r) + rest, pre.len() as int) == Some(
            (r, pre.len() as int + enc_remote(r).len() as int),
        ),
{
    let b = pre + enc_remote(r) + rest;
    assert(b =~= pre + enc_str(r.name) + (enc_str(r.url) + rest));
    lemma_dec_str_at(pre, r.name, enc_str(r.url) + rest);
    let pre2 = pre + enc_str(r.name);
    assert(b =~= pre2 + enc_str(r.url) + rest);
    lemma_dec_str_at(pre2, r.url, rest);
    assert(RemoteV { name: r.name, url: r.url } == r);
}

/// Reading the remote-message entries back returns them, from `i` on.
#[verifier::rlimit(100)]
proof fn lemma_dec_rms_at(pre: Seq<u8>, rms: Seq<(RemoteV, Seq<char>)>, rest: Seq<u8>, i: int)
    requires
        0 <= i <= rms.len(),
        forall|j: int|
            0 <= j < rms.len() ==> small_str((#[trigger] rms[j]).0.name) && small_str(
                rms[j].0.url,
            ) && small_str(rms[j].1),
    ensures
        dec_rms(pre + enc_rms_from(rms, i) + rest, pre.len() as int, (rms.len() - i) as nat)
            == Some((rms.skip(i), pre.len() as int + enc_rms_from(rms, i).len() as int)),
    decreases rms.len() - i,
{
    if i == rms.len() {
        assert(enc_rms_from(rms, i) =~= Seq::<u8>::empty());
        assert(pre + enc_rms_from(rms, i) + rest =~= pre + rest);
        assert(rms.skip(i) =~= Seq::<(RemoteV, Seq<char>)>::empty());
    } else {
        let a = enc_remote(rms[i].0);
        let t = enc_str(rms[i].1);
        let g = enc_rms_from(rms, i + 1);
        let b = pre + enc_rms_from(rms, i) + rest;
        let pre2 = pre + a;
        let pre3 = pre2 + t;
        assert(enc_rms_from(rms, i) == a + t + g);
        assert(b == pre2 + (t + (g + rest)) && b == pre3 + (g + rest) && b == (pre3 + g) + rest
            && b == pre + a + (t + (g + rest)) && b == pre2 + t + (g + rest) && b == pre3 + g
            + rest) by {
            vstd::seq_lib::lemma_concat_associative(pre, (a + t) + g, rest);
            vstd::seq_lib::lemma_concat_associative(a + t, g, rest);
            vstd::seq_lib::lemma_concat_associative(a, t, g + rest);
            vstd::seq_lib::lemma_concat_associative(pre, a, t + (g + rest));
            vstd::seq_lib::lemma_concat_associative(pre2, t, g + rest);
            vstd::seq_lib::lemma_concat_associative(pre3, g, rest);
        }
        lemma_dec_remote_at(pre, rms[i].0, t + (g + rest));
        lemma_dec_str_at(pre2, rms[i].1, g + rest);
        lemma_dec_rms_at(pre3, rms, rest, i + 1);
        assert(seq![rms[i]] + rms.skip(i + 1) =~= rms.skip(i));
    }
}

/// Reading one group at the head advances past its bytes.
#[verifier::rlimit(100)]
proof fn lemma_dec_groups_step(
    pre: Seq<u8>,
    gs: Seq<(BranchV, Seq<(RemoteV, Seq<char>)>)>,
    rest: Seq<u8>,
    i: int,
    k: nat,
)
    requires
        0 <= i < gs.len(),
        k >= 1,
        forall|j: int|
            0 <= j < gs.len() ==> wire_branch_ok((#[trigger] gs[j]).0) && wire_rms_ok(gs[j].1),
    ensures
        ({
            let a = enc_branch(gs[i].0);
            let l = le_bytes(gs[i].1.len() as nat, 8);
            let rr = enc_rms_from(gs[i].1, 0);
            let g = enc_groups_from(gs, i + 1);
            let b = pre + enc_groups_from(gs, i) + rest;
            dec_groups(b, pre.len() as int, k) == (match dec_groups(
                b,
                pre.len() as int + a.len() + l.len() + rr.len(),
                (k - 1) as nat,
            ) {
                Some(tail) => Some((seq![gs[i]] + tail.0, tail.1)),
                None => None,
            })
        }),
{
    let a = enc_branch(gs[i].0);
    let l = le_bytes(gs[i].1.len() as nat, 8);
    let rr = enc_rms_from(gs[i].1, 0);
    let g = enc_groups_from(gs, i + 1);
    let b = pre + enc_groups_from(gs, i) + rest;
    let pre2 = pre + a;
    let pre3 = pre2 + l;
    let pre4 = pre3 + rr;
    assert(enc_groups_from(gs, i) == a + l + rr + g);
    assert(b == pre2 + (l + (rr + (g + rest))) && b == pre3 + (rr + (g + rest)) && b == pre4 + (
    g + rest) && b == (pre4 + g) + rest) by {
        vstd::seq_lib::lemma_concat_associative(pre, ((a + l) + rr) + g, rest);
        vstd::seq_lib::lemma_concat_associative((a + l) + rr, g, rest);
        vstd::seq_lib::lemma_concat_associative(a + l, rr, g + rest);
        vstd::seq_lib::lemma_concat_associative(a, l, rr + (g + rest));
        vstd::seq_lib::lemma_concat_associative(pre, a, l + (rr + (g + rest)));
        vstd::seq_lib::lemma_concat_associative(pre2, l, rr + (g + rest));
        vstd::seq_lib::lemma_concat_associative(pre3, rr, g + rest);
        vstd::seq_lib::lemma_concat_associative(pre4, g, rest);
    }
    assert(b == pre + a + (l + (rr + (g + rest)))) by {
        vstd::seq_lib::lemma_concat_associative(pre, a, l + (rr + (g + rest)));
    }
    lemma_dec_branch_at(pre, gs[i].0, l + (rr + (g + rest)));
    assert(b == pre2 + l + (rr + (g + rest))) by {
        vstd::seq_lib::lemma_concat_associative(pre2, l, rr + (g + rest));
    }
    lemma_dec_u64_at(pre2, gs[i].1.len() as nat, rr + (g + rest));
    lemma_le_bytes_len(gs[i].1.len() as nat, 8);
    assert(b == pre3 + rr + (g + rest)) by {
        vstd::seq_lib::lemma_concat_associative(pre3, rr, g + rest);
    }
    lemma_dec_rms_at(pre3, gs[i].1, g + rest, 0);
    assert(gs[i].1.skip(0) =~= gs[i].1);
    assert((gs[i].0, gs[i].1) == gs[i]);
}

/// Reading the groups back returns them, from `i` on.
#[verifier::rlimit(100)]
proof fn lemma_dec_groups_at(
    pre: Seq<u8>,
    gs: Seq<(BranchV, Seq<(RemoteV, Seq<char>)>)>,
    rest: Seq<u8>,
    i: int,
)
    requires
        0 <= i <= gs.len(),
        forall|j: int|
            0 <= j < gs.len() ==> wire_branch_ok((#[trigger] gs[j]).0) && wire_rms_ok(gs[j].1),
    ensures
        dec_groups(pre + enc_groups_from(gs, i) + rest, pre.len() as int, (gs.len() - i) as nat)
            == Some((gs.skip(i), pre.len() as int + enc_groups_from(gs, i).len() as int)),
    decreases gs.len() - i,
{
    if i == gs.len() {
        assert(enc_groups_from(gs, i) =~= Seq::<u8>::empty());
        assert(pre + enc_groups_from(gs, i) + rest =~= pre + rest);
        assert(gs.skip(i) =~= Seq::<(BranchV, Seq<(RemoteV, Seq<char>)>)>::empty());
    } else {
        let a = enc_branch(gs[i].0);
        let l = le_bytes(gs[i].1.len() as nat, 8);
        let rr = enc_rms_from(gs[i].1, 0);
        let g = enc_groups_from(gs, i + 1);
        let b = pre + enc_groups_from(gs, i) + rest;
        let pre4 = ((pre + a) + l) + rr;
        lemma_dec_groups_step(pre, gs, rest, i, (gs.len() - i) as nat);
        assert(enc_groups_from(gs, i) == a + l + rr + g);
        assert(b == (pre4 + g) + rest) by {
            vstd::seq_lib::lemma_concat_associative(pre, ((a + l) + rr) + g, rest);
            vstd::seq_lib::lemma_concat_associative((a + l) + rr, g, rest);
            vstd::seq_lib::lemma_concat_associative(a + l, rr, g + rest);
            vstd::seq_lib::lemma_concat_associative(a, l, rr + (g + rest));
            vstd::seq_lib::lemma_concat_associative(pre, a, l + (rr + (g + rest)));
            vstd::seq_lib::lemma_concat_associative(pre + a, l, rr + (g + rest));
            vstd::seq_lib::lemma_concat_associative((pre + a) + l, rr, g + rest);
            vstd::seq_lib::lemma_concat_associative(pre4, g, rest);
        }
        lemma_dec_groups_at(pre4, gs, rest, i + 1);
        assert(seq![gs[i]] + gs.skip(i + 1) =~= gs.skip(i));
    }
}

/// Round trip: decoding the wire bytes of a message that fits the length
/// frames returns the message unchanged.
pub proof fn lemma_message_round_trip(m: MessageV)
    requires
        wire_msg_ok(m),
    ensures
        dec_message(enc_message(m)) == Some(m),
{
    let b = enc_message(m);
    assert(b =~= Seq::<u8>::empty() + enc_str(m.uuid) + (enc_str(m.repo) + (le_bytes(
        m.messages.len() as nat,
        8,
    ) + (enc_groups_from(m.messages, 0) + Seq::<u8>::empty()))));
    lemma_dec_str_at(Seq::empty(), m.uuid, enc_str(m.repo) + (le_bytes(m.messages.len() as nat, 8)
        + (enc_groups_from(m.messages, 0) + Seq::<u8>::empty())));
    let pre2 = Seq::<u8>::empty() + enc_str(m.uuid);
    assert(b =~= pre2 + enc_str(m.repo) + (le_bytes(m.messages.len() as nat, 8) + (
    enc_groups_from(m.messages, 0) + Seq::<u8>::empty())));
    lemma_dec_str_at(pre2, m.repo, le_bytes(m.messages.len() as nat, 8) + (enc_groups_from(
        m.messages,
        0,
    ) + Seq::<u8>::empty()));
    let pre3 = pre2 + enc_str(m.repo);
    assert(b =~= pre3 + le_bytes(m.messages.len() as nat, 8) + (enc_groups_from(m.messages, 0)
        + Seq::<u8>::empty()));
    lemma_dec_u64_at(pre3, m.messages.len() as nat, enc_groups_from(m.messages, 0) + Seq::<
        u8,
    >::empty());
    let pre4 = pre3 + le_bytes(m.messages.len() as nat, 8);
    lemma_le_bytes_len(m.messages.len() as nat, 8);
    assert(b =~= pre4 + enc_groups_from(m.messages, 0) + Seq::<u8>::empty());
    lemma_dec_groups_at(pre4, m.messages, Seq::empty(), 0);
    assert(m.messages.skip(0) =~= m.messages);
    assert(MessageV { uuid: m.uuid, repo: m.repo, messages: m.messages } == m);
}

} // verus!

verus! {

/// The powers of 256 up to the frame width.
proof fn lemma_pow256_values()
    ensures
        pow256(0) == 1,
        pow256(1) == 0x100,
        pow256(2) == 0x10000,
        pow256(3) == 0x1000000,
        pow256(4) == 0x100000000,
        pow256(5) == 0x10000000000,
        pow256(6) == 0x1000000000000,
        pow256(7) == 0x100000000000000,
        pow256(8) == 0x10000000000000000,
{
    assert(pow256(0) == 1);
    assert(pow256(1) == 256 * pow256(0));
    assert(pow256(2) == 256 * pow256(1));
    assert(pow256(3) == 256 * pow256(2));
    assert(pow256(4) == 256 * pow256(3));
    assert(pow256(5) == 256 * pow256(4));
    assert(pow256(6) == 256 * pow256(5));
    assert(pow256(7) == 256 * pow256(6));
    assert(pow256(8) == 256 * pow256(7));
}

/// Powers of 256 grow with the exponent.
proof fn lemma_pow256_mono(a: nat, b: nat)
    requires
        a <= b,
    ensures
        pow256(a) <= pow256(b),
    decreases b,
{
    if a < b {
        lemma_pow256_mono(a, (b - 1) as nat);
        assert(pow256(b) == 256 * pow256((b - 1) as nat));
        assert(pow256((b - 1) as nat) <= 256 * pow256((b - 1) as nat)) by (nonlinear_arith)
            requires
                pow256((b - 1) as nat) >= 0,
        ;
    }
}

/// Read an eight-byte little-endian integer.
#[verifier::loop_isolation(false)]
fn read_le(b: &Vec<u8>, p: usize) -> (r: Option<(u64, usize)>)
    ensures
        match r {
            Some(v) => dec_u64(b@, p as int) == Some((v.0 as nat, v.1 as int)) && v.1 == p + 8
                && p + 8 <= b@.len(),
            None => dec_u64(b@, p as int) is None,
        },
{
    proof {
        lemma_pow256_values();
    }
    if p > b.len() || b.len() - p < 8 {
        return None;
    }
    let mut val: u64 = 0;
    let mut j: usize = 8;
    proof {
        assert(b@.subrange(p + 8 as int, p as int + 8) =~= Seq::<u8>::empty());
    }
    while j > 0
        invariant
            j <= 8,
            p + 8 <= b@.len(),
            val == le_val(b@.subrange(p + j as int, p as int + 8)),
            val < pow256((8 - j) as nat),
        decreases j,
    {
        proof {
            assert(pow256((8 - j) as nat) <= pow256(7)) by {
                lemma_pow256_mono((8 - j) as nat, 7);
            }
            assert(pow256((8 - (j - 1)) as nat) == 256 * pow256((8 - j) as nat));
        }
        j = j - 1;
        let byte = b[p + j];
        proof {
            let sub = b@.subrange(p + j as int, p as int + 8);
            assert(sub[0] == b@[p + j as int]);
            assert(sub.drop_first() =~= b@.subrange(p + j + 1 as int, p as int + 8));
        }
        val = val * 256 + byte as u64;
    }
    proof {
        assert(b@.subrange(p + 0 as int, p as int + 8) =~= b@.subrange(p as int, p as int + 8));
    }
    Some((val, p + 8))
}

/// Relies on `String::from_utf8`: bytes that are valid UTF-8 become the
/// string whose UTF-8 encoding they are, and any other bytes are
/// rejected.
#[verifier::external_body]
fn string_from_utf8(v: Vec<u8>) -> (r: Option<String>)
    ensures
        match r {
            Some(s) => valid_utf8(v@) && encode_utf8(s@) == v@,
            None => !valid_utf8(v@),
        },
{
    String::from_utf8(v).ok()
}

/// Read a length-prefixed UTF-8 string.
#[verifier::loop_isolation(false)]
fn read_str(b: &Vec<u8>, p: usize) -> (r: Option<(String, usize)>)
    ensures
        match r {
            Some(v) => dec_str(b@, p as int) == Some((v.0@, v.1 as int)) && p <= v.1 <= b@.len(),
            None => dec_str(b@, p as int) is None,
        },
{
    let lq = match read_le(b, p) {
        Some(x) => x,
        None => {
            return None;
        },
    };
    let l = lq.0;
    let q = lq.1;
    if l > (b.len() - q) as u64 {
        return None;
    }
    let lu = l as usize;
    let mut bytes: Vec<u8> = Vec::new();
    let mut t: usize = 0;
    proof {
        assert(bytes@ =~= b@.subrange(q as int, q as int));
    }
    while t < lu
        invariant
            t <= lu,
            q + lu <= b@.len(),
            bytes@ == b@.subrange(q as int, q + t as int),
        decreases lu - t,
    {
        bytes.push(b[q + t]);
        proof {
            assert(bytes@ =~= b@.subrange(q as int, q + t + 1 as int));
        }
        t = t + 1;
    }
    match string_from_utf8(bytes) {
        Some(s) => {
            proof {
                vstd::utf8::encode_utf8_decode_utf8(s@);
            }
            Some((s, q + lu))
        },
        None => None,
    }
}

/// The remote-message views of decoded entries.
pub open spec fn entry_views(v: Seq<(Remote, String)>) -> Seq<(RemoteV, Seq<char>)> {
    v.map_values(|e: (Remote, String)| (remote_v(e.0), e.1@))
}

/// The group views of decoded entries.
pub open spec fn group_views(v: Seq<(Branch, RemoteMessages)>) -> Seq<
    (BranchV, Seq<(RemoteV, Seq<char>)>),
> {
    v.map_values(|e: (Branch, RemoteMessages)| (branch_v(e.0), rm_view(e.1)))
}

/// Decode a message from its wire bytes; `None` exactly when the bytes
/// are not the encoding of any message.
#[verifier::loop_isolation(false)]
#[verifier::rlimit(100)]
pub fn decode_message(b: &Vec<u8>) -> (r: Option<Message>)
    ensures
        match r {
            Some(m) => dec_message(b@) == Some(msg_view(m)),
            None => dec_message(b@) is None,
        },
{
    let uuid_p = match read_str(b, 0) {
        Some(x) => x,
        None => {
            return None;
        },
    };
    let uuid = uuid_p.0;
    let p1 = uuid_p.1;
    let repo_p = match read_str(b, p1) {
        Some(x) => x,
        None => {
            return None;
        },
    };
    let repo = repo_p.0;
    let p2 = repo_p.1;
    let gk_p = match read_le(b, p2) {
        Some(x) => x,
        None => {
            return None;
        },
    };
    let gk = gk_p.0;
    let p3 = gk_p.1;
    let mut groups: Vec<(Branch, RemoteMessages)> = Vec::new();
    let mut p: usize = p3;
    let mut rem: u64 = gk;
    proof {
        assert(group_views(groups@) =~= Seq::<(BranchV, Seq<(RemoteV, Seq<char>)>)>::empty());
    }
    loop
        invariant
            p <= b@.len(),
            match dec_groups(b@, p as int, rem as nat) {
                Some(tail) => dec_groups(b@, p3 as int, gk as nat) == Some(
                    (group_views(groups@) + tail.0, tail.1),
                ),
                None => dec_groups(b@, p3 as int, gk as nat) is None,
            },
        decreases rem,
    {
        if rem == 0 {
            break ;
        }
        let bn_p = match read_str(b, p) {
            Some(x) => x,
            None => {
                return None;
            },
        };
        let iv_p = match read_str(b, bn_p.1) {
            Some(x) => x,
            None => {
                return None;
            },
        };
        let nk_p = match read_le(b, iv_p.1) {
            Some(x) => x,
            None => {
                return None;
            },
        };
        let nk = nk_p.0;
        let mut names: Vec<String> = Vec::new();
        let mut np: usize = nk_p.1;
        let mut nrem: u64 = nk;
        proof {
            assert(crate::config_text::string_views(names@) =~= Seq::<Seq<char>>::empty());
        }
        loop
            invariant
                np <= b@.len(),
                match dec_names(b@, np as int, nrem as nat) {
                    Some(tail) => dec_names(b@, nk_p.1 as int, nk as nat) == Some(
                        (crate::config_text::string_views(names@) + tail.0, tail.1),
                    ),
                    None => dec_names(b@, nk_p.1 as int, nk as nat) is None,
                },
            decreases nrem,
        {
            if nrem == 0 {
                break ;
            }
            let s_p = match read_str(b, np) {
                Some(x) => x,
                None => {
                    return None;
                },
            };
            names.push(s_p.0);
            proof {
                let sv = crate::config_text::string_views(names@);
                assert(sv =~= crate::config_text::string_views(names@.drop_last()).push(s_p.0@));
                if dec_names(b@, s_p.1 as int, (nrem - 1) as nat) is Some {
                    let tail2 = dec_names(b@, s_p.1 as int, (nrem - 1) as nat)->0;
                    assert(crate::config_text::string_views(names@.drop_last()) + (seq![s_p.0@]
                        + tail2.0) =~= sv + tail2.0);
                }
            }
            np = s_p.1;
            nrem = nrem - 1;
        }
        proof {
            assert(crate::config_text::string_views(names@) + Seq::<Seq<char>>::empty()
                =~= crate::config_text::string_views(names@));
        }
        let branch = Branch { name: bn_p.0, interval: iv_p.0, remotes: names };
        let rk_p = match read_le(b, np) {
            Some(x) => x,
            None => {
                return None;
            },
        };
        let rk = rk_p.0;
        let mut entries: Vec<(Remote, String)> = Vec::new();
        let mut rp: usize = rk_p.1;
        let mut rrem: u64 = rk;
        proof {
            assert(entry_views(entries@) =~= Seq::<(RemoteV, Seq<char>)>::empty());
        }
        loop
            invariant
                rp <= b@.len(),
                match dec_rms(b@, rp as int, rrem as nat) {
                    Some(tail) => dec_rms(b@, rk_p.1 as int, rk as nat) == Some(
                        (entry_views(entries@) + tail.0, tail.1),
                    ),
                    None => dec_rms(b@, rk_p.1 as int, rk as nat) is None,
                },
            decreases rrem,
        {
            if rrem == 0 {
                break ;
            }
            let rn_p = match read_str(b, rp) {
                Some(x) => x,
                None => {
                    return None;
                },
            };
            let ru_p = match read_str(b, rn_p.1) {
                Some(x) => x,
                None => {
                    return None;
                },
            };
            let tx_p = match read_str(b, ru_p.1) {
                Some(x) => x,
                None => {
                    return None;
                },
            };
            entries.push((Remote { name: rn_p.0, url: ru_p.0 }, tx_p.0));
            proof {
                let ev = entry_views(entries@);
                assert(ev =~= entry_views(entries@.drop_last()).push(
                    (RemoteV { name: rn_p.0@, url: ru_p.0@ }, tx_p.0@),
                ));
                if dec_rms(b@, tx_p.1 as int, (rrem - 1) as nat) is Some {
                    let tail2 = dec_rms(b@, tx_p.1 as int, (rrem - 1) as nat)->0;
                    assert(entry_views(entries@.drop_last()) + (seq![
                        (RemoteV { name: rn_p.0@, url: ru_p.0@ }, tx_p.0@),
                    ] + tail2.0) =~= ev + tail2.0);
                }
            }
            rp = tx_p.1;
            rrem = rrem - 1;
        }
        proof {
            assert(entry_views(entries@) + Seq::<(RemoteV, Seq<char>)>::empty() =~= entry_views(
                entries@,
            ));
        }
        let rm = RemoteMessages { entries };
        proof {
            assert(rm_view(rm) =~= entry_views(rm.entries@));
        }
        groups.push((branch, rm));
        proof {
            let gv = group_views(groups@);
            assert(gv =~= group_views(groups@.drop_last()).push((branch_v(branch), rm_view(rm))));
            if dec_groups(b@, rp as int, (rem - 1) as nat) is Some {
                let tail2 = dec_groups(b@, rp as int, (rem - 1) as nat)->0;
                assert(group_views(groups@.drop_last()) + (seq![(branch_v(branch), rm_view(rm))]
                    + tail2.0) =~= gv + tail2.0);
            }
        }
        p = rp;
        rem = rem - 1;
    }
    proof {
        assert(group_views(groups@) + Seq::<(BranchV, Seq<(RemoteV, Seq<char>)>)>::empty()
            =~= group_views(groups@));
    }
    if p != b.len() {
        return None;
    }
    let bm = BranchMessages { entries: groups };
    proof {
        assert(bm_view(bm) =~= group_views(bm.entries@));
    }
    Some(Message { uuid, repo, messages: bm })
}

} // verus!
