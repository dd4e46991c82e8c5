use vstd::prelude::*;

use crate::snapshot::IpcMessage;

verus! {

/// The eight little-endian bytes of a 64-bit value.
pub open spec fn u64_le_bytes(x: u64) -> Seq<u8> {
    seq![
        x as u8,
        (x >> 8) as u8,
        (x >> 16) as u8,
        (x >> 24) as u8,
        (x >> 32) as u8,
        (x >> 40) as u8,
        (x >> 48) as u8,
        (x >> 56) as u8,
    ]
}

/// Wire bytes of a node list: each node as eight little-endian bytes.
pub open spec fn nodes_bytes(nodes: Seq<u64>) -> Seq<u8>
    decreases nodes.len(),
{
    if nodes.len() == 0 {
        Seq::empty()
    } else {
        nodes_bytes(nodes.drop_last()) + u64_le_bytes(nodes.last())
    }
}

/// Wire bytes of an edge list: each edge as its source, then its target.
pub open spec fn edges_bytes(edges: Seq<(u64, u64)>) -> Seq<u8>
    decreases edges.len(),
{
    if edges.len() == 0 {
        Seq::empty()
    } else {
        edges_bytes(edges.drop_last()) + u64_le_bytes(edges.last().0) + u64_le_bytes(
            edges.last().1,
        )
    }
}

/// Payload bytes of a snapshot message: the length-prefixed UTF-8 name,
/// then the length-prefixed node list, then the length-prefixed edge list.
pub open spec fn message_bytes(m: IpcMessage) -> Seq<u8> {
    match m {
        IpcMessage::GraphSnapshot { name, graph } => {
            let nb = vstd::utf8::encode_utf8(name@);
            u64_le_bytes(nb.len() as u64) + nb + u64_le_bytes(graph.nodes@.len() as u64)
                + nodes_bytes(graph.nodes@) + u64_le_bytes(graph.edges@.len() as u64)
                + edges_bytes(graph.edges@)
        },
    }
}

/// One whole frame as the channel puts it on the byte stream: the payload's
/// length, then the payload. Frames are self-delimiting, so the receiver can
/// split the stream back into whole messages.
pub open spec fn frame_bytes(m: IpcMessage) -> Seq<u8> {
    u64_le_bytes(message_bytes(m).len() as u64) + message_bytes(m)
}

fn push_u64_le(out: &mut Vec<u8>, x: u64)
    ensures
        final(out)@ == old(out)@ + u64_le_bytes(x),
{
    out.push(#[verifier::truncate] (x as u8));
    out.push(#[verifier::truncate] ((x >> 8) as u8));
    out.push(#[verifier::truncate] ((x >> 16) as u8));
    out.push(#[verifier::truncate] ((x >> 24) as u8));
    out.push(#[verifier::truncate] ((x >> 32) as u8));
    out.push(#[verifier::truncate] ((x >> 40) as u8));
    out.push(#[verifier::truncate] ((x >> 48) as u8));
    out.push(#[verifier::truncate] ((x >> 56) as u8));
    proof {
        assert(out@ =~= old(out)@ + u64_le_bytes(x));
    }
}

fn push_bytes(out: &mut Vec<u8>, b: &[u8])
    ensures
        final(out)@ == old(out)@ + b@,
{
    let n: usize = b.len();
    let mut i: usize = 0;
    while i < n
        invariant
            n == b@.len(),
            i <= n,
            out@ == old(out)@ + b@.take(i as int),
        decreases n - i,
    {
        out.push(b[i]);
        proof {
            assert(out@ =~= old(out)@ + b@.take(i as int + 1));
        }
        i += 1;
    }
    proof {
        assert(b@.take(n as int) =~= b@);
    }
}

/// Encodes one message into its payload bytes, exactly as `message_bytes`
/// lays them out.
pub fn encode_message(m: &IpcMessage) -> (r: Vec<u8>)
    ensures
        r@ == message_bytes(*m),
{
    match m {
        IpcMessage::GraphSnapshot { name, graph } => {
            let mut out: Vec<u8> = Vec::new();
            let name_bytes: &[u8] = name.as_str().as_bytes();
            push_u64_le(&mut out, name_bytes.len() as u64);
            push_bytes(&mut out, name_bytes);
            push_u64_le(&mut out, graph.nodes.len() as u64);
            let ghost prefix1 = out@;
            let n: usize = graph.nodes.len();
            let mut i: usize = 0;
            while i < n
                invariant
                    n == graph.nodes@.len(),
                    i <= n,
                    out@ == prefix1 + nodes_bytes(graph.nodes@.take(i as int)),
                decreases n - i,
            {
                push_u64_le(&mut out, graph.nodes[i]);
                proof {
                    assert(graph.nodes@.take(i as int + 1).drop_last() =~= graph.nodes@.take(
                        i as int,
                    ));
                    assert(graph.nodes@.take(i as int + 1).last() == graph.nodes@[i as int]);
                    assert(out@ =~= prefix1 + nodes_bytes(graph.nodes@.take(i as int + 1)));
                }
                i += 1;
            }
            proof {
                assert(graph.nodes@.take(n as int) =~= graph.nodes@);
            }
            push_u64_le(&mut out, graph.edges.len() as u64);
            let ghost prefix2 = out@;
            let k: usize = graph.edges.len();
            let mut j: usize = 0;
            while j < k
                invariant
                    k == graph.edges@.len(),
                    j <= k,
                    out@ == prefix2 + edges_bytes(graph.edges@.take(j as int)),
                decreases k - j,
            {
                push_u64_le(&mut out, graph.edges[j].0);
                push_u64_le(&mut out, graph.edges[j].1);
                proof {
                    assert(graph.edges@.take(j as int + 1).drop_last() =~= graph.edges@.take(
                        j as int,
                    ));
                    assert(graph.edges@.take(j as int + 1).last() == graph.edges@[j as int]);
                    assert(out@ =~= prefix2 + edges_bytes(graph.edges@.take(j as int + 1)));
                }
                j += 1;
            }
            proof {
                assert(graph.edges@.take(k as int) =~= graph.edges@);
                assert(out@ =~= message_bytes(*m));
            }
            out
        },
    }
}

/// Encodes one whole frame: length prefix, then payload. What the channel's
/// send half writes to the byte stream for one message.
pub fn encode_frame(m: &IpcMessage) -> (r: Vec<u8>)
    ensures
        r@ == frame_bytes(*m),
{
    let payload = encode_message(m);
    let mut out: Vec<u8> = Vec::new();
    push_u64_le(&mut out, payload.len() as u64);
    push_bytes(&mut out, payload.as_slice());
    proof {
        assert(out@ =~= frame_bytes(*m));
    }
    out
}

/// The value whose eight little-endian bytes are `s`.
pub open spec fn le64(s: Seq<u8>) -> u64
    recommends
        s.len() == 8,
{
    (s[0] as u64) | ((s[1] as u64) << 8) | ((s[2] as u64) << 16) | ((s[3] as u64) << 24) | ((
    s[4] as u64) << 32) | ((s[5] as u64) << 40) | ((s[6] as u64) << 48) | ((s[7] as u64) << 56)
}

/// Reassembling the eight little-endian bytes of a value gives it back.
pub proof fn lemma_le64_of_u64(x: u64)
    ensures
        le64(u64_le_bytes(x)) == x,
{
    assert(((x as u8) as u64) | ((((x >> 8) as u8) as u64) << 8) | ((((x >> 16) as u8) as u64)
        << 16) | ((((x >> 24) as u8) as u64) << 24) | ((((x >> 32) as u8) as u64) << 32) | ((((x
        >> 40) as u8) as u64) << 40) | ((((x >> 48) as u8) as u64) << 48) | ((((x >> 56) as u8)
        as u64) << 56) == x) by (bit_vector);
}

/// Taking the little-endian bytes of a reassembled value gives the bytes
/// back.
pub proof fn lemma_u64_of_le64(s: Seq<u8>)
    requires
        s.len() == 8,
    ensures
        u64_le_bytes(le64(s)) == s,
{
    let b0 = s[0];
    let b1 = s[1];
    let b2 = s[2];
    let b3 = s[3];
    let b4 = s[4];
    let b5 = s[5];
    let b6 = s[6];
    let b7 = s[7];
    let x = le64(s);
    assert(x == (b0 as u64) | ((b1 as u64) << 8) | ((b2 as u64) << 16) | ((b3 as u64) << 24) | ((
    b4 as u64) << 32) | ((b5 as u64) << 40) | ((b6 as u64) << 48) | ((b7 as u64) << 56));
    assert(x as u8 == b0 && (x >> 8) as u8 == b1 && (x >> 16) as u8 == b2 && (x >> 24) as u8 == b3
        && (x >> 32) as u8 == b4 && (x >> 40) as u8 == b5 && (x >> 48) as u8 == b6 && (x
        >> 56) as u8 == b7) by (bit_vector)
        requires
            x == (b0 as u64) | ((b1 as u64) << 8) | ((b2 as u64) << 16) | ((b3 as u64) << 24) | ((
            b4 as u64) << 32) | ((b5 as u64) << 40) | ((b6 as u64) << 48) | ((b7 as u64) << 56),
    ;
    assert(u64_le_bytes(x) =~= s);
}

fn read_u64_le(b: &[u8], off: usize) -> (r: u64)
    requires
        off + 8 <= b@.len(),
    ensures
        r == le64(b@.subrange(off as int, off as int + 8)),
{
    let r = (b[off] as u64) | ((b[off + 1] as u64) << 8) | ((b[off + 2] as u64) << 16) | ((b[off
        + 3] as u64) << 24) | ((b[off + 4] as u64) << 32) | ((b[off + 5] as u64) << 40) | ((b[off
        + 6] as u64) << 48) | ((b[off + 7] as u64) << 56);
    proof {
        let s = b@.subrange(off as int, off as int + 8);
        assert(s[0] == b@[off as int] && s[1] == b@[off as int + 1] && s[2] == b@[off as int + 2]
            && s[3] == b@[off as int + 3] && s[4] == b@[off as int + 4] && s[5] == b@[off as int
            + 5] && s[6] == b@[off as int + 6] && s[7] == b@[off as int + 7]);
    }
    r
}

/// Splits one whole frame off the front of a byte stream: the payload and
/// how many bytes of the stream it used. Returns nothing while the stream
/// holds less than one whole frame.
pub fn split_frame(b: &[u8]) -> (r: Option<(Vec<u8>, usize)>)
    ensures
        match r {
            Some(pair) => {
                &&& pair.1 == 8 + pair.0@.len()
                &&& pair.1 <= b@.len()
                &&& b@.subrange(0, 8) == u64_le_bytes(pair.0@.len() as u64)
                &&& pair.0@ == b@.subrange(8, pair.1 as int)
            },
            None => b@.len() < 8 || (le64(b@.subrange(0, 8)) as int) > b@.len() - 8,
        },
{
    if b.len() < 8 {
        return None;
    }
    let n = read_u64_le(b, 0);
    if n > (b.len() - 8) as u64 {
        return None;
    }
    let n_us = n as usize;
    let blen: usize = b.len();
    let mut payload: Vec<u8> = Vec::new();
    let mut i: usize = 0;
    while i < n_us
        invariant
            blen == b@.len(),
            n_us + 8 <= blen,
            i <= n_us,
            payload@ == b@.subrange(8, 8 + i as int),
        decreases n_us - i,
    {
        payload.push(b[8 + i]);
        proof {
            assert(payload@ =~= b@.subrange(8, 8 + i as int + 1));
        }
        i += 1;
    }
    proof {
        lemma_u64_of_le64(b@.subrange(0, 8));
        assert(payload@.len() as u64 == n);
    }
    Some((payload, 8 + n_us))
}

/// Frames are self-delimiting: splitting a stream that starts with one
/// encoded frame yields exactly that frame's payload and consumes exactly
/// that frame, whatever follows it.
pub proof fn lemma_frame_self_delimiting(
    m: IpcMessage,
    rest: Seq<u8>,
    b: Seq<u8>,
    p: Seq<u8>,
    used: int,
)
    requires
        message_bytes(m).len() <= u64::MAX,
        p.len() <= u64::MAX,
        b == frame_bytes(m) + rest,
        used == 8 + p.len(),
        used <= b.len(),
        b.subrange(0, 8) == u64_le_bytes(p.len() as u64),
        p == b.subrange(8, used),
    ensures
        p == message_bytes(m),
        used == 8 + message_bytes(m).len(),
{
    let payload = message_bytes(m);
    assert(b.subrange(0, 8) =~= u64_le_bytes(payload.len() as u64));
    lemma_le64_of_u64(payload.len() as u64);
    lemma_le64_of_u64(p.len() as u64);
    assert(p.len() as u64 == payload.len() as u64);
    assert(p.len() <= b.len());
    assert(p =~= payload);
}

} // verus!
