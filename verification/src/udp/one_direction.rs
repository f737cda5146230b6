//! A sender sends payloads to a receiver.

use vstd::prelude::*;

verus! {

/// The largest part of a payload that is sent in a single packet.
pub const PAYLOAD_CHUNK_SIZE_BYTES: usize = 1200;

/// The sizes of the packets in which a payload is sent: as large as possible, one after the other.
pub open spec fn chunks(payload: nat) -> Seq<usize>
    decreases payload,
{
    if payload == 0 {
        Seq::empty()
    } else if payload <= PAYLOAD_CHUNK_SIZE_BYTES {
        seq![payload as usize]
    } else {
        seq![PAYLOAD_CHUNK_SIZE_BYTES] + chunks((payload - PAYLOAD_CHUNK_SIZE_BYTES) as nat)
    }
}

/// The sizes of the packets in which a payload is sent.
pub fn chunk_sizes(payload_bytes: usize) -> (r: Vec<usize>)
    ensures
        r@ == chunks(payload_bytes as nat),
{
    let mut sizes: Vec<usize> = Vec::new();
    let mut pending_send: usize = payload_bytes;
    assert(sizes@ + chunks(payload_bytes as nat) =~= chunks(payload_bytes as nat));
    while pending_send > 0
        invariant
            sizes@ + chunks(pending_send as nat) == chunks(payload_bytes as nat),
        decreases pending_send,
    {
        let next_chunk_size_bytes: usize = if pending_send < PAYLOAD_CHUNK_SIZE_BYTES {
            pending_send
        } else {
            PAYLOAD_CHUNK_SIZE_BYTES
        };
        let ghost before = sizes@;
        let ghost pending = pending_send as nat;
        pending_send = pending_send - next_chunk_size_bytes;
        sizes.push(next_chunk_size_bytes);
        proof {
            assert(chunks(0) =~= Seq::empty());
            assert(chunks(pending) =~= seq![next_chunk_size_bytes] + chunks(pending_send as nat));
            assert(sizes@ + chunks(pending_send as nat) =~= before + chunks(pending));
        }
    }
    assert(sizes@ =~= sizes@ + chunks(0));
    sizes
}

/// The size of all packets together.
pub open spec fn total(sizes: Seq<usize>) -> nat
    decreases sizes.len(),
{
    if sizes.len() == 0 {
        0
    } else {
        sizes[0] as nat + total(sizes.drop_first())
    }
}

/// Nothing of the payload gets lost or is sent twice, no packet is empty, and none is too large.
pub proof fn law_chunks_cover_the_payload(payload: nat)
    requires
        payload <= usize::MAX,
    ensures
        total(chunks(payload)) == payload,
        forall|i: int|
            0 <= i < chunks(payload).len() ==> 0 < #[trigger] chunks(payload)[i]
                <= PAYLOAD_CHUNK_SIZE_BYTES,
    decreases payload,
{
    let all = chunks(payload);
    if payload == 0 {
    } else if payload <= PAYLOAD_CHUNK_SIZE_BYTES {
        assert(all.drop_first() =~= Seq::empty());
        assert(total(Seq::<usize>::empty()) == 0);
    } else {
        let rest = chunks((payload - PAYLOAD_CHUNK_SIZE_BYTES) as nat);
        law_chunks_cover_the_payload((payload - PAYLOAD_CHUNK_SIZE_BYTES) as nat);
        assert(all.drop_first() =~= rest);
        assert forall|i: int| 0 <= i < all.len() implies 0 < #[trigger] all[i]
            <= PAYLOAD_CHUNK_SIZE_BYTES by {
            if i > 0 {
                assert(all[i] == rest[i - 1]);
            }
        }
    }
}

/// A payload is sent in as few packets as possible: all packets hold 1200 bytes, but for the last
/// one, which holds the rest.
pub proof fn law_chunks_are_as_large_as_possible(payload: nat)
    requires
        payload <= usize::MAX,
    ensures
        chunks(payload).len() == (payload + 1199) / 1200,
        forall|i: int| 0 <= i < chunks(payload).len() - 1 ==> #[trigger] chunks(payload)[i] == 1200,
        payload > 0 ==> chunks(payload).last() == payload - 1200 * (chunks(payload).len() - 1),
    decreases payload,
{
    let all = chunks(payload);
    if payload > 1200 {
        let rest = chunks((payload - 1200) as nat);
        law_chunks_are_as_large_as_possible((payload - 1200) as nat);
        assert(all =~= seq![1200usize] + rest);
        assert forall|i: int| 0 <= i < all.len() - 1 implies #[trigger] all[i] == 1200 by {
            if i > 0 {
                assert(all[i] == rest[i - 1]);
            }
        }
        assert(all.last() == rest.last());
    }
}


} // verus!
