//! The reconciliation engine: walks confirmed blocks, matches their envelopes
//! against staged blobs, promotes the valid ones and advances the checkpoint.
use vstd::prelude::*;
use crate::mempool::{Mempool, content_hash, sha256_of};
use crate::parser::{find_envelope, script_envelope};
use crate::store::{BlobMap, bytes_eq};

verus! {

/// A transaction input, reduced to its tapscript witness script, if any.
pub struct TxInput {
    pub witness_script: Option<Vec<u8>>,
}

/// A transaction, reduced to its inputs.
pub struct Transaction {
    pub inputs: Vec<TxInput>,
}

/// A block, reduced to its transactions.
pub struct Block {
    pub transactions: Vec<Transaction>,
}

/// The envelope carried by an input: none without a witness script.
pub open spec fn input_envelope(inp: TxInput) -> Option<(Seq<u8>, Seq<u8>)> {
    match inp.witness_script {
        Some(s) => script_envelope(s@),
        None => None,
    }
}

/// The unsigned little-endian integer that a byte string encodes.
pub open spec fn le_value(b: Seq<u8>) -> nat
    decreases b.len(),
{
    if b.len() == 0 {
        0
    } else {
        b[0] as nat + 256 * le_value(b.drop_first())
    }
}

/// The declared-size field, read as a little-endian integer, equals the
/// payload's length.
pub open spec fn size_matches(size: Seq<u8>, payload: Seq<u8>) -> bool {
    le_value(size) == payload.len()
}

/// A staged payload is accepted for an envelope `(hash, size)` when its size
/// matches and it really hashes to `hash`.
pub open spec fn blob_valid(hash: Seq<u8>, size: Seq<u8>, payload: Seq<u8>) -> bool {
    size_matches(size, payload) && sha256_of(payload) == hash
}

/// One envelope against the staging map: a staged blob is consumed, and kept
/// in `accepted` only when valid.
pub open spec fn envelope_step(
    staged: Map<Seq<u8>, Seq<u8>>,
    accepted: Seq<(Seq<u8>, Seq<u8>)>,
    env: Option<(Seq<u8>, Seq<u8>)>,
) -> (Map<Seq<u8>, Seq<u8>>, Seq<(Seq<u8>, Seq<u8>)>) {
    match env {
        None => (staged, accepted),
        Some((h, sz)) => if staged.contains_key(h) {
            (
                staged.remove(h),
                if blob_valid(h, sz, staged[h]) {
                    accepted.push((h, staged[h]))
                } else {
                    accepted
                },
            )
        } else {
            (staged, accepted)
        },
    }
}

/// The inputs of a transaction, in order.
pub open spec fn inputs_step(
    staged: Map<Seq<u8>, Seq<u8>>,
    accepted: Seq<(Seq<u8>, Seq<u8>)>,
    ins: Seq<TxInput>,
) -> (Map<Seq<u8>, Seq<u8>>, Seq<(Seq<u8>, Seq<u8>)>)
    decreases ins.len(),
{
    if ins.len() == 0 {
        (staged, accepted)
    } else {
        let (s, a) = inputs_step(staged, accepted, ins.drop_last());
        envelope_step(s, a, input_envelope(ins.last()))
    }
}

/// The transactions of a block, in order.
pub open spec fn txs_step(
    staged: Map<Seq<u8>, Seq<u8>>,
    accepted: Seq<(Seq<u8>, Seq<u8>)>,
    txs: Seq<Transaction>,
) -> (Map<Seq<u8>, Seq<u8>>, Seq<(Seq<u8>, Seq<u8>)>)
    decreases txs.len(),
{
    if txs.len() == 0 {
        (staged, accepted)
    } else {
        let (s, a) = txs_step(staged, accepted, txs.drop_last());
        inputs_step(s, a, txs.last().inputs@)
    }
}

/// Writes `blobs` into `m` in order.
pub open spec fn insert_all(m: Map<Seq<u8>, Seq<u8>>, blobs: Seq<(Seq<u8>, Seq<u8>)>) -> Map<
    Seq<u8>,
    Seq<u8>,
>
    decreases blobs.len(),
{
    if blobs.len() == 0 {
        m
    } else {
        insert_all(m, blobs.drop_last()).insert(blobs.last().0, blobs.last().1)
    }
}

/// The blobs that block `b` confirms, starting from staging map `staged`.
pub open spec fn block_accepted(staged: Map<Seq<u8>, Seq<u8>>, b: Block) -> Seq<
    (Seq<u8>, Seq<u8>),
> {
    txs_step(staged, Seq::empty(), b.transactions@).1
}

/// The staging map after block `b`.
pub open spec fn staged_after(staged: Map<Seq<u8>, Seq<u8>>, b: Block) -> Map<Seq<u8>, Seq<u8>> {
    txs_step(staged, Seq::empty(), b.transactions@).0
}

/// The confirmed map after block `b`.
pub open spec fn confirmed_after(
    staged: Map<Seq<u8>, Seq<u8>>,
    confirmed: Map<Seq<u8>, Seq<u8>>,
    b: Block,
) -> Map<Seq<u8>, Seq<u8>> {
    insert_all(confirmed, block_accepted(staged, b))
}

/// The byte views of a list of (hash, payload) pairs.
pub open spec fn pairs_view(v: Seq<(Vec<u8>, Vec<u8>)>) -> Seq<(Seq<u8>, Seq<u8>)> {
    v.map_values(|p: (Vec<u8>, Vec<u8>)| (p.0@, p.1@))
}

proof fn lemma_digit(a: int, v: int, r: int)
    requires
        0 <= a < 256,
        0 <= v,
        0 <= r,
    ensures
        (a + 256 * v == r) == (a == r % 256 && v == r / 256),
{
    if a + 256 * v == r {
        vstd::arithmetic::div_mod::lemma_fundamental_div_mod_converse(r, 256, v, a);
    }
    assert(r == 256 * (r / 256) + r % 256);
}

/// Whether the declared-size field, read as a little-endian integer of any
/// width, equals `len`.
pub fn size_field_matches(size: &[u8], len: usize) -> (r: bool)
    ensures
        r == (le_value(size@) == len as nat),
{
    let mut rem: usize = len;
    let mut i: usize = 0;
    proof {
        assert(size@.subrange(0, size@.len() as int) =~= size@);
    }
    while i < size.len()
        invariant
            i <= size@.len(),
            (le_value(size@) == len as nat) == (le_value(size@.subrange(i as int, size@.len() as int))
                == rem as nat),
        decreases size@.len() - i,
    {
        let ghost tail = size@.subrange(i as int, size@.len() as int);
        proof {
            assert(tail.drop_first() =~= size@.subrange(i + 1, size@.len() as int));
            lemma_digit(size@[i as int] as int, le_value(tail.drop_first()) as int, rem as int);
        }
        if size[i] as usize != rem % 256 {
            return false;
        }
        rem = rem / 256;
        i = i + 1;
    }
    proof {
        assert(size@.subrange(i as int, size@.len() as int).len() == 0);
    }
    rem == 0
}

/// The acceptance test of a staged payload against an envelope, given the
/// payload's content hash `digest`.
pub fn envelope_accepts(hash: &[u8], size: &[u8], payload: &[u8], digest: &[u8]) -> (r: bool)
    ensures
        r == (size_matches(size@, payload@) && digest@ == hash@),
{
    size_field_matches(size, payload.len()) && bytes_eq(digest, hash)
}

fn blob_accepted(hash: &[u8], size: &[u8], payload: &[u8]) -> (r: bool)
    ensures
        r == blob_valid(hash@, size@, payload@),
{
    let digest = content_hash(payload);
    envelope_accepts(hash, size, payload, digest.as_slice())
}

fn reconcile_input(
    mempool: &mut Mempool,
    input: &TxInput,
    accepted: &mut Vec<(Vec<u8>, Vec<u8>)>,
)
    requires
        old(mempool).wf(),
    ensures
        final(mempool).wf(),
        (final(mempool)@, pairs_view(final(accepted)@)) == envelope_step(
            old(mempool)@,
            pairs_view(old(accepted)@),
            input_envelope(*input),
        ),
{
    if let Some(script) = &input.witness_script {
        if let Some((h, sz)) = find_envelope(script.as_slice()) {
            if let Some(data) = mempool.get_blob(h.as_slice()) {
                mempool.remove_blob(h.as_slice());
                if blob_accepted(h.as_slice(), sz.as_slice(), data.as_slice()) {
                    let ghost before = accepted@;
                    accepted.push((h, data));
                    proof {
                        assert(pairs_view(accepted@) =~= pairs_view(before).push(
                            (accepted@.last().0@, accepted@.last().1@),
                        ));
                    }
                }
            }
        }
    }
}

/// Reconciles the inputs of one transaction, in order.
fn reconcile_transaction(
    mempool: &mut Mempool,
    tx: &Transaction,
    accepted: &mut Vec<(Vec<u8>, Vec<u8>)>,
)
    requires
        old(mempool).wf(),
    ensures
        final(mempool).wf(),
        (final(mempool)@, pairs_view(final(accepted)@)) == inputs_step(
            old(mempool)@,
            pairs_view(old(accepted)@),
            tx.inputs@,
        ),
{
    let ghost s0 = mempool@;
    let ghost a0 = pairs_view(accepted@);
    let mut j: usize = 0;
    proof {
        assert(tx.inputs@.take(0) =~= Seq::<TxInput>::empty());
    }
    while j < tx.inputs.len()
        invariant
            mempool.wf(),
            j <= tx.inputs@.len(),
            (mempool@, pairs_view(accepted@)) == inputs_step(s0, a0, tx.inputs@.take(j as int)),
        decreases tx.inputs@.len() - j,
    {
        reconcile_input(mempool, &tx.inputs[j], accepted);
        proof {
            assert(tx.inputs@.take(j + 1).drop_last() =~= tx.inputs@.take(j as int));
        }
        j = j + 1;
    }
    proof {
        assert(tx.inputs@.take(j as int) =~= tx.inputs@);
    }
}

/// The envelope of `inp`, if any, names no key of `s`.
pub open spec fn envelope_absent(s: Map<Seq<u8>, Seq<u8>>, inp: TxInput) -> bool {
    match input_envelope(inp) {
        Some((h, _)) => !s.contains_key(h),
        None => true,
    }
}

/// No envelope of any input of `txs` names a key of `s`.
pub open spec fn envelopes_absent(s: Map<Seq<u8>, Seq<u8>>, txs: Seq<Transaction>) -> bool {
    forall|t: int, i: int|
        0 <= t < txs.len() && 0 <= i < txs[t].inputs@.len() ==> #[trigger] envelope_absent(
            s,
            txs[t].inputs@[i],
        )
}

proof fn lemma_inputs_consume(
    s: Map<Seq<u8>, Seq<u8>>,
    a: Seq<(Seq<u8>, Seq<u8>)>,
    ins: Seq<TxInput>,
)
    ensures
        inputs_step(s, a, ins).0.dom().subset_of(s.dom()),
        forall|i: int| 0 <= i < ins.len() ==> #[trigger] envelope_absent(inputs_step(s, a, ins).0, ins[i]),
    decreases ins.len(),
{
    if ins.len() > 0 {
        let pre = ins.drop_last();
        lemma_inputs_consume(s, a, pre);
        let s1 = inputs_step(s, a, pre).0;
        let s2 = inputs_step(s, a, ins).0;
        assert(s2.dom().subset_of(s1.dom()));
        assert forall|i: int| 0 <= i < ins.len() implies #[trigger] envelope_absent(s2, ins[i]) by {
            if i < ins.len() - 1 {
                assert(envelope_absent(s1, pre[i]));
            }
        }
    }
}

proof fn lemma_inputs_noop(s: Map<Seq<u8>, Seq<u8>>, a: Seq<(Seq<u8>, Seq<u8>)>, ins: Seq<TxInput>)
    requires
        forall|i: int| 0 <= i < ins.len() ==> #[trigger] envelope_absent(s, ins[i]),
    ensures
        inputs_step(s, a, ins) == (s, a),
    decreases ins.len(),
{
    if ins.len() > 0 {
        let pre = ins.drop_last();
        assert forall|i: int| 0 <= i < pre.len() implies #[trigger] envelope_absent(s, pre[i]) by {
            assert(envelope_absent(s, ins[i]));
        }
        lemma_inputs_noop(s, a, pre);
        assert(envelope_absent(s, ins[ins.len() - 1]));
    }
}

proof fn lemma_txs_consume(
    s: Map<Seq<u8>, Seq<u8>>,
    a: Seq<(Seq<u8>, Seq<u8>)>,
    txs: Seq<Transaction>,
)
    ensures
        txs_step(s, a, txs).0.dom().subset_of(s.dom()),
        envelopes_absent(txs_step(s, a, txs).0, txs),
    decreases txs.len(),
{
    if txs.len() > 0 {
        let pre = txs.drop_last();
        lemma_txs_consume(s, a, pre);
        let (s1, a1) = txs_step(s, a, pre);
        lemma_inputs_consume(s1, a1, txs.last().inputs@);
        let s2 = txs_step(s, a, txs).0;
        assert forall|t: int, i: int|
            0 <= t < txs.len() && 0 <= i < txs[t].inputs@.len() implies #[trigger] envelope_absent(
            s2,
            txs[t].inputs@[i],
        ) by {
            if t < txs.len() - 1 {
                assert(envelope_absent(s1, pre[t].inputs@[i]));
            } else {
                assert(envelope_absent(s2, txs.last().inputs@[i]));
            }
        }
    }
}

proof fn lemma_txs_noop(s: Map<Seq<u8>, Seq<u8>>, a: Seq<(Seq<u8>, Seq<u8>)>, txs: Seq<Transaction>)
    requires
        envelopes_absent(s, txs),
    ensures
        txs_step(s, a, txs) == (s, a),
    decreases txs.len(),
{
    if txs.len() > 0 {
        let pre = txs.drop_last();
        assert forall|t: int, i: int|
            0 <= t < pre.len() && 0 <= i < pre[t].inputs@.len() implies #[trigger] envelope_absent(
            s,
            pre[t].inputs@[i],
        ) by {
            assert(envelope_absent(s, txs[t].inputs@[i]));
        }
        lemma_txs_noop(s, a, pre);
        let last = txs.last().inputs@;
        assert forall|i: int| 0 <= i < last.len() implies #[trigger] envelope_absent(s, last[i]) by {
            assert(envelope_absent(s, txs[txs.len() - 1].inputs@[i]));
        }
        lemma_inputs_noop(s, a, last);
    }
}

/// Processing a block a second time changes neither the staging map nor the
/// confirmed map: the first pass consumed every staged blob that the block
/// names, so the second finds nothing to promote.
pub proof fn lemma_block_idempotent(
    staged: Map<Seq<u8>, Seq<u8>>,
    confirmed: Map<Seq<u8>, Seq<u8>>,
    b: Block,
)
    ensures
        staged_after(staged_after(staged, b), b) == staged_after(staged, b),
        confirmed_after(staged_after(staged, b), confirmed_after(staged, confirmed, b), b)
            == confirmed_after(staged, confirmed, b),
{
    let txs = b.transactions@;
    lemma_txs_consume(staged, Seq::empty(), txs);
    let s1 = staged_after(staged, b);
    lemma_txs_noop(s1, Seq::empty(), txs);
    assert(block_accepted(s1, b).len() == 0);
}

/// A block whose only transaction has one input, carrying envelope `(h, sz)`
/// for a staged blob, consumes that blob; the blob is confirmed exactly when
/// it is valid for the envelope, and is otherwise lost.
pub proof fn lemma_single_envelope_block(
    staged: Map<Seq<u8>, Seq<u8>>,
    confirmed: Map<Seq<u8>, Seq<u8>>,
    b: Block,
    h: Seq<u8>,
    sz: Seq<u8>,
)
    requires
        b.transactions@.len() == 1,
        b.transactions@[0].inputs@.len() == 1,
        input_envelope(b.transactions@[0].inputs@[0]) == Some((h, sz)),
        staged.contains_key(h),
    ensures
        staged_after(staged, b) == staged.remove(h),
        confirmed_after(staged, confirmed, b) == if blob_valid(h, sz, staged[h]) {
            confirmed.insert(h, staged[h])
        } else {
            confirmed
        },
{
    let txs = b.transactions@;
    let ins = txs[0].inputs@;
    assert(txs.drop_last().len() == 0);
    assert(ins.drop_last().len() == 0);
    assert(txs.last() == txs[0]);
    assert(ins.last() == ins[0]);
    let e = Seq::<(Seq<u8>, Seq<u8>)>::empty();
    assert(txs_step(staged, e, txs.drop_last()) == (staged, e));
    assert(inputs_step(staged, e, ins.drop_last()) == (staged, e));
    assert(inputs_step(staged, e, ins) == envelope_step(staged, e, Some((h, sz))));
    assert(txs_step(staged, e, txs) == inputs_step(staged, e, ins));
    let acc = block_accepted(staged, b);
    if blob_valid(h, sz, staged[h]) {
        assert(acc =~= seq![(h, staged[h])]);
        assert(acc.drop_last() =~= e);
        assert(insert_all(confirmed, acc.drop_last()) == confirmed);
    } else {
        assert(acc =~= e);
    }
}

/// The checkpoint never goes back, and processing the blocks at heights
/// `c + 1 ..= c + n` from checkpoint `c` leaves it at `c + n`.
pub proof fn lemma_checkpoint_monotonic(
    staged: Map<Seq<u8>, Seq<u8>>,
    confirmed: Map<Seq<u8>, Seq<u8>>,
    checkpoint: int,
    blocks: Seq<Block>,
    first: int,
)
    ensures
        blocks_step(staged, confirmed, checkpoint, blocks, first).2 >= checkpoint,
        first == checkpoint + 1 ==> blocks_step(staged, confirmed, checkpoint, blocks, first).2
            == checkpoint + blocks.len(),
    decreases blocks.len(),
{
    if blocks.len() > 0 {
        lemma_checkpoint_monotonic(staged, confirmed, checkpoint, blocks.drop_last(), first);
    }
}

/// The hash named by an input's envelope, as a sequence of zero or one items.
pub open spec fn input_hash(inp: TxInput) -> Seq<Seq<u8>> {
    match input_envelope(inp) {
        Some((h, _)) => seq![h],
        None => Seq::empty(),
    }
}

/// The envelope hashes of `ins`, in order.
pub open spec fn inputs_hashes(ins: Seq<TxInput>) -> Seq<Seq<u8>>
    decreases ins.len(),
{
    if ins.len() == 0 {
        Seq::empty()
    } else {
        inputs_hashes(ins.drop_last()) + input_hash(ins.last())
    }
}

/// The envelope hashes of `txs`, in order.
pub open spec fn txs_hashes(txs: Seq<Transaction>) -> Seq<Seq<u8>>
    decreases txs.len(),
{
    if txs.len() == 0 {
        Seq::empty()
    } else {
        txs_hashes(txs.drop_last()) + inputs_hashes(txs.last().inputs@)
    }
}

/// The envelope hashes of block `b`, in order.
pub open spec fn block_hashes(b: Block) -> Seq<Seq<u8>> {
    txs_hashes(b.transactions@)
}

/// `after` is `before` without the keys listed in `hs`.
pub open spec fn removes_listed(
    before: Map<Seq<u8>, Seq<u8>>,
    after: Map<Seq<u8>, Seq<u8>>,
    hs: Seq<Seq<u8>>,
) -> bool {
    &&& after.submap_of(before)
    &&& forall|k: Seq<u8>| #[trigger]
        after.contains_key(k) == (before.contains_key(k) && !hs.contains(k))
}

proof fn lemma_inputs_remove_listed(
    s: Map<Seq<u8>, Seq<u8>>,
    a: Seq<(Seq<u8>, Seq<u8>)>,
    ins: Seq<TxInput>,
)
    ensures
        removes_listed(s, inputs_step(s, a, ins).0, inputs_hashes(ins)),
    decreases ins.len(),
{
    if ins.len() == 0 {
        assert(removes_listed(s, s, Seq::empty()));
    } else {
        let pre = ins.drop_last();
        lemma_inputs_remove_listed(s, a, pre);
        let s1 = inputs_step(s, a, pre).0;
        let s2 = inputs_step(s, a, ins).0;
        let hs1 = inputs_hashes(pre);
        let last = input_hash(ins.last());
        let hs2 = inputs_hashes(ins);
        assert(hs2 == hs1 + last);
        assert forall|k: Seq<u8>| #[trigger] s2.contains_key(k) == (s.contains_key(k)
            && !hs2.contains(k)) by {
            assert(s1.contains_key(k) == (s.contains_key(k) && !hs1.contains(k)));
            match input_envelope(ins.last()) {
                Some((h, _)) => {
                    assert(last == seq![h]);
                    if k == h {
                        assert(last[0] == k);
                    }
                },
                None => {
                    assert(last.len() == 0);
                },
            }
            if hs1.contains(k) {
                let j = choose|j: int| 0 <= j < hs1.len() && hs1[j] == k;
                assert(hs2[j] == k);
            }
            if last.contains(k) {
                let j = choose|j: int| 0 <= j < last.len() && last[j] == k;
                assert(hs2[hs1.len() + j] == k);
            }
            if hs2.contains(k) {
                let j = choose|j: int| 0 <= j < hs2.len() && hs2[j] == k;
                if j < hs1.len() {
                    assert(hs1[j] == k);
                } else {
                    assert(last[j - hs1.len()] == k);
                }
            }
        }
    }
}

/// Reconciling a block removes from the staging map exactly the keys that
/// its envelopes name, and changes no other entry.
pub proof fn lemma_staged_after_removes_block_hashes(s: Map<Seq<u8>, Seq<u8>>, b: Block)
    ensures
        removes_listed(s, staged_after(s, b), block_hashes(b)),
{
    lemma_txs_remove_listed(s, Seq::empty(), b.transactions@);
}

proof fn lemma_txs_remove_listed(
    s: Map<Seq<u8>, Seq<u8>>,
    a: Seq<(Seq<u8>, Seq<u8>)>,
    txs: Seq<Transaction>,
)
    ensures
        removes_listed(s, txs_step(s, a, txs).0, txs_hashes(txs)),
    decreases txs.len(),
{
    if txs.len() == 0 {
        assert(removes_listed(s, s, Seq::empty()));
    } else {
        let pre = txs.drop_last();
        lemma_txs_remove_listed(s, a, pre);
        let (s1, a1) = txs_step(s, a, pre);
        lemma_inputs_remove_listed(s1, a1, txs.last().inputs@);
        let s2 = txs_step(s, a, txs).0;
        let hs1 = txs_hashes(pre);
        let last = inputs_hashes(txs.last().inputs@);
        let hs2 = txs_hashes(txs);
        assert(hs2 == hs1 + last);
        assert forall|k: Seq<u8>| #[trigger] s2.contains_key(k) == (s.contains_key(k)
            && !hs2.contains(k)) by {
            if hs1.contains(k) {
                let j = choose|j: int| 0 <= j < hs1.len() && hs1[j] == k;
                assert(hs2[j] == k);
            }
            if last.contains(k) {
                let j = choose|j: int| 0 <= j < last.len() && last[j] == k;
                assert(hs2[hs1.len() + j] == k);
            }
            if hs2.contains(k) {
                let j = choose|j: int| 0 <= j < hs2.len() && hs2[j] == k;
                if j < hs1.len() {
                    assert(hs1[j] == k);
                } else {
                    assert(last[j - hs1.len()] == k);
                }
            }
        }
    }
}

/// The content hashes named by the envelopes of `block`, in order: the keys
/// that reconciling it removes from the staging store.
pub fn envelope_hashes(block: &Block) -> (r: Vec<Vec<u8>>)
    ensures
        r@.map_values(|h: Vec<u8>| h@) == block_hashes(*block),
{
    let mut r: Vec<Vec<u8>> = Vec::new();
    let mut t: usize = 0;
    proof {
        assert(block.transactions@.take(0) =~= Seq::<Transaction>::empty());
        assert(r@.map_values(|h: Vec<u8>| h@) =~= Seq::<Seq<u8>>::empty());
    }
    while t < block.transactions.len()
        invariant
            t <= block.transactions@.len(),
            r@.map_values(|h: Vec<u8>| h@) == txs_hashes(block.transactions@.take(t as int)),
        decreases block.transactions@.len() - t,
    {
        let tx = &block.transactions[t];
        let ghost r0 = r@.map_values(|h: Vec<u8>| h@);
        let mut j: usize = 0;
        proof {
            assert(tx.inputs@.take(0) =~= Seq::<TxInput>::empty());
            assert(r0 + inputs_hashes(tx.inputs@.take(0)) =~= r0);
        }
        while j < tx.inputs.len()
            invariant
                j <= tx.inputs@.len(),
                r@.map_values(|h: Vec<u8>| h@) == r0 + inputs_hashes(tx.inputs@.take(j as int)),
            decreases tx.inputs@.len() - j,
        {
            let ghost before = r@;
            proof {
                assert(tx.inputs@.take(j + 1).drop_last() =~= tx.inputs@.take(j as int));
            }
            match &tx.inputs[j].witness_script {
                Some(script) => match find_envelope(script.as_slice()) {
                    Some((h, _)) => {
                        r.push(h);
                        proof {
                            assert(r@.map_values(|h: Vec<u8>| h@) =~= before.map_values(
                                |h: Vec<u8>| h@,
                            ).push(r@.last()@));
                        }
                    },
                    None => {},
                },
                None => {},
            }
            proof {
                assert(r@.map_values(|h: Vec<u8>| h@) =~= r0 + inputs_hashes(
                    tx.inputs@.take(j + 1),
                ));
            }
            j = j + 1;
        }
        proof {
            assert(tx.inputs@.take(j as int) =~= tx.inputs@);
            assert(block.transactions@.take(t + 1).drop_last() =~= block.transactions@.take(
                t as int,
            ));
        }
        t = t + 1;
    }
    proof {
        assert(block.transactions@.take(t as int) =~= block.transactions@);
    }
    r
}

/// Action of the polling loop after one query of the chain height.
#[derive(PartialEq, Eq, Structural, Debug, Clone, Copy)]
pub enum PollAction {
    /// Process the blocks at heights `from..=to`, in ascending order.
    FetchBlocks { from: u64, to: u64 },
    /// Wait this many seconds, then query again.
    Sleep { seconds: u64 },
    /// Give up: the ledger failed too many times in a row.
    Stop,
}

/// Wait when the index has caught up with the chain.
pub const CAUGHT_UP_DELAY_SECS: u64 = 10;

/// Consecutive failed height queries after which the loop stops.
pub const MAX_LEDGER_FAILURES: u32 = 5;

/// `2^n`.
pub open spec fn pow2(n: nat) -> nat
    decreases n,
{
    if n == 0 {
        1
    } else {
        2 * pow2((n - 1) as nat)
    }
}

/// Wait after the `n`th failed query in a row: doubles with each failure.
pub open spec fn retry_delay(n: nat) -> nat {
    CAUGHT_UP_DELAY_SECS as nat * pow2(n)
}

proof fn lemma_pow2_small(n: nat)
    requires
        n <= 4,
    ensures
        pow2(n) <= 16,
{
    reveal_with_fuel(pow2, 5);
}

/// Checkpoint after processing a block at `height`: it never goes back.
pub open spec fn advance(checkpoint: int, height: int) -> int {
    if height > checkpoint {
        height
    } else {
        checkpoint
    }
}

/// Staging, confirmed and checkpoint state after blocks at heights
/// `first, first + 1, ...`.
pub open spec fn blocks_step(
    staged: Map<Seq<u8>, Seq<u8>>,
    confirmed: Map<Seq<u8>, Seq<u8>>,
    checkpoint: int,
    blocks: Seq<Block>,
    first: int,
) -> (Map<Seq<u8>, Seq<u8>>, Map<Seq<u8>, Seq<u8>>, int)
    decreases blocks.len(),
{
    if blocks.len() == 0 {
        (staged, confirmed, checkpoint)
    } else {
        let (s, c, p) = blocks_step(staged, confirmed, checkpoint, blocks.drop_last(), first);
        let b = blocks.last();
        (staged_after(s, b), confirmed_after(s, c, b), advance(p, first + blocks.len() - 1))
    }
}

/// Confirmed blobs and the height of the last fully reconciled block.
pub struct Indexer {
    confirmed: BlobMap,
    last_block: u64,
}

impl View for Indexer {
    /// (confirmed blobs, checkpoint)
    type V = (Map<Seq<u8>, Seq<u8>>, u64);

    closed spec fn view(&self) -> (Map<Seq<u8>, Seq<u8>>, u64) {
        (self.confirmed@, self.last_block)
    }
}

impl Indexer {
    /// The confirmed map is well formed.
    pub closed spec fn wf(&self) -> bool {
        self.confirmed.wf()
    }

    /// An indexer with no confirmed blob, resuming after block `last_block`.
    pub fn new(last_block: u64) -> (r: Indexer)
        ensures
            r.wf(),
            r@.0 == Map::<Seq<u8>, Seq<u8>>::empty(),
            r@.1 == last_block,
    {
        Indexer { confirmed: BlobMap::new(), last_block }
    }

    /// The height of the last fully reconciled block.
    pub fn last_block(&self) -> (r: u64)
        ensures
            r == self@.1,
    {
        self.last_block
    }

    /// The confirmed payload under `hash`, if any.
    pub fn get_confirmed(&self, hash: &[u8]) -> (r: Option<Vec<u8>>)
        requires
            self.wf(),
        ensures
            match r {
                Some(v) => self@.0.contains_key(hash@) && v@ == self@.0[hash@],
                None => !self@.0.contains_key(hash@),
            },
    {
        self.confirmed.get(hash)
    }

    /// Reconciles block `block` at `height`: every envelope whose hash is
    /// staged consumes that blob, the valid ones are written to the confirmed
    /// store, and the checkpoint moves up to `height`. Returns the blobs that
    /// the block confirmed, in order.
    pub fn index_block(&mut self, mempool: &mut Mempool, block: &Block, height: u64) -> (r: Vec<
        (Vec<u8>, Vec<u8>),
    >)
        requires
            old(self).wf(),
            old(mempool).wf(),
        ensures
            final(self).wf(),
            final(mempool).wf(),
            final(mempool)@ == staged_after(old(mempool)@, *block),
            final(self)@.0 == confirmed_after(old(mempool)@, old(self)@.0, *block),
            final(self)@.1 == advance(old(self)@.1 as int, height as int),
            pairs_view(r@) == block_accepted(old(mempool)@, *block),
    {
        let ghost s0 = mempool@;
        let mut accepted: Vec<(Vec<u8>, Vec<u8>)> = Vec::new();
        let mut t: usize = 0;
        proof {
            assert(block.transactions@.take(0) =~= Seq::<Transaction>::empty());
            assert(pairs_view(accepted@) =~= Seq::<(Seq<u8>, Seq<u8>)>::empty());
        }
        while t < block.transactions.len()
            invariant
                mempool.wf(),
                *self == *old(self),
                t <= block.transactions@.len(),
                (mempool@, pairs_view(accepted@)) == txs_step(
                    s0,
                    Seq::empty(),
                    block.transactions@.take(t as int),
                ),
            decreases block.transactions@.len() - t,
        {
            reconcile_transaction(mempool, &block.transactions[t], &mut accepted);
            proof {
                assert(block.transactions@.take(t + 1).drop_last() =~= block.transactions@.take(
                    t as int,
                ));
            }
            t = t + 1;
        }
        proof {
            assert(block.transactions@.take(t as int) =~= block.transactions@);
        }
        let ghost c0 = self.confirmed@;
        let ghost acc = pairs_view(accepted@);
        let mut i: usize = 0;
        while i < accepted.len()
            invariant
                self.confirmed.wf(),
                self.last_block == old(self).last_block,
                i <= accepted@.len(),
                acc == pairs_view(accepted@),
                self.confirmed@ == insert_all(c0, acc.take(i as int)),
            decreases accepted@.len() - i,
        {
            self.confirmed.insert(accepted[i].0.as_slice(), accepted[i].1.as_slice());
            proof {
                assert(acc.take(i + 1).drop_last() =~= acc.take(i as int));
            }
            i = i + 1;
        }
        proof {
            assert(acc.take(i as int) =~= acc);
        }
        if height > self.last_block {
            self.last_block = height;
        }
        accepted
    }

    /// Reconciles `blocks`, the blocks at heights `first, first + 1, ...`, in
    /// that order.
    pub fn index_blocks(&mut self, mempool: &mut Mempool, blocks: &Vec<Block>, first: u64)
        requires
            old(self).wf(),
            old(mempool).wf(),
            first + blocks@.len() <= u64::MAX + 1,
        ensures
            final(self).wf(),
            final(mempool).wf(),
            (final(mempool)@, final(self)@.0, final(self)@.1 as int) == blocks_step(
                old(mempool)@,
                old(self)@.0,
                old(self)@.1 as int,
                blocks@,
                first as int,
            ),
    {
        let ghost s0 = mempool@;
        let ghost c0 = self@.0;
        let ghost p0 = self@.1 as int;
        let mut k: usize = 0;
        proof {
            assert(blocks@.take(0) =~= Seq::<Block>::empty());
        }
        while k < blocks.len()
            invariant
                self.wf(),
                mempool.wf(),
                k <= blocks@.len(),
                first + blocks@.len() <= u64::MAX + 1,
                (mempool@, self@.0, self@.1 as int) == blocks_step(
                    s0,
                    c0,
                    p0,
                    blocks@.take(k as int),
                    first as int,
                ),
            decreases blocks@.len() - k,
        {
            let height = first + k as u64;
            self.index_block(mempool, &blocks[k], height);
            proof {
                assert(blocks@.take(k + 1).drop_last() =~= blocks@.take(k as int));
            }
            k = k + 1;
        }
        proof {
            assert(blocks@.take(k as int) =~= blocks@);
        }
    }

    /// What the polling loop does after querying the chain height: `height`
    /// is the answer, or `None` when the query failed; `failures` counts the
    /// failed queries in a row, this one included.
    pub fn next_action(&self, height: Option<u64>, failures: u32) -> (r: PollAction)
        ensures
            match height {
                Some(h) => if h > self@.1 {
                    r == PollAction::FetchBlocks { from: (self@.1 + 1) as u64, to: h }
                } else {
                    r == PollAction::Sleep { seconds: CAUGHT_UP_DELAY_SECS }
                },
                None => if failures >= MAX_LEDGER_FAILURES {
                    r == PollAction::Stop
                } else {
                    r == PollAction::Sleep { seconds: retry_delay(failures as nat) as u64 }
                },
            },
    {
        match height {
            Some(h) => {
                if h > self.last_block {
                    PollAction::FetchBlocks { from: self.last_block + 1, to: h }
                } else {
                    PollAction::Sleep { seconds: CAUGHT_UP_DELAY_SECS }
                }
            },
            None => {
                if failures >= MAX_LEDGER_FAILURES {
                    PollAction::Stop
                } else {
                    let mut delay: u64 = CAUGHT_UP_DELAY_SECS;
                    let mut n: u32 = 0;
                    while n < failures
                        invariant
                            n <= failures,
                            failures < MAX_LEDGER_FAILURES,
                            delay == retry_delay(n as nat),
                        decreases failures - n,
                    {
                        proof {
                            lemma_pow2_small(n as nat);
                            assert(pow2((n + 1) as nat) == 2 * pow2(n as nat));
                        }
                        delay = delay * 2;
                        n = n + 1;
                    }
                    PollAction::Sleep { seconds: delay }
                }
            },
        }
    }
}

} // verus!
