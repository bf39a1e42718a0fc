//! The confirmation-gated advancer: one chain's turn within a pass.
//!
//! A pass over a chain first asks whether the most recently broadcast step is
//! confirmed (nothing is asked when the chain has no broadcast step).  While
//! that answer is `false` the chain waits.  Otherwise steps are submitted in
//! order, up to a batch cap, and each submission response is accepted exactly
//! when it is a well-shaped transaction identifier.  The network itself is
//! outside the crate: callers perform the transport calls and hand the answers
//! in as plain values.

use vstd::prelude::*;
use vstd::string::StrSliceExecFns;
use crate::types::{
    ChainModel, Inscription, TxModel, chain_model, chain_wf, pushed_frontier, tx_wf,
};

verus! {

/// Result of one advance call over one chain.
#[derive(Clone, Copy, Debug, PartialEq, Eq, Structural)]
pub enum Outcome {
    /// The last broadcast step is not yet confirmed; the chain is untouched.
    Blocked,
    /// Every submission of this call was accepted (possibly none was needed).
    Advanced,
    /// A submission response was not a transaction identifier; the chain stops
    /// for this pass, keeping the steps already broadcast in this call.
    Failed,
}

/// A well-shaped transaction identifier: exactly 64 characters long.
pub open spec fn valid_tx_id(s: Seq<char>) -> bool {
    s.len() == 64
}

/// The documented validation of a submission response: any response other
/// than a 64-character transaction identifier is a rejection.
pub fn is_valid_tx_id(id: &str) -> (r: bool)
    ensures
        r == valid_tx_id(id@),
{
    id.unicode_len() == 64
}

/// `txs` with step `i` marked broadcast under identifier `id`.
pub open spec fn mark(txs: Seq<TxModel>, i: int, id: Seq<char>) -> Seq<TxModel> {
    txs.update(i, TxModel { pushed: true, tx_hex: txs[i].tx_hex, tx_id: Some(id) })
}

/// How many of the first `n` submission responses are accepted before the
/// first rejection.
pub open spec fn sent_count(resps: Seq<Seq<char>>, n: int) -> int
    decreases n,
{
    if n <= 0 {
        0
    } else if !valid_tx_id(resps[0]) {
        0
    } else {
        1 + sent_count(resps.skip(1), n - 1)
    }
}

/// The submission phase of one advance call: starting at frontier `k`, mark
/// one step per accepted response, stopping at the first rejection or after
/// `n` steps.
pub open spec fn send_loop(txs: Seq<TxModel>, resps: Seq<Seq<char>>, k: int, n: int) -> (Seq<
    TxModel,
>, Outcome)
    decreases n,
{
    if n <= 0 {
        (txs, Outcome::Advanced)
    } else if !valid_tx_id(resps[0]) {
        (txs, Outcome::Failed)
    } else {
        send_loop(mark(txs, k, resps[0]), resps.skip(1), k + 1, n - 1)
    }
}

/// The broadcast frontier of a well-formed chain.
pub open spec fn spec_frontier(txs: Seq<TxModel>) -> int {
    choose|k: int| pushed_frontier(txs, k)
}

/// One advance call over a chain, as a function of the chain, the
/// confirmation answer for its last broadcast step (`None` when it has none),
/// the submission responses in the order the steps would be submitted, and
/// the batch cap.
pub open spec fn advance_model(
    c: ChainModel,
    confirmed: Option<bool>,
    resps: Seq<Seq<char>>,
    cap: int,
) -> (ChainModel, Outcome) {
    if confirmed == Some(false) {
        (c, Outcome::Blocked)
    } else {
        let k = spec_frontier(c.txs);
        let n = vstd::math::min(cap, c.txs.len() - k);
        let r = send_loop(c.txs, resps, k, n);
        (ChainModel { number: c.number, txs: r.0 }, r.1)
    }
}

/// What the submission phase does, step by step: the first `sent_count`
/// responses each mark the step at the frontier, every other step is left
/// alone, and the phase reports `Advanced` exactly when no response was
/// rejected.
pub proof fn lemma_send_loop(txs: Seq<TxModel>, resps: Seq<Seq<char>>, k: int, n: int)
    requires
        0 <= k,
        0 <= n,
        k + n <= txs.len(),
        n <= resps.len(),
    ensures
        ({
            let s = sent_count(resps, n);
            let r = send_loop(txs, resps, k, n);
            &&& 0 <= s <= n
            &&& r.0.len() == txs.len()
            &&& forall|i: int|
                0 <= i < txs.len() && !(k <= i < k + s) ==> r.0[i] == txs[i]
            &&& forall|i: int|
                k <= i < k + s ==> r.0[i] == (TxModel {
                    pushed: true,
                    tx_hex: txs[i].tx_hex,
                    tx_id: Some(resps[i - k]),
                })
            &&& r.1 == (if s == n {
                Outcome::Advanced
            } else {
                Outcome::Failed
            })
        }),
    decreases n,
{
    if n <= 0 {
    } else if !valid_tx_id(resps[0]) {
    } else {
        let txs2 = mark(txs, k, resps[0]);
        lemma_send_loop(txs2, resps.skip(1), k + 1, n - 1);
        let s = sent_count(resps, n);
        let s2 = sent_count(resps.skip(1), n - 1);
        assert(s == 1 + s2);
        let r = send_loop(txs2, resps.skip(1), k + 1, n - 1);
        assert forall|i: int| k <= i < k + s implies r.0[i] == (TxModel {
            pushed: true,
            tx_hex: txs[i].tx_hex,
            tx_id: Some(resps[i - k]),
        }) by {
            if i == k {
                assert(r.0[i] == txs2[i]);
            } else {
                assert(txs2[i].tx_hex == txs[i].tx_hex);
                assert(resps.skip(1)[i - k - 1] == resps[i - k]);
            }
        }
    }
}

/// The submission phase keeps the chain invariant and moves the frontier
/// forward by exactly the number of accepted responses.
pub proof fn lemma_send_loop_wf(txs: Seq<TxModel>, resps: Seq<Seq<char>>, k: int, n: int)
    requires
        pushed_frontier(txs, k),
        forall|i: int| 0 <= i < txs.len() ==> tx_wf(#[trigger] txs[i]),
        0 <= n,
        k + n <= txs.len(),
        n <= resps.len(),
    ensures
        ({
            let s = sent_count(resps, n);
            let r = send_loop(txs, resps, k, n);
            &&& pushed_frontier(r.0, k + s)
            &&& forall|i: int| 0 <= i < r.0.len() ==> tx_wf(#[trigger] r.0[i])
        }),
{
    lemma_send_loop(txs, resps, k, n);
}

/// Index of the next step to submit, or `None` when the batch cap is reached
/// or every step is broadcast.  `sent` is how many submissions this advance
/// call has already made.
pub fn next_submission(c: &Inscription, sent: usize, cap: usize) -> (r: Option<usize>)
    requires
        chain_wf(chain_model(*c)),
    ensures
        ({
            let m = chain_model(*c);
            match r {
                Some(i) => sent < cap && (i as int) < m.txs.len() && pushed_frontier(
                    m.txs,
                    i as int,
                ),
                None => forall|k: int|
                    pushed_frontier(m.txs, k) ==> !(sent < cap && k < m.txs.len()),
            }
        }),
{
    if sent >= cap {
        return None;
    }
    let k = crate::types::count_pushed(c);
    proof {
        assert forall|k2: int| pushed_frontier(chain_model(*c).txs, k2) implies k2 == k by {
            crate::types::lemma_frontier_unique(chain_model(*c).txs, k2, k as int);
        }
    }
    if k < c.txs.len() {
        Some(k)
    } else {
        None
    }
}

/// Record the outcome of submitting the step at the broadcast frontier `i`:
/// an accepted response marks the step broadcast under the returned
/// identifier; a rejected response leaves the chain untouched.
pub fn apply_submission(c: &mut Inscription, i: usize, resp: String) -> (ok: bool)
    requires
        chain_wf(chain_model(*old(c))),
        pushed_frontier(chain_model(*old(c)).txs, i as int),
        (i as int) < old(c).txs@.len(),
    ensures
        ok == valid_tx_id(resp@),
        chain_wf(chain_model(*final(c))),
        final(c).inscription_number == old(c).inscription_number,
        ok ==> chain_model(*final(c)).txs == mark(chain_model(*old(c)).txs, i as int, resp@)
            && pushed_frontier(chain_model(*final(c)).txs, i + 1),
        !ok ==> *final(c) == *old(c),
{
    let ghost pre = chain_model(*c).txs;
    if is_valid_tx_id(resp.as_str()) {
        let ghost id = resp@;
        c.txs[i].pushed = true;
        c.txs[i].tx_id = Some(resp);
        proof {
            let post = chain_model(*c).txs;
            assert(post =~= mark(pre, i as int, id));
            assert(pushed_frontier(post, i + 1));
            assert(forall|j: int| 0 <= j < post.len() ==> tx_wf(#[trigger] post[j]));
        }
        true
    } else {
        false
    }
}

/// One full advance call over a chain, with the transport answers handed in
/// as plain values: the confirmation answer for the last broadcast step
/// (`None` exactly when the chain has no broadcast step) and the submission
/// responses in order, of which at most `min(cap, unbroadcast)` are read.
pub fn advance(c: &mut Inscription, confirmed: Option<bool>, resps: &Vec<String>, cap: usize) -> (o:
    Outcome)
    requires
        chain_wf(chain_model(*old(c))),
        confirmed is Some <==> (old(c).txs@.len() > 0 && chain_model(*old(c)).txs[0].pushed),
        forall|k: int|
            pushed_frontier(chain_model(*old(c)).txs, k) ==> resps@.len() >= vstd::math::min(
                cap as int,
                chain_model(*old(c)).txs.len() - k,
            ),
    ensures
        ({
            let r = advance_model(
                chain_model(*old(c)),
                confirmed,
                resps@.map_values(|s: String| s@),
                cap as int,
            );
            &&& chain_model(*final(c)) == r.0
            &&& o == r.1
            &&& chain_wf(chain_model(*final(c)))
        }),
{
    let ghost pre = chain_model(*c);
    let ghost rm = resps@.map_values(|s: String| s@);
    let k0 = crate::types::count_pushed(c);
    proof {
        assert(pushed_frontier(pre.txs, spec_frontier(pre.txs)));
        crate::types::lemma_frontier_unique(pre.txs, spec_frontier(pre.txs), k0 as int);
    }
    if let Some(false) = confirmed {
        assert(confirmed == Some(false));
        return Outcome::Blocked;
    }
    assert(confirmed != Some(false));
    let rem = c.txs.len() - k0;
    let n = if cap < rem {
        cap
    } else {
        rem
    };
    assert(n as int == vstd::math::min(cap as int, pre.txs.len() - k0));
    assert(resps@.len() >= n);
    assert(k0 + n <= c.txs.len());
    proof {
        assert(rm.skip(0) =~= rm);
    }
    let mut j: usize = 0;
    while j < n
        invariant
            0 <= j <= n,
            pre == chain_model(*old(c)),
            confirmed != Some(false),
            spec_frontier(pre.txs) == k0 as int,
            n as int == vstd::math::min(cap as int, pre.txs.len() - k0),
            k0 + n <= usize::MAX,
            k0 + n <= chain_model(*c).txs.len(),
            n <= resps@.len(),
            rm == resps@.map_values(|s: String| s@),
            chain_wf(chain_model(*c)),
            pushed_frontier(chain_model(*c).txs, k0 + j),
            chain_model(*c).number == pre.number,
            send_loop(pre.txs, rm, k0 as int, n as int) == send_loop(
                chain_model(*c).txs,
                rm.skip(j as int),
                k0 + j,
                n - j,
            ),
        decreases n - j,
    {
        let ghost cur = chain_model(*c).txs;
        let resp = resps[j].clone();
        assert(resp@ == rm.skip(j as int)[0]);
        let ok = apply_submission(c, k0 + j, resp);
        if !ok {
            proof {
                assert(send_loop(cur, rm.skip(j as int), k0 + j, n - j) == (
                    cur,
                    Outcome::Failed,
                ));
                assert(chain_model(*c) == (ChainModel { number: pre.number, txs: cur }));
                assert(advance_model(pre, confirmed, rm, cap as int) == (
                    chain_model(*c),
                    Outcome::Failed,
                ));
            }
            return Outcome::Failed;
        }
        proof {
            assert(rm.skip(j as int).skip(1) =~= rm.skip(j + 1));
            assert(send_loop(cur, rm.skip(j as int), k0 + j, n - j) == send_loop(
                chain_model(*c).txs,
                rm.skip(j + 1),
                k0 + j + 1,
                n - j - 1,
            ));
        }
        j = j + 1;
    }
    proof {
        assert(send_loop(chain_model(*c).txs, rm.skip(n as int), k0 + n, 0) == (
            chain_model(*c).txs,
            Outcome::Advanced,
        ));
        assert(chain_model(*c) == (ChainModel {
            number: pre.number,
            txs: chain_model(*c).txs,
        }));
        assert(advance_model(pre, confirmed, rm, cap as int) == (
            chain_model(*c),
            Outcome::Advanced,
        ));
    }
    Outcome::Advanced
}

/// How many submission responses one advance call over `c` can read at most.
pub open spec fn needed(c: ChainModel, cap: int) -> int {
    vstd::math::min(cap, c.txs.len() - spec_frontier(c.txs))
}

/// Every response of a fully accepted batch is consumed.
proof fn lemma_sent_count_all_valid(resps: Seq<Seq<char>>, n: int)
    requires
        0 <= n <= resps.len(),
        forall|i: int| 0 <= i < resps.len() ==> valid_tx_id(#[trigger] resps[i]),
    ensures
        sent_count(resps, n) == n,
    decreases n,
{
    if n > 0 {
        assert(valid_tx_id(resps[0]));
        assert forall|i: int| 0 <= i < resps.skip(1).len() implies valid_tx_id(
            #[trigger] resps.skip(1)[i],
        ) by {
            assert(resps.skip(1)[i] == resps[i + 1]);
        }
        lemma_sent_count_all_valid(resps.skip(1), n - 1);
    }
}

/// An advance call keeps the chain invariant: afterwards every step still
/// carries a transaction identifier exactly when it is broadcast, and the
/// broadcast steps still form a prefix of the chain.
pub proof fn lemma_advance_preserves_wf(
    c: ChainModel,
    confirmed: Option<bool>,
    resps: Seq<Seq<char>>,
    cap: int,
)
    requires
        chain_wf(c),
        0 <= cap,
        resps.len() >= needed(c, cap),
    ensures
        chain_wf(advance_model(c, confirmed, resps, cap).0),
{
    if confirmed != Some(false) {
        let k = spec_frontier(c.txs);
        assert(pushed_frontier(c.txs, k));
        let n = vstd::math::min(cap, c.txs.len() - k);
        lemma_send_loop_wf(c.txs, resps, k, n);
        let post = advance_model(c, confirmed, resps, cap).0;
        assert(post.txs == send_loop(c.txs, resps, k, n).0);
        assert(pushed_frontier(post.txs, k + sent_count(resps, n)));
    }
}

/// While the outstanding step stays unconfirmed, advancing is idempotent:
/// both of two consecutive calls return `Blocked` and hand the chain back
/// untouched, so no step is ever broadcast twice.
pub proof fn lemma_advance_blocked_idempotent(
    c: ChainModel,
    resps1: Seq<Seq<char>>,
    resps2: Seq<Seq<char>>,
    cap1: int,
    cap2: int,
)
    ensures
        advance_model(c, Some(false), resps1, cap1) == (c, Outcome::Blocked),
        advance_model(
            advance_model(c, Some(false), resps1, cap1).0,
            Some(false),
            resps2,
            cap2,
        ) == (c, Outcome::Blocked),
{
}

/// Broadcasts are append-only and strictly in sequence: an advance call never
/// changes a step that was already broadcast, and after the call a step is
/// broadcast only if every earlier step of its chain is.
pub proof fn lemma_advance_in_order(
    c: ChainModel,
    confirmed: Option<bool>,
    resps: Seq<Seq<char>>,
    cap: int,
)
    requires
        chain_wf(c),
        0 <= cap,
        resps.len() >= needed(c, cap),
    ensures
        ({
            let post = advance_model(c, confirmed, resps, cap).0;
            &&& post.txs.len() == c.txs.len()
            &&& forall|i: int|
                0 <= i < c.txs.len() && (#[trigger] c.txs[i]).pushed ==> post.txs[i] == c.txs[i]
            &&& forall|i: int, j: int|
                #![trigger post.txs[i], post.txs[j]]
                0 <= j < i < post.txs.len() && post.txs[i].pushed ==> post.txs[j].pushed
        }),
{
    if confirmed != Some(false) {
        let k = spec_frontier(c.txs);
        assert(pushed_frontier(c.txs, k));
        let n = vstd::math::min(cap, c.txs.len() - k);
        lemma_send_loop(c.txs, resps, k, n);
        lemma_send_loop_wf(c.txs, resps, k, n);
    }
}

/// The batch cap bounds one advance call: at most `cap` steps are broadcast,
/// and when every submission is accepted, exactly `min(cap, unbroadcast)`
/// steps are — each marked with the identifier its submission returned.
pub proof fn lemma_advance_batch_cap(
    c: ChainModel,
    confirmed: Option<bool>,
    resps: Seq<Seq<char>>,
    cap: int,
)
    requires
        chain_wf(c),
        confirmed != Some(false),
        0 <= cap,
        resps.len() >= needed(c, cap),
        forall|i: int| 0 <= i < resps.len() ==> valid_tx_id(#[trigger] resps[i]),
    ensures
        ({
            let k = spec_frontier(c.txs);
            let n = vstd::math::min(cap, c.txs.len() - k);
            let r = advance_model(c, confirmed, resps, cap);
            &&& r.1 == Outcome::Advanced
            &&& r.0.txs.len() == c.txs.len()
            &&& pushed_frontier(r.0.txs, k + n)
            &&& forall|i: int|
                k <= i < k + n ==> (#[trigger] r.0.txs[i]).pushed && r.0.txs[i].tx_id == Some(
                    resps[i - k],
                )
        }),
{
    let k = spec_frontier(c.txs);
    assert(pushed_frontier(c.txs, k));
    let n = vstd::math::min(cap, c.txs.len() - k);
    lemma_sent_count_all_valid(resps, n);
    lemma_send_loop(c.txs, resps, k, n);
    lemma_send_loop_wf(c.txs, resps, k, n);
}

} // verus!
