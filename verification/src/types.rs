//! Data model: chains of dependent transactions and their mathematical view.

use vstd::prelude::*;

verus! {

/// One raw transaction within a chain, with its broadcast progress.
///
/// `tx_hex` is the pre-built raw payload (an opaque hex blob, immutable once
/// created).  `pushed` records whether the transaction was submitted to the
/// network, and `tx_id` holds the network identifier returned by a successful
/// submission.  A well-formed step has `tx_id` set if and only if `pushed`.
#[derive(Clone, Debug, PartialEq)]
pub struct Tx {
    pub pushed: bool,
    pub tx_hex: String,
    pub tx_id: Option<String>,
}

/// One chain ("inscription"): a stable integer identifier and the ordered
/// steps that must be broadcast in sequence.
#[derive(Clone, Debug, PartialEq)]
pub struct Inscription {
    pub inscription_number: i64,
    pub txs: Vec<Tx>,
}

/// Confirmation status of a transaction, as reported by the explorer.
#[derive(Clone, Debug, PartialEq)]
pub struct Status {
    pub confirmed: bool,
}

/// The slice of the explorer's transaction record that the core reads.
#[derive(Clone, Debug, PartialEq)]
pub struct Transaction {
    pub status: Status,
}

/// Mathematical view of a [`Tx`].
pub ghost struct TxModel {
    pub pushed: bool,
    pub tx_hex: Seq<char>,
    pub tx_id: Option<Seq<char>>,
}

/// Mathematical view of an [`Inscription`].
pub ghost struct ChainModel {
    pub number: int,
    pub txs: Seq<TxModel>,
}

pub open spec fn tx_model(t: Tx) -> TxModel {
    TxModel {
        pushed: t.pushed,
        tx_hex: t.tx_hex@,
        tx_id: match t.tx_id {
            Some(id) => Some(id@),
            None => None,
        },
    }
}

pub open spec fn txs_model(ts: Seq<Tx>) -> Seq<TxModel> {
    ts.map_values(|t: Tx| tx_model(t))
}

pub open spec fn chain_model(c: Inscription) -> ChainModel {
    ChainModel { number: c.inscription_number as int, txs: txs_model(c.txs@) }
}

pub open spec fn chain_set_model(cs: Seq<Inscription>) -> Seq<ChainModel> {
    cs.map_values(|c: Inscription| chain_model(c))
}

/// A step carries a network identifier exactly when it was broadcast.
pub open spec fn tx_wf(t: TxModel) -> bool {
    t.pushed <==> t.tx_id is Some
}

/// `k` is the broadcast frontier of `txs`: the first `k` steps are broadcast
/// and none after them is.  Progress is append-only, so the broadcast steps of
/// a chain always form such a prefix.
pub open spec fn pushed_frontier(txs: Seq<TxModel>, k: int) -> bool {
    &&& 0 <= k <= txs.len()
    &&& forall|i: int| 0 <= i < txs.len() ==> (txs[i].pushed <==> i < k)
}

/// Chain invariant: every step is well formed and the broadcast steps form a
/// prefix of the sequence.
pub open spec fn chain_wf(c: ChainModel) -> bool {
    &&& forall|i: int| 0 <= i < c.txs.len() ==> tx_wf(#[trigger] c.txs[i])
    &&& exists|k: int| pushed_frontier(c.txs, k)
}

/// A chain is finished when every step has been broadcast.
pub open spec fn fully_pushed(c: ChainModel) -> bool {
    forall|i: int| 0 <= i < c.txs.len() ==> (#[trigger] c.txs[i]).pushed
}

/// The broadcast frontier is unique.
pub proof fn lemma_frontier_unique(txs: Seq<TxModel>, k1: int, k2: int)
    requires
        pushed_frontier(txs, k1),
        pushed_frontier(txs, k2),
    ensures
        k1 == k2,
{
    if k1 < k2 {
        assert(txs[k1].pushed);
        assert(!txs[k1].pushed);
    }
    if k2 < k1 {
        assert(txs[k2].pushed);
        assert(!txs[k2].pushed);
    }
}

/// Number of broadcast steps of a well-formed chain: its broadcast frontier.
///
/// Walks the steps from the front and stops at the first one not yet
/// broadcast.
pub fn count_pushed(c: &Inscription) -> (k: usize)
    requires
        chain_wf(chain_model(*c)),
    ensures
        pushed_frontier(chain_model(*c).txs, k as int),
{
    let ghost m = chain_model(*c).txs;
    let ghost kf: int = choose|k: int| pushed_frontier(m, k);
    let n = c.txs.len();
    assert(m.len() == n);
    let mut k: usize = 0;
    while k < n && c.txs[k].pushed
        invariant
            0 <= k <= n,
            n == c.txs@.len(),
            m == chain_model(*c).txs,
            pushed_frontier(m, kf),
            k <= kf,
        decreases n - k,
    {
        assert(m[k as int].pushed == c.txs@[k as int].pushed);
        assert(k < kf);
        k = k + 1;
    }
    proof {
        if k < n {
            assert(m[k as int].pushed == c.txs@[k as int].pushed);
            assert(!m[k as int].pushed);
            assert(k >= kf);
        }
        assert(k == kf);
    }
    k
}

/// Whether a chain satisfies the chain invariant; used to validate state
/// loaded from the durable store before the core works on it.
pub fn chain_is_wf(c: &Inscription) -> (r: bool)
    ensures
        r == chain_wf(chain_model(*c)),
{
    let ghost m = chain_model(*c).txs;
    let n = c.txs.len();
    let mut i: usize = 0;
    let mut frontier: usize = 0;
    let mut in_prefix = true;
    while i < n
        invariant
            0 <= i <= n,
            n == c.txs@.len(),
            m == chain_model(*c).txs,
            frontier <= i,
            forall|j: int| 0 <= j < i ==> tx_wf(#[trigger] m[j]),
            in_prefix ==> frontier == i,
            !in_prefix ==> frontier < i,
            forall|j: int| 0 <= j < i ==> (m[j].pushed <==> j < frontier),
        decreases n - i,
    {
        assert(m[i as int] == tx_model(c.txs@[i as int]));
        let t = &c.txs[i];
        let ok_wf = t.pushed == t.tx_id.is_some();
        if !ok_wf {
            assert(!tx_wf(m[i as int]));
            return false;
        }
        if t.pushed {
            if !in_prefix {
                proof {
                    assert(m[i as int].pushed);
                    assert(!m[frontier as int].pushed);
                    assert forall|k: int| !pushed_frontier(m, k) by {
                        if pushed_frontier(m, k) {
                            assert(m[i as int].pushed ==> i < k);
                            assert(!m[frontier as int].pushed ==> k <= frontier);
                        }
                    }
                }
                return false;
            }
            frontier = frontier + 1;
        } else {
            in_prefix = false;
        }
        i = i + 1;
    }
    proof {
        assert(pushed_frontier(m, frontier as int));
    }
    true
}

/// Whether a chain is finished (every step broadcast).
pub fn chain_is_finished(c: &Inscription) -> (r: bool)
    ensures
        r == fully_pushed(chain_model(*c)),
{
    let ghost m = chain_model(*c).txs;
    let n = c.txs.len();
    let mut i: usize = 0;
    while i < n
        invariant
            0 <= i <= n,
            n == c.txs@.len(),
            m == chain_model(*c).txs,
            forall|j: int| 0 <= j < i ==> (#[trigger] m[j]).pushed,
        decreases n - i,
    {
        assert(m[i as int] == tx_model(c.txs@[i as int]));
        if !c.txs[i].pushed {
            return false;
        }
        i = i + 1;
    }
    true
}

/// Number of steps of a chain not yet broadcast; reported per pass.
pub fn count_unpushed(c: &Inscription) -> (r: usize)
    ensures
        r as int == chain_model(*c).txs.filter(|t: TxModel| !t.pushed).len(),
{
    let ghost m = chain_model(*c).txs;
    let n = c.txs.len();
    let mut i: usize = 0;
    let mut count: usize = 0;
    while i < n
        invariant
            0 <= i <= n,
            n == c.txs@.len(),
            m == chain_model(*c).txs,
            count as int == m.take(i as int).filter(|t: TxModel| !t.pushed).len(),
            count <= i,
        decreases n - i,
    {
        assert(m[i as int] == tx_model(c.txs@[i as int]));
        proof {
            assert(m.take(i + 1).drop_last() =~= m.take(i as int));
            assert(m.take(i + 1).last() == m[i as int]);
            reveal_with_fuel(Seq::filter, 2);
        }
        if !c.txs[i].pushed {
            count = count + 1;
        }
        i = i + 1;
    }
    proof {
        assert(m.take(n as int) =~= m);
    }
    count
}

/// The network identifier of the most recently broadcast step, whose
/// confirmation gates all further broadcasts; `None` when nothing was
/// broadcast yet.
pub fn last_pushed_id(c: &Inscription) -> (r: Option<&String>)
    requires
        chain_wf(chain_model(*c)),
    ensures
        ({
            let m = chain_model(*c);
            match r {
                Some(id) => forall|k: int|
                    pushed_frontier(m.txs, k) ==> k > 0 && m.txs[k - 1].tx_id == Some(id@),
                None => forall|k: int| pushed_frontier(m.txs, k) ==> k == 0,
            }
        }),
{
    let ghost m = chain_model(*c);
    let k = count_pushed(c);
    proof {
        assert forall|k2: int| pushed_frontier(m.txs, k2) implies k2 == k by {
            lemma_frontier_unique(m.txs, k2, k as int);
        }
    }
    if k == 0 {
        None
    } else {
        proof {
            assert(m.txs[k - 1] == tx_model(c.txs@[k - 1]));
            assert(m.txs[k - 1].pushed);
            assert(tx_wf(m.txs[k - 1]));
        }
        match &c.txs[k - 1].tx_id {
            Some(id) => Some(id),
            None => {
                proof {
                    assert(false);
                }
                None
            },
        }
    }
}

/// Whether the explorer reports this transaction as confirmed.  The transport
/// that fetches the record is outside the core; this reads the decoded value.
pub fn transaction_is_confirmed(t: &Transaction) -> (r: bool)
    ensures
        r == t.status.confirmed,
{
    t.status.confirmed
}

} // verus!
