//! Per-pass bookkeeping of the scheduler.
//!
//! Each pass loads the chain set, advances every chain once, then keeps the
//! unfinished, blocked and failed chains for the next pass while dropping the
//! finished ones.  When nothing is kept the whole run is finished and the
//! scheduler stops without sleeping.  The loading, saving and sleeping are
//! outside the crate; this module decides what is kept.

use vstd::prelude::*;
use crate::advance::{Outcome, advance_model, spec_frontier};
use crate::types::{ChainModel, Inscription, chain_model, chain_wf, fully_pushed, pushed_frontier};

verus! {

/// Whether a chain is kept in the persisted set after its advance: a chain
/// leaves the set only once an advance call accepted all its steps.
pub open spec fn keep(c: ChainModel, o: Outcome) -> bool {
    !(o == Outcome::Advanced && fully_pushed(c))
}

pub open spec fn pair_model(p: (Inscription, Outcome)) -> (ChainModel, Outcome) {
    (chain_model(p.0), p.1)
}

/// The mathematical view of a pass's advance results.
pub open spec fn results_model(s: Seq<(Inscription, Outcome)>) -> Seq<(ChainModel, Outcome)> {
    s.map_values(|p: (Inscription, Outcome)| pair_model(p))
}

/// The chains one pass retains, in their original order.
pub open spec fn retain_model(rs: Seq<(ChainModel, Outcome)>) -> Seq<ChainModel>
    decreases rs.len(),
{
    if rs.len() == 0 {
        Seq::empty()
    } else {
        let rest = retain_model(rs.drop_last());
        if keep(rs.last().0, rs.last().1) {
            rest.push(rs.last().0)
        } else {
            rest
        }
    }
}

/// Partition one pass's advance results: the retained chain set to persist,
/// and whether the run is finished (no chain retained, so the scheduler must
/// end without sleeping).
pub fn collect_pass(results: Vec<(Inscription, Outcome)>) -> (out: (Vec<Inscription>, bool))
    ensures
        crate::types::chain_set_model(out.0@) == retain_model(results_model(results@)),
        out.1 == (out.0@.len() == 0),
{
    let ghost orig = results_model(results@);
    let mut rest = results;
    let mut kept: Vec<Inscription> = Vec::new();
    let ghost mut i: int = 0;
    proof {
        assert(results_model(rest@) =~= orig.skip(0));
        assert(orig.take(0) =~= Seq::<(ChainModel, Outcome)>::empty());
    }
    while rest.len() > 0
        invariant
            0 <= i <= orig.len(),
            results_model(rest@) == orig.skip(i),
            crate::types::chain_set_model(kept@) == retain_model(orig.take(i)),
        decreases rest@.len(),
    {
        proof {
            assert(results_model(rest@).len() == rest@.len());
            assert(orig.skip(i).len() == orig.len() - i);
            assert(i < orig.len());
        }
        let ghost old_rest = rest@;
        let p = rest.remove(0);
        proof {
            assert(orig.skip(i)[0] == results_model(old_rest)[0]);
            assert(orig.skip(i)[0] == pair_model(p));
            assert(rest@ =~= old_rest.skip(1));
            assert forall|j: int| 0 <= j < rest@.len() implies #[trigger] results_model(rest@)[j]
                == orig.skip(i + 1)[j] by {
                assert(results_model(rest@)[j] == pair_model(rest@[j]));
                assert(rest@[j] == old_rest[j + 1]);
                assert(results_model(old_rest)[j + 1] == pair_model(old_rest[j + 1]));
                assert(orig.skip(i)[j + 1] == orig[i + j + 1]);
                assert(orig.skip(i + 1)[j] == orig[i + j + 1]);
            }
            assert(results_model(rest@) =~= orig.skip(i + 1));
        }
        let finished = crate::types::chain_is_finished(&p.0);
        let drop_it = finished && p.1 == Outcome::Advanced;
        proof {
            assert(orig.take(i + 1).drop_last() =~= orig.take(i));
            assert(orig.take(i + 1).last() == orig[i]);
            assert(orig[i] == pair_model(p));
        }
        if drop_it {
            assert(!keep(chain_model(p.0), p.1));
        } else {
            assert(keep(chain_model(p.0), p.1));
            kept.push(p.0);
            proof {
                assert(crate::types::chain_set_model(kept@) =~= retain_model(orig.take(i)).push(
                    chain_model(p.0),
                ));
            }
        }
        proof {
            i = i + 1;
        }
    }
    proof {
        assert(orig.take(i) =~= orig);
    }
    let finished_run = kept.len() == 0;
    (kept, finished_run)
}

/// A pass over an empty set, or one where every chain's advance came back
/// `Advanced` with all steps broadcast, retains nothing: the run is finished
/// and the scheduler ends without sleeping.
pub proof fn lemma_pass_all_finished(rs: Seq<(ChainModel, Outcome)>)
    requires
        forall|i: int|
            0 <= i < rs.len() ==> (#[trigger] rs[i]).1 == Outcome::Advanced && fully_pushed(
                rs[i].0,
            ),
    ensures
        retain_model(rs).len() == 0,
    decreases rs.len(),
{
    if rs.len() > 0 {
        assert(rs.last() == rs[rs.len() - 1]);
        assert forall|i: int| 0 <= i < rs.drop_last().len() implies (#[trigger] rs.drop_last()[i]).1
            == Outcome::Advanced && fully_pushed(rs.drop_last()[i].0) by {
            assert(rs.drop_last()[i] == rs[i]);
        }
        lemma_pass_all_finished(rs.drop_last());
    }
}

/// A chain that is already fully broadcast, and whose last confirmation did
/// not come back `false`, advances without a single submission: the advance
/// returns `Advanced`, leaves the chain untouched, and the pass drops it.
pub proof fn lemma_full_chain_advances(
    c: ChainModel,
    confirmed: Option<bool>,
    resps: Seq<Seq<char>>,
    cap: int,
)
    requires
        chain_wf(c),
        fully_pushed(c),
        confirmed != Some(false),
        0 <= cap,
    ensures
        advance_model(c, confirmed, resps, cap) == (c, Outcome::Advanced),
        !keep(c, Outcome::Advanced),
{
    let k = spec_frontier(c.txs);
    assert(pushed_frontier(c.txs, k));
    if k < c.txs.len() {
        assert(c.txs[k].pushed);
        assert(false);
    }
    assert(k == c.txs.len());
    assert(vstd::math::min(cap, c.txs.len() - k) == 0);
    assert(c == (ChainModel { number: c.number, txs: c.txs }));
}

} // verus!
