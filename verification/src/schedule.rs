//! Conversion scheduling: partitioning queued transcoding jobs into batches
//! that respect the configured concurrency cap. The caller starts one batch
//! at a time and waits for all of it before starting the next, so at no
//! instant do more than `cap` conversions run.

use vstd::prelude::*;

verus! {

/// One queued conversion: absolute source and destination paths.
pub struct Job {
    pub src: Vec<u8>,
    pub dst: Vec<u8>,
}

/// All jobs of a sequence of batches, in order.
pub open spec fn concat_batches(bs: Seq<Seq<Job>>) -> Seq<Job>
    decreases bs.len(),
{
    if bs.len() == 0 {
        Seq::empty()
    } else {
        bs[0] + concat_batches(bs.drop_first())
    }
}

/// Concatenation appends the jobs of an appended batch.
pub proof fn lemma_concat_push(bs: Seq<Seq<Job>>, b: Seq<Job>)
    ensures
        concat_batches(bs.push(b)) == concat_batches(bs) + b,
    decreases bs.len(),
{
    if bs.len() == 0 {
        assert(bs.push(b)[0] == b);
        assert(bs.push(b).drop_first() =~= Seq::<Seq<Job>>::empty());
        assert(concat_batches(bs.push(b)) == b + concat_batches(bs.push(b).drop_first()));
        assert(b + Seq::<Job>::empty() =~= Seq::<Job>::empty() + b);
    } else {
        assert(bs.push(b)[0] == bs[0]);
        assert(bs.push(b).drop_first() =~= bs.drop_first().push(b));
        lemma_concat_push(bs.drop_first(), b);
        assert(concat_batches(bs.push(b)) == bs[0] + concat_batches(bs.drop_first().push(b)));
        assert(concat_batches(bs) == bs[0] + concat_batches(bs.drop_first()));
        assert(bs[0] + (concat_batches(bs.drop_first()) + b) =~= (bs[0] + concat_batches(
            bs.drop_first(),
        )) + b);
    }
}

/// CONCURRENCY BOUND: partition the queued jobs, in order, into batches of
/// at most `cap` jobs each — every batch but the last exactly `cap`. The
/// caller runs one batch at a time to completion, so no more than `cap`
/// transcoding operations are ever active at once, for any number of jobs.
pub fn plan_batches(jobs: Vec<Job>, cap: usize) -> (batches: Vec<Vec<Job>>)
    requires
        cap >= 1,
    ensures
        concat_batches(batches@.map(|i: int, b: Vec<Job>| b@)) == jobs@,
        forall|i: int| 0 <= i < batches@.len() ==> 0 < #[trigger] batches@[i]@.len() <= cap,
        forall|i: int| 0 <= i < batches@.len() - 1 ==> #[trigger] batches@[i]@.len() == cap,
{
    let mut batches: Vec<Vec<Job>> = Vec::new();
    let mut rest = jobs;
    proof {
        assert(batches@.map(|i: int, b: Vec<Job>| b@) =~= Seq::<Seq<Job>>::empty());
        assert(Seq::<Job>::empty() + rest@ =~= rest@);
    }
    while rest.len() > 0
        invariant
            cap >= 1,
            concat_batches(batches@.map(|i: int, b: Vec<Job>| b@)) + rest@ == jobs@,
            forall|i: int| 0 <= i < batches@.len() ==> 0 < #[trigger] batches@[i]@.len() <= cap,
            forall|i: int| 0 <= i < batches@.len() - 1 ==> #[trigger] batches@[i]@.len() == cap,
            batches@.len() > 0 && rest@.len() > 0 ==> batches@[batches@.len() - 1]@.len() == cap,
        decreases rest@.len(),
    {
        let ghost bs0 = batches@.map(|i: int, b: Vec<Job>| b@);
        let ghost rest0 = rest@;
        let take = if rest.len() < cap {
            rest.len()
        } else {
            cap
        };
        let tail = rest.split_off(take);
        let ghost batch = rest@;
        batches.push(rest);
        rest = tail;
        proof {
            assert(batches@.map(|i: int, b: Vec<Job>| b@) =~= bs0.push(batch));
            lemma_concat_push(bs0, batch);
            assert(batch + rest@ =~= rest0);
            assert((concat_batches(bs0) + batch) + rest@ =~= concat_batches(bs0) + (batch
                + rest@));
            assert forall|i: int|
                0 <= i < batches@.len() - 1 implies #[trigger] batches@[i]@.len() == cap by {
                assert(batches@[i]@ == bs0[i]);
            }
        }
    }
    proof {
        assert(concat_batches(batches@.map(|i: int, b: Vec<Job>| b@)) + rest@ =~= concat_batches(
            batches@.map(|i: int, b: Vec<Job>| b@),
        ));
    }
    batches
}

} // verus!
