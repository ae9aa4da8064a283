//! What replication achieves in a whole cluster of counter nodes.
//!
//! The cluster is seen from above: the state of every member under its name.
//! It moves on when a member adds to the counter and when the table of one
//! member reaches another. As long as nothing negative is added, no member
//! ever holds more for another than the other has added, and once every
//! table has reached every member, each member reads the sum of all that was
//! ever added anywhere.

use crate::counter::{
    counter_step, fits, lemma_total_insert, lemma_total_remove, merged, total, CounterInjected,
    CounterPayloadView, CounterState,
};
use crate::{reply_outcome, reply_to, EventView, MessageView};
use vstd::prelude::*;

verus! {

/// Something that moves the cluster on.
pub enum CounterOp {
    /// The member `node` adds `delta` to the counter.
    Add { node: Seq<char>, delta: i64 },
    /// The table of `from` reaches `to`.
    Replicate { from: Seq<char>, to: Seq<char> },
}

/// What each member has added itself.
pub open spec fn own_sums(c: Map<Seq<char>, CounterState>) -> Map<Seq<char>, i64> {
    Map::new(|k: Seq<char>| c.contains_key(k), |k: Seq<char>| c[k].held(k))
}

/// What holds of a cluster at any time, as long as nothing negative is
/// added: the cluster and every table are finite, every member goes by its
/// own name, tables have entries for members only, and no entry is negative
/// or more than the member it stands for has added.
pub open spec fn cluster_inv(c: Map<Seq<char>, CounterState>) -> bool {
    &&& c.dom().finite()
    &&& forall|n: Seq<char>|
        c.contains_key(n) ==> (#[trigger] c[n]).node == n && c[n].counter.dom().finite()
    &&& forall|a: Seq<char>, k: Seq<char>|
        c.contains_key(a) && #[trigger] c[a].counter.contains_key(k) ==> c.contains_key(k) && 0
            <= c[a].counter[k] <= c[k].held(k)
}

/// Whether `op` can happen in the cluster `c`: it names members, and an
/// addition is not negative and is one that the member accepts.
pub open spec fn admits(c: Map<Seq<char>, CounterState>, op: CounterOp) -> bool {
    match op {
        CounterOp::Add { node, delta } => c.contains_key(node) && delta >= 0 && fits(
            c[node].held(node) + delta,
        ),
        CounterOp::Replicate { from, to } => c.contains_key(from) && c.contains_key(to),
    }
}

/// The cluster after `op`.
pub open spec fn apply(c: Map<Seq<char>, CounterState>, op: CounterOp) -> Map<
    Seq<char>,
    CounterState,
> {
    match op {
        CounterOp::Add { node, delta } => c.insert(node, c[node].added(delta)),
        CounterOp::Replicate { from, to } => c.insert(to, c[to].replicated(c[from].counter)),
    }
}

/// The cluster after `ops`, in order.
pub open spec fn run(c: Map<Seq<char>, CounterState>, ops: Seq<CounterOp>) -> Map<
    Seq<char>,
    CounterState,
>
    decreases ops.len(),
{
    if ops.len() == 0 {
        c
    } else {
        apply(run(c, ops.drop_last()), ops.last())
    }
}

/// Whether `ops` can happen one after the other, starting in `c`.
pub open spec fn admits_all(c: Map<Seq<char>, CounterState>, ops: Seq<CounterOp>) -> bool
    decreases ops.len(),
{
    ops.len() == 0 || (admits_all(c, ops.drop_last()) && admits(
        run(c, ops.drop_last()),
        ops.last(),
    ))
}

/// What `op` adds to the counter.
pub open spec fn adds(op: CounterOp) -> int {
    match op {
        CounterOp::Add { delta, .. } => delta as int,
        CounterOp::Replicate { .. } => 0,
    }
}

/// The sum of all that `ops` add.
pub open spec fn added(ops: Seq<CounterOp>) -> int
    decreases ops.len(),
{
    if ops.len() == 0 {
        0
    } else {
        added(ops.drop_last()) + adds(ops.last())
    }
}

/// Replication has come to rest: the table of any member, merged into that
/// of any other, changes nothing.
pub open spec fn settled(c: Map<Seq<char>, CounterState>) -> bool {
    forall|a: Seq<char>, b: Seq<char>|
        c.contains_key(a) && c.contains_key(b) ==> #[trigger] merged(c[b].counter, c[a].counter)
            == c[b].counter
}

/// The two kinds of operation are the two kinds of step: an addition is what
/// the member does with an `add` that it accepts and can answer, and a
/// replication is what the receiver does with the `replicate` that the
/// sender's tick had for it.
pub proof fn lemma_apply_is_step(
    c: Map<Seq<char>, CounterState>,
    op: CounterOp,
    request: MessageView<CounterPayloadView>,
    i: int,
)
    requires
        cluster_inv(c),
        admits(c, op),
        op matches CounterOp::Add { node, delta } ==> request.payload == (CounterPayloadView::Add {
            delta,
        }) && reply_outcome(request, c[node].next_id) is Ok,
        op matches CounterOp::Replicate { from, .. } ==> 0 <= i < c[from].replication().len(),
        op matches CounterOp::Replicate { from, to } ==> c[from].replication()[i].dst == to,
    ensures
        match op {
            CounterOp::Add { node, delta } => {
                let step = counter_step(c[node], EventView::Message(request));
                &&& step.result is Ok
                &&& step.state.counter == apply(c, op)[node].counter
            },
            CounterOp::Replicate { from, to } => {
                let tick = counter_step(c[from], EventView::Injected(CounterInjected::Replicate));
                &&& tick.result is Ok
                &&& tick.state == c[from]
                &&& c.insert(to, counter_step(c[to], EventView::Message(tick.emitted[i])).state)
                    == apply(c, op)
            },
        },
{
    match op {
        CounterOp::Replicate { from, to } => {
            crate::counter::lemma_replication_unsolicited(c[from], c[from].node_ids.len());
        },
        _ => {},
    }
}

/// A finite table of zeros sums to zero.
pub proof fn lemma_total_of_zeros(table: Map<Seq<char>, i64>)
    requires
        table.dom().finite(),
        forall|k: Seq<char>| table.contains_key(k) ==> #[trigger] table[k] == 0,
    ensures
        total(table) == 0,
    decreases table.dom().len(),
{
    if table.dom().len() > 0 {
        let k = table.dom().choose();
        assert(table.contains_key(k));
        lemma_total_of_zeros(table.remove(k));
    }
}

/// Entries of zero do not count: a table sums to what a larger table sums
/// to that agrees with it and holds zero wherever it has an entry more.
pub proof fn lemma_total_without_zeros(part: Map<Seq<char>, i64>, whole: Map<Seq<char>, i64>)
    requires
        whole.dom().finite(),
        forall|k: Seq<char>| #[trigger]
            part.contains_key(k) ==> whole.contains_key(k) && part[k] == whole[k],
        forall|k: Seq<char>|
            whole.contains_key(k) && !part.contains_key(k) ==> #[trigger] whole[k] == 0,
    ensures
        part.dom().finite(),
        total(part) == total(whole),
    decreases whole.dom().len(),
{
    vstd::set_lib::lemma_len_subset(part.dom(), whole.dom());
    if whole.dom().len() == 0 {
        assert(part.dom() =~= Set::empty());
        assert(part.dom().len() == 0);
    } else {
        let k = whole.dom().choose();
        assert(whole.contains_key(k));
        lemma_total_remove(whole, k);
        if part.contains_key(k) {
            lemma_total_remove(part, k);
            lemma_total_without_zeros(part.remove(k), whole.remove(k));
        } else {
            lemma_total_without_zeros(part, whole.remove(k));
        }
    }
}

/// An operation keeps what holds of a cluster and its members, and moves
/// the sum of what the members have added themselves by what it adds.
pub proof fn lemma_apply(c: Map<Seq<char>, CounterState>, op: CounterOp)
    requires
        cluster_inv(c),
        admits(c, op),
    ensures
        cluster_inv(apply(c, op)),
        apply(c, op).dom() == c.dom(),
        total(own_sums(apply(c, op))) == total(own_sums(c)) + adds(op),
{
    let d = apply(c, op);
    assert(d.dom() =~= c.dom());
    assert(own_sums(c).dom() =~= c.dom());
    match op {
        CounterOp::Add { node, delta } => {
            let sum = (c[node].held(node) + delta) as i64;
            assert(own_sums(d) =~= own_sums(c).insert(node, sum));
            lemma_total_insert(own_sums(c), node, sum);
            assert(d[node].counter.dom() =~= c[node].counter.dom().insert(node));
            assert forall|a: Seq<char>, k: Seq<char>|
                d.contains_key(a) && #[trigger] d[a].counter.contains_key(k) implies d.contains_key(
                k,
            ) && 0 <= d[a].counter[k] <= d[k].held(k) by {
                if a == node && k == node {
                    if c[node].counter.contains_key(node) {
                        assert(0 <= c[node].counter[node]);
                    }
                } else {
                    assert(c[a].counter.contains_key(k));
                }
            }
        },
        CounterOp::Replicate { from, to } => {
            let table = merged(c[to].counter, c[from].counter);
            assert(table.dom() =~= c[to].counter.dom().union(c[from].counter.dom()));
            assert(d[to].held(to) == c[to].held(to)) by {
                if c[from].counter.contains_key(to) {
                    assert(0 <= c[from].counter[to] <= c[to].held(to));
                }
                if c[to].counter.contains_key(to) {
                    assert(0 <= c[to].counter[to]);
                }
            }
            assert(own_sums(d) =~= own_sums(c));
            assert forall|a: Seq<char>, k: Seq<char>|
                d.contains_key(a) && #[trigger] d[a].counter.contains_key(k) implies d.contains_key(
                k,
            ) && 0 <= d[a].counter[k] <= d[k].held(k) by {
                if a == to {
                    if c[to].counter.contains_key(k) {
                        assert(0 <= c[to].counter[k] <= c[k].held(k));
                    }
                    if c[from].counter.contains_key(k) {
                        assert(0 <= c[from].counter[k] <= c[k].held(k));
                    }
                } else {
                    assert(c[a].counter.contains_key(k));
                }
                assert(d[k].held(k) == c[k].held(k));
            }
        },
    }
}

/// What one operation keeps, any number of them keep; and the sum of what
/// the members have added themselves moves by all that was added.
pub proof fn lemma_run(c: Map<Seq<char>, CounterState>, ops: Seq<CounterOp>)
    requires
        cluster_inv(c),
        admits_all(c, ops),
    ensures
        cluster_inv(run(c, ops)),
        run(c, ops).dom() == c.dom(),
        total(own_sums(run(c, ops))) == total(own_sums(c)) + added(ops),
    decreases ops.len(),
{
    if ops.len() > 0 {
        lemma_run(c, ops.drop_last());
        lemma_apply(run(c, ops.drop_last()), ops.last());
    }
}

/// Whether `n` holds for every member what that member has added itself.
pub open spec fn informed(c: Map<Seq<char>, CounterState>, n: Seq<char>) -> bool {
    forall|k: Seq<char>| c.contains_key(k) ==> #[trigger] c[n].held(k) == c[k].held(k)
}

/// A member that holds for every member what that member has added itself
/// reads the sum of it all.
pub proof fn lemma_informed_value(c: Map<Seq<char>, CounterState>, n: Seq<char>)
    requires
        cluster_inv(c),
        c.contains_key(n),
        informed(c, n),
    ensures
        c[n].value() == total(own_sums(c)),
{
    let table = c[n].counter;
    let whole = own_sums(c);
    assert(whole.dom() =~= c.dom());
    assert forall|k: Seq<char>| #[trigger] table.contains_key(k) implies whole.contains_key(k)
        && table[k] == whole[k] by {
        assert(0 <= table[k] <= c[k].held(k));
        assert(c[n].held(k) == c[k].held(k));
    }
    assert forall|k: Seq<char>| whole.contains_key(k) && !table.contains_key(k) implies #[trigger] whole[k]
        == 0 by {
        assert(c[n].held(k) == c[k].held(k));
    }
    lemma_total_without_zeros(table, whole);
}

/// Once replication has come to rest, every member holds for every member
/// what that member has added itself.
pub proof fn lemma_settled_informed(c: Map<Seq<char>, CounterState>, n: Seq<char>)
    requires
        cluster_inv(c),
        settled(c),
        c.contains_key(n),
    ensures
        informed(c, n),
{
    let table = c[n].counter;
    assert forall|k: Seq<char>| c.contains_key(k) implies #[trigger] c[n].held(k) == c[k].held(
        k,
    ) by {
        assert(merged(table, c[k].counter) == table);
        if c[k].counter.contains_key(k) {
            assert(merged(table, c[k].counter).contains_key(k));
            assert(merged(table, c[k].counter)[k] >= c[k].counter[k]);
            assert(0 <= table[k] <= c[k].held(k));
        } else if table.contains_key(k) {
            assert(0 <= table[k] <= c[k].held(k));
        }
    }
}

/// Whether the table of `from` reaches `to` in the course of `round`.
pub open spec fn reaches(round: Seq<CounterOp>, from: Seq<char>, to: Seq<char>) -> bool {
    round.contains(CounterOp::Replicate { from, to })
}

/// Whether `round` is a full round of replication: the table of every member
/// reaches every other member, and nothing is added.
pub open spec fn full_round(c: Map<Seq<char>, CounterState>, round: Seq<CounterOp>) -> bool {
    &&& forall|i: int|
        0 <= i < round.len() ==> (#[trigger] round[i]) is Replicate && admits(c, round[i])
    &&& forall|k: Seq<char>, n: Seq<char>|
        c.contains_key(k) && c.contains_key(n) && k != n ==> #[trigger] reaches(round, k, n)
}

/// When a table arrives, the receiver holds for the sender what the sender
/// has added itself, and whoever held for some member what that member has
/// added still does.
pub proof fn lemma_replicate_informs(
    c: Map<Seq<char>, CounterState>,
    from: Seq<char>,
    to: Seq<char>,
    n: Seq<char>,
    k: Seq<char>,
)
    requires
        cluster_inv(c),
        c.contains_key(from),
        c.contains_key(to),
        c.contains_key(n),
        c.contains_key(k),
    ensures
        ({
            let d = apply(c, CounterOp::Replicate { from, to });
            &&& d[to].held(from) == d[from].held(from)
            &&& d[k].held(k) == c[k].held(k)
            &&& c[n].held(k) == c[k].held(k) ==> d[n].held(k) == d[k].held(k)
        }),
{
    let d = apply(c, CounterOp::Replicate { from, to });
    assert forall|x: Seq<char>| c.contains_key(x) implies d[to].held(x) <= c[x].held(x)
        && d[to].held(x) >= c[to].held(x) && d[to].held(x) >= c[from].held(x) by {
        if c[to].counter.contains_key(x) {
            assert(0 <= c[to].counter[x] <= c[x].held(x));
        }
        if c[from].counter.contains_key(x) {
            assert(0 <= c[from].counter[x] <= c[x].held(x));
        }
    }
}

/// Where the table of `k` reaches `n` in the course of a round of
/// replication, `n` holds for `k` at the end what `k` has added itself.
pub proof fn lemma_round_informs(
    c: Map<Seq<char>, CounterState>,
    round: Seq<CounterOp>,
    k: Seq<char>,
    n: Seq<char>,
)
    requires
        cluster_inv(c),
        c.contains_key(k),
        c.contains_key(n),
        forall|i: int|
            0 <= i < round.len() ==> (#[trigger] round[i]) is Replicate && admits(c, round[i]),
        k == n || reaches(round, k, n),
    ensures
        cluster_inv(run(c, round)),
        run(c, round).dom() == c.dom(),
        admits_all(c, round),
        added(round) == 0,
        run(c, round)[k].held(k) == c[k].held(k),
        run(c, round)[n].held(k) == c[k].held(k),
    decreases round.len(),
{
    if round.len() > 0 {
        let before = round.drop_last();
        let last = round[round.len() - 1];
        assert(last is Replicate && admits(c, last));
        assert forall|i: int| 0 <= i < before.len() implies (#[trigger] before[i]) is Replicate
            && admits(c, before[i]) by {
            assert(before[i] == round[i]);
        }
        let from = last->from;
        let to = last->to;
        let wanted = CounterOp::Replicate { from: k, to: n };
        if k != n && !before.contains(wanted) {
            let at = choose|i: int| 0 <= i < round.len() && round[i] == wanted;
            if at < round.len() - 1 {
                assert(before[at] == wanted);
            }
            assert(last == wanted);
            lemma_round_informs(c, before, k, k);
            lemma_replicate_informs(run(c, before), from, to, n, k);
        } else {
            lemma_round_informs(c, before, k, n);
            lemma_replicate_informs(run(c, before), from, to, n, k);
        }
        assert(admits(run(c, before), last));
        lemma_apply(run(c, before), last);
    }
}

/// The counter converges. Start with a cluster whose members have handled
/// nothing yet. Let the members add what they like, nothing negative, and
/// let tables travel as they like. Once replication has come to rest, every
/// member reads the same value: the sum of all that was added anywhere. A
/// `read` is answered with it where it fits.
pub proof fn lemma_counter_converges(
    c: Map<Seq<char>, CounterState>,
    node_ids: Seq<Seq<char>>,
    ops: Seq<CounterOp>,
)
    requires
        c.dom().finite(),
        forall|n: Seq<char>| #[trigger]
            c.contains_key(n) ==> c[n] == CounterState::initial(n, node_ids),
        admits_all(c, ops),
        settled(run(c, ops)),
    ensures
        forall|n: Seq<char>| #[trigger] c.contains_key(n) ==> run(c, ops)[n].value() == added(ops),
        forall|n: Seq<char>, read: MessageView<CounterPayloadView>|
            c.contains_key(n) && read.payload == CounterPayloadView::Read && reply_outcome(
                read,
                run(c, ops)[n].next_id,
            ) is Ok && fits(added(ops)) ==> (#[trigger] counter_step(
                run(c, ops)[n],
                EventView::Message(read),
            )).emitted == seq![
                reply_to(
                    read,
                    run(c, ops)[n].next_id,
                    CounterPayloadView::ReadOk { value: added(ops) as i64 },
                ),
            ],
{
    lemma_initial_cluster(c, node_ids);
    lemma_run(c, ops);
    assert forall|n: Seq<char>| #[trigger] c.contains_key(n) implies run(c, ops)[n].value()
        == added(ops) by {
        assert(run(c, ops).contains_key(n));
        lemma_settled_informed(run(c, ops), n);
        lemma_informed_value(run(c, ops), n);
    }
}

/// A cluster whose members have handled nothing yet is as a cluster must be,
/// and nothing has been added in it.
pub proof fn lemma_initial_cluster(c: Map<Seq<char>, CounterState>, node_ids: Seq<Seq<char>>)
    requires
        c.dom().finite(),
        forall|n: Seq<char>| #[trigger]
            c.contains_key(n) ==> c[n] == CounterState::initial(n, node_ids),
    ensures
        cluster_inv(c),
        total(own_sums(c)) == 0,
{
    assert forall|n: Seq<char>| c.contains_key(n) implies (#[trigger] c[n]).node == n
        && c[n].counter.dom().finite() by {
        assert(c[n] == CounterState::initial(n, node_ids));
    }
    assert forall|a: Seq<char>, k: Seq<char>|
        c.contains_key(a) && #[trigger] c[a].counter.contains_key(k) implies c.contains_key(k)
        && 0 <= c[a].counter[k] <= c[k].held(k) by {
        assert(c[a] == CounterState::initial(a, node_ids));
    }
    assert(own_sums(c).dom() =~= c.dom());
    assert forall|k: Seq<char>| own_sums(c).contains_key(k) implies #[trigger] own_sums(c)[k]
        == 0 by {
        assert(c[k] == CounterState::initial(k, node_ids));
    }
    lemma_total_of_zeros(own_sums(c));
}

/// One full round of replication is enough. Start with a cluster whose
/// members have handled nothing yet, let the members add what they like,
/// nothing negative, and let tables travel as they like. After one more
/// round in which the table of every member reaches every other member,
/// every member reads the sum of all that was added anywhere.
pub proof fn lemma_round_converges(
    c: Map<Seq<char>, CounterState>,
    node_ids: Seq<Seq<char>>,
    ops: Seq<CounterOp>,
    round: Seq<CounterOp>,
)
    requires
        c.dom().finite(),
        forall|n: Seq<char>| #[trigger]
            c.contains_key(n) ==> c[n] == CounterState::initial(n, node_ids),
        admits_all(c, ops),
        full_round(run(c, ops), round),
    ensures
        forall|n: Seq<char>| #[trigger]
            c.contains_key(n) ==> run(run(c, ops), round)[n].value() == added(ops),
{
    lemma_initial_cluster(c, node_ids);
    lemma_run(c, ops);
    let then = run(c, ops);
    let end = run(then, round);
    assert forall|n: Seq<char>| #[trigger] c.contains_key(n) implies end[n].value() == added(
        ops,
    ) by {
        assert(then.contains_key(n));
        lemma_round_informs(then, round, n, n);
        lemma_run(then, round);
        assert forall|k: Seq<char>| end.contains_key(k) implies #[trigger] end[n].held(k)
            == end[k].held(k) by {
            assert(then.contains_key(k));
            if k != n {
                assert(reaches(round, k, n));
            }
            lemma_round_informs(then, round, k, n);
        }
        lemma_informed_value(end, n);
    }
}

} // verus!
