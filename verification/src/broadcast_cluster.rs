//! What gossip achieves in a whole cluster of broadcast nodes.
//!
//! The cluster is seen from above: the state of every member under its name.
//! Gossip moves it on by exchanges, in each of which one member's round of
//! gossip reaches one of its neighbours. Once no further value is broadcast,
//! every value spreads along the edges of the topology, and when the exchanges
//! have carried gossip along a path from every member to every other, all
//! members have seen the same values: all that were ever broadcast.

use crate::broadcast::{
    broadcast_step, BroadcastInjected, BroadcastPayloadView, BroadcastState,
};
use crate::{reply_outcome, reply_to, EventView, MessageView};
use vstd::prelude::*;

verus! {

/// What holds of a cluster at any time: every member goes by its own name,
/// and no member believes another to have seen a value that the other has
/// not seen.
pub open spec fn cluster_inv(c: Map<Seq<char>, BroadcastState>) -> bool {
    &&& forall|n: Seq<char>| c.contains_key(n) ==> (#[trigger] c[n]).node == n
    &&& forall|a: Seq<char>, b: Seq<char>|
        c.contains_key(a) && c.contains_key(b) ==> (#[trigger] c[a].known_to(b)).subset_of(
            c[b].messages,
        )
}

/// Every value that some member has seen.
pub open spec fn universe(c: Map<Seq<char>, BroadcastState>) -> Set<usize> {
    Set::new(|v: usize| exists|n: Seq<char>| c.contains_key(n) && #[trigger] c[n].messages.contains(v))
}

/// Whether `a` gossips to `b`: both are members and `b` is a neighbour of `a`.
pub open spec fn is_edge(c: Map<Seq<char>, BroadcastState>, a: Seq<char>, b: Seq<char>) -> bool {
    c.contains_key(a) && c.contains_key(b) && c[a].neighborhood.contains(b)
}

/// The cluster after the gossip of `a` has reached `b`.
pub open spec fn exchange(c: Map<Seq<char>, BroadcastState>, a: Seq<char>, b: Seq<char>) -> Map<
    Seq<char>,
    BroadcastState,
> {
    c.insert(b, c[b].heard(a, c[a].news_for(b)))
}

/// The cluster after the exchanges of `schedule`, each from the first name
/// to the second, have taken place in order.
pub open spec fn run(
    c: Map<Seq<char>, BroadcastState>,
    schedule: Seq<(Seq<char>, Seq<char>)>,
) -> Map<Seq<char>, BroadcastState>
    decreases schedule.len(),
{
    if schedule.len() == 0 {
        c
    } else {
        exchange(run(c, schedule.drop_last()), schedule.last().0, schedule.last().1)
    }
}

/// Every exchange of `schedule` goes along an edge of the topology.
pub open spec fn along_edges(
    c: Map<Seq<char>, BroadcastState>,
    schedule: Seq<(Seq<char>, Seq<char>)>,
) -> bool {
    forall|i: int|
        0 <= i < schedule.len() ==> is_edge(c, (#[trigger] schedule[i]).0, schedule[i].1)
}

/// Whether `schedule` carries gossip along `path`: it holds an exchange for
/// each step of the path, one after the other, with whatever in between.
pub open spec fn carries(schedule: Seq<(Seq<char>, Seq<char>)>, path: Seq<Seq<char>>) -> bool
    decreases schedule.len(),
{
    if path.len() <= 1 {
        true
    } else if schedule.len() == 0 {
        false
    } else {
        ||| carries(schedule.drop_last(), path)
        ||| (schedule.last() == (path[path.len() - 2], path.last()) && carries(
            schedule.drop_last(),
            path.drop_last(),
        ))
    }
}

/// Whether `schedule` carries gossip from every member to every other.
pub open spec fn reaches_all(
    c: Map<Seq<char>, BroadcastState>,
    schedule: Seq<(Seq<char>, Seq<char>)>,
) -> bool {
    forall|u: Seq<char>, v: Seq<char>|
        c.contains_key(u) && c.contains_key(v) ==> exists|path: Seq<Seq<char>>|
            path.len() >= 1 && path[0] == u && path.last() == v && #[trigger] carries(
                schedule,
                path,
            )
}

/// An exchange is what happens when `a` handles a tick and `b` then handles
/// the message that the tick had for it.
pub proof fn lemma_exchange_is_tick_and_delivery(
    c: Map<Seq<char>, BroadcastState>,
    a: Seq<char>,
    b: Seq<char>,
    i: int,
)
    requires
        cluster_inv(c),
        c.contains_key(a),
        c.contains_key(b),
        0 <= i < c[a].neighborhood.len(),
        c[a].neighborhood[i] == b,
    ensures
        ({
            let tick = broadcast_step(c[a], EventView::Injected(BroadcastInjected::Gossip));
            &&& tick.result is Ok
            &&& tick.state == c[a]
            &&& tick.emitted.len() == c[a].neighborhood.len()
            &&& tick.emitted[i].src == a
            &&& tick.emitted[i].dst == b
            &&& c.insert(b, broadcast_step(c[b], EventView::Message(tick.emitted[i])).state)
                == exchange(c, a, b)
        }),
{
}

/// An exchange keeps what holds of a cluster, takes nothing away from what
/// any member has seen, adds nothing that no member had seen, leaves the
/// topology alone, and lets the receiver see all that the sender has seen.
pub proof fn lemma_exchange(c: Map<Seq<char>, BroadcastState>, a: Seq<char>, b: Seq<char>)
    requires
        cluster_inv(c),
        c.contains_key(a),
        c.contains_key(b),
    ensures
        cluster_inv(exchange(c, a, b)),
        exchange(c, a, b).dom() == c.dom(),
        forall|n: Seq<char>| #[trigger]
            c.contains_key(n) ==> c[n].messages.subset_of(exchange(c, a, b)[n].messages)
                && exchange(c, a, b)[n].neighborhood == c[n].neighborhood,
        c[a].messages.subset_of(exchange(c, a, b)[b].messages),
        universe(exchange(c, a, b)) == universe(c),
{
    let d = exchange(c, a, b);
    assert(d.dom() =~= c.dom());
    assert(c[a].messages.subset_of(d[b].messages)) by {
        assert forall|v: usize| c[a].messages.contains(v) implies d[b].messages.contains(v) by {
            if c[a].known_to(b).contains(v) {
                assert(c[b].messages.contains(v));
            }
        }
    }
    assert forall|x: Seq<char>, y: Seq<char>|
        d.contains_key(x) && d.contains_key(y) implies (#[trigger] d[x].known_to(y)).subset_of(
        d[y].messages,
    ) by {
        assert(c[x].known_to(y).subset_of(c[y].messages));
        assert(c[b].known_to(a).subset_of(c[a].messages));
        assert(c[y].messages.subset_of(d[y].messages));
    }
    assert forall|v: usize| universe(d).contains(v) <==> universe(c).contains(v) by {
        if universe(d).contains(v) {
            let n = choose|n: Seq<char>| d.contains_key(n) && #[trigger] d[n].messages.contains(v);
            if !c[n].messages.contains(v) {
                assert(c[a].messages.contains(v));
            }
        }
        if universe(c).contains(v) {
            let n = choose|n: Seq<char>| c.contains_key(n) && #[trigger] c[n].messages.contains(v);
            assert(d[n].messages.contains(v));
        }
    }
}

/// What one exchange keeps, any number of them keep.
pub proof fn lemma_run(c: Map<Seq<char>, BroadcastState>, schedule: Seq<(Seq<char>, Seq<char>)>)
    requires
        cluster_inv(c),
        along_edges(c, schedule),
    ensures
        cluster_inv(run(c, schedule)),
        run(c, schedule).dom() == c.dom(),
        forall|n: Seq<char>| #[trigger]
            c.contains_key(n) ==> c[n].messages.subset_of(run(c, schedule)[n].messages) && run(
                c,
                schedule,
            )[n].neighborhood == c[n].neighborhood,
        universe(run(c, schedule)) == universe(c),
    decreases schedule.len(),
{
    if schedule.len() > 0 {
        let before = schedule.drop_last();
        assert forall|i: int| 0 <= i < before.len() implies is_edge(
            c,
            (#[trigger] before[i]).0,
            before[i].1,
        ) by {
            assert(before[i] == schedule[i]);
        }
        lemma_run(c, before);
        let last = schedule[schedule.len() - 1];
        assert(is_edge(c, last.0, last.1));
        lemma_exchange(run(c, before), last.0, last.1);
    }
}

/// Gossip that is carried along a path arrives: at the end of the schedule
/// the last member of the path has seen all that the first had seen at the
/// start.
pub proof fn lemma_carried(
    c: Map<Seq<char>, BroadcastState>,
    schedule: Seq<(Seq<char>, Seq<char>)>,
    path: Seq<Seq<char>>,
)
    requires
        cluster_inv(c),
        along_edges(c, schedule),
        path.len() >= 1,
        c.contains_key(path[0]),
        c.contains_key(path.last()),
        carries(schedule, path),
    ensures
        c[path[0]].messages.subset_of(run(c, schedule)[path.last()].messages),
    decreases schedule.len(),
{
    lemma_run(c, schedule);
    if path.len() > 1 {
        let before = schedule.drop_last();
        assert forall|i: int| 0 <= i < before.len() implies is_edge(
            c,
            (#[trigger] before[i]).0,
            before[i].1,
        ) by {
            assert(before[i] == schedule[i]);
        }
        lemma_run(c, before);
        let last = schedule[schedule.len() - 1];
        assert(is_edge(c, last.0, last.1));
        lemma_exchange(run(c, before), last.0, last.1);
        if carries(before, path) {
            lemma_carried(c, before, path);
        } else {
            let shorter = path.drop_last();
            assert(shorter[0] == path[0]);
            assert(shorter.last() == last.0);
            lemma_carried(c, before, shorter);
        }
    }
}

/// Gossip converges. Start from any state of the cluster, with whatever
/// values broadcast to whichever members. Let gossip run, with no further
/// value broadcast, until it has been carried from every member to every
/// other. Then every member has seen the same values, namely all that any
/// member had seen, and answers a `read` with them.
pub proof fn lemma_gossip_converges(
    c: Map<Seq<char>, BroadcastState>,
    schedule: Seq<(Seq<char>, Seq<char>)>,
)
    requires
        cluster_inv(c),
        along_edges(c, schedule),
        reaches_all(c, schedule),
    ensures
        forall|v: Seq<char>| #[trigger]
            c.contains_key(v) ==> run(c, schedule)[v].messages == universe(c),
        forall|u: Seq<char>, v: Seq<char>|
            c.contains_key(u) && c.contains_key(v) ==> (#[trigger] run(c, schedule)[u]).messages
                == (#[trigger] run(c, schedule)[v]).messages,
        forall|v: Seq<char>, read: MessageView<BroadcastPayloadView>|
            c.contains_key(v) && read.payload == BroadcastPayloadView::Read && reply_outcome(
                read,
                run(c, schedule)[v].next_id,
            ) is Ok ==> (#[trigger] broadcast_step(
                run(c, schedule)[v],
                EventView::Message(read),
            )).emitted == seq![
                reply_to(
                    read,
                    run(c, schedule)[v].next_id,
                    BroadcastPayloadView::ReadOk { messages: universe(c) },
                ),
            ],
{
    let end = run(c, schedule);
    lemma_run(c, schedule);
    assert forall|v: Seq<char>| #[trigger] c.contains_key(v) implies end[v].messages == universe(
        c,
    ) by {
        assert forall|x: usize| universe(c).contains(x) implies end[v].messages.contains(x) by {
            let u = choose|u: Seq<char>| c.contains_key(u) && #[trigger] c[u].messages.contains(x);
            let path = choose|path: Seq<Seq<char>>|
                path.len() >= 1 && path[0] == u && path.last() == v && #[trigger] carries(
                    schedule,
                    path,
                );
            lemma_carried(c, schedule, path);
        }
        assert forall|x: usize| end[v].messages.contains(x) implies universe(c).contains(x) by {
            assert(end.contains_key(v));
            assert(universe(end).contains(x));
        }
        assert(end[v].messages =~= universe(c));
    }
}

/// `round`, `times` times over.
pub open spec fn rounds(round: Seq<(Seq<char>, Seq<char>)>, times: nat) -> Seq<
    (Seq<char>, Seq<char>),
>
    decreases times,
{
    if times == 0 {
        Seq::empty()
    } else {
        rounds(round, (times - 1) as nat) + round
    }
}

/// Whether `path` leads along edges of the topology, in at most `hops` steps.
pub open spec fn is_path(c: Map<Seq<char>, BroadcastState>, path: Seq<Seq<char>>, hops: nat) -> bool {
    &&& 1 <= path.len() <= hops + 1
    &&& forall|i: int| 0 <= i < path.len() - 1 ==> is_edge(c, #[trigger] path[i], path[i + 1])
}

/// The topology is connected: from every member a path of at most `hops`
/// steps leads to every other.
pub open spec fn connected(c: Map<Seq<char>, BroadcastState>, hops: nat) -> bool {
    forall|u: Seq<char>, v: Seq<char>|
        c.contains_key(u) && c.contains_key(v) ==> exists|path: Seq<Seq<char>>|
            path[0] == u && path.last() == v && #[trigger] is_path(c, path, hops)
}

/// Whether `round` is a full round of gossip: the gossip of every member
/// reaches each of its neighbours, and nothing else happens.
pub open spec fn full_round(
    c: Map<Seq<char>, BroadcastState>,
    round: Seq<(Seq<char>, Seq<char>)>,
) -> bool {
    &&& along_edges(c, round)
    &&& forall|a: Seq<char>, b: Seq<char>| #[trigger] is_edge(c, a, b) ==> round.contains((a, b))
}

/// What a schedule carries, it still carries when more exchanges follow.
pub proof fn lemma_carries_on(
    schedule: Seq<(Seq<char>, Seq<char>)>,
    more: Seq<(Seq<char>, Seq<char>)>,
    path: Seq<Seq<char>>,
)
    requires
        carries(schedule, path),
    ensures
        carries(schedule + more, path),
    decreases more.len(),
{
    if more.len() == 0 {
        assert(schedule + more =~= schedule);
    } else if path.len() > 1 {
        assert((schedule + more).drop_last() =~= schedule + more.drop_last());
        lemma_carries_on(schedule, more.drop_last(), path);
    }
}

/// A schedule that carries gossip along all but the last step of a path
/// carries it along the whole path once exchanges follow among which is one
/// for the last step.
pub proof fn lemma_carries_one_more(
    schedule: Seq<(Seq<char>, Seq<char>)>,
    more: Seq<(Seq<char>, Seq<char>)>,
    path: Seq<Seq<char>>,
)
    requires
        path.len() >= 2,
        carries(schedule, path.drop_last()),
        more.contains((path[path.len() - 2], path.last())),
    ensures
        carries(schedule + more, path),
    decreases more.len(),
{
    let step = (path[path.len() - 2], path.last());
    let at = choose|i: int| 0 <= i < more.len() && more[i] == step;
    assert((schedule + more).drop_last() =~= schedule + more.drop_last());
    if at == more.len() - 1 {
        assert((schedule + more).last() == step);
        lemma_carries_on(schedule, more.drop_last(), path.drop_last());
    } else {
        assert(more.drop_last()[at] == step);
        lemma_carries_one_more(schedule, more.drop_last(), path);
    }
}

/// As many full rounds as a path has steps carry gossip along the path.
pub proof fn lemma_rounds_carry(
    c: Map<Seq<char>, BroadcastState>,
    round: Seq<(Seq<char>, Seq<char>)>,
    times: nat,
    path: Seq<Seq<char>>,
)
    requires
        full_round(c, round),
        is_path(c, path, times),
    ensures
        carries(rounds(round, times), path),
    decreases times,
{
    if path.len() >= 2 {
        let shorter = path.drop_last();
        assert forall|i: int| 0 <= i < shorter.len() - 1 implies is_edge(
            c,
            #[trigger] shorter[i],
            shorter[i + 1],
        ) by {
            assert(is_edge(c, path[i], path[i + 1]));
        }
        lemma_rounds_carry(c, round, (times - 1) as nat, shorter);
        assert(is_edge(c, path[path.len() - 2], path[path.len() - 2 + 1]));
        lemma_carries_one_more(rounds(round, (times - 1) as nat), round, path);
    }
}

/// Full rounds, however many, go along edges of the topology.
pub proof fn lemma_rounds_along_edges(
    c: Map<Seq<char>, BroadcastState>,
    round: Seq<(Seq<char>, Seq<char>)>,
    times: nat,
)
    requires
        along_edges(c, round),
    ensures
        along_edges(c, rounds(round, times)),
    decreases times,
{
    if times > 0 {
        lemma_rounds_along_edges(c, round, (times - 1) as nat);
        let before = rounds(round, (times - 1) as nat);
        assert forall|i: int| 0 <= i < rounds(round, times).len() implies is_edge(
            c,
            (#[trigger] rounds(round, times)[i]).0,
            rounds(round, times)[i].1,
        ) by {
            if i < before.len() {
                assert(rounds(round, times)[i] == before[i]);
            } else {
                assert(rounds(round, times)[i] == round[i - before.len()]);
            }
        }
    }
}

/// Gossip converges in a connected topology. Start from any state of the
/// cluster, with whatever values broadcast to whichever members, and let no
/// further value be broadcast. If a path of at most `hops` steps leads from
/// every member to every other, then after `hops` full rounds of gossip every
/// member has seen the same values: all that any member had seen.
pub proof fn lemma_rounds_converge(
    c: Map<Seq<char>, BroadcastState>,
    round: Seq<(Seq<char>, Seq<char>)>,
    hops: nat,
)
    requires
        cluster_inv(c),
        full_round(c, round),
        connected(c, hops),
    ensures
        forall|v: Seq<char>| #[trigger]
            c.contains_key(v) ==> run(c, rounds(round, hops))[v].messages == universe(c),
{
    let schedule = rounds(round, hops);
    lemma_rounds_along_edges(c, round, hops);
    assert forall|u: Seq<char>, v: Seq<char>| c.contains_key(u) && c.contains_key(v) implies exists|
        path: Seq<Seq<char>>,
    |
        path.len() >= 1 && path[0] == u && path.last() == v && #[trigger] carries(
            schedule,
            path,
        ) by {
        let path = choose|path: Seq<Seq<char>>|
            path[0] == u && path.last() == v && #[trigger] is_path(c, path, hops);
        lemma_rounds_carry(c, round, hops, path);
    }
    lemma_gossip_converges(c, schedule);
}

/// A cluster whose members have handled nothing yet is as a cluster must be.
pub proof fn lemma_initial_cluster(c: Map<Seq<char>, BroadcastState>, node_ids: Seq<Seq<char>>)
    requires
        forall|n: Seq<char>| #[trigger]
            c.contains_key(n) ==> c[n] == BroadcastState::initial(n, node_ids),
    ensures
        cluster_inv(c),
        universe(c) == Set::<usize>::empty(),
{
    assert forall|a: Seq<char>, b: Seq<char>|
        c.contains_key(a) && c.contains_key(b) implies (#[trigger] c[a].known_to(b)).subset_of(
        c[b].messages,
    ) by {
        assert(c[a] == BroadcastState::initial(a, node_ids));
    }
}

/// Whatever a member handles that is no gossip, be it a request of a client,
/// an acknowledgement or a tick, the cluster stays as a cluster must be.
pub proof fn lemma_member_step_keeps_inv(
    c: Map<Seq<char>, BroadcastState>,
    n: Seq<char>,
    input: EventView<BroadcastPayloadView, BroadcastInjected>,
)
    requires
        cluster_inv(c),
        c.contains_key(n),
        !(input matches EventView::Message(m) && m.payload is Gossip),
    ensures
        cluster_inv(c.insert(n, broadcast_step(c[n], input).state)),
{
    let after = broadcast_step(c[n], input).state;
    let d = c.insert(n, after);
    assert(after.known == c[n].known);
    assert forall|a: Seq<char>, b: Seq<char>|
        d.contains_key(a) && d.contains_key(b) implies (#[trigger] d[a].known_to(b)).subset_of(
        d[b].messages,
    ) by {
        assert(c[a].known_to(b).subset_of(c[b].messages));
    }
}

/// A value that is broadcast to a member and acknowledged is from then on
/// one of the values that the cluster has seen, and the only new one.
pub proof fn lemma_broadcast_joins_universe(
    c: Map<Seq<char>, BroadcastState>,
    n: Seq<char>,
    request: MessageView<BroadcastPayloadView>,
)
    requires
        c.contains_key(n),
        request.payload is Broadcast,
        broadcast_step(c[n], EventView::Message(request)).result is Ok,
    ensures
        universe(c.insert(n, broadcast_step(c[n], EventView::Message(request)).state))
            == universe(c).insert(request.payload->message),
{
    let value = request.payload->message;
    let d = c.insert(n, broadcast_step(c[n], EventView::Message(request)).state);
    assert(d[n].messages == c[n].messages.insert(value));
    assert forall|v: usize| universe(d).contains(v) <==> universe(c).insert(value).contains(
        v,
    ) by {
        if universe(d).contains(v) && v != value {
            let m = choose|m: Seq<char>| d.contains_key(m) && #[trigger] d[m].messages.contains(v);
            assert(c[m].messages.contains(v));
        }
        if universe(c).contains(v) {
            let m = choose|m: Seq<char>| c.contains_key(m) && #[trigger] c[m].messages.contains(v);
            assert(d[m].messages.contains(v));
        }
        if v == value {
            assert(d[n].messages.contains(v));
        }
    }
    assert(universe(d) =~= universe(c).insert(value));
}

/// Gossip may arrive late, more than once or out of order: as long as what
/// it carries is something that its sender has seen, the cluster stays as a
/// cluster must be, and no member sees a value that none had seen.
pub proof fn lemma_delivery_keeps_inv(
    c: Map<Seq<char>, BroadcastState>,
    from: Seq<char>,
    to: Seq<char>,
    seen: Set<usize>,
)
    requires
        cluster_inv(c),
        c.contains_key(from),
        c.contains_key(to),
        seen.subset_of(c[from].messages),
    ensures
        cluster_inv(c.insert(to, c[to].heard(from, seen))),
        universe(c.insert(to, c[to].heard(from, seen))) == universe(c),
{
    let d = c.insert(to, c[to].heard(from, seen));
    assert forall|x: Seq<char>, y: Seq<char>|
        d.contains_key(x) && d.contains_key(y) implies (#[trigger] d[x].known_to(y)).subset_of(
        d[y].messages,
    ) by {
        assert(c[x].known_to(y).subset_of(c[y].messages));
        assert(c[to].known_to(from).subset_of(c[from].messages));
        assert(c[y].messages.subset_of(d[y].messages));
    }
    assert forall|v: usize| universe(d).contains(v) <==> universe(c).contains(v) by {
        if universe(d).contains(v) {
            let n = choose|n: Seq<char>| d.contains_key(n) && #[trigger] d[n].messages.contains(v);
            if !c[n].messages.contains(v) {
                assert(c[from].messages.contains(v));
            }
        }
        if universe(c).contains(v) {
            let n = choose|n: Seq<char>| c.contains_key(n) && #[trigger] c[n].messages.contains(v);
            assert(d[n].messages.contains(v));
        }
    }
}

/// Gossip that arrives late still delivers. Let `a` have ticked when the
/// cluster was `then`, and let the message that the tick had for `b` arrive
/// when the cluster is `now`, in which every member has seen at least what
/// it had seen before. Afterwards `b` has seen all that `a` had seen when it
/// ticked.
pub proof fn lemma_late_gossip_delivers(
    then: Map<Seq<char>, BroadcastState>,
    now: Map<Seq<char>, BroadcastState>,
    a: Seq<char>,
    b: Seq<char>,
)
    requires
        cluster_inv(then),
        then.contains_key(a),
        then.contains_key(b),
        now.contains_key(b),
        then[b].messages.subset_of(now[b].messages),
    ensures
        then[a].messages.subset_of(now[b].heard(a, then[a].news_for(b)).messages),
{
    let after = now[b].heard(a, then[a].news_for(b));
    assert forall|v: usize| then[a].messages.contains(v) implies after.messages.contains(v) by {
        if then[a].known_to(b).contains(v) {
            assert(then[a].known_to(b).subset_of(then[b].messages));
            assert(then[b].messages.contains(v));
        }
    }
}

} // verus!
