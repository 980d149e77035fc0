//! The search run to its end, for successors that can be had at once.

use crate::frontier::SmallestCostHolder;
use crate::frontier::is_least;
use crate::frontier::lemma_least_unique;
use crate::grid::spec_manhattan;
use crate::node_table::Cell;
use crate::optimal::lemma_expand_on_open_ground;
use crate::optimal::lemma_goal_cost;
use crate::optimal::lemma_initial_on_open_ground;
use crate::optimal::lemma_stale_expand;
use crate::optimal::lemma_take_on_open_ground;
use crate::optimal::on_open_ground;
use crate::optimal::open_ground_successors;
use crate::search::Heuristic;
use crate::search::Node;
use crate::search::Search;
use crate::search::SearchState;
use crate::search::Step;
use crate::search::Visit;
use crate::search::leads_to;
use crate::search::lemma_expand_keeps_nodes;
use crate::search::spec_offers;
use crate::search::total;
use vstd::multiset::Multiset;
use vstd::prelude::*;

verus! {

/// `successors` and `success` describe open ground with the goal at
/// `goal`: from every node the successors are its neighbours, each one
/// step away, and the search is over at the goal's cell and nowhere else.
pub open spec fn open_ground<H, FN: Fn(&Node<H>) -> Vec<(Node<H>, u64)>, FS: Fn(&Node<H>) -> bool>(
    successors: FN,
    success: FS,
    goal: Cell,
) -> bool {
    &&& forall|n: Node<H>, out: Vec<(Node<H>, u64)>| #[trigger]
        call_ensures(successors, (&n,), out) ==> open_ground_successors(n.position, out@)
    &&& forall|n: Node<H>, ok: bool| #[trigger]
        call_ensures(success, (&n,), ok) ==> ok == (n.position == goal)
}

/// `successors` may offer, from the node `from`, a step to the cell `to`
/// at the cost `cost`.
pub open spec fn offered_by<H, FN: Fn(&Node<H>) -> Vec<(Node<H>, u64)>>(
    successors: FN,
    from: Node<H>,
    to: Cell,
    cost: int,
) -> bool {
    exists|out: Vec<(Node<H>, u64)>, m: int|
        call_ensures(successors, (&from,), out) && 0 <= m < out@.len() && (#[trigger] out@[m]).0.position
            == to && out@[m].1 == cost
}

/// `path` is a walk: each of its nodes may have offered a step to the cell
/// of the next, at the cost that `costs` gives for it.
pub open spec fn is_walk<H, FN: Fn(&Node<H>) -> Vec<(Node<H>, u64)>>(
    successors: FN,
    path: Seq<Node<H>>,
    costs: Seq<int>,
) -> bool {
    &&& costs.len() + 1 == path.len()
    &&& forall|k: int|
        0 <= k < costs.len() ==> offered_by(
            successors,
            path[k],
            path[k + 1].position,
            #[trigger] costs[k],
        )
}

/// `path` is a walk whose steps cost no more than `cost` in all.
pub open spec fn is_route<H, FN: Fn(&Node<H>) -> Vec<(Node<H>, u64)>>(
    successors: FN,
    path: Seq<Node<H>>,
    cost: int,
) -> bool {
    exists|costs: Seq<int>| #[trigger] is_walk(successors, path, costs) && total(costs) <= cost
}

/// Where every step that the search was given is one that `successors` may
/// have offered, every route of the search is a walk whose steps cost no
/// more than the best cost of the node that it leads to.
pub proof fn lemma_route_is_walk<H: Copy, FN: Fn(&Node<H>) -> Vec<(Node<H>, u64)>>(
    search: &Search<H>,
    successors: FN,
    index: int,
)
    requires
        search.wf(),
        0 <= index < search@.table.len(),
        forall|step: Step| #[trigger]
            search.offered().contains(step) ==> offered_by(
                successors,
                search@.node(step.0),
                step.1,
                step.2,
            ),
    ensures
        is_route(successors, search.route(index), search@.best(index)),
{
    let costs = search.lemma_trail_offered(index);
    let trail = search.trail(index);
    let path = search.route(index);
    assert forall|k: int| 0 <= k < costs.len() implies offered_by(
        successors,
        path[k],
        path[k + 1].position,
        #[trigger] costs[k],
    ) by {
        let from = trail[k];
        let to = trail[k + 1];
        let step = (from, search@.table[to].0, costs[k]);
        assert(search.offered().contains(step));
        assert(path[k] == search@.node(from));
        assert(path[k + 1] == search@.node(to));
    }
    assert(is_walk(successors, path, costs));
}

/// What the caller's two functions said of one node that the search took
/// from its open list.
pub struct Answer<H> {
    /// `success` accepted the node.
    pub accepted: bool,
    /// What `successors` offered from the node; nothing where it was not
    /// asked.
    pub successors: Seq<(Node<H>, u64)>,
}

/// The entry that precedes every entry of the open list.
pub open spec fn spec_least(open: Multiset<SmallestCostHolder>) -> SmallestCostHolder {
    choose|e: SmallestCostHolder| is_least(open, e)
}

/// The search after `n` rounds. In each round the least entry is taken
/// from the open list and expanded with what the answer of that round
/// offers.
pub open spec fn spec_after<H>(
    start: Node<H>,
    heuristic: Heuristic,
    answers: Seq<Answer<H>>,
    n: nat,
) -> SearchState<H>
    decreases n,
{
    if n == 0 {
        SearchState::initial(start, heuristic)
    } else {
        let before = spec_after(start, heuristic, answers, (n - 1) as nat);
        before.take(spec_least(before.open)).expand(answers[n - 1].successors)
    }
}

/// The visit that round `n` begins with: the least entry of the open list
/// after `n` rounds.
pub open spec fn spec_visit<H>(
    start: Node<H>,
    heuristic: Heuristic,
    answers: Seq<Answer<H>>,
    n: nat,
) -> Visit<H> {
    let s = spec_after(start, heuristic, answers, n);
    s.visit_of(spec_least(s.open))
}

/// `answer` is what the two functions may have said of `visit`: `success`
/// was asked about the node, and `successors` was asked for its successors
/// unless the node was accepted or the visit is stale.
pub open spec fn answer_given<
    H,
    FN: Fn(&Node<H>) -> Vec<(Node<H>, u64)>,
    FS: Fn(&Node<H>) -> bool,
>(successors: FN, success: FS, visit: Visit<H>, answer: Answer<H>) -> bool {
    &&& call_ensures(success, (&visit.node,), answer.accepted)
    &&& if answer.accepted || visit.stale {
        answer.successors == Seq::<(Node<H>, u64)>::empty()
    } else {
        exists|out: Vec<(Node<H>, u64)>| #[trigger]
            call_ensures(successors, (&visit.node,), out) && out@ == answer.successors
    }
}

/// The table can count the successors that `answer` offers beside the
/// nodes it holds.
pub open spec fn has_room<H>(s: SearchState<H>, answer: Answer<H>) -> bool {
    s.table.len() + answer.successors.len() <= usize::MAX
}

/// Round `i` went on to the next round: there was an entry to take, its
/// node was not accepted, and the table had room for its successors.
pub open spec fn round_went_on<
    H,
    FN: Fn(&Node<H>) -> Vec<(Node<H>, u64)>,
    FS: Fn(&Node<H>) -> bool,
>(
    start: Node<H>,
    successors: FN,
    heuristic: Heuristic,
    success: FS,
    answers: Seq<Answer<H>>,
    i: nat,
) -> bool {
    let s = spec_after(start, heuristic, answers, i);
    &&& i < answers.len()
    &&& s.open.len() > 0
    &&& answer_given(successors, success, spec_visit(start, heuristic, answers, i), answers[i as int])
    &&& !answers[i as int].accepted
    &&& has_room(s, answers[i as int])
}

/// `found` is what the search of `budget` rounds at most comes to when the
/// two functions give `answers`, of which the first `n` are for rounds
/// that went on. The search ends without a route when the budget is spent
/// or no entry is left to take, and after an answer that offers more
/// successors than the table can count. It ends with the route to the
/// node of round `n`, at the cost of the entry that was taken, when that
/// node is accepted.
pub open spec fn is_run<H, FN: Fn(&Node<H>) -> Vec<(Node<H>, u64)>, FS: Fn(&Node<H>) -> bool>(
    start: Node<H>,
    successors: FN,
    heuristic: Heuristic,
    success: FS,
    budget: usize,
    answers: Seq<Answer<H>>,
    n: nat,
    found: Option<(Vec<Node<H>>, u64)>,
) -> bool {
    let s = spec_after(start, heuristic, answers, n);
    let visit = spec_visit(start, heuristic, answers, n);
    &&& n <= budget
    &&& forall|i: nat|
        i < n ==> #[trigger] round_went_on(start, successors, heuristic, success, answers, i)
    &&& if n == budget || s.open.len() == 0 {
        answers.len() == n && found is None
    } else {
        &&& answers.len() == n + 1
        &&& answer_given(successors, success, visit, answers[n as int])
        &&& if answers[n as int].accepted {
            found matches Some((path, cost)) && cost == visit.cost && leads_to(
                s,
                path@,
                visit.index as int,
            )
        } else {
            !has_room(s, answers[n as int]) && found is None
        }
    }
}

/// The search after `n` rounds depends on the first `n` answers alone.
pub proof fn lemma_after_prefix<H>(
    start: Node<H>,
    heuristic: Heuristic,
    shorter: Seq<Answer<H>>,
    longer: Seq<Answer<H>>,
    n: nat,
)
    requires
        n <= shorter.len() <= longer.len(),
        forall|i: int| 0 <= i < shorter.len() ==> shorter[i] == longer[i],
    ensures
        spec_after(start, heuristic, shorter, n) == spec_after(start, heuristic, longer, n),
    decreases n,
{
    if n > 0 {
        lemma_after_prefix(start, heuristic, shorter, longer, (n - 1) as nat);
    }
}

/// A round that went on stays one that went on when further answers come
/// in.
pub proof fn lemma_round_stays<
    H,
    FN: Fn(&Node<H>) -> Vec<(Node<H>, u64)>,
    FS: Fn(&Node<H>) -> bool,
>(
    start: Node<H>,
    successors: FN,
    heuristic: Heuristic,
    success: FS,
    answers: Seq<Answer<H>>,
    answer: Answer<H>,
    i: nat,
)
    requires
        round_went_on(start, successors, heuristic, success, answers, i),
    ensures
        round_went_on(start, successors, heuristic, success, answers.push(answer), i),
{
    lemma_after_prefix(start, heuristic, answers, answers.push(answer), i);
}

/// The search stands at `state` after as many rounds as there are answers,
/// and each of these rounds went on.
pub open spec fn in_round<H, FN: Fn(&Node<H>) -> Vec<(Node<H>, u64)>, FS: Fn(&Node<H>) -> bool>(
    start: Node<H>,
    successors: FN,
    heuristic: Heuristic,
    success: FS,
    answers: Seq<Answer<H>>,
    state: SearchState<H>,
) -> bool {
    &&& state == spec_after(start, heuristic, answers, answers.len())
    &&& forall|i: nat|
        i < answers.len() ==> #[trigger] round_went_on(
            start,
            successors,
            heuristic,
            success,
            answers,
            i,
        )
}

/// The entry that a search takes is the least of its open list.
pub proof fn lemma_least_taken(open: Multiset<SmallestCostHolder>, entry: SmallestCostHolder)
    requires
        is_least(open, entry),
    ensures
        spec_least(open) == entry,
        open.len() > 0,
{
    broadcast use vstd::multiset::group_multiset_axioms;

    lemma_least_unique(open, entry, spec_least(open));
    if open.len() == 0 {
        vstd::multiset::lemma_multiset_empty_len(open);
        assert(open.count(entry) == 0);
    }
}

/// A search that has spent its budget, or has no entry left to take, ends
/// without a route.
pub proof fn lemma_run_gives_up<
    H,
    FN: Fn(&Node<H>) -> Vec<(Node<H>, u64)>,
    FS: Fn(&Node<H>) -> bool,
>(
    start: Node<H>,
    successors: FN,
    heuristic: Heuristic,
    success: FS,
    budget: usize,
    answers: Seq<Answer<H>>,
    state: SearchState<H>,
)
    requires
        in_round(start, successors, heuristic, success, answers, state),
        answers.len() <= budget,
        answers.len() == budget || state.open.len() == 0,
    ensures
        is_run(
            start,
            successors,
            heuristic,
            success,
            budget,
            answers,
            answers.len(),
            None::<(Vec<Node<H>>, u64)>,
        ),
{
}

/// A search whose last answer ends it: the node is accepted and the route
/// to it is found, or the node offers more successors than the table can
/// count and no route is found.
pub proof fn lemma_run_stops<
    H,
    FN: Fn(&Node<H>) -> Vec<(Node<H>, u64)>,
    FS: Fn(&Node<H>) -> bool,
>(
    start: Node<H>,
    successors: FN,
    heuristic: Heuristic,
    success: FS,
    budget: usize,
    answers: Seq<Answer<H>>,
    state: SearchState<H>,
    entry: SmallestCostHolder,
    answer: Answer<H>,
    found: Option<(Vec<Node<H>>, u64)>,
)
    requires
        in_round(start, successors, heuristic, success, answers, state),
        answers.len() < budget,
        is_least(state.open, entry),
        answer_given(successors, success, state.visit_of(entry), answer),
        if answer.accepted {
            found matches Some((path, cost)) && cost == entry.cost && leads_to(
                state,
                path@,
                entry.index as int,
            )
        } else {
            !has_room(state, answer) && found is None
        },
    ensures
        is_run(
            start,
            successors,
            heuristic,
            success,
            budget,
            answers.push(answer),
            answers.len(),
            found,
        ),
{
    let longer = answers.push(answer);
    let n = answers.len();
    lemma_least_taken(state.open, entry);
    lemma_after_prefix(start, heuristic, answers, longer, n);
    assert forall|i: nat| i < n implies #[trigger] round_went_on(
        start,
        successors,
        heuristic,
        success,
        longer,
        i,
    ) by {
        lemma_round_stays(start, successors, heuristic, success, answers, answer, i);
    }
    assert(longer[n as int] == answer);
}

/// A search whose last answer lets it go on stands, after the round, at
/// the state that the entry taken and the successors offered lead to.
pub proof fn lemma_run_goes_on<
    H,
    FN: Fn(&Node<H>) -> Vec<(Node<H>, u64)>,
    FS: Fn(&Node<H>) -> bool,
>(
    start: Node<H>,
    successors: FN,
    heuristic: Heuristic,
    success: FS,
    answers: Seq<Answer<H>>,
    state: SearchState<H>,
    entry: SmallestCostHolder,
    answer: Answer<H>,
)
    requires
        in_round(start, successors, heuristic, success, answers, state),
        is_least(state.open, entry),
        answer_given(successors, success, state.visit_of(entry), answer),
        !answer.accepted,
        has_room(state, answer),
    ensures
        in_round(
            start,
            successors,
            heuristic,
            success,
            answers.push(answer),
            state.take(entry).expand(answer.successors),
        ),
{
    let longer = answers.push(answer);
    let n = answers.len();
    lemma_least_taken(state.open, entry);
    lemma_after_prefix(start, heuristic, answers, longer, n);
    assert(longer[n as int] == answer);
    assert(spec_after(start, heuristic, longer, (n + 1) as nat) == spec_after(
        start,
        heuristic,
        longer,
        n,
    ).take(spec_least(spec_after(start, heuristic, longer, n).open)).expand(
        longer[n as int].successors,
    ));
    assert forall|i: nat| i < longer.len() implies #[trigger] round_went_on(
        start,
        successors,
        heuristic,
        success,
        longer,
        i,
    ) by {
        if i < n {
            lemma_round_stays(start, successors, heuristic, success, answers, answer, i);
        }
    }
}

/// The way to a node is the same in two searches that have the same nodes.
pub proof fn lemma_leads_same<H>(
    s: SearchState<H>,
    t: SearchState<H>,
    path: Seq<Node<H>>,
    index: int,
)
    requires
        s.table == t.table,
        s.heights == t.heights,
        leads_to(t, path, index),
    ensures
        leads_to(s, path, index),
{
    let indices = choose|indices: Seq<int>| #[trigger]
        crate::search::is_chain(t.table, indices, index) && path == indices.map_values(
            |k: int| t.node(k),
        );
    assert(indices.map_values(|k: int| t.node(k)) =~= indices.map_values(|k: int| s.node(k)));
}

/// Searches from `start` until `success` accepts a node, and gives the
/// route to that node with its cost. The search takes the node with the
/// least estimated cost first. It gives up with `None` when no node is
/// left to try, after `budget` nodes, or when the nodes can no longer be
/// counted.
///
/// What comes back is what the rounds of the search come to, given what
/// the two functions answered in each: see [`is_run`]. The route is a walk
/// from `start` along steps that `successors` offered, and these steps
/// cost no more than the cost that is given with it.
///
/// On open ground the cost is the Manhattan distance from the start to the
/// goal: no route is shorter.
pub fn astar<H: Copy, FN: Fn(&Node<H>) -> Vec<(Node<H>, u64)>, FS: Fn(&Node<H>) -> bool>(
    start: &Node<H>,
    successors: FN,
    heuristic: Heuristic,
    success: FS,
    budget: usize,
) -> (found: Option<(Vec<Node<H>>, u64)>)
    requires
        forall|n: Node<H>| call_requires(successors, (&n,)),
        forall|n: Node<H>| call_requires(success, (&n,)),
    ensures
        exists|answers: Seq<Answer<H>>, n: nat| #[trigger]
            is_run(*start, successors, heuristic, success, budget, answers, n, found),
        found matches Some((path, cost)) ==> {
            &&& path@.len() >= 1
            &&& path@.first() == *start
            &&& call_ensures(success, (&path@.last(),), true)
            &&& is_route(successors, path@, cost as int)
            &&& heuristic matches Heuristic::Euclid { goal } ==> open_ground(
                successors,
                success,
                goal,
            ) ==> cost == spec_manhattan(start.position, goal)
        },
{
    let mut search = Search::new(*start, heuristic);
    proof {
        if let Heuristic::Euclid { goal } = heuristic {
            lemma_initial_on_open_ground(*start, goal);
        }
    }
    let ghost mut answers: Seq<Answer<H>> = Seq::empty();
    let mut left = budget;
    while left > 0
        invariant
            search.wf(),
            answers.len() + left == budget,
            in_round(*start, successors, heuristic, success, answers, search@),
            search@.current is None,
            search@.node(0) == *start,
            forall|step: Step| #[trigger]
                search.offered().contains(step) ==> 0 <= step.0 < search@.table.len()
                    && offered_by(successors, search@.node(step.0), step.1, step.2),
            forall|n: Node<H>| call_requires(successors, (&n,)),
            forall|n: Node<H>| call_requires(success, (&n,)),
            heuristic matches Heuristic::Euclid { goal } ==> open_ground(successors, success, goal)
                ==> on_open_ground(search@, start.position, goal),
        decreases left,
    {
        left -= 1;
        let ghost before = search@;
        let visit = match search.next() {
            None => {
                proof {
                    lemma_run_gives_up(
                        *start,
                        successors,
                        heuristic,
                        success,
                        budget,
                        answers,
                        before,
                    );
                }
                return None;
            },
            Some(visit) => visit,
        };
        let ghost taken = search@;
        let ghost taking = visit.entry();
        proof {
            search.lemma_wf_state();
        }
        if success(&visit.node) {
            let path = search.path_to(visit.index);
            proof {
                search.lemma_route_ends(visit.index as int);
                lemma_route_is_walk(&search, successors, visit.index as int);
                assert(taken.entry_ok(taking));
                let costs = choose|costs: Seq<int>| #[trigger]
                    is_walk(successors, path@, costs) && total(costs) <= taken.best(
                        visit.index as int,
                    );
                assert(is_walk(successors, path@, costs) && total(costs) <= visit.cost);
                if let Heuristic::Euclid { goal } = heuristic {
                    if open_ground(successors, success, goal) {
                        lemma_goal_cost(before, start.position, goal, taking);
                    }
                }
                search.lemma_route_leads(visit.index as int);
                lemma_leads_same(before, taken, path@, visit.index as int);
                let answer = Answer {
                    accepted: true,
                    successors: Seq::<(Node<H>, u64)>::empty(),
                };
                lemma_run_stops(
                    *start,
                    successors,
                    heuristic,
                    success,
                    budget,
                    answers,
                    before,
                    taking,
                    answer,
                    Some((path, visit.cost)),
                );
            }
            return Some((path, visit.cost));
        }
        let next = if visit.stale {
            Vec::new()
        } else {
            successors(&visit.node)
        };
        let ghost answer = Answer { accepted: false, successors: next@ };
        proof {
            assert(answer_given(successors, success, before.visit_of(taking), answer));
        }
        match search.len().checked_add(next.len()) {
            None => {
                proof {
                    lemma_run_stops(
                        *start,
                        successors,
                        heuristic,
                        success,
                        budget,
                        answers,
                        before,
                        taking,
                        answer,
                        None,
                    );
                }
                return None;
            },
            Some(_) => {},
        }
        proof {
            lemma_run_goes_on(
                *start,
                successors,
                heuristic,
                success,
                answers,
                before,
                taking,
                answer,
            );
            answers = answers.push(answer);
            lemma_expand_keeps_nodes(taken, next@);
            let ghost grown = taken.expand(next@);
            assert forall|step: Step| #[trigger]
                spec_offers(visit.index as int, next@).contains(step) implies offered_by(
                successors,
                grown.node(step.0),
                step.1,
                step.2,
            ) by {
                let m = choose|m: int|
                    0 <= m < next@.len() && step == (
                        visit.index as int,
                        (#[trigger] next@[m]).0.position,
                        next@[m].1 as int,
                    );
                assert(next@[m].0.position == step.1);
                assert(grown.node(step.0) == visit.node);
            }
            assert forall|step: Step| #[trigger]
                search.offered().contains(step) implies offered_by(
                successors,
                grown.node(step.0),
                step.1,
                step.2,
            ) by {
                assert(grown.node(step.0) == taken.node(step.0));
            }
            if let Heuristic::Euclid { goal } = heuristic {
                if open_ground(successors, success, goal) {
                    lemma_take_on_open_ground(before, start.position, goal, taking);
                    if visit.stale {
                        lemma_stale_expand(taken, start.position, goal, next@);
                    } else {
                        lemma_expand_on_open_ground(taken, start.position, goal, next@);
                    }
                }
            }
        }
        search.expand(next);
    }
    proof {
        lemma_run_gives_up(*start, successors, heuristic, success, budget, answers, search@);
    }
    None
}

} // verus!
