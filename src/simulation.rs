//! The greedy admission pass: applicants in queue order, each seated in the
//! first application, by priority, whose offering still has room. One pass,
//! no re-seating: a seat taken in a less preferred offering is kept even if a
//! preferred one would free up later.
use vstd::prelude::*;
use crate::popularity::{find_offering, lemma_offering_index, offering_index, Offering};
use crate::preferences::{ApplicantApplication, EagerApplicant};
use crate::text::canon;

verus! {

/// Admitted lists (one per offering, raw identifiers in order of admission)
/// and the canonical identifiers admitted so far.
pub type SeatState = (Seq<Seq<Seq<char>>>, Seq<Seq<char>>);

/// What one applicant's turn came to.
#[derive(Debug, Clone, Copy, PartialEq, Eq, Structural)]
pub enum Turn {
    /// Already holds a seat in this round.
    AlreadySeated,
    /// Seated in the offering at this place of the offerings.
    Seated(usize),
    /// No application could be taken.
    Unplaced,
}

/// Whether the applicant `k` may not take a seat in `program` in this
/// round: `prior` holds `(canonical id, program)` for each seat of an
/// earlier round. Everyone seated earlier is excluded, except `target` in
/// the very program that it was seated in.
pub open spec fn blocked(
    prior: Seq<(String, String)>,
    target: Seq<char>,
    k: Seq<char>,
    program: Seq<char>,
) -> bool {
    exists|t: int|
        0 <= t < prior.len() && (#[trigger] prior[t]).0@ == k && !(k == target && prior[t].1@
            == program)
}

/// Whether the offering that `app` names exists and has a free seat.
pub open spec fn has_room(offers: Seq<Offering>, lists: Seq<Seq<Seq<char>>>, app: ApplicantApplication) -> bool {
    match offering_index(offers, app.program_name@, app.funding_source@) {
        Some(o) => lists[o].len() < offers[o].available_places,
        None => false,
    }
}

/// The first application from `j` on that the applicant `k` may take.
pub open spec fn first_open(
    offers: Seq<Offering>,
    lists: Seq<Seq<Seq<char>>>,
    apps: Seq<ApplicantApplication>,
    prior: Seq<(String, String)>,
    target: Seq<char>,
    k: Seq<char>,
    j: int,
) -> Option<int>
    decreases apps.len() - j,
{
    if j < 0 || j >= apps.len() {
        None
    } else if !blocked(prior, target, k, apps[j].program_name@) && has_room(offers, lists, apps[j]) {
        Some(j)
    } else {
        first_open(offers, lists, apps, prior, target, k, j + 1)
    }
}

/// One applicant's turn.
pub open spec fn seat_step(
    offers: Seq<Offering>,
    st: SeatState,
    a: EagerApplicant,
    prior: Seq<(String, String)>,
    target: Seq<char>,
) -> SeatState {
    let k = a.snils@;
    let apps = a.applications@;
    if st.1.contains(k) {
        st
    } else {
        match first_open(offers, st.0, apps, prior, target, k, 0) {
            Some(j) => {
                let o = offering_index(offers, apps[j].program_name@, apps[j].funding_source@)->0;
                (st.0.update(o, st.0[o].push(apps[j].snils@)), st.1.push(k))
            },
            None => st,
        }
    }
}

/// What the turn of `a` comes to in the state `st`.
pub open spec fn turn_of(
    offers: Seq<Offering>,
    st: SeatState,
    a: EagerApplicant,
    prior: Seq<(String, String)>,
    target: Seq<char>,
) -> Turn {
    let apps = a.applications@;
    if st.1.contains(a.snils@) {
        Turn::AlreadySeated
    } else {
        match first_open(offers, st.0, apps, prior, target, a.snils@, 0) {
            Some(j) => Turn::Seated(
                offering_index(offers, apps[j].program_name@, apps[j].funding_source@)->0 as usize,
            ),
            None => Turn::Unplaced,
        }
    }
}

/// The state after every applicant of `queue` has had a turn, in order.
pub open spec fn seat_all(
    offers: Seq<Offering>,
    queue: Seq<EagerApplicant>,
    prior: Seq<(String, String)>,
    target: Seq<char>,
) -> SeatState
    decreases queue.len(),
{
    if queue.len() == 0 {
        (Seq::new(offers.len(), |i: int| Seq::<Seq<char>>::empty()), Seq::empty())
    } else {
        seat_step(offers, seat_all(offers, queue.drop_last(), prior, target), queue.last(), prior, target)
    }
}

/// Whether the seat of an earlier round excludes `k` from `program`.
pub fn is_blocked(prior: &Vec<(String, String)>, target: &String, k: &String, program: &String) -> (r:
    bool)
    ensures
        r == blocked(prior@, target@, k@, program@),
{
    let mut t: usize = 0;
    while t < prior.len()
        invariant
            t <= prior.len(),
            forall|u: int|
                0 <= u < t ==> !((#[trigger] prior@[u]).0@ == k@ && !(k@ == target@ && prior@[u].1@
                    == program@)),
        decreases prior.len() - t,
    {
        if prior[t].0 == *k && !(*k == *target && prior[t].1 == *program) {
            return true;
        }
        t = t + 1;
    }
    false
}

fn list_has(keys: &Vec<String>, k: &String) -> (r: bool)
    ensures
        r == keys.deep_view().contains(k@),
{
    let mut t: usize = 0;
    while t < keys.len()
        invariant
            t <= keys.len(),
            forall|u: int| 0 <= u < t ==> keys.deep_view()[u] != k@,
        decreases keys.len() - t,
    {
        if keys[t] == *k {
            assert(keys.deep_view()[t as int] == k@);
            return true;
        }
        t = t + 1;
    }
    false
}

proof fn lemma_first_open_none(
    offers: Seq<Offering>,
    lists: Seq<Seq<Seq<char>>>,
    apps: Seq<ApplicantApplication>,
    prior: Seq<(String, String)>,
    target: Seq<char>,
    k: Seq<char>,
    j: int,
)
    requires
        j >= apps.len(),
    ensures
        first_open(offers, lists, apps, prior, target, k, j) is None,
{
}

/// Runs the greedy pass. `offers` gives the seats of each offering, `queue`
/// the order of turns, `prior` the seats of an earlier round that exclude
/// (empty for a single round), `target` the canonical identifier that keeps
/// its program. The result holds one admitted list per offering.
pub fn simulate_admission(
    offers: &Vec<Offering>,
    queue: &Vec<EagerApplicant>,
    prior: &Vec<(String, String)>,
    target: &String,
) -> (r: Vec<Vec<String>>)
    ensures
        r.deep_view() == seat_all(offers@, queue@, prior@, target@).0,
{
    simulate_admission_traced(offers, queue, prior, target).0
}

/// The greedy pass as `simulate_admission` runs it, together with what each
/// applicant's turn came to, in queue order: a record of every decision for
/// whoever wants to follow one applicant through the pass.
pub fn simulate_admission_traced(
    offers: &Vec<Offering>,
    queue: &Vec<EagerApplicant>,
    prior: &Vec<(String, String)>,
    target: &String,
) -> (r: (Vec<Vec<String>>, Vec<Turn>))
    ensures
        r.0.deep_view() == seat_all(offers@, queue@, prior@, target@).0,
        r.1@.len() == queue@.len(),
        forall|i: int|
            0 <= i < queue@.len() ==> #[trigger] r.1@[i] == turn_of(
                offers@,
                seat_all(offers@, queue@.take(i), prior@, target@),
                queue@[i],
                prior@,
                target@,
            ),
{
    let mut lists: Vec<Vec<String>> = Vec::new();
    let mut o: usize = 0;
    while o < offers.len()
        invariant
            o <= offers.len(),
            lists@.len() == o,
            forall|x: int| 0 <= x < o ==> (#[trigger] lists@[x])@.len() == 0,
        decreases offers.len() - o,
    {
        lists.push(Vec::new());
        o = o + 1;
    }
    proof {
        assert forall|x: int| 0 <= x < lists@.len() implies #[trigger] lists.deep_view()[x]
            == Seq::<Seq<char>>::empty() by {
            assert(lists.deep_view()[x].len() == lists@[x]@.len());
            assert(lists.deep_view()[x] =~= Seq::<Seq<char>>::empty());
        }
        assert(lists.deep_view() =~= Seq::new(offers@.len(), |i: int| Seq::<Seq<char>>::empty()));
    }
    let mut admitted: Vec<String> = Vec::new();
    let mut turns: Vec<Turn> = Vec::new();
    let mut i: usize = 0;
    assert(queue@.take(0) =~= Seq::<EagerApplicant>::empty());
    while i < queue.len()
        invariant
            i <= queue.len(),
            (lists.deep_view(), admitted.deep_view()) == seat_all(
                offers@,
                queue@.take(i as int),
                prior@,
                target@,
            ),
            lists.deep_view().len() == offers@.len(),
            turns@.len() == i,
            forall|x: int|
                0 <= x < i ==> #[trigger] turns@[x] == turn_of(
                    offers@,
                    seat_all(offers@, queue@.take(x), prior@, target@),
                    queue@[x],
                    prior@,
                    target@,
                ),
        decreases queue.len() - i,
    {
        let a = &queue[i];
        assert(queue@.take(i + 1).drop_last() == queue@.take(i as int));
        assert(queue@.take(i + 1).last() == queue@[i as int]);
        if list_has(&admitted, &a.snils) {
            turns.push(Turn::AlreadySeated);
        } else {
            let apps = &a.applications;
            let mut j: usize = 0;
            let mut chosen: Option<(usize, usize)> = None;
            while j < apps.len() && chosen.is_none()
                invariant
                    apps@ == a.applications@,
                    lists.deep_view().len() == offers@.len(),
                    j <= apps.len(),
                    chosen.is_none() ==> first_open(
                        offers@,
                        lists.deep_view(),
                        apps@,
                        prior@,
                        target@,
                        a.snils@,
                        0,
                    ) == first_open(offers@, lists.deep_view(), apps@, prior@, target@, a.snils@, j as int),
                    chosen.is_some() ==> {
                        let (jj, oo) = chosen.unwrap();
                        &&& first_open(offers@, lists.deep_view(), apps@, prior@, target@, a.snils@, 0)
                            == Some(jj as int)
                        &&& offering_index(offers@, apps@[jj as int].program_name@, apps@[jj as int].funding_source@)
                            == Some(oo as int)
                        &&& jj < apps.len()
                        &&& oo < offers.len()
                    },
                decreases apps.len() - j,
            {
                let app = &apps[j];
                if !is_blocked(prior, target, &a.snils, &app.program_name) {
                    match find_offering(offers, &app.program_name, &app.funding_source) {
                        Some(t) => {
                            proof {
                                lemma_offering_index(
                                    offers@,
                                    app.program_name@,
                                    app.funding_source@,
                                    t as int,
                                );
                            }
                            if lists[t].len() < offers[t].available_places as usize {
                                chosen = Some((j, t));
                            }
                        },
                        None => {
                            assert(!exists|t: int|
                                crate::popularity::first_offering_at(
                                    offers@,
                                    app.program_name@,
                                    app.funding_source@,
                                    t,
                                ));
                        },
                    }
                }
                j = j + 1;
            }
            match chosen {
                Some((jj, oo)) => {
                    turns.push(Turn::Seated(oo));
                    let ghost old_lists = lists.deep_view();
                    let ghost old_admitted = admitted.deep_view();
                    let ghost old_admitted_raw = admitted@;
                    let mut l = lists.remove(oo);
                    let ghost removed = l@;
                    l.push(apps[jj].snils.clone());
                    lists.insert(oo, l);
                    admitted.push(a.snils.clone());
                    proof {
                        assert forall|x: int| 0 <= x < old_lists.len() implies lists.deep_view()[x]
                            == old_lists.update(oo as int, old_lists[oo as int].push(apps@[jj as int].snils@))[x] by {
                            if x == oo as int {
                                assert(lists@[x]@ == removed.push(apps@[jj as int].snils));
                                assert(lists.deep_view()[x] =~= old_lists[x].push(apps@[jj as int].snils@));
                            }
                        }
                        assert(lists.deep_view() =~= old_lists.update(
                            oo as int,
                            old_lists[oo as int].push(apps@[jj as int].snils@),
                        ));
                        assert forall|x: int| 0 <= x < admitted.len() implies admitted.deep_view()[x]
                            == old_admitted.push(a.snils@)[x] by {
                            if x < admitted.len() - 1 {
                                assert(admitted@[x] == old_admitted_raw[x]);
                            }
                        }
                        assert(admitted.deep_view() =~= old_admitted.push(a.snils@));
                    }
                },
                None => {
                    turns.push(Turn::Unplaced);
                    proof {
                        lemma_first_open_none(
                            offers@,
                            lists.deep_view(),
                            apps@,
                            prior@,
                            target@,
                            a.snils@,
                            j as int,
                        );
                    }
                },
            }
        }
        i = i + 1;
    }
    assert(queue@.take(queue.len() as int) == queue@);
    (lists, turns)
}

/// Whether every application of every applicant in `queue` carries an
/// identifier whose canonical form is the applicant's own.
pub open spec fn queue_consistent(queue: Seq<EagerApplicant>) -> bool {
    forall|a: int, j: int|
        0 <= a < queue.len() && 0 <= j < queue[a].applications@.len() ==> canon(
            (#[trigger] queue[a].applications@[j]).snils@,
        ) == queue[a].snils@
}

/// Whether no canonical identifier stands in two places of the lists.
pub open spec fn seats_distinct(lists: Seq<Seq<Seq<char>>>) -> bool {
    forall|o1: int, i1: int, o2: int, i2: int|
        0 <= o1 < lists.len() && 0 <= i1 < lists[o1].len() && 0 <= o2 < lists.len() && 0 <= i2
            < lists[o2].len() && (o1 != o2 || i1 != i2) ==> canon(#[trigger] lists[o1][i1]) != canon(
            #[trigger] lists[o2][i2],
        )
}

/// Whether every seat's canonical identifier is among those admitted.
pub open spec fn seats_recorded(st: SeatState) -> bool {
    forall|o: int, i: int|
        0 <= o < st.0.len() && 0 <= i < st.0[o].len() ==> st.1.contains(canon(#[trigger] st.0[o][i]))
}

proof fn lemma_first_open_some(
    offers: Seq<Offering>,
    lists: Seq<Seq<Seq<char>>>,
    apps: Seq<ApplicantApplication>,
    prior: Seq<(String, String)>,
    target: Seq<char>,
    k: Seq<char>,
    j: int,
)
    requires
        j >= 0,
        first_open(offers, lists, apps, prior, target, k, j) is Some,
    ensures
        ({
            let f = first_open(offers, lists, apps, prior, target, k, j)->0;
            &&& j <= f < apps.len()
            &&& !blocked(prior, target, k, apps[f].program_name@)
            &&& has_room(offers, lists, apps[f])
        }),
    decreases apps.len() - j,
{
    if j < apps.len() && !(!blocked(prior, target, k, apps[j].program_name@) && has_room(
        offers,
        lists,
        apps[j],
    )) {
        lemma_first_open_some(offers, lists, apps, prior, target, k, j + 1);
    }
}

proof fn lemma_offering_index_range(offers: Seq<Offering>, name: Seq<char>, funding: Seq<char>)
    requires
        offering_index(offers, name, funding) is Some,
    ensures
        0 <= offering_index(offers, name, funding)->0 < offers.len(),
{
    let c = choose|c: int| crate::popularity::first_offering_at(offers, name, funding, c);
    assert(crate::popularity::first_offering_at(offers, name, funding, c));
}

/// No admitted list holds more applicants than its offering has seats.
pub proof fn lemma_capacity_respected(
    offers: Seq<Offering>,
    queue: Seq<EagerApplicant>,
    prior: Seq<(String, String)>,
    target: Seq<char>,
)
    ensures
        seat_all(offers, queue, prior, target).0.len() == offers.len(),
        forall|o: int|
            0 <= o < offers.len() ==> #[trigger] seat_all(offers, queue, prior, target).0[o].len()
                <= offers[o].available_places,
    decreases queue.len(),
{
    if queue.len() > 0 {
        let st = seat_all(offers, queue.drop_last(), prior, target);
        lemma_capacity_respected(offers, queue.drop_last(), prior, target);
        let a = queue.last();
        let apps = a.applications@;
        if !st.1.contains(a.snils@) {
            let f = first_open(offers, st.0, apps, prior, target, a.snils@, 0);
            if f is Some {
                lemma_first_open_some(offers, st.0, apps, prior, target, a.snils@, 0);
                let j = f->0;
                lemma_offering_index_range(offers, apps[j].program_name@, apps[j].funding_source@);
            }
        }
    }
}

/// In one round, no canonical identifier is admitted twice, whether to two
/// offerings or twice to one.
pub proof fn lemma_single_assignment(
    offers: Seq<Offering>,
    queue: Seq<EagerApplicant>,
    prior: Seq<(String, String)>,
    target: Seq<char>,
)
    requires
        queue_consistent(queue),
    ensures
        seats_distinct(seat_all(offers, queue, prior, target).0),
        seats_recorded(seat_all(offers, queue, prior, target)),
    decreases queue.len(),
{
    lemma_capacity_respected(offers, queue, prior, target);
    if queue.len() > 0 {
        let d = queue.drop_last();
        assert forall|a: int, j: int| 0 <= a < d.len() && 0 <= j < d[a].applications@.len() implies canon(
            (#[trigger] d[a].applications@[j]).snils@,
        ) == d[a].snils@ by {
            assert(d[a] == queue[a]);
        }
        lemma_single_assignment(offers, d, prior, target);
        lemma_capacity_respected(offers, d, prior, target);
        let st = seat_all(offers, d, prior, target);
        let a = queue.last();
        let k = a.snils@;
        let apps = a.applications@;
        if !st.1.contains(k) {
            let f = first_open(offers, st.0, apps, prior, target, k, 0);
            if f is Some {
                lemma_first_open_some(offers, st.0, apps, prior, target, k, 0);
                let j = f->0;
                lemma_offering_index_range(offers, apps[j].program_name@, apps[j].funding_source@);
                let o = offering_index(offers, apps[j].program_name@, apps[j].funding_source@)->0;
                let s = apps[j].snils@;
                assert(canon(s) == k) by {
                    assert(queue[queue.len() - 1] == a);
                    assert(canon(queue[queue.len() - 1].applications@[j].snils@) == queue[queue.len()
                        - 1].snils@);
                }
                let nl = st.0.update(o, st.0[o].push(s));
                let na = st.1.push(k);
                assert forall|x: int, y: int| 0 <= x < nl.len() && 0 <= y < nl[x].len() implies na.contains(
                    canon(#[trigger] nl[x][y]),
                ) by {
                    if x == o && y == st.0[o].len() {
                        assert(na[st.1.len() as int] == k);
                    } else {
                        assert(nl[x][y] == st.0[x][y]);
                        assert(st.1.contains(canon(st.0[x][y])));
                        let w = choose|w: int| 0 <= w < st.1.len() && st.1[w] == canon(st.0[x][y]);
                        assert(na[w] == st.1[w]);
                    }
                }
                assert forall|o1: int, i1: int, o2: int, i2: int|
                    0 <= o1 < nl.len() && 0 <= i1 < nl[o1].len() && 0 <= o2 < nl.len() && 0 <= i2
                        < nl[o2].len() && (o1 != o2 || i1 != i2) implies canon(#[trigger] nl[o1][i1])
                    != canon(#[trigger] nl[o2][i2]) by {
                    let new1 = o1 == o && i1 == st.0[o].len();
                    let new2 = o2 == o && i2 == st.0[o].len();
                    if new1 && !new2 {
                        assert(nl[o2][i2] == st.0[o2][i2]);
                        assert(st.1.contains(canon(st.0[o2][i2])));
                    } else if new2 && !new1 {
                        assert(nl[o1][i1] == st.0[o1][i1]);
                        assert(st.1.contains(canon(st.0[o1][i1])));
                    } else if !new1 && !new2 {
                        assert(nl[o1][i1] == st.0[o1][i1]);
                        assert(nl[o2][i2] == st.0[o2][i2]);
                    }
                }
            }
        }
    }
}

} // verus!
