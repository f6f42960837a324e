//! Alternative admission policies built from the same parts.
use vstd::prelude::*;
use crate::analyzer::{lemma_queue_consistent, results_are, OfferingResult};
use crate::dedup::{by_rank, sort_records_by_rank};
use crate::models::{eager, key_of, StudentRecord};
use crate::order::sort_by;
use crate::popularity::{
    collect_offerings, flat, flatten_records, make_offering_key, offering_key, offerings_of, Offering,
};
use crate::preferences::{applicants_of, by_seating, prepare_eager_applicants, sort_for_seating, EagerApplicant};
use crate::simulation::{
    blocked, lemma_capacity_respected, lemma_single_assignment, seat_all, seats_distinct,
    simulate_admission,
};
use crate::text::{canon, normalize_snils};

verus! {

/// The records of one funding source, in order.
pub open spec fn with_funding(records: Seq<StudentRecord>, funding: Seq<char>) -> Seq<StudentRecord>
    decreases records.len(),
{
    if records.len() == 0 {
        records
    } else if records.last().funding_source@ == funding {
        with_funding(records.drop_last(), funding).push(records.last())
    } else {
        with_funding(records.drop_last(), funding)
    }
}

/// Admitted identifiers so far and the canonical identifiers excluded.
pub type ListState = (Seq<Seq<char>>, Seq<Seq<char>>);

/// Seats taken, in the order of `recs`, by the records that are eager (or,
/// for a filling pass, not eager) and not excluded, while seats remain.
pub open spec fn take_seats(recs: Seq<StudentRecord>, cap: nat, st: ListState, want_eager: bool) -> ListState
    decreases recs.len(),
{
    if recs.len() == 0 {
        st
    } else {
        let prev = take_seats(recs.drop_last(), cap, st, want_eager);
        let r = recs.last();
        if eager(r) == want_eager && prev.0.len() < cap && !prev.1.contains(key_of(r)) {
            (prev.0.push(r.snils@), prev.1.push(key_of(r)))
        } else {
            prev
        }
    }
}

/// The seats of one funding source: its records in order of rank.
pub open spec fn funding_records(records: Seq<StudentRecord>, funding: Seq<char>) -> Seq<StudentRecord> {
    sort_by(with_funding(records, funding), by_rank())
}

/// The seats of one funding source: those of its first record in order of
/// rank, none where it has no record.
pub open spec fn funding_capacity(records: Seq<StudentRecord>, funding: Seq<char>) -> nat {
    let recs = funding_records(records, funding);
    if recs.len() > 0 {
        recs[0].available_places as nat
    } else {
        0
    }
}

/// One funding source's pass: eager records by rank, then the remaining
/// seats filled from the other records by rank, skipping `excluded`.
pub open spec fn funding_pass(records: Seq<StudentRecord>, funding: Seq<char>, excluded: Seq<Seq<char>>) -> ListState {
    let recs = funding_records(records, funding);
    let cap = funding_capacity(records, funding);
    take_seats(recs, cap, take_seats(recs, cap, (Seq::empty(), excluded), true), false)
}

/// The passes over the first `n` funding sources of `fundings`, each
/// excluding those admitted by the earlier ones.
pub open spec fn funding_priority(records: Seq<StudentRecord>, fundings: Seq<Seq<char>>, n: int) -> (
    Seq<Seq<Seq<char>>>,
    Seq<Seq<char>>,
)
    decreases n,
{
    if n <= 0 {
        (Seq::empty(), Seq::empty())
    } else {
        let prev = funding_priority(records, fundings, n - 1);
        let pass = funding_pass(records, fundings[n - 1], prev.1);
        (prev.0.push(pass.0), pass.1)
    }
}

fn keys_contain(keys: &Vec<String>, k: &String) -> (r: bool)
    ensures
        r == keys.deep_view().contains(k@),
{
    let mut t: usize = 0;
    while t < keys.len()
        invariant
            t <= keys.len(),
            forall|u: int| 0 <= u < t ==> keys.deep_view()[u] != k@,
        decreases keys.len() - t,
    {
        if keys[t] == *k {
            assert(keys.deep_view()[t as int] == k@);
            return true;
        }
        t = t + 1;
    }
    false
}

fn push_key(keys: &mut Vec<String>, k: String)
    ensures
        final(keys).deep_view() == old(keys).deep_view().push(k@),
{
    let ghost old_keys = keys@;
    let ghost old_view = keys.deep_view();
    keys.push(k);
    proof {
        assert forall|j: int| 0 <= j < keys.len() implies keys.deep_view()[j] == old_view.push(k@)[j] by {
            if j < keys.len() - 1 {
                assert(keys@[j] == old_keys[j]);
            }
        }
        assert(keys.deep_view() =~= old_view.push(k@));
    }
}

/// The records of one funding source, in order.
pub fn records_with_funding(records: &Vec<StudentRecord>, funding: &String) -> (r: Vec<StudentRecord>)
    ensures
        r@ == with_funding(records@, funding@),
{
    let mut out: Vec<StudentRecord> = Vec::new();
    let mut i: usize = 0;
    while i < records.len()
        invariant
            i <= records.len(),
            out@ == with_funding(records@.take(i as int), funding@),
        decreases records.len() - i,
    {
        assert(records@.take(i + 1).drop_last() == records@.take(i as int));
        if records[i].funding_source == *funding {
            out.push(records[i].duplicate());
        }
        i = i + 1;
    }
    assert(records@.take(records.len() as int) == records@);
    out
}

/// Takes seats for the records of `recs` as `take_seats` says.
fn fill_seats(
    recs: &Vec<StudentRecord>,
    cap: u32,
    admitted: &mut Vec<String>,
    excluded: &mut Vec<String>,
    want_eager: bool,
)
    ensures
        (final(admitted).deep_view(), final(excluded).deep_view()) == take_seats(
            recs@,
            cap as nat,
            (old(admitted).deep_view(), old(excluded).deep_view()),
            want_eager,
        ),
{
    let ghost start = (admitted.deep_view(), excluded.deep_view());
    let mut i: usize = 0;
    while i < recs.len()
        invariant
            i <= recs.len(),
            start == (old(admitted).deep_view(), old(excluded).deep_view()),
            (admitted.deep_view(), excluded.deep_view()) == take_seats(
                recs@.take(i as int),
                cap as nat,
                start,
                want_eager,
            ),
        decreases recs.len() - i,
    {
        let r = &recs[i];
        assert(recs@.take(i + 1).drop_last() == recs@.take(i as int));
        if r.is_eager() == want_eager && admitted.len() < cap as usize {
            let k = r.get_normalized_snils();
            if !keys_contain(excluded, &k) {
                push_key(admitted, r.snils.clone());
                push_key(excluded, k);
            }
        }
        i = i + 1;
    }
    assert(recs@.take(recs.len() as int) == recs@);
}

/// The funding-priority policy on one program's records: for each funding
/// source in `funding_order`, its eager records take its seats by rank and
/// the other records fill what is left; anyone admitted in an earlier pass
/// of this program is skipped. One admitted list per funding source.
pub fn simulate_funding_priority(records: &Vec<StudentRecord>, funding_order: &Vec<String>) -> (r: Vec<
    Vec<String>,
>)
    ensures
        r.deep_view() == funding_priority(
            records@,
            funding_order.deep_view(),
            funding_order.len() as int,
        ).0,
{
    let mut lists: Vec<Vec<String>> = Vec::new();
    let mut excluded: Vec<String> = Vec::new();
    let mut f: usize = 0;
    while f < funding_order.len()
        invariant
            f <= funding_order.len(),
            (lists.deep_view(), excluded.deep_view()) == funding_priority(
                records@,
                funding_order.deep_view(),
                f as int,
            ),
        decreases funding_order.len() - f,
    {
        assert(funding_order.deep_view()[f as int] == funding_order@[f as int]@);
        let recs = sort_records_by_rank(records_with_funding(records, &funding_order[f]));
        let cap: u32 = if recs.len() > 0 {
            recs[0].available_places
        } else {
            0
        };
        let mut admitted: Vec<String> = Vec::new();
        assert(admitted.deep_view() =~= Seq::<Seq<char>>::empty());
        fill_seats(&recs, cap, &mut admitted, &mut excluded, true);
        fill_seats(&recs, cap, &mut admitted, &mut excluded, false);
        let ghost before = lists.deep_view();
        let ghost before_raw = lists@;
        let ghost pass = admitted.deep_view();
        lists.push(admitted);
        proof {
            assert forall|j: int| 0 <= j < lists.len() implies lists.deep_view()[j] == before.push(
                pass,
            )[j] by {
                if j < lists.len() - 1 {
                    assert(lists@[j] == before_raw[j]);
                }
            }
            assert(lists.deep_view() =~= before.push(pass));
        }
        f = f + 1;
    }
    lists
}

proof fn lemma_take_seats_bound(recs: Seq<StudentRecord>, cap: nat, st: ListState, want_eager: bool)
    requires
        st.0.len() <= cap,
    ensures
        take_seats(recs, cap, st, want_eager).0.len() <= cap,
    decreases recs.len(),
{
    if recs.len() > 0 {
        lemma_take_seats_bound(recs.drop_last(), cap, st, want_eager);
    }
}

/// Under the funding-priority policy, no funding source admits more
/// applicants than it has seats.
pub proof fn lemma_funding_priority_capacity(records: Seq<StudentRecord>, fundings: Seq<Seq<char>>, n: int)
    requires
        0 <= n <= fundings.len(),
    ensures
        funding_priority(records, fundings, n).0.len() == n,
        forall|f: int|
            0 <= f < n ==> (#[trigger] funding_priority(records, fundings, n).0[f]).len()
                <= funding_capacity(records, fundings[f]),
    decreases n,
{
    if n > 0 {
        lemma_funding_priority_capacity(records, fundings, n - 1);
        let prev = funding_priority(records, fundings, n - 1);
        let recs = funding_records(records, fundings[n - 1]);
        let cap = funding_capacity(records, fundings[n - 1]);
        let st: ListState = (Seq::empty(), prev.1);
        lemma_take_seats_bound(recs, cap, st, true);
        lemma_take_seats_bound(recs, cap, take_seats(recs, cap, st, true), false);
    }
}

/// The entries of one funding source, in order.
pub open spec fn entries_with_funding(entries: Seq<(String, StudentRecord)>, funding: Seq<char>) -> Seq<
    (String, StudentRecord),
>
    decreases entries.len(),
{
    if entries.len() == 0 {
        entries
    } else if entries.last().1.funding_source@ == funding {
        entries_with_funding(entries.drop_last(), funding).push(entries.last())
    } else {
        entries_with_funding(entries.drop_last(), funding)
    }
}

/// Whether `lists` are the admitted lists of one pass over `entries`, with
/// the exclusions of `prior`.
pub open spec fn round_lists(
    lists: Seq<Seq<Seq<char>>>,
    entries: Seq<(String, StudentRecord)>,
    prior: Seq<(String, String)>,
    target: Seq<char>,
) -> bool {
    exists|q: Seq<EagerApplicant>|
        applicants_of(q, entries) && lists == seat_all(
            offerings_of(entries),
            sort_by(q, by_seating()),
            prior,
            target,
        ).0
}

/// The seats of the first `n` offerings: canonical identifier and program.
pub open spec fn seats_of(offers: Seq<Offering>, lists: Seq<Seq<Seq<char>>>, n: int) -> Seq<
    (Seq<char>, Seq<char>),
>
    decreases n,
{
    if n <= 0 {
        Seq::empty()
    } else {
        seats_of(offers, lists, n - 1) + lists[n - 1].map_values(
            |s: Seq<char>| (canon(s), offers[n - 1].program_name@),
        )
    }
}

/// The view of a seat: canonical identifier and program.
pub open spec fn seat_view(p: (String, String)) -> (Seq<char>, Seq<char>) {
    (p.0@, p.1@)
}

/// The views of a list of seats.
pub open spec fn seats_view(s: Seq<(String, String)>) -> Seq<(Seq<char>, Seq<char>)> {
    s.map_values(|p: (String, String)| seat_view(p))
}

/// The two rounds of the carry-over policy.
#[derive(Debug, Clone)]
pub struct CarryOverResult {
    pub first_round: Vec<OfferingResult>,
    pub second_round: Vec<OfferingResult>,
}

/// The entries of one funding source, in order.
pub fn entries_of_funding(entries: &Vec<(String, StudentRecord)>, funding: &String) -> (r: Vec<
    (String, StudentRecord),
>)
    ensures
        r@ == entries_with_funding(entries@, funding@),
{
    let mut out: Vec<(String, StudentRecord)> = Vec::new();
    let mut i: usize = 0;
    while i < entries.len()
        invariant
            i <= entries.len(),
            out@ == entries_with_funding(entries@.take(i as int), funding@),
        decreases entries.len() - i,
    {
        assert(entries@.take(i + 1).drop_last() == entries@.take(i as int));
        if entries[i].1.funding_source == *funding {
            out.push((entries[i].0.clone(), entries[i].1.duplicate()));
        }
        i = i + 1;
    }
    assert(entries@.take(entries.len() as int) == entries@);
    out
}

fn copy_list(v: &Vec<String>) -> (r: Vec<String>)
    ensures
        r@ == v@,
{
    let mut out: Vec<String> = Vec::new();
    let mut i: usize = 0;
    while i < v.len()
        invariant
            i <= v.len(),
            out@ == v@.take(i as int),
        decreases v.len() - i,
    {
        out.push(v[i].clone());
        assert(out@ =~= v@.take(i + 1));
        i = i + 1;
    }
    assert(v@.take(v.len() as int) == v@);
    out
}

/// One admission pass over `entries` with the exclusions of `prior`.
pub fn run_round(entries: &Vec<(String, StudentRecord)>, prior: &Vec<(String, String)>, target: &String) -> (r:
    Vec<OfferingResult>)
    ensures
        exists|lists: Seq<Seq<Seq<char>>>|
            round_lists(lists, entries@, prior@, target@) && results_are(
                r@,
                offerings_of(entries@),
                lists,
            ),
{
    let offers = collect_offerings(entries);
    let applicants = prepare_eager_applicants(entries);
    let queue = sort_for_seating(applicants);
    let lists = simulate_admission(&offers, &queue, prior, target);
    let ghost lv = lists.deep_view();
    proof {
        lemma_capacity_respected(offers@, queue@, prior@, target@);
        assert(round_lists(lv, entries@, prior@, target@));
    }
    let mut results: Vec<OfferingResult> = Vec::new();
    let mut t: usize = 0;
    while t < offers.len()
        invariant
            offers@ == offerings_of(entries@),
            lv == lists.deep_view(),
            lv.len() == offers@.len(),
            t <= offers.len(),
            results@.len() == t,
            forall|x: int|
                0 <= x < t ==> {
                    &&& (#[trigger] results@[x]).program_name@ == offers@[x].program_name@
                    &&& results@[x].funding_source@ == offers@[x].funding_source@
                    &&& results@[x].program_key@ == offering_key(
                        offers@[x].program_name@,
                        offers@[x].funding_source@,
                    )
                    &&& results@[x].available_places == offers@[x].available_places
                    &&& results@[x].admitted.deep_view() == lv[x]
                },
        decreases offers.len() - t,
    {
        let o = &offers[t];
        let admitted = copy_list(&lists[t]);
        assert(admitted.deep_view() =~= lv[t as int]);
        results.push(
            OfferingResult {
                program_name: o.program_name.clone(),
                funding_source: o.funding_source.clone(),
                program_key: make_offering_key(o.program_name.as_str(), o.funding_source.as_str()),
                available_places: o.available_places,
                admitted,
            },
        );
        t = t + 1;
    }
    assert(results_are(results@, offerings_of(entries@), lv));
    assert(round_lists(lv, entries@, prior@, target@) && results_are(
        results@,
        offerings_of(entries@),
        lv,
    ));
    results
}

/// The seats of a round: canonical identifier and program of each.
pub fn seats_taken(results: &Vec<OfferingResult>) -> (r: Vec<(String, String)>)
    ensures
        forall|offers: Seq<Offering>, lists: Seq<Seq<Seq<char>>>|
            results_are(results@, offers, lists) ==> seats_view(r@)
                == seats_of(offers, lists, offers.len() as int),
{
    let mut out: Vec<(String, String)> = Vec::new();
    let mut t: usize = 0;
    while t < results.len()
        invariant
            t <= results.len(),
            forall|offers: Seq<Offering>, lists: Seq<Seq<Seq<char>>>|
                results_are(results@, offers, lists) ==> seats_view(out@) == seats_of(offers, lists, t as int),
        decreases results.len() - t,
    {
        let res = &results[t];
        let ghost base = out@;
        let mut j: usize = 0;
        while j < res.admitted.len()
            invariant
                t < results.len(),
                res == results@[t as int],
                j <= res.admitted.len(),
                out@.len() == base.len() + j,
                forall|x: int| 0 <= x < base.len() ==> #[trigger] out@[x] == base[x],
                forall|x: int|
                    0 <= x < j ==> seat_view(#[trigger] out@[base.len() + x]) == (
                        canon(res.admitted@[x]@),
                        res.program_name@,
                    ),
            decreases res.admitted.len() - j,
        {
            let k = normalize_snils(res.admitted[j].as_str());
            out.push((k, res.program_name.clone()));
            j = j + 1;
        }
        proof {
            assert forall|offers: Seq<Offering>, lists: Seq<Seq<Seq<char>>>|
                results_are(results@, offers, lists) implies seats_view(out@) == seats_of(offers, lists, t + 1) by {
                let prev = seats_of(offers, lists, t as int);
                assert(seats_view(base) == prev);
                assert(lists[t as int] == res.admitted.deep_view());
                let add = lists[t as int].map_values(
                    |s: Seq<char>| (canon(s), offers[t as int].program_name@),
                );
                assert forall|x: int| 0 <= x < out@.len() implies seats_view(out@)[x] == (prev + add)[x] by {
                    if x >= base.len() {
                        let y = x - base.len();
                        assert(res.admitted.deep_view()[y] == res.admitted@[y]@);
                        assert(seat_view(out@[base.len() + y]) == (
                            canon(res.admitted@[y]@),
                            res.program_name@,
                        ));
                    } else {
                        assert(out@[x] == base[x]);
                    }
                }
                assert(seats_view(out@) =~= prev + add);
            }
        }
        t = t + 1;
    }
    out
}

/// The funding-filter policy with carry-over: a first round over the
/// records of `first_funding`; then a second round over those of
/// `second_funding`, from which everyone seated in the first round is
/// excluded, except the target in the very program that it was seated in.
pub fn simulate_with_carry_over(
    all_program_records: &Vec<(String, Vec<StudentRecord>)>,
    first_funding: &String,
    second_funding: &String,
    target_snils: &str,
) -> (r: CarryOverResult)
    ensures
        exists|l1: Seq<Seq<Seq<char>>>, l2: Seq<Seq<Seq<char>>>, prior: Seq<(String, String)>|
            {
                &&& #[trigger] round_lists(
                    l1,
                    entries_with_funding(flat(all_program_records@), first_funding@),
                    Seq::empty(),
                    canon(target_snils@),
                )
                &&& results_are(
                    r.first_round@,
                    offerings_of(entries_with_funding(flat(all_program_records@), first_funding@)),
                    l1,
                )
                &&& seats_view(prior) == seats_of(
                    offerings_of(entries_with_funding(flat(all_program_records@), first_funding@)),
                    l1,
                    offerings_of(
                        entries_with_funding(flat(all_program_records@), first_funding@),
                    ).len() as int,
                )
                &&& #[trigger] round_lists(
                    l2,
                    entries_with_funding(flat(all_program_records@), second_funding@),
                    prior,
                    canon(target_snils@),
                )
                &&& results_are(
                    r.second_round@,
                    offerings_of(entries_with_funding(flat(all_program_records@), second_funding@)),
                    l2,
                )
            },
{
    let entries = flatten_records(all_program_records);
    let target = normalize_snils(target_snils);
    let first_entries = entries_of_funding(&entries, first_funding);
    let none: Vec<(String, String)> = Vec::new();
    let first_round = run_round(&first_entries, &none, &target);
    let prior = seats_taken(&first_round);
    let second_entries = entries_of_funding(&entries, second_funding);
    let second_round = run_round(&second_entries, &prior, &target);
    proof {
        assert(none@ == Seq::<(String, String)>::empty());
    }
    CarryOverResult { first_round, second_round }
}

/// What the carry-over policy does to the target: seated in the first round
/// in `program` (and, as a round seats no one twice, nowhere else), it may
/// still take a seat of the same program in the second round, and none of
/// any other program; anyone else seated in the first round takes no seat.
pub proof fn lemma_carry_over_exclusion(
    prior: Seq<(String, String)>,
    target: Seq<char>,
    program: Seq<char>,
)
    requires
        exists|t: int| 0 <= t < prior.len() && (#[trigger] prior[t]).0@ == target && prior[t].1@ == program,
        forall|t: int| 0 <= t < prior.len() && (#[trigger] prior[t]).0@ == target ==> prior[t].1@ == program,
    ensures
        !blocked(prior, target, target, program),
        forall|other: Seq<char>| other != program ==> #[trigger] blocked(prior, target, target, other),
        forall|k: Seq<char>, any: Seq<char>|
            k != target && (exists|t: int| 0 <= t < prior.len() && (#[trigger] prior[t]).0@ == k)
                ==> #[trigger] blocked(prior, target, k, any),
{
    let w = choose|t: int| 0 <= t < prior.len() && (#[trigger] prior[t]).0@ == target && prior[t].1@ == program;
    assert forall|other: Seq<char>| other != program implies #[trigger] blocked(prior, target, target, other) by {
        assert(prior[w].0@ == target && !(target == target && prior[w].1@ == other));
    }
    assert forall|k: Seq<char>, any: Seq<char>|
        k != target && (exists|t: int| 0 <= t < prior.len() && (#[trigger] prior[t]).0@ == k) implies #[trigger] blocked(
        prior,
        target,
        k,
        any,
    ) by {
        let v = choose|t: int| 0 <= t < prior.len() && (#[trigger] prior[t]).0@ == k;
        assert(prior[v].0@ == k && !(k == target && prior[v].1@ == any));
    }
}

proof fn lemma_seats_of_entry(offers: Seq<Offering>, lists: Seq<Seq<Seq<char>>>, n: int, t: int)
    requires
        0 <= n <= lists.len(),
        n <= offers.len(),
        0 <= t < seats_of(offers, lists, n).len(),
    ensures
        exists|o: int, i: int|
            0 <= o < n && 0 <= i < lists[o].len() && seats_of(offers, lists, n)[t] == (
                canon(#[trigger] lists[o][i]),
                offers[o].program_name@,
            ),
    decreases n,
{
    let prev = seats_of(offers, lists, n - 1);
    if t < prev.len() {
        lemma_seats_of_entry(offers, lists, n - 1, t);
        let (o, i) = choose|o: int, i: int|
            0 <= o < n - 1 && 0 <= i < lists[o].len() && prev[t] == (
                canon(#[trigger] lists[o][i]),
                offers[o].program_name@,
            );
        assert(seats_of(offers, lists, n)[t] == prev[t]);
        assert(seats_of(offers, lists, n)[t] == (canon(lists[o][i]), offers[o].program_name@));
    } else {
        let i = t - prev.len();
        assert(seats_of(offers, lists, n)[t] == (canon(lists[n - 1][i]), offers[n - 1].program_name@));
    }
}

proof fn lemma_seats_of_has(offers: Seq<Offering>, lists: Seq<Seq<Seq<char>>>, n: int, o: int, i: int)
    requires
        0 <= o < n <= lists.len(),
        n <= offers.len(),
        0 <= i < lists[o].len(),
    ensures
        exists|t: int|
            0 <= t < seats_of(offers, lists, n).len() && #[trigger] seats_of(offers, lists, n)[t] == (
                canon(lists[o][i]),
                offers[o].program_name@,
            ),
    decreases n,
{
    let prev = seats_of(offers, lists, n - 1);
    if o < n - 1 {
        lemma_seats_of_has(offers, lists, n - 1, o, i);
        let t = choose|t: int|
            0 <= t < prev.len() && #[trigger] prev[t] == (canon(lists[o][i]), offers[o].program_name@);
        assert(seats_of(offers, lists, n)[t] == prev[t]);
    } else {
        let t = prev.len() + i;
        assert(seats_of(offers, lists, n)[t] == (canon(lists[o][i]), offers[o].program_name@));
    }
}

/// The carry-over policy keeps the target in its program: if the first
/// round seats the target in an offering of `program`, the second round's
/// exclusions leave it free to take a seat of that program and bar it from
/// every other program, and bar everyone else the first round seated.
pub proof fn lemma_carry_over_keeps_target(
    first_entries: Seq<(String, StudentRecord)>,
    first_lists: Seq<Seq<Seq<char>>>,
    prior: Seq<(String, String)>,
    target: Seq<char>,
    o: int,
    i: int,
)
    requires
        round_lists(first_lists, first_entries, Seq::empty(), target),
        seats_view(prior) == seats_of(
            offerings_of(first_entries),
            first_lists,
            offerings_of(first_entries).len() as int,
        ),
        0 <= o < first_lists.len(),
        0 <= i < first_lists[o].len(),
        canon(first_lists[o][i]) == target,
    ensures
        !blocked(prior, target, target, offerings_of(first_entries)[o].program_name@),
        forall|other: Seq<char>|
            other != offerings_of(first_entries)[o].program_name@ ==> #[trigger] blocked(
                prior,
                target,
                target,
                other,
            ),
        forall|k: Seq<char>, any: Seq<char>|
            k != target && (exists|t: int| 0 <= t < prior.len() && (#[trigger] prior[t]).0@ == k)
                ==> #[trigger] blocked(prior, target, k, any),
{
    let offers = offerings_of(first_entries);
    let q = choose|q: Seq<EagerApplicant>|
        applicants_of(q, first_entries) && first_lists == seat_all(
            offers,
            sort_by(q, by_seating()),
            Seq::empty(),
            target,
        ).0;
    let queue = sort_by(q, by_seating());
    lemma_capacity_respected(offers, queue, Seq::empty(), target);
    lemma_queue_consistent(q, first_entries);
    lemma_single_assignment(offers, queue, Seq::empty(), target);
    assert(seats_distinct(first_lists));
    let n = offers.len() as int;
    let program = offers[o].program_name@;
    let sv = seats_view(prior);
    assert(sv.len() == prior.len());
    lemma_seats_of_has(offers, first_lists, n, o, i);
    let w = choose|t: int|
        0 <= t < seats_of(offers, first_lists, n).len() && #[trigger] seats_of(offers, first_lists, n)[t] == (
            canon(first_lists[o][i]),
            program,
        );
    assert(sv[w] == seat_view(prior[w]));
    assert(prior[w].0@ == target && prior[w].1@ == program);
    assert forall|t: int| 0 <= t < prior.len() && (#[trigger] prior[t]).0@ == target implies prior[t].1@
        == program by {
        assert(sv[t] == seat_view(prior[t]));
        lemma_seats_of_entry(offers, first_lists, n, t);
        let (o2, i2) = choose|o2: int, i2: int|
            0 <= o2 < n && 0 <= i2 < first_lists[o2].len() && seats_of(offers, first_lists, n)[t] == (
                canon(#[trigger] first_lists[o2][i2]),
                offers[o2].program_name@,
            );
        if o2 != o || i2 != i {
            assert(canon(first_lists[o2][i2]) != canon(first_lists[o][i]));
        }
    }
    lemma_carry_over_exclusion(prior, target, program);
}

/// Each round of the carry-over policy, whatever its exclusions, respects
/// every offering's seats and admits no canonical identifier twice.
pub proof fn lemma_round_invariants(
    lists: Seq<Seq<Seq<char>>>,
    entries: Seq<(String, StudentRecord)>,
    prior: Seq<(String, String)>,
    target: Seq<char>,
)
    requires
        round_lists(lists, entries, prior, target),
    ensures
        lists.len() == offerings_of(entries).len(),
        forall|o: int|
            0 <= o < lists.len() ==> #[trigger] lists[o].len() <= offerings_of(
                entries,
            )[o].available_places,
        seats_distinct(lists),
{
    let q = choose|q: Seq<EagerApplicant>|
        applicants_of(q, entries) && lists == seat_all(
            offerings_of(entries),
            sort_by(q, by_seating()),
            prior,
            target,
        ).0;
    let queue = sort_by(q, by_seating());
    lemma_capacity_respected(offerings_of(entries), queue, prior, target);
    lemma_queue_consistent(q, entries);
    lemma_single_assignment(offerings_of(entries), queue, prior, target);
}

} // verus!
